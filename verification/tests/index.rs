use code_utils::lexical::{
    documents_of, field_options, phrase_query, search_results, Field, FieldOptions, File,
    Postings, RetrievedDocument, SEARCH_LIMIT,
};
use tantivy::collector::TopDocs;
use tantivy::query::QueryParser;
use tantivy::schema::{
    IndexRecordOption, OwnedValue, Schema, TantivyDocument, TextFieldIndexing, TextOptions,
};
use tantivy::tokenizer::{LowerCaser, RegexTokenizer, TextAnalyzer, WhitespaceTokenizer};
use tantivy::{Document, Index, IndexWriter};

fn text_options(options: &FieldOptions) -> TextOptions {
    let record = match options.postings {
        Postings::WithFreqs => IndexRecordOption::WithFreqs,
        Postings::WithFreqsAndPositions => IndexRecordOption::WithFreqsAndPositions,
    };
    let indexing =
        TextFieldIndexing::default().set_tokenizer(options.tokenizer).set_index_option(record);
    let text = TextOptions::default().set_indexing_options(indexing);
    if options.stored {
        text.set_stored()
    } else {
        text
    }
}

fn index_in_memory(files: &[(&str, &str)]) -> Index {
    let mut builder = Schema::builder();
    for field in [Field::Path, Field::Content] {
        let options = field_options(field);
        builder.add_text_field(options.name, text_options(&options));
    }
    let schema = builder.build();
    let path_field = schema.get_field("path").unwrap();
    let content_field = schema.get_field("content").unwrap();

    let index = Index::create_in_ram(schema);
    index.tokenizers().register(
        "code_tokenizer",
        TextAnalyzer::builder(WhitespaceTokenizer::default()).filter(LowerCaser).build(),
    );
    index.tokenizers().register(
        "path_tokenizer",
        TextAnalyzer::builder(RegexTokenizer::new(r"[^/]+").unwrap()).filter(LowerCaser).build(),
    );

    let entries: Vec<(String, Vec<u8>)> =
        files.iter().map(|(path, text)| (path.to_string(), text.as_bytes().to_vec())).collect();
    let mut writer: IndexWriter = index.writer(15_000_000).unwrap();
    for document in documents_of(entries).ok().unwrap() {
        let mut doc = TantivyDocument::default();
        doc.add_text(path_field, document.path);
        doc.add_text(content_field, document.content);
        writer.add_document(doc).unwrap();
    }
    writer.commit().unwrap();
    index
}

fn values_of(document: &TantivyDocument, schema: &Schema, name: &str) -> Vec<String> {
    let field = schema.get_field(name).unwrap();
    let mut values = Vec::new();
    for (found, value) in document.iter_fields_and_values() {
        if found == field {
            if let OwnedValue::Str(text) = value {
                values.push(text.clone());
            }
        }
    }
    values
}

fn search_in_memory(index: &Index, words: &str) -> Vec<File> {
    let reader = index.reader().unwrap();
    let searcher = reader.searcher();
    let schema = index.schema();
    let fields = schema.fields().map(|(field, _)| field).collect();
    let parser = QueryParser::for_index(index, fields);
    let outcome = match parser.parse_query(&phrase_query(words)) {
        Ok(query) => {
            let top = searcher.search(&query, &TopDocs::with_limit(SEARCH_LIMIT)).unwrap();
            let mut documents = Vec::new();
            for (_score, address) in top {
                let document: TantivyDocument = searcher.doc(address).unwrap();
                documents.push(RetrievedDocument {
                    path: values_of(&document, &schema, "path"),
                    content: values_of(&document, &schema, "content"),
                });
            }
            Some(documents)
        }
        Err(_) => None,
    };
    search_results(outcome)
}

#[test]
fn phrase_finds_both_files_with_the_same_content() {
    let index = index_in_memory(&[
        ("root/variables.py", "a = 1\nb = 2\nc = 3\nd = 4\ne = 5\nf = 6\n"),
        ("root/hello1.py", "def hello():\n    print(\"hello\")\n"),
        ("root/hello2.py", "def hello():\n    print(\"hello\")\n"),
    ]);
    let ret = search_in_memory(&index, "hello():");

    assert_eq!(ret.len(), 2);
    assert_eq!(ret[0].content, "def hello():\n    print(\"hello\")\n");
    assert_eq!(ret[1].content, "def hello():\n    print(\"hello\")\n");
    let mut paths: Vec<&str> = ret.iter().map(|file| file.path.as_str()).collect();
    paths.sort();
    assert_eq!(paths, ["root/hello1.py", "root/hello2.py"]);
}

#[test]
fn phrase_needs_its_words_side_by_side() {
    let index = index_in_memory(&[
        ("a.py", "def hello():\n    print(\"hello\")\n"),
        ("b.py", "hello(): def\n"),
    ]);
    let found = search_in_memory(&index, "def hello():");
    assert_eq!(found.len(), 1);
    assert_eq!(found[0].path, "a.py");
    assert_eq!(search_in_memory(&index, "DEF HELLO():").len(), 1);
    assert_eq!(search_in_memory(&index, "hello").len(), 0);
    assert_eq!(search_in_memory(&index, "print(\"hello\")").len(), 0);
}

#[test]
fn path_segment_finds_its_file() {
    let index = index_in_memory(&[("src/Lib/main.rs", "fn main() {}\n"), ("doc/readme.md", "x\n")]);
    let found = search_in_memory(&index, "lib");
    assert_eq!(found.len(), 1);
    assert_eq!(found[0].path, "src/Lib/main.rs");
    assert_eq!(search_in_memory(&index, "main.rs").len(), 1);
}

#[test]
fn search_is_capped_whatever_the_corpus() {
    let names: Vec<String> = (0..25).map(|n| format!("dir/file{}.py", n)).collect();
    let files: Vec<(&str, &str)> = names.iter().map(|name| (name.as_str(), "same words\n")).collect();
    let index = index_in_memory(&files);
    assert_eq!(search_in_memory(&index, "same words").len(), 10);
}
