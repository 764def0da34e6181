use code_utils::lexical::{
    code_tokenizer, document_of, documents_of, field_options, file_of, index_location,
    path_tokenizer, phrase_query, plan_build, search_results, tokens_of, BuildError, BuildPlan,
    Field, Postings, RetrievedDocument, SEARCH_LIMIT,
};

fn reference_tokens(text: &str, is_separator: fn(char) -> bool) -> Vec<String> {
    let mut tokens: Vec<String> = Vec::new();
    let mut current = String::new();
    for c in text.chars() {
        if is_separator(c) {
            if !current.is_empty() {
                tokens.push(current.clone());
                current.clear();
            }
        } else {
            current.push(c);
        }
    }
    if !current.is_empty() {
        tokens.push(current);
    }
    tokens.iter().map(|t| t.chars().flat_map(|c| c.to_lowercase()).collect()).collect()
}

fn is_blank(c: char) -> bool {
    c == ' ' || c == '\t' || c == '\n' || c == '\x0C' || c == '\r'
}

fn is_slash(c: char) -> bool {
    c == '/'
}

#[test]
fn content_tokens_are_lower_cased_stretches() {
    assert_eq!(code_tokenizer("Foo.Bar(BAZ)  qux"), ["foo.bar(baz)", "qux"]);
    assert_eq!(code_tokenizer(""), Vec::<String>::new());
    assert_eq!(code_tokenizer(" \t\r\n\x0C"), Vec::<String>::new());
    assert_eq!(code_tokenizer("a/b/c.py"), ["a/b/c.py"]);
    assert_eq!(code_tokenizer("x"), ["x"]);
}

#[test]
fn path_tokens_are_lower_cased_segments() {
    assert_eq!(path_tokenizer("src/Lib/Main.RS"), ["src", "lib", "main.rs"]);
    assert_eq!(path_tokenizer("//a///b/"), ["a", "b"]);
    assert_eq!(path_tokenizer(""), Vec::<String>::new());
    assert_eq!(path_tokenizer("///"), Vec::<String>::new());
    assert_eq!(path_tokenizer("my file.txt"), ["my file.txt"]);
    assert_eq!(path_tokenizer("a\nb/c"), ["a\nb", "c"]);
}

#[test]
fn tokenizers_agree_with_their_description() {
    let samples = [
        "def hello():\n    print(\"hello\")\n",
        "  leading and trailing  ",
        "tabs\tand\x0Bvertical\x0Cfeeds\r\n",
        "Ünïcödé ΣΑΣ İstanbul\u{00A0}nbsp\u{2003}emspace",
        "/usr/LOCAL/bin//x",
        "a",
        "",
        "/",
        " ",
        "MiXeD/Case Path/With Spaces/FILE.TXT",
    ];
    for text in samples {
        assert_eq!(code_tokenizer(text), reference_tokens(text, is_blank), "content {:?}", text);
        assert_eq!(path_tokenizer(text), reference_tokens(text, is_slash), "path {:?}", text);
    }
}

#[test]
fn tokens_by_field() {
    assert_eq!(tokens_of(Field::Path, "/A b/C.py"), ["a b", "c.py"]);
    assert_eq!(tokens_of(Field::Content, "/A b/C.py"), ["/a", "b/c.py"]);
}

#[test]
fn fields_of_the_schema() {
    let path = field_options(Field::Path);
    assert_eq!(path.name, "path");
    assert_eq!(path.tokenizer, "path_tokenizer");
    assert_eq!(path.postings, Postings::WithFreqs);
    assert!(path.stored);
    let content = field_options(Field::Content);
    assert_eq!(content.name, "content");
    assert_eq!(content.tokenizer, "code_tokenizer");
    assert_eq!(content.postings, Postings::WithFreqsAndPositions);
    assert!(content.stored);
}

#[test]
fn index_lives_beside_its_directory() {
    assert_eq!(index_location("/tmp/repo"), "/tmp/repo-index");
    assert_eq!(index_location(""), "-index");
    assert_eq!(index_location("/tmp/repo"), index_location("/tmp/repo"));
}

#[test]
fn existing_index_is_reused() {
    match plan_build("/tmp/repo", true) {
        BuildPlan::Reuse(location) => assert_eq!(location, "/tmp/repo-index"),
        BuildPlan::Create(_) => panic!("an existing index must be reused"),
    }
    match plan_build("/tmp/repo", false) {
        BuildPlan::Create(location) => assert_eq!(location, "/tmp/repo-index"),
        BuildPlan::Reuse(_) => panic!("there is no index to reuse"),
    }
}

#[test]
fn documents_need_text() {
    let document = document_of("a.py".to_string(), b"x = 1\n".to_vec()).unwrap();
    assert_eq!(document.path, "a.py");
    assert_eq!(document.content, "x = 1\n");
    let unicode = document_of("u".to_string(), "héllo ✓".as_bytes().to_vec()).unwrap();
    assert_eq!(unicode.content, "héllo ✓");
    assert!(document_of("bin".to_string(), vec![0xff, 0x00]).is_none());
}

#[test]
fn one_bad_entry_fails_the_build() {
    let good = vec![
        ("a.py".to_string(), b"a".to_vec()),
        ("b.py".to_string(), b"b".to_vec()),
    ];
    let documents = documents_of(good).ok().unwrap();
    assert_eq!(documents.len(), 2);
    assert_eq!(documents[0].path, "a.py");
    assert_eq!(documents[1].content, "b");

    let bad = vec![
        ("a.py".to_string(), b"a".to_vec()),
        ("b.bin".to_string(), vec![0xc3, 0x28]),
        ("c.bin".to_string(), vec![0xff]),
    ];
    assert_eq!(documents_of(bad).err(), Some(BuildError::NotText { entry: 1 }));
    assert_eq!(documents_of(Vec::new()).ok().unwrap().len(), 0);
}

#[test]
fn query_is_quoted() {
    assert_eq!(phrase_query("hello():"), "\"hello():\"");
    assert_eq!(phrase_query(""), "\"\"");
    assert_eq!(phrase_query("a b"), "\"a b\"");
}

fn retrieved(path: &str, content: &str) -> RetrievedDocument {
    RetrievedDocument { path: vec![path.to_string()], content: vec![content.to_string()] }
}

#[test]
fn retrieved_document_gives_its_first_values() {
    let document = RetrievedDocument {
        path: vec!["a.py".to_string(), "other".to_string()],
        content: vec!["x".to_string()],
    };
    let file = file_of(&document).unwrap();
    assert_eq!(file.path, "a.py");
    assert_eq!(file.content, "x");
    assert!(file_of(&RetrievedDocument { path: vec![], content: vec!["x".to_string()] }).is_none());
    assert!(file_of(&RetrievedDocument { path: vec!["p".to_string()], content: vec![] }).is_none());
}

#[test]
fn search_hands_back_at_most_ten() {
    assert_eq!(SEARCH_LIMIT, 10);
    let ranked: Vec<RetrievedDocument> =
        (0..25).map(|n| retrieved(&format!("f{}.py", n), "same")).collect();
    let files = search_results(Some(ranked));
    assert_eq!(files.len(), 10);
    for (n, file) in files.iter().enumerate() {
        assert_eq!(file.path, format!("f{}.py", n));
        assert_eq!(file.content, "same");
    }
    let two = search_results(Some(vec![retrieved("hello1.py", "x"), retrieved("hello2.py", "x")]));
    assert_eq!(two.len(), 2);
    assert_eq!(two[0].content, two[1].content);
    assert_eq!(two[1].path, "hello2.py");
}

#[test]
fn failed_search_is_empty() {
    assert_eq!(search_results(None).len(), 0);
    assert_eq!(search_results(Some(Vec::new())).len(), 0);
    let broken = vec![
        retrieved("a", "x"),
        RetrievedDocument { path: vec![], content: vec![] },
        retrieved("c", "z"),
    ];
    assert_eq!(search_results(Some(broken)).len(), 0);
    let mut late_break: Vec<RetrievedDocument> =
        (0..10).map(|n| retrieved(&format!("f{}", n), "x")).collect();
    late_break.push(RetrievedDocument { path: vec![], content: vec![] });
    assert_eq!(search_results(Some(late_break)).len(), 10);
}
