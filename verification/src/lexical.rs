//! The lexical index: how paths and contents are cut into tokens, where an
//! index lives, what is asked of it, and what a search hands back.

use vstd::prelude::*;
use vstd::string::StringExecFns;
use vstd::utf8::{decode_utf8, is_ascii_chars, valid_utf8};
use crate::text::{texts, utf8_text};

verus! {

/// Whether `c` separates content tokens: an ASCII space, tab, line feed,
/// form feed or carriage return.
pub open spec fn is_blank(c: char) -> bool {
    c == ' ' || c == '\t' || c == '\n' || c == '\x0C' || c == '\r'
}

/// Whether `c` separates path tokens.
pub open spec fn is_slash(c: char) -> bool {
    c == '/'
}

/// The maximal stretches of `text` that hold no separator, in order.
pub open spec fn runs(text: Seq<char>, sep: spec_fn(char) -> bool) -> Seq<Seq<char>>
    decreases text.len(),
{
    if text.len() == 0 {
        Seq::<Seq<char>>::empty()
    } else {
        let before = runs(text.drop_last(), sep);
        let c = text.last();
        if sep(c) {
            before
        } else if text.len() >= 2 && !sep(text[text.len() - 2]) {
            before.drop_last().push(before.last().push(c))
        } else {
            before.push(seq![c])
        }
    }
}

/// What tantivy's `LowerCaser` makes of the text of one token.
pub uninterp spec fn lowercased(token: Seq<char>) -> Seq<char>;

/// `c` in lower case where it is one of the letters `A` to `Z`, else `c`.
pub open spec fn ascii_lower(c: char) -> char {
    if 'A' <= c <= 'Z' {
        ((c as u32) + 32) as char
    } else {
        c
    }
}

/// `token` with each of the letters `A` to `Z` in lower case.
pub open spec fn ascii_lowered(token: Seq<char>) -> Seq<char> {
    Seq::new(token.len(), |i: int| ascii_lower(token[i]))
}

/// Each token of `tokens`, lower-cased.
pub open spec fn lowered(tokens: Seq<Seq<char>>) -> Seq<Seq<char>> {
    Seq::new(tokens.len(), |i: int| lowercased(tokens[i]))
}

/// The content tokens of `text`: its stretches between blanks, lower-cased.
pub open spec fn content_tokens(text: Seq<char>) -> Seq<Seq<char>> {
    lowered(runs(text, |c: char| is_blank(c)))
}

/// The path tokens of `text`: its stretches between slashes, lower-cased.
pub open spec fn path_tokens(text: Seq<char>) -> Seq<Seq<char>> {
    lowered(runs(text, |c: char| is_slash(c)))
}

/// Cuts `text` into content tokens with tantivy's `WhitespaceTokenizer`
/// followed by its `LowerCaser`, and collects the texts of the tokens. The
/// tokenizer emits each maximal stretch without ASCII whitespace; the filter
/// maps each to lower case: a stretch of ASCII characters by turning `A` to
/// `Z` into `a` to `z`, any other as the name `lowercased` says.
#[verifier::external_body]
pub fn code_tokenizer(text: &str) -> (tokens: Vec<String>)
    ensures
        tokens@.len() == runs(text@, |c: char| is_blank(c)).len(),
        forall|i: int|
            0 <= i < tokens@.len() ==> (#[trigger] tokens@[i])@ == lowercased(
                runs(text@, |c: char| is_blank(c))[i],
            ),
        forall|i: int|
            0 <= i < tokens@.len() && is_ascii_chars(runs(text@, |c: char| is_blank(c))[i])
                ==> (#[trigger] tokens@[i])@ == ascii_lowered(
                runs(text@, |c: char| is_blank(c))[i],
            ),
{
    let tokenizer = tantivy::tokenizer::WhitespaceTokenizer::default();
    let mut analyzer = tantivy::tokenizer::TextAnalyzer::builder(tokenizer)
        .filter(tantivy::tokenizer::LowerCaser)
        .build();
    let mut stream = analyzer.token_stream(text);
    let mut tokens = Vec::new();
    while stream.advance() {
        tokens.push(stream.token().text.clone());
    }
    tokens
}

/// Cuts `text` into path tokens with tantivy's `RegexTokenizer` for the
/// pattern `[^/]+`, followed by its `LowerCaser`, and collects the texts of
/// the tokens. Each match of the pattern is a maximal stretch without a
/// slash; the filter maps each to lower case: a stretch of ASCII characters
/// by turning `A` to `Z` into `a` to `z`, any other as the name `lowercased`
/// says.
#[verifier::external_body]
pub fn path_tokenizer(text: &str) -> (tokens: Vec<String>)
    ensures
        tokens@.len() == runs(text@, |c: char| is_slash(c)).len(),
        forall|i: int|
            0 <= i < tokens@.len() ==> (#[trigger] tokens@[i])@ == lowercased(
                runs(text@, |c: char| is_slash(c))[i],
            ),
        forall|i: int|
            0 <= i < tokens@.len() && is_ascii_chars(runs(text@, |c: char| is_slash(c))[i])
                ==> (#[trigger] tokens@[i])@ == ascii_lowered(
                runs(text@, |c: char| is_slash(c))[i],
            ),
{
    let tokenizer = tantivy::tokenizer::RegexTokenizer::new(r"[^/]+").unwrap();
    let mut analyzer = tantivy::tokenizer::TextAnalyzer::builder(tokenizer)
        .filter(tantivy::tokenizer::LowerCaser)
        .build();
    let mut stream = analyzer.token_stream(text);
    let mut tokens = Vec::new();
    while stream.advance() {
        tokens.push(stream.token().text.clone());
    }
    tokens
}

/// The two fields of an indexed document.
#[derive(Clone, Copy, Debug, PartialEq, Eq, Structural)]
pub enum Field {
    Path,
    Content,
}

/// The tokens under which the value `text` of `field` is indexed.
pub fn tokens_of(field: Field, text: &str) -> (tokens: Vec<String>)
    ensures
        texts(tokens@) == match field {
            Field::Path => path_tokens(text@),
            Field::Content => content_tokens(text@),
        },
        is_ascii_chars(text@) ==> texts(tokens@) == match field {
            Field::Path => ascii_tokens(text@, |c: char| is_slash(c)),
            Field::Content => ascii_tokens(text@, |c: char| is_blank(c)),
        },
{
    match field {
        Field::Path => {
            let tokens = path_tokenizer(text);
            assert(texts(tokens@) =~= path_tokens(text@));
            proof {
                if is_ascii_chars(text@) {
                    lemma_runs(text@, |c: char| is_slash(c));
                    assert(texts(tokens@) =~= ascii_tokens(text@, |c: char| is_slash(c)));
                }
            }
            tokens
        },
        Field::Content => {
            let tokens = code_tokenizer(text);
            assert(texts(tokens@) =~= content_tokens(text@));
            proof {
                if is_ascii_chars(text@) {
                    lemma_runs(text@, |c: char| is_blank(c));
                    assert(texts(tokens@) =~= ascii_tokens(text@, |c: char| is_blank(c)));
                }
            }
            tokens
        },
    }
}

/// The tokens of an ASCII text: its stretches between separators, with the
/// letters `A` to `Z` in lower case.
pub open spec fn ascii_tokens(text: Seq<char>, sep: spec_fn(char) -> bool) -> Seq<Seq<char>> {
    Seq::new(runs(text, sep).len(), |i: int| ascii_lowered(runs(text, sep)[i]))
}

/// No stretch is empty and none holds a separator; a text that does not end
/// in a separator ends where its last stretch ends; and the stretches of an
/// ASCII text are ASCII.
pub proof fn lemma_runs(text: Seq<char>, sep: spec_fn(char) -> bool)
    ensures
        forall|i: int|
            0 <= i < runs(text, sep).len() ==> (#[trigger] runs(text, sep)[i]).len() > 0,
        forall|i: int, j: int|
            0 <= i < runs(text, sep).len() && 0 <= j < runs(text, sep)[i].len() ==> !sep(
                #[trigger] runs(text, sep)[i][j],
            ),
        is_ascii_chars(text) ==> forall|i: int|
            0 <= i < runs(text, sep).len() ==> is_ascii_chars(#[trigger] runs(text, sep)[i]),
        text.len() > 0 && !sep(text.last()) ==> runs(text, sep).len() > 0 && runs(
            text,
            sep,
        ).last().last() == text.last(),
    decreases text.len(),
{
    if text.len() > 0 {
        let front = text.drop_last();
        lemma_runs(front, sep);
        let before = runs(front, sep);
        let now = runs(text, sep);
        let c = text.last();
        if sep(c) {
        } else if text.len() >= 2 && !sep(text[text.len() - 2]) {
            assert(front.last() == text[text.len() - 2]);
            assert(before.len() > 0);
            let grown = before.last().push(c);
            assert(now == before.drop_last().push(grown));
            assert forall|i: int| 0 <= i < now.len() implies (#[trigger] now[i]).len() > 0 by {
                if i < now.len() - 1 {
                    assert(now[i] == before[i]);
                }
            }
            assert forall|i: int, j: int| 0 <= i < now.len() && 0 <= j < now[i].len() implies !sep(
                #[trigger] now[i][j],
            ) by {
                if i < now.len() - 1 {
                    assert(now[i] == before[i]);
                } else if j < grown.len() - 1 {
                    assert(grown[j] == before.last()[j]);
                }
            }
            if is_ascii_chars(text) {
                assert(is_ascii_chars(front)) by {
                    assert forall|k: int| 0 <= k < front.len() implies '\0' <= #[trigger] front[k]
                        <= '\u{7f}' by {
                        assert(front[k] == text[k]);
                    }
                }
                assert forall|i: int| 0 <= i < now.len() implies is_ascii_chars(
                    #[trigger] now[i],
                ) by {
                    if i < now.len() - 1 {
                        assert(now[i] == before[i]);
                    } else {
                        assert forall|k: int| 0 <= k < grown.len() implies '\0'
                            <= #[trigger] grown[k] <= '\u{7f}' by {
                            if k < grown.len() - 1 {
                                assert(grown[k] == before.last()[k]);
                            } else {
                                assert(grown[k] == text[text.len() - 1]);
                            }
                        }
                    }
                }
            }
        } else {
            let fresh = seq![c];
            assert(now == before.push(fresh));
            assert forall|i: int| 0 <= i < now.len() implies (#[trigger] now[i]).len() > 0 by {
                if i < before.len() {
                    assert(now[i] == before[i]);
                }
            }
            assert forall|i: int, j: int| 0 <= i < now.len() && 0 <= j < now[i].len() implies !sep(
                #[trigger] now[i][j],
            ) by {
                if i < before.len() {
                    assert(now[i] == before[i]);
                }
            }
            if is_ascii_chars(text) {
                assert(is_ascii_chars(front)) by {
                    assert forall|k: int| 0 <= k < front.len() implies '\0' <= #[trigger] front[k]
                        <= '\u{7f}' by {
                        assert(front[k] == text[k]);
                    }
                }
                assert forall|i: int| 0 <= i < now.len() implies is_ascii_chars(
                    #[trigger] now[i],
                ) by {
                    if i < before.len() {
                        assert(now[i] == before[i]);
                    } else {
                        assert(fresh[0] == text[text.len() - 1]);
                    }
                }
            }
        }
    }
}

/// How much of a term's occurrences the index records.
#[derive(Clone, Copy, Debug, PartialEq, Eq, Structural)]
pub enum Postings {
    /// How often the term occurs in a document: enough to match terms.
    WithFreqs,
    /// Also where it occurs: needed to match phrases.
    WithFreqsAndPositions,
}

/// How one field of a document is indexed.
pub struct FieldOptions {
    /// The field's name in the schema.
    pub name: &'static str,
    /// The name under which the field's tokenizer is registered.
    pub tokenizer: &'static str,
    pub postings: Postings,
    /// Whether the index keeps the field's value, to hand it back.
    pub stored: bool,
}

/// How `field` is indexed. Both fields are stored; only the content records
/// positions, so only the content can be searched by phrase.
pub fn field_options(field: Field) -> (options: FieldOptions)
    ensures
        options.stored,
        field == Field::Path ==> options.name@ == "path"@ && options.tokenizer@
            == "path_tokenizer"@ && options.postings == Postings::WithFreqs,
        field == Field::Content ==> options.name@ == "content"@ && options.tokenizer@
            == "code_tokenizer"@ && options.postings == Postings::WithFreqsAndPositions,
{
    match field {
        Field::Path => FieldOptions {
            name: "path",
            tokenizer: "path_tokenizer",
            postings: Postings::WithFreqs,
            stored: true,
        },
        Field::Content => FieldOptions {
            name: "content",
            tokenizer: "code_tokenizer",
            postings: Postings::WithFreqsAndPositions,
            stored: true,
        },
    }
}

/// Where the index of `directory` lives.
pub open spec fn location_of(directory: Seq<char>) -> Seq<char> {
    directory + "-index"@
}

/// Where the index of `directory` lives: beside it, under its name followed
/// by `-index`.
pub fn index_location(directory: &str) -> (location: String)
    ensures
        location@ == location_of(directory@),
{
    let mut location = String::from_str(directory);
    location.append("-index");
    location
}

/// What building an index comes to. Either way the plan names the index's
/// location.
pub enum BuildPlan {
    /// An index stands at the location already: nothing is read or written.
    Reuse(String),
    /// No index stands there yet: one is made of the directory's entries.
    Create(String),
}

/// What to do to have an index of `directory`, given whether something
/// exists at its location already.
pub fn plan_build(directory: &str, index_exists: bool) -> (plan: BuildPlan)
    ensures
        (match plan {
            BuildPlan::Reuse(location) => index_exists && location@ == location_of(directory@),
            BuildPlan::Create(location) => !index_exists && location@ == location_of(directory@),
        }),
{
    let location = index_location(directory);
    if index_exists {
        BuildPlan::Reuse(location)
    } else {
        BuildPlan::Create(location)
    }
}

/// One unit of the index: a file of the directory.
pub struct IndexedDocument {
    pub path: String,
    pub content: String,
}

/// Why an index could not be built.
#[derive(Clone, Copy, Debug, PartialEq, Eq, Structural)]
pub enum BuildError {
    /// The `entry`-th entry of the directory is not UTF-8 text.
    NotText { entry: usize },
}

/// The document for the file `path` that holds `bytes`, or nothing where
/// the bytes are not UTF-8 text.
pub fn document_of(path: String, bytes: Vec<u8>) -> (document: Option<IndexedDocument>)
    ensures
        document is Some <==> valid_utf8(bytes@),
        document is Some ==> document->0.path@ == path@ && document->0.content@ == decode_utf8(
            bytes@,
        ),
{
    match utf8_text(bytes) {
        Some(content) => Some(IndexedDocument { path, content }),
        None => None,
    }
}

/// The first entry that is not UTF-8 text, if there is one.
pub open spec fn first_not_text(entries: Seq<(String, Vec<u8>)>) -> Option<int>
    decreases entries.len(),
{
    if entries.len() == 0 {
        None
    } else {
        match first_not_text(entries.drop_last()) {
            Some(i) => Some(i),
            None => if valid_utf8(entries.last().1@) {
                None
            } else {
                Some(entries.len() - 1)
            },
        }
    }
}

/// The documents of a directory whose entries are `entries`, each a path
/// with the bytes of the file: one document per entry, in order. One entry
/// that is not UTF-8 text fails the whole build.
pub fn documents_of(entries: Vec<(String, Vec<u8>)>) -> (documents: Result<
    Vec<IndexedDocument>,
    BuildError,
>)
    ensures
        documents is Ok <==> first_not_text(entries@) is None,
        documents is Ok ==> documents->Ok_0@.len() == entries@.len() && forall|i: int|
            0 <= i < entries@.len() ==> (#[trigger] documents->Ok_0@[i]).path@ == entries@[i].0@
                && documents->Ok_0@[i].content@ == decode_utf8(entries@[i].1@),
        documents is Err ==> first_not_text(entries@) == Some(
            documents->Err_0->entry as int,
        ),
{
    let ghost all = entries@;
    let mut documents: Vec<IndexedDocument> = Vec::new();
    let mut i: usize = 0;
    while i < entries.len()
        invariant
            all == entries@,
            i <= all.len(),
            first_not_text(all.take(i as int)) is None,
            documents@.len() == i,
            forall|k: int|
                0 <= k < i ==> (#[trigger] documents@[k]).path@ == all[k].0@
                    && documents@[k].content@ == decode_utf8(all[k].1@),
        decreases all.len() - i,
    {
        proof {
            assert(all.take(i + 1).drop_last() =~= all.take(i as int));
            assert(all.take(i + 1).last() == all[i as int]);
        }
        let path = entries[i].0.clone();
        let bytes = entries[i].1.clone();
        assert(bytes@ == all[i as int].1@);
        match document_of(path, bytes) {
            Some(document) => {
                documents.push(document);
            },
            None => {
                proof {
                    lemma_first_not_text_stays(all, i + 1);
                }
                return Err(BuildError::NotText { entry: i });
            },
        }
        i = i + 1;
    }
    proof {
        assert(all.take(all.len() as int) =~= all);
    }
    Ok(documents)
}

/// An entry found not to be text stays the first such entry however many
/// entries follow.
pub proof fn lemma_first_not_text_stays(entries: Seq<(String, Vec<u8>)>, cut: int)
    requires
        0 <= cut <= entries.len(),
        first_not_text(entries.take(cut)) is Some,
    ensures
        first_not_text(entries) == first_not_text(entries.take(cut)),
    decreases entries.len() - cut,
{
    if cut == entries.len() {
        assert(entries.take(cut) =~= entries);
    } else {
        assert(entries.take(cut + 1).drop_last() =~= entries.take(cut));
        lemma_first_not_text_stays(entries, cut + 1);
    }
}

/// How many files a search hands back at most.
pub const SEARCH_LIMIT: usize = 10;

/// The query that is put to the index for the words `query`: the words in
/// double quotes, so that they are looked for as one phrase.
pub open spec fn quoted(query: Seq<char>) -> Seq<char> {
    seq!['"'] + query + seq!['"']
}

/// The query that is put to the index for the words `query`.
pub fn phrase_query(query: &str) -> (phrase: String)
    ensures
        phrase@ == quoted(query@),
{
    let mut phrase = String::new();
    phrase.push('"');
    phrase.append(query);
    phrase.push('"');
    assert(phrase@ =~= quoted(query@));
    phrase
}

/// A document as the index hands it back: each stored field with the
/// values that it has.
pub struct RetrievedDocument {
    pub path: Vec<String>,
    pub content: Vec<String>,
}

/// A file that a search found.
#[derive(Debug)]
pub struct File {
    pub path: String,
    pub content: String,
}

impl View for File {
    type V = (Seq<char>, Seq<char>);

    open spec fn view(&self) -> Self::V {
        (self.path@, self.content@)
    }
}

/// The views of a sequence of files.
pub open spec fn file_views(files: Seq<File>) -> Seq<(Seq<char>, Seq<char>)> {
    Seq::new(files.len(), |i: int| files[i]@)
}

/// Whether a retrieved document has a path and a content.
pub open spec fn readable(document: RetrievedDocument) -> bool {
    document.path@.len() > 0 && document.content@.len() > 0
}

/// The file that a retrieved document stands for: the first value of each
/// field. A document that lacks a field stands for none.
pub fn file_of(document: &RetrievedDocument) -> (file: Option<File>)
    ensures
        file is Some <==> readable(*document),
        file is Some ==> file->0@ == (document.path@[0]@, document.content@[0]@),
{
    if document.path.len() > 0 && document.content.len() > 0 {
        Some(File { path: document.path[0].clone(), content: document.content[0].clone() })
    } else {
        None
    }
}

/// How many of `found` documents a search hands back.
pub open spec fn kept_count(found: int) -> int {
    if found <= SEARCH_LIMIT {
        found
    } else {
        SEARCH_LIMIT as int
    }
}

/// What a search hands back when the index ranked `documents`: the files of
/// the first `SEARCH_LIMIT` of them, in their order; nothing where one of
/// these cannot be read.
pub open spec fn files_found(documents: Seq<RetrievedDocument>) -> Seq<(Seq<char>, Seq<char>)> {
    let n = kept_count(documents.len() as int);
    if forall|i: int| 0 <= i < n ==> readable(#[trigger] documents[i]) {
        Seq::new(n as nat, |i: int| (documents[i].path@[0]@, documents[i].content@[0]@))
    } else {
        Seq::<(Seq<char>, Seq<char>)>::empty()
    }
}

/// What a search hands back: the files of the best documents that the
/// index ranked, at most `SEARCH_LIMIT` of them, or nothing where the index
/// could not be opened, the query not be parsed, or a document not be read.
pub fn search_results(outcome: Option<Vec<RetrievedDocument>>) -> (files: Vec<File>)
    ensures
        outcome is None ==> files@.len() == 0,
        outcome is Some ==> file_views(files@) == files_found(outcome->0@),
        files@.len() <= SEARCH_LIMIT,
{
    let documents = match outcome {
        Some(documents) => documents,
        None => {
            return Vec::new();
        },
    };
    let n = if documents.len() <= SEARCH_LIMIT {
        documents.len()
    } else {
        SEARCH_LIMIT
    };
    let mut files: Vec<File> = Vec::new();
    let mut i: usize = 0;
    while i < n
        invariant
            outcome == Some(documents),
            n == kept_count(documents@.len() as int),
            i <= n <= documents@.len(),
            files@.len() == i,
            forall|k: int| 0 <= k < i ==> readable(#[trigger] documents@[k]),
            forall|k: int|
                0 <= k < i ==> (#[trigger] files@[k])@ == (
                    documents@[k].path@[0]@,
                    documents@[k].content@[0]@,
                ),
        decreases n - i,
    {
        match file_of(&documents[i]) {
            Some(file) => {
                files.push(file);
            },
            None => {
                let none: Vec<File> = Vec::new();
                assert(!readable(documents@[i as int]));
                assert(file_views(none@) =~= files_found(documents@));
                return none;
            },
        }
        i = i + 1;
    }
    assert(file_views(files@) =~= files_found(documents@));
    files
}

} // verus!
