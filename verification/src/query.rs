//! Queries over a text: a fixed-string search that reports the numbers of
//! the lines that match, and a syntax query that reports where its captures
//! stand.

use vstd::prelude::*;
use vstd::utf8::{decode_utf8, valid_utf8};
use crate::text::{chars_of, marks_pieces, piece_bounds, split, string_of, utf8_text};

verus! {

/// One message of a search report.
pub struct GrepResult {
    /// What the message is about: the start or end of a search, a match, ...
    pub kind: String,
    pub data: GrepResultData,
}

/// The part of a report message that this library reads.
pub struct GrepResultData {
    /// The 1-indexed line that the message speaks of, where it speaks of one.
    pub line_number: Option<usize>,
}

/// Why a search gave no line numbers.
#[derive(Clone, Copy, Debug, PartialEq, Eq, Structural)]
pub enum GrepError {
    /// The pattern could not be compiled, or the search itself failed.
    Search,
    /// The report is not valid UTF-8.
    Encoding,
}

/// `anyhow::Error`, in which a failed search hands its reason back. The
/// library looks at none of it.
#[verifier::external_type_specification]
#[verifier::external_body]
pub struct ExAnyhowError(anyhow::Error);

/// What `serde_json` reads out of one line of a report: the message's `type`
/// and the `line_number` of its `data`, or nothing where the line is no such
/// message.
pub uninterp spec fn decoded_message(line: Seq<char>) -> Option<(Seq<char>, Option<usize>)>;

/// Parses one report line with `serde_json::from_str` and picks the members
/// `type` and `data.line_number` out of the value. The contract only gives
/// the outcome its name: the same line always decodes to the same message.
#[verifier::external_body]
fn decode_message(line: &str) -> (message: Option<GrepResult>)
    ensures
        message is Some <==> decoded_message(line@) is Some,
        message is Some ==> decoded_message(line@) == Some(
            (message->0.kind@, message->0.data.line_number),
        ),
{
    let value: serde_json::Value = serde_json::from_str(line).ok()?;
    let kind = value.get("type")?.as_str()?.to_string();
    let data = value.get("data")?;
    let line_number = data.get("line_number").and_then(serde_json::Value::as_u64);
    let line_number = line_number.map(|number| number as usize);
    Some(GrepResult { kind, data: GrepResultData { line_number } })
}

/// Runs a smart-case, fixed-string search for `pattern` over `content` with
/// the `grep` crate (`RegexMatcherBuilder`, `SearcherBuilder` with binary
/// detection that quits at a NUL byte, `JSONBuilder`) and returns the JSON
/// lines that its printer wrote. The report carries the time the search
/// took, so nothing is claimed of its bytes.
#[verifier::external_body]
fn search_report(content: &[u8], pattern: &str) -> (report: Result<Vec<u8>, anyhow::Error>) {
    let matcher = grep::regex::RegexMatcherBuilder::new()
        .case_smart(true)
        .fixed_strings(true)
        .line_terminator(Some(b'\n'))
        .build(pattern)?;
    let mut searcher = grep::searcher::SearcherBuilder::new()
        .binary_detection(grep::searcher::BinaryDetection::quit(b'\x00'))
        .build();
    let mut printer = grep::printer::JSONBuilder::new().build(vec![]);
    searcher.search_reader(&matcher, content, printer.sink(&matcher))?;
    Ok(printer.into_inner())
}

/// The line numbers that the messages on `lines` carry, in order. Lines that
/// are no message, and messages without a line number, add nothing.
pub open spec fn numbers_on(lines: Seq<Seq<char>>) -> Seq<usize>
    decreases lines.len(),
{
    if lines.len() == 0 {
        Seq::<usize>::empty()
    } else {
        let before = numbers_on(lines.drop_last());
        match decoded_message(lines.last()) {
            Some((_, Some(number))) => before.push(number),
            _ => before,
        }
    }
}

/// What a report yields: the line numbers on its lines, or an error where
/// the report is not text.
pub open spec fn report_numbers(report: Seq<u8>) -> Result<Seq<usize>, GrepError> {
    if valid_utf8(report) {
        Ok(numbers_on(split(decode_utf8(report), '\n')))
    } else {
        Err(GrepError::Encoding)
    }
}

/// Reads the line numbers out of a search report in JSON lines.
pub fn line_numbers(report: Vec<u8>) -> (numbers: Result<Vec<usize>, GrepError>)
    ensures
        numbers_view(numbers) == report_numbers(report@),
        numbers is Ok <==> report_numbers(report@) is Ok,
        numbers is Ok ==> numbers->Ok_0@ == report_numbers(report@)->Ok_0,
        numbers is Err ==> numbers->Err_0 == GrepError::Encoding,
{
    let text = match utf8_text(report) {
        Some(text) => text,
        None => {
            return Err(GrepError::Encoding);
        },
    };
    let chars = chars_of(text.as_str());
    let bounds = piece_bounds(&chars, '\n');
    let ghost lines = split(chars@, '\n');
    let mut numbers: Vec<usize> = Vec::new();
    let mut i: usize = 0;
    while i < bounds.len()
        invariant
            marks_pieces(chars@, '\n', bounds@),
            lines == split(chars@, '\n'),
            i <= bounds@.len(),
            numbers@ == numbers_on(lines.take(i as int)),
        decreases bounds.len() - i,
    {
        let ghost piece = lines[i as int];
        let line = string_of(&chars, bounds[i].0, bounds[i].1);
        proof {
            assert(line@ == piece);
            assert(lines.take(i + 1).drop_last() =~= lines.take(i as int));
            assert(lines.take(i + 1).last() == lines[i as int]);
        }
        match decode_message(line.as_str()) {
            Some(message) => {
                match message.data.line_number {
                    Some(number) => {
                        numbers.push(number);
                    },
                    None => {},
                }
            },
            None => {},
        }
        i = i + 1;
    }
    assert(lines.take(lines.len() as int) =~= lines);
    Ok(numbers)
}

/// What a search handed back, as far as the library reads it: the bytes of
/// its report, or nothing where it failed.
pub open spec fn outcome_view(outcome: Result<Vec<u8>, anyhow::Error>) -> Option<Seq<u8>> {
    match outcome {
        Ok(report) => Some(report@),
        Err(_) => None,
    }
}

/// The view of what a search gives.
pub open spec fn numbers_view(numbers: Result<Vec<usize>, GrepError>) -> Result<
    Seq<usize>,
    GrepError,
> {
    match numbers {
        Ok(found) => Ok(found@),
        Err(error) => Err(error),
    }
}

/// What a search gives, by what it handed back: the line numbers that stand
/// in the report; the error `Encoding` for a report that is not text; the
/// error `Search` where the search failed and left no report.
pub open spec fn numbers_read(outcome: Option<Seq<u8>>) -> Result<Seq<usize>, GrepError> {
    match outcome {
        Some(report) => report_numbers(report),
        None => Err(GrepError::Search),
    }
}

/// The numbers of a search that went well, and none for one that failed.
pub open spec fn or_empty(numbers: Result<Seq<usize>, GrepError>) -> Seq<usize> {
    match numbers {
        Ok(found) => found,
        Err(_) => Seq::<usize>::empty(),
    }
}

/// What a search gives, by what it handed back.
pub fn read_outcome(outcome: Result<Vec<u8>, anyhow::Error>) -> (numbers: Result<
    Vec<usize>,
    GrepError,
>)
    ensures
        numbers_view(numbers) == numbers_read(outcome_view(outcome)),
{
    match outcome {
        Ok(report) => line_numbers(report),
        Err(_) => Err(GrepError::Search),
    }
}

/// Searches `content` for the fixed string `pattern`, ignoring case unless
/// the pattern holds an upper-case letter, and returns the 1-indexed numbers
/// of the lines that match. The search is the search engine's: whatever it
/// hands back, a report or a failure, the answer is what [`read_outcome`]
/// makes of it.
pub fn grep(content: &[u8], pattern: &str) -> (numbers: Result<Vec<usize>, GrepError>)
    ensures
        exists|outcome: Option<Seq<u8>>| #[trigger] numbers_read(outcome) == numbers_view(numbers),
{
    let outcome = search_report(content, pattern);
    let ghost handed = outcome_view(outcome);
    let numbers = read_outcome(outcome);
    assert(numbers_read(handed) == numbers_view(numbers));
    numbers
}

/// The line numbers of a search that went well, and none for one that failed.
pub fn numbers_or_none(outcome: Result<Vec<usize>, GrepError>) -> (numbers: Vec<usize>)
    ensures
        numbers@ == or_empty(numbers_view(outcome)),
{
    match outcome {
        Ok(numbers) => numbers,
        Err(_) => {
            let none: Vec<usize> = Vec::new();
            assert(none@ =~= Seq::<usize>::empty());
            none
        },
    }
}

/// Like [`grep`], with a failed search giving no line numbers: whatever the
/// search engine hands back, the answer holds the numbers that
/// [`read_outcome`] makes of it, or none where it makes an error of it.
pub fn _grep(content: &[u8], pattern: &str) -> (numbers: Vec<usize>)
    ensures
        exists|outcome: Option<Seq<u8>>| numbers@ == or_empty(#[trigger] numbers_read(outcome)),
{
    let outcome = grep(content, pattern);
    let ghost handed = choose|handed: Option<Seq<u8>>|
        #[trigger] numbers_read(handed) == numbers_view(outcome);
    let numbers = numbers_or_none(outcome);
    assert(numbers@ == or_empty(numbers_read(handed)));
    numbers
}

/// `tree_sitter::Language`, the grammar that a syntax query is run with.
/// The library only hands it on.
#[verifier::external_type_specification]
#[verifier::external_body]
pub struct ExLanguage(tree_sitter::Language);

/// Parses `code` with tree-sitter's `Parser` for `language`, runs `query`
/// over the tree with `QueryCursor::captures`, and hands out, for each match
/// that the cursor yields, the byte range of the node of each of its
/// captures. Nothing comes back where the language is refused, the code
/// does not parse or the query is not one of the language. Nothing is
/// claimed of the matches or of the ranges.
#[verifier::external_body]
fn query_captures(code: &str, language: &tree_sitter::Language, query: &str) -> (found: Option<
    Vec<Vec<(usize, usize)>>,
>) {
    let mut parser = tree_sitter::Parser::new();
    parser.set_language(language).ok()?;
    let tree = parser.parse(code, None)?;
    let query = tree_sitter::Query::new(language, query).ok()?;
    let mut cursor = tree_sitter::QueryCursor::new();
    let mut found = Vec::new();
    for (matched, _) in cursor.captures(&query, tree.root_node(), code.as_bytes()) {
        let mut ranges = Vec::new();
        for capture in matched.captures {
            ranges.push((capture.node.start_byte(), capture.node.end_byte()));
        }
        found.push(ranges);
    }
    Some(found)
}

/// The ranges of each match, as sequences.
pub open spec fn matches_view(found: Seq<Vec<(usize, usize)>>) -> Seq<Seq<(usize, usize)>> {
    Seq::new(found.len(), |i: int| found[i]@)
}

/// What a query handed back, as mathematical values.
pub open spec fn found_view(found: Option<Vec<Vec<(usize, usize)>>>) -> Option<
    Seq<Seq<(usize, usize)>>,
> {
    match found {
        Some(matches) => Some(matches_view(matches@)),
        None => None,
    }
}

/// The view of what a syntax query gives.
pub open spec fn spans_view(spans: Option<Vec<(usize, usize)>>) -> Option<Seq<(usize, usize)>> {
    match spans {
        Some(ranges) => Some(ranges@),
        None => None,
    }
}

/// The ranges of all matches in one sequence: those of the first match, then
/// those of the second, and so on, each match's ranges in their own order.
pub open spec fn flattened(found: Seq<Seq<(usize, usize)>>) -> Seq<(usize, usize)>
    decreases found.len(),
{
    if found.len() == 0 {
        Seq::<(usize, usize)>::empty()
    } else {
        flattened(found.drop_last()) + found.last()
    }
}

/// What a syntax query gives, by what it handed back: the ranges of all
/// matches in one sequence, or nothing where the query handed nothing back.
pub open spec fn spans_of(found: Option<Seq<Seq<(usize, usize)>>>) -> Option<Seq<(usize, usize)>> {
    match found {
        Some(matches) => Some(flattened(matches)),
        None => None,
    }
}

/// The ranges of all matches in one sequence.
pub fn capture_spans(found: Option<Vec<Vec<(usize, usize)>>>) -> (spans: Option<
    Vec<(usize, usize)>,
>)
    ensures
        spans_view(spans) == spans_of(found_view(found)),
{
    let matches = match found {
        Some(matches) => matches,
        None => {
            return None;
        },
    };
    let ghost all = matches_view(matches@);
    let mut spans: Vec<(usize, usize)> = Vec::new();
    let mut i: usize = 0;
    while i < matches.len()
        invariant
            all == matches_view(matches@),
            i <= all.len(),
            spans@ == flattened(all.take(i as int)),
        decreases all.len() - i,
    {
        let ranges = &matches[i];
        let ghost before = spans@;
        let mut j: usize = 0;
        while j < ranges.len()
            invariant
                j <= ranges@.len(),
                spans@ == before + ranges@.take(j as int),
            decreases ranges.len() - j,
        {
            spans.push(ranges[j]);
            proof {
                assert(ranges@.take(j + 1) =~= ranges@.take(j as int).push(ranges@[j as int]));
                assert(spans@ =~= before + ranges@.take(j + 1));
            }
            j = j + 1;
        }
        proof {
            assert(ranges@.take(ranges@.len() as int) =~= ranges@);
            assert(all.take(i + 1).drop_last() =~= all.take(i as int));
            assert(all.take(i + 1).last() == ranges@);
        }
        i = i + 1;
    }
    proof {
        assert(all.take(all.len() as int) =~= all);
    }
    Some(spans)
}

/// Where in `code`, read as a text of `language`, the captures of `query`
/// stand: the first and the end byte of each. Every match that the query
/// engine yields gives the ranges of all its captures, match after match;
/// nothing comes back where the code cannot be parsed or the query is not a
/// query of the language. The matches are the query engine's: whatever it
/// hands back, the answer is what [`capture_spans`] makes of it.
pub fn ast_query(code: &str, language: &tree_sitter::Language, query: &str) -> (spans: Option<
    Vec<(usize, usize)>,
>)
    ensures
        exists|found: Option<Seq<Seq<(usize, usize)>>>| #[trigger]
            spans_of(found) == spans_view(spans),
{
    let found = query_captures(code, language, query);
    let ghost handed = found_view(found);
    let spans = capture_spans(found);
    assert(spans_of(handed) == spans_view(spans));
    spans
}

} // verus!
