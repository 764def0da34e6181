//! The line windower: a file's lines cut into overlapping, addressable spans.

use vstd::prelude::*;
use vstd::string::StringExecFns;
use crate::text::{
    chars_of, decimal, join, lemma_join_is_stretch, marks_pieces, piece_bounds, push_decimal,
    split, string_of,
};

verus! {

/// Number of lines in a full window.
pub const WINDOW_LINES: usize = 50;

/// Number of lines that two neighbouring full windows share.
pub const WINDOW_OVERLAP: usize = 10;

/// Distance in lines between the starts of two neighbouring windows: a
/// window's length less the overlap.
pub const WINDOW_STRIDE: usize = 40;

/// How many windows a file of `total` lines is cut into: one for each
/// multiple of the stride that is less than `total`.
pub open spec fn window_count(total: nat) -> nat {
    (total + 39) / 40
}

/// The `i`-th window of a file of `total` lines, as a 1-indexed inclusive
/// span: it starts behind `i` strides and is a full window long, unless the
/// file ends before.
pub open spec fn window_span(i: nat, total: nat) -> (nat, nat) {
    (40 * i + 1, if 40 * i + 50 <= total { 40 * i + 50 } else { total })
}

/// All windows of a file of `total` lines, in order.
pub open spec fn window_spans(total: nat) -> Seq<(nat, nat)> {
    Seq::new(window_count(total), |i: int| window_span(i as nat, total))
}

/// The view of a vector of spans as mathematical pairs.
pub open spec fn spans_view(v: Seq<(usize, usize)>) -> Seq<(nat, nat)> {
    Seq::new(v.len(), |i: int| (v[i].0 as nat, v[i].1 as nat))
}

/// Computes the spans of every window of a file that has `total` lines.
pub fn line_windows(total: usize) -> (spans: Vec<(usize, usize)>)
    ensures
        spans_view(spans@) == window_spans(total as nat),
        spans@.len() == window_count(total as nat),
        forall|i: int|
            0 <= i < spans@.len() ==> (spans@[i].0 as nat, spans@[i].1 as nat) == window_span(
                i as nat,
                total as nat,
            ),
{
    let mut spans: Vec<(usize, usize)> = Vec::new();
    let mut start: usize = 0;
    if total == 0 {
        assert(spans_view(spans@) =~= window_spans(total as nat));
        return spans;
    }
    loop
        invariant_except_break
            start < total,
            start == 40 * spans@.len(),
            spans@.len() < window_count(total as nat),
        invariant
            forall|i: int|
                0 <= i < spans@.len() ==> (spans@[i].0 as nat, spans@[i].1 as nat) == window_span(
                    i as nat,
                    total as nat,
                ),
        ensures
            spans@.len() == window_count(total as nat),
        decreases total - start,
    {
        let rest: usize = total - start;
        let end: usize = if rest >= WINDOW_LINES { start + WINDOW_LINES } else { total };
        spans.push((start + 1, end));
        if rest <= WINDOW_STRIDE {
            break;
        }
        start = start + WINDOW_STRIDE;
    }
    assert(spans_view(spans@) =~= window_spans(total as nat));
    spans
}

/// One addressable window of a file.
pub struct Chunk<'a> {
    /// The file that the window was cut from.
    pub file_path: &'a str,
    /// The window's lines, joined by newlines.
    pub content: String,
    /// First and last line of the window, 1-indexed and inclusive.
    pub span: (usize, usize),
}

/// What a chunk says, as mathematical values.
pub struct ChunkView {
    pub file_path: Seq<char>,
    pub content: Seq<char>,
    pub span: (nat, nat),
}

impl<'a> View for Chunk<'a> {
    type V = ChunkView;

    open spec fn view(&self) -> ChunkView {
        ChunkView {
            file_path: self.file_path@,
            content: self.content@,
            span: (self.span.0 as nat, self.span.1 as nat),
        }
    }
}

/// The `i`-th window of the file `path` whose text is `code`.
pub open spec fn window(path: Seq<char>, code: Seq<char>, i: nat) -> ChunkView {
    let lines = split(code, '\n');
    let span = window_span(i, lines.len());
    ChunkView {
        file_path: path,
        content: join(lines.subrange(span.0 - 1, span.1 as int), '\n'),
        span,
    }
}

/// Every window of the file `path` whose text is `code`, in order.
pub open spec fn windows(path: Seq<char>, code: Seq<char>) -> Seq<ChunkView> {
    Seq::new(window_count(split(code, '\n').len()), |i: int| window(path, code, i as nat))
}

/// The views of a sequence of chunks.
pub open spec fn chunk_views(chunks: Seq<Chunk>) -> Seq<ChunkView> {
    Seq::new(chunks.len(), |i: int| chunks[i]@)
}

/// Cuts `code` into overlapping windows of lines. The lines are the pieces of
/// `code` between newline characters, so a final newline leaves an empty last
/// line, and the empty text has one (empty) line.
pub fn naive<'a>(path: &'a str, code: &str) -> (chunks: Vec<Chunk<'a>>)
    ensures
        chunk_views(chunks@) == windows(path@, code@),
{
    let chars = chars_of(code);
    let bounds = piece_bounds(&chars, '\n');
    let spans = line_windows(bounds.len());
    let mut chunks: Vec<Chunk<'a>> = Vec::new();
    let mut i: usize = 0;
    while i < spans.len()
        invariant
            chars@ == code@,
            marks_pieces(code@, '\n', bounds@),
            spans@.len() == window_count(bounds@.len() as nat),
            bounds@.len() == split(code@, '\n').len(),
            forall|k: int|
                0 <= k < spans@.len() ==> (spans@[k].0 as nat, spans@[k].1 as nat) == window_span(
                    k as nat,
                    bounds@.len() as nat,
                ),
            i <= spans@.len(),
            chunks@.len() == i,
            forall|k: int|
                0 <= k < i ==> (#[trigger] chunks@[k])@ == window(path@, code@, k as nat),
        decreases spans.len() - i,
    {
        let span = spans[i];
        proof {
            assert((span.0 as nat, span.1 as nat) == window_span(i as nat, bounds@.len() as nat));
            lemma_join_is_stretch(code@, '\n', bounds@, span.0 - 1, span.1 as int);
        }
        let from = bounds[span.0 - 1].0;
        let to = bounds[span.1 - 1].1;
        let content = string_of(&chars, from, to);
        chunks.push(Chunk { file_path: path, content, span });
        i = i + 1;
    }
    assert(chunk_views(chunks@) =~= windows(path@, code@));
    chunks
}

/// The text that shows a chunk: a fenced block headed by the file and the
/// span, then a rule.
pub open spec fn rendered(chunk: ChunkView) -> Seq<char> {
    "```"@ + chunk.file_path + "#L"@ + decimal(chunk.span.0) + "-L"@ + decimal(chunk.span.1)
        + "\n"@ + chunk.content + "\n```\n---\n"@
}

impl<'a> Chunk<'a> {
    /// Shows the chunk as a fenced block headed by `path#Lstart-Lend`.
    pub fn render(&self) -> (text: String)
        ensures
            text@ == rendered(self@),
    {
        let mut text = String::new();
        text.append("```");
        text.append(self.file_path);
        text.append("#L");
        push_decimal(&mut text, self.span.0);
        text.append("-L");
        push_decimal(&mut text, self.span.1);
        text.append("\n");
        text.append(self.content.as_str());
        text.append("\n```\n---\n");
        assert(text@ =~= rendered(self@));
        text
    }
}

/// A language that a file's extension can announce.
#[derive(Clone, Copy, Debug, PartialEq, Eq, Structural)]
pub enum CodeLanguage {
    JavaScript,
    TypeScript,
    Tsx,
    Rust,
    Python,
    Go,
    Elixir,
    Erlang,
    Perl,
    Ruby,
}

/// The part of `path` behind its last dot, or all of it where it has none.
pub open spec fn extension(path: Seq<char>) -> Seq<char> {
    split(path, '.').last()
}

/// The language that an extension announces, if any.
pub open spec fn language_of_extension(ext: Seq<char>) -> Option<CodeLanguage> {
    if ext == "js"@ || ext == "mjs"@ || ext == "cjs"@ {
        Some(CodeLanguage::JavaScript)
    } else if ext == "ts"@ || ext == "mts"@ || ext == "cts"@ {
        Some(CodeLanguage::TypeScript)
    } else if ext == "jsx"@ || ext == "tsx"@ {
        Some(CodeLanguage::Tsx)
    } else if ext == "rs"@ {
        Some(CodeLanguage::Rust)
    } else if ext == "py"@ {
        Some(CodeLanguage::Python)
    } else if ext == "go"@ {
        Some(CodeLanguage::Go)
    } else if ext == "ex"@ || ext == "exs"@ {
        Some(CodeLanguage::Elixir)
    } else if ext == "erl"@ || ext == "hrl"@ {
        Some(CodeLanguage::Erlang)
    } else if ext == "pl"@ {
        Some(CodeLanguage::Perl)
    } else if ext == "rb"@ {
        Some(CodeLanguage::Ruby)
    } else {
        None
    }
}

/// Whether `chars[from..to]` spells `word`.
fn spells(chars: &Vec<char>, from: usize, to: usize, word: &str) -> (same: bool)
    requires
        from <= to <= chars.len(),
    ensures
        same == (chars@.subrange(from as int, to as int) == word@),
{
    let letters = chars_of(word);
    if letters.len() != to - from {
        return false;
    }
    let ghost part = chars@.subrange(from as int, to as int);
    let mut i: usize = 0;
    while i < letters.len()
        invariant
            from <= to <= chars.len(),
            letters@ == word@,
            letters@.len() == to - from,
            part == chars@.subrange(from as int, to as int),
            i <= letters@.len(),
            forall|k: int| 0 <= k < i ==> part[k] == letters@[k],
        decreases letters.len() - i,
    {
        if chars[from + i] != letters[i] {
            assert(part[i as int] != word@[i as int]);
            return false;
        }
        i = i + 1;
    }
    assert(part =~= word@);
    true
}

/// The language that the extension of `path` announces, if any.
pub fn language_for(path: &str) -> (language: Option<CodeLanguage>)
    ensures
        language == language_of_extension(extension(path@)),
{
    let chars = chars_of(path);
    let bounds = piece_bounds(&chars, '.');
    let last = bounds[bounds.len() - 1];
    let from = last.0;
    let to = last.1;
    assert(chars@.subrange(from as int, to as int) == extension(path@));
    if spells(&chars, from, to, "js") || spells(&chars, from, to, "mjs") || spells(
        &chars,
        from,
        to,
        "cjs",
    ) {
        Some(CodeLanguage::JavaScript)
    } else if spells(&chars, from, to, "ts") || spells(&chars, from, to, "mts") || spells(
        &chars,
        from,
        to,
        "cts",
    ) {
        Some(CodeLanguage::TypeScript)
    } else if spells(&chars, from, to, "jsx") || spells(&chars, from, to, "tsx") {
        Some(CodeLanguage::Tsx)
    } else if spells(&chars, from, to, "rs") {
        Some(CodeLanguage::Rust)
    } else if spells(&chars, from, to, "py") {
        Some(CodeLanguage::Python)
    } else if spells(&chars, from, to, "go") {
        Some(CodeLanguage::Go)
    } else if spells(&chars, from, to, "ex") || spells(&chars, from, to, "exs") {
        Some(CodeLanguage::Elixir)
    } else if spells(&chars, from, to, "erl") || spells(&chars, from, to, "hrl") {
        Some(CodeLanguage::Erlang)
    } else if spells(&chars, from, to, "pl") {
        Some(CodeLanguage::Perl)
    } else if spells(&chars, from, to, "rb") {
        Some(CodeLanguage::Ruby)
    } else {
        None
    }
}

/// Cuts `code` into windows for a file written in `language`. No language
/// changes the cut: the result is that of [`naive`].
pub fn language_aware<'a>(path: &'a str, code: &str, language: &CodeLanguage) -> (chunks: Vec<
    Chunk<'a>,
>)
    ensures
        chunk_views(chunks@) == windows(path@, code@),
{
    naive(path, code)
}

/// Cuts the file `path` with text `code` into windows, by the language that
/// its extension announces where it announces one.
pub fn chunk_code<'a>(path: &'a str, code: &str) -> (chunks: Vec<Chunk<'a>>)
    ensures
        chunk_views(chunks@) == windows(path@, code@),
{
    match language_for(path) {
        Some(language) => language_aware(path, code, &language),
        None => naive(path, code),
    }
}

/// Windowing is a function of its input: two runs on the same path and text
/// give the same sequence of chunks.
pub proof fn lemma_windowing_deterministic(
    path: Seq<char>,
    code: Seq<char>,
    first: Seq<Chunk>,
    second: Seq<Chunk>,
)
    requires
        chunk_views(first) == windows(path, code),
        chunk_views(second) == windows(path, code),
    ensures
        chunk_views(first) == chunk_views(second),
        first.len() == second.len(),
        forall|i: int| 0 <= i < first.len() ==> first[i]@ == second[i]@,
{
    assert(chunk_views(first).len() == first.len());
    assert(chunk_views(second).len() == second.len());
    assert forall|i: int| 0 <= i < first.len() implies first[i]@ == second[i]@ by {
        assert(chunk_views(first)[i] == first[i]@);
        assert(chunk_views(second)[i] == second[i]@);
    }
}

/// Every line of the file lies in some window: the spans leave no gap in
/// `[1, total]`.
pub proof fn lemma_windows_cover(total: nat, line: nat)
    requires
        1 <= line <= total,
    ensures
        exists|i: nat|
            i < window_count(total) && (#[trigger] window_span(i, total)).0 <= line
                <= window_span(i, total).1,
{
    let i = ((line - 1) / 40) as nat;
    assert(i < window_count(total) && window_span(i, total).0 <= line <= window_span(i, total).1);
}

/// The first window starts at line 1 and the last one ends at the last line.
pub proof fn lemma_windows_reach_both_ends(total: nat)
    requires
        total > 0,
    ensures
        window_count(total) >= 1,
        window_span(0, total).0 == 1,
        window_span((window_count(total) - 1) as nat, total).1 == total,
{
}

/// Each span is well formed and stays inside the file, and spans start later
/// and later.
pub proof fn lemma_windows_ordered(total: nat, i: nat, j: nat)
    requires
        i <= j < window_count(total),
    ensures
        1 <= window_span(i, total).0 <= window_span(i, total).1 <= total,
        window_span(i, total).0 <= window_span(j, total).0,
        i < j ==> window_span(i, total).0 < window_span(j, total).0,
        window_span(i, total).1 <= window_span(j, total).1,
{
}

/// Two neighbouring windows share lines, so nothing falls between them. They
/// share exactly ten, unless the later one is the last window of the file and
/// shorter than ten lines: then they share all of it.
pub proof fn lemma_windows_overlap(total: nat, i: nat)
    requires
        i + 1 < window_count(total),
    ensures
        window_span(i + 1, total).0 <= window_span(i, total).1,
        window_span(i, total).1 - window_span(i + 1, total).0 + 1 == if total - 40 * (i + 1)
            >= 10 {
            10
        } else {
            total - 40 * (i + 1)
        },
        i + 2 < window_count(total) ==> window_span(i, total).1 - window_span(i + 1, total).0 + 1
            == 10,
        window_span(i, total).1 - window_span(i, total).0 + 1 < 50 ==> i + 2 == window_count(
            total,
        ),
{
}

/// A file without lines has no window. The first window of any other file
/// of at most fifty lines spans it whole, and up to forty lines it is the
/// only one.
pub proof fn lemma_short_file(total: nat)
    requires
        total <= 50,
    ensures
        total == 0 ==> window_count(total) == 0,
        0 < total <= 40 ==> window_count(total) == 1,
        40 < total ==> window_count(total) == 2,
        total > 0 ==> window_span(0, total) == (1nat, total),
{
}

} // verus!
