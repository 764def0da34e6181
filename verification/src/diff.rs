//! Differences between two texts, line by line.

use vstd::prelude::*;
use vstd::string::StringExecFns;

verus! {

/// What became of a line between the old text and the new.
#[derive(Clone, Copy, Debug, PartialEq, Eq, Structural)]
pub enum ChangeKind {
    /// The line is in both texts.
    Equal,
    /// The line is in the old text only.
    Delete,
    /// The line is in the new text only.
    Insert,
}

/// The changes that `similar` finds between the lines of `old` and `new`,
/// in order: for each the kind and the line, with its line ending.
pub uninterp spec fn diffed_lines(old_text: Seq<char>, new_text: Seq<char>) -> Seq<
    (ChangeKind, Seq<char>),
>;

/// The unified diff that `similar` writes for `old` and `new` under a
/// header that names the two files.
pub uninterp spec fn unified_text(
    old_path: Seq<char>,
    new_path: Seq<char>,
    old_text: Seq<char>,
    new_text: Seq<char>,
) -> Seq<char>;

/// The views of a sequence of changes.
pub open spec fn change_views(changes: Seq<(ChangeKind, String)>) -> Seq<(ChangeKind, Seq<char>)> {
    Seq::new(changes.len(), |i: int| (changes[i].0, changes[i].1@))
}

/// Diffs `old` and `new` by lines with `similar::TextDiff::from_lines` and
/// collects what `iter_all_changes` yields: the tag of each change and its
/// value. No deadline is set, so the same texts always give the same changes:
/// the contract gives them their name.
#[verifier::external_body]
fn line_changes(old_text: &str, new_text: &str) -> (changes: Vec<(ChangeKind, String)>)
    ensures
        change_views(changes@) == diffed_lines(old_text@, new_text@),
{
    let diff = similar::TextDiff::from_lines(old_text, new_text);
    let mut changes = Vec::new();
    for change in diff.iter_all_changes() {
        let kind = match change.tag() {
            similar::ChangeTag::Equal => ChangeKind::Equal,
            similar::ChangeTag::Delete => ChangeKind::Delete,
            similar::ChangeTag::Insert => ChangeKind::Insert,
        };
        changes.push((kind, change.value().to_string()));
    }
    changes
}

/// Writes the unified diff of `old` and `new` with
/// `similar::TextDiff::from_lines(..).unified_diff().header(..)`. The
/// contract gives the text its name.
#[verifier::external_body]
fn unified_diff_text(old_path: &str, new_path: &str, old_text: &str, new_text: &str) -> (text:
    String)
    ensures
        text@ == unified_text(old_path@, new_path@, old_text@, new_text@),
{
    similar::TextDiff::from_lines(old_text, new_text)
        .unified_diff()
        .header(old_path, new_path)
        .to_string()
}

/// How one change reads: a deleted or inserted line behind `-` or `+` and
/// closed by a newline of its own, a line in both texts behind a space.
pub open spec fn change_text(change: (ChangeKind, Seq<char>)) -> Seq<char> {
    match change.0 {
        ChangeKind::Delete => seq!['-'] + change.1 + seq!['\n'],
        ChangeKind::Insert => seq!['+'] + change.1 + seq!['\n'],
        ChangeKind::Equal => seq![' '] + change.1,
    }
}

/// How a sequence of changes reads: one after the other.
pub open spec fn changes_text(changes: Seq<(ChangeKind, Seq<char>)>) -> Seq<char>
    decreases changes.len(),
{
    if changes.len() == 0 {
        Seq::<char>::empty()
    } else {
        changes_text(changes.drop_last()) + change_text(changes.last())
    }
}

/// Writes a sequence of changes out, one after the other.
pub fn render_changes(changes: &Vec<(ChangeKind, String)>) -> (text: String)
    ensures
        text@ == changes_text(change_views(changes@)),
{
    let ghost all = change_views(changes@);
    let mut text = String::new();
    let mut i: usize = 0;
    while i < changes.len()
        invariant
            all == change_views(changes@),
            i <= all.len(),
            text@ == changes_text(all.take(i as int)),
        decreases all.len() - i,
    {
        let ghost before = text@;
        proof {
            assert(all.take(i + 1).drop_last() =~= all.take(i as int));
            assert(all.take(i + 1).last() == (changes@[i as int].0, changes@[i as int].1@));
        }
        match changes[i].0 {
            ChangeKind::Delete => {
                text.push('-');
                text.append(changes[i].1.as_str());
                text.push('\n');
                assert(text@ =~= before + (seq!['-'] + changes@[i as int].1@ + seq!['\n']));
            },
            ChangeKind::Insert => {
                text.push('+');
                text.append(changes[i].1.as_str());
                text.push('\n');
                assert(text@ =~= before + (seq!['+'] + changes@[i as int].1@ + seq!['\n']));
            },
            ChangeKind::Equal => {
                text.push(' ');
                text.append(changes[i].1.as_str());
                assert(text@ =~= before + (seq![' '] + changes@[i as int].1@));
            },
        }
        i = i + 1;
    }
    proof {
        assert(all.take(all.len() as int) =~= all);
    }
    text
}

/// The line-by-line differences between `old` and `new`, written out with
/// a `-`, a `+` or a space before each line.
pub fn readable(old_text: &str, new_text: &str) -> (text: String)
    ensures
        text@ == changes_text(diffed_lines(old_text@, new_text@)),
{
    let changes = line_changes(old_text, new_text);
    render_changes(&changes)
}

/// The unified diff between `old` and `new`, headed by the two paths.
pub fn unified(old_path: &str, new_path: &str, old_text: &str, new_text: &str) -> (text: String)
    ensures
        text@ == unified_text(old_path@, new_path@, old_text@, new_text@),
{
    unified_diff_text(old_path, new_path, old_text, new_text)
}

} // verus!
