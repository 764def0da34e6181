//! Patches: the difference between two texts in a form that can be applied
//! to the old text to get the new.

use vstd::prelude::*;
use vstd::string::StringExecFns;
use crate::text::{replace_first, replace_first_in};

verus! {

/// Why a patch could not be applied.
#[derive(Clone, Copy, Debug, PartialEq, Eq, Structural)]
pub enum PatchError {
    /// The text is no patch.
    Malformed,
    /// The patch does not fit the text that it was applied to.
    Rejected,
}

/// The patch that `diffy` writes for the change from `old` to `new`, under
/// its own header.
pub uninterp spec fn patch_between(old_text: Seq<char>, new_text: Seq<char>) -> Seq<char>;

/// What `diffy` makes of `base` when it applies the patch written in
/// `patch`, or why it cannot.
pub uninterp spec fn patched(base: Seq<char>, patch: Seq<char>) -> Result<Seq<char>, PatchError>;

/// Writes the patch from `old` to `new` with `diffy::create_patch` and its
/// `Display`. The contract gives the text its name.
#[verifier::external_body]
fn patch_text(old_text: &str, new_text: &str) -> (text: String)
    ensures
        text@ == patch_between(old_text@, new_text@),
{
    diffy::create_patch(old_text, new_text).to_string()
}

/// Parses `patch` with `diffy::Patch::from_str` and applies it to `base`
/// with `diffy::apply`. A text that does not parse is `Malformed`; a patch
/// that does not apply is `Rejected`. The contract gives the outcome its
/// name.
#[verifier::external_body]
fn apply_text(base: &str, patch: &str) -> (outcome: Result<String, PatchError>)
    ensures
        outcome is Ok <==> patched(base@, patch@) is Ok,
        outcome is Ok ==> patched(base@, patch@) == Ok::<Seq<char>, PatchError>(outcome->Ok_0@),
        outcome is Err ==> patched(base@, patch@) == Err::<Seq<char>, PatchError>(outcome->Err_0),
{
    let parsed = match diffy::Patch::from_str(patch) {
        Ok(parsed) => parsed,
        Err(_) => return Err(PatchError::Malformed),
    };
    match diffy::apply(base, &parsed) {
        Ok(text) => Ok(text),
        Err(_) => Err(PatchError::Rejected),
    }
}

/// The header that stands for the two paths.
pub open spec fn header(old_path: Seq<char>, new_path: Seq<char>) -> Seq<char> {
    "--- "@ + old_path + "\n+++ "@ + new_path + "\n"@
}

/// `patch` with the header that names no files replaced by one that names
/// the two paths. A patch without that header stays as it is.
pub open spec fn with_paths(patch: Seq<char>, old_path: Seq<char>, new_path: Seq<char>) -> Seq<
    char,
> {
    replace_first(patch, "--- original\n+++ modified\n"@, header(old_path, new_path))
}

/// Puts the two paths into the header of a patch.
pub fn name_files(patch: &str, old_path: &str, new_path: &str) -> (named: String)
    ensures
        named@ == with_paths(patch@, old_path@, new_path@),
{
    let mut head = String::new();
    head.append("--- ");
    head.append(old_path);
    head.append("\n+++ ");
    head.append(new_path);
    head.append("\n");
    assert(head@ =~= header(old_path@, new_path@));
    replace_first_in(patch, "--- original\n+++ modified\n", head.as_str())
}

/// The patch that turns `old` into `new`, headed by the two paths.
pub fn create(old_path: &str, new_path: &str, old_text: &str, new_text: &str) -> (patch: String)
    ensures
        patch@ == with_paths(patch_between(old_text@, new_text@), old_path@, new_path@),
{
    let patch = patch_text(old_text, new_text);
    name_files(patch.as_str(), old_path, new_path)
}

/// Applies the patch written in `patch` to `base`.
pub fn apply(base: &str, patch: &str) -> (outcome: Result<String, PatchError>)
    ensures
        outcome is Ok <==> patched(base@, patch@) is Ok,
        outcome is Ok ==> patched(base@, patch@) == Ok::<Seq<char>, PatchError>(outcome->Ok_0@),
        outcome is Err ==> patched(base@, patch@) == Err::<Seq<char>, PatchError>(outcome->Err_0),
{
    apply_text(base, patch)
}

} // verus!
