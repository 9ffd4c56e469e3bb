//! Unified-diff rendering between old and new content.
//!
//! The diff is shown to the caller after an edit commits; the engine itself
//! never reads it.

use vstd::prelude::*;

verus! {

/// What the patience unified diff is for the given header name, old text and
/// new text.
pub uninterp spec fn patience_diff_of(
    name: Seq<char>,
    old_text: Seq<char>,
    new_text: Seq<char>,
) -> Seq<char>;

/// Relies on similar's `TextDiff`: renders a unified diff between the old
/// and the new content with the patience algorithm, which produces cleaner
/// diffs for source code. The result depends on the arguments alone.
#[verifier::external_body]
pub fn unified_diff(file_name: &str, old_text: &str, new_text: &str) -> (r: String)
    ensures
        r@ == patience_diff_of(file_name@, old_text@, new_text@),
{
    let diff = similar::TextDiff::configure()
        .algorithm(similar::Algorithm::Patience)
        .diff_lines(old_text, new_text);
    diff.unified_diff()
        .header(&format!("a/{file_name}"), &format!("b/{file_name}"))
        .to_string()
}

} // verus!
