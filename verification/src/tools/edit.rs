//! Parameters of the edit tool.
//!
//! The matching itself is [`crate::engine::replace`].

use vstd::prelude::*;

verus! {

/// Parameters for the edit tool.
pub struct EditParams {
    /// Path to the file to edit (relative to the workspace or absolute).
    pub file_path: String,
    /// The text to find and replace.
    pub old_string: String,
    /// The replacement text.
    pub new_string: String,
    /// Replace all occurrences instead of one unique occurrence.
    pub replace_all: bool,
}

} // verus!
