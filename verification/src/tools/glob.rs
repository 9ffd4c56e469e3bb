//! Parameters of the file-discovery tool.

use vstd::prelude::*;

verus! {

/// Parameters for the glob tool.
pub struct GlobParams {
    /// Pattern to match file paths against.
    pub pattern: String,
    /// Directory to search in, relative to the workspace.
    pub path: Option<String>,
    /// Maximum number of results.
    pub max_results: usize,
}

/// The result cap used when the caller names none.
pub fn default_max_results() -> (r: usize)
    ensures
        r == 500,
{
    500
}

} // verus!
