//! Parameters of the content-search tool.

use vstd::prelude::*;

verus! {

/// Parameters for the grep tool.
pub struct GrepParams {
    /// Pattern to search for.
    pub pattern: String,
    /// Directory or file to search in, relative to the workspace.
    pub path: Option<String>,
    /// Pattern to filter file names.
    pub file_filter: Option<String>,
    /// Maximum number of results.
    pub max_results: usize,
    /// Lines of context around matches.
    pub context_lines: usize,
}

/// The result cap used when the caller names none.
pub fn default_max_results() -> (r: usize)
    ensures
        r == 100,
{
    100
}

} // verus!
