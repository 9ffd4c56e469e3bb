//! Parameters of the file-reading tool.

use vstd::prelude::*;

verus! {

/// Parameters for the read tool.
pub struct ReadParams {
    /// Path to the file to read.
    pub file_path: String,
    /// Starting line number, counted from one.
    pub offset: usize,
    /// Maximum number of lines to return.
    pub limit: usize,
}

/// The starting line used when the caller names none.
pub fn default_offset() -> (r: usize)
    ensures
        r == 1,
{
    1
}

/// The line cap used when the caller names none.
pub fn default_limit() -> (r: usize)
    ensures
        r == 2000,
{
    2000
}

} // verus!
