//! Parameters of the file-writing tool.

use vstd::prelude::*;

verus! {

/// Parameters for the write tool.
pub struct WriteParams {
    /// Path to the file to write.
    pub file_path: String,
    /// Content to write.
    pub content: String,
}

} // verus!
