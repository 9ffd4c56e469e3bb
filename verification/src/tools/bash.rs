//! Parameters of the command-execution tool.

use vstd::prelude::*;

verus! {

/// Parameters for the bash tool.
pub struct BashParams {
    /// The command to execute.
    pub command: String,
    /// Execution timeout in seconds.
    pub timeout: u64,
}

/// The timeout used when the caller names none.
pub fn default_timeout() -> (r: u64)
    ensures
        r == 120,
{
    120
}

} // verus!
