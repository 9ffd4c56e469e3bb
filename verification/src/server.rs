//! Data carried between the tool router and the transport.
//!
//! The transport itself (line-delimited JSON-RPC over standard streams) lives
//! outside this crate; these are the plain values it exchanges with the
//! tools.

use vstd::prelude::*;
use vstd::string::StringExecFns;

verus! {

/// One item of a tool call's textual output.
pub struct ContentItem {
    /// The item's kind tag.
    pub content_type: String,
    /// The item's text.
    pub text: String,
}

/// The outcome of one tool call.
pub struct ToolCallResult {
    /// The output items, in order.
    pub content: Vec<ContentItem>,
    /// Whether the call failed.
    pub is_error: bool,
}

/// Configuration for the server around the tools.
pub struct McpServerConfig {
    /// Working directory for file operations.
    pub workspace: String,
    /// Whether command execution runs sandboxed.
    pub sandboxed: bool,
}

impl Default for McpServerConfig {
    /// The current directory, unsandboxed.
    fn default() -> (r: Self)
        ensures
            r.workspace@ == "."@,
            !r.sandboxed,
    {
        McpServerConfig { workspace: String::from_str("."), sandboxed: false }
    }
}

} // verus!
