//! The command model: what the command line asks the client to do. The
//! argument-parsing front end constructs these values; the parameter model
//! receives the raw standard-input text and trailing tokens they carry.
use vstd::prelude::*;

verus! {

/// One invocation of the client: a single command.
pub struct Cli {
    pub command: Commands,
}

/// The commands the client accepts.
pub enum Commands {
    /// Launch a test run against a named webhook endpoint.
    Run { webhook: String, stdin: bool, args: Vec<String> },
    /// Launch a debugging session for one recorded moment.
    Debug { stdin: bool, args: Vec<String> },
    /// Emit a shell-completion script.
    Completions { shell: String },
    /// Print version information.
    Version,
    /// Check for and install updates.
    Update,
}

} // verus!
