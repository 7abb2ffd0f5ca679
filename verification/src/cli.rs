//! The command line: the subcommands and their arguments. The parser
//! itself lives with the program; these are the values it produces.

use vstd::prelude::*;

verus! {

/// The parsed command line.
pub struct Cli {
    /// The subcommand to run.
    pub command: Commands,
}

/// The subcommands.
pub enum Commands {
    /// Checks every watched repository against its upstream.
    Status,
    /// Pulls every watched repository that is behind its upstream.
    Update,
    /// Shows the concurrency.
    Concurrency,
    /// Sets the concurrency (it must be greater than 0).
    SetConcurrency { value: usize },
    /// Adds one or more local repositories to the watched list.
    Add { paths: Vec<String> },
    /// Scans a directory and adds every repository below it.
    AddRecursive { path: String, max_depth: Option<usize> },
    /// Removes one or more repositories from the watched list.
    Remove { paths: Vec<String> },
    /// Scans a directory and removes every repository below it.
    RemoveRecursive { path: String, max_depth: Option<usize> },
    /// Clones repositories into a directory and watches them.
    Clone { repos: Vec<String>, dir: String },
    /// Manages the stored SSH private key.
    Key { command: KeyCommands },
}

/// The subcommands of `key`.
pub enum KeyCommands {
    /// Imports a private key file into the keyring.
    Import { path: String },
    /// Deletes the stored key.
    Remove,
    /// Shows where the key is stored.
    Status,
}

} // verus!
