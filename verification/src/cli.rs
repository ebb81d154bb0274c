//! What can be asked for on the command line.

use vstd::prelude::*;

use crate::name::{Name, Namespace};

verus! {

/// An invocation.
#[derive(Debug)]
pub struct Cli {
    /// The store directory, where one is given.
    pub store: Option<Vec<u8>>,
    /// Say nothing but errors.
    pub quiet: bool,
    pub command: Command,
}

#[allow(inconsistent_fields)]
#[derive(Debug)]
pub enum Command {
    /// Store a value read from standard input.
    SetValue { name: Name, multiline: bool },
    /// Print a value with no trailing newline.
    Get { name: Name, force: bool, newline: bool },
    /// Print a value for viewing, with a trailing newline.
    Show { name: Name },
    /// List entry names, never values.
    Ls { prefix: Option<Name> },
    /// Delete an entry.
    Rm { name: Name, force: bool },
    /// Rename an entry.
    Mv { old: Name, new: Name, force: bool },
    /// Edit a value.
    Edit { name: Name },
    /// Print export lines.
    Env { prefix: Option<Namespace> },
    /// Run a command with secrets in its environment.
    Run { prefix: Option<Namespace>, cmd: Vec<String> },
    /// Re-encrypt every entry to a new identity.
    Rekey { force: bool },
}

} // verus!
