//! Command-line options, as plain values. The argument parser itself lives
//! with the binary; this is what it hands to the library.

use vstd::prelude::*;
use crate::text::{join_strings, join_with, views};

verus! {

/// Options of one invocation.
#[derive(Debug)]
pub struct Cli {
    /// The current shell command line to interpret, split into words.
    pub command: Vec<String>,
    /// Model override in `provider/model-name` form.
    pub model: Option<String>,
    /// Configuration file path (`--config` or `$INTERPRETER_CONFIG`).
    pub config: Option<String>,
    /// Print the resolved configuration and exit.
    pub dry_run: bool,
    /// List the known models and exit.
    pub model_list: bool,
    /// Open the configuration editor.
    pub init: bool,
    /// Install the shell integration, then open the editor.
    pub install: bool,
}

impl Cli {
    /// The command line, its words joined with single spaces.
    pub fn input(&self) -> (s: String)
        ensures
            s@ == join_with(views(self.command@), " "@),
    {
        join_strings(self.command.as_slice(), " ")
    }
}

} // verus!
