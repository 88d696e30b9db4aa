//! The command surface: each command's arguments as plain values, and the
//! choice of report format. Argument parsing itself happens outside the
//! library, which only consumes these values.

pub mod init;
pub mod pull;
pub mod push;
pub mod status;
pub mod sync;
pub mod unlink;

use vstd::prelude::*;
use crate::output::Format;

verus! {

/// The command asked for, with its arguments.
#[derive(Debug)]
pub enum Command {
    Init(init::Args),
    Push(push::Args),
    Pull(pull::Args),
    Sync(sync::Args),
    Status(status::Args),
    Unlink(unlink::Args),
}

/// The run-wide options and the command.
#[derive(Debug)]
pub struct Cli {
    pub command: Command,
    /// Path of the configuration file, if overridden.
    pub config: Option<String>,
    /// Credential override.
    pub token: Option<String>,
    /// Suppress everything but errors.
    pub quiet: bool,
    /// Render reports as s-expressions.
    pub sexp: bool,
    /// Render reports as JSON.
    pub json: bool,
}

impl Cli {
    /// The report format the flags select; s-expressions take precedence.
    pub fn output_format(&self) -> (r: Format)
        ensures
            r == (if self.sexp {
                Format::Sexp
            } else if self.json {
                Format::Json
            } else {
                Format::Human
            }),
    {
        if self.sexp {
            Format::Sexp
        } else if self.json {
            Format::Json
        } else {
            Format::Human
        }
    }
}

} // verus!
