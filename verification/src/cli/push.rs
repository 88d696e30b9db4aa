//! Arguments of the push command.

use vstd::prelude::*;

verus! {

#[derive(Debug)]
pub struct Args {
    /// Path of the document.
    pub file: String,
    /// The document wins every conflict.
    pub force: bool,
    /// Report what would happen; change nothing.
    pub dry_run: bool,
    /// Report every item, moved or not.
    pub verbose: bool,
}

} // verus!
