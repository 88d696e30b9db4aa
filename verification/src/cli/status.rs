//! Arguments of the status command.

use vstd::prelude::*;

verus! {

#[derive(Debug)]
pub struct Args {
    /// Path of the document.
    pub file: String,
}

} // verus!
