//! Arguments of the unlink command.

use vstd::prelude::*;

verus! {

#[derive(Debug)]
pub struct Args {
    /// Path of the document.
    pub file: String,
    /// Heading text or record number to unlink.
    pub target: String,
    /// Also close the record on the remote side.
    pub close: bool,
}

} // verus!
