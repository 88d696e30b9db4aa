//! Arguments of the initialisation command.

use vstd::prelude::*;

verus! {

#[derive(Debug)]
pub struct Args {
    /// Path of the document.
    pub file: String,
    /// Target remote collection, as "owner/repo".
    pub repo: String,
}

} // verus!
