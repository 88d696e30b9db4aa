//! The library's error type. Rendering and conversion from the outside
//! crates' errors happen outside the library.

use vstd::prelude::*;

verus! {

/// Everything that can go wrong in a reconciliation run.
#[derive(Debug)]
pub enum Error {
    /// The outline document could not be parsed.
    OrgParse(String),
    /// The outline document could not be written.
    OrgWrite(String),
    /// The remote service call failed.
    GitHub(String),
    /// Reading or writing a file failed.
    Io(String),
    /// The persisted snapshot is malformed.
    Json(String),
    /// The configuration file could not be parsed.
    TomlParse(String),
    /// The configuration is unusable.
    Config(String),
    /// A field changed on both sides.
    Conflict { issue: u64, field: String },
    /// No remote collection is configured for the document.
    NoRepo,
    /// No usable credential was found.
    Auth(String),
    /// No heading matches the request.
    HeadingNotFound(String),
    /// No record carries the requested number.
    IssueNotFound(u64),
}

} // verus!
