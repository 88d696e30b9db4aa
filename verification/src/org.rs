//! The outline-document side of the library.

pub mod model;
pub mod writer;
