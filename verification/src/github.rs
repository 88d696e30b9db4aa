//! The remote-service side of the library.

pub mod model;
