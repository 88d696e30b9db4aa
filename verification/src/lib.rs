//! A three-way reconciliation engine for an outline document synced
//! against a remote issue tracker: field-level change classification, a
//! conflict-resolution policy, an action plan per heading, and the
//! persisted base snapshot the comparison rests on, with its exact
//! persisted form. The surrounding process — parsing the document's
//! syntax, the remote HTTP calls, file and terminal I/O — stays outside;
//! the library takes and returns plain values.

pub mod cli;
pub mod config;
pub mod error;
pub mod github;
pub mod org;
pub mod output;
pub mod strutil;
pub mod sync;
