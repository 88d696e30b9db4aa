//! The reconciliation core: snapshot state, field classification, planning.

pub mod codec;
pub mod diff;
pub mod engine;
pub mod state;
