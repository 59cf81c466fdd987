//! Durable, crash-recoverable storage for an in-memory state machine.
//!
//! A state type implements [`Acidic`]; an [`Engine`] holds its current value
//! together with a model of what is on disk: the latest snapshot and the
//! write journal. Every write is appended to the journal before it is
//! applied, so that reopening from the stored bytes rebuilds the same state.
pub mod engine;
pub mod error;
pub mod frame;
pub mod machine;
pub mod registry;

pub use engine::Engine;
pub use error::{Error, Result};
pub use machine::Acidic;
