//! A small replicated key/value document: an operation log with causal
//! dependencies, a deterministic projection, a self-checking binary change
//! format, delta generation and a buffering merge.
pub mod codec;
pub mod document;
pub mod laws;
pub mod log;
pub mod types;
pub mod wire;

pub use codec::{decode_changes, DecodeError, EncodingError};
pub use document::{CausalityError, ClockError, Document, MergeError, Transaction, Version};
pub use types::{Change, OpId, OpKind, Operation, Value};
