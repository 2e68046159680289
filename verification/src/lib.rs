//! An in-memory, non-persistent key-value store.
//!
//! A store maps bucket names to buckets and each bucket maps keys to entries.
//! An entry is either a 64-bit counter or a byte blob. The store offers a
//! blob-oriented read/write interface (`get`, `set`, `delete`, `contains_key`) and a
//! counter interface (`increment`, `compare_and_swap`).
//!
//! Every operation is specified as a transition over a mathematical model of
//! the store (see [`model`]); general facts about sequences of operations are
//! proved in [`laws`].
mod bucket;
pub mod entry;
pub mod error;
pub mod laws;
pub mod model;
pub mod order;
pub mod store;
mod table;

pub use crate::entry::Entry;
pub use crate::error::Error;
pub use crate::store::KeyValue;
