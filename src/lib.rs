//! An embedded log-structured key-value store: an append-only journal of
//! binary frames, an in-memory index rebuilt by replay, and compaction.
use vstd::prelude::*;

pub mod codec;
pub mod journal;
mod index;
pub mod store;

pub use store::{KvStore, KvsError};

verus! {

} // verus!
