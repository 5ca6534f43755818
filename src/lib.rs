//! An embeddable key-value store built on a log-structured storage engine:
//! an append-only command log split into segments, an in-memory index from
//! each live key to the location of its latest `Put` record, crash recovery
//! by replaying the log, and compaction of superseded records.
use vstd::prelude::*;

pub mod error;
pub mod codec;
pub mod segments;
pub mod replay;
pub mod engine;

verus! {

pub use error::{KvsError, Result};
pub use codec::Command;
pub use engine::{KvsEngine, KvStore};

} // verus!
