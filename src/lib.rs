//! A log-structured key/value storage engine in the Bitcask tradition: the
//! entry codec, the in-memory index, the version/manifest state machine and
//! the engine core that ties them together.
use vstd::prelude::*;

pub mod codec;
pub mod engine;
pub mod errors;
pub mod filename;
pub mod index;
pub mod manifest;
pub mod options;
pub mod segment;
pub mod version;
pub mod versionset;
pub mod writebatch;

pub use engine::BitcaskCore;
pub use errors::{DBError, DBResult};
pub use options::{Options, ReadOptions, WriteOptions};
pub use writebatch::WriteBatch;

verus! {

} // verus!
