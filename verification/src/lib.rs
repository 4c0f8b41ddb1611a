//! A sharded, partitioned wide-column storage engine: an LSM tree per table
//! (memtable, commit log, immutable sorted segments with size-tiered
//! compaction), a deterministic hash-partition router, and optimistic
//! cross-partition transactions validated by row versions.
//!
//! The crate holds the engine's logic as verified functions over plain
//! values; the surrounding process (sockets, files, clocks, threads) drives
//! it from outside and performs the effects the engine asks for.
use vstd::prelude::*;

pub mod codec;
pub mod commit_log;
pub mod engine;
pub mod exttrust;
pub mod intbytes;
pub mod memtable;
pub mod numfmt;
pub mod order;
pub mod partition;
pub mod row;
pub mod scan;
pub mod schema;
pub mod sstable;
pub mod table;
pub mod validation;
pub mod transaction;
pub mod value;
pub mod wire;

verus! {

/// Fixed byte budget of a hash key inside an encoded row; shorter keys are
/// zero-padded up to this length.
pub const HASH_KEY_BYTE_SIZE: usize = 128;

/// One megabyte; memtable capacity is expressed in these.
pub const MEGABYTE: usize = 1048576;

} // verus!
