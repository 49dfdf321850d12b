//! A persistent, ordered key-value storage engine.
//!
//! The engine keeps structured data durable across restarts of a host whose
//! working memory is wiped on every redeploy, using one flat, growable,
//! byte-addressable memory region that survives.  It is built in layers:
//!
//! * [`region`] — the flat memory region, read/written by absolute offset and
//!   grown by whole pages;
//! * [`manager`] — a memory manager that carves the one region into
//!   independently growable logical buckets, recorded in a directory header
//!   that is rewritten atomically (scratch slot first, root flipped last);
//! * [`order`] — the total lexicographic order on byte-string keys;
//! * [`btree`] — a persistent ordered map (B-tree) over byte-string keys and
//!   values, with point lookup, insert-or-update and in-order iteration;
//! * [`codec`] — the serialization contract stored values satisfy, with the
//!   text payload type [`store::SimpleStorage`] as its one client here;
//! * [`store`] — the facade binding one map to one reserved bucket, exposing
//!   `set`/`get` by principal with a sentinel for absent keys.

use vstd::prelude::*;

pub mod btree;
pub mod codec;
pub mod manager;
pub mod region;
pub mod store;
pub mod order;

verus! {

/// The error taxonomy of the engine.  Every failure is surfaced to the
/// caller as one of these; none is silently swallowed.
#[derive(Clone, Copy, Debug, PartialEq, Eq, Structural)]
pub enum StoreError {
    /// A read or write reached past the end of a region or bucket: a caller
    /// error, propagated and never retried.
    OutOfBounds,
    /// The host refused to grow the region: fatal to the current operation,
    /// not to the process.
    AllocationFailed,
    /// The directory header was unreadable or of the wrong version at
    /// startup: fatal, the process must not continue on it.
    CorruptDirectory,
    /// Stored bytes of one entry do not parse under the serialization
    /// contract: local to that entry, other reads still succeed.
    DecodeError,
}

} // verus!
