//! Multi-version key/value storage with block-granular commits, a one-step
//! rollback log, and point-in-time read snapshots.
//!
//! The committed state lives in a persistent ordered map; a `Block` stages a
//! batch of writes in an overrides/tombstones buffer and publishes them on
//! `commit`, while recording the inverse diff that lets the next block revert
//! exactly one committed block.  A `Transaction` is a nested scope over a
//! block whose writes are either applied into the block or discarded.

use vstd::prelude::*;

mod backing;
pub mod cell;
pub mod ordvec;
pub mod storage;

verus! {

/// Bounds that the key type of the store satisfies: keys are cloned into the
/// staging buffers and compared to order iteration.
pub trait Key: Clone + Ord {}

impl<T: Clone + Ord> Key for T {}

/// Bounds that the value type of the store satisfies: values are cloned into
/// the rollback log and out of snapshots.
pub trait Value: Clone {}

impl<T: Clone> Value for T {}

} // verus!
