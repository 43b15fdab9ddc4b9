//! Multi-version storage for a single value.
//!
//! The scalar analog of the key/value store: a `Cell` holds the committed
//! value and the rollback slot that can undo the most recently committed
//! block.  A `Block` stages one replacement value and records the value the
//! cell showed when the block opened; `commit` publishes both, so the next
//! block, opened with `block_and_revert`, can undo exactly this block.  A
//! `Transaction` nests inside a block and is applied or discarded.

use vstd::prelude::*;

use concread::ebrcell::EbrCell;

use crate::backing::prior_slot_new;
use crate::backing::prior_slot_read;
use crate::backing::prior_slot_write;
use crate::backing::slot_prior;
use crate::backing::slot_value;
use crate::backing::value_slot_new;
use crate::backing::value_slot_read;
use crate::backing::value_slot_write;

verus! {

/// The recorded prior fits the opening value: while nothing is recorded the
/// current value still is the opening value, and once recorded the prior is
/// exactly the opening value.
pub open spec fn prior_ok(recorded: Option<u64>, cur: u64, opened: u64) -> bool {
    match recorded {
        None => cur == opened,
        Some(p) => p == opened,
    }
}

/// Multi-version storage for a single value: the committed value plus the
/// rollback slot that can undo the most recently committed block.
pub struct Cell {
    value: EbrCell<u64>,
    rollback: EbrCell<Option<u64>>,
}

/// Consistent point-in-time view of the cell: an owned copy of the
/// committed value, untouched by blocks committed after it was taken.
pub struct Snapshot {
    value: u64,
}

impl View for Snapshot {
    type V = u64;

    closed spec fn view(&self) -> u64 {
        self.value
    }
}

impl Snapshot {
    /// Read the value the snapshot holds.
    pub fn get(&self) -> (r: u64)
        ensures
            r == self@,
    {
        self.value
    }
}

impl Cell {
    /// The committed value.
    pub closed spec fn value_of(self) -> u64 {
        slot_value(self.value)
    }

    /// The rollback slot: the value the cell had before the most recently
    /// committed block, or `None` where that block left the value alone.
    pub closed spec fn rollback_of(self) -> Option<u64> {
        slot_prior(self.rollback)
    }

    /// A cell holding the given value, with nothing to revert.
    pub fn new(value: u64) -> (c: Cell)
        ensures
            c.value_of() == value,
            c.rollback_of() is None,
    {
        Cell { value: value_slot_new(value), rollback: prior_slot_new(None) }
    }

    /// The rollback slot's content: what a durable export carries beside
    /// the committed value.
    pub fn rollback_value(&self) -> (r: Option<u64>)
        ensures
            r == self.rollback_of(),
    {
        prior_slot_read(&self.rollback)
    }

    /// A cell rebuilt from exported parts: the committed value and the
    /// rollback slot.
    pub fn from_parts(value: u64, rollback: Option<u64>) -> (c: Cell)
        ensures
            c.value_of() == value,
            c.rollback_of() == rollback,
    {
        Cell { value: value_slot_new(value), rollback: prior_slot_new(rollback) }
    }

    /// Take a consistent snapshot of the committed value.  The snapshot
    /// owns its value: blocks committed afterwards do not change it.
    pub fn view(&self) -> (snap: Snapshot)
        ensures
            snap@ == self.value_of(),
    {
        Snapshot { value: value_slot_read(&self.value) }
    }

    /// Open a block for an update.  The block sees the committed value;
    /// what it stages becomes visible to snapshots only at `commit`.
    pub fn block(self) -> (b: Block)
        ensures
            b.wf(),
            b.value() == self.value_of(),
            b.opened() == self.value_of(),
            b.pending_prior() is None,
            b.committed_value() == self.value_of(),
            b.saved_rollback() == self.rollback_of(),
    {
        let cur = value_slot_read(&self.value);
        Block {
            value: self.value,
            rollback: self.rollback,
            cur,
            recorded: None,
            open_value: Ghost(cur),
        }
    }

    /// Open a block that first undoes the most recently committed block:
    /// where the rollback slot holds a prior value the block opens on it,
    /// and committing publishes the reversion.  With an empty rollback slot
    /// this opens an ordinary block: there is nothing left to undo.
    pub fn block_and_revert(self) -> (b: Block)
        ensures
            b.wf(),
            b.value() == (match self.rollback_of() {
                Some(p) => p,
                None => self.value_of(),
            }),
            b.opened() == b.value(),
            b.pending_prior() is None,
            b.committed_value() == self.value_of(),
            b.saved_rollback() == self.rollback_of(),
    {
        let cur = match prior_slot_read(&self.rollback) {
            Some(p) => p,
            None => value_slot_read(&self.value),
        };
        Block {
            value: self.value,
            rollback: self.rollback,
            cur,
            recorded: None,
            open_value: Ghost(cur),
        }
    }
}

impl Default for Cell {
    /// A cell holding zero, with nothing to revert.
    fn default() -> (c: Cell)
        ensures
            c.value_of() == 0,
            c.rollback_of() is None,
    {
        Cell::new(0)
    }
}

/// Exclusive write handle on a cell: stages one replacement value and
/// records the value the cell showed when the block opened.
pub struct Block {
    value: EbrCell<u64>,
    rollback: EbrCell<Option<u64>>,
    cur: u64,
    recorded: Option<u64>,
    open_value: Ghost<u64>,
}

impl Block {
    /// The value the block presents.
    pub closed spec fn value(self) -> u64 {
        self.cur
    }

    /// The value the block first presented, before any of its writes.
    pub closed spec fn opened(self) -> u64 {
        self.open_value@
    }

    /// The opening value, recorded once the block has written; committing
    /// installs it in the rollback slot.
    pub closed spec fn pending_prior(self) -> Option<u64> {
        self.recorded
    }

    /// The committed value underneath the block, untouched while the block
    /// is open.
    pub closed spec fn committed_value(self) -> u64 {
        slot_value(self.value)
    }

    /// The rollback slot of the block committed before this one, untouched
    /// until this block commits.
    pub closed spec fn saved_rollback(self) -> Option<u64> {
        slot_prior(self.rollback)
    }

    /// The recorded prior fits the opening value.
    pub closed spec fn wf(self) -> bool {
        prior_ok(self.recorded, self.cur, self.open_value@)
    }

    /// Read the value as the block sees it.
    pub fn get(&self) -> (r: u64)
        ensures
            r == self.value(),
    {
        self.cur
    }

    /// Write access to the staged value.  The opening value is recorded on
    /// the first access, so that committing can be undone.
    pub fn get_mut(&mut self) -> (r: &mut u64)
        requires
            old(self).wf(),
        ensures
            *r == old(self).value(),
            final(self).value() == *final(r),
            final(self).wf(),
            final(self).opened() == old(self).opened(),
            final(self).pending_prior() == Some(old(self).opened()),
            final(self).committed_value() == old(self).committed_value(),
            final(self).saved_rollback() == old(self).saved_rollback(),
    {
        if self.recorded.is_none() {
            self.recorded = Some(self.cur);
        }
        &mut self.cur
    }

    /// Open a nested transaction over the block.  Its writes shadow the
    /// block until `apply` merges them in; `discard` drops them without a
    /// trace.
    pub fn transaction(self) -> (t: Transaction)
        requires
            self.wf(),
        ensures
            t.wf(),
            t.visible() == self.value(),
            t.started() == self.value(),
            t.opened() == self.opened(),
            t.pending_prior() == self.pending_prior(),
            t.committed_value() == self.committed_value(),
            t.saved_rollback() == self.saved_rollback(),
    {
        let ghost started = self.cur;
        Transaction { block: self, t_prior: None, started: Ghost(started) }
    }

    /// Publish the staged value: it becomes the committed value, and the
    /// recorded opening value becomes the rollback slot that can undo this
    /// block.
    pub fn commit(self) -> (c: Cell)
        ensures
            c.value_of() == self.value(),
            c.rollback_of() == self.pending_prior(),
    {
        let Block { mut value, mut rollback, cur, recorded, open_value: _ } = self;
        value_slot_write(&mut value, cur);
        prior_slot_write(&mut rollback, recorded);
        Cell { value, rollback }
    }

    /// Drop the block without publishing: the staged value is discarded,
    /// and the cell comes back exactly as it was handed to the block.
    pub fn discard(self) -> (c: Cell)
        ensures
            c.value_of() == self.committed_value(),
            c.rollback_of() == self.saved_rollback(),
    {
        let Block { value, rollback, cur: _, recorded: _, open_value: _ } = self;
        Cell { value, rollback }
    }
}

/// Nested scope over a cell block: stages its own replacement value, which
/// `apply` merges into the block and `discard` drops without a trace.
pub struct Transaction {
    block: Block,
    t_prior: Option<u64>,
    started: Ghost<u64>,
}

impl Transaction {
    /// The value the transaction presents.
    pub closed spec fn visible(self) -> u64 {
        self.block.cur
    }

    /// The value the block presented when the transaction opened.
    pub closed spec fn started(self) -> u64 {
        self.started@
    }

    /// The value the block first presented, before any of its writes.
    pub closed spec fn opened(self) -> u64 {
        self.block.open_value@
    }

    /// Has the transaction written?
    pub closed spec fn wrote(self) -> bool {
        self.t_prior is Some
    }

    /// The block's recorded opening value, untouched by the transaction
    /// until `apply`.
    pub closed spec fn pending_prior(self) -> Option<u64> {
        self.block.recorded
    }

    /// The committed value underneath, untouched while the block is open.
    pub closed spec fn committed_value(self) -> u64 {
        slot_value(self.block.value)
    }

    /// The rollback slot of the block committed before this one.
    pub closed spec fn saved_rollback(self) -> Option<u64> {
        slot_prior(self.block.rollback)
    }

    /// The block's recorded prior fits its opening value, and the
    /// transaction's own recorded prior fits the value it started on.
    pub closed spec fn wf(self) -> bool {
        &&& prior_ok(self.block.recorded, self.started@, self.block.open_value@)
        &&& (match self.t_prior {
            None => self.block.cur == self.started@,
            Some(tp) => tp == self.started@,
        })
    }

    /// Read the value as the transaction sees it.
    pub fn get(&self) -> (r: u64)
        ensures
            r == self.visible(),
    {
        self.block.cur
    }

    /// Write access to the staged value.  The value the transaction
    /// started on is recorded on the first access, so that a discarded
    /// transaction can restore it.
    pub fn get_mut(&mut self) -> (r: &mut u64)
        requires
            old(self).wf(),
        ensures
            *r == old(self).visible(),
            final(self).visible() == *final(r),
            final(self).wf(),
            final(self).wrote(),
            final(self).started() == old(self).started(),
            final(self).opened() == old(self).opened(),
            final(self).pending_prior() == old(self).pending_prior(),
            final(self).committed_value() == old(self).committed_value(),
            final(self).saved_rollback() == old(self).saved_rollback(),
    {
        if self.t_prior.is_none() {
            self.t_prior = Some(self.block.cur);
        }
        &mut self.block.cur
    }

    /// Merge the transaction's write into the block: the block keeps the
    /// transaction's value, and records its opening value where the
    /// transaction wrote and nothing was recorded yet.
    pub fn apply(self) -> (b: Block)
        requires
            self.wf(),
        ensures
            b.wf(),
            b.value() == self.visible(),
            b.opened() == self.opened(),
            b.pending_prior() == (if self.wrote() {
                Some(self.opened())
            } else {
                self.pending_prior()
            }),
            b.committed_value() == self.committed_value(),
            b.saved_rollback() == self.saved_rollback(),
    {
        let Transaction { mut block, t_prior, started: _ } = self;
        if let Some(tp) = t_prior {
            if block.recorded.is_none() {
                block.recorded = Some(tp);
            }
        }
        block
    }

    /// Drop the transaction without applying it: the block comes back on
    /// the value the transaction started from, with no trace of the
    /// transaction's write.
    pub fn discard(self) -> (b: Block)
        requires
            self.wf(),
        ensures
            b.wf(),
            b.value() == self.started(),
            b.opened() == self.opened(),
            b.pending_prior() == self.pending_prior(),
            b.committed_value() == self.committed_value(),
            b.saved_rollback() == self.saved_rollback(),
    {
        let Transaction { mut block, t_prior, started: _ } = self;
        if let Some(tp) = t_prior {
            block.cur = tp;
        }
        block
    }
}

/// Single-step rollback for the cell: the prior a block records, applied
/// on top of the value it makes visible, restores exactly the value the
/// block opened on; where nothing was recorded the value never changed.
pub proof fn lemma_cell_rollback_restores(b: Block)
    requires
        b.wf(),
    ensures
        (match b.pending_prior() {
            Some(p) => p,
            None => b.value(),
        }) == b.opened(),
{
}

} // verus!
