//! Multi-version key/value storage.
//!
//! `Storage` owns the committed state: a persistent ordered base map and the
//! rollback log of the most recently committed block.  `block` hands the
//! store over to a `Block`, which stages writes in an overrides/tombstones
//! buffer and records, for every key it touches, the value the key had when
//! the block opened; `commit` publishes the staging buffer into the base map
//! and installs those recordings as the new rollback log, so that the next
//! block, opened with `block_and_revert`, can undo exactly this block.
//! `view` takes a point-in-time snapshot that later commits do not disturb.

use vstd::prelude::*;

use concread::bptree::BptreeMap;
use concread::ebrcell::EbrCell;

use crate::backing::RollbackEntry;
use crate::backing::rollback_slot_new;
use crate::backing::rollback_slot_read;
use crate::backing::rollback_slot_write;
use crate::backing::slot_rollback;
use crate::backing::tree_entries;
use crate::backing::tree_entries_vec;
use crate::backing::tree_get;
use crate::backing::tree_insert;
use crate::backing::tree_new;
use crate::backing::tree_remove;
use crate::ordvec::Bound;
use crate::ordvec::empty_map;
use crate::ordvec::entries_sorted;
use crate::ordvec::filter_bounds;
use crate::ordvec::has_key;
use crate::ordvec::key_set;
use crate::ordvec::keys_sorted;
use crate::ordvec::ks_contains;
use crate::ordvec::ks_insert;
use crate::ordvec::ks_remove;
use crate::ordvec::lemma_map_of_len;
use crate::ordvec::lemma_map_of_props;
use crate::ordvec::lemma_range_filter_props;
use crate::ordvec::map_get;
use crate::ordvec::map_in_bounds;
use crate::ordvec::map_of;
use crate::ordvec::merge_entries;
use crate::ordvec::merged;
use crate::ordvec::om_get;
use crate::ordvec::om_record;
use crate::ordvec::om_remove;
use crate::ordvec::om_set;
use crate::ordvec::om_value_mut;

verus! {

/// The map as it stood before the most recently committed block: every key
/// the rollback log holds goes back to its logged prior value (`None` means
/// the key was absent), and every other key keeps its committed value.
pub open spec fn apply_rollback(m: Map<u64, u64>, log: Map<u64, Option<u64>>) -> Map<u64, u64> {
    Map::new(
        |k: u64|
            if log.contains_key(k) {
                log[k] is Some
            } else {
                m.contains_key(k)
            },
        |k: u64|
            if log.contains_key(k) {
                log[k]->0
            } else {
                m[k]
            },
    )
}

/// Multi-version key/value storage: the committed base map plus the
/// rollback log that can undo the most recently committed block.
pub struct Storage {
    base: BptreeMap<u64, u64>,
    rollback: EbrCell<Vec<RollbackEntry>>,
}

/// Consistent point-in-time view of the storage: an owned copy of the
/// committed entries, untouched by blocks committed after it was taken.
pub struct Snapshot {
    entries: Vec<(u64, u64)>,
}

impl View for Snapshot {
    type V = Map<u64, u64>;

    closed spec fn view(&self) -> Map<u64, u64> {
        map_of(self.entries@)
    }
}

impl Snapshot {
    /// The snapshot's entries are sorted by strictly ascending key.
    pub closed spec fn wf(self) -> bool {
        entries_sorted(self.entries@)
    }

    /// Read one entry of the snapshot.
    pub fn get(&self, key: u64) -> (r: Option<u64>)
        requires
            self.wf(),
        ensures
            r == map_get(self@, key),
    {
        om_get(&self.entries, key)
    }

    /// All entries of the snapshot, in ascending key order.
    pub fn iter(&self) -> (r: Vec<(u64, u64)>)
        requires
            self.wf(),
        ensures
            entries_sorted(r@),
            map_of(r@) == self@,
    {
        copy_entries(&self.entries)
    }

    /// The entries of the snapshot whose keys lie inside the range, in
    /// ascending key order: exactly the entries of `iter` that the bounds
    /// admit.
    pub fn range(&self, lo: Bound, hi: Bound) -> (r: Vec<(u64, u64)>)
        requires
            self.wf(),
        ensures
            entries_sorted(r@),
            map_of(r@) == map_in_bounds(self@, lo, hi),
    {
        proof {
            lemma_range_filter_props(self.entries@, lo, hi);
        }
        filter_bounds(&self.entries, lo, hi)
    }

    /// How many entries the snapshot holds.
    pub fn len(&self) -> (n: usize)
        requires
            self.wf(),
        ensures
            n == self@.dom().len(),
    {
        proof {
            lemma_map_of_len(self.entries@);
        }
        self.entries.len()
    }
}

/// Copy a vector of entries.
fn copy_entries(v: &Vec<(u64, u64)>) -> (r: Vec<(u64, u64)>)
    ensures
        r@ == v@,
{
    let mut r: Vec<(u64, u64)> = Vec::new();
    let mut i: usize = 0;
    while i < v.len()
        invariant
            i <= v@.len(),
            r@ == v@.take(i as int),
        decreases v@.len() - i,
    {
        r.push(v[i]);
        proof {
            assert(v@.take(i as int + 1) =~= v@.take(i as int).push(v@[i as int]));
        }
        i += 1;
    }
    proof {
        assert(v@.take(v@.len() as int) =~= v@);
    }
    r
}

impl Storage {
    /// The committed key/value map.
    pub closed spec fn committed(self) -> Map<u64, u64> {
        tree_entries(self.base)
    }

    /// The rollback log: for every key the most recently committed block
    /// touched, the value the key had before that block (`None` for absent).
    pub closed spec fn rollback_log(self) -> Map<u64, Option<u64>> {
        map_of(slot_rollback(self.rollback))
    }

    /// The rollback log is held sorted by strictly ascending key.
    pub closed spec fn wf(self) -> bool {
        entries_sorted(slot_rollback(self.rollback))
    }

    /// An empty storage: no committed entries and nothing to revert.
    pub fn new() -> (s: Storage)
        ensures
            s.wf(),
            s.committed() == empty_map::<u64>(),
            s.rollback_log() == empty_map::<Option<u64>>(),
    {
        Storage { base: tree_new(), rollback: rollback_slot_new(Vec::new()) }
    }

    /// A storage whose committed map holds the given entries, applied in
    /// order (on equal keys the later entry wins), and nothing to revert.
    pub fn from_entries(entries: &Vec<(u64, u64)>) -> (s: Storage)
        ensures
            s.wf(),
            s.committed() == map_of(entries@),
            s.rollback_log() == empty_map::<Option<u64>>(),
    {
        let mut base = tree_new();
        let mut i: usize = 0;
        proof {
            assert(entries@.take(0) =~= Seq::<(u64, u64)>::empty());
        }
        while i < entries.len()
            invariant
                i <= entries@.len(),
                tree_entries(base) == map_of(entries@.take(i as int)),
            decreases entries@.len() - i,
        {
            let (k, v) = entries[i];
            tree_insert(&mut base, k, v);
            proof {
                let s1 = entries@.take(i as int + 1);
                assert(s1.drop_last() =~= entries@.take(i as int));
                assert(s1.last() == entries@[i as int]);
            }
            i += 1;
        }
        proof {
            assert(entries@.take(entries@.len() as int) =~= entries@);
        }
        Storage { base, rollback: rollback_slot_new(Vec::new()) }
    }

    /// The rollback log as sorted entries: what a durable export carries
    /// besides the committed entries.  The staging buffer of an open block
    /// is never exported.
    pub fn rollback_entries(&self) -> (r: Vec<(u64, Option<u64>)>)
        requires
            self.wf(),
        ensures
            entries_sorted(r@),
            map_of(r@) == self.rollback_log(),
    {
        rollback_slot_read(&self.rollback)
    }

    /// A storage rebuilt from exported parts: the committed entries and the
    /// rollback log, each applied in order (on equal keys the later entry
    /// wins).
    pub fn from_parts(blocks: &Vec<(u64, u64)>, rollback: &Vec<(u64, Option<u64>)>) -> (s: Storage)
        ensures
            s.wf(),
            s.committed() == map_of(blocks@),
            s.rollback_log() == map_of(rollback@),
    {
        let s = Storage::from_entries(blocks);
        let mut log: Vec<(u64, Option<u64>)> = Vec::new();
        let mut i: usize = 0;
        proof {
            assert(rollback@.take(0) =~= Seq::<(u64, Option<u64>)>::empty());
        }
        while i < rollback.len()
            invariant
                i <= rollback@.len(),
                entries_sorted(log@),
                map_of(log@) == map_of(rollback@.take(i as int)),
            decreases rollback@.len() - i,
        {
            let (k, v) = rollback[i];
            om_set(&mut log, k, v);
            proof {
                let s1 = rollback@.take(i as int + 1);
                assert(s1.drop_last() =~= rollback@.take(i as int));
                assert(s1.last() == rollback@[i as int]);
            }
            i += 1;
        }
        proof {
            assert(rollback@.take(rollback@.len() as int) =~= rollback@);
        }
        let Storage { base, rollback: mut slot } = s;
        rollback_slot_write(&mut slot, log);
        Storage { base, rollback: slot }
    }

    /// Take a consistent snapshot of the committed map.  The snapshot owns
    /// its entries: blocks committed afterwards do not change what it reads.
    pub fn view(&self) -> (snap: Snapshot)
        ensures
            snap.wf(),
            snap@ == self.committed(),
    {
        Snapshot { entries: tree_entries_vec(&self.base) }
    }

    /// Open a block for a batch of updates.  The block sees the committed
    /// map; what it stages becomes visible to snapshots only at `commit`.
    pub fn block(self) -> (b: Block)
        requires
            self.wf(),
        ensures
            b.wf(),
            b.visible() == self.committed(),
            b.opened() == self.committed(),
            b.pending() == empty_map::<Option<u64>>(),
            b.base_map() == self.committed(),
            b.saved_rollback() == self.rollback_log(),
    {
        let ghost om = tree_entries(self.base);
        let b = Block {
            base: self.base,
            rollback: self.rollback,
            overrides: Vec::new(),
            tombstones: Vec::new(),
            prior: Vec::new(),
            open_map: Ghost(om),
        };
        proof {
            assert(key_set(Seq::<u64>::empty()) =~= Set::<u64>::empty());
            assert(b.visible() =~= om);
        }
        b
    }

    /// Open a block that first undoes the most recently committed block: the
    /// rollback log is turned back into staged writes, so the block opens on
    /// the map as it stood before that block, and committing it publishes
    /// the reversion.  With an empty rollback log this opens an ordinary
    /// block: there is nothing left to undo.
    pub fn block_and_revert(self) -> (b: Block)
        requires
            self.wf(),
        ensures
            b.wf(),
            b.visible() == apply_rollback(self.committed(), self.rollback_log()),
            b.opened() == b.visible(),
            b.pending() == empty_map::<Option<u64>>(),
            b.base_map() == self.committed(),
            b.saved_rollback() == self.rollback_log(),
    {
        let rb = rollback_slot_read(&self.rollback);
        let mut overrides: Vec<(u64, u64)> = Vec::new();
        let mut tombstones: Vec<u64> = Vec::new();
        let mut i: usize = 0;
        while i < rb.len()
            invariant
                entries_sorted(rb@),
                i <= rb@.len(),
                entries_sorted(overrides@),
                keys_sorted(tombstones@),
                forall|a: int, b: int|
                    0 <= a < overrides@.len() && i <= b < rb@.len() ==> (
                    #[trigger] overrides@[a]).0 < (#[trigger] rb@[b]).0,
                forall|a: int, b: int|
                    0 <= a < tombstones@.len() && i <= b < rb@.len() ==> #[trigger] tombstones@[a]
                        < (#[trigger] rb@[b]).0,
                forall|p: (u64, u64)|
                    #[trigger] overrides@.contains(p) <==> rb@.take(i as int).contains(
                        (p.0, Some(p.1)),
                    ),
                forall|k: u64|
                    #[trigger] tombstones@.contains(k) <==> rb@.take(i as int).contains(
                        (k, None::<u64>),
                    ),
            decreases rb@.len() - i,
        {
            let (k, prior_value) = rb[i];
            let ghost ov0 = overrides@;
            let ghost ts0 = tombstones@;
            match prior_value {
                Some(v) => overrides.push((k, v)),
                None => tombstones.push(k),
            }
            i += 1;
            proof {
                assert(rb@.take(i as int) =~= rb@.take(i as int - 1).push(rb@[i as int - 1]));
                assert forall|p: (u64, u64)| #[trigger] overrides@.contains(p) <==> rb@.take(
                    i as int,
                ).contains((p.0, Some(p.1))) by {
                    vstd::seq_lib::lemma_seq_contains_after_push(ov0, (k, prior_value->0), p);
                    vstd::seq_lib::lemma_seq_contains_after_push(
                        rb@.take(i as int - 1),
                        rb@[i as int - 1],
                        (p.0, Some(p.1)),
                    );
                }
                assert forall|q: u64| #[trigger] tombstones@.contains(q) <==> rb@.take(
                    i as int,
                ).contains((q, None::<u64>)) by {
                    vstd::seq_lib::lemma_seq_contains_after_push(ts0, k, q);
                    vstd::seq_lib::lemma_seq_contains_after_push(
                        rb@.take(i as int - 1),
                        rb@[i as int - 1],
                        (q, None::<u64>),
                    );
                }
            }
        }
        let ghost log = map_of(rb@);
        let ghost om = apply_rollback(tree_entries(self.base), log);
        let b = Block {
            base: self.base,
            rollback: self.rollback,
            overrides,
            tombstones,
            prior: Vec::new(),
            open_map: Ghost(om),
        };
        proof {
            assert(rb@.take(rb@.len() as int) =~= rb@);
            lemma_map_of_props(rb@);
            lemma_map_of_props(b.overrides@);
            assert forall|k: u64| #[trigger] map_of(b.overrides@).contains_key(k) implies
                !key_set(b.tombstones@).contains(k) by {
                assert(has_key(b.overrides@, k));
                let a = choose|a: int|
                    0 <= a < b.overrides@.len() && (#[trigger] b.overrides@[a]).0 == k;
                assert(b.overrides@.contains(b.overrides@[a]));
                assert(rb@.contains((k, Some(b.overrides@[a].1))));
                if b.tombstones@.contains(k) {
                    assert(rb@.contains((k, None::<u64>)));
                    let b1 = choose|b1: int|
                        0 <= b1 < rb@.len() && rb@[b1] == (k, Some(b.overrides@[a].1));
                    let b2 = choose|b2: int| 0 <= b2 < rb@.len() && rb@[b2] == (k, None::<u64>);
                    assert((#[trigger] rb@[b1]).0 == (#[trigger] rb@[b2]).0);
                }
            }
            assert forall|k: u64| #[trigger] b.visible().contains_key(k) <==> om.contains_key(
                k,
            ) by {
                block_and_revert_key(rb@, b.overrides@, b.tombstones@, tree_entries(self.base), k);
            }
            assert forall|k: u64| #[trigger] b.visible().contains_key(k) implies b.visible()[k]
                == om[k] by {
                block_and_revert_key(rb@, b.overrides@, b.tombstones@, tree_entries(self.base), k);
            }
            assert(b.visible() =~= om);
        }
        b
    }
}

/// One key of the seeded staging buffer of a revert block agrees with
/// `apply_rollback`: helper for `block_and_revert`.
proof fn block_and_revert_key(
    rb: Seq<(u64, Option<u64>)>,
    ov: Seq<(u64, u64)>,
    ts: Seq<u64>,
    base: Map<u64, u64>,
    k: u64,
)
    requires
        entries_sorted(rb),
        entries_sorted(ov),
        forall|p: (u64, u64)| #[trigger] ov.contains(p) <==> rb.contains((p.0, Some(p.1))),
        forall|q: u64| #[trigger] ts.contains(q) <==> rb.contains((q, None::<u64>)),
    ensures
        merged(base, map_of(ov), key_set(ts)).contains_key(k) <==> apply_rollback(
            base,
            map_of(rb),
        ).contains_key(k),
        merged(base, map_of(ov), key_set(ts)).contains_key(k) ==> merged(
            base,
            map_of(ov),
            key_set(ts),
        )[k] == apply_rollback(base, map_of(rb))[k],
{
    lemma_map_of_props(rb);
    lemma_map_of_props(ov);
    let log = map_of(rb);
    if log.contains_key(k) {
        let idx = choose|idx: int| 0 <= idx < rb.len() && (#[trigger] rb[idx]).0 == k;
        let entry = rb[idx];
        assert(rb.contains(entry));
        assert(log[k] == entry.1);
        match entry.1 {
            Some(v) => {
                assert(ov.contains((k, v)));
                assert(has_key(ov, k)) by {
                    let a = choose|a: int| 0 <= a < ov.len() && ov[a] == (k, v);
                    assert((#[trigger] ov[a]).0 == k);
                }
                assert(map_of(ov)[k] == v) by {
                    let a = choose|a: int| 0 <= a < ov.len() && ov[a] == (k, v);
                    assert((#[trigger] ov[a]).0 == k && ov[a].1 == v);
                }
            },
            None => {
                assert(ts.contains(k));
                assert(!has_key(ov, k)) by {
                    if has_key(ov, k) {
                        let a = choose|a: int| 0 <= a < ov.len() && (#[trigger] ov[a]).0 == k;
                        assert(ov.contains(ov[a]));
                        assert(rb.contains((k, Some(ov[a].1))));
                        let b = choose|b: int|
                            0 <= b < rb.len() && rb[b] == (k, Some(ov[a].1));
                        assert((#[trigger] rb[b]).0 == k);
                        assert(map_of(rb)[k] == Some(ov[a].1));
                    }
                }
            },
        }
    } else {
        assert(!has_key(rb, k));
        assert(!has_key(ov, k)) by {
            if has_key(ov, k) {
                let a = choose|a: int| 0 <= a < ov.len() && (#[trigger] ov[a]).0 == k;
                assert(ov.contains(ov[a]));
                assert(rb.contains((k, Some(ov[a].1))));
                let b = choose|b: int| 0 <= b < rb.len() && rb[b] == (k, Some(ov[a].1));
                assert((#[trigger] rb[b]).0 == k);
            }
        }
        assert(!ts.contains(k)) by {
            if ts.contains(k) {
                assert(rb.contains((k, None::<u64>)));
                let b = choose|b: int| 0 <= b < rb.len() && rb[b] == (k, None::<u64>);
                assert((#[trigger] rb[b]).0 == k);
            }
        }
        assert(!key_set(ts).contains(k));
        assert(!map_of(ov).contains_key(k));
    }
}

impl Default for Storage {
    /// An empty storage, as `new` builds it.
    fn default() -> (s: Storage)
        ensures
            s.wf(),
            s.committed() == empty_map::<u64>(),
            s.rollback_log() == empty_map::<Option<u64>>(),
    {
        Storage::new()
    }
}

/// Exclusive write handle on a storage: stages a batch of updates over the
/// committed map and records, for every key it touches, the value the key
/// had when the block opened.
pub struct Block {
    base: BptreeMap<u64, u64>,
    rollback: EbrCell<Vec<RollbackEntry>>,
    overrides: Vec<(u64, u64)>,
    tombstones: Vec<u64>,
    prior: Vec<(u64, Option<u64>)>,
    open_map: Ghost<Map<u64, u64>>,
}

impl Block {
    /// The committed base map underneath the block, untouched while the
    /// block is open.
    pub closed spec fn base_map(self) -> Map<u64, u64> {
        tree_entries(self.base)
    }

    /// The rollback log of the block committed before this one, untouched
    /// until this block commits.
    pub closed spec fn saved_rollback(self) -> Map<u64, Option<u64>> {
        map_of(slot_rollback(self.rollback))
    }

    /// The map the block presents: its staged writes over the base map.
    pub closed spec fn visible(self) -> Map<u64, u64> {
        merged(self.base_map(), map_of(self.overrides@), key_set(self.tombstones@))
    }

    /// For every key the block has written: the value the key had when the
    /// block opened (`None` for absent).  Committing installs this map as
    /// the new rollback log.
    pub closed spec fn pending(self) -> Map<u64, Option<u64>> {
        map_of(self.prior@)
    }

    /// The map as the block first presented it, before any of its writes.
    pub closed spec fn opened(self) -> Map<u64, u64> {
        self.open_map@
    }

    /// The staging buffers are sorted, a key is overridden or tombstoned
    /// but never both, and the recorded priors are exactly the openings of
    /// the written keys while every unwritten key still shows its opening.
    pub closed spec fn wf(self) -> bool {
        &&& entries_sorted(self.overrides@)
        &&& keys_sorted(self.tombstones@)
        &&& entries_sorted(self.prior@)
        &&& entries_sorted(slot_rollback(self.rollback))
        &&& forall|k: u64|
            #[trigger] map_of(self.overrides@).contains_key(k) ==> !key_set(
                self.tombstones@,
            ).contains(k)
        &&& forall|k: u64|
            #[trigger] self.pending().contains_key(k) ==> self.pending()[k] == map_get(
                self.opened(),
                k,
            )
        &&& forall|k: u64|
            !(#[trigger] self.pending().contains_key(k)) ==> map_get(self.visible(), k)
                == map_get(self.opened(), k)
    }

    /// Read one entry as the block sees it: staged writes shadow the base.
    pub fn get(&self, key: u64) -> (r: Option<u64>)
        requires
            self.wf(),
        ensures
            r == map_get(self.visible(), key),
    {
        match om_get(&self.overrides, key) {
            Some(v) => Some(v),
            None => {
                if ks_contains(&self.tombstones, key) {
                    None
                } else {
                    tree_get(&self.base, key)
                }
            },
        }
    }

    /// Mutable access to the value of a key the block sees, or `None` where
    /// the key is absent.  The key's opening value is recorded first, so
    /// the write — whatever the caller stores — can be undone.
    pub fn get_mut(&mut self, key: u64) -> (r: Option<&mut u64>)
        requires
            old(self).wf(),
        ensures
            final(self).wf(),
            (r is Some) <==> old(self).visible().contains_key(key),
            (r matches Some(p) ==> *p == old(self).visible()[key] && final(self).visible()
                == old(self).visible().insert(key, *final(p))),
            (r is None ==> *final(self) == *old(self)),
            final(self).opened() == old(self).opened(),
            final(self).pending() == (if old(self).visible().contains_key(key) {
                record_write(old(self).pending(), key, old(self).visible())
            } else {
                old(self).pending()
            }),
            final(self).base_map() == old(self).base_map(),
            final(self).saved_rollback() == old(self).saved_rollback(),
    {
        let prev = self.get(key);
        match prev {
            None => None,
            Some(v) => {
                om_record(&mut self.prior, key, Some(v));
                om_set(&mut self.overrides, key, v);
                ks_remove(&mut self.tombstones, key);
                proof {
                    assert(self.visible() =~= old(self).visible());
                    assert(self.wf()) by {
                        assert forall|k: u64| !(#[trigger] self.pending().contains_key(k))
                            implies map_get(self.visible(), k) == map_get(self.opened(), k) by {
                            assert(k != key);
                            assert(map_get(self.visible(), k) == map_get(old(self).visible(), k));
                        }
                    }
                }
                let ghost mid = *self;
                proof {
                    assert forall|val: u64| #[trigger] merged(
                        mid.base_map(),
                        map_of(mid.overrides@).insert(key, val),
                        key_set(mid.tombstones@),
                    ) == old(self).visible().insert(key, val) by {
                        assert(merged(
                            mid.base_map(),
                            map_of(mid.overrides@).insert(key, val),
                            key_set(mid.tombstones@),
                        ) =~= old(self).visible().insert(key, val));
                    }
                    assert forall|val: u64| (#[trigger] map_of(mid.overrides@).insert(
                        key,
                        val,
                    )).dom() == map_of(mid.overrides@).dom() by {
                        assert(map_of(mid.overrides@).insert(key, val).dom() =~= map_of(
                            mid.overrides@,
                        ).dom());
                    }
                }
                Some(om_value_mut(&mut self.overrides, key))
            },
        }
    }

    /// Stage an insert; the value the key showed before it, if any, is
    /// handed back.  The key's opening value is recorded on its first write.
    pub fn insert(&mut self, key: u64, value: u64) -> (r: Option<u64>)
        requires
            old(self).wf(),
        ensures
            final(self).wf(),
            final(self).visible() == old(self).visible().insert(key, value),
            r == map_get(old(self).visible(), key),
            final(self).opened() == old(self).opened(),
            final(self).pending() == record_write(old(self).pending(), key, old(self).visible()),
            final(self).base_map() == old(self).base_map(),
            final(self).saved_rollback() == old(self).saved_rollback(),
    {
        let prev = self.get(key);
        om_record(&mut self.prior, key, prev);
        om_set(&mut self.overrides, key, value);
        ks_remove(&mut self.tombstones, key);
        proof {
            assert(self.visible() =~= old(self).visible().insert(key, value));
            assert(self.wf()) by {
                assert forall|k: u64| !(#[trigger] self.pending().contains_key(k)) implies
                    map_get(self.visible(), k) == map_get(self.opened(), k) by {
                    assert(k != key);
                    assert(map_get(self.visible(), k) == map_get(old(self).visible(), k));
                }
            }
        }
        prev
    }

    /// Stage a removal; the value the key showed before it, if any, is
    /// handed back.  The key's opening value is recorded on its first write.
    pub fn remove(&mut self, key: u64) -> (r: Option<u64>)
        requires
            old(self).wf(),
        ensures
            final(self).wf(),
            final(self).visible() == old(self).visible().remove(key),
            r == map_get(old(self).visible(), key),
            final(self).opened() == old(self).opened(),
            final(self).pending() == record_write(old(self).pending(), key, old(self).visible()),
            final(self).base_map() == old(self).base_map(),
            final(self).saved_rollback() == old(self).saved_rollback(),
    {
        let prev = self.get(key);
        om_record(&mut self.prior, key, prev);
        om_remove(&mut self.overrides, key);
        ks_insert(&mut self.tombstones, key);
        proof {
            assert(self.visible() =~= old(self).visible().remove(key));
            assert(self.wf()) by {
                assert forall|k: u64| !(#[trigger] self.pending().contains_key(k)) implies
                    map_get(self.visible(), k) == map_get(self.opened(), k) by {
                    assert(k != key);
                    assert(map_get(self.visible(), k) == map_get(old(self).visible(), k));
                }
            }
        }
        prev
    }

    /// All entries the block sees, in ascending key order, each key once:
    /// staged overrides win over the base, tombstoned keys are skipped.
    pub fn iter(&self) -> (r: Vec<(u64, u64)>)
        requires
            self.wf(),
        ensures
            entries_sorted(r@),
            map_of(r@) == self.visible(),
    {
        let base_entries = tree_entries_vec(&self.base);
        merge_entries(&base_entries, &self.overrides, &self.tombstones)
    }

    /// The entries the block sees whose keys lie inside the range, in
    /// ascending key order: exactly the entries of `iter` that the bounds
    /// admit.
    pub fn range(&self, lo: Bound, hi: Bound) -> (r: Vec<(u64, u64)>)
        requires
            self.wf(),
        ensures
            entries_sorted(r@),
            map_of(r@) == map_in_bounds(self.visible(), lo, hi),
    {
        let full = self.iter();
        proof {
            lemma_range_filter_props(full@, lo, hi);
        }
        filter_bounds(&full, lo, hi)
    }

    /// How many entries the block sees.
    pub fn len(&self) -> (n: usize)
        requires
            self.wf(),
        ensures
            n == self.visible().dom().len(),
    {
        let full = self.iter();
        proof {
            lemma_map_of_len(full@);
        }
        full.len()
    }

    /// Open a nested transaction over the block.  Its writes shadow the
    /// block until `apply` merges them in; `discard` drops them without a
    /// trace.
    pub fn transaction(self) -> (t: Transaction)
        requires
            self.wf(),
        ensures
            t.wf(),
            t.visible() == self.visible(),
            t.enclosing() == self,
    {
        let t = Transaction { block: self, t_overrides: Vec::new(), t_tombstones: Vec::new() };
        proof {
            assert(key_set(Seq::<u64>::empty()) =~= Set::<u64>::empty());
            assert(t.visible() =~= t.block.visible());
        }
        t
    }

    /// Publish the staged writes: the visible map becomes the committed map,
    /// and the recorded priors become the rollback log that can undo this
    /// block.
    pub fn commit(self) -> (s: Storage)
        requires
            self.wf(),
        ensures
            s.wf(),
            s.committed() == self.visible(),
            s.rollback_log() == self.pending(),
    {
        let Block { mut base, mut rollback, overrides, tombstones, prior, open_map } = self;
        let ghost base0 = tree_entries(base);
        let mut i: usize = 0;
        proof {
            assert(overrides@.take(0) =~= Seq::<(u64, u64)>::empty());
            assert(key_set(Seq::<u64>::empty()) =~= Set::<u64>::empty());
            assert(tree_entries(base) =~= merged(
                base0,
                map_of(overrides@.take(0)),
                Set::empty(),
            ));
        }
        while i < overrides.len()
            invariant
                entries_sorted(overrides@),
                i <= overrides@.len(),
                tree_entries(base) == merged(base0, map_of(overrides@.take(i as int)), Set::empty()),
            decreases overrides@.len() - i,
        {
            let (k, v) = overrides[i];
            tree_insert(&mut base, k, v);
            proof {
                let s1 = overrides@.take(i as int + 1);
                assert(s1.drop_last() =~= overrides@.take(i as int));
                assert(s1.last() == overrides@[i as int]);
                assert(tree_entries(base) =~= merged(base0, map_of(s1), Set::empty()));
            }
            i += 1;
        }
        proof {
            assert(overrides@.take(overrides@.len() as int) =~= overrides@);
        }
        let mut j: usize = 0;
        proof {
            assert(key_set(tombstones@.take(0)) =~= Set::<u64>::empty());
            assert(tree_entries(base) =~= merged(
                base0,
                map_of(overrides@),
                key_set(tombstones@.take(0)),
            ));
        }
        while j < tombstones.len()
            invariant
                keys_sorted(tombstones@),
                j <= tombstones@.len(),
                forall|k: u64|
                    #[trigger] map_of(overrides@).contains_key(k) ==> !key_set(
                        tombstones@,
                    ).contains(k),
                tree_entries(base) == merged(
                    base0,
                    map_of(overrides@),
                    key_set(tombstones@.take(j as int)),
                ),
            decreases tombstones@.len() - j,
        {
            let k = tombstones[j];
            tree_remove(&mut base, k);
            proof {
                let s1 = tombstones@.take(j as int + 1);
                assert(s1 =~= tombstones@.take(j as int).push(tombstones@[j as int]));
                assert forall|q: u64| #[trigger] key_set(s1).contains(q) <==> (key_set(
                    tombstones@.take(j as int),
                ).contains(q) || q == tombstones@[j as int]) by {
                    vstd::seq_lib::lemma_seq_contains_after_push(
                        tombstones@.take(j as int),
                        tombstones@[j as int],
                        q,
                    );
                }
                assert(tombstones@.contains(tombstones@[j as int]));
                assert(tree_entries(base) =~= merged(base0, map_of(overrides@), key_set(s1)));
            }
            j += 1;
        }
        proof {
            assert(tombstones@.take(tombstones@.len() as int) =~= tombstones@);
        }
        rollback_slot_write(&mut rollback, prior);
        Storage { base, rollback }
    }

    /// Drop the block without publishing: the staged writes are discarded,
    /// and the storage comes back exactly as it was handed to the block,
    /// with the previous block's rollback log still in place.
    pub fn discard(self) -> (s: Storage)
        requires
            self.wf(),
        ensures
            s.wf(),
            s.committed() == self.base_map(),
            s.rollback_log() == self.saved_rollback(),
    {
        let Block { base, rollback, overrides: _, tombstones: _, prior: _, open_map: _ } = self;
        Storage { base, rollback }
    }
}

/// How one write to `key` changes the block's recorded priors: the value
/// the key shows before the write is recorded, unless an earlier write
/// already recorded the key.
pub open spec fn record_write(
    pending: Map<u64, Option<u64>>,
    key: u64,
    vis: Map<u64, u64>,
) -> Map<u64, Option<u64>> {
    if pending.contains_key(key) {
        pending
    } else {
        pending.insert(key, map_get(vis, key))
    }
}

/// How applying a transaction changes the block's recorded priors: every
/// key the transaction touched and no earlier block write recorded is
/// recorded with the value it showed in the block.
pub open spec fn record_writes(
    pending: Map<u64, Option<u64>>,
    touched: Set<u64>,
    vis: Map<u64, u64>,
) -> Map<u64, Option<u64>> {
    Map::new(
        |k: u64| pending.contains_key(k) || touched.contains(k),
        |k: u64|
            if pending.contains_key(k) {
                pending[k]
            } else {
                map_get(vis, k)
            },
    )
}

/// Nested scope over a block: a private staging buffer shadowing the
/// block's map.  `apply` merges it into the block; dropping the
/// transaction by `discard` leaves the block exactly as it was.
pub struct Transaction {
    block: Block,
    t_overrides: Vec<(u64, u64)>,
    t_tombstones: Vec<u64>,
}

impl Transaction {
    /// The block underneath, exactly as it stood when the transaction
    /// opened: transaction writes do not touch it until `apply`.
    pub closed spec fn enclosing(self) -> Block {
        self.block
    }

    /// The map the transaction presents: its own staged writes over the
    /// block's map.
    pub closed spec fn visible(self) -> Map<u64, u64> {
        merged(self.block.visible(), map_of(self.t_overrides@), key_set(self.t_tombstones@))
    }

    /// The keys the transaction has written.
    pub closed spec fn touched(self) -> Set<u64> {
        map_of(self.t_overrides@).dom().union(key_set(self.t_tombstones@))
    }

    /// The block is well-formed and the transaction's staging buffers are
    /// sorted, with no key both overridden and tombstoned.
    pub closed spec fn wf(self) -> bool {
        &&& self.block.wf()
        &&& entries_sorted(self.t_overrides@)
        &&& keys_sorted(self.t_tombstones@)
        &&& forall|k: u64|
            #[trigger] map_of(self.t_overrides@).contains_key(k) ==> !key_set(
                self.t_tombstones@,
            ).contains(k)
    }

    /// Read one entry as the transaction sees it: its writes shadow the
    /// block, which shadows the base.
    pub fn get(&self, key: u64) -> (r: Option<u64>)
        requires
            self.wf(),
        ensures
            r == map_get(self.visible(), key),
    {
        match om_get(&self.t_overrides, key) {
            Some(v) => Some(v),
            None => {
                if ks_contains(&self.t_tombstones, key) {
                    None
                } else {
                    self.block.get(key)
                }
            },
        }
    }

    /// Mutable access to the value of a key the transaction sees, or
    /// `None` where the key is absent.  The write stays in the
    /// transaction's own buffer: discarded with it, or merged at `apply`.
    pub fn get_mut(&mut self, key: u64) -> (r: Option<&mut u64>)
        requires
            old(self).wf(),
        ensures
            final(self).wf(),
            (r is Some) <==> old(self).visible().contains_key(key),
            (r matches Some(p) ==> *p == old(self).visible()[key] && final(self).visible()
                == old(self).visible().insert(key, *final(p))),
            (r is None ==> *final(self) == *old(self)),
            final(self).enclosing() == old(self).enclosing(),
            final(self).touched() == (if old(self).visible().contains_key(key) {
                old(self).touched().insert(key)
            } else {
                old(self).touched()
            }),
    {
        let prev = self.get(key);
        match prev {
            None => None,
            Some(v) => {
                om_set(&mut self.t_overrides, key, v);
                ks_remove(&mut self.t_tombstones, key);
                proof {
                    assert(self.visible() =~= old(self).visible());
                    assert(self.touched() =~= old(self).touched().insert(key));
                }
                let ghost mid = *self;
                proof {
                    assert forall|val: u64| #[trigger] merged(
                        mid.block.visible(),
                        map_of(mid.t_overrides@).insert(key, val),
                        key_set(mid.t_tombstones@),
                    ) == old(self).visible().insert(key, val) by {
                        assert(merged(
                            mid.block.visible(),
                            map_of(mid.t_overrides@).insert(key, val),
                            key_set(mid.t_tombstones@),
                        ) =~= old(self).visible().insert(key, val));
                    }
                    assert forall|val: u64| (#[trigger] map_of(mid.t_overrides@).insert(
                        key,
                        val,
                    )).dom() == map_of(mid.t_overrides@).dom() by {
                        assert(map_of(mid.t_overrides@).insert(key, val).dom() =~= map_of(
                            mid.t_overrides@,
                        ).dom());
                    }
                }
                Some(om_value_mut(&mut self.t_overrides, key))
            },
        }
    }

    /// Stage an insert in the transaction; the value the key showed before
    /// it, if any, is handed back.
    pub fn insert(&mut self, key: u64, value: u64) -> (r: Option<u64>)
        requires
            old(self).wf(),
        ensures
            final(self).wf(),
            final(self).visible() == old(self).visible().insert(key, value),
            r == map_get(old(self).visible(), key),
            final(self).enclosing() == old(self).enclosing(),
            final(self).touched() == old(self).touched().insert(key),
    {
        let prev = self.get(key);
        om_set(&mut self.t_overrides, key, value);
        ks_remove(&mut self.t_tombstones, key);
        proof {
            assert(self.visible() =~= old(self).visible().insert(key, value));
            assert(self.touched() =~= old(self).touched().insert(key));
        }
        prev
    }

    /// Stage a removal in the transaction; the value the key showed before
    /// it, if any, is handed back.
    pub fn remove(&mut self, key: u64) -> (r: Option<u64>)
        requires
            old(self).wf(),
        ensures
            final(self).wf(),
            final(self).visible() == old(self).visible().remove(key),
            r == map_get(old(self).visible(), key),
            final(self).enclosing() == old(self).enclosing(),
            final(self).touched() == old(self).touched().insert(key),
    {
        let prev = self.get(key);
        om_remove(&mut self.t_overrides, key);
        ks_insert(&mut self.t_tombstones, key);
        proof {
            assert(self.visible() =~= old(self).visible().remove(key));
            assert(self.touched() =~= old(self).touched().insert(key));
        }
        prev
    }

    /// All entries the transaction sees, in ascending key order, each key
    /// once: transaction writes win over the block, which wins over the
    /// base, and tombstoned keys are skipped.
    pub fn iter(&self) -> (r: Vec<(u64, u64)>)
        requires
            self.wf(),
        ensures
            entries_sorted(r@),
            map_of(r@) == self.visible(),
    {
        let below = self.block.iter();
        merge_entries(&below, &self.t_overrides, &self.t_tombstones)
    }

    /// The entries the transaction sees whose keys lie inside the range, in
    /// ascending key order: exactly the entries of `iter` that the bounds
    /// admit.
    pub fn range(&self, lo: Bound, hi: Bound) -> (r: Vec<(u64, u64)>)
        requires
            self.wf(),
        ensures
            entries_sorted(r@),
            map_of(r@) == map_in_bounds(self.visible(), lo, hi),
    {
        let full = self.iter();
        proof {
            lemma_range_filter_props(full@, lo, hi);
        }
        filter_bounds(&full, lo, hi)
    }

    /// How many entries the transaction sees.
    pub fn len(&self) -> (n: usize)
        requires
            self.wf(),
        ensures
            n == self.visible().dom().len(),
    {
        let full = self.iter();
        proof {
            lemma_map_of_len(full@);
        }
        full.len()
    }

    /// Merge the transaction's writes into the block: the block now
    /// presents the transaction's map, and records the priors of the keys
    /// the transaction touched that no earlier block write had recorded.
    pub fn apply(self) -> (b: Block)
        requires
            self.wf(),
        ensures
            b.wf(),
            b.visible() == self.visible(),
            b.opened() == self.enclosing().opened(),
            b.base_map() == self.enclosing().base_map(),
            b.saved_rollback() == self.enclosing().saved_rollback(),
            b.pending() == record_writes(
                self.enclosing().pending(),
                self.touched(),
                self.enclosing().visible(),
            ),
    {
        let Transaction { mut block, t_overrides, t_tombstones } = self;
        let ghost b0 = block;
        let mut i: usize = 0;
        proof {
            assert(t_overrides@.take(0) =~= Seq::<(u64, u64)>::empty());
            assert(key_set(Seq::<u64>::empty()) =~= Set::<u64>::empty());
            assert(block.visible() =~= merged(
                b0.visible(),
                map_of(t_overrides@.take(0)),
                Set::empty(),
            ));
            assert(block.pending() =~= record_writes(
                b0.pending(),
                map_of(t_overrides@.take(0)).dom(),
                b0.visible(),
            ));
        }
        while i < t_overrides.len()
            invariant
                entries_sorted(t_overrides@),
                i <= t_overrides@.len(),
                block.wf(),
                block.opened() == b0.opened(),
                block.base_map() == b0.base_map(),
                block.saved_rollback() == b0.saved_rollback(),
                block.visible() == merged(
                    b0.visible(),
                    map_of(t_overrides@.take(i as int)),
                    Set::empty(),
                ),
                block.pending() == record_writes(
                    b0.pending(),
                    map_of(t_overrides@.take(i as int)).dom(),
                    b0.visible(),
                ),
            decreases t_overrides@.len() - i,
        {
            let (k, v) = t_overrides[i];
            proof {
                lemma_map_of_props(t_overrides@.take(i as int));
            }
            block.insert(k, v);
            proof {
                let s1 = t_overrides@.take(i as int + 1);
                assert(s1.drop_last() =~= t_overrides@.take(i as int));
                assert(s1.last() == t_overrides@[i as int]);
                assert(block.visible() =~= merged(b0.visible(), map_of(s1), Set::empty()));
                assert(block.pending() =~= record_writes(
                    b0.pending(),
                    map_of(s1).dom(),
                    b0.visible(),
                ));
            }
            i += 1;
        }
        proof {
            assert(t_overrides@.take(t_overrides@.len() as int) =~= t_overrides@);
        }
        let mut j: usize = 0;
        proof {
            assert(key_set(t_tombstones@.take(0)) =~= Set::<u64>::empty());
            assert(block.visible() =~= merged(
                b0.visible(),
                map_of(t_overrides@),
                key_set(t_tombstones@.take(0)),
            ));
            assert(block.pending() =~= record_writes(
                b0.pending(),
                map_of(t_overrides@).dom().union(key_set(t_tombstones@.take(0))),
                b0.visible(),
            ));
        }
        while j < t_tombstones.len()
            invariant
                keys_sorted(t_tombstones@),
                j <= t_tombstones@.len(),
                block.wf(),
                block.opened() == b0.opened(),
                block.base_map() == b0.base_map(),
                block.saved_rollback() == b0.saved_rollback(),
                forall|k: u64|
                    #[trigger] map_of(t_overrides@).contains_key(k) ==> !key_set(
                        t_tombstones@,
                    ).contains(k),
                block.visible() == merged(
                    b0.visible(),
                    map_of(t_overrides@),
                    key_set(t_tombstones@.take(j as int)),
                ),
                block.pending() == record_writes(
                    b0.pending(),
                    map_of(t_overrides@).dom().union(key_set(t_tombstones@.take(j as int))),
                    b0.visible(),
                ),
            decreases t_tombstones@.len() - j,
        {
            let k = t_tombstones[j];
            block.remove(k);
            proof {
                let s1 = t_tombstones@.take(j as int + 1);
                assert(s1 =~= t_tombstones@.take(j as int).push(t_tombstones@[j as int]));
                assert forall|q: u64| #[trigger] key_set(s1).contains(q) <==> (key_set(
                    t_tombstones@.take(j as int),
                ).contains(q) || q == t_tombstones@[j as int]) by {
                    vstd::seq_lib::lemma_seq_contains_after_push(
                        t_tombstones@.take(j as int),
                        t_tombstones@[j as int],
                        q,
                    );
                }
                assert(t_tombstones@.contains(t_tombstones@[j as int]));
                assert(block.visible() =~= merged(b0.visible(), map_of(t_overrides@), key_set(s1)));
                assert(block.pending() =~= record_writes(
                    b0.pending(),
                    map_of(t_overrides@).dom().union(key_set(s1)),
                    b0.visible(),
                ));
            }
            j += 1;
        }
        proof {
            assert(t_tombstones@.take(t_tombstones@.len() as int) =~= t_tombstones@);
            assert(block.visible() =~= merged(
                b0.visible(),
                map_of(t_overrides@),
                key_set(t_tombstones@),
            ));
        }
        block
    }

    /// Drop the transaction without applying it: the block comes back
    /// exactly as it stood when the transaction opened, with no trace of
    /// the transaction's writes.
    pub fn discard(self) -> (b: Block)
        ensures
            b == self.enclosing(),
    {
        let Transaction { block, t_overrides: _, t_tombstones: _ } = self;
        block
    }
}

/// Read access shared by snapshots, blocks and transactions: each presents
/// an ordered key/value map, read by key, in full, or by range.
pub trait StorageReadOnly {
    /// The map the reader presents.
    spec fn contents(&self) -> Map<u64, u64>;

    /// The reader's internal buffers are well-formed.
    spec fn valid(&self) -> bool;

    /// Read one entry.
    fn get(&self, key: u64) -> (r: Option<u64>)
        requires
            self.valid(),
        ensures
            r == map_get(self.contents(), key),
    ;

    /// All entries, in ascending key order, each key once.
    fn iter(&self) -> (r: Vec<(u64, u64)>)
        requires
            self.valid(),
        ensures
            entries_sorted(r@),
            map_of(r@) == self.contents(),
    ;

    /// The entries whose keys lie inside the range, in ascending key order.
    fn range(&self, lo: Bound, hi: Bound) -> (r: Vec<(u64, u64)>)
        requires
            self.valid(),
        ensures
            entries_sorted(r@),
            map_of(r@) == map_in_bounds(self.contents(), lo, hi),
    ;

    /// How many entries the reader presents.
    fn len(&self) -> (n: usize)
        requires
            self.valid(),
        ensures
            n == self.contents().dom().len(),
    ;
}

impl StorageReadOnly for Snapshot {
    open spec fn contents(&self) -> Map<u64, u64> {
        self@
    }

    open spec fn valid(&self) -> bool {
        self.wf()
    }

    fn get(&self, key: u64) -> (r: Option<u64>) {
        self.get(key)
    }

    fn iter(&self) -> (r: Vec<(u64, u64)>) {
        self.iter()
    }

    fn range(&self, lo: Bound, hi: Bound) -> (r: Vec<(u64, u64)>) {
        self.range(lo, hi)
    }

    fn len(&self) -> (n: usize) {
        self.len()
    }
}

impl StorageReadOnly for Block {
    open spec fn contents(&self) -> Map<u64, u64> {
        self.visible()
    }

    open spec fn valid(&self) -> bool {
        self.wf()
    }

    fn get(&self, key: u64) -> (r: Option<u64>) {
        self.get(key)
    }

    fn iter(&self) -> (r: Vec<(u64, u64)>) {
        self.iter()
    }

    fn range(&self, lo: Bound, hi: Bound) -> (r: Vec<(u64, u64)>) {
        self.range(lo, hi)
    }

    fn len(&self) -> (n: usize) {
        self.len()
    }
}

impl StorageReadOnly for Transaction {
    open spec fn contents(&self) -> Map<u64, u64> {
        self.visible()
    }

    open spec fn valid(&self) -> bool {
        self.wf()
    }

    fn get(&self, key: u64) -> (r: Option<u64>) {
        self.get(key)
    }

    fn iter(&self) -> (r: Vec<(u64, u64)>) {
        self.iter()
    }

    fn range(&self, lo: Bound, hi: Bound) -> (r: Vec<(u64, u64)>) {
        self.range(lo, hi)
    }

    fn len(&self) -> (n: usize) {
        self.len()
    }
}

/// Single-step rollback: applying the priors a block records on top of the
/// map it makes visible restores exactly the map the block opened on.  So
/// committing a block and then committing an untouched revert block brings
/// the committed map back to its state before the block.
pub proof fn lemma_rollback_restores(b: Block)
    requires
        b.wf(),
    ensures
        apply_rollback(b.visible(), b.pending()) == b.opened(),
{
    assert forall|k: u64|
        #[trigger] apply_rollback(b.visible(), b.pending()).contains_key(k)
            <==> b.opened().contains_key(k) by {
        if b.pending().contains_key(k) {
            assert(b.pending()[k] == map_get(b.opened(), k));
        } else {
            assert(map_get(b.visible(), k) == map_get(b.opened(), k));
        }
    }
    assert forall|k: u64| #[trigger] b.opened().contains_key(k) implies apply_rollback(
        b.visible(),
        b.pending(),
    )[k] == b.opened()[k] by {
        if b.pending().contains_key(k) {
            assert(b.pending()[k] == map_get(b.opened(), k));
        } else {
            assert(map_get(b.visible(), k) == map_get(b.opened(), k));
        }
    }
    assert(apply_rollback(b.visible(), b.pending()) =~= b.opened());
}

/// A revert undoes at most the single most recently committed block: with
/// an empty rollback log — as a committed revert block leaves behind —
/// applying the rollback changes nothing.
pub proof fn lemma_revert_empty_noop(m: Map<u64, u64>)
    ensures
        apply_rollback(m, empty_map::<Option<u64>>()) == m,
{
    assert(apply_rollback(m, empty_map::<Option<u64>>()) =~= m);
}

} // verus!
