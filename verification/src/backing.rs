//! Trusted boundary to the concurrently-readable backing structures.
//!
//! The committed state of a store lives in a copy-on-write B+tree
//! (`concread::bptree::BptreeMap`) and the rollback log and the scalar cell
//! live in epoch-reclaimed value slots (`concread::ebrcell::EbrCell`).  Both
//! structures are opaque to the verifier, so their contents are given names
//! (`tree_entries`, `slot_*`) and each operation the store performs on them
//! stands behind a small wrapper whose contract states, over those names,
//! what the crate's source shows the call does.

use vstd::prelude::*;

use concread::bptree::BptreeMap;
use concread::ebrcell::EbrCell;

verus! {

#[verifier::external_type_specification]
#[verifier::external_body]
#[verifier::reject_recursive_types(K)]
#[verifier::reject_recursive_types(V)]
pub struct ExBptreeMap<K, V>(BptreeMap<K, V>) where
    K: Ord + Clone + core::fmt::Debug + Sync + Send + 'static,
    V: Clone + Sync + Send + 'static,
;

#[verifier::external_type_specification]
#[verifier::external_body]
#[verifier::reject_recursive_types(T)]
pub struct ExEbrCell<T: Clone + Sync + Send + 'static>(EbrCell<T>);

/// The key/value pairs the tree holds, as a map.
pub uninterp spec fn tree_entries(m: BptreeMap<u64, u64>) -> Map<u64, u64>;

/// One rollback entry as the slot stores it: a key and the value the key
/// had before the most recently committed block (`None` for absent).
#[derive(Clone)]
pub struct RollbackEntry {
    pub key: u64,
    pub prior: Option<u64>,
}

/// The rollback entries the slot holds, as a sequence of pairs.
pub uninterp spec fn slot_rollback(c: EbrCell<Vec<RollbackEntry>>) -> Seq<(u64, Option<u64>)>;

/// The value the scalar slot holds.
pub uninterp spec fn slot_value(c: EbrCell<u64>) -> u64;

/// The optional prior value the scalar rollback slot holds.
pub uninterp spec fn slot_prior(c: EbrCell<Option<u64>>) -> Option<u64>;

/// Relies on `BptreeMap::new`: the fresh tree holds no entries.
#[verifier::external_body]
pub(crate) fn tree_new() -> (r: BptreeMap<u64, u64>)
    ensures
        tree_entries(r) == crate::ordvec::empty_map::<u64>(),
{
    BptreeMap::new()
}

/// Relies on `BptreeMap::read` and `BptreeMapReadTxn::get`: a read
/// transaction sees the committed entries, and `get` looks one key up.
#[verifier::external_body]
pub(crate) fn tree_get(m: &BptreeMap<u64, u64>, key: u64) -> (r: Option<u64>)
    ensures
        r == crate::ordvec::map_get(tree_entries(*m), key),
{
    m.read().get(&key).copied()
}

/// Relies on `BptreeMap::read` and `BptreeMapReadTxn::iter`: the iterator
/// walks the committed entries once each, in ascending key order.
#[verifier::external_body]
pub(crate) fn tree_entries_vec(m: &BptreeMap<u64, u64>) -> (r: Vec<(u64, u64)>)
    ensures
        crate::ordvec::entries_sorted(r@),
        crate::ordvec::map_of(r@) == tree_entries(*m),
{
    m.read().iter().map(|(k, v)| (*k, *v)).collect()
}

/// Relies on `BptreeMap::write`, `BptreeMapWriteTxn::insert` and
/// `BptreeMapWriteTxn::commit`: `insert` puts the pair in and returns the
/// value previously held, and `commit` publishes the change.
#[verifier::external_body]
pub(crate) fn tree_insert(m: &mut BptreeMap<u64, u64>, key: u64, value: u64) -> (r: Option<u64>)
    ensures
        tree_entries(*final(m)) == tree_entries(*old(m)).insert(key, value),
        r == crate::ordvec::map_get(tree_entries(*old(m)), key),
{
    let mut w = m.write();
    let r = w.insert(key, value);
    w.commit();
    r
}

/// Relies on `BptreeMap::write`, `BptreeMapWriteTxn::remove` and
/// `BptreeMapWriteTxn::commit`: `remove` takes the key out and returns the
/// value previously held, and `commit` publishes the change.
#[verifier::external_body]
pub(crate) fn tree_remove(m: &mut BptreeMap<u64, u64>, key: u64) -> (r: Option<u64>)
    ensures
        tree_entries(*final(m)) == tree_entries(*old(m)).remove(key),
        r == crate::ordvec::map_get(tree_entries(*old(m)), key),
{
    let mut w = m.write();
    let r = w.remove(&key);
    w.commit();
    r
}

/// Relies on `EbrCell::new`: the fresh slot holds the given value.
#[verifier::external_body]
pub(crate) fn rollback_slot_new(entries: Vec<(u64, Option<u64>)>) -> (c: EbrCell<
    Vec<RollbackEntry>,
>)
    ensures
        slot_rollback(c) == entries@,
{
    EbrCell::new(entries.into_iter().map(|(k, p)| RollbackEntry { key: k, prior: p }).collect())
}

/// Relies on `EbrCell::read`: a read transaction hands out the value the
/// slot holds.
#[verifier::external_body]
pub(crate) fn rollback_slot_read(c: &EbrCell<Vec<RollbackEntry>>) -> (r: Vec<(u64, Option<u64>)>)
    ensures
        r@ == slot_rollback(*c),
{
    c.read().iter().map(|e| (e.key, e.prior)).collect()
}

/// Relies on `EbrCell::write`, `EbrCellWriteTxn::get_mut` and
/// `EbrCellWriteTxn::commit`: the written value replaces the slot's value
/// when the transaction commits.
#[verifier::external_body]
pub(crate) fn rollback_slot_write(c: &mut EbrCell<Vec<RollbackEntry>>, entries: Vec<
    (u64, Option<u64>),
>)
    ensures
        slot_rollback(*final(c)) == entries@,
{
    let mut w = c.write();
    *w.get_mut() = entries.into_iter().map(|(k, p)| RollbackEntry { key: k, prior: p }).collect();
    w.commit();
}

/// Relies on `EbrCell::new`: the fresh slot holds the given value.
#[verifier::external_body]
pub(crate) fn value_slot_new(value: u64) -> (c: EbrCell<u64>)
    ensures
        slot_value(c) == value,
{
    EbrCell::new(value)
}

/// Relies on `EbrCell::read`: a read transaction hands out the value the
/// slot holds.
#[verifier::external_body]
pub(crate) fn value_slot_read(c: &EbrCell<u64>) -> (r: u64)
    ensures
        r == slot_value(*c),
{
    *c.read()
}

/// Relies on `EbrCell::write`, `EbrCellWriteTxn::get_mut` and
/// `EbrCellWriteTxn::commit`: the written value replaces the slot's value
/// when the transaction commits.
#[verifier::external_body]
pub(crate) fn value_slot_write(c: &mut EbrCell<u64>, value: u64)
    ensures
        slot_value(*final(c)) == value,
{
    let mut w = c.write();
    *w.get_mut() = value;
    w.commit();
}

/// Relies on `EbrCell::new`: the fresh slot holds the given value.
#[verifier::external_body]
pub(crate) fn prior_slot_new(value: Option<u64>) -> (c: EbrCell<Option<u64>>)
    ensures
        slot_prior(c) == value,
{
    EbrCell::new(value)
}

/// Relies on `EbrCell::read`: a read transaction hands out the value the
/// slot holds.
#[verifier::external_body]
pub(crate) fn prior_slot_read(c: &EbrCell<Option<u64>>) -> (r: Option<u64>)
    ensures
        r == slot_prior(*c),
{
    *c.read()
}

/// Relies on `EbrCell::write`, `EbrCellWriteTxn::get_mut` and
/// `EbrCellWriteTxn::commit`: the written value replaces the slot's value
/// when the transaction commits.
#[verifier::external_body]
pub(crate) fn prior_slot_write(c: &mut EbrCell<Option<u64>>, value: Option<u64>)
    ensures
        slot_prior(*final(c)) == value,
{
    let mut w = c.write();
    *w.get_mut() = value;
    w.commit();
}

} // verus!
