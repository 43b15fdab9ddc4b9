//! Ordered key/value buffers on sorted vectors.
//!
//! The staging buffer of a block (its overrides and tombstones) and the
//! rollback log are held as vectors sorted by strictly ascending key.  This
//! module gives them their mathematical model — `map_of` for entry vectors,
//! `key_set` for key vectors — and the verified operations the store builds
//! on: lookup, insert-or-update, first-write recording, removal, the ordered
//! merge of a staging buffer over a base, and range filtering.

use vstd::prelude::*;

verus! {

/// Keys of the entry sequence are strictly ascending (hence unique).
pub open spec fn entries_sorted<V>(s: Seq<(u64, V)>) -> bool {
    forall|i: int, j: int| 0 <= i < j < s.len() ==> (#[trigger] s[i]).0 < (#[trigger] s[j]).0
}

/// Keys of the key sequence are strictly ascending (hence unique).
pub open spec fn keys_sorted(s: Seq<u64>) -> bool {
    forall|i: int, j: int| 0 <= i < j < s.len() ==> #[trigger] s[i] < #[trigger] s[j]
}

/// The map an entry sequence stands for; on duplicate keys the later entry
/// wins, so on sorted sequences every entry is visible.
pub open spec fn map_of<V>(s: Seq<(u64, V)>) -> Map<u64, V>
    decreases s.len(),
{
    if s.len() == 0 {
        Map::empty()
    } else {
        map_of(s.drop_last()).insert(s.last().0, s.last().1)
    }
}

/// The set a key sequence stands for.
pub open spec fn key_set(s: Seq<u64>) -> Set<u64> {
    s.to_set()
}

/// Some key is carried by an entry of the sequence.
pub open spec fn has_key<V>(s: Seq<(u64, V)>, k: u64) -> bool {
    exists|i: int| 0 <= i < s.len() && (#[trigger] s[i]).0 == k
}

/// The map with no entries, keyed by `u64`.
pub open spec fn empty_map<V>() -> Map<u64, V> {
    Map::empty()
}

/// Total lookup: the value at `k`, or `None` where the map has no entry.
pub open spec fn map_get<V>(m: Map<u64, V>, k: u64) -> Option<V> {
    if m.contains_key(k) {
        Some(m[k])
    } else {
        None
    }
}

/// `map_of` holds exactly the keys carried by the sequence, and on a sorted
/// sequence each entry supplies the value of its key.
pub proof fn lemma_map_of_props<V>(s: Seq<(u64, V)>)
    requires
        entries_sorted(s),
    ensures
        forall|k: u64| #[trigger] map_of(s).contains_key(k) <==> has_key(s, k),
        forall|i: int|
            0 <= i < s.len() ==> map_of(s).contains_key((#[trigger] s[i]).0) && map_of(s)[s[i].0]
                == s[i].1,
    decreases s.len(),
{
    if s.len() > 0 {
        let d = s.drop_last();
        assert(entries_sorted(d));
        lemma_map_of_props(d);
        assert forall|k: u64| #[trigger] map_of(s).contains_key(k) implies has_key(s, k) by {
            if k == s.last().0 {
                assert((#[trigger] s[s.len() - 1]).0 == k);
            } else {
                assert(map_of(d).contains_key(k));
                assert(has_key(d, k));
                let i = choose|i: int| 0 <= i < d.len() && (#[trigger] d[i]).0 == k;
                assert(s[i] == d[i]);
                assert((#[trigger] s[i]).0 == k);
            }
        }
        assert forall|k: u64| has_key(s, k) implies #[trigger] map_of(s).contains_key(k) by {
            let i = choose|i: int| 0 <= i < s.len() && (#[trigger] s[i]).0 == k;
            if i < s.len() - 1 {
                assert(d[i].0 == k);
            }
        }
        assert forall|i: int| 0 <= i < s.len() implies map_of(s).contains_key((#[trigger] s[i]).0)
            && map_of(s)[s[i].0] == s[i].1 by {
            if i < s.len() - 1 {
                assert(d[i] == s[i]);
                assert(s[i].0 < s.last().0);
            }
        }
    }
}

/// A sorted entry sequence has as many entries as its map has keys.
pub proof fn lemma_map_of_len<V>(s: Seq<(u64, V)>)
    requires
        entries_sorted(s),
    ensures
        map_of(s).dom().finite(),
        map_of(s).dom().len() == s.len(),
    decreases s.len(),
{
    if s.len() == 0 {
        assert(map_of(s).dom() =~= Set::<u64>::empty());
    } else {
        let d = s.drop_last();
        assert(entries_sorted(d));
        lemma_map_of_len(d);
        lemma_map_of_props(d);
        assert(!map_of(d).contains_key(s.last().0)) by {
            if has_key(d, s.last().0) {
                let i = choose|i: int| 0 <= i < d.len() && (#[trigger] d[i]).0 == s.last().0;
                assert(s[i].0 < s.last().0);
            }
        }
        assert(map_of(s).dom() =~= map_of(d).dom().insert(s.last().0));
    }
}

/// Inserting an entry at its ordered position inserts its key in the map.
proof fn lemma_sorted_insert<V>(s: Seq<(u64, V)>, idx: int, key: u64, value: V)
    requires
        entries_sorted(s),
        0 <= idx <= s.len(),
        forall|j: int| 0 <= j < idx ==> (#[trigger] s[j]).0 < key,
        forall|j: int| idx <= j < s.len() ==> (#[trigger] s[j]).0 > key,
    ensures
        entries_sorted(s.insert(idx, (key, value))),
        map_of(s.insert(idx, (key, value))) == map_of(s).insert(key, value),
{
    let t = s.insert(idx, (key, value));
    assert(entries_sorted(t));
    lemma_map_of_props(s);
    lemma_map_of_props(t);
    assert forall|k: u64| #[trigger] map_of(t).contains_key(k) implies map_of(s).insert(
        key,
        value,
    ).contains_key(k) by {
        let i = choose|i: int| 0 <= i < t.len() && (#[trigger] t[i]).0 == k;
        if i < idx {
            assert((#[trigger] s[i]).0 == k);
        } else if i > idx {
            assert((#[trigger] s[i - 1]).0 == k);
        }
    }
    assert forall|k: u64| map_of(s).insert(key, value).contains_key(k) implies #[trigger] map_of(
        t,
    ).contains_key(k) by {
        if k == key {
            assert((#[trigger] t[idx]).0 == k);
        } else {
            let i = choose|i: int| 0 <= i < s.len() && (#[trigger] s[i]).0 == k;
            if i < idx {
                assert((#[trigger] t[i]).0 == k);
            } else {
                assert((#[trigger] t[i + 1]).0 == k);
            }
        }
    }
    assert forall|k: u64| #[trigger] map_of(t).contains_key(k) implies map_of(t)[k] == map_of(
        s,
    ).insert(key, value)[k] by {
        let i = choose|i: int| 0 <= i < t.len() && (#[trigger] t[i]).0 == k;
        if i < idx {
            assert((#[trigger] s[i]).0 == k && s[i].1 == t[i].1);
        } else if i > idx {
            assert((#[trigger] s[i - 1]).0 == k && s[i - 1].1 == t[i].1);
        }
    }
    assert(map_of(t) =~= map_of(s).insert(key, value));
}

/// Replacing the entry at `idx` updates its key in the map.
proof fn lemma_sorted_update<V>(s: Seq<(u64, V)>, idx: int, value: V)
    requires
        entries_sorted(s),
        0 <= idx < s.len(),
    ensures
        entries_sorted(s.update(idx, (s[idx].0, value))),
        map_of(s.update(idx, (s[idx].0, value))) == map_of(s).insert(s[idx].0, value),
{
    let key = s[idx].0;
    let t = s.update(idx, (key, value));
    assert(entries_sorted(t));
    lemma_map_of_props(s);
    lemma_map_of_props(t);
    assert forall|k: u64| #[trigger] map_of(t).contains_key(k) implies map_of(s).insert(
        key,
        value,
    ).contains_key(k) by {
        let i = choose|i: int| 0 <= i < t.len() && (#[trigger] t[i]).0 == k;
        assert((#[trigger] s[i]).0 == k);
    }
    assert forall|k: u64| map_of(s).insert(key, value).contains_key(k) implies #[trigger] map_of(
        t,
    ).contains_key(k) by {
        if k == key {
            assert((#[trigger] t[idx]).0 == k);
        } else {
            let i = choose|i: int| 0 <= i < s.len() && (#[trigger] s[i]).0 == k;
            assert((#[trigger] t[i]).0 == k);
        }
    }
    assert forall|k: u64| #[trigger] map_of(t).contains_key(k) implies map_of(t)[k] == map_of(
        s,
    ).insert(key, value)[k] by {
        let i = choose|i: int| 0 <= i < t.len() && (#[trigger] t[i]).0 == k;
        if i != idx {
            assert((#[trigger] s[i]).0 == k && s[i].1 == t[i].1);
            assert(k != key);
        }
    }
    assert(map_of(t) =~= map_of(s).insert(key, value));
}

/// Removing the entry at `idx` removes its key from the map.
proof fn lemma_sorted_remove<V>(s: Seq<(u64, V)>, idx: int)
    requires
        entries_sorted(s),
        0 <= idx < s.len(),
    ensures
        entries_sorted(s.remove(idx)),
        map_of(s.remove(idx)) == map_of(s).remove(s[idx].0),
{
    let key = s[idx].0;
    let t = s.remove(idx);
    assert(entries_sorted(t));
    lemma_map_of_props(s);
    lemma_map_of_props(t);
    assert forall|k: u64| #[trigger] map_of(t).contains_key(k) implies map_of(s).remove(
        key,
    ).contains_key(k) by {
        let i = choose|i: int| 0 <= i < t.len() && (#[trigger] t[i]).0 == k;
        if i < idx {
            assert((#[trigger] s[i]).0 == k);
        } else {
            assert((#[trigger] s[i + 1]).0 == k);
        }
    }
    assert forall|k: u64| map_of(s).remove(key).contains_key(k) implies #[trigger] map_of(
        t,
    ).contains_key(k) by {
        let i = choose|i: int| 0 <= i < s.len() && (#[trigger] s[i]).0 == k;
        if i < idx {
            assert((#[trigger] t[i]).0 == k);
        } else {
            assert(i != idx);
            assert((#[trigger] t[i - 1]).0 == k);
        }
    }
    assert forall|k: u64| #[trigger] map_of(t).contains_key(k) implies map_of(t)[k] == map_of(
        s,
    ).remove(key)[k] by {
        let i = choose|i: int| 0 <= i < t.len() && (#[trigger] t[i]).0 == k;
        if i < idx {
            assert((#[trigger] s[i]).0 == k && s[i].1 == t[i].1);
        } else {
            assert((#[trigger] s[i + 1]).0 == k && s[i + 1].1 == t[i].1);
        }
    }
    assert(map_of(t) =~= map_of(s).remove(key));
}

/// Position of `key` in the sorted entry vector: the first index whose key is
/// not below `key`.
fn om_position<V: Copy>(v: &Vec<(u64, V)>, key: u64) -> (idx: usize)
    requires
        entries_sorted(v@),
    ensures
        idx <= v@.len(),
        forall|j: int| 0 <= j < idx ==> (#[trigger] v@[j]).0 < key,
        forall|j: int| idx <= j < v@.len() ==> (#[trigger] v@[j]).0 >= key,
{
    let mut idx: usize = 0;
    while idx < v.len()
        invariant
            entries_sorted(v@),
            idx <= v@.len(),
            forall|j: int| 0 <= j < idx ==> (#[trigger] v@[j]).0 < key,
        decreases v@.len() - idx,
    {
        if v[idx].0 >= key {
            return idx;
        }
        idx += 1;
    }
    idx
}

/// Look a key up in a sorted entry vector.
pub fn om_get<V: Copy>(v: &Vec<(u64, V)>, key: u64) -> (r: Option<V>)
    requires
        entries_sorted(v@),
    ensures
        r == map_get(map_of(v@), key),
{
    proof {
        lemma_map_of_props(v@);
    }
    let idx = om_position(v, key);
    if idx < v.len() && v[idx].0 == key {
        assert((#[trigger] v@[idx as int]).0 == key);
        Some(v[idx].1)
    } else {
        assert(!has_key(v@, key)) by {
            if has_key(v@, key) {
                let i = choose|i: int| 0 <= i < v@.len() && (#[trigger] v@[i]).0 == key;
                assert(idx <= i);
            }
        }
        None
    }
}

/// Insert or update a key in a sorted entry vector; the previous value, if
/// any, is handed back.
pub fn om_set<V: Copy>(v: &mut Vec<(u64, V)>, key: u64, value: V) -> (r: Option<V>)
    requires
        entries_sorted(old(v)@),
    ensures
        entries_sorted(final(v)@),
        map_of(final(v)@) == map_of(old(v)@).insert(key, value),
        r == map_get(map_of(old(v)@), key),
{
    proof {
        lemma_map_of_props(v@);
    }
    let idx = om_position(v, key);
    if idx < v.len() && v[idx].0 == key {
        assert((#[trigger] v@[idx as int]).0 == key);
        let prev = v[idx].1;
        proof {
            lemma_sorted_update(v@, idx as int, value);
        }
        let e = &mut v[idx];
        *e = (key, value);
        Some(prev)
    } else {
        assert(!has_key(v@, key)) by {
            if has_key(v@, key) {
                let i = choose|i: int| 0 <= i < v@.len() && (#[trigger] v@[i]).0 == key;
                assert(idx <= i);
            }
        }
        proof {
            lemma_sorted_insert(v@, idx as int, key, value);
        }
        v.insert(idx, (key, value));
        None
    }
}

/// Remove a key from a sorted entry vector; the removed value, if any, is
/// handed back.
pub fn om_remove<V: Copy>(v: &mut Vec<(u64, V)>, key: u64) -> (r: Option<V>)
    requires
        entries_sorted(old(v)@),
    ensures
        entries_sorted(final(v)@),
        map_of(final(v)@) == map_of(old(v)@).remove(key),
        r == map_get(map_of(old(v)@), key),
{
    proof {
        lemma_map_of_props(v@);
    }
    let idx = om_position(v, key);
    if idx < v.len() && v[idx].0 == key {
        assert((#[trigger] v@[idx as int]).0 == key);
        proof {
            lemma_sorted_remove(v@, idx as int);
        }
        let (_, prev) = v.remove(idx);
        Some(prev)
    } else {
        assert(!has_key(v@, key)) by {
            if has_key(v@, key) {
                let i = choose|i: int| 0 <= i < v@.len() && (#[trigger] v@[i]).0 == key;
                assert(idx <= i);
            }
        }
        assert(map_of(v@).remove(key) =~= map_of(v@));
        None
    }
}

/// Mutable access to the value of a key the sorted entry vector holds.  The
/// key itself stays in place, so the vector stays sorted whatever the
/// caller writes.
pub fn om_value_mut<V: Copy>(v: &mut Vec<(u64, V)>, key: u64) -> (r: &mut V)
    requires
        entries_sorted(old(v)@),
        map_of(old(v)@).contains_key(key),
    ensures
        *r == map_of(old(v)@)[key],
        entries_sorted(final(v)@),
        map_of(final(v)@) == map_of(old(v)@).insert(key, *final(r)),
{
    proof {
        lemma_map_of_props(v@);
    }
    let idx = om_position(v, key);
    assert(idx < v@.len() && (#[trigger] v@[idx as int]).0 == key) by {
        assert(has_key(v@, key));
        let i = choose|i: int| 0 <= i < v@.len() && (#[trigger] v@[i]).0 == key;
        assert(idx <= i);
        if i > idx {
            assert(v@[idx as int].0 < v@[i].0);
        }
    }
    let ghost v0 = v@;
    let ghost at = idx as int;
    proof {
        assert forall|val: V|
            entries_sorted(#[trigger] v0.update(at, (key, val))) && map_of(
                v0.update(at, (key, val)),
            ) == map_of(v0).insert(key, val) by {
            lemma_sorted_update(v0, at, val);
        }
    }
    let e = &mut v[idx];
    &mut e.1
}

/// Record a first write: insert the entry only where its key is still absent.
pub fn om_record<V: Copy>(v: &mut Vec<(u64, V)>, key: u64, value: V)
    requires
        entries_sorted(old(v)@),
    ensures
        entries_sorted(final(v)@),
        map_of(final(v)@) == (if map_of(old(v)@).contains_key(key) {
            map_of(old(v)@)
        } else {
            map_of(old(v)@).insert(key, value)
        }),
{
    proof {
        lemma_map_of_props(v@);
    }
    let idx = om_position(v, key);
    if idx < v.len() && v[idx].0 == key {
        assert((#[trigger] v@[idx as int]).0 == key);
    } else {
        assert(!has_key(v@, key)) by {
            if has_key(v@, key) {
                let i = choose|i: int| 0 <= i < v@.len() && (#[trigger] v@[i]).0 == key;
                assert(idx <= i);
            }
        }
        proof {
            lemma_sorted_insert(v@, idx as int, key, value);
        }
        v.insert(idx, (key, value));
    }
}

/// Position of `key` in the sorted key vector: the first index whose key is
/// not below `key`.
fn ks_position(v: &Vec<u64>, key: u64) -> (idx: usize)
    requires
        keys_sorted(v@),
    ensures
        idx <= v@.len(),
        forall|j: int| 0 <= j < idx ==> #[trigger] v@[j] < key,
        forall|j: int| idx <= j < v@.len() ==> #[trigger] v@[j] >= key,
{
    let mut idx: usize = 0;
    while idx < v.len()
        invariant
            keys_sorted(v@),
            idx <= v@.len(),
            forall|j: int| 0 <= j < idx ==> #[trigger] v@[j] < key,
        decreases v@.len() - idx,
    {
        if v[idx] >= key {
            return idx;
        }
        idx += 1;
    }
    idx
}

/// Is a key in the sorted key vector?
pub fn ks_contains(v: &Vec<u64>, key: u64) -> (r: bool)
    requires
        keys_sorted(v@),
    ensures
        r == key_set(v@).contains(key),
{
    let idx = ks_position(v, key);
    if idx < v.len() && v[idx] == key {
        assert(v@.contains(key));
        true
    } else {
        assert(!v@.contains(key)) by {
            if v@.contains(key) {
                let i = choose|i: int| 0 <= i < v@.len() && v@[i] == key;
                assert(v@[i] == key);
            }
        }
        false
    }
}

/// Add a key to the sorted key vector, where it is not already held.
pub fn ks_insert(v: &mut Vec<u64>, key: u64)
    requires
        keys_sorted(old(v)@),
    ensures
        keys_sorted(final(v)@),
        key_set(final(v)@) == key_set(old(v)@).insert(key),
{
    let idx = ks_position(v, key);
    if idx < v.len() && v[idx] == key {
        assert(v@.contains(key));
        assert(key_set(v@) =~= key_set(v@).insert(key));
    } else {
        let ghost s = v@;
        v.insert(idx, key);
        assert(keys_sorted(v@));
        assert forall|k: u64| key_set(v@).contains(k) <==> key_set(s).insert(key).contains(
            k,
        ) by {
            if v@.contains(k) {
                let i = choose|i: int| 0 <= i < v@.len() && v@[i] == k;
                if i < idx {
                    assert(s[i] == k);
                } else if i > idx {
                    assert(s[i - 1] == k);
                }
            }
            if s.contains(k) {
                let i = choose|i: int| 0 <= i < s.len() && s[i] == k;
                if i < idx {
                    assert(v@[i] == k);
                } else {
                    assert(v@[i + 1] == k);
                }
            }
            assert(v@[idx as int] == key);
        }
        assert(key_set(v@) =~= key_set(s).insert(key));
    }
}

/// Take a key out of the sorted key vector, where it is held.
pub fn ks_remove(v: &mut Vec<u64>, key: u64)
    requires
        keys_sorted(old(v)@),
    ensures
        keys_sorted(final(v)@),
        key_set(final(v)@) == key_set(old(v)@).remove(key),
{
    let idx = ks_position(v, key);
    if idx < v.len() && v[idx] == key {
        let ghost s = v@;
        v.remove(idx);
        assert(keys_sorted(v@));
        assert forall|k: u64| key_set(v@).contains(k) <==> key_set(s).remove(key).contains(
            k,
        ) by {
            if v@.contains(k) {
                let i = choose|i: int| 0 <= i < v@.len() && v@[i] == k;
                if i < idx {
                    assert(s[i] == k);
                } else {
                    assert(s[i + 1] == k);
                }
            }
            if s.contains(k) && k != key {
                let i = choose|i: int| 0 <= i < s.len() && s[i] == k;
                if i < idx {
                    assert(v@[i] == k);
                } else {
                    assert(i != idx);
                    assert(v@[i - 1] == k);
                }
            }
        }
        assert(key_set(v@) =~= key_set(s).remove(key));
    } else {
        assert(!v@.contains(key)) by {
            if v@.contains(key) {
                let i = choose|i: int| 0 <= i < v@.len() && v@[i] == key;
                assert(v@[i] == key);
            }
        }
        assert(key_set(v@) =~= key_set(v@).remove(key));
    }
}

/// The map a staging buffer presents over a base: an override wins for its
/// key, a tombstone hides the base entry of its key, and every other base
/// entry shows through.
pub open spec fn merged(base: Map<u64, u64>, ov: Map<u64, u64>, ts: Set<u64>) -> Map<u64, u64> {
    Map::new(
        |k: u64| ov.contains_key(k) || (base.contains_key(k) && !ts.contains(k)),
        |k: u64|
            if ov.contains_key(k) {
                ov[k]
            } else {
                base[k]
            },
    )
}

/// Single-pass ordered merge of the overrides `ov` and the base entries,
/// with tombstoned base keys skipped and overrides winning ties.
pub fn merge_entries(base: &Vec<(u64, u64)>, ov: &Vec<(u64, u64)>, ts: &Vec<u64>) -> (r: Vec<
    (u64, u64),
>)
    requires
        entries_sorted(base@),
        entries_sorted(ov@),
        keys_sorted(ts@),
    ensures
        entries_sorted(r@),
        map_of(r@) == merged(map_of(base@), map_of(ov@), key_set(ts@)),
{
    broadcast use vstd::seq_lib::lemma_seq_contains_after_push;

    let mut r: Vec<(u64, u64)> = Vec::new();
    let mut i: usize = 0;
    let mut j: usize = 0;
    let mut t: usize = 0;
    while i < ov.len() || j < base.len()
        invariant
            entries_sorted(base@),
            entries_sorted(ov@),
            keys_sorted(ts@),
            i <= ov@.len(),
            j <= base@.len(),
            t <= ts@.len(),
            entries_sorted(r@),
            forall|a: int, b: int|
                0 <= a < r@.len() && i <= b < ov@.len() ==> (#[trigger] r@[a]).0 < (
                #[trigger] ov@[b]).0,
            forall|a: int, b: int|
                0 <= a < r@.len() && j <= b < base@.len() ==> (#[trigger] r@[a]).0 < (
                #[trigger] base@[b]).0,
            forall|a: int|
                0 <= a < t && j < base@.len() ==> #[trigger] ts@[a] < base@[j as int].0,
            forall|p: (u64, u64)|
                #[trigger] r@.contains(p) <==> (ov@.take(i as int).contains(p) || (base@.take(
                    j as int,
                ).contains(p) && !has_key(ov@, p.0) && !ts@.contains(p.0))),
        decreases (ov@.len() - i) + (base@.len() - j),
    {
        let take_ov: bool = if i < ov.len() {
            if j < base.len() {
                ov[i].0 <= base[j].0
            } else {
                true
            }
        } else {
            false
        };
        if take_ov {
            let e = ov[i];
            let ghost r0 = r@;
            let ghost i0 = i as int;
            let ghost j0 = j as int;
            if j < base.len() && base[j].0 == e.0 {
                j += 1;
            }
            r.push(e);
            i += 1;
            proof {
                let j1 = j as int;
                assert(r@ =~= r0.push(e));
                assert(e == ov@[i0]);
                assert(ov@.take(i as int) =~= ov@.take(i0).push(ov@[i0]));
                assert forall|p: (u64, u64)| #[trigger] r@.contains(p) <==> (p == e
                    || r0.contains(p)) by {
                    vstd::seq_lib::lemma_seq_contains_after_push(r0, e, p);
                }
                assert forall|p: (u64, u64)| #[trigger] ov@.take(i as int).contains(p) <==> (p
                    == e || ov@.take(i0).contains(p)) by {
                    vstd::seq_lib::lemma_seq_contains_after_push(ov@.take(i0), ov@[i0], p);
                }
                if j1 != j0 {
                    assert(base@.take(j1) =~= base@.take(j0).push(base@[j0]));
                    assert forall|p: (u64, u64)| #[trigger] base@.take(j1).contains(p) <==> (p
                        == base@[j0] || base@.take(j0).contains(p)) by {
                        vstd::seq_lib::lemma_seq_contains_after_push(base@.take(j0), base@[j0], p);
                    }
                    assert(has_key(ov@, base@[j0].0)) by {
                        assert((#[trigger] ov@[i0]).0 == base@[j0].0);
                    }
                }
                assert forall|a: int| 0 <= a < t && j1 < base@.len() implies #[trigger] ts@[a]
                    < base@[j1].0 by {
                    assert(ts@[a] < base@[j0].0);
                    if j1 != j0 {
                        assert((#[trigger] base@[j0]).0 < (#[trigger] base@[j1]).0);
                    }
                }
                assert forall|p: (u64, u64)| #[trigger] r@.contains(p) implies (ov@.take(
                    i as int,
                ).contains(p) || (base@.take(j as int).contains(p) && !has_key(ov@, p.0)
                    && !ts@.contains(p.0))) by {
                    if p == e {
                        assert(ov@.take(i as int).contains(p));
                    } else {
                        assert(r0.contains(p));
                        if ov@.take(i0).contains(p) {
                            assert(ov@.take(i as int).contains(p));
                        } else {
                            assert(base@.take(j0).contains(p));
                            assert(base@.take(j as int).contains(p));
                        }
                    }
                }
                assert forall|p: (u64, u64)| (ov@.take(i as int).contains(p) || (base@.take(
                    j as int,
                ).contains(p) && !has_key(ov@, p.0) && !ts@.contains(p.0))) implies
                    #[trigger] r@.contains(p) by {
                    if ov@.take(i as int).contains(p) {
                        if p == ov@[i0] {
                            assert(r@.contains(p));
                        } else {
                            assert(ov@.take(i0).contains(p));
                            assert(r0.contains(p));
                        }
                    } else {
                        if j1 != j0 && p == base@[j0] {
                            assert(has_key(ov@, p.0));
                        } else {
                            assert(base@.take(j0).contains(p));
                            assert(r0.contains(p));
                        }
                    }
                }
            }
        } else {
            let c = base[j];
            while t < ts.len() && ts[t] < c.0
                invariant
                    keys_sorted(ts@),
                    t <= ts@.len(),
                    j < base@.len(),
                    c == base@[j as int],
                    forall|a: int| 0 <= a < t ==> #[trigger] ts@[a] < c.0,
                decreases ts@.len() - t,
            {
                t += 1;
            }
            let ghost jj = j as int;
            if t < ts.len() && ts[t] == c.0 {
                proof {
                    assert(ts@.contains(c.0)) by {
                        assert(ts@[t as int] == c.0);
                    }
                }
                t += 1;
                j += 1;
                proof {
                    assert(base@.take(j as int) =~= base@.take(jj).push(base@[jj]));
                    assert forall|p: (u64, u64)| #[trigger] base@.take(j as int).contains(p)
                        <==> (p == base@[jj] || base@.take(jj).contains(p)) by {
                        vstd::seq_lib::lemma_seq_contains_after_push(base@.take(jj), base@[jj], p);
                    }
                    assert forall|a: int| 0 <= a < t && (j as int) < base@.len() implies
                        #[trigger] ts@[a] < base@[j as int].0 by {
                        assert((#[trigger] base@[jj]).0 < (#[trigger] base@[j as int]).0);
                        if a < t - 1 {
                            assert(ts@[a] < c.0);
                        }
                    }
                    assert forall|p: (u64, u64)| (ov@.take(i as int).contains(p) || (base@.take(
                        j as int,
                    ).contains(p) && !has_key(ov@, p.0) && !ts@.contains(p.0))) implies
                        #[trigger] r@.contains(p) by {
                        if !ov@.take(i as int).contains(p) {
                            if p == base@[jj] {
                                assert(ts@.contains(p.0));
                            } else {
                                assert(base@.take(jj).contains(p));
                            }
                        }
                    }
                    assert forall|p: (u64, u64)| #[trigger] r@.contains(p) implies (ov@.take(
                        i as int,
                    ).contains(p) || (base@.take(j as int).contains(p) && !has_key(ov@, p.0)
                        && !ts@.contains(p.0))) by {
                        if !ov@.take(i as int).contains(p) {
                            assert(base@.take(jj).contains(p));
                            assert(base@.take(j as int).contains(p));
                        }
                    }
                }
            } else {
                proof {
                    assert(!ts@.contains(c.0)) by {
                        if ts@.contains(c.0) {
                            let a = choose|a: int| 0 <= a < ts@.len() && ts@[a] == c.0;
                            assert(a >= t);
                            if a > t {
                                assert(ts@[t as int] < ts@[a]);
                            }
                        }
                    }
                    assert(!has_key(ov@, c.0)) by {
                        if has_key(ov@, c.0) {
                            let b = choose|b: int| 0 <= b < ov@.len() && (#[trigger] ov@[b]).0
                                == c.0;
                            if b >= i {
                                assert(i < ov@.len());
                                assert(ov@[i as int].0 > base@[j as int].0);
                                if b > i {
                                    assert((#[trigger] ov@[i as int]).0 < (
                                    #[trigger] ov@[b]).0);
                                }
                            } else {
                                assert(ov@.take(i as int).contains(ov@[b])) by {
                                    assert(ov@.take(i as int)[b] == ov@[b]);
                                }
                                assert(r@.contains(ov@[b]));
                                let a = choose|a: int| 0 <= a < r@.len() && r@[a] == ov@[b];
                                assert((#[trigger] r@[a]).0 < (#[trigger] base@[j as int]).0);
                            }
                        }
                    }
                }
                let ghost r0 = r@;
                r.push(c);
                j += 1;
                proof {
                    assert(r@ =~= r0.push(c));
                    assert(base@.take(j as int) =~= base@.take(jj).push(base@[jj]));
                    assert(c == base@[jj]);
                    assert forall|p: (u64, u64)| #[trigger] r@.contains(p) <==> (p == c
                        || r0.contains(p)) by {
                        vstd::seq_lib::lemma_seq_contains_after_push(r0, c, p);
                    }
                    assert forall|p: (u64, u64)| #[trigger] base@.take(j as int).contains(p)
                        <==> (p == c || base@.take(jj).contains(p)) by {
                        vstd::seq_lib::lemma_seq_contains_after_push(base@.take(jj), base@[jj], p);
                    }
                    assert forall|a: int| 0 <= a < t && (j as int) < base@.len() implies
                        #[trigger] ts@[a] < base@[j as int].0 by {
                        assert((#[trigger] base@[jj]).0 < (#[trigger] base@[j as int]).0);
                        assert(ts@[a] < c.0);
                    }
                    assert forall|p: (u64, u64)| #[trigger] r@.contains(p) implies (ov@.take(
                        i as int,
                    ).contains(p) || (base@.take(j as int).contains(p) && !has_key(ov@, p.0)
                        && !ts@.contains(p.0))) by {
                        if p == c {
                            assert(base@.take(j as int).contains(p));
                        } else {
                            assert(r0.contains(p));
                            if base@.take(jj).contains(p) && !has_key(ov@, p.0) && !ts@.contains(
                                p.0,
                            ) {
                                assert(base@.take(j as int).contains(p));
                            }
                        }
                    }
                    assert forall|p: (u64, u64)| (ov@.take(i as int).contains(p) || (base@.take(
                        j as int,
                    ).contains(p) && !has_key(ov@, p.0) && !ts@.contains(p.0))) implies
                        #[trigger] r@.contains(p) by {
                        if ov@.take(i as int).contains(p) {
                            assert(r0.contains(p));
                        } else {
                            if p == base@[jj] {
                                assert(r@.contains(p));
                            } else {
                                assert(base@.take(jj).contains(p));
                                assert(r0.contains(p));
                            }
                        }
                    }
                }
            }
        }
    }
    proof {
        assert(ov@.take(i as int) =~= ov@);
        assert(base@.take(j as int) =~= base@);
        lemma_map_of_props(r@);
        lemma_map_of_props(ov@);
        lemma_map_of_props(base@);
        let m = merged(map_of(base@), map_of(ov@), key_set(ts@));
        assert forall|k: u64| #[trigger] map_of(r@).contains_key(k) implies m.contains_key(k)
            && map_of(r@)[k] == m[k] by {
            let a = choose|a: int| 0 <= a < r@.len() && (#[trigger] r@[a]).0 == k;
            let p = r@[a];
            assert(r@.contains(p));
            assert(map_of(r@)[k] == p.1);
            if ov@.contains(p) {
                assert(has_key(ov@, k)) by {
                    let b = choose|b: int| 0 <= b < ov@.len() && ov@[b] == p;
                    assert((#[trigger] ov@[b]).0 == k);
                }
                assert(map_of(ov@)[k] == p.1) by {
                    let b = choose|b: int| 0 <= b < ov@.len() && ov@[b] == p;
                    assert((#[trigger] ov@[b]).0 == k && ov@[b].1 == p.1);
                }
            } else {
                assert(base@.contains(p) && !has_key(ov@, k) && !ts@.contains(k));
                assert(has_key(base@, k)) by {
                    let b = choose|b: int| 0 <= b < base@.len() && base@[b] == p;
                    assert((#[trigger] base@[b]).0 == k);
                }
                assert(map_of(base@)[k] == p.1) by {
                    let b = choose|b: int| 0 <= b < base@.len() && base@[b] == p;
                    assert((#[trigger] base@[b]).0 == k && base@[b].1 == p.1);
                }
            }
        }
        assert forall|k: u64| m.contains_key(k) implies #[trigger] map_of(r@).contains_key(k) by {
            if map_of(ov@).contains_key(k) {
                let b = choose|b: int| 0 <= b < ov@.len() && (#[trigger] ov@[b]).0 == k;
                assert(ov@.contains(ov@[b]));
                assert(r@.contains(ov@[b]));
                assert(has_key(r@, k)) by {
                    let a = choose|a: int| 0 <= a < r@.len() && r@[a] == ov@[b];
                    assert((#[trigger] r@[a]).0 == k);
                }
            } else {
                let b = choose|b: int| 0 <= b < base@.len() && (#[trigger] base@[b]).0 == k;
                assert(base@.contains(base@[b]));
                assert(!has_key(ov@, k));
                assert(r@.contains(base@[b]));
                assert(has_key(r@, k)) by {
                    let a = choose|a: int| 0 <= a < r@.len() && r@[a] == base@[b];
                    assert((#[trigger] r@[a]).0 == k);
                }
            }
        }
        assert(map_of(r@) =~= m);
    }
    r
}

/// One end of a key range.
#[derive(Clone, Copy)]
pub enum Bound {
    /// The range includes this key.
    Included(u64),
    /// The range excludes this key but takes everything beyond it.
    Excluded(u64),
    /// The range is open at this end.
    Unbounded,
}

/// Is `k` at or beyond the lower end?
pub open spec fn lower_ok(lo: Bound, k: u64) -> bool {
    match lo {
        Bound::Included(b) => b <= k,
        Bound::Excluded(b) => b < k,
        Bound::Unbounded => true,
    }
}

/// Is `k` at or before the upper end?
pub open spec fn upper_ok(hi: Bound, k: u64) -> bool {
    match hi {
        Bound::Included(b) => k <= b,
        Bound::Excluded(b) => k < b,
        Bound::Unbounded => true,
    }
}

/// Does `k` lie inside the range?
pub open spec fn in_bounds(lo: Bound, hi: Bound, k: u64) -> bool {
    lower_ok(lo, k) && upper_ok(hi, k)
}

/// The subsequence of entries whose keys lie inside the range.
pub open spec fn range_filter(s: Seq<(u64, u64)>, lo: Bound, hi: Bound) -> Seq<(u64, u64)>
    decreases s.len(),
{
    if s.len() == 0 {
        Seq::empty()
    } else {
        let d = range_filter(s.drop_last(), lo, hi);
        if in_bounds(lo, hi, s.last().0) {
            d.push(s.last())
        } else {
            d
        }
    }
}

/// The restriction of a map to the keys inside the range.
pub open spec fn map_in_bounds(m: Map<u64, u64>, lo: Bound, hi: Bound) -> Map<u64, u64> {
    Map::new(|k: u64| m.contains_key(k) && in_bounds(lo, hi, k), |k: u64| m[k])
}

/// Does `k` lie inside the range?
pub fn key_in_bounds(lo: Bound, hi: Bound, k: u64) -> (r: bool)
    ensures
        r == in_bounds(lo, hi, k),
{
    let low_ok: bool = match lo {
        Bound::Included(b) => b <= k,
        Bound::Excluded(b) => b < k,
        Bound::Unbounded => true,
    };
    let high_ok: bool = match hi {
        Bound::Included(b) => k <= b,
        Bound::Excluded(b) => k < b,
        Bound::Unbounded => true,
    };
    low_ok && high_ok
}

/// Keep exactly the entries whose keys lie inside the range.
pub fn filter_bounds(v: &Vec<(u64, u64)>, lo: Bound, hi: Bound) -> (r: Vec<(u64, u64)>)
    ensures
        r@ == range_filter(v@, lo, hi),
{
    let mut r: Vec<(u64, u64)> = Vec::new();
    let mut i: usize = 0;
    proof {
        assert(v@.take(0) =~= Seq::<(u64, u64)>::empty());
    }
    while i < v.len()
        invariant
            i <= v@.len(),
            r@ == range_filter(v@.take(i as int), lo, hi),
        decreases v@.len() - i,
    {
        let e = v[i];
        let keep = key_in_bounds(lo, hi, e.0);
        proof {
            let s1 = v@.take(i as int + 1);
            assert(s1.drop_last() =~= v@.take(i as int));
            assert(s1.last() == e);
        }
        if keep {
            r.push(e);
        }
        i += 1;
    }
    proof {
        assert(v@.take(v@.len() as int) =~= v@);
    }
    r
}

/// A range-filtered sorted sequence is sorted, and its map is the
/// restriction of the original map to the keys inside the range.
pub proof fn lemma_range_filter_props(s: Seq<(u64, u64)>, lo: Bound, hi: Bound)
    requires
        entries_sorted(s),
    ensures
        entries_sorted(range_filter(s, lo, hi)),
        map_of(range_filter(s, lo, hi)) == map_in_bounds(map_of(s), lo, hi),
    decreases s.len(),
{
    let f = range_filter(s, lo, hi);
    if s.len() == 0 {
        assert(map_of(f) =~= map_in_bounds(map_of(s), lo, hi));
    } else {
        let d = s.drop_last();
        let last = s.last();
        assert(entries_sorted(d));
        lemma_range_filter_props(d, lo, hi);
        let fd = range_filter(d, lo, hi);
        lemma_map_of_props(s);
        lemma_map_of_props(d);
        lemma_map_of_props(fd);
        assert forall|a: int| 0 <= a < fd.len() implies (#[trigger] fd[a]).0 < last.0 by {
            assert(map_of(fd).contains_key((#[trigger] fd[a]).0));
            assert(map_of(d).contains_key(fd[a].0));
            assert(has_key(d, fd[a].0));
            let idx = choose|idx: int| 0 <= idx < d.len() && (#[trigger] d[idx]).0 == fd[a].0;
            assert((#[trigger] s[idx]).0 < (#[trigger] s[s.len() - 1]).0);
        }
        if in_bounds(lo, hi, last.0) {
            assert(f == fd.push(last));
            assert(entries_sorted(f));
            assert(f.drop_last() =~= fd);
            assert(map_of(f) == map_of(fd).insert(last.0, last.1));
            assert(map_of(f) =~= map_in_bounds(map_of(s), lo, hi));
        } else {
            assert(f == fd);
            assert forall|k: u64| #[trigger] map_of(f).contains_key(k) implies map_in_bounds(
                map_of(s),
                lo,
                hi,
            ).contains_key(k) by {
                assert(map_of(d).contains_key(k));
            }
            assert forall|k: u64| map_in_bounds(map_of(s), lo, hi).contains_key(k) implies
                #[trigger] map_of(f).contains_key(k) && map_of(f)[k] == map_of(s)[k] by {
                assert(k != last.0);
                assert(map_of(d).contains_key(k));
            }
            assert(map_of(f) =~= map_in_bounds(map_of(s), lo, hi));
        }
    }
}

/// Two sorted entry sequences that stand for the same map are the same
/// sequence: the sorted presentation of a map is unique.
pub proof fn lemma_sorted_unique(s1: Seq<(u64, u64)>, s2: Seq<(u64, u64)>)
    requires
        entries_sorted(s1),
        entries_sorted(s2),
        map_of(s1) == map_of(s2),
    ensures
        s1 == s2,
    decreases s1.len(),
{
    lemma_map_of_len(s1);
    lemma_map_of_len(s2);
    lemma_map_of_props(s1);
    lemma_map_of_props(s2);
    if s1.len() == 0 {
        assert(s1 =~= s2);
    } else {
        let l1 = s1.last();
        let l2 = s2.last();
        assert(map_of(s2).contains_key(l1.0));
        assert(has_key(s2, l1.0));
        let b = choose|b: int| 0 <= b < s2.len() && (#[trigger] s2[b]).0 == l1.0;
        assert(map_of(s1).contains_key(l2.0));
        assert(has_key(s1, l2.0));
        let a = choose|a: int| 0 <= a < s1.len() && (#[trigger] s1[a]).0 == l2.0;
        assert(l1.0 == l2.0) by {
            if l1.0 < l2.0 {
                assert(s1[a].0 <= s1[s1.len() - 1].0);
            } else if l2.0 < l1.0 {
                assert(s2[b].0 <= s2[s2.len() - 1].0);
            }
        }
        assert(l1.1 == map_of(s1)[l1.0]);
        assert(l2.1 == map_of(s2)[l2.0]);
        assert(l1 == l2);
        let d1 = s1.drop_last();
        let d2 = s2.drop_last();
        assert(entries_sorted(d1));
        assert(entries_sorted(d2));
        lemma_map_of_props(d1);
        lemma_map_of_props(d2);
        assert(!map_of(d1).contains_key(l1.0)) by {
            if has_key(d1, l1.0) {
                let i = choose|i: int| 0 <= i < d1.len() && (#[trigger] d1[i]).0 == l1.0;
                assert(s1[i].0 < s1[s1.len() - 1].0);
            }
        }
        assert(!map_of(d2).contains_key(l2.0)) by {
            if has_key(d2, l2.0) {
                let i = choose|i: int| 0 <= i < d2.len() && (#[trigger] d2[i]).0 == l2.0;
                assert(s2[i].0 < s2[s2.len() - 1].0);
            }
        }
        assert(map_of(d1) =~= map_of(d2)) by {
            assert(map_of(d1) =~= map_of(s1).remove(l1.0));
            assert(map_of(d2) =~= map_of(s2).remove(l2.0));
        }
        lemma_sorted_unique(d1, d2);
        assert(s1 =~= s2);
    }
}

/// The entries a range presents are exactly the entries of the full
/// iteration whose keys respect the bounds, in the same order.
pub proof fn lemma_range_is_iter_filtered(
    full: Seq<(u64, u64)>,
    rng: Seq<(u64, u64)>,
    lo: Bound,
    hi: Bound,
)
    requires
        entries_sorted(full),
        entries_sorted(rng),
        map_of(rng) == map_in_bounds(map_of(full), lo, hi),
    ensures
        rng == range_filter(full, lo, hi),
{
    lemma_range_filter_props(full, lo, hi);
    lemma_sorted_unique(rng, range_filter(full, lo, hi));
}

} // verus!
