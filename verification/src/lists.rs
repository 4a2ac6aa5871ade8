//! Lists of keyed entries that keep the order in which the keys arrived.
use vstd::prelude::*;

verus! {

/// Some entry of the list has the key.
pub open spec fn has_slot<K, V>(entries: Seq<(K, V)>, key: K) -> bool {
    exists|i: int| 0 <= i < entries.len() && (#[trigger] entries[i]).0 == key
}

/// The position of the entry with the key. Meaningful where `has_slot`
/// holds.
pub open spec fn slot_of<K, V>(entries: Seq<(K, V)>, key: K) -> int {
    choose|i: int| 0 <= i < entries.len() && (#[trigger] entries[i]).0 == key
}

/// The value listed under the key, if any.
pub open spec fn lookup<K, V>(entries: Seq<(K, V)>, key: K) -> Option<V> {
    if has_slot(entries, key) {
        Some(entries[slot_of(entries, key)].1)
    } else {
        None
    }
}

/// No two entries of the list have the same key.
pub open spec fn slots_distinct<K, V>(entries: Seq<(K, V)>) -> bool {
    forall|i: int, j: int|
        0 <= i < entries.len() && 0 <= j < entries.len() && i != j ==> (#[trigger] entries[i]).0
            != (#[trigger] entries[j]).0
}

/// In a list without repeated keys, an entry found under a key is the key's
/// slot.
pub proof fn lemma_slot_unique<K, V>(entries: Seq<(K, V)>, key: K, i: int)
    requires
        slots_distinct(entries),
        0 <= i < entries.len(),
        entries[i].0 == key,
    ensures
        has_slot(entries, key),
        slot_of(entries, key) == i,
        lookup(entries, key) == Some(entries[i].1),
{
    let j = slot_of(entries, key);
    assert(entries[j].0 == key);
}

/// Adding an entry under a new key keeps the keys distinct and changes the
/// lookup of that key alone.
pub proof fn lemma_push_slot<K, V>(entries: Seq<(K, V)>, key: K, value: V)
    requires
        slots_distinct(entries),
        !has_slot(entries, key),
    ensures
        slots_distinct(entries.push((key, value))),
        slot_of(entries.push((key, value)), key) == entries.len(),
        lookup(entries.push((key, value)), key) == Some(value),
        forall|other: K| other != key ==>
            lookup(entries.push((key, value)), other) == lookup(entries, other),
{
    let after = entries.push((key, value));
    assert(after[entries.len() as int].0 == key);
    assert(slots_distinct(after)) by {
        assert forall|i: int, j: int|
            0 <= i < after.len() && 0 <= j < after.len() && i != j implies (#[trigger] after[i]).0
            != (#[trigger] after[j]).0 by {
            if i < entries.len() {
                assert(after[i] == entries[i]);
            }
            if j < entries.len() {
                assert(after[j] == entries[j]);
            }
        }
    }
    lemma_slot_unique(after, key, entries.len() as int);
    assert forall|other: K| other != key implies lookup(after, other) == lookup(entries, other) by {
        if has_slot(entries, other) {
            let i = slot_of(entries, other);
            assert(after[i] == entries[i]);
            lemma_slot_unique(after, other, i);
        } else if has_slot(after, other) {
            let j = slot_of(after, other);
            assert(after[j] == entries[j]);
        }
    }
}

/// Replacing the value of an entry keeps the keys distinct and changes the
/// lookup of that key alone.
pub proof fn lemma_update_slot<K, V>(entries: Seq<(K, V)>, i: int, value: V)
    requires
        slots_distinct(entries),
        0 <= i < entries.len(),
    ensures
        slots_distinct(entries.update(i, (entries[i].0, value))),
        slot_of(entries.update(i, (entries[i].0, value)), entries[i].0) == i,
        lookup(entries.update(i, (entries[i].0, value)), entries[i].0) == Some(value),
        forall|other: K|
            other != entries[i].0 ==> lookup(entries.update(i, (entries[i].0, value)), other)
                == lookup(entries, other),
{
    let key = entries[i].0;
    let after = entries.update(i, (key, value));
    assert(forall|j: int| 0 <= j < after.len() ==> (#[trigger] after[j]).0 == entries[j].0);
    lemma_slot_unique(after, key, i);
    assert forall|other: K| other != key implies lookup(after, other) == lookup(entries, other) by {
        if has_slot(entries, other) {
            let j = slot_of(entries, other);
            assert(after[j] == entries[j]);
            lemma_slot_unique(after, other, j);
        } else if has_slot(after, other) {
            let j = slot_of(after, other);
            assert(entries[j].0 == other);
        }
    }
}

/// Removing an entry keeps the keys distinct and forgets that key alone.
pub proof fn lemma_remove_slot<K, V>(entries: Seq<(K, V)>, i: int)
    requires
        slots_distinct(entries),
        0 <= i < entries.len(),
    ensures
        slots_distinct(entries.remove(i)),
        lookup(entries.remove(i), entries[i].0) is None,
        forall|other: K| other != entries[i].0 ==>
            lookup(entries.remove(i), other) == lookup(entries, other),
{
    let key = entries[i].0;
    let after = entries.remove(i);
    assert(forall|j: int| 0 <= j < i ==> (#[trigger] after[j]) == entries[j]);
    assert(forall|j: int| i <= j < after.len() ==> (#[trigger] after[j]) == entries[j + 1]);
    if has_slot(after, key) {
        let j = slot_of(after, key);
        if j < i {
            assert(after[j] == entries[j]);
        } else {
            assert(after[j] == entries[j + 1]);
        }
    }
    assert forall|other: K| other != key implies lookup(after, other) == lookup(entries, other) by {
        if has_slot(entries, other) {
            let j = slot_of(entries, other);
            if j < i {
                assert(after[j] == entries[j]);
                lemma_slot_unique(after, other, j);
            } else {
                assert(after[j - 1] == entries[j]);
                lemma_slot_unique(after, other, j - 1);
            }
        } else if has_slot(after, other) {
            let j = slot_of(after, other);
            if j < i {
                assert(after[j] == entries[j]);
            } else {
                assert(after[j] == entries[j + 1]);
            }
        }
    }
}

/// The list, with `value` under `key` added at the end if the key has no
/// entry.
pub open spec fn with_slot<K, V>(entries: Seq<(K, V)>, key: K, value: V) -> Seq<(K, V)> {
    if has_slot(entries, key) {
        entries
    } else {
        entries.push((key, value))
    }
}

/// The list after `value` was stored under `key`: a known key keeps its
/// place and gets the new value, a new key goes to the end.
pub open spec fn put<K, V>(entries: Seq<(K, V)>, key: K, value: V) -> Seq<(K, V)> {
    if has_slot(entries, key) {
        entries.update(slot_of(entries, key), (key, value))
    } else {
        entries.push((key, value))
    }
}

/// Storing a value keeps the keys distinct and changes the lookup of that
/// key alone.
pub proof fn lemma_put<K, V>(entries: Seq<(K, V)>, key: K, value: V)
    requires
        slots_distinct(entries),
    ensures
        slots_distinct(put(entries, key, value)),
        lookup(put(entries, key, value), key) == Some(value),
        forall|other: K| other != key ==>
            lookup(put(entries, key, value), other) == lookup(entries, other),
{
    if has_slot(entries, key) {
        let i = slot_of(entries, key);
        assert(entries[i].0 == key);
        lemma_update_slot(entries, i, value);
    } else {
        lemma_push_slot(entries, key, value);
    }
}

} // verus!
