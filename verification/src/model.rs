use vstd::prelude::*;

verus! {

// The abstract state of an LRU cache is the sequence of its entries as key/value
// pairs, ordered from the most recently used (index 0) to the least recently used
// (the last index).

/// True when no key occurs twice among the entries.
pub open spec fn distinct_keys<K, V>(s: Seq<(K, V)>) -> bool {
    forall|i: int, j: int| 0 <= i < s.len() && 0 <= j < s.len() && i != j ==> s[i].0 != s[j].0
}

/// True when some entry has key `k`.
pub open spec fn has_key<K, V>(s: Seq<(K, V)>, k: K) -> bool {
    exists|i: int| 0 <= i < s.len() && s[i].0 == k
}

/// The position of the entry with key `k` (meaningful when `has_key(s, k)`).
pub open spec fn key_index<K, V>(s: Seq<(K, V)>, k: K) -> int {
    choose|i: int| 0 <= i < s.len() && s[i].0 == k
}

/// The value stored under `k`, if any.
pub open spec fn lookup<K, V>(s: Seq<(K, V)>, k: K) -> Option<V> {
    if has_key(s, k) {
        Some(s[key_index(s, k)].1)
    } else {
        None
    }
}

/// The entries after the entry at position `i` has become the most recently used.
pub open spec fn promote<K, V>(s: Seq<(K, V)>, i: int) -> Seq<(K, V)> {
    seq![s[i]].add(s.remove(i))
}

/// The entries after an access of `k`: its entry moves to the front; without
/// such an entry nothing changes.
pub open spec fn touched<K, V>(s: Seq<(K, V)>, k: K) -> Seq<(K, V)> {
    if has_key(s, k) {
        promote(s, key_index(s, k))
    } else {
        s
    }
}

/// The entries after `k` has been removed.
pub open spec fn removed<K, V>(s: Seq<(K, V)>, k: K) -> Seq<(K, V)> {
    if has_key(s, k) {
        s.remove(key_index(s, k))
    } else {
        s
    }
}

/// The entries after inserting `v` under `k` into a cache that holds at most
/// `capacity` entries: an existing entry for `k` is replaced and moved to the
/// front; otherwise, when the cache is full, the least recently used entry is
/// evicted, and the new entry goes to the front.
pub open spec fn inserted<K, V>(s: Seq<(K, V)>, capacity: nat, k: K, v: V) -> Seq<(K, V)> {
    if has_key(s, k) {
        seq![(k, v)].add(s.remove(key_index(s, k)))
    } else if s.len() >= capacity {
        seq![(k, v)].add(s.drop_last())
    } else {
        seq![(k, v)].add(s)
    }
}

} // verus!

verus! {

/// With distinct keys, the entry holding `k` is found at its unique position.
pub proof fn lemma_key_at<K, V>(s: Seq<(K, V)>, k: K, i: int)
    requires
        distinct_keys(s),
        0 <= i < s.len(),
        s[i].0 == k,
    ensures
        has_key(s, k),
        key_index(s, k) == i,
        lookup(s, k) == Some(s[i].1),
{
    assert(has_key(s, k));
    let j = key_index(s, k);
    assert(s[j].0 == k);
}

/// Removing the entry at position `i` keeps the keys distinct, and the keys that remain
/// are exactly the others.
pub proof fn lemma_remove_at<K, V>(s: Seq<(K, V)>, i: int)
    requires
        distinct_keys(s),
        0 <= i < s.len(),
    ensures
        distinct_keys(s.remove(i)),
        s.remove(i).len() == s.len() - 1,
        !has_key(s.remove(i), s[i].0),
        forall|k: K| k != s[i].0 ==> #[trigger] lookup(s.remove(i), k) == lookup(s, k),
{
    let r = s.remove(i);
    assert forall|a: int, b: int| 0 <= a < r.len() && 0 <= b < r.len() && a != b implies r[a].0 != r[b].0 by {
        let a2 = if a < i { a } else { a + 1 };
        let b2 = if b < i { b } else { b + 1 };
        assert(r[a] == s[a2]);
        assert(r[b] == s[b2]);
    }
    assert(!has_key(r, s[i].0)) by {
        if has_key(r, s[i].0) {
            let a = choose|a: int| 0 <= a < r.len() && r[a].0 == s[i].0;
            let a2 = if a < i { a } else { a + 1 };
            assert(r[a] == s[a2]);
        }
    }
    assert forall|k: K| k != s[i].0 implies #[trigger] lookup(r, k) == lookup(s, k) by {
        if has_key(s, k) {
            let j = key_index(s, k);
            assert(j != i);
            let j2 = if j < i { j } else { j - 1 };
            assert(r[j2] == s[j]);
            lemma_key_at(r, k, j2);
        } else if has_key(r, k) {
            let a = choose|a: int| 0 <= a < r.len() && r[a].0 == k;
            let a2 = if a < i { a } else { a + 1 };
            assert(r[a] == s[a2]);
        }
    }
}

/// Putting a new entry for a key that is absent in front keeps the keys distinct.
pub proof fn lemma_push_front<K, V>(s: Seq<(K, V)>, k: K, v: V)
    requires
        distinct_keys(s),
        !has_key(s, k),
    ensures
        distinct_keys(seq![(k, v)].add(s)),
        lookup(seq![(k, v)].add(s), k) == Some(v),
        forall|k2: K| k2 != k ==> #[trigger] lookup(seq![(k, v)].add(s), k2) == lookup(s, k2),
{
    let r = seq![(k, v)].add(s);
    assert forall|a: int, b: int| 0 <= a < r.len() && 0 <= b < r.len() && a != b implies r[a].0 != r[b].0 by {
        if a == 0 {
            assert(r[b] == s[b - 1]);
        } else if b == 0 {
            assert(r[a] == s[a - 1]);
        } else {
            assert(r[a] == s[a - 1]);
            assert(r[b] == s[b - 1]);
        }
    }
    lemma_key_at(r, k, 0);
    assert forall|k2: K| k2 != k implies #[trigger] lookup(r, k2) == lookup(s, k2) by {
        if has_key(s, k2) {
            let j = key_index(s, k2);
            assert(r[j + 1] == s[j]);
            lemma_key_at(r, k2, j + 1);
        } else if has_key(r, k2) {
            let a = choose|a: int| 0 <= a < r.len() && r[a].0 == k2;
            assert(r[a] == s[a - 1]);
        }
    }
}

/// Reading a key right after writing it gives back the written value, and the write
/// touches no other key except, when the cache was full and the key new, the least
/// recently used one, which is evicted.
pub proof fn lemma_read_after_write<K, V>(s: Seq<(K, V)>, capacity: nat, k: K, v: V, other: K)
    requires
        distinct_keys(s),
        s.len() <= capacity,
        capacity > 0,
    ensures
        lookup(inserted(s, capacity, k, v), k) == Some(v),
        inserted(s, capacity, k, v)[0] == (k, v),
        distinct_keys(inserted(s, capacity, k, v)),
        inserted(s, capacity, k, v).len() <= capacity,
        other != k && (has_key(s, k) || s.len() < capacity || other != s.last().0) ==>
            lookup(inserted(s, capacity, k, v), other) == lookup(s, other),
{
    if has_key(s, k) {
        let i = key_index(s, k);
        lemma_remove_at(s, i);
        lemma_push_front(s.remove(i), k, v);
    } else if s.len() >= capacity {
        let last = s.len() - 1;
        lemma_remove_at(s, last);
        assert(s.remove(last) =~= s.drop_last());
        assert(!has_key(s.drop_last(), k)) by {
            if has_key(s.drop_last(), k) {
                let a = choose|a: int| 0 <= a < s.drop_last().len() && s.drop_last()[a].0 == k;
                assert(s[a].0 == k);
            }
        }
        lemma_push_front(s.drop_last(), k, v);
    } else {
        lemma_push_front(s, k, v);
    }
}

/// Inserting a new key into a full cache evicts exactly the least recently used entry.
pub proof fn lemma_insert_evicts_lru<K, V>(s: Seq<(K, V)>, capacity: nat, k: K, v: V)
    requires
        distinct_keys(s),
        s.len() == capacity,
        capacity > 0,
        !has_key(s, k),
    ensures
        !has_key(inserted(s, capacity, k, v), s.last().0),
        inserted(s, capacity, k, v).len() == capacity,
        forall|k2: K| k2 != k && k2 != s.last().0 ==> #[trigger] lookup(inserted(s, capacity, k, v), k2) == lookup(s, k2),
{
    let last = s.len() - 1;
    lemma_remove_at(s, last);
    assert(s.remove(last) =~= s.drop_last());
    assert(s.last().0 != k);
    assert(!has_key(s.drop_last(), k)) by {
        if has_key(s.drop_last(), k) {
            let a = choose|a: int| 0 <= a < s.drop_last().len() && s.drop_last()[a].0 == k;
            assert(s[a].0 == k);
        }
    }
    lemma_push_front(s.drop_last(), k, v);
    let r = inserted(s, capacity, k, v);
    assert(!has_key(r, s.last().0)) by {
        if has_key(r, s.last().0) {
            let a = choose|a: int| 0 <= a < r.len() && r[a].0 == s.last().0;
            if a > 0 {
                assert(r[a] == s.drop_last()[a - 1]);
            }
        }
    }
}

/// Accessing a key keeps every entry (no key gains, loses or changes its value) and makes
/// the accessed entry the most recently used.
pub proof fn lemma_touch_keeps_entries<K, V>(s: Seq<(K, V)>, k: K, other: K)
    requires
        distinct_keys(s),
    ensures
        distinct_keys(touched(s, k)),
        touched(s, k).len() == s.len(),
        lookup(touched(s, k), other) == lookup(s, other),
        has_key(s, k) ==> touched(s, k)[0].0 == k,
{
    if has_key(s, k) {
        let i = key_index(s, k);
        lemma_remove_at(s, i);
        lemma_push_front(s.remove(i), k, s[i].1);
        assert(promote(s, i) =~= seq![(k, s[i].1)].add(s.remove(i)));
        if other == k {
            lemma_key_at(s, k, i);
        }
    }
}

/// After removing a key it is gone, and every other key keeps its value.
pub proof fn lemma_remove_keeps_others<K, V>(s: Seq<(K, V)>, k: K, other: K)
    requires
        distinct_keys(s),
    ensures
        distinct_keys(removed(s, k)),
        !has_key(removed(s, k), k),
        other != k ==> lookup(removed(s, k), other) == lookup(s, other),
        removed(s, k).len() == (if has_key(s, k) { s.len() - 1 } else { s.len() as int }),
{
    if has_key(s, k) {
        let i = key_index(s, k);
        lemma_remove_at(s, i);
    }
}

/// Removing a key right after writing it gives back the written value and leaves the
/// key absent.
pub proof fn lemma_remove_after_insert<K, V>(s: Seq<(K, V)>, capacity: nat, k: K, v: V)
    requires
        distinct_keys(s),
        s.len() <= capacity,
        capacity > 0,
    ensures
        lookup(inserted(s, capacity, k, v), k) == Some(v),
        !has_key(removed(inserted(s, capacity, k, v), k), k),
{
    lemma_read_after_write(s, capacity, k, v, k);
    lemma_remove_keeps_others(inserted(s, capacity, k, v), k, k);
}

/// Inserting a new key into a cache with room and removing it again restores the cache
/// exactly, recency order included.
pub proof fn lemma_insert_then_remove_restores<K, V>(s: Seq<(K, V)>, capacity: nat, k: K, v: V)
    requires
        distinct_keys(s),
        !has_key(s, k),
        s.len() < capacity,
    ensures
        removed(inserted(s, capacity, k, v), k) == s,
{
    lemma_push_front(s, k, v);
    lemma_key_at(inserted(s, capacity, k, v), k, 0);
    assert(inserted(s, capacity, k, v).remove(0) =~= s);
}

/// Accessing the same key twice in a row leaves the cache as the first access did.
pub proof fn lemma_touch_idempotent<K, V>(s: Seq<(K, V)>, k: K)
    requires
        distinct_keys(s),
    ensures
        touched(touched(s, k), k) == touched(s, k),
{
    lemma_touch_keeps_entries(s, k, k);
    let t = touched(s, k);
    if has_key(s, k) {
        lemma_key_at(t, k, 0);
        assert(promote(t, 0) =~= t);
    }
}

/// An access of `k`, found at position `i`, puts that entry first and leaves every other
/// entry in its relative order: the result is the entry, then the entries before `i`, then
/// those after `i`. An access of an absent key changes nothing.
pub proof fn lemma_access_moves_only_that_entry<K, V>(s: Seq<(K, V)>, k: K, i: int)
    requires
        distinct_keys(s),
        0 <= i < s.len(),
        s[i].0 == k,
    ensures
        touched(s, k) == seq![s[i]] + s.subrange(0, i) + s.subrange(i + 1, s.len() as int),
{
    lemma_key_at(s, k, i);
    assert(touched(s, k) =~= seq![s[i]] + s.subrange(0, i) + s.subrange(i + 1, s.len() as int));
}

/// An access of an absent key leaves the entries and their order as they were.
pub proof fn lemma_access_of_absent_key<K, V>(s: Seq<(K, V)>, k: K)
    requires
        !has_key(s, k),
    ensures
        touched(s, k) == s,
{
}

/// Updating a key that is present, at position `i`, puts the new pair first and leaves
/// every other entry in its relative order; nothing is evicted.
pub proof fn lemma_update_keeps_others_in_order<K, V>(s: Seq<(K, V)>, capacity: nat, k: K, v: V, i: int)
    requires
        distinct_keys(s),
        0 <= i < s.len(),
        s[i].0 == k,
    ensures
        inserted(s, capacity, k, v) == seq![(k, v)] + s.subrange(0, i) + s.subrange(i + 1, s.len() as int),
        inserted(s, capacity, k, v).len() == s.len(),
{
    lemma_key_at(s, k, i);
    assert(inserted(s, capacity, k, v) =~= seq![(k, v)] + s.subrange(0, i) + s.subrange(i + 1, s.len() as int));
}

/// Inserting a new key puts the new pair first, followed by the old entries in their order;
/// when the cache is full, only the last (least recently used) one is dropped.
pub proof fn lemma_new_key_goes_first<K, V>(s: Seq<(K, V)>, capacity: nat, k: K, v: V)
    requires
        !has_key(s, k),
        s.len() <= capacity,
        capacity > 0,
    ensures
        s.len() == capacity ==> inserted(s, capacity, k, v) == seq![(k, v)] + s.subrange(0, s.len() - 1),
        s.len() < capacity ==> inserted(s, capacity, k, v) == seq![(k, v)] + s,
{
    if s.len() == capacity {
        assert(inserted(s, capacity, k, v) =~= seq![(k, v)] + s.subrange(0, s.len() - 1));
    }
}

} // verus!
