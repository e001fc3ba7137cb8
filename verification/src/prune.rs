use std::hash::Hash;
use vstd::prelude::*;
use crate::lru::LruCache;
use crate::model::{distinct_keys, has_key, key_index, lookup, removed, lemma_key_at};

verus! {

/// The entries whose keys are not among `keys`, in their recency order.
pub open spec fn without_keys<K, V>(s: Seq<(K, V)>, keys: Seq<K>) -> Seq<(K, V)> {
    s.filter(|e: (K, V)| !keys.contains(e.0))
}

/// Filtering keeps a sequence whole when every element passes.
proof fn lemma_filter_keeps_all<A>(s: Seq<A>, pred: spec_fn(A) -> bool)
    requires
        forall|i: int| 0 <= i < s.len() ==> pred(#[trigger] s[i]),
    ensures
        s.filter(pred) == s,
    decreases s.len(),
{
    reveal(Seq::filter);
    if s.len() > 0 {
        lemma_filter_keeps_all(s.drop_last(), pred);
        assert(s.drop_last().push(s.last()) =~= s);
    }
}

/// Filtering twice is filtering once by both predicates.
proof fn lemma_filter_twice<A>(s: Seq<A>, p: spec_fn(A) -> bool, q: spec_fn(A) -> bool)
    ensures
        s.filter(p).filter(q) == s.filter(|x: A| p(x) && q(x)),
    decreases s.len(),
{
    reveal(Seq::filter);
    if s.len() > 0 {
        lemma_filter_twice(s.drop_last(), p, q);
        let both = |x: A| p(x) && q(x);
        if p(s.last()) {
            assert(s.filter(p) == s.drop_last().filter(p).push(s.last()));
            assert(s.filter(p).drop_last() =~= s.drop_last().filter(p));
        } else {
            assert(s.filter(p) == s.drop_last().filter(p));
        }
    }
}

/// With distinct keys, removing `k` keeps exactly the entries whose key is not `k`.
proof fn lemma_removed_is_filter<K, V>(s: Seq<(K, V)>, k: K)
    requires
        distinct_keys(s),
    ensures
        removed(s, k) == s.filter(|e: (K, V)| e.0 != k),
{
    let pred = |e: (K, V)| e.0 != k;
    if has_key(s, k) {
        let i = key_index(s, k);
        lemma_key_at(s, k, i);
        let a = s.subrange(0, i);
        let b = s.subrange(i + 1, s.len() as int);
        assert(s =~= a + seq![s[i]] + b);
        Seq::filter_distributes_over_add(a + seq![s[i]], b, pred);
        Seq::filter_distributes_over_add(a, seq![s[i]], pred);
        lemma_filter_keeps_all(a, pred);
        lemma_filter_keeps_all(b, pred);
        reveal_with_fuel(Seq::filter, 2);
        assert(seq![s[i]].drop_last() =~= Seq::<(K, V)>::empty());
        assert(seq![s[i]].filter(pred) =~= Seq::<(K, V)>::empty());
        assert(s.remove(i) =~= a + b);
    } else {
        lemma_filter_keeps_all(s, pred);
    }
}

/// Every element of a filtered sequence comes from the sequence and passes the predicate.
proof fn lemma_filter_member<A>(s: Seq<A>, pred: spec_fn(A) -> bool, x: A)
    requires
        s.filter(pred).contains(x),
    ensures
        s.contains(x),
        pred(x),
    decreases s.len(),
{
    reveal(Seq::filter);
    broadcast use vstd::seq_lib::group_filter_ensures;
    let f = s.filter(pred);
    let j = choose|j: int| 0 <= j < f.len() && f[j] == x;
    if s.len() > 0 {
        if pred(s.last()) && j == f.len() - 1 {
            assert(s[s.len() - 1] == x);
        } else {
            let g = s.drop_last().filter(pred);
            if pred(s.last()) {
                assert(f == g.push(s.last()));
                assert(g[j] == x);
            } else {
                assert(f == g);
            }
            assert(g.contains(x));
            lemma_filter_member(s.drop_last(), pred, x);
            let m = choose|m: int| 0 <= m < s.drop_last().len() && s.drop_last()[m] == x;
            assert(s[m] == x);
        }
    }
}

/// Pruning removes exactly the given keys: each of them is absent afterwards, and every
/// other key keeps its value (or stays absent).
pub proof fn lemma_prune_removes_exactly<K, V>(s: Seq<(K, V)>, keys: Seq<K>, k: K)
    requires
        distinct_keys(s),
    ensures
        keys.contains(k) ==> !has_key(without_keys(s, keys), k),
        !keys.contains(k) ==> lookup(without_keys(s, keys), k) == lookup(s, k),
{
    broadcast use vstd::seq_lib::group_filter_ensures;
    let pred = |e: (K, V)| !keys.contains(e.0);
    let w = without_keys(s, keys);
    if has_key(w, k) {
        let j = key_index(w, k);
        assert(w.contains(w[j]));
        lemma_filter_member(s, pred, w[j]);
        let m = choose|m: int| 0 <= m < s.len() && s[m] == w[j];
        lemma_key_at(s, k, m);
    } else if !keys.contains(k) && has_key(s, k) {
        let i = key_index(s, k);
        assert(pred(s[i]));
        assert(w.contains(s[i]));
    }
}

/// The keys, in their given order, whose age exceeds `ttl`.
pub open spec fn older_than<K>(ages: Seq<(K, u128)>, ttl: u128) -> Seq<K> {
    ages.filter(|e: (K, u128)| e.1 > ttl).map_values(|e: (K, u128)| e.0)
}

/// Filtering a sequence with one more element at its end.
proof fn lemma_filter_push<A>(s: Seq<A>, x: A, pred: spec_fn(A) -> bool)
    ensures
        s.push(x).filter(pred) == (if pred(x) { s.filter(pred).push(x) } else { s.filter(pred) }),
{
    reveal(Seq::filter);
    assert(s.push(x).drop_last() =~= s);
}

/// The keys chosen are exactly those of entries older than `ttl`: every entry whose age is
/// strictly greater than `ttl` has its key chosen, however old it is, and every chosen key
/// belongs to such an entry.
pub proof fn lemma_expired_exactly<K>(ages: Seq<(K, u128)>, ttl: u128)
    ensures
        forall|i: int| 0 <= i < ages.len() && ages[i].1 > ttl ==> #[trigger] older_than(ages, ttl).contains(ages[i].0),
        forall|x: K| #[trigger] older_than(ages, ttl).contains(x) ==>
            exists|i: int| 0 <= i < ages.len() && ages[i].0 == x && ages[i].1 > ttl,
        older_than(ages, ttl).len() <= ages.len(),
{
    broadcast use vstd::seq_lib::group_filter_ensures;
    let pred = |e: (K, u128)| e.1 > ttl;
    let f = ages.filter(pred);
    let out = older_than(ages, ttl);
    assert forall|i: int| 0 <= i < ages.len() && ages[i].1 > ttl implies #[trigger] out.contains(ages[i].0) by {
        assert(pred(ages[i]));
        assert(f.contains(ages[i]));
        let j = choose|j: int| 0 <= j < f.len() && f[j] == ages[i];
        assert(out[j] == ages[i].0);
    }
    assert forall|x: K| #[trigger] out.contains(x) implies
        exists|i: int| 0 <= i < ages.len() && ages[i].0 == x && ages[i].1 > ttl by {
        let j = choose|j: int| 0 <= j < out.len() && out[j] == x;
        assert(f.contains(f[j]));
        lemma_filter_member(ages, pred, f[j]);
        let i = choose|i: int| 0 <= i < ages.len() && ages[i] == f[j];
        assert(ages[i].0 == x && ages[i].1 > ttl);
    }
}

/// Picks the keys whose entries have outlived `ttl`: exactly those whose age is strictly
/// greater than `ttl`, in the order given. Ages and `ttl` are in the same unit.
pub fn expired_keys<K>(ages: Vec<(K, u128)>, ttl: u128) -> (keys: Vec<K>)
    ensures
        keys@ == older_than(ages@, ttl),
        forall|i: int| 0 <= i < ages@.len() && ages@[i].1 > ttl ==> #[trigger] keys@.contains(ages@[i].0),
        forall|x: K| #[trigger] keys@.contains(x) ==>
            exists|i: int| 0 <= i < ages@.len() && ages@[i].0 == x && ages@[i].1 > ttl,
{
    proof { lemma_expired_exactly(ages@, ttl); }
    let ghost all = ages@;
    let mut keys: Vec<K> = Vec::new();
    for e in it: ages
        invariant
            it.seq() == all,
            keys@ == older_than(all.take(it.index() as int), ttl),
    {
        let ghost i = it.index() as int;
        proof {
            assert(all.take(i + 1) =~= all.take(i).push(all[i]));
            lemma_filter_push(all.take(i), all[i], |e: (K, u128)| e.1 > ttl);
        }
        let (key, age) = e;
        if age > ttl {
            keys.push(key);
        }
        proof {
            let f = all.take(i).filter(|e: (K, u128)| e.1 > ttl);
            if all[i].1 > ttl {
                assert(f.push(all[i]).map_values(|e: (K, u128)| e.0) =~= f.map_values(|e: (K, u128)| e.0).push(all[i].0));
            }
        }
    }
    proof {
        assert(all.take(all.len() as int) =~= all);
    }
    keys
}

/// Removes every entry whose key is in `expired_keys` (keys that are absent are skipped);
/// the remaining entries keep their order.
pub fn prune_expired<K, V>(cache: &mut LruCache<K, V>, expired_keys: Vec<K>)
    where K: Eq + Hash + Clone,
    requires
        old(cache).wf(),
    ensures
        final(cache).wf(),
        final(cache).cap() == old(cache).cap(),
        final(cache)@ == without_keys(old(cache)@, expired_keys@),
{
    let ghost start = cache@;
    let mut i: usize = 0;
    proof {
        lemma_filter_keeps_all(start, |e: (K, V)| !expired_keys@.take(0).contains(e.0));
    }
    while i < expired_keys.len()
        invariant
            i <= expired_keys@.len(),
            cache.wf(),
            cache.cap() == old(cache).cap(),
            start == old(cache)@,
            cache@ == without_keys(start, expired_keys@.take(i as int)),
        decreases expired_keys@.len() - i,
    {
        let ghost before = cache@;
        proof { cache.lemma_bounded(); }
        let _ = cache.remove(&expired_keys[i]);
        proof {
            let k = expired_keys@[i as int];
            let p = |e: (K, V)| !expired_keys@.take(i as int).contains(e.0);
            let q = |e: (K, V)| e.0 != k;
            let next = |e: (K, V)| !expired_keys@.take(i + 1).contains(e.0);
            lemma_removed_is_filter(before, k);
            lemma_filter_twice(start, p, q);
            let t0 = expired_keys@.take(i as int);
            let t1 = expired_keys@.take(i + 1);
            assert forall|x: K| t1.contains(x) <==> (t0.contains(x) || x == k) by {
                if t1.contains(x) {
                    let j = choose|j: int| 0 <= j < t1.len() && t1[j] == x;
                    if j < i {
                        assert(t0[j] == x);
                    }
                }
                if t0.contains(x) {
                    let j = choose|j: int| 0 <= j < t0.len() && t0[j] == x;
                    assert(t1[j] == x);
                }
                if x == k {
                    assert(t1[i as int] == x);
                }
            }
            assert((|x: (K, V)| p(x) && q(x)) =~= next);
        }
        i += 1;
    }
    proof {
        assert(expired_keys@.take(i as int) =~= expired_keys@);
    }
}

} // verus!
