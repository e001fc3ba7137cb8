use std::collections::HashMap;
use std::hash::Hash;
use vstd::prelude::*;
use vstd::std_specs::hash::obeys_key_model;
use crate::model::{
    distinct_keys, has_key, key_index, lookup, promote, touched, removed, inserted,
    lemma_access_moves_only_that_entry, lemma_update_keeps_others_in_order, lemma_new_key_goes_first,
};

verus! {

struct Node<K, V> {
    key: K,
    value: V,
    prev: Option<usize>,
    next: Option<usize>,
}

/// Copies a key with `Clone::clone`. It is only called for key types inside vstd's
/// hash-table key model (`obeys_key_model::<K>()`), which includes that cloning a key
/// yields a value identical to the original; the contract claims exactly that.
#[verifier::external_body]
fn clone_key<K: Clone>(key: &K) -> (c: K)
    requires
        obeys_key_model::<K>(),
    ensures
        c == *key,
{
    key.clone()
}

/// A least-recently-used cache with a fixed capacity.
pub struct LruCache<K, V> where K: Eq + Hash + Clone {
    capacity: usize,
    map: HashMap<K, usize>,
    nodes: Vec<Option<Node<K, V>>>,
    free_list: Vec<usize>,
    head: Option<usize>,
    tail: Option<usize>,
    len: usize,
    /// Slot indices of the live entries, from the most to the least recently used.
    order: Ghost<Seq<usize>>,
}

impl<K, V> LruCache<K, V> where K: Eq + Hash + Clone {
    spec fn node(&self, idx: usize) -> Node<K, V> {
        self.nodes@[idx as int]->0
    }

    /// The entries, from the most recently used to the least recently used.
    pub closed spec fn view(&self) -> Seq<(K, V)> {
        Seq::new(self.order@.len(), |i: int| (self.node(self.order@[i]).key, self.node(self.order@[i]).value))
    }

    /// The maximum number of entries.
    pub closed spec fn cap(&self) -> nat {
        self.capacity as nat
    }

    spec fn prev_of(order: Seq<usize>, i: int) -> Option<usize> {
        if i == 0 { None } else { Some(order[i - 1]) }
    }

    spec fn next_of(order: Seq<usize>, i: int) -> Option<usize> {
        if i + 1 == order.len() { None } else { Some(order[i + 1]) }
    }

    spec fn links_wf(&self) -> bool {
        let order = self.order@;
        &&& order.no_duplicates()
        &&& forall|i: int| 0 <= i < order.len() ==> {
            &&& #[trigger] order[i] < self.nodes@.len()
            &&& self.nodes@[order[i] as int] is Some
            &&& self.node(order[i]).prev == Self::prev_of(order, i)
            &&& self.node(order[i]).next == Self::next_of(order, i)
        }
        &&& self.head == (if order.len() == 0 { None } else { Some(order[0]) })
        &&& self.tail == (if order.len() == 0 { None } else { Some(order.last()) })
    }

    spec fn free_wf(&self) -> bool {
        &&& self.free_list@.no_duplicates()
        &&& forall|j: int| 0 <= j < self.free_list@.len() ==> {
            &&& #[trigger] self.free_list@[j] < self.nodes@.len()
            &&& !self.order@.contains(self.free_list@[j])
        }
        &&& self.nodes@.len() == self.order@.len() + self.free_list@.len()
    }

    spec fn map_wf(&self) -> bool {
        &&& forall|i: int| 0 <= i < self.order@.len() ==> {
            &&& self.map@.contains_key(#[trigger] self.node(self.order@[i]).key)
            &&& self.map@[self.node(self.order@[i]).key] == self.order@[i]
        }
        &&& forall|k: K| #[trigger] self.map@.contains_key(k) ==> {
            &&& self.order@.contains(self.map@[k])
            &&& self.node(self.map@[k]).key == k
        }
    }

    /// The cache's internal invariant.
    pub closed spec fn wf(&self) -> bool {
        &&& self.links_wf()
        &&& self.free_wf()
        &&& self.map_wf()
        &&& self.len == self.order@.len()
        &&& 0 < self.capacity
        &&& self.order@.len() <= self.capacity
        &&& obeys_key_model::<K>()
    }

    /// `b` has the same slots occupied as `a`, by the same keys.
    spec fn same_keys(a: Seq<Option<Node<K, V>>>, b: Seq<Option<Node<K, V>>>) -> bool {
        &&& a.len() == b.len()
        &&& forall|j: int| 0 <= j < a.len() ==> {
            &&& (#[trigger] b[j] is Some <==> a[j] is Some)
            &&& (a[j] is Some ==> b[j]->0.key == a[j]->0.key)
        }
    }

    /// `b` holds the same entries as `a` in the same slots; only the links may differ.
    spec fn same_payload(a: Seq<Option<Node<K, V>>>, b: Seq<Option<Node<K, V>>>) -> bool {
        &&& a.len() == b.len()
        &&& forall|j: int| 0 <= j < a.len() ==> {
            &&& (#[trigger] b[j] is Some <==> a[j] is Some)
            &&& (a[j] is Some ==> b[j]->0.key == a[j]->0.key && b[j]->0.value == a[j]->0.value)
        }
    }

    /// Creates an empty cache that holds at most `capacity` entries.
    pub fn new(capacity: usize) -> (cache: Self)
        requires
            capacity > 0,
            obeys_key_model::<K>(),
        ensures
            cache.wf(),
            cache@ == Seq::<(K, V)>::empty(),
            cache.cap() == capacity,
    {
        LruCache {
            capacity,
            map: HashMap::new(),
            nodes: Vec::new(),
            free_list: Vec::new(),
            head: None,
            tail: None,
            len: 0,
            order: Ghost(Seq::empty()),
        }
    }

    /// The number of entries.
    pub fn len(&self) -> (n: usize)
        requires
            self.wf(),
        ensures
            n == self@.len(),
    {
        self.len
    }

    /// Whether the cache holds no entry.
    pub fn is_empty(&self) -> (b: bool)
        requires
            self.wf(),
        ensures
            b == (self@.len() == 0),
    {
        self.len == 0
    }

    /// The maximum number of entries.
    pub fn capacity(&self) -> (c: usize)
        ensures
            c == self.cap(),
    {
        self.capacity
    }

    /// Whether some entry has key `key`; the recency order is not changed.
    pub fn contains_key(&self, key: &K) -> (b: bool)
        requires
            self.wf(),
        ensures
            b == has_key(self@, *key),
    {
        proof { self.lemma_view(); }
        self.map.contains_key(key)
    }

    /// Looks up `key`; a found entry becomes the most recently used.
    pub fn get(&mut self, key: &K) -> (r: Option<&V>)
        requires
            old(self).wf(),
        ensures
            final(self).wf(),
            final(self)@ == touched(old(self)@, *key),
            has_key(old(self)@, *key) ==> final(self)@ == seq![old(self)@[key_index(old(self)@, *key)]]
                + old(self)@.subrange(0, key_index(old(self)@, *key))
                + old(self)@.subrange(key_index(old(self)@, *key) + 1, old(self)@.len() as int),
            !has_key(old(self)@, *key) ==> final(self)@ == old(self)@,
            final(self).cap() == old(self).cap(),
            match r {
                Some(v) => lookup(old(self)@, *key) == Some(*v),
                None => lookup(old(self)@, *key) is None,
            },
    {
        proof { self.lemma_view(); }
        proof {
            if has_key(self@, *key) {
                lemma_access_moves_only_that_entry(self@, *key, key_index(self@, *key));
            }
        }
        let idx = match self.map.get(key) {
            Some(i) => *i,
            None => return None,
        };
        let ghost pos = key_index(self@, *key);
        let ghost old_self = *self;
        self.move_to_front(idx, Ghost(pos));
        proof {
            Self::lemma_view_promote(&old_self, self, pos);
            Self::lemma_reorder_wf(&old_self, self);
            assert(self.order@[0] == idx);
        }
        match self.nodes[idx].as_ref() {
            Some(node) => Some(&node.value),
            None => None,
        }
    }

    /// Looks up `key` for modification; a found entry becomes the most recently used, and
    /// its value becomes whatever is written through the returned reference.
    pub fn get_mut(&mut self, key: &K) -> (r: Option<&mut V>)
        requires
            old(self).wf(),
        ensures
            final(self).wf(),
            final(self).cap() == old(self).cap(),
            r is Some <==> has_key(old(self)@, *key),
            r is Some ==> {
                &&& lookup(old(self)@, *key) == Some(*r.unwrap())
                &&& final(self)@ == seq![(*key, *final(r.unwrap()))].add(old(self)@.remove(key_index(old(self)@, *key)))
            },
            r is None ==> final(self)@ == old(self)@,
    {
        proof { self.lemma_view(); }
        let idx = match self.map.get(key) {
            Some(i) => *i,
            None => return None,
        };
        let ghost pos = key_index(self@, *key);
        let ghost old_self = *self;
        self.move_to_front(idx, Ghost(pos));
        proof {
            Self::lemma_view_promote(&old_self, self, pos);
            Self::lemma_reorder_wf(&old_self, self);
            assert(self.order@[0] == idx);
        }
        let ghost mid = *self;
        proof {
            assert forall|t: Self| #![trigger t.wf()] #![trigger t.view()] Self::value_written(mid, t, idx) implies {
                &&& t.wf()
                &&& t@ == seq![(*key, t.node(idx).value)].add(old_self@.remove(pos))
            } by {
                Self::lemma_value_written(mid, t, idx);
                assert(promote(old_self@, pos).update(0, (*key, t.node(idx).value)) =~= seq![(*key, t.node(idx).value)].add(old_self@.remove(pos)));
            }
        }
        let value = self.value_mut(idx);
        Some(value)
    }

    /// Stores `value` under `key` as the most recently used entry. An existing entry for
    /// `key` is updated in place; otherwise, when the cache is full, the least recently used
    /// entry is evicted first.
    pub fn insert(&mut self, key: K, value: V)
        requires
            old(self).wf(),
        ensures
            final(self).wf(),
            final(self)@ == inserted(old(self)@, old(self).cap(), key, value),
            has_key(old(self)@, key) ==> final(self)@ == seq![(key, value)]
                + old(self)@.subrange(0, key_index(old(self)@, key))
                + old(self)@.subrange(key_index(old(self)@, key) + 1, old(self)@.len() as int),
            !has_key(old(self)@, key) && old(self)@.len() == old(self).cap() ==>
                final(self)@ == seq![(key, value)] + old(self)@.subrange(0, old(self)@.len() - 1),
            !has_key(old(self)@, key) && old(self)@.len() < old(self).cap() ==>
                final(self)@ == seq![(key, value)] + old(self)@,
            final(self).cap() == old(self).cap(),
    {
        proof { self.lemma_view(); }
        proof {
            self.lemma_bounded();
            if has_key(self@, key) {
                lemma_update_keeps_others_in_order(self@, self.cap(), key, value, key_index(self@, key));
            } else {
                lemma_new_key_goes_first(self@, self.cap(), key, value);
            }
        }
        let ghost old_self = *self;
        match self.map.get(&key) {
            Some(i) => {
                let idx = *i;
                let ghost pos = key_index(self@, key);
                self.update_entry(idx, Ghost(pos), key, value);
                return;
            },
            None => {},
        }
        if self.len == self.capacity {
            self.evict_lru();
            proof {
                assert(!has_key(self@, key)) by {
                    if has_key(self@, key) {
                        let i = choose|i: int| 0 <= i < self@.len() && self@[i].0 == key;
                        assert(old_self@[i].0 == key);
                    }
                }
            }
        }
        self.push_new_entry(key, value);
    }

    /// Removes the entry for `key` and returns its value, if there is one.
    #[verifier::rlimit(80)]
    #[verifier::spinoff_prover]
    pub fn remove(&mut self, key: &K) -> (r: Option<V>)
        requires
            old(self).wf(),
        ensures
            final(self).wf(),
            final(self)@ == removed(old(self)@, *key),
            final(self).cap() == old(self).cap(),
            r == lookup(old(self)@, *key),
    {
        proof { self.lemma_view(); }
        let ghost old_self = *self;
        let ghost pos = key_index(self@, *key);
        let idx = self.map.remove(key)?;
        proof {
            assert(old_self.order@[pos] == idx);
            assert(old_self.order@.no_duplicates());
        }
        self.detach(idx, Ghost(pos));
        self.len -= 1;
        let ghost detached_nodes = self.nodes@;
        let node = self.nodes[idx].take().unwrap();
        self.free_list.push(idx);
        proof {
            let old_order = old_self.order@;
            let order = self.order@;
            assert(forall|j: int| 0 <= j < self.nodes@.len() && j != idx ==> self.nodes@[j] == detached_nodes[j]);
            assert forall|i: int| 0 <= i < order.len() implies #[trigger] order[i] != idx && order[i] == old_order[if i < pos { i } else { i + 1 }] by {
                let j = if i < pos { i } else { i + 1 };
                assert(order[i] == old_order[j]);
            }
            // links
            assert forall|i: int| 0 <= i < order.len() implies {
                &&& #[trigger] order[i] < self.nodes@.len()
                &&& self.nodes@[order[i] as int] is Some
                &&& self.node(order[i]).prev == Self::prev_of(order, i)
                &&& self.node(order[i]).next == Self::next_of(order, i)
            } by {
                assert(order[i] != idx);
                assert(self.nodes@[order[i] as int] == detached_nodes[order[i] as int]);
            }
            assert(self.links_wf());
            // free slots
            assert(!old_self.free_list@.contains(idx)) by {
                if old_self.free_list@.contains(idx) {
                    let j = choose|j: int| 0 <= j < old_self.free_list@.len() && old_self.free_list@[j] == idx;
                    assert(old_order.contains(old_self.free_list@[j]));
                }
            }
            assert(!order.contains(idx));
            assert forall|j: int| 0 <= j < self.free_list@.len() implies {
                &&& #[trigger] self.free_list@[j] < self.nodes@.len()
                &&& !order.contains(self.free_list@[j])
            } by {
                if j < old_self.free_list@.len() {
                    let f = self.free_list@[j];
                    assert(f == old_self.free_list@[j]);
                    assert(!old_order.contains(f));
                    if order.contains(f) {
                        let i = choose|i: int| 0 <= i < order.len() && order[i] == f;
                        assert(old_order[if i < pos { i } else { i + 1 }] == f);
                    }
                }
            }
            assert(self.free_wf());
            // map
            let old_view = old_self@;
            assert forall|i: int| 0 <= i < order.len() implies {
                &&& self.map@.contains_key(#[trigger] self.node(order[i]).key)
                &&& self.map@[self.node(order[i]).key] == order[i]
            } by {
                let j = if i < pos { i } else { i + 1 };
                assert(old_view[j].0 == old_self.node(old_order[j]).key);
                assert(old_view[pos].0 == *key);
                assert(old_self.map@.contains_key(old_self.node(old_order[j]).key));
            }
            assert forall|k: K| #[trigger] self.map@.contains_key(k) implies {
                &&& order.contains(self.map@[k])
                &&& self.node(self.map@[k]).key == k
            } by {
                assert(old_self.map@.contains_key(k));
                let slot = old_self.map@[k];
                assert(old_order.contains(slot));
                let j = choose|j: int| 0 <= j < old_order.len() && old_order[j] == slot;
                assert(j != pos);
                let i = if j < pos { j } else { j - 1 };
                assert(order[i] == slot);
                assert(self.nodes@[slot as int] == detached_nodes[slot as int]);
            }
            assert(self.map_wf());
            assert forall|i: int| 0 <= i < order.len() implies #[trigger] self@[i] == old_view.remove(pos)[i] by {
                let j = if i < pos { i } else { i + 1 };
                assert(self.nodes@[order[i] as int] == detached_nodes[order[i] as int]);
            }
            assert(self@ =~= old_view.remove(pos));
        }
        Some(node.value)
    }

    /// The entries, from the most recently used to the least recently used.
    pub fn iter(&self) -> (entries: Vec<(&K, &V)>)
        requires
            self.wf(),
        ensures
            entries@.len() == self@.len(),
            forall|i: int| 0 <= i < entries@.len() ==> *(#[trigger] entries@[i]).0 == self@[i].0 && *entries@[i].1 == self@[i].1,
    {
        let mut entries: Vec<(&K, &V)> = Vec::new();
        let mut cur = self.head;
        while cur.is_some()
            invariant
                self.wf(),
                entries@.len() <= self.order@.len(),
                cur == (if entries@.len() < self.order@.len() { Some(self.order@[entries@.len() as int]) } else { None::<usize> }),
                forall|i: int| 0 <= i < entries@.len() ==> *(#[trigger] entries@[i]).0 == self@[i].0 && *entries@[i].1 == self@[i].1,
            decreases self.order@.len() - entries@.len(),
        {
            let idx = cur.unwrap();
            let ghost i = entries@.len() as int;
            assert(self.order@[i] < self.nodes@.len());
            let node = self.nodes[idx].as_ref().unwrap();
            entries.push((&node.key, &node.value));
            cur = node.next;
        }
        entries
    }

    /// Moves the entry for `key`, if any, to the front; returns whether there was one.
    pub fn touch(&mut self, key: &K) -> (found: bool)
        requires
            old(self).wf(),
        ensures
            final(self).wf(),
            final(self)@ == touched(old(self)@, *key),
            has_key(old(self)@, *key) ==> final(self)@ == seq![old(self)@[key_index(old(self)@, *key)]]
                + old(self)@.subrange(0, key_index(old(self)@, *key))
                + old(self)@.subrange(key_index(old(self)@, *key) + 1, old(self)@.len() as int),
            !has_key(old(self)@, *key) ==> final(self)@ == old(self)@,
            final(self).cap() == old(self).cap(),
            found == has_key(old(self)@, *key),
    {
        proof { self.lemma_view(); }
        proof {
            if has_key(self@, *key) {
                lemma_access_moves_only_that_entry(self@, *key, key_index(self@, *key));
            }
        }
        match self.map.get(key) {
            Some(i) => {
                let idx = *i;
                let ghost pos = key_index(self@, *key);
                let ghost old_self = *self;
                self.move_to_front(idx, Ghost(pos));
                proof {
                    Self::lemma_view_promote(&old_self, self, pos);
                    Self::lemma_reorder_wf(&old_self, self);
                }
                true
            },
            None => false,
        }
    }

    /// Every reachable cache holds at most `cap()` entries, a positive capacity, and no key twice.
    pub proof fn lemma_bounded(&self)
        requires
            self.wf(),
        ensures
            self@.len() <= self.cap(),
            self.cap() > 0,
            distinct_keys(self@),
    {
        self.lemma_view();
    }

    /// Evicts the least recently used entry.
    fn evict_lru(&mut self)
        requires
            old(self).wf(),
            old(self)@.len() > 0,
        ensures
            final(self).wf(),
            final(self)@ == old(self)@.drop_last(),
            final(self).cap() == old(self).cap(),
    {
        proof { self.lemma_view(); }
        let tail_idx = self.tail.expect("tail must exist when evicting");
        let key = clone_key(&self.nodes[tail_idx].as_ref().unwrap().key);
        proof {
            let v = self@;
            let last = v.len() - 1;
            assert(v[last].0 == key);
            assert(has_key(v, key));
            assert(key_index(v, key) == last);
            assert(v.remove(last) =~= v.drop_last());
        }
        let _ = self.remove(&key);
    }

    /// Places `node` in a free slot, reusing a released one when there is one, and
    /// returns the slot's index.
    fn alloc_node(&mut self, node: Node<K, V>) -> (idx: usize)
        requires
            old(self).links_wf(),
            old(self).free_wf(),
            old(self).order@.len() < old(self).capacity,
        ensures
            idx < final(self).nodes@.len(),
            final(self).nodes@[idx as int] == Some(node),
            !final(self).order@.contains(idx),
            final(self).links_wf(),
            forall|j: int| 0 <= j < old(self).nodes@.len() && j != idx ==> #[trigger] final(self).nodes@[j] == old(self).nodes@[j],
            final(self).nodes@.len() == final(self).order@.len() + 1 + final(self).free_list@.len(),
            final(self).free_list@.no_duplicates(),
            forall|j: int| 0 <= j < final(self).free_list@.len() ==> {
                &&& #[trigger] final(self).free_list@[j] < final(self).nodes@.len()
                &&& !final(self).order@.contains(final(self).free_list@[j])
                &&& final(self).free_list@[j] != idx
            },
            final(self).order == old(self).order,
            final(self).head == old(self).head,
            final(self).tail == old(self).tail,
            final(self).map == old(self).map,
            final(self).len == old(self).len,
            final(self).capacity == old(self).capacity,
    {
        let ghost old_free = self.free_list@;
        if let Some(idx) = self.free_list.pop() {
            proof {
                assert(old_free.last() == idx);
                assert(old_free[old_free.len() - 1] == idx);
                assert(self.free_list@ =~= old_free.drop_last());
            }
            self.nodes.set(idx, Some(node));
            proof {
                let order = self.order@;
                assert forall|i: int| 0 <= i < order.len() implies {
                    &&& #[trigger] order[i] < self.nodes@.len()
                    &&& self.nodes@[order[i] as int] is Some
                    &&& self.node(order[i]).prev == Self::prev_of(order, i)
                    &&& self.node(order[i]).next == Self::next_of(order, i)
                } by {
                    assert(order.contains(order[i]));
                }
                assert forall|j: int| 0 <= j < self.free_list@.len() implies {
                    &&& #[trigger] self.free_list@[j] < self.nodes@.len()
                    &&& !self.order@.contains(self.free_list@[j])
                    &&& self.free_list@[j] != idx
                } by {
                    assert(self.free_list@[j] == old_free[j]);
                }
            }
            idx
        } else {
            self.nodes.push(Some(node));
            proof {
                assert(!self.order@.contains((self.nodes@.len() - 1) as usize)) by {
                    if self.order@.contains((self.nodes@.len() - 1) as usize) {
                        let i = choose|i: int| 0 <= i < self.order@.len() && self.order@[i] == (self.nodes@.len() - 1) as usize;
                        assert(self.order@[i] < old(self).nodes@.len());
                    }
                }
                let order = self.order@;
                assert forall|i: int| 0 <= i < order.len() implies {
                    &&& #[trigger] order[i] < self.nodes@.len()
                    &&& self.nodes@[order[i] as int] is Some
                    &&& self.node(order[i]).prev == Self::prev_of(order, i)
                    &&& self.node(order[i]).next == Self::next_of(order, i)
                } by {
                    assert(order[i] < old(self).nodes@.len());
                }
            }
            self.nodes.len() - 1
        }
    }

    /// Replaces the value of the entry in slot `idx`, at position `pos` of the recency
    /// order and holding `key`, and makes it the most recently used.
    #[verifier::rlimit(80)]
    #[verifier::spinoff_prover]
    fn update_entry(&mut self, idx: usize, Ghost(pos): Ghost<int>, key: K, value: V)
        requires
            old(self).wf(),
            0 <= pos < old(self)@.len(),
            old(self).order@[pos] == idx,
            old(self)@[pos].0 == key,
        ensures
            final(self).wf(),
            final(self)@ == seq![(key, value)].add(old(self)@.remove(pos)),
            final(self).cap() == old(self).cap(),
    {
        let ghost old_self = *self;
        self.set_value(idx, value);
        let ghost mid = *self;
        proof {
            assert forall|i: int| 0 <= i < mid.order@.len() implies #[trigger] mid@[i] == old_self@.update(pos, (key, value))[i] by {
                if i != pos {
                    assert(old_self.order@.no_duplicates());
                    assert(mid.order@[i] != idx);
                }
            }
            assert(mid@ =~= old_self@.update(pos, (key, value)));
        }
        self.move_to_front(idx, Ghost(pos));
        proof {
            Self::lemma_view_promote(&mid, self, pos);
            assert forall|j: int| 0 <= j < old_self.nodes@.len() implies {
                &&& (#[trigger] self.nodes@[j] is Some <==> old_self.nodes@[j] is Some)
                &&& (old_self.nodes@[j] is Some ==> self.nodes@[j]->0.key == old_self.nodes@[j]->0.key)
            } by {
                assert(mid.nodes@[j] is Some <==> old_self.nodes@[j] is Some);
            }
            Self::lemma_reorder_wf(&old_self, self);
            assert(self@ =~= seq![(key, value)].add(old_self@.remove(pos)));
        }
    }

    /// Adds an entry for `key`, which the cache does not hold, as the most recently used;
    /// the cache must not be full.
    #[verifier::rlimit(60)]
    fn push_new_entry(&mut self, key: K, value: V)
        requires
            old(self).wf(),
            !has_key(old(self)@, key),
            old(self)@.len() < old(self).cap(),
        ensures
            final(self).wf(),
            final(self)@ == seq![(key, value)].add(old(self)@),
            final(self).cap() == old(self).cap(),
    {
        let ghost s1 = *self;
        proof { s1.lemma_view(); }
        let idx = self.alloc_node(Node { key: clone_key(&key), value, prev: None, next: None });
        let ghost s2 = *self;
        self.attach_front(idx);
        self.map.insert(key, idx);
        self.len += 1;
        proof {
            let order = self.order@;
            let old_order = s1.order@;
            assert forall|i: int| 1 <= i < order.len() implies #[trigger] order[i] == old_order[i - 1]
                && order[i] != idx
                && self.nodes@[order[i] as int] is Some
                && self.node(order[i]).key == s1.node(old_order[i - 1]).key
                && self.node(order[i]).value == s1.node(old_order[i - 1]).value by {
                assert(order[i] == old_order[i - 1]);
                assert(old_order.contains(old_order[i - 1]));
                assert(old_order[i - 1] < s1.nodes@.len());
                assert(s2.nodes@[order[i] as int] == s1.nodes@[order[i] as int]);
                assert(s2.nodes@[order[i] as int] is Some);
            }
            assert(self.node(idx).key == key);
            // free slots
            assert forall|j: int| 0 <= j < self.free_list@.len() implies {
                &&& #[trigger] self.free_list@[j] < self.nodes@.len()
                &&& !order.contains(self.free_list@[j])
            } by {
                let f = self.free_list@[j];
                if order.contains(f) {
                    let i = choose|i: int| 0 <= i < order.len() && order[i] == f;
                    if i > 0 {
                        assert(old_order.contains(old_order[i - 1]));
                    }
                }
            }
            assert(self.free_wf());
            // map
            assert forall|i: int| 0 <= i < order.len() implies {
                &&& self.map@.contains_key(#[trigger] self.node(order[i]).key)
                &&& self.map@[self.node(order[i]).key] == order[i]
            } by {
                if i > 0 {
                    let k = s1.node(old_order[i - 1]).key;
                    assert(s1.map@.contains_key(k));
                    assert(s1@[i - 1].0 == k);
                    assert(k != key);
                }
            }
            assert forall|k: K| #[trigger] self.map@.contains_key(k) implies {
                &&& order.contains(self.map@[k])
                &&& self.node(self.map@[k]).key == k
            } by {
                if k == key {
                    assert(order[0] == idx);
                } else {
                    assert(s1.map@.contains_key(k));
                    let slot = s1.map@[k];
                    let j = choose|j: int| 0 <= j < old_order.len() && old_order[j] == slot;
                    assert(order[j + 1] == slot);
                }
            }
            assert(self.map_wf());
            assert forall|i: int| 0 <= i < order.len() implies #[trigger] self@[i] == seq![(key, value)].add(s1@)[i] by {}
            assert(self@ =~= seq![(key, value)].add(s1@));
        }
    }

    /// Moves the entry in slot `idx`, at position `pos` of the recency order, to the front.
    fn move_to_front(&mut self, idx: usize, Ghost(pos): Ghost<int>)
        requires
            old(self).links_wf(),
            0 <= pos < old(self).order@.len(),
            old(self).order@[pos] == idx,
        ensures
            final(self).links_wf(),
            final(self).order@ == seq![idx].add(old(self).order@.remove(pos)),
            old(self).order@[0] == idx ==> *final(self) == *old(self),
            Self::same_payload(old(self).nodes@, final(self).nodes@),
            final(self).map == old(self).map,
            final(self).free_list == old(self).free_list,
            final(self).len == old(self).len,
            final(self).capacity == old(self).capacity,
    {
        if self.head == Some(idx) {
            proof {
                let order = self.order@;
                assert(order.no_duplicates());
                assert(pos == 0);
                assert(order =~= seq![idx].add(order.remove(pos)));
            }
            return;
        }
        let ghost order = self.order@;
        self.detach(idx, Ghost(pos));
        proof {
            assert(!self.order@.contains(idx)) by {
                if self.order@.contains(idx) {
                    let j = choose|j: int| 0 <= j < self.order@.len() && self.order@[j] == idx;
                    let jj = if j < pos { j } else { j + 1 };
                    assert(order[jj] == idx);
                }
            }
            assert(self.nodes@[idx as int] is Some);
        }
        self.attach_front(idx);
    }

    #[verifier::rlimit(60)]
    #[verifier::spinoff_prover]
    /// Unlinks the entry in slot `idx`, which stands at position `pos` of the recency order.
    fn detach(&mut self, idx: usize, Ghost(pos): Ghost<int>)
        requires
            old(self).links_wf(),
            0 <= pos < old(self).order@.len(),
            old(self).order@[pos] == idx,
        ensures
            final(self).links_wf(),
            final(self).order@ == old(self).order@.remove(pos),
            final(self).nodes@[idx as int] is Some,
            final(self).node(idx).prev == None::<usize>,
            final(self).node(idx).next == None::<usize>,
            Self::same_payload(old(self).nodes@, final(self).nodes@),
            final(self).map == old(self).map,
            final(self).free_list == old(self).free_list,
            final(self).len == old(self).len,
            final(self).capacity == old(self).capacity,
    {
        let ghost order = self.order@;
        let ghost old_nodes = self.nodes@;
        let (prev, next) = {
            let node = self.nodes[idx].as_ref().unwrap();
            (node.prev, node.next)
        };
        assert(order.no_duplicates());
        match prev {
            Some(p) => {
                assert(order[pos - 1] == p);
                self.set_next(p, next);
            },
            None => self.head = next,
        }
        match next {
            Some(n) => {
                assert(order[pos + 1] == n);
                self.set_prev(n, prev);
            },
            None => self.tail = prev,
        }
        self.set_prev(idx, None);
        self.set_next(idx, None);
        proof {
            assert forall|j: int|
                0 <= j < old_nodes.len() && j != idx && Some(j as usize) != prev && Some(j as usize) != next
                implies #[trigger] self.nodes@[j] == old_nodes[j] by {}
            Self::lemma_detach_links(old_nodes, self.nodes@, order, pos);
            self.order@ = order.remove(pos);
        }
    }

    /// Links the occupied slot `idx`, which is not in the recency order, in as the most
    /// recently used entry.
    #[verifier::rlimit(60)]
    #[verifier::spinoff_prover]
    fn attach_front(&mut self, idx: usize)
        requires
            old(self).links_wf(),
            idx < old(self).nodes@.len(),
            old(self).nodes@[idx as int] is Some,
            !old(self).order@.contains(idx),
        ensures
            final(self).links_wf(),
            final(self).order@ == seq![idx].add(old(self).order@),
            Self::same_payload(old(self).nodes@, final(self).nodes@),
            final(self).map == old(self).map,
            final(self).free_list == old(self).free_list,
            final(self).len == old(self).len,
            final(self).capacity == old(self).capacity,
    {
        let ghost order = self.order@;
        let ghost old_nodes = self.nodes@;
        self.set_prev(idx, None);
        self.set_next(idx, self.head);
        if let Some(old_head) = self.head {
            assert(order[0] == old_head);
            self.set_prev(old_head, Some(idx));
        }
        self.head = Some(idx);
        if self.tail.is_none() {
            self.tail = Some(idx);
        }
        proof {
            assert forall|j: int|
                0 <= j < old_nodes.len() && j != idx && (order.len() == 0 || j != order[0])
                implies #[trigger] self.nodes@[j] == old_nodes[j] by {}
            Self::lemma_attach_links(old_nodes, self.nodes@, order, idx);
            self.order@ = seq![idx].add(order);
        }
    }

    /// Sets the backward link of the occupied slot `slot`.
    fn set_prev(&mut self, slot: usize, prev: Option<usize>)
        requires
            slot < old(self).nodes@.len(),
            old(self).nodes@[slot as int] is Some,
        ensures
            final(self).nodes@.len() == old(self).nodes@.len(),
            final(self).nodes@[slot as int] is Some,
            final(self).node(slot).key == old(self).node(slot).key,
            final(self).node(slot).value == old(self).node(slot).value,
            final(self).node(slot).next == old(self).node(slot).next,
            final(self).node(slot).prev == prev,
            forall|j: int| 0 <= j < final(self).nodes@.len() && j != slot ==> #[trigger] final(self).nodes@[j] == old(self).nodes@[j],
            final(self).order == old(self).order,
            final(self).head == old(self).head,
            final(self).tail == old(self).tail,
            final(self).map == old(self).map,
            final(self).free_list == old(self).free_list,
            final(self).len == old(self).len,
            final(self).capacity == old(self).capacity,
    {
        self.nodes[slot].as_mut().unwrap().prev = prev;
    }

    /// Sets the forward link of the occupied slot `slot`.
    fn set_next(&mut self, slot: usize, next: Option<usize>)
        requires
            slot < old(self).nodes@.len(),
            old(self).nodes@[slot as int] is Some,
        ensures
            final(self).nodes@.len() == old(self).nodes@.len(),
            final(self).nodes@[slot as int] is Some,
            final(self).node(slot).key == old(self).node(slot).key,
            final(self).node(slot).value == old(self).node(slot).value,
            final(self).node(slot).prev == old(self).node(slot).prev,
            final(self).node(slot).next == next,
            forall|j: int| 0 <= j < final(self).nodes@.len() && j != slot ==> #[trigger] final(self).nodes@[j] == old(self).nodes@[j],
            final(self).order == old(self).order,
            final(self).head == old(self).head,
            final(self).tail == old(self).tail,
            final(self).map == old(self).map,
            final(self).free_list == old(self).free_list,
            final(self).len == old(self).len,
            final(self).capacity == old(self).capacity,
    {
        self.nodes[slot].as_mut().unwrap().next = next;
    }

    /// Replaces the value in the occupied slot `slot`.
    fn set_value(&mut self, slot: usize, value: V)
        requires
            slot < old(self).nodes@.len(),
            old(self).nodes@[slot as int] is Some,
        ensures
            final(self).nodes@.len() == old(self).nodes@.len(),
            final(self).nodes@[slot as int] is Some,
            final(self).node(slot).key == old(self).node(slot).key,
            final(self).node(slot).value == value,
            final(self).node(slot).prev == old(self).node(slot).prev,
            final(self).node(slot).next == old(self).node(slot).next,
            forall|j: int| 0 <= j < final(self).nodes@.len() && j != slot ==> #[trigger] final(self).nodes@[j] == old(self).nodes@[j],
            Self::same_keys(old(self).nodes@, final(self).nodes@),
            old(self).links_wf() ==> final(self).links_wf(),
            final(self).order == old(self).order,
            final(self).head == old(self).head,
            final(self).tail == old(self).tail,
            final(self).map == old(self).map,
            final(self).free_list == old(self).free_list,
            final(self).len == old(self).len,
            final(self).capacity == old(self).capacity,
    {
        if let Some(node) = self.nodes[slot].as_mut() {
            node.value = value;
        }
        proof {
            if old(self).links_wf() {
                let order = self.order@;
                assert forall|i: int| 0 <= i < order.len() implies {
                    &&& #[trigger] order[i] < self.nodes@.len()
                    &&& self.nodes@[order[i] as int] is Some
                    &&& self.node(order[i]).prev == Self::prev_of(order, i)
                    &&& self.node(order[i]).next == Self::next_of(order, i)
                } by {
                    assert(order[i] < old(self).nodes@.len());
                }
            }
        }
    }

    /// A mutable reference to the value in the occupied slot `idx`.
    fn value_mut(&mut self, idx: usize) -> (r: &mut V)
        requires
            idx < old(self).nodes@.len(),
            old(self).nodes@[idx as int] is Some,
        ensures
            *r == old(self).node(idx).value,
            final(self).nodes@ == old(self).nodes@.update(idx as int, Some(Node {
                key: old(self).node(idx).key,
                value: *final(r),
                prev: old(self).node(idx).prev,
                next: old(self).node(idx).next,
            })),
            final(self).order == old(self).order,
            final(self).head == old(self).head,
            final(self).tail == old(self).tail,
            final(self).map == old(self).map,
            final(self).free_list == old(self).free_list,
            final(self).len == old(self).len,
            final(self).capacity == old(self).capacity,
    {
        let node = self.nodes[idx].as_mut().unwrap();
        &mut node.value
    }

    /// Facts about the view that follow from the invariant.
    proof fn lemma_view(&self)
        requires
            self.wf(),
        ensures
            self@.len() == self.order@.len(),
            distinct_keys(self@),
            forall|k: K| #[trigger] has_key(self@, k) <==> self.map@.contains_key(k),
            forall|k: K| #[trigger] self.map@.contains_key(k) ==> {
                &&& 0 <= key_index(self@, k) < self@.len()
                &&& self.order@[key_index(self@, k)] == self.map@[k]
                &&& self@[key_index(self@, k)].0 == k
            },
    {
        let v = self@;
        assert forall|i: int, j: int| 0 <= i < v.len() && 0 <= j < v.len() && i != j implies v[i].0 != v[j].0 by {
            assert(self.map@[self.node(self.order@[i]).key] == self.order@[i]);
            assert(self.map@[self.node(self.order@[j]).key] == self.order@[j]);
            assert(self.order@.no_duplicates());
        }
        assert forall|k: K| #[trigger] self.map@.contains_key(k) implies {
            &&& 0 <= key_index(self@, k) < self@.len()
            &&& self.order@[key_index(self@, k)] == self.map@[k]
            &&& self@[key_index(self@, k)].0 == k
        } by {
            let j = choose|j: int| 0 <= j < self.order@.len() && self.order@[j] == self.map@[k];
            assert(v[j].0 == k);
            assert(has_key(v, k));
            let i = key_index(v, k);
            assert(v[i].0 == k);
            assert(self.map@[self.node(self.order@[i]).key] == self.order@[i]);
        }
        assert forall|k: K| #[trigger] has_key(self@, k) implies self.map@.contains_key(k) by {
            let i = choose|i: int| 0 <= i < v.len() && v[i].0 == k;
            assert(self.map@.contains_key(self.node(self.order@[i]).key));
        }
    }

    /// Reordering the live entries, without changing any of them, keeps the invariant.
    proof fn lemma_reorder_wf(old_self: &Self, new_self: &Self)
        requires
            old_self.wf(),
            new_self.links_wf(),
            Self::same_keys(old_self.nodes@, new_self.nodes@),
            forall|x: usize| new_self.order@.contains(x) <==> old_self.order@.contains(x),
            new_self.order@.len() == old_self.order@.len(),
            new_self.map == old_self.map,
            new_self.free_list == old_self.free_list,
            new_self.len == old_self.len,
            new_self.capacity == old_self.capacity,
        ensures
            new_self.wf(),
    {
        let order = new_self.order@;
        assert forall|i: int| 0 <= i < order.len() implies {
            &&& new_self.map@.contains_key(#[trigger] new_self.node(order[i]).key)
            &&& new_self.map@[new_self.node(order[i]).key] == order[i]
        } by {
            assert(order.contains(order[i]));
            let j = choose|j: int| 0 <= j < old_self.order@.len() && old_self.order@[j] == order[i];
            assert(old_self.map@.contains_key(old_self.node(old_self.order@[j]).key));
        }
        assert forall|k: K| #[trigger] new_self.map@.contains_key(k) implies {
            &&& order.contains(new_self.map@[k])
            &&& new_self.node(new_self.map@[k]).key == k
        } by {
            assert(old_self.order@.contains(old_self.map@[k]));
            let j = choose|j: int| 0 <= j < old_self.order@.len() && old_self.order@[j] == old_self.map@[k];
            assert(old_self.order@[j] < old_self.nodes@.len());
        }
    }

    /// After the entry at position `pos` moves to the front of the recency order, with no entry
    /// changed, the view is `promote(old view, pos)`.
    proof fn lemma_view_promote(old_self: &Self, new_self: &Self, pos: int)
        requires
            old_self.links_wf(),
            0 <= pos < old_self.order@.len(),
            Self::same_payload(old_self.nodes@, new_self.nodes@),
            new_self.order@ == seq![old_self.order@[pos]].add(old_self.order@.remove(pos)),
        ensures
            new_self@ == promote(old_self@, pos),
            forall|x: usize| new_self.order@.contains(x) <==> old_self.order@.contains(x),
    {
        let old_order = old_self.order@;
        let new_order = new_self.order@;
        let expected = promote(old_self@, pos);
        assert forall|i: int| 0 <= i < new_order.len() implies #[trigger] new_self@[i] == expected[i] by {
            let j = if i == 0 { pos } else if i - 1 < pos { i - 1 } else { i };
            assert(new_order[i] == old_order[j]);
            assert(old_order[j] < old_self.nodes@.len());
            assert(old_self.nodes@[old_order[j] as int] is Some);
        }
        assert(new_self@ =~= expected);
        assert forall|x: usize| new_order.contains(x) implies old_order.contains(x) by {
            let i = choose|i: int| 0 <= i < new_order.len() && new_order[i] == x;
            let j = if i == 0 { pos } else if i - 1 < pos { i - 1 } else { i };
            assert(old_order[j] == x);
        }
        assert forall|x: usize| old_order.contains(x) implies new_order.contains(x) by {
            let j = choose|j: int| 0 <= j < old_order.len() && old_order[j] == x;
            let i = if j == pos { 0 } else if j < pos { j + 1 } else { j };
            assert(new_order[i] == x);
        }
    }

    proof fn lemma_detach_links(
        old_nodes: Seq<Option<Node<K, V>>>,
        new_nodes: Seq<Option<Node<K, V>>>,
        order: Seq<usize>,
        pos: int,
    )
        requires
            order.no_duplicates(),
            0 <= pos < order.len(),
            forall|i: int| 0 <= i < order.len() ==> {
                &&& #[trigger] order[i] < old_nodes.len()
                &&& old_nodes[order[i] as int] is Some
                &&& old_nodes[order[i] as int]->0.prev == Self::prev_of(order, i)
                &&& old_nodes[order[i] as int]->0.next == Self::next_of(order, i)
            },
            new_nodes.len() == old_nodes.len(),
            forall|j: int|
                0 <= j < old_nodes.len() && j != order[pos] && (pos == 0 || j != order[pos - 1])
                    && (pos + 1 == order.len() || j != order[pos + 1])
                ==> #[trigger] new_nodes[j] == old_nodes[j],
            new_nodes[order[pos] as int] is Some,
            new_nodes[order[pos] as int]->0.key == old_nodes[order[pos] as int]->0.key,
            new_nodes[order[pos] as int]->0.value == old_nodes[order[pos] as int]->0.value,
            pos > 0 ==> {
                let p = order[pos - 1] as int;
                &&& new_nodes[p] is Some
                &&& new_nodes[p]->0.key == old_nodes[p]->0.key
                &&& new_nodes[p]->0.value == old_nodes[p]->0.value
                &&& new_nodes[p]->0.prev == old_nodes[p]->0.prev
                &&& new_nodes[p]->0.next == Self::next_of(order, pos)
            },
            pos + 1 < order.len() ==> {
                let n = order[pos + 1] as int;
                &&& new_nodes[n] is Some
                &&& new_nodes[n]->0.key == old_nodes[n]->0.key
                &&& new_nodes[n]->0.value == old_nodes[n]->0.value
                &&& new_nodes[n]->0.next == old_nodes[n]->0.next
                &&& new_nodes[n]->0.prev == Self::prev_of(order, pos)
            },
        ensures
            Self::same_payload(old_nodes, new_nodes),
            forall|i: int| 0 <= i < order.remove(pos).len() ==> {
                &&& #[trigger] order.remove(pos)[i] < new_nodes.len()
                &&& new_nodes[order.remove(pos)[i] as int] is Some
                &&& new_nodes[order.remove(pos)[i] as int]->0.prev == Self::prev_of(order.remove(pos), i)
                &&& new_nodes[order.remove(pos)[i] as int]->0.next == Self::next_of(order.remove(pos), i)
            },
    {
        let new_order = order.remove(pos);
        assert forall|i: int| 0 <= i < new_order.len() implies {
            &&& #[trigger] new_order[i] < new_nodes.len()
            &&& new_nodes[new_order[i] as int] is Some
            &&& new_nodes[new_order[i] as int]->0.prev == Self::prev_of(new_order, i)
            &&& new_nodes[new_order[i] as int]->0.next == Self::next_of(new_order, i)
        } by {
            let j = if i < pos { i } else { i + 1 };
            assert(new_order[i] == order[j]);
            assert(order[j] < old_nodes.len());
            if j == pos - 1 {
            } else if j == pos + 1 {
            } else {
                assert(order[j] != order[pos]);
                assert(pos == 0 || order[j] != order[pos - 1]);
                assert(pos + 1 == order.len() || order[j] != order[pos + 1]);
                assert(new_nodes[order[j] as int] == old_nodes[order[j] as int]);
            }
        }
        assert forall|j: int| 0 <= j < old_nodes.len() implies {
            &&& (#[trigger] new_nodes[j] is Some <==> old_nodes[j] is Some)
            &&& (old_nodes[j] is Some ==> new_nodes[j]->0.key == old_nodes[j]->0.key && new_nodes[j]->0.value == old_nodes[j]->0.value)
        } by {
            if j == order[pos] {
            } else if pos > 0 && j == order[pos - 1] {
                assert(old_nodes[order[pos - 1] as int] is Some);
            } else if pos + 1 < order.len() && j == order[pos + 1] {
                assert(old_nodes[order[pos + 1] as int] is Some);
            } else {
                assert(new_nodes[j] == old_nodes[j]);
            }
        }
    }

    proof fn lemma_attach_links(
        old_nodes: Seq<Option<Node<K, V>>>,
        new_nodes: Seq<Option<Node<K, V>>>,
        order: Seq<usize>,
        idx: usize,
    )
        requires
            order.no_duplicates(),
            !order.contains(idx),
            idx < old_nodes.len(),
            old_nodes[idx as int] is Some,
            forall|i: int| 0 <= i < order.len() ==> {
                &&& #[trigger] order[i] < old_nodes.len()
                &&& old_nodes[order[i] as int] is Some
                &&& old_nodes[order[i] as int]->0.prev == Self::prev_of(order, i)
                &&& old_nodes[order[i] as int]->0.next == Self::next_of(order, i)
            },
            new_nodes.len() == old_nodes.len(),
            forall|j: int|
                0 <= j < old_nodes.len() && j != idx && (order.len() == 0 || j != order[0])
                ==> #[trigger] new_nodes[j] == old_nodes[j],
            new_nodes[idx as int] is Some,
            new_nodes[idx as int]->0.key == old_nodes[idx as int]->0.key,
            new_nodes[idx as int]->0.value == old_nodes[idx as int]->0.value,
            new_nodes[idx as int]->0.prev == None::<usize>,
            new_nodes[idx as int]->0.next == (if order.len() == 0 { None } else { Some(order[0]) }),
            order.len() > 0 ==> {
                let h = order[0] as int;
                &&& new_nodes[h] is Some
                &&& new_nodes[h]->0.key == old_nodes[h]->0.key
                &&& new_nodes[h]->0.value == old_nodes[h]->0.value
                &&& new_nodes[h]->0.next == old_nodes[h]->0.next
                &&& new_nodes[h]->0.prev == Some(idx)
            },
        ensures
            Self::same_payload(old_nodes, new_nodes),
            seq![idx].add(order).no_duplicates(),
            forall|i: int| 0 <= i < seq![idx].add(order).len() ==> {
                &&& #[trigger] seq![idx].add(order)[i] < new_nodes.len()
                &&& new_nodes[seq![idx].add(order)[i] as int] is Some
                &&& new_nodes[seq![idx].add(order)[i] as int]->0.prev == Self::prev_of(seq![idx].add(order), i)
                &&& new_nodes[seq![idx].add(order)[i] as int]->0.next == Self::next_of(seq![idx].add(order), i)
            },
    {
        let new_order = seq![idx].add(order);
        assert forall|a: int, b: int| 0 <= a < new_order.len() && 0 <= b < new_order.len() && a != b
            implies new_order[a] != new_order[b] by {
            if a == 0 {
                assert(new_order[b] == order[b - 1]);
                assert(order.contains(order[b - 1]));
            } else if b == 0 {
                assert(order[a - 1] == new_order[a]);
                assert(order.contains(order[a - 1]));
            } else {
                assert(new_order[a] == order[a - 1]);
                assert(new_order[b] == order[b - 1]);
            }
        }
        assert forall|i: int| 0 <= i < new_order.len() implies {
            &&& #[trigger] new_order[i] < new_nodes.len()
            &&& new_nodes[new_order[i] as int] is Some
            &&& new_nodes[new_order[i] as int]->0.prev == Self::prev_of(new_order, i)
            &&& new_nodes[new_order[i] as int]->0.next == Self::next_of(new_order, i)
        } by {
            if i == 0 {
            } else {
                assert(new_order[i] == order[i - 1]);
                assert(order[i - 1] < old_nodes.len());
                assert(order[i - 1] != idx);
                if i == 1 {
                } else {
                    assert(order[i - 1] != order[0]);
                    assert(new_nodes[order[i - 1] as int] == old_nodes[order[i - 1] as int]);
                }
            }
        }
        assert forall|j: int| 0 <= j < old_nodes.len() implies {
            &&& (#[trigger] new_nodes[j] is Some <==> old_nodes[j] is Some)
            &&& (old_nodes[j] is Some ==> new_nodes[j]->0.key == old_nodes[j]->0.key && new_nodes[j]->0.value == old_nodes[j]->0.value)
        } by {
            if j == idx {
            } else if order.len() > 0 && j == order[0] {
                assert(old_nodes[order[0] as int] is Some);
            } else {
                assert(new_nodes[j] == old_nodes[j]);
            }
        }
    }

    /// `t` is `s` with only the value of the entry in slot `idx` replaced.
    spec fn value_written(s: Self, t: Self, idx: usize) -> bool {
        &&& idx < s.nodes@.len()
        &&& t.nodes@ == s.nodes@.update(idx as int, Some(Node {
                key: s.node(idx).key,
                value: t.node(idx).value,
                prev: s.node(idx).prev,
                next: s.node(idx).next,
            }))
        &&& t.order == s.order
        &&& t.head == s.head
        &&& t.tail == s.tail
        &&& t.map == s.map
        &&& t.free_list == s.free_list
        &&& t.len == s.len
        &&& t.capacity == s.capacity
    }

    /// Writing a new value into the most recently used entry keeps the invariant and
    /// changes only that entry's value in the view.
    proof fn lemma_value_written(s: Self, t: Self, idx: usize)
        requires
            s.wf(),
            s.order@.len() > 0,
            s.order@[0] == idx,
            Self::value_written(s, t, idx),
        ensures
            t.wf(),
            t@ == s@.update(0, (s@[0].0, t.node(idx).value)),
    {
        let v = t.node(idx).value;
        let order = s.order@;
        assert(order[0] < s.nodes@.len());
        assert forall|i: int| 0 <= i < order.len() implies {
            &&& #[trigger] order[i] < t.nodes@.len()
            &&& t.nodes@[order[i] as int] is Some
            &&& t.node(order[i]).prev == Self::prev_of(order, i)
            &&& t.node(order[i]).next == Self::next_of(order, i)
        } by {
            assert(order[i] < s.nodes@.len());
        }
        assert(t.links_wf());
        assert forall|i: int| 0 <= i < order.len() implies {
            &&& t.map@.contains_key(#[trigger] t.node(order[i]).key)
            &&& t.map@[t.node(order[i]).key] == order[i]
        } by {
            assert(order[i] < s.nodes@.len());
            assert(s.map@.contains_key(s.node(order[i]).key));
        }
        assert forall|k: K| #[trigger] t.map@.contains_key(k) implies {
            &&& order.contains(t.map@[k])
            &&& t.node(t.map@[k]).key == k
        } by {
            assert(s.map@.contains_key(k));
            let j = choose|j: int| 0 <= j < order.len() && order[j] == s.map@[k];
            assert(order[j] < s.nodes@.len());
        }
        assert(t.map_wf());
        assert forall|i: int| 0 <= i < order.len() implies #[trigger] t@[i] == s@.update(0, (s@[0].0, v))[i] by {
            if i != 0 {
                assert(order.no_duplicates());
                assert(order[i] != idx);
            }
        }
        assert(t@ =~= s@.update(0, (s@[0].0, v)));
    }
}

} // verus!
