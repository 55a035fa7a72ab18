//! Least-recently-used cache: one intrusive doubly-linked list threaded
//! through an arena of slots, most recently used entry at the head.

use crate::keys::key_model;
use crate::seqs::{lemma_index_of, lemma_push_front, lemma_remove, next_slot};
use std::collections::HashMap;
use std::hash::Hash;
use vstd::prelude::*;
use vstd::std_specs::hash::*;

verus! {

struct Node<K, V> {
    key: K,
    value: V,
    prev: Option<usize>,
    next: Option<usize>,
}

/// A least-recently-used cache. Entries live in an arena of slots; `map`
/// gives the slot of each key, and the links of the slots form the list
/// from `head`, the most recently used entry, to `tail`.
pub struct LRUCache<K, V> {
    capacity: usize,
    map: HashMap<K, usize>,
    nodes: Vec<Node<K, V>>,
    head: Option<usize>,
    tail: Option<usize>,
    free_list: Vec<usize>,
    /// The slots of the list, from head to tail.
    order: Ghost<Seq<usize>>,
}

/// Whether some entry of `s` has key `k`.
pub open spec fn holds<K, V>(s: Seq<(K, V)>, k: K) -> bool {
    exists|i: int| 0 <= i < s.len() && (#[trigger] s[i]).0 == k
}

/// A position of `s` whose entry has key `k`.
pub open spec fn place<K, V>(s: Seq<(K, V)>, k: K) -> int {
    choose|i: int| 0 <= i < s.len() && (#[trigger] s[i]).0 == k
}

/// No key occurs twice in `s`.
pub open spec fn distinct_keys<K, V>(s: Seq<(K, V)>) -> bool {
    forall|i: int, j: int| 0 <= i < j < s.len() ==> (#[trigger] s[i]).0 != (#[trigger] s[j]).0
}

/// The value that a lookup of `k` finds in `s`.
pub open spec fn found<K, V>(s: Seq<(K, V)>, k: K) -> Option<V> {
    if holds(s, k) {
        Some(s[place(s, k)].1)
    } else {
        None
    }
}

/// The entries after a lookup of `k`: a hit moves to the front, a miss changes nothing.
pub open spec fn after_get<K, V>(s: Seq<(K, V)>, k: K) -> Seq<(K, V)> {
    if holds(s, k) {
        seq![s[place(s, k)]] + s.remove(place(s, k))
    } else {
        s
    }
}

/// The entries after `k` is put with value `v` into a cache of capacity `cap`:
/// the new entry stands at the front; an entry with the same key is replaced,
/// otherwise a full cache loses its last entry.
pub open spec fn after_put<K, V>(s: Seq<(K, V)>, cap: nat, k: K, v: V) -> Seq<(K, V)> {
    if holds(s, k) {
        seq![(k, v)] + s.remove(place(s, k))
    } else if s.len() >= cap {
        seq![(k, v)] + s.drop_last()
    } else {
        seq![(k, v)] + s
    }
}

/// What every reachable state satisfies: room for an entry, no more entries
/// than the capacity, no key twice.
pub open spec fn sound<K, V>(s: Seq<(K, V)>, cap: nat) -> bool {
    &&& cap >= 1
    &&& s.len() <= cap
    &&& distinct_keys(s)
}

/// The keys of `s`.
pub open spec fn keys<K, V>(s: Seq<(K, V)>) -> Set<K> {
    Set::new(|k: K| holds(s, k))
}

/// Where no key occurs twice, a lookup of the key at position `i` finds
/// that position and its value.
pub proof fn lemma_place<K, V>(s: Seq<(K, V)>, i: int)
    requires
        distinct_keys(s),
        0 <= i < s.len(),
    ensures
        holds(s, s[i].0),
        place(s, s[i].0) == i,
        found(s, s[i].0) == Some(s[i].1),
{
    let p = place(s, s[i].0);
    assert(s[p].0 == s[i].0);
    if p < i {
        assert(s[p].0 != s[i].0);
    }
    if i < p {
        assert(s[i].0 != s[p].0);
    }
}

/// Taking the entry at `pos` out leaves distinct keys: all but that one.
pub proof fn lemma_without<K, V>(s: Seq<(K, V)>, pos: int)
    requires
        distinct_keys(s),
        0 <= pos < s.len(),
    ensures
        distinct_keys(s.remove(pos)),
        forall|k: K| #[trigger] holds(s.remove(pos), k) <==> holds(s, k) && k != s[pos].0,
        forall|k: K| #[trigger]
            holds(s.remove(pos), k) ==> found(s.remove(pos), k) == found(s, k),
{
    let rest = s.remove(pos);
    assert forall|i: int, j: int| 0 <= i < j < rest.len() implies (#[trigger] rest[i]).0 != (
    #[trigger] rest[j]).0 by {
        let ki = if i < pos { i } else { i + 1 };
        let kj = if j < pos { j } else { j + 1 };
        assert(rest[i] == s[ki] && rest[j] == s[kj]);
    }
    assert forall|k: K| #[trigger] holds(rest, k) implies holds(s, k) && k != s[pos].0 && found(
        rest,
        k,
    ) == found(s, k) by {
        let i = place(rest, k);
        let ki = if i < pos { i } else { i + 1 };
        assert(rest[i] == s[ki]);
        lemma_place(s, ki);
        lemma_place(s, pos);
    }
    assert forall|k: K| holds(s, k) && k != s[pos].0 implies #[trigger] holds(rest, k) by {
        let j = place(s, k);
        let i = if j < pos { j } else { j - 1 };
        assert(rest[i] == s[j]);
    }
}

/// Putting a new key in front leaves distinct keys: the new one, found
/// with its value, and the earlier ones, found as before.
pub proof fn lemma_in_front<K, V>(s: Seq<(K, V)>, key: K, value: V)
    requires
        distinct_keys(s),
        !holds(s, key),
    ensures
        distinct_keys(seq![(key, value)] + s),
        found(seq![(key, value)] + s, key) == Some(value),
        forall|k: K| #[trigger] holds(seq![(key, value)] + s, k) <==> k == key || holds(s, k),
        forall|k: K| #[trigger] holds(s, k) ==> found(seq![(key, value)] + s, k) == found(s, k),
{
    let longer = seq![(key, value)] + s;
    assert forall|i: int, j: int| 0 <= i < j < longer.len() implies (#[trigger] longer[i]).0 != (
    #[trigger] longer[j]).0 by {
        assert(longer[j] == s[j - 1]);
        if i > 0 {
            assert(longer[i] == s[i - 1]);
        }
    }
    assert(longer[0] == (key, value));
    lemma_place(longer, 0);
    assert forall|k: K| #[trigger] holds(longer, k) implies k == key || holds(s, k) by {
        let i = place(longer, k);
        if i > 0 {
            assert(longer[i] == s[i - 1]);
        }
    }
    assert forall|k: K| #[trigger] holds(s, k) implies holds(longer, k) && found(longer, k)
        == found(s, k) by {
        let j = place(s, k);
        assert(longer[j + 1] == s[j]);
        lemma_place(longer, j + 1);
    }
}

/// A lookup keeps a sound state sound, with the same keys and values.
pub proof fn lemma_after_get<K, V>(s: Seq<(K, V)>, cap: nat, key: K)
    requires
        sound(s, cap),
    ensures
        sound(after_get(s, key), cap),
        after_get(s, key).len() == s.len(),
        forall|k: K| #[trigger] holds(after_get(s, key), k) <==> holds(s, k),
        forall|k: K| #[trigger] found(after_get(s, key), k) == found(s, k),
        holds(s, key) ==> after_get(s, key)[0] == (key, s[place(s, key)].1),
{
    if holds(s, key) {
        let pos = place(s, key);
        lemma_without(s, pos);
        lemma_in_front(s.remove(pos), key, s[pos].1);
        lemma_place(s, pos);
        assert(s[pos] == (key, s[pos].1));
        assert forall|k: K| #[trigger] found(after_get(s, key), k) == found(s, k) by {
            if k != key && holds(s, k) {
                assert(holds(s.remove(pos), k));
            }
        }
    }
}

/// A put keeps a sound state sound. Afterwards the key is found with the
/// value put, at the front; every other key found afterwards was there
/// before, with the same value; and the number of entries is as before
/// for a resident key or a full cache, and one more otherwise.
pub proof fn lemma_after_put<K, V>(s: Seq<(K, V)>, cap: nat, key: K, value: V)
    requires
        sound(s, cap),
    ensures
        sound(after_put(s, cap, key, value), cap),
        after_put(s, cap, key, value)[0] == (key, value),
        found(after_put(s, cap, key, value), key) == Some(value),
        forall|k: K|
            k != key && #[trigger] holds(after_put(s, cap, key, value), k) ==> holds(s, k) && found(
                after_put(s, cap, key, value),
                k,
            ) == found(s, k),
        after_put(s, cap, key, value).len() == if holds(s, key) || s.len() >= cap {
            s.len()
        } else {
            s.len() + 1
        },
        holds(s, key) || s.len() < cap ==> forall|k: K| #[trigger]
            holds(s, k) ==> holds(after_put(s, cap, key, value), k),
        !holds(s, key) && s.len() >= cap ==> !holds(after_put(s, cap, key, value), s.last().0)
            && forall|k: K| #[trigger]
            holds(s, k) && k != s.last().0 ==> holds(after_put(s, cap, key, value), k),
{
    if holds(s, key) {
        let pos = place(s, key);
        lemma_without(s, pos);
        lemma_in_front(s.remove(pos), key, value);
    } else if s.len() >= cap {
        let last = s.len() - 1;
        assert(s.drop_last() =~= s.remove(last));
        lemma_without(s, last);
        lemma_in_front(s.remove(last), key, value);
        lemma_place(s, last);
    } else {
        lemma_in_front(s, key, value);
    }
}

/// A sequence of distinct keys has as many keys as entries.
pub proof fn lemma_key_count<K, V>(s: Seq<(K, V)>)
    requires
        distinct_keys(s),
    ensures
        keys(s).finite(),
        keys(s).len() == s.len(),
    decreases s.len(),
{
    if s.len() == 0 {
        assert(keys(s) =~= Set::empty());
    } else {
        let last = s.len() - 1;
        let rest = s.remove(last);
        lemma_without(s, last);
        lemma_key_count(rest);
        lemma_place(s, last);
        assert(keys(s) =~= keys(rest).insert(s[last].0));
    }
}

impl<K, V> View for LRUCache<K, V> {
    type V = Seq<(K, V)>;

    /// The entries, most recently used first.
    open spec fn view(&self) -> Seq<(K, V)> {
        Seq::new(self.order().len(), |i: int| self.slots()[self.order()[i] as int])
    }
}

impl<K, V> LRUCache<K, V> {
    /// The greatest number of entries that the cache holds.
    pub closed spec fn cap(&self) -> nat {
        self.capacity as nat
    }

    /// The slots of the list, from head to tail.
    pub closed spec fn order(&self) -> Seq<usize> {
        self.order@
    }

    /// The key and value that each slot of the arena holds.
    pub closed spec fn slots(&self) -> Seq<(K, V)> {
        Seq::new(self.nodes@.len(), |i: int| (self.nodes@[i].key, self.nodes@[i].value))
    }

    /// The slot that the key index gives for each key.
    pub closed spec fn index(&self) -> Map<K, usize> {
        self.map@
    }

    /// The slots that wait for reuse.
    pub closed spec fn spare(&self) -> Seq<usize> {
        self.free_list@
    }

    /// The slot of the most recently used entry, if there is an entry.
    pub closed spec fn head_slot(&self) -> Option<usize> {
        self.head
    }

    /// The slot of the least recently used entry, if there is an entry.
    pub closed spec fn tail_slot(&self) -> Option<usize> {
        self.tail
    }

    /// The links, the head and the tail thread exactly the slots of `order`, in that order.
    pub closed spec fn linked(&self) -> bool {
        let order = self.order@;
        let last = order.len() - 1;
        &&& order.no_duplicates()
        &&& forall|i: int| 0 <= i < order.len() ==> (#[trigger] order[i]) < self.nodes@.len()
        &&& order.len() == 0 ==> self.head is None && self.tail is None
        &&& order.len() > 0 ==> {
            &&& self.head == Some(order[0])
            &&& self.tail == Some(order[last])
            &&& self.nodes@[order[0] as int].prev is None
            &&& self.nodes@[order[last] as int].next is None
        }
        &&& forall|i: int, j: int|
            0 <= i && j == i + 1 && j < order.len() ==> {
                &&& self.nodes@[(#[trigger] order[i]) as int].next == Some(#[trigger] order[j])
                &&& self.nodes@[order[j] as int].prev == Some(order[i])
            }
    }

    /// What a well-linked list is: its slots are slots of the arena, none
    /// occurs twice, head and tail are its ends, and there is neither
    /// exactly when it is empty.
    pub proof fn lemma_ends(&self)
        requires
            self.linked(),
        ensures
            self.order().no_duplicates(),
            forall|i: int| 0 <= i < self.order().len() ==> (#[trigger] self.order()[i])
                < self.slots().len(),
            self.head_slot() is None <==> self.order().len() == 0,
            self.tail_slot() is None <==> self.order().len() == 0,
            self.order().len() > 0 ==> self.head_slot() == Some(self.order()[0])
                && self.tail_slot() == Some(self.order().last()),
    {
    }

    /// `self` is `earlier` with `slot` moved to the head of the list; key
    /// index and spare slots are as they were.
    pub open spec fn promoted(&self, earlier: &Self, slot: usize) -> bool {
        &&& self.order() == seq![slot] + earlier.order().remove(earlier.order().index_of(slot))
        &&& self.index() == earlier.index()
        &&& self.spare() == earlier.spare()
    }

    /// `self` is the arena `slots` with list `order`, key index `index` and
    /// spare slots `spare` after a new entry went in: it took the spare slot
    /// freed last, or else the arena grew by a slot for it; the slot stands
    /// at the head of the list and under `key` in the index, and the other
    /// slots are as they were.
    pub open spec fn entered(
        &self,
        order: Seq<usize>,
        index: Map<K, usize>,
        spare: Seq<usize>,
        slots: Seq<(K, V)>,
        key: K,
        value: V,
    ) -> bool {
        let slot = next_slot(spare, slots.len());
        &&& self.order() == seq![slot] + order
        &&& self.index() == index.insert(key, slot)
        &&& if spare.len() > 0 {
            &&& self.spare() == spare.drop_last()
            &&& self.slots() == slots.update(slot as int, (key, value))
        } else {
            &&& self.spare() == spare
            &&& self.slots() == slots.push((key, value))
        }
    }

    /// All but the links is as in `earlier`: capacity, key index, spare slots,
    /// and the key and value of every slot.
    pub open spec fn relinked(&self, earlier: &Self) -> bool {
        &&& self.cap() == earlier.cap()
        &&& self.index() == earlier.index()
        &&& self.spare() == earlier.spare()
        &&& self.slots() == earlier.slots()
    }
}

impl<K: Clone + Hash + Eq, V> LRUCache<K, V> {
    /// The cache's invariant: a well-linked list of at most `cap` slots, each
    /// found under its key in the key index and nowhere else; the other
    /// slots of the arena are the spare ones, and the arena has no more than
    /// `cap` slots.
    pub closed spec fn wf(&self) -> bool {
        let order = self.order@;
        &&& key_model::<K>()
        &&& self.capacity >= 1
        &&& self.linked()
        &&& order.len() <= self.capacity
        &&& self.map@.len() == order.len()
        &&& self.nodes@.len() == order.len() + self.free_list@.len()
        &&& self.nodes@.len() <= self.capacity
        &&& forall|slot: usize| #[trigger]
            order.contains(slot) ==> self.map@.contains_key(self.nodes@[slot as int].key)
                && self.map@[self.nodes@[slot as int].key] == slot
        &&& forall|k: K| #[trigger]
            self.map@.contains_key(k) ==> order.contains(self.map@[k])
                && self.nodes@[self.map@[k] as int].key == k
        &&& self.free_list@.no_duplicates()
        &&& forall|j: int|
            0 <= j < self.free_list@.len() ==> (#[trigger] self.free_list@[j]) < self.nodes@.len()
                && !order.contains(self.free_list@[j])
    }

    /// What the invariant says of the view: it is as long as the key index
    /// is large, its keys are distinct, and it holds a key exactly where the
    /// key index does, at the position of the slot that the index gives.
    proof fn lemma_view(&self)
        requires
            self.wf(),
        ensures
            self@.len() == self.order@.len(),
            self@.len() == self.map@.len(),
            self@.len() <= self.capacity,
            distinct_keys(self@),
            forall|i: int|
                0 <= i < self@.len() ==> (#[trigger] self@[i]) == (
                    self.nodes@[self.order@[i] as int].key,
                    self.nodes@[self.order@[i] as int].value,
                ),
            forall|k: K| holds(self@, k) <==> #[trigger] self.map@.contains_key(k),
            forall|k: K| #[trigger]
                self.map@.contains_key(k) ==> 0 <= place(self@, k) < self@.len()
                    && self.order@[place(self@, k)] == self.map@[k],
    {
        let order = self.order@;
        let view = self@;
        assert forall|i: int| 0 <= i < view.len() implies self.map@.contains_key(
            (#[trigger] view[i]).0,
        ) && self.map@[view[i].0] == order[i] by {
            assert(order.contains(order[i]));
        }
        assert forall|k: K| #[trigger] self.map@.contains_key(k) implies holds(view, k) && 0
            <= place(view, k) < view.len() && order[place(view, k)] == self.map@[k] by {
            let slot = self.map@[k];
            assert(order.contains(slot));
            let i = order.index_of(slot);
            assert(view[i].0 == k);
            let p = place(view, k);
            assert(view[p].0 == k);
        }
        assert forall|k: K| holds(view, k) implies #[trigger] self.map@.contains_key(k) by {
            let p = place(view, k);
            assert(view[p].0 == k);
        }
    }

    /// A cache that meets its invariant is in a sound state, over a key type
    /// that meets the key model, and its arena has not grown past the
    /// capacity.
    pub proof fn lemma_sound(&self)
        requires
            self.wf(),
        ensures
            sound(self@, self.cap()),
            key_model::<K>(),
            self.slots().len() <= self.cap(),
    {
        self.lemma_view();
    }

    /// Under the invariant the list is well linked and as long as the key
    /// index is large; head and tail are the ends of the list, and there is
    /// neither exactly when the cache is empty. The key index leads every
    /// key to a slot of the list that holds this key; the spare slots are
    /// the slots of the arena that are not on the list.
    pub proof fn lemma_list(&self)
        requires
            self.wf(),
        ensures
            self.linked(),
            self.order().len() == self.index().len(),
            self.order().len() == self@.len(),
            self.head_slot() is None <==> self@.len() == 0,
            self.tail_slot() is None <==> self@.len() == 0,
            self@.len() > 0 ==> self.head_slot() == Some(self.order()[0]) && self.tail_slot()
                == Some(self.order().last()),
            forall|k: K| #[trigger]
                self.index().contains_key(k) ==> self.order().contains(self.index()[k])
                    && self.slots()[self.index()[k] as int].0 == k,
            forall|j: int|
                0 <= j < self.spare().len() ==> (#[trigger] self.spare()[j]) < self.slots().len()
                    && !self.order().contains(self.spare()[j]),
            self.spare().no_duplicates(),
            self.slots().len() == self.order().len() + self.spare().len(),
    {
        assert forall|k: K| #[trigger] self.index().contains_key(k) implies self.order().contains(
            self.index()[k],
        ) && self.slots()[self.index()[k] as int].0 == k by {
            let slot = self.map@[k];
            assert(self.order@.contains(slot));
            let i = self.order@.index_of(slot);
            assert(self.order@[i] < self.nodes@.len());
        }
    }

    /// An empty cache for at most `capacity` entries, with an empty arena.
    pub fn new(capacity: usize) -> (cache: Self)
        requires
            capacity > 0,
            key_model::<K>(),
        ensures
            cache.wf(),
            cache.cap() == capacity,
            cache@ == Seq::<(K, V)>::empty(),
            cache.slots() == Seq::<(K, V)>::empty(),
            cache.order() == Seq::<usize>::empty(),
            cache.spare() == Seq::<usize>::empty(),
            cache.index() == Map::<K, usize>::empty(),
    {
        let cache = LRUCache {
            capacity,
            map: HashMap::new(),
            nodes: Vec::new(),
            head: None,
            tail: None,
            free_list: Vec::new(),
            order: Ghost(Seq::empty()),
        };
        assert(cache@ =~= Seq::<(K, V)>::empty());
        assert(cache.slots() =~= Seq::<(K, V)>::empty());
        cache
    }

    /// The number of entries.
    pub fn len(&self) -> (n: usize)
        requires
            self.wf(),
        ensures
            n == self@.len(),
    {
        broadcast use group_hash_axioms;

        self.map.len()
    }

    /// Whether the cache holds no entry.
    pub fn is_empty(&self) -> (empty: bool)
        requires
            self.wf(),
        ensures
            empty == (self@.len() == 0),
    {
        broadcast use group_hash_axioms;

        self.map.len() == 0
    }

    /// Looks `key` up; a hit becomes the most recently used entry.
    pub fn get(&mut self, key: &K) -> (value: Option<&V>)
        requires
            old(self).wf(),
        ensures
            final(self).wf(),
            final(self).cap() == old(self).cap(),
            final(self)@ == after_get(old(self)@, *key),
            match value {
                Some(v) => found(old(self)@, *key) == Some(*v),
                None => found(old(self)@, *key) is None,
            },
            final(self).slots() == old(self).slots(),
            if old(self).index().contains_key(*key) {
                final(self).promoted(old(self), old(self).index()[*key])
            } else {
                &&& final(self).order() == old(self).order()
                &&& final(self).index() == old(self).index()
                &&& final(self).spare() == old(self).spare()
            },
    {
        broadcast use group_hash_axioms;

        proof {
            self.lemma_view();
        }
        let idx = match self.map.get(key) {
            Some(slot) => *slot,
            None => {
                assert(!self.map@.contains_key(*key));
                return None;
            },
        };
        let ghost order = self.order@;
        let ghost pos = place(self@, *key);
        proof {
            assert(self.map@.contains_key(*key));
            assert(order[pos] == idx);
            lemma_index_of(order, pos);
            lemma_remove(order, pos);
            lemma_push_front(order.remove(pos), idx);
        }
        self.move_to_front(idx);
        proof {
            self.lemma_reordered(old(self));
            assert(self.nodes@.len() == self.slots().len());
            assert(old(self).nodes@.len() == old(self).slots().len());
            assert forall|i: int| 0 <= i < self.nodes@.len() implies self.nodes@[i].key == old(
                self,
            ).nodes@[i].key && self.nodes@[i].value == old(self).nodes@[i].value by {
                assert(self.slots()[i] == old(self).slots()[i]);
            }
            assert(self@ =~= seq![old(self)@[pos]] + old(self)@.remove(pos));
        }
        Some(&self.nodes[idx].value)
    }

    /// Puts `value` under `key` as the most recently used entry. An entry
    /// with the same key is replaced; otherwise, when the cache is full, the
    /// least recently used entry is evicted first. The weight is not used.
    pub fn put(&mut self, key: K, value: V, _weight: u32)
        requires
            old(self).wf(),
        ensures
            final(self).wf(),
            final(self).cap() == old(self).cap(),
            final(self)@ == after_put(old(self)@, old(self).cap(), key, value),
            if old(self).index().contains_key(key) {
                &&& final(self).promoted(old(self), old(self).index()[key])
                &&& final(self).slots() == old(self).slots().update(
                    old(self).index()[key] as int,
                    (key, value),
                )
            } else if old(self).order().len() >= old(self).cap() {
                final(self).entered(
                    old(self).order().drop_last(),
                    old(self).index().remove(old(self).slots()[old(self).order().last() as int].0),
                    old(self).spare().push(old(self).order().last()),
                    old(self).slots(),
                    key,
                    value,
                )
            } else {
                final(self).entered(
                    old(self).order(),
                    old(self).index(),
                    old(self).spare(),
                    old(self).slots(),
                    key,
                    value,
                )
            },
    {
        broadcast use group_hash_axioms;

        proof {
            self.lemma_view();
        }
        let hit = match self.map.get(&key) {
            Some(slot) => Some(*slot),
            None => None,
        };
        if let Some(idx) = hit {
            self.replace_value(idx, key, value);
        } else {
            assert(!self.map@.contains_key(key));
            if self.map.len() >= self.capacity {
                self.remove_tail();
            }
            let ghost trimmed = *self;
            proof {
                trimmed.lemma_view();
                assert(!holds(trimmed@, key)) by {
                    if holds(trimmed@, key) {
                        let p = place(trimmed@, key);
                        assert(trimmed@[p].0 == key);
                        assert(old(self)@[p].0 == key);
                    }
                }
            }
            self.insert_front(key, value);
        }
    }

    /// Evicts the entry at the tail of the list, if there is one: its key
    /// leaves the key index, its slot leaves the list and joins the spare
    /// slots, and no slot changes its key or value.
    pub fn remove_tail(&mut self)
        requires
            old(self).wf(),
        ensures
            final(self).wf(),
            final(self).cap() == old(self).cap(),
            final(self)@ == if old(self)@.len() > 0 {
                old(self)@.drop_last()
            } else {
                old(self)@
            },
            final(self).slots() == old(self).slots(),
            old(self).order().len() > 0 ==> {
                &&& final(self).order() == old(self).order().drop_last()
                &&& final(self).spare() == old(self).spare().push(old(self).order().last())
                &&& final(self).index() == old(self).index().remove(
                    old(self).slots()[old(self).order().last() as int].0,
                )
            },
            old(self).order().len() == 0 ==> {
                &&& final(self).order() == old(self).order()
                &&& final(self).spare() == old(self).spare()
                &&& final(self).index() == old(self).index()
            },
    {
        broadcast use group_hash_axioms;

        if let Some(tail_idx) = self.tail {
            let ghost order = self.order@;
            let ghost last = order.len() - 1;
            proof {
                assert(order[last] == tail_idx);
                lemma_index_of(order, last);
                lemma_remove(order, last);
                assert(self.map@.contains_key(self.nodes@[tail_idx as int].key));
            }
            self.map.remove(&self.nodes[tail_idx].key);
            let ghost unindexed = *self;
            self.detach(tail_idx);
            let ghost detached = *self;
            self.free_list.push(tail_idx);
            proof {
                let shorter = order.remove(last);
                assert(shorter =~= order.drop_last());
                assert(self.order@ == shorter);
                assert(detached.slots() == old(self).slots());
                assert(self.nodes@.len() == detached.slots().len());
                assert(old(self).nodes@.len() == old(self).slots().len());
                assert forall|i: int| 0 <= i < self.nodes@.len() implies self.nodes@[i].key == old(
                    self,
                ).nodes@[i].key && self.nodes@[i].value == old(self).nodes@[i].value by {
                    assert(detached.slots()[i] == old(self).slots()[i]);
                }
                assert forall|slot: usize| #[trigger] shorter.contains(slot) implies self.map@.contains_key(
                    self.nodes@[slot as int].key,
                ) && self.map@[self.nodes@[slot as int].key] == slot by {
                    assert(order.contains(slot));
                    let i = order.index_of(slot);
                    assert(order[i] < old(self).nodes@.len());
                    assert(order.contains(tail_idx));
                }
                assert forall|k: K| #[trigger] self.map@.contains_key(k) implies shorter.contains(
                    self.map@[k],
                ) && self.nodes@[self.map@[k] as int].key == k by {
                    assert(old(self).map@.contains_key(k));
                    let slot = old(self).map@[k];
                    assert(order.contains(slot));
                    let i = order.index_of(slot);
                    assert(order[i] < old(self).nodes@.len());
                }
                assert forall|j: int| 0 <= j < self.free_list@.len() implies (
                #[trigger] self.free_list@[j]) < self.nodes@.len() && !shorter.contains(
                    self.free_list@[j],
                ) by {
                    if j < old(self).free_list@.len() {
                        assert(self.free_list@[j] == old(self).free_list@[j]);
                        assert(!order.contains(old(self).free_list@[j]));
                    }
                }
                assert(self.free_list@.no_duplicates()) by {
                    assert forall|a: int, b: int|
                        0 <= a < self.free_list@.len() && 0 <= b < self.free_list@.len() && a
                            != b implies self.free_list@[a] != self.free_list@[b] by {
                        if a < old(self).free_list@.len() {
                            assert(!order.contains(old(self).free_list@[a]));
                        }
                        if b < old(self).free_list@.len() {
                            assert(!order.contains(old(self).free_list@[b]));
                        }
                    }
                }
                assert(self.map@.len() == shorter.len());
                assert(self.wf());
                assert(self@ =~= old(self)@.drop_last());
            }
        } else {
            assert(self@ =~= old(self)@);
        }
    }

    /// Moves slot `idx` of the list to its head.
    pub fn move_to_front(&mut self, idx: usize)
        requires
            old(self).linked(),
            old(self).order().contains(idx),
        ensures
            final(self).linked(),
            final(self).relinked(old(self)),
            final(self).order() == seq![idx] + old(self).order().remove(
                old(self).order().index_of(idx),
            ),
    {
        let ghost order = self.order@;
        let ghost pos = order.index_of(idx);
        assert(order[pos] == idx);
        if self.head == Some(idx) {
            proof {
                assert(order[0] == idx);
                assert(order =~= seq![idx] + order.remove(0));
            }
            return ;
        }
        proof {
            lemma_remove(order, pos);
            assert(idx < self.nodes@.len());
        }
        self.detach(idx);
        self.add_to_front(idx);
    }

    /// Unlinks slot `idx` from the list.
    pub fn detach(&mut self, idx: usize)
        requires
            old(self).linked(),
            old(self).order().contains(idx),
        ensures
            final(self).linked(),
            final(self).relinked(old(self)),
            final(self).order() == old(self).order().remove(old(self).order().index_of(idx)),
    {
        let ghost order = self.order@;
        let ghost pos = order.index_of(idx);
        let ghost last = order.len() - 1;
        assert(order[pos] == idx);
        let prev = self.nodes[idx].prev;
        let next = self.nodes[idx].next;
        proof {
            if pos > 0 {
                assert(self.nodes@[order[pos - 1] as int].next == Some(order[pos]));
                assert(prev == Some(order[pos - 1]));
            } else {
                assert(prev is None);
            }
            if pos < last {
                assert(self.nodes@[order[pos] as int].next == Some(order[pos + 1]));
                assert(next == Some(order[pos + 1]));
            } else {
                assert(next is None);
            }
        }
        match prev {
            Some(p) => {
                self.nodes[p].next = next;
            },
            None => {
                self.head = next;
            },
        }
        match next {
            Some(n) => {
                self.nodes[n].prev = prev;
            },
            None => {
                self.tail = prev;
            },
        }
        self.order = Ghost(order.remove(pos));
        proof {
            let shorter = order.remove(pos);
            lemma_remove(order, pos);
            assert forall|i: int| 0 <= i < shorter.len() implies (#[trigger] shorter[i])
                < self.nodes@.len() by {
                let k = if i < pos { i } else { i + 1 };
                assert(shorter[i] == order[k]);
            }
            assert forall|i: int, j: int| 0 <= i && j == i + 1 && j < shorter.len() implies {
                &&& self.nodes@[(#[trigger] shorter[i]) as int].next == Some(#[trigger] shorter[j])
                &&& self.nodes@[shorter[j] as int].prev == Some(shorter[i])
            } by {
                let ki = if i < pos { i } else { i + 1 };
                let kj = if j < pos { j } else { j + 1 };
                assert(shorter[i] == order[ki] && shorter[j] == order[kj]);
                assert(order[ki] != order[kj]);
                assert(order[ki] != order[pos] && order[kj] != order[pos]);
                if kj == ki + 1 {
                    assert(old(self).nodes@[order[ki] as int].next == Some(order[kj]));
                    if ki > 0 {
                        assert(order[ki - 1] != order[kj]);
                    }
                    if kj < last {
                        assert(order[kj + 1] != order[ki]);
                    }
                } else {
                    assert(ki == pos - 1 && kj == pos + 1);
                }
            }
            if shorter.len() > 0 {
                let new_last = shorter.len() - 1;
                assert(shorter[0] == order[if pos == 0 { 1int } else { 0int }]);
                assert(shorter[new_last] == order[if pos == last { last - 1 } else { last }]);
                if pos != 0 {
                    assert(order[0] != order[pos]);
                    if pos < last {
                        assert(order[pos + 1] != order[0]);
                    }
                }
                if pos != last {
                    assert(order[last] != order[pos]);
                    if pos > 0 {
                        assert(order[pos - 1] != order[last]);
                    }
                }
            }
            assert(self.slots() =~= old(self).slots());
        }
    }

    /// Links slot `idx`, which is outside the list, in front of the head.
    pub fn add_to_front(&mut self, idx: usize)
        requires
            old(self).linked(),
            idx < old(self).slots().len(),
            !old(self).order().contains(idx),
        ensures
            final(self).linked(),
            final(self).relinked(old(self)),
            final(self).order() == seq![idx] + old(self).order(),
    {
        let ghost order = self.order@;
        self.nodes[idx].prev = None;
        self.nodes[idx].next = self.head;
        if let Some(old_head) = self.head {
            assert(old_head == order[0]);
            self.nodes[old_head].prev = Some(idx);
        }
        self.head = Some(idx);
        if self.tail.is_none() {
            self.tail = Some(idx);
        }
        self.order = Ghost(seq![idx] + order);
        proof {
            let longer = seq![idx] + order;
            lemma_push_front(order, idx);
            assert forall|i: int| 0 <= i < longer.len() implies (#[trigger] longer[i])
                < self.nodes@.len() by {
                if i > 0 {
                    assert(longer[i] == order[i - 1]);
                }
            }
            assert forall|i: int, j: int| 0 <= i && j == i + 1 && j < longer.len() implies {
                &&& self.nodes@[(#[trigger] longer[i]) as int].next == Some(#[trigger] longer[j])
                &&& self.nodes@[longer[j] as int].prev == Some(longer[i])
            } by {
                assert(longer[j] == order[j - 1]);
                assert(order.contains(order[j - 1]));
                if i > 0 {
                    assert(longer[i] == order[i - 1]);
                    assert(order.contains(order[i - 1]));
                    assert(old(self).nodes@[order[i - 1] as int].next == Some(order[j - 1]));
                    assert(order[j - 1] != order[0]);
                }
            }
            if order.len() > 0 {
                let last = order.len() - 1;
                assert(longer[last + 1] == order[last]);
                assert(order.contains(order[last]));
                if last > 0 {
                    assert(order[last] != order[0]);
                }
            }
            assert(self.slots() =~= old(self).slots());
        }
    }

    /// Gives the entry in slot `idx`, whose key is `key`, the value `value`
    /// and moves it to the head of the list.
    fn replace_value(&mut self, idx: usize, key: K, value: V)
        requires
            old(self).wf(),
            old(self).map@.contains_key(key),
            old(self).map@[key] == idx,
        ensures
            final(self).wf(),
            final(self).cap() == old(self).cap(),
            final(self)@ == seq![(key, value)] + old(self)@.remove(place(old(self)@, key)),
            final(self).promoted(old(self), idx),
            final(self).slots() == old(self).slots().update(idx as int, (key, value)),
    {
        let ghost order = self.order@;
        let ghost pos = place(self@, key);
        proof {
            self.lemma_view();
            assert(order[pos] == idx);
            lemma_index_of(order, pos);
            lemma_remove(order, pos);
            lemma_push_front(order.remove(pos), idx);
        }
        self.nodes[idx].value = value;
        let ghost valued = *self;
        proof {
            assert(valued.linked());
            assert(valued.wf());
        }
        self.move_to_front(idx);
        proof {
            self.lemma_reordered(&valued);
            assert(self.nodes@.len() == self.slots().len());
            assert forall|i: int| 0 <= i < self.nodes@.len() implies self.nodes@[i].key
                == valued.nodes@[i].key && self.nodes@[i].value == valued.nodes@[i].value by {
                assert(self.slots()[i] == valued.slots()[i]);
            }
            assert(self@ =~= seq![(key, value)] + old(self)@.remove(pos));
            assert(old(self).nodes@[idx as int].key == key);
            assert(valued.slots() =~= old(self).slots().update(idx as int, (key, value)));
        }
    }

    /// Takes a slot for a new entry of a cache that is not full and does not
    /// hold `key`, and links it at the head of the list. The entry takes the
    /// spare slot freed last if there is a spare one, else a slot by which
    /// the arena grows; the other slots keep their keys and values.
    fn insert_front(&mut self, key: K, value: V)
        requires
            old(self).wf(),
            !old(self).map@.contains_key(key),
            old(self).order@.len() < old(self).capacity,
        ensures
            final(self).wf(),
            final(self).cap() == old(self).cap(),
            final(self)@ == seq![(key, value)] + old(self)@,
            final(self).entered(
                old(self).order(),
                old(self).index(),
                old(self).spare(),
                old(self).slots(),
                key,
                value,
            ),
    {
        broadcast use group_hash_axioms;

        let ghost order = self.order@;
        let node_key = key.clone();
        assert(cloned::<K>(key, node_key));
        let node = Node { key: node_key, value, prev: None, next: None };
        let idx = if let Some(free_idx) = self.free_list.pop() {
            assert(free_idx == old(self).free_list@[old(self).free_list@.len() - 1]);
            self.nodes[free_idx] = node;
            free_idx
        } else {
            self.nodes.push(node);
            self.nodes.len() - 1
        };
        proof {
            assert(!order.contains(idx)) by {
                if order.contains(idx) {
                    let i = order.index_of(idx);
                    assert(order[i] < old(self).nodes@.len());
                }
            }
            assert forall|i: int| 0 <= i < order.len() implies self.nodes@[(
            #[trigger] order[i]) as int] == old(self).nodes@[order[i] as int] by {
                assert(order.contains(order[i]));
            }
            assert(self.linked());
            lemma_push_front(order, idx);
        }
        self.map.insert(key, idx);
        let ghost indexed = *self;
        assert(indexed.linked());
        assert(indexed.nodes@.len() == indexed.slots().len());
        self.add_to_front(idx);
        proof {
            let longer = self.order@;
            assert(self.nodes@.len() == self.slots().len());
            assert forall|i: int| 0 <= i < self.nodes@.len() implies self.nodes@[i].key
                == indexed.nodes@[i].key && self.nodes@[i].value == indexed.nodes@[i].value by {
                assert(self.slots()[i] == indexed.slots()[i]);
            }
            assert forall|slot: usize| #[trigger] longer.contains(slot) implies self.map@.contains_key(
                self.nodes@[slot as int].key,
            ) && self.map@[self.nodes@[slot as int].key] == slot by {
                if slot != idx {
                    assert(order.contains(slot));
                    let i = order.index_of(slot);
                    assert(indexed.nodes@[order[i] as int] == old(self).nodes@[order[i] as int]);
                    assert(self.nodes@[slot as int].key == old(self).nodes@[slot as int].key);
                    assert(old(self).map@.contains_key(old(self).nodes@[slot as int].key));
                } else {
                    assert(indexed.nodes@[idx as int].key == key);
                    assert(self.nodes@[idx as int].key == key);
                    assert(self.map@.contains_key(key));
                }
            }
            assert forall|k: K| #[trigger] self.map@.contains_key(k) implies longer.contains(
                self.map@[k],
            ) && self.nodes@[self.map@[k] as int].key == k by {
                if k != key {
                    let slot = old(self).map@[k];
                    assert(order.contains(slot));
                    let i = order.index_of(slot);
                    assert(indexed.nodes@[order[i] as int] == old(self).nodes@[order[i] as int]);
                }
            }
            assert forall|j: int| 0 <= j < self.free_list@.len() implies (
            #[trigger] self.free_list@[j]) < self.nodes@.len() && !longer.contains(
                self.free_list@[j],
            ) by {
                assert(self.free_list@[j] == old(self).free_list@[j]);
                assert(!order.contains(old(self).free_list@[j]));
            }
            assert(self.free_list@.no_duplicates());
            assert(self.map@.len() == longer.len());
            assert(self.wf());
            old(self).lemma_view();
            assert forall|i: int| 0 <= i < order.len() implies self.nodes@[(
            #[trigger] order[i]) as int].value == old(self).nodes@[order[i] as int].value by {
                assert(indexed.nodes@[order[i] as int] == old(self).nodes@[order[i] as int]);
            }
            assert(self@ =~= seq![(key, value)] + old(self)@);
            assert forall|s: int| 0 <= s < old(self).nodes@.len() && s != idx implies {
                &&& (#[trigger] self.nodes@[s]).key == old(self).nodes@[s].key
                &&& self.nodes@[s].value == old(self).nodes@[s].value
            } by {
                assert(indexed.nodes@[s] == old(self).nodes@[s]);
            }
            assert(idx == next_slot(old(self).spare(), old(self).slots().len()));
            if old(self).free_list@.len() > 0 {
                assert(self.slots() =~= old(self).slots().update(idx as int, (key, value)));
            } else {
                assert(self.slots() =~= old(self).slots().push((key, value)));
            }
        }
    }

    /// The invariant survives any change of the list's order that keeps its
    /// members, where all but the links stays as it was.
    proof fn lemma_reordered(&self, earlier: &Self)
        requires
            earlier.wf(),
            self.linked(),
            self.relinked(earlier),
            self.order@.len() == earlier.order@.len(),
            forall|slot: usize| self.order@.contains(slot) <==> earlier.order@.contains(slot),
        ensures
            self.wf(),
    {
        assert(self.nodes@.len() == self.slots().len());
        assert(earlier.nodes@.len() == earlier.slots().len());
        assert forall|i: int| 0 <= i < self.nodes@.len() implies self.nodes@[i].key
            == earlier.nodes@[i].key by {
            assert(self.slots()[i] == earlier.slots()[i]);
        }
        assert forall|slot: usize| #[trigger] self.order@.contains(slot) implies self.map@.contains_key(
            self.nodes@[slot as int].key,
        ) && self.map@[self.nodes@[slot as int].key] == slot by {
            assert(earlier.order@.contains(slot));
            let i = earlier.order@.index_of(slot);
            assert(earlier.order@[i] < earlier.nodes@.len());
        }
        assert forall|k: K| #[trigger] self.map@.contains_key(k) implies self.order@.contains(
            self.map@[k],
        ) && self.nodes@[self.map@[k] as int].key == k by {
            assert(earlier.map@.contains_key(k));
            let slot = earlier.map@[k];
            assert(earlier.order@.contains(slot));
            let i = earlier.order@.index_of(slot);
            assert(earlier.order@[i] < earlier.nodes@.len());
        }
    }
}

} // verus!
