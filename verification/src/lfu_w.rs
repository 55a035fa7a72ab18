//! Weighted least-frequently-used cache. Every entry has the priority
//! `freq * weight`; entries of equal priority form a bucket, an intrusive
//! doubly-linked list with the entry touched last at its head. A queue of
//! the resident slots gives the least priority in use, and eviction takes
//! the tail of that priority's bucket.
//!
//! Priorities are 128-bit, wide enough for every product of a `usize`
//! frequency and a `u32` weight. A frequency stops growing at `usize::MAX`.

use crate::keys::key_model;
use crate::queue::{
    least, queue_change_priority, queue_entries, queue_new, queue_peek, queue_push, queue_remove,
    SlotQueue,
};
use crate::seqs::{lemma_distinct_below, lemma_push_front, lemma_remove, next_slot};
use std::collections::HashMap;
use std::hash::Hash;
use vstd::prelude::*;
use vstd::std_specs::hash::*;

verus! {

struct Node<K, V> {
    key: K,
    value: V,
    freq: usize,
    weight: u32,
    prev: Option<usize>,
    next: Option<usize>,
}

/// Head, tail and length of one priority's bucket.
#[derive(Clone, Copy)]
pub struct PriorityList {
    head: Option<usize>,
    tail: Option<usize>,
    size: usize,
}

impl View for PriorityList {
    type V = (Option<usize>, Option<usize>, nat);

    /// Head, tail and length.
    closed spec fn view(&self) -> (Option<usize>, Option<usize>, nat) {
        (self.head, self.tail, self.size as nat)
    }
}

impl PriorityList {
    /// The empty bucket.
    pub fn new() -> (list: Self)
        ensures
            list@ == (None::<usize>, None::<usize>, 0nat),
    {
        PriorityList { head: None, tail: None, size: 0 }
    }
}

/// A weighted least-frequently-used cache. Entries live in an arena of
/// slots; `key_to_idx` gives the slot of each key, `priority_to_list` the
/// bucket of each priority in use, and `min_priority_queue` queues the
/// resident slots by priority.
pub struct LFUCache<K, V> {
    capacity: usize,
    nodes: Vec<Node<K, V>>,
    min_priority_queue: SlotQueue,
    key_to_idx: HashMap<K, usize>,
    priority_to_list: HashMap<u128, PriorityList>,
    free_list: Vec<usize>,
    /// The slots of each bucket, from head to tail.
    buckets: Ghost<Map<u128, Seq<usize>>>,
    /// For each slot, the tick at which its entry was touched last.
    stamps: Ghost<Seq<nat>>,
    /// The number of touches so far.
    clock: Ghost<nat>,
}

/// A resident entry: value, weight, access count, and the tick of its last touch.
pub struct LfuEntry<V> {
    pub value: V,
    pub weight: u32,
    pub freq: nat,
    pub touched: nat,
}

/// The state of a weighted LFU cache. Every put and every hit is a touch
/// and advances the clock by one tick.
#[verifier::reject_recursive_types(K)]
pub struct LfuView<K, V> {
    pub capacity: nat,
    pub clock: nat,
    pub entries: Map<K, LfuEntry<V>>,
}

/// The priority of an entry: access count times weight.
pub open spec fn rank<V>(e: LfuEntry<V>) -> int {
    e.freq * e.weight
}

/// The priority of the entry in a slot.
spec fn slot_rank<K, V>(node: Node<K, V>) -> int {
    node.freq * node.weight
}

/// The list `order` of priority `p` is threaded through `nodes` from
/// `list`'s head to its tail, and was touched in order from tail to head.
#[verifier::opaque]
spec fn chained<K, V>(
    nodes: Seq<Node<K, V>>,
    stamps: Seq<nat>,
    order: Seq<usize>,
    list: PriorityList,
    p: u128,
) -> bool {
    let last = order.len() - 1;
    &&& order.len() > 0
    &&& order.no_duplicates()
    &&& forall|i: int|
        0 <= i < order.len() ==> (#[trigger] order[i]) < nodes.len() && slot_rank(
            nodes[order[i] as int],
        ) == p
    &&& list.head == Some(order[0])
    &&& list.tail == Some(order[last])
    &&& list.size == order.len()
    &&& nodes[order[0] as int].prev is None
    &&& nodes[order[last] as int].next is None
    &&& forall|i: int, j: int|
        0 <= i && j == i + 1 && j < order.len() ==> {
            &&& nodes[(#[trigger] order[i]) as int].next == Some(#[trigger] order[j])
            &&& nodes[order[j] as int].prev == Some(order[i])
        }
    &&& forall|i: int, j: int|
        0 <= i < j < order.len() ==> stamps[(#[trigger] order[i]) as int] > stamps[(
        #[trigger] order[j]) as int]
}

/// A chained list stays chained when the slots on it keep their links,
/// counts, weights and stamps.
proof fn lemma_chained_frame<K, V>(
    nodes: Seq<Node<K, V>>,
    stamps: Seq<nat>,
    nodes2: Seq<Node<K, V>>,
    stamps2: Seq<nat>,
    order: Seq<usize>,
    list: PriorityList,
    p: u128,
)
    requires
        chained(nodes, stamps, order, list, p),
        nodes2.len() >= nodes.len(),
        forall|i: int|
            0 <= i < order.len() ==> {
                &&& nodes2[(#[trigger] order[i]) as int].prev == nodes[order[i] as int].prev
                &&& nodes2[order[i] as int].next == nodes[order[i] as int].next
                &&& nodes2[order[i] as int].freq == nodes[order[i] as int].freq
                &&& nodes2[order[i] as int].weight == nodes[order[i] as int].weight
                &&& stamps2[order[i] as int] == stamps[order[i] as int]
            },
    ensures
        chained(nodes2, stamps2, order, list, p),
{
    reveal(chained);
    let last = order.len() - 1;
    assert(nodes2[order[0] as int].prev == nodes[order[0] as int].prev);
    assert(nodes2[order[last] as int].next == nodes[order[last] as int].next);
}

/// The product of an access count and a weight.
fn priority_of(freq: usize, weight: u32) -> (p: u128)
    ensures
        p == freq * weight,
{
    assert(freq * weight <= 0xffff_ffff_ffff_ffff * 0xffff_ffff) by (nonlinear_arith)
        requires
            freq <= 0xffff_ffff_ffff_ffff,
            weight <= 0xffff_ffff,
    ;
    (freq as u128) * (weight as u128)
}

/// Whether `a` is evicted before `b`: by lower priority, and among equal
/// priorities by the earlier last touch.
pub open spec fn precedes<V>(a: LfuEntry<V>, b: LfuEntry<V>) -> bool {
    rank(a) < rank(b) || (rank(a) == rank(b) && a.touched <= b.touched)
}

/// Whether `key` is the entry of `entries` that is evicted first.
pub open spec fn is_victim<K, V>(entries: Map<K, LfuEntry<V>>, key: K) -> bool {
    &&& entries.contains_key(key)
    &&& forall|other: K| #[trigger]
        entries.contains_key(other) ==> precedes(entries[key], entries[other])
}

/// The key that is evicted first.
pub open spec fn victim<K, V>(entries: Map<K, LfuEntry<V>>) -> K {
    choose|key: K| is_victim(entries, key)
}

/// No two entries were touched at the same tick, and none at or after `clock`.
pub open spec fn well_stamped<K, V>(state: LfuView<K, V>) -> bool {
    &&& forall|a: K, b: K|
        #![trigger state.entries[a], state.entries[b]]
        state.entries.contains_key(a) && state.entries.contains_key(b) && a != b
            ==> state.entries[a].touched != state.entries[b].touched
    &&& forall|a: K| #[trigger]
        state.entries.contains_key(a) ==> state.entries[a].touched < state.clock
}

/// What every reachable state satisfies: room for an entry, finitely many
/// entries and no more than the capacity, each accessed at least once, no
/// two touched at the same tick.
pub open spec fn sound<K, V>(state: LfuView<K, V>) -> bool {
    &&& state.capacity >= 1
    &&& state.entries.dom().finite()
    &&& state.entries.len() <= state.capacity
    &&& well_stamped(state)
    &&& forall|k: K| #[trigger] state.entries.contains_key(k) ==> state.entries[k].freq >= 1
}

/// An entry after one more access at tick `tick`.
pub open spec fn bumped<V>(e: LfuEntry<V>, tick: nat) -> LfuEntry<V> {
    LfuEntry {
        freq: if e.freq < usize::MAX {
            e.freq + 1
        } else {
            e.freq
        },
        touched: tick,
        ..e
    }
}

/// The state after the resident key `key` was accessed.
pub open spec fn touch<K, V>(state: LfuView<K, V>, key: K) -> LfuView<K, V> {
    LfuView {
        clock: state.clock + 1,
        entries: state.entries.insert(key, bumped(state.entries[key], state.clock)),
        ..state
    }
}

/// The state after a lookup of `key`: a hit is an access, a miss changes nothing.
pub open spec fn after_get<K, V>(state: LfuView<K, V>, key: K) -> LfuView<K, V> {
    if state.entries.contains_key(key) {
        touch(state, key)
    } else {
        state
    }
}

/// The state after one eviction: the victim has left; an empty cache is unchanged.
pub open spec fn after_eviction<K, V>(state: LfuView<K, V>) -> LfuView<K, V> {
    if state.entries.len() == 0 {
        state
    } else {
        LfuView { entries: state.entries.remove(victim(state.entries)), ..state }
    }
}

/// The state after `key` was put with `value` and `weight`. For a resident
/// key the value is replaced and the put counts as an access; its weight
/// stays. A new key enters with access count 1, after one eviction if the
/// cache was full.
pub open spec fn after_put<K, V>(state: LfuView<K, V>, key: K, value: V, weight: u32) -> LfuView<
    K,
    V,
> {
    if state.entries.contains_key(key) {
        touch(
            LfuView {
                entries: state.entries.insert(key, LfuEntry { value, ..state.entries[key] }),
                ..state
            },
            key,
        )
    } else {
        let room = if state.entries.len() >= state.capacity {
            after_eviction(state)
        } else {
            state
        };
        LfuView {
            clock: room.clock + 1,
            entries: room.entries.insert(
                key,
                LfuEntry { value, weight, freq: 1, touched: room.clock },
            ),
            ..room
        }
    }
}

/// A finite map with an entry has a victim.
pub proof fn lemma_victim_exists<K, V>(entries: Map<K, LfuEntry<V>>)
    requires
        entries.dom().finite(),
        entries.len() > 0,
    ensures
        is_victim(entries, victim(entries)),
    decreases entries.len(),
{
    let one = entries.dom().choose();
    let rest = entries.remove(one);
    if rest.len() == 0 {
        assert forall|other: K| #[trigger] entries.contains_key(other) implies other == one by {
            if other != one {
                assert(rest.contains_key(other));
                assert(rest.dom().len() > 0) by {
                    vstd::set_lib::lemma_set_empty_equivalency_len(rest.dom());
                }
            }
        }
        assert(is_victim(entries, one));
    } else {
        lemma_victim_exists(rest);
        let best = victim(rest);
        assert(rest.contains_key(best));
        if precedes(entries[one], entries[best]) {
            assert forall|other: K| #[trigger] entries.contains_key(other) implies precedes(
                entries[one],
                entries[other],
            ) by {
                if other != one {
                    assert(rest.contains_key(other));
                    assert(precedes(rest[best], rest[other]));
                }
            }
            assert(is_victim(entries, one));
        } else {
            assert forall|other: K| #[trigger] entries.contains_key(other) implies precedes(
                entries[best],
                entries[other],
            ) by {
                if other != one {
                    assert(rest.contains_key(other));
                    assert(precedes(rest[best], rest[other]));
                }
            }
            assert(is_victim(entries, best));
        }
    }
}

/// Among well-stamped entries only one key can be the victim.
pub proof fn lemma_one_victim<K, V>(state: LfuView<K, V>, a: K, b: K)
    requires
        well_stamped(state),
        is_victim(state.entries, a),
        is_victim(state.entries, b),
    ensures
        a == b,
        victim(state.entries) == a,
{
    assert(precedes(state.entries[a], state.entries[b]));
    assert(precedes(state.entries[b], state.entries[a]));
    let chosen = victim(state.entries);
    assert(is_victim(state.entries, chosen));
    assert(precedes(state.entries[a], state.entries[chosen]));
    assert(precedes(state.entries[chosen], state.entries[a]));
}

/// A lookup keeps a sound state sound and changes neither the keys nor
/// the values. A hit counts one access more for its key, up to the
/// greatest count, and leaves the other counts alone; a miss changes nothing.
pub proof fn lemma_after_get<K, V>(state: LfuView<K, V>, key: K)
    requires
        sound(state),
    ensures
        sound(after_get(state, key)),
        after_get(state, key).capacity == state.capacity,
        after_get(state, key).entries.dom() == state.entries.dom(),
        forall|k: K| #[trigger]
            state.entries.contains_key(k) ==> after_get(state, key).entries[k].value
                == state.entries[k].value,
        forall|k: K|
            k != key && #[trigger] state.entries.contains_key(k) ==> after_get(
                state,
                key,
            ).entries[k] == state.entries[k],
        state.entries.contains_key(key) && state.entries[key].freq < usize::MAX ==> after_get(
            state,
            key,
        ).entries[key].freq == state.entries[key].freq + 1,
        !state.entries.contains_key(key) ==> after_get(state, key) == state,
{
    let post = after_get(state, key);
    if state.entries.contains_key(key) {
        assert(post.entries.dom() =~= state.entries.dom());
        assert forall|a: K, b: K|
            #![trigger post.entries[a], post.entries[b]]
            post.entries.contains_key(a) && post.entries.contains_key(b) && a
                != b implies post.entries[a].touched != post.entries[b].touched by {
            assert(state.entries.contains_key(a) && state.entries.contains_key(b));
        }
    }
}

/// An eviction keeps a sound state sound. From a cache with entries it
/// takes the victim and nothing else.
pub proof fn lemma_after_eviction<K, V>(state: LfuView<K, V>)
    requires
        sound(state),
    ensures
        sound(after_eviction(state)),
        state.entries.len() > 0 ==> {
            &&& is_victim(state.entries, victim(state.entries))
            &&& after_eviction(state).entries == state.entries.remove(victim(state.entries))
            &&& after_eviction(state).entries.len() == state.entries.len() - 1
        },
{
    if state.entries.len() > 0 {
        lemma_victim_exists(state.entries);
    }
}

/// A put keeps a sound state sound. Afterwards the key is resident with
/// the value put; a key that was resident has one access more, up to the
/// greatest count, and its weight as before; a new key has access count 1
/// and the weight put. Every other resident key was resident before and is
/// unchanged. The number of entries is as before for a resident key or a
/// full cache, and one more otherwise.
pub proof fn lemma_after_put<K, V>(state: LfuView<K, V>, key: K, value: V, weight: u32)
    requires
        sound(state),
    ensures
        sound(after_put(state, key, value, weight)),
        after_put(state, key, value, weight).capacity == state.capacity,
        after_put(state, key, value, weight).entries.contains_key(key),
        after_put(state, key, value, weight).entries[key].value == value,
        state.entries.contains_key(key) ==> {
            &&& after_put(state, key, value, weight).entries[key].weight
                == state.entries[key].weight
            &&& state.entries[key].freq < usize::MAX ==> after_put(
                state,
                key,
                value,
                weight,
            ).entries[key].freq == state.entries[key].freq + 1
        },
        !state.entries.contains_key(key) ==> {
            &&& after_put(state, key, value, weight).entries[key].weight == weight
            &&& after_put(state, key, value, weight).entries[key].freq == 1
        },
        forall|k: K|
            k != key && #[trigger] after_put(state, key, value, weight).entries.contains_key(k)
                ==> state.entries.contains_key(k) && after_put(state, key, value, weight).entries[k]
                == state.entries[k],
        after_put(state, key, value, weight).entries.len() == if state.entries.contains_key(key)
            || state.entries.len() >= state.capacity {
            state.entries.len()
        } else {
            state.entries.len() + 1
        },
        state.entries.contains_key(key) || state.entries.len() < state.capacity ==> forall|k: K| #[trigger]
            state.entries.contains_key(k) ==> after_put(state, key, value, weight).entries.contains_key(k),
        !state.entries.contains_key(key) && state.entries.len() >= state.capacity ==> {
            &&& is_victim(state.entries, victim(state.entries))
            &&& !after_put(state, key, value, weight).entries.contains_key(victim(state.entries))
            &&& forall|k: K| #[trigger]
                state.entries.contains_key(k) && k != victim(state.entries) ==> after_put(
                    state,
                    key,
                    value,
                    weight,
                ).entries.contains_key(k)
        },
{
    let post = after_put(state, key, value, weight);
    if state.entries.contains_key(key) {
        assert(post.entries.dom() =~= state.entries.dom());
        assert forall|a: K, b: K|
            #![trigger post.entries[a], post.entries[b]]
            post.entries.contains_key(a) && post.entries.contains_key(b) && a
                != b implies post.entries[a].touched != post.entries[b].touched by {
            assert(state.entries.contains_key(a) && state.entries.contains_key(b));
        }
    } else {
        lemma_after_eviction(state);
        let room = if state.entries.len() >= state.capacity {
            after_eviction(state)
        } else {
            state
        };
        assert(sound(room));
        assert(room.entries.len() < room.capacity);
        assert(!room.entries.contains_key(key));
        assert forall|a: K, b: K|
            #![trigger post.entries[a], post.entries[b]]
            post.entries.contains_key(a) && post.entries.contains_key(b) && a
                != b implies post.entries[a].touched != post.entries[b].touched by {
            if a != key {
                assert(room.entries.contains_key(a));
                assert(state.entries.contains_key(a));
            }
            if b != key {
                assert(room.entries.contains_key(b));
                assert(state.entries.contains_key(b));
            }
        }
        assert forall|k: K| #[trigger] post.entries.contains_key(k) implies post.entries[k].touched
            < post.clock && post.entries[k].freq >= 1 by {
            if k != key {
                assert(room.entries.contains_key(k));
                assert(state.entries.contains_key(k));
            }
        }
    }
}

/// Of two resident entries of equal priority, the one touched later is
/// not the victim: the other leaves first.
pub proof fn lemma_tie_break<K, V>(state: LfuView<K, V>, first: K, second: K)
    requires
        sound(state),
        state.entries.contains_key(first),
        state.entries.contains_key(second),
        rank(state.entries[first]) == rank(state.entries[second]),
        state.entries[first].touched < state.entries[second].touched,
    ensures
        victim(state.entries) != second,
        after_eviction(state).entries.contains_key(second),
{
    lemma_victim_exists(state.entries);
    let gone = victim(state.entries);
    assert(precedes(state.entries[gone], state.entries[first]));
}

/// The buckets `lists` once `slot` has left the bucket of `from`; a bucket
/// that would be empty is dropped.
pub open spec fn unlisted_from(lists: Map<u128, Seq<usize>>, slot: usize, from: u128) -> Map<
    u128,
    Seq<usize>,
> {
    if lists[from].len() == 1 {
        lists.remove(from)
    } else {
        lists.insert(from, lists[from].remove(lists[from].index_of(slot)))
    }
}

/// The buckets `lists` once `slot` stands at the head of the bucket of `to`.
pub open spec fn listed_at(lists: Map<u128, Seq<usize>>, slot: usize, to: u128) -> Map<
    u128,
    Seq<usize>,
> {
    lists.insert(
        to,
        seq![slot] + if lists.contains_key(to) {
            lists[to]
        } else {
            Seq::empty()
        },
    )
}

impl<K, V> View for LFUCache<K, V> {
    type V = LfuView<K, V>;

    closed spec fn view(&self) -> LfuView<K, V> {
        LfuView {
            capacity: self.capacity as nat,
            clock: self.clock@,
            entries: Map::new(
                |k: K| self.key_to_idx@.contains_key(k),
                |k: K|
                    LfuEntry {
                        value: self.nodes@[self.key_to_idx@[k] as int].value,
                        weight: self.nodes@[self.key_to_idx@[k] as int].weight,
                        freq: self.nodes@[self.key_to_idx@[k] as int].freq as nat,
                        touched: self.stamps@[self.key_to_idx@[k] as int],
                    },
            ),
        }
    }
}

impl<K, V> LFUCache<K, V> {
    /// The buckets are exactly the chained lists that `buckets` records.
    spec fn bucketed(&self) -> bool {
        &&& self.stamps@.len() == self.nodes@.len()
        &&& forall|p: u128|
            #![trigger self.buckets@.contains_key(p)]
            #![trigger self.priority_to_list@.contains_key(p)]
            self.buckets@.contains_key(p) <==> self.priority_to_list@.contains_key(p)
        &&& forall|p: u128| #[trigger]
            self.buckets@.contains_key(p) ==> chained(
                self.nodes@,
                self.stamps@,
                self.buckets@[p],
                self.priority_to_list@[p],
                p,
            )
    }

    /// Slot `idx` stands on no bucket.
    spec fn unlisted(&self, idx: usize) -> bool {
        forall|p: u128| #[trigger] self.buckets@.contains_key(p) ==> !self.buckets@[p].contains(idx)
    }

    /// All but the links and the buckets is as in `earlier`.
    spec fn rebucketed(&self, earlier: &Self) -> bool {
        &&& self.capacity == earlier.capacity
        &&& self.min_priority_queue == earlier.min_priority_queue
        &&& self.key_to_idx == earlier.key_to_idx
        &&& self.free_list == earlier.free_list
        &&& self.stamps == earlier.stamps
        &&& self.clock == earlier.clock
        &&& self.nodes@.len() == earlier.nodes@.len()
        &&& forall|i: int|
            0 <= i < self.nodes@.len() ==> {
                &&& (#[trigger] self.nodes@[i]).key == earlier.nodes@[i].key
                &&& self.nodes@[i].value == earlier.nodes@[i].value
                &&& self.nodes@[i].freq == earlier.nodes@[i].freq
                &&& self.nodes@[i].weight == earlier.nodes@[i].weight
            }
    }

    /// Unlinks slot `idx` from the bucket of `priority`; a bucket that
    /// becomes empty is dropped.
    fn remove_from_priority_list(&mut self, idx: usize, priority: u128)
        requires
            old(self).bucketed(),
            old(self).buckets@.contains_key(priority),
            old(self).buckets@[priority].contains(idx),
        ensures
            final(self).bucketed(),
            final(self).rebucketed(old(self)),
            final(self).unlisted(idx),
            final(self).buckets@ == if old(self).buckets@[priority].len() == 1 {
                old(self).buckets@.remove(priority)
            } else {
                old(self).buckets@.insert(
                    priority,
                    old(self).buckets@[priority].remove(old(self).buckets@[priority].index_of(idx)),
                )
            },
    {
        broadcast use group_hash_axioms;

        proof {
            reveal(chained);
        }
        let ghost order = self.buckets@[priority];
        let ghost pos = order.index_of(idx);
        let ghost last = order.len() - 1;
        let ghost before = self.priority_to_list@[priority];
        assert(order[pos] == idx);
        assert(chained(self.nodes@, self.stamps@, order, before, priority));
        let prev = self.nodes[idx].prev;
        let next = self.nodes[idx].next;
        proof {
            if pos > 0 {
                assert(self.nodes@[order[pos - 1] as int].next == Some(order[pos]));
                assert(prev == Some(order[pos - 1]));
            } else {
                assert(prev is None);
            }
            if pos < last {
                assert(self.nodes@[order[pos] as int].next == Some(order[pos + 1]));
                assert(next == Some(order[pos + 1]));
            } else {
                assert(next is None);
            }
        }
        let mut list = match self.priority_to_list.get(&priority) {
            Some(found) => *found,
            None => {
                return ;
            },
        };
        assert(list == before);
        match prev {
            Some(p) => {
                self.nodes[p].next = next;
            },
            None => {
                list.head = next;
            },
        }
        match next {
            Some(n) => {
                self.nodes[n].prev = prev;
            },
            None => {
                list.tail = prev;
            },
        }
        list.size = list.size - 1;
        if list.size == 0 {
            self.priority_to_list.remove(&priority);
            self.buckets = Ghost(self.buckets@.remove(priority));
        } else {
            self.priority_to_list.insert(priority, list);
            self.buckets = Ghost(self.buckets@.insert(priority, order.remove(pos)));
        }
        proof {
            let shorter = order.remove(pos);
            lemma_remove(order, pos);
            assert forall|q: u128| #[trigger] self.buckets@.contains_key(q) implies chained(
                self.nodes@,
                self.stamps@,
                self.buckets@[q],
                self.priority_to_list@[q],
                q,
            ) by {
                if q == priority {
                    Self::lemma_unlinked(
                        old(self).nodes@,
                        self.nodes@,
                        self.stamps@,
                        order,
                        pos,
                        before,
                        list,
                        priority,
                    );
                } else {
                    let other = old(self).buckets@[q];
                    assert(chained(
                        old(self).nodes@,
                        old(self).stamps@,
                        other,
                        old(self).priority_to_list@[q],
                        q,
                    ));
                    assert forall|i: int| 0 <= i < other.len() implies self.nodes@[(
                    #[trigger] other[i]) as int] == old(self).nodes@[other[i] as int] by {
                        assert(slot_rank(old(self).nodes@[other[i] as int]) == q);
                        if pos > 0 {
                            assert(slot_rank(old(self).nodes@[order[pos - 1] as int]) == priority);
                        }
                        if pos < last {
                            assert(slot_rank(old(self).nodes@[order[pos + 1] as int]) == priority);
                        }
                    }
                    lemma_chained_frame(
                        old(self).nodes@,
                        old(self).stamps@,
                        self.nodes@,
                        self.stamps@,
                        other,
                        old(self).priority_to_list@[q],
                        q,
                    );
                }
            }
            assert forall|q: u128| #[trigger] self.buckets@.contains_key(q) implies !self.buckets@[q].contains(
                idx,
            ) by {
                if q != priority {
                    let other = old(self).buckets@[q];
                    assert(chained(
                        old(self).nodes@,
                        old(self).stamps@,
                        other,
                        old(self).priority_to_list@[q],
                        q,
                    ));
                    if other.contains(idx) {
                        let i = other.index_of(idx);
                        assert(slot_rank(old(self).nodes@[other[i] as int]) == q);
                        assert(slot_rank(old(self).nodes@[order[pos] as int]) == priority);
                    }
                }
            }
        }
    }

    /// The bucket `order` without position `pos`, after the neighbours'
    /// links and the list's ends were set past it, is chained again.
    proof fn lemma_unlinked(
        nodes: Seq<Node<K, V>>,
        nodes2: Seq<Node<K, V>>,
        stamps: Seq<nat>,
        order: Seq<usize>,
        pos: int,
        list: PriorityList,
        list2: PriorityList,
        p: u128,
    )
        requires
            chained(nodes, stamps, order, list, p),
            0 <= pos < order.len(),
            order.len() > 1,
            nodes2.len() == nodes.len(),
            list2.size == list.size - 1,
            list2.head == if pos == 0 {
                Some(order[1])
            } else {
                list.head
            },
            list2.tail == if pos == order.len() - 1 {
                Some(order[order.len() - 2])
            } else {
                list.tail
            },
            forall|i: int|
                0 <= i < nodes.len() ==> {
                    &&& (#[trigger] nodes2[i]).freq == nodes[i].freq
                    &&& nodes2[i].weight == nodes[i].weight
                },
            forall|i: int|
                0 <= i < order.len() && i != pos ==> {
                    &&& nodes2[(#[trigger] order[i]) as int].next == if i == pos - 1 {
                        nodes[order[pos] as int].next
                    } else {
                        nodes[order[i] as int].next
                    }
                    &&& nodes2[order[i] as int].prev == if i == pos + 1 {
                        nodes[order[pos] as int].prev
                    } else {
                        nodes[order[i] as int].prev
                    }
                },
        ensures
            chained(nodes2, stamps, order.remove(pos), list2, p),
    {
        reveal(chained);
        let shorter = order.remove(pos);
        let last = order.len() - 1;
        lemma_remove(order, pos);
        assert forall|i: int| 0 <= i < shorter.len() implies (#[trigger] shorter[i]) < nodes2.len()
            && slot_rank(nodes2[shorter[i] as int]) == p by {
            let k = if i < pos { i } else { i + 1 };
            assert(shorter[i] == order[k]);
        }
        assert forall|i: int, j: int| 0 <= i && j == i + 1 && j < shorter.len() implies {
            &&& nodes2[(#[trigger] shorter[i]) as int].next == Some(#[trigger] shorter[j])
            &&& nodes2[shorter[j] as int].prev == Some(shorter[i])
        } by {
            let ki = if i < pos { i } else { i + 1 };
            let kj = if j < pos { j } else { j + 1 };
            assert(shorter[i] == order[ki] && shorter[j] == order[kj]);
            if kj == ki + 1 {
                assert(nodes[order[ki] as int].next == Some(order[kj]));
            } else {
                assert(ki == pos - 1 && kj == pos + 1);
                assert(nodes[order[pos] as int].next == Some(order[kj]));
                assert(nodes[order[pos] as int].prev == Some(order[ki]));
            }
        }
        assert forall|i: int, j: int| 0 <= i < j < shorter.len() implies stamps[(
        #[trigger] shorter[i]) as int] > stamps[(#[trigger] shorter[j]) as int] by {
            let ki = if i < pos { i } else { i + 1 };
            let kj = if j < pos { j } else { j + 1 };
            assert(shorter[i] == order[ki] && shorter[j] == order[kj]);
        }
        let new_last = shorter.len() - 1;
        assert(shorter[0] == order[if pos == 0 { 1int } else { 0int }]);
        assert(shorter[new_last] == order[if pos == last { last - 1 } else { last }]);
        if pos == 0 {
            assert(nodes[order[0] as int].next == Some(order[1]));
            assert(nodes[order[1] as int].prev == Some(order[0]));
        }
        if pos == last {
            assert(nodes[order[last - 1] as int].next == Some(order[last]));
        }
    }
    /// The members of the bucket of `priority`, none if there is no such bucket.
    spec fn bucket(&self, priority: u128) -> Seq<usize> {
        if self.buckets@.contains_key(priority) {
            self.buckets@[priority]
        } else {
            Seq::empty()
        }
    }

    /// Links slot `idx`, which stands on no bucket and was touched after
    /// every member of the bucket of `priority`, at the head of that bucket.
    fn add_to_priority_list(&mut self, idx: usize, priority: u128)
        requires
            old(self).bucketed(),
            idx < old(self).nodes@.len(),
            slot_rank(old(self).nodes@[idx as int]) == priority,
            old(self).unlisted(idx),
            forall|i: int|
                0 <= i < old(self).bucket(priority).len() ==> old(self).stamps@[(
                #[trigger] old(self).bucket(priority)[i]) as int] < old(self).stamps@[idx as int],
        ensures
            final(self).bucketed(),
            final(self).rebucketed(old(self)),
            final(self).buckets@ == old(self).buckets@.insert(
                priority,
                seq![idx] + old(self).bucket(priority),
            ),
    {
        broadcast use group_hash_axioms;

        proof {
            reveal(chained);
        }
        let ghost order = self.bucket(priority);
        let mut list = match self.priority_to_list.get(&priority) {
            Some(found) => *found,
            None => PriorityList::new(),
        };
        let ghost before = list;
        proof {
            if self.buckets@.contains_key(priority) {
                assert(chained(self.nodes@, self.stamps@, order, before, priority));
                assert(list == before);
                lemma_push_front(order, idx);
                assert forall|i: int| 0 <= i < (seq![idx] + order).len() implies (#[trigger] (seq![
                    idx,
                ] + order)[i]) < self.nodes@.len() by {
                    if i > 0 {
                        assert((seq![idx] + order)[i] == order[i - 1]);
                    }
                }
                lemma_distinct_below(seq![idx] + order, self.nodes@.len());
                assert(self.nodes@.len() == self.nodes.len());
                assert(list.size < usize::MAX);
            }
        }
        self.nodes[idx].next = list.head;
        self.nodes[idx].prev = None;
        if let Some(old_head) = list.head {
            assert(old_head == order[0]);
            self.nodes[old_head].prev = Some(idx);
        }
        list.head = Some(idx);
        if list.tail.is_none() {
            list.tail = Some(idx);
        }
        list.size = list.size + 1;
        self.priority_to_list.insert(priority, list);
        self.buckets = Ghost(self.buckets@.insert(priority, seq![idx] + order));
        proof {
            assert forall|q: u128| #[trigger] self.buckets@.contains_key(q) implies chained(
                self.nodes@,
                self.stamps@,
                self.buckets@[q],
                self.priority_to_list@[q],
                q,
            ) by {
                if q == priority {
                    Self::lemma_linked(
                        old(self).nodes@,
                        self.nodes@,
                        self.stamps@,
                        order,
                        idx,
                        before,
                        list,
                        priority,
                    );
                } else {
                    let other = old(self).buckets@[q];
                    assert(chained(
                        old(self).nodes@,
                        old(self).stamps@,
                        other,
                        old(self).priority_to_list@[q],
                        q,
                    ));
                    assert forall|i: int| 0 <= i < other.len() implies self.nodes@[(
                    #[trigger] other[i]) as int] == old(self).nodes@[other[i] as int] by {
                        assert(slot_rank(old(self).nodes@[other[i] as int]) == q);
                        assert(other.contains(other[i]));
                        if order.len() > 0 {
                            assert(slot_rank(old(self).nodes@[order[0] as int]) == priority);
                        }
                    }
                    lemma_chained_frame(
                        old(self).nodes@,
                        old(self).stamps@,
                        self.nodes@,
                        self.stamps@,
                        other,
                        old(self).priority_to_list@[q],
                        q,
                    );
                }
            }
        }
    }

    /// The bucket `order` with slot `idx` linked in front of it is chained,
    /// be `order` a chained list or empty.
    proof fn lemma_linked(
        nodes: Seq<Node<K, V>>,
        nodes2: Seq<Node<K, V>>,
        stamps: Seq<nat>,
        order: Seq<usize>,
        idx: usize,
        list: PriorityList,
        list2: PriorityList,
        p: u128,
    )
        requires
            order.len() > 0 ==> chained(nodes, stamps, order, list, p),
            !order.contains(idx),
            idx < nodes.len(),
            nodes2.len() == nodes.len(),
            slot_rank(nodes[idx as int]) == p,
            forall|i: int| 0 <= i < order.len() ==> stamps[(#[trigger] order[i]) as int] < stamps[idx as int],
            list2.size == order.len() + 1,
            list2.head == Some(idx),
            list2.tail == if order.len() == 0 {
                Some(idx)
            } else {
                list.tail
            },
            nodes2[idx as int].prev is None,
            nodes2[idx as int].next == if order.len() == 0 {
                None
            } else {
                Some(order[0])
            },
            forall|i: int|
                0 <= i < nodes.len() ==> {
                    &&& (#[trigger] nodes2[i]).freq == nodes[i].freq
                    &&& nodes2[i].weight == nodes[i].weight
                },
            forall|i: int|
                0 <= i < order.len() ==> {
                    &&& nodes2[(#[trigger] order[i]) as int].next == nodes[order[i] as int].next
                    &&& nodes2[order[i] as int].prev == if i == 0 {
                        Some(idx)
                    } else {
                        nodes[order[i] as int].prev
                    }
                },
        ensures
            chained(nodes2, stamps, seq![idx] + order, list2, p),
    {
        reveal(chained);
        let longer = seq![idx] + order;
        if order.len() > 0 {
            lemma_push_front(order, idx);
        } else {
            assert(longer =~= seq![idx]);
        }
        assert forall|i: int| 0 <= i < longer.len() implies (#[trigger] longer[i]) < nodes2.len()
            && slot_rank(nodes2[longer[i] as int]) == p by {
            if i > 0 {
                assert(longer[i] == order[i - 1]);
            }
        }
        assert forall|i: int, j: int| 0 <= i && j == i + 1 && j < longer.len() implies {
            &&& nodes2[(#[trigger] longer[i]) as int].next == Some(#[trigger] longer[j])
            &&& nodes2[longer[j] as int].prev == Some(longer[i])
        } by {
            assert(longer[j] == order[j - 1]);
            if i > 0 {
                assert(longer[i] == order[i - 1]);
                assert(nodes[order[i - 1] as int].next == Some(order[j - 1]));
            }
        }
        assert forall|i: int, j: int| 0 <= i < j < longer.len() implies stamps[(
        #[trigger] longer[i]) as int] > stamps[(#[trigger] longer[j]) as int] by {
            assert(longer[j] == order[j - 1]);
            if i > 0 {
                assert(longer[i] == order[i - 1]);
            }
        }
        if order.len() > 0 {
            let last = order.len() - 1;
            assert(longer[last + 1] == order[last]);
        }
    }
}

impl<K: Clone + Hash + Eq, V> LFUCache<K, V> {
    /// The number of slots in the arena, resident and spare.
    pub closed spec fn arena_len(&self) -> nat {
        self.nodes@.len()
    }

    /// The key that each slot of the arena holds.
    pub closed spec fn slot_keys(&self) -> Seq<K> {
        Seq::new(self.nodes@.len(), |i: int| self.nodes@[i].key)
    }

    /// The slot that the key index gives for each key.
    pub closed spec fn index(&self) -> Map<K, usize> {
        self.key_to_idx@
    }

    /// The slots that wait for reuse, the one freed last at the end.
    pub closed spec fn spare(&self) -> Seq<usize> {
        self.free_list@
    }

    /// The slots that the queue holds, each with its priority.
    pub closed spec fn queued(&self) -> Map<usize, u128> {
        queue_entries(self.min_priority_queue)
    }

    /// The slots of the bucket of each priority in use, from head to tail.
    pub closed spec fn lists(&self) -> Map<u128, Seq<usize>> {
        self.buckets@
    }

    /// `self` is `earlier` with the slot of the resident `key` moved to the
    /// head of the bucket of the priority that its entry has now, and
    /// queued at that priority; nothing else of the arena has changed.
    pub open spec fn rearranged(&self, earlier: &Self, key: K) -> bool {
        let slot = earlier.index()[key];
        let to = rank(self@.entries[key]) as u128;
        &&& self.index() == earlier.index()
        &&& self.spare() == earlier.spare()
        &&& self.slot_keys() == earlier.slot_keys()
        &&& self.queued() == earlier.queued().insert(slot, to)
        &&& self.lists() == listed_at(
            unlisted_from(earlier.lists(), slot, earlier.queued()[slot]),
            slot,
            to,
        )
    }

    /// `self` is the arena with slot keys `slot_keys`, key index `index`,
    /// spare slots `spare`, queue `queued` and buckets `lists` after a new
    /// entry of weight `weight` went in: it took the spare slot freed last,
    /// or else the arena grew by a slot for it; the slot holds `key`,
    /// stands under `key` in the index and at the head of the bucket of
    /// `weight`, and is queued at `weight`; the other slots are as they were.
    pub open spec fn entered(
        &self,
        index: Map<K, usize>,
        spare: Seq<usize>,
        slot_keys: Seq<K>,
        queued: Map<usize, u128>,
        lists: Map<u128, Seq<usize>>,
        key: K,
        weight: u32,
    ) -> bool {
        let slot = next_slot(spare, slot_keys.len());
        &&& self.index() == index.insert(key, slot)
        &&& self.queued() == queued.insert(slot, weight as u128)
        &&& self.lists() == listed_at(lists, slot, weight as u128)
        &&& if spare.len() > 0 {
            &&& self.spare() == spare.drop_last()
            &&& self.slot_keys() == slot_keys.update(slot as int, key)
        } else {
            &&& self.spare() == spare
            &&& self.slot_keys() == slot_keys.push(key)
        }
    }

    /// Whether `slot` holds the entry that the key index has under the slot's key.
    spec fn live(&self, slot: usize) -> bool {
        &&& slot < self.nodes@.len()
        &&& self.key_to_idx@.contains_key(self.nodes@[slot as int].key)
        &&& self.key_to_idx@[self.nodes@[slot as int].key] == slot
    }

    /// The resident `slot` is queued at its priority, stands on that
    /// priority's bucket, and was touched before now.
    spec fn settled(&self, slot: usize) -> bool {
        let p = slot_rank(self.nodes@[slot as int]);
        &&& queue_entries(self.min_priority_queue)[slot] == p
        &&& self.buckets@.contains_key(p as u128)
        &&& self.buckets@[p as u128].contains(slot)
        &&& self.stamps@[slot as int] < self.clock@
        &&& self.nodes@[slot as int].freq >= 1
    }

    /// Resident slots and spare slots: the queue holds exactly the slots that
    /// the key index points to, no two of them touched at the same tick; the
    /// other slots of the arena are the spare ones, and the arena has no
    /// more than `capacity` slots.
    spec fn indexed(&self) -> bool {
        let queued = queue_entries(self.min_priority_queue);
        &&& self.key_to_idx@.len() <= self.capacity
        &&& self.nodes@.len() == self.key_to_idx@.len() + self.free_list@.len()
        &&& self.nodes@.len() <= self.capacity
        &&& forall|k: K| #[trigger]
            self.key_to_idx@.contains_key(k) ==> self.key_to_idx@[k] < self.nodes@.len()
                && self.nodes@[self.key_to_idx@[k] as int].key == k
        &&& forall|slot: usize| #[trigger] queued.contains_key(slot) <==> self.live(slot)
        &&& forall|a: usize, b: usize|
            #![trigger queued.contains_key(a), queued.contains_key(b)]
            queued.contains_key(a) && queued.contains_key(b) && a != b ==> self.stamps@[a as int]
                != self.stamps@[b as int]
        &&& self.free_list@.no_duplicates()
        &&& forall|j: int|
            0 <= j < self.free_list@.len() ==> (#[trigger] self.free_list@[j]) < self.nodes@.len()
                && !queued.contains_key(self.free_list@[j])
    }

    /// The cache's invariant: the buckets are chained lists; every resident
    /// slot is queued at its priority and stands on that priority's bucket;
    /// the buckets hold resident slots only.
    pub closed spec fn wf(&self) -> bool {
        let queued = queue_entries(self.min_priority_queue);
        &&& key_model::<K>()
        &&& self.capacity >= 1
        &&& self.bucketed()
        &&& self.indexed()
        &&& forall|slot: usize| #[trigger] queued.contains_key(slot) ==> self.settled(slot)
        &&& forall|p: u128, i: int|
            self.buckets@.contains_key(p) && 0 <= i < self.buckets@[p].len()
                ==> queued.contains_key(#[trigger] self.buckets@[p][i])
    }

    /// What the invariant says of the view.
    proof fn lemma_entries(&self)
        requires
            self.wf(),
        ensures
            self@.entries.dom() == self.key_to_idx@.dom(),
            self@.entries.dom().finite(),
            self@.entries.len() == self.key_to_idx@.len(),
            self@.entries.len() <= self@.capacity,
            self@.capacity >= 1,
            well_stamped(self@),
            forall|k: K| #[trigger] self@.entries.contains_key(k) ==> self@.entries[k].freq >= 1,
    {
        broadcast use group_hash_axioms;

        let queued = queue_entries(self.min_priority_queue);
        assert(self@.entries.dom() =~= self.key_to_idx@.dom());
        assert forall|a: K| #[trigger] self@.entries.contains_key(a) implies self@.entries[a].touched
            < self@.clock && self@.entries[a].freq >= 1 by {
            assert(self.live(self.key_to_idx@[a]));
            assert(queued.contains_key(self.key_to_idx@[a]));
            assert(self.settled(self.key_to_idx@[a]));
        }
        assert forall|a: K, b: K|
            #![trigger self@.entries[a], self@.entries[b]]
            self@.entries.contains_key(a) && self@.entries.contains_key(b) && a
                != b implies self@.entries[a].touched != self@.entries[b].touched by {
            assert(self.live(self.key_to_idx@[a]));
            assert(self.live(self.key_to_idx@[b]));
            assert(queued.contains_key(self.key_to_idx@[a]));
            assert(queued.contains_key(self.key_to_idx@[b]));
        }
    }

    /// A cache that meets its invariant is in a sound state, over a key type
    /// that meets the key model, and its arena has not grown past the
    /// capacity.
    pub proof fn lemma_sound(&self)
        requires
            self.wf(),
        ensures
            sound(self@),
            key_model::<K>(),
            self.arena_len() <= self@.capacity,
    {
        self.lemma_entries();
    }

    /// Under the invariant the key index leads every key to a slot of the
    /// arena that holds this key; the queue holds exactly those slots, each
    /// at its entry's priority, and each stands on the bucket of that
    /// priority. A bucket is not empty, holds no slot twice and only queued
    /// slots of its priority, the one touched last first. The spare slots
    /// are the other slots of the arena, none of them twice.
    pub proof fn lemma_arena(&self)
        requires
            self.wf(),
        ensures
            self.slot_keys().len() == self.arena_len(),
            self@.entries.dom() == self.index().dom(),
            forall|k: K| #[trigger]
                self.index().contains_key(k) ==> {
                    &&& self.index()[k] < self.arena_len()
                    &&& self.slot_keys()[self.index()[k] as int] == k
                    &&& self.queued().contains_key(self.index()[k])
                    &&& self.queued()[self.index()[k]] == rank(self@.entries[k])
                    &&& self.lists().contains_key(self.queued()[self.index()[k]])
                    &&& self.lists()[self.queued()[self.index()[k]]].contains(self.index()[k])
                },
            forall|slot: usize| #[trigger]
                self.queued().contains_key(slot) ==> {
                    &&& slot < self.arena_len()
                    &&& self.index().contains_key(self.slot_keys()[slot as int])
                    &&& self.index()[self.slot_keys()[slot as int]] == slot
                },
            forall|p: u128| #[trigger]
                self.lists().contains_key(p) ==> self.lists()[p].len() > 0
                    && self.lists()[p].no_duplicates(),
            forall|p: u128, i: int|
                self.lists().contains_key(p) && 0 <= i < self.lists()[p].len() ==> {
                    &&& self.queued().contains_key(#[trigger] self.lists()[p][i])
                    &&& self.queued()[self.lists()[p][i]] == p
                },
            forall|p: u128, i: int, j: int|
                self.lists().contains_key(p) && 0 <= i < j < self.lists()[p].len()
                    ==> self@.entries[self.slot_keys()[(#[trigger] self.lists()[p][i]) as int]].touched
                    > self@.entries[self.slot_keys()[(#[trigger] self.lists()[p][j]) as int]].touched,
            self.spare().no_duplicates(),
            forall|j: int|
                0 <= j < self.spare().len() ==> (#[trigger] self.spare()[j]) < self.arena_len()
                    && !self.queued().contains_key(self.spare()[j]),
            self.arena_len() == self.index().len() + self.spare().len(),
    {
        reveal(chained);
        self.lemma_entries();
        let queued = queue_entries(self.min_priority_queue);
        assert forall|k: K| #[trigger] self.index().contains_key(k) implies {
            &&& self.index()[k] < self.arena_len()
            &&& self.slot_keys()[self.index()[k] as int] == k
            &&& self.queued().contains_key(self.index()[k])
            &&& self.queued()[self.index()[k]] == rank(self@.entries[k])
            &&& self.lists().contains_key(self.queued()[self.index()[k]])
            &&& self.lists()[self.queued()[self.index()[k]]].contains(self.index()[k])
        } by {
            assert(self.live(self.key_to_idx@[k]));
            assert(queued.contains_key(self.key_to_idx@[k]));
            assert(self.settled(self.key_to_idx@[k]));
        }
        assert forall|slot: usize| #[trigger] self.queued().contains_key(slot) implies {
            &&& slot < self.arena_len()
            &&& self.index().contains_key(self.slot_keys()[slot as int])
            &&& self.index()[self.slot_keys()[slot as int]] == slot
        } by {
            assert(self.live(slot));
        }
        assert forall|p: u128| #[trigger] self.lists().contains_key(p) implies self.lists()[p].len()
            > 0 && self.lists()[p].no_duplicates() by {
            assert(chained(
                self.nodes@,
                self.stamps@,
                self.buckets@[p],
                self.priority_to_list@[p],
                p,
            ));
        }
        assert forall|p: u128, i: int|
            self.lists().contains_key(p) && 0 <= i < self.lists()[p].len() implies {
            &&& self.queued().contains_key(#[trigger] self.lists()[p][i])
            &&& self.queued()[self.lists()[p][i]] == p
        } by {
            assert(chained(
                self.nodes@,
                self.stamps@,
                self.buckets@[p],
                self.priority_to_list@[p],
                p,
            ));
            assert(queued.contains_key(self.buckets@[p][i]));
            assert(self.settled(self.buckets@[p][i]));
        }
        assert forall|p: u128, i: int, j: int|
            self.lists().contains_key(p) && 0 <= i < j < self.lists()[p].len() implies self@.entries[self.slot_keys()[(
        #[trigger] self.lists()[p][i]) as int]].touched > self@.entries[self.slot_keys()[(
        #[trigger] self.lists()[p][j]) as int]].touched by {
            assert(chained(
                self.nodes@,
                self.stamps@,
                self.buckets@[p],
                self.priority_to_list@[p],
                p,
            ));
            assert(queued.contains_key(self.buckets@[p][i]));
            assert(queued.contains_key(self.buckets@[p][j]));
            assert(self.live(self.buckets@[p][i]));
            assert(self.live(self.buckets@[p][j]));
        }
    }

    /// An empty cache for at most `capacity` entries, with an empty arena.
    pub fn new(capacity: usize) -> (cache: Self)
        requires
            capacity > 0,
            key_model::<K>(),
        ensures
            cache.wf(),
            cache@.capacity == capacity,
            cache@.clock == 0,
            cache@.entries == Map::<K, LfuEntry<V>>::empty(),
            cache.slot_keys() == Seq::<K>::empty(),
            cache.spare() == Seq::<usize>::empty(),
            cache.index() == Map::<K, usize>::empty(),
            cache.queued() == Map::<usize, u128>::empty(),
            cache.lists() == Map::<u128, Seq<usize>>::empty(),
    {
        broadcast use group_hash_axioms;

        let cache = LFUCache {
            capacity,
            nodes: Vec::new(),
            min_priority_queue: queue_new(),
            key_to_idx: HashMap::new(),
            priority_to_list: HashMap::new(),
            free_list: Vec::new(),
            buckets: Ghost(Map::empty()),
            stamps: Ghost(Seq::empty()),
            clock: Ghost(0),
        };
        assert(cache@.entries =~= Map::<K, LfuEntry<V>>::empty());
        assert(cache.slot_keys() =~= Seq::<K>::empty());
        cache
    }

    /// The number of entries.
    pub fn len(&self) -> (n: usize)
        requires
            self.wf(),
        ensures
            n == self@.entries.len(),
    {
        broadcast use group_hash_axioms;

        proof {
            self.lemma_entries();
        }
        self.key_to_idx.len()
    }

    /// Whether the cache holds no entry.
    pub fn is_empty(&self) -> (empty: bool)
        requires
            self.wf(),
        ensures
            empty == (self@.entries.len() == 0),
    {
        broadcast use group_hash_axioms;

        proof {
            self.lemma_entries();
        }
        self.key_to_idx.len() == 0
    }

    /// The access count of `key`, if the cache holds it.
    pub fn get_freq(&self, key: &K) -> (freq: Option<usize>)
        requires
            self.wf(),
        ensures
            match freq {
                Some(n) => self@.entries.contains_key(*key) && n == self@.entries[*key].freq,
                None => !self@.entries.contains_key(*key),
            },
    {
        broadcast use group_hash_axioms;

        match self.key_to_idx.get(key) {
            Some(idx) => Some(self.nodes[*idx].freq),
            None => None,
        }
    }

    /// Looks `key` up; a hit counts as an access.
    pub fn get(&mut self, key: &K) -> (value: Option<&V>)
        requires
            old(self).wf(),
        ensures
            final(self).wf(),
            final(self)@ == after_get(old(self)@, *key),
            match value {
                Some(v) => old(self)@.entries.contains_key(*key) && *v == old(self)@.entries[*key].value,
                None => !old(self)@.entries.contains_key(*key),
            },
            if old(self)@.entries.contains_key(*key) {
                final(self).rearranged(old(self), *key)
            } else {
                &&& final(self).index() == old(self).index()
                &&& final(self).spare() == old(self).spare()
                &&& final(self).slot_keys() == old(self).slot_keys()
                &&& final(self).queued() == old(self).queued()
                &&& final(self).lists() == old(self).lists()
            },
    {
        broadcast use group_hash_axioms;

        let idx = match self.key_to_idx.get(key) {
            Some(slot) => *slot,
            None => {
                return None;
            },
        };
        assert(self.live(idx));
        self.increment_priority(idx);
        Some(&self.nodes[idx].value)
    }

    /// Puts `value` under `key`. For a resident key the value is replaced
    /// and the put counts as an access; the weight given is not used. A new
    /// key enters with `weight` and access count 1, after the victim was
    /// evicted if the cache was full.
    pub fn put(&mut self, key: K, value: V, weight: u32)
        requires
            old(self).wf(),
        ensures
            final(self).wf(),
            final(self)@ == after_put(old(self)@, key, value, weight),
            if old(self)@.entries.contains_key(key) {
                final(self).rearranged(old(self), key)
            } else if old(self)@.entries.len() < old(self)@.capacity {
                final(self).entered(
                    old(self).index(),
                    old(self).spare(),
                    old(self).slot_keys(),
                    old(self).queued(),
                    old(self).lists(),
                    key,
                    weight,
                )
            } else {
                let gone = old(self).index()[victim(old(self)@.entries)];
                final(self).entered(
                    old(self).index().remove(victim(old(self)@.entries)),
                    old(self).spare().push(gone),
                    old(self).slot_keys(),
                    old(self).queued().remove(gone),
                    unlisted_from(old(self).lists(), gone, old(self).queued()[gone]),
                    key,
                    weight,
                )
            },
    {
        broadcast use group_hash_axioms;

        proof {
            self.lemma_entries();
        }
        let hit = match self.key_to_idx.get(&key) {
            Some(slot) => Some(*slot),
            None => None,
        };
        if let Some(idx) = hit {
            assert(self.live(idx));
            self.nodes[idx].value = value;
            let ghost revalued = *self;
            proof {
                revalued.lemma_revalued(old(self));
                assert(revalued@.entries =~= old(self)@.entries.insert(
                    key,
                    LfuEntry { value, ..old(self)@.entries[key] },
                ));
                assert(revalued.slot_keys() =~= old(self).slot_keys());
            }
            self.increment_priority(idx);
        } else {
            if self.key_to_idx.len() >= self.capacity {
                self.evict_lfu();
            }
            let ghost room = *self;
            proof {
                room.lemma_entries();
                if old(self)@.entries.len() >= old(self)@.capacity {
                    lemma_victim_exists(old(self)@.entries);
                }
                assert(!room@.entries.contains_key(key));
                assert(room@.entries.len() < room@.capacity);
            }
            self.insert_new(key, value, weight);
        }
    }

    /// Evicts the victim: the tail of the bucket of the least priority in
    /// use. Its slot leaves bucket and queue and joins the spare slots, and
    /// its key leaves the key index. Nothing happens to an empty cache.
    pub fn evict_lfu(&mut self)
        requires
            old(self).wf(),
        ensures
            final(self).wf(),
            final(self)@ == after_eviction(old(self)@),
            final(self).slot_keys() == old(self).slot_keys(),
            old(self)@.entries.len() == 0 ==> {
                &&& final(self).index() == old(self).index()
                &&& final(self).spare() == old(self).spare()
                &&& final(self).queued() == old(self).queued()
                &&& final(self).lists() == old(self).lists()
            },
            old(self)@.entries.len() > 0 ==> ({
                let gone = old(self).index()[victim(old(self)@.entries)];
                let least_priority = old(self).queued()[gone];
                &&& least(old(self).queued(), gone)
                &&& old(self).lists()[least_priority].last() == gone
                &&& final(self).index() == old(self).index().remove(victim(old(self)@.entries))
                &&& final(self).spare() == old(self).spare().push(gone)
                &&& final(self).queued() == old(self).queued().remove(gone)
                &&& final(self).lists() == unlisted_from(old(self).lists(), gone, least_priority)
            }),
    {
        broadcast use group_hash_axioms;

        let ghost queued = queue_entries(self.min_priority_queue);
        proof {
            self.lemma_entries();
        }
        if let Some((top, min_priority)) = queue_peek(&self.min_priority_queue) {
            proof {
                self.lemma_tail_is_victim(top, min_priority);
            }
            let tail = match self.priority_to_list.get(&min_priority) {
                Some(list) => list.tail,
                None => None,
            };
            if let Some(tail_idx) = tail {
                let ghost key = self.nodes@[tail_idx as int].key;
                assert(self.live(tail_idx));
                assert(self.buckets@[min_priority].last() == tail_idx);
                self.key_to_idx.remove(&self.nodes[tail_idx].key);
                self.remove_from_priority_list(tail_idx, min_priority);
                queue_remove(&mut self.min_priority_queue, tail_idx);
                self.free_list.push(tail_idx);
                proof {
                    self.lemma_evicted(old(self), tail_idx);
                    lemma_one_victim(old(self)@, key, key);
                    assert(old(self)@.entries.len() > 0);
                    assert(self.slot_keys() =~= old(self).slot_keys());
                    let order = old(self).buckets@[min_priority];
                    assert(old(self).settled(tail_idx));
                    assert(old(self).settled(top));
                    old(self).lemma_arena();
                }
            }
        } else {
            proof {
                assert(old(self)@.entries.dom() =~= Set::empty()) by {
                    assert forall|k: K| !old(self)@.entries.contains_key(k) by {
                        if old(self).key_to_idx@.contains_key(k) {
                            assert(old(self).live(old(self).key_to_idx@[k]));
                            assert(queued.contains_key(old(self).key_to_idx@[k]));
                        }
                    }
                }
            }
        }
    }

    /// Counts one more access of the entry in the resident slot `idx`:
    /// the entry moves to the head of its new priority's bucket and the
    /// queue learns the new priority.
    fn increment_priority(&mut self, idx: usize)
        requires
            old(self).wf(),
            queue_entries(old(self).min_priority_queue).contains_key(idx),
        ensures
            final(self).wf(),
            final(self)@ == touch(old(self)@, old(self).nodes@[idx as int].key),
            final(self).key_to_idx == old(self).key_to_idx,
            final(self).nodes@.len() == old(self).nodes@.len(),
            final(self).nodes@[idx as int].value == old(self).nodes@[idx as int].value,
            final(self).rearranged(old(self), old(self).nodes@[idx as int].key),
    {
        broadcast use group_hash_axioms;

        let ghost queued = queue_entries(self.min_priority_queue);
        assert(self.live(idx));
        assert(self.settled(idx));
        let weight = self.nodes[idx].weight;
        let old_freq = self.nodes[idx].freq;
        let new_freq = if old_freq < usize::MAX {
            old_freq + 1
        } else {
            old_freq
        };
        let old_priority = priority_of(old_freq, weight);
        proof {
            self.lemma_others_stay(idx);
        }
        self.remove_from_priority_list(idx, old_priority);
        let ghost unlinked = *self;
        self.nodes[idx].freq = new_freq;
        self.stamps = Ghost(self.stamps@.update(idx as int, self.clock@));
        self.clock = Ghost(self.clock@ + 1);
        let ghost counted = *self;
        proof {
            assert forall|p: u128, i: int|
                unlinked.buckets@.contains_key(p) && 0 <= i < unlinked.buckets@[p].len() implies (
            #[trigger] unlinked.buckets@[p][i]) != idx by {
                assert(unlinked.buckets@[p].contains(unlinked.buckets@[p][i]));
            }
            counted.lemma_bucketed_frame(&unlinked);
        }
        let new_priority = priority_of(new_freq, weight);
        proof {
            assert forall|i: int| 0 <= i < counted.bucket(new_priority).len() implies counted.stamps@[(
            #[trigger] counted.bucket(new_priority)[i]) as int] < counted.stamps@[idx as int] by {
                let member = unlinked.buckets@[new_priority][i];
                assert(queued.contains_key(member));
                assert(old(self).settled(member));
            }
        }
        self.add_to_priority_list(idx, new_priority);
        queue_change_priority(&mut self.min_priority_queue, idx, new_priority);
        proof {
            self.lemma_touched(old(self), idx, new_priority);
            assert(self.slot_keys() =~= old(self).slot_keys());
        }
    }

    /// Stores a new entry with access count 1 in a cache that is not full
    /// and does not hold `key`.
    fn insert_new(&mut self, key: K, value: V, weight: u32)
        requires
            old(self).wf(),
            !old(self).key_to_idx@.contains_key(key),
            old(self).key_to_idx@.len() < old(self).capacity,
        ensures
            final(self).wf(),
            final(self)@ == (LfuView {
                clock: old(self)@.clock + 1,
                entries: old(self)@.entries.insert(
                    key,
                    LfuEntry { value, weight, freq: 1, touched: old(self)@.clock },
                ),
                ..old(self)@
            }),
            final(self).entered(
                old(self).index(),
                old(self).spare(),
                old(self).slot_keys(),
                old(self).queued(),
                old(self).lists(),
                key,
                weight,
            ),
    {
        broadcast use group_hash_axioms;

        let ghost queued = queue_entries(self.min_priority_queue);
        let node_key = key.clone();
        assert(cloned::<K>(key, node_key));
        let idx = self.allocate_node(node_key, value, 1, weight);
        let ghost allocated = *self;
        self.key_to_idx.insert(key, idx);
        let priority = priority_of(1, weight);
        proof {
            assert forall|i: int| 0 <= i < self.bucket(priority).len() implies self.stamps@[(
            #[trigger] self.bucket(priority)[i]) as int] < self.stamps@[idx as int] by {
                let member = old(self).buckets@[priority][i];
                assert(queued.contains_key(member));
                assert(old(self).settled(member));
                assert(old(self).live(member));
                assert(allocated.nodes@[member as int] == old(self).nodes@[member as int]);
            }
        }
        self.add_to_priority_list(idx, priority);
        queue_push(&mut self.min_priority_queue, idx, priority);
        self.clock = Ghost(self.clock@ + 1);
        proof {
            self.lemma_inserted(old(self), idx, key);
            assert(idx == next_slot(old(self).spare(), old(self).slot_keys().len()));
            if old(self).free_list@.len() > 0 {
                assert(self.slot_keys() =~= old(self).slot_keys().update(idx as int, key));
            } else {
                assert(self.slot_keys() =~= old(self).slot_keys().push(key));
            }
        }
    }

    /// Takes a slot for a new entry and stamps it with the current tick: the
    /// spare slot freed last if there is a spare one, else a slot by which
    /// the arena grows. The slot holds the entry, unlinked.
    fn allocate_node(&mut self, key: K, value: V, freq: usize, weight: u32) -> (idx: usize)
        requires
            old(self).wf(),
            old(self).key_to_idx@.len() < old(self).capacity,
        ensures
            old(self).free_list@.len() > 0 ==> {
                &&& idx == old(self).free_list@.last()
                &&& final(self).free_list@ == old(self).free_list@.drop_last()
                &&& final(self).nodes@.len() == old(self).nodes@.len()
            },
            old(self).free_list@.len() == 0 ==> {
                &&& idx == old(self).nodes@.len()
                &&& final(self).free_list@ == old(self).free_list@
                &&& final(self).nodes@.len() == old(self).nodes@.len() + 1
            },
            final(self).nodes@[idx as int].prev is None,
            final(self).nodes@[idx as int].next is None,
            idx < final(self).nodes@.len(),
            final(self).nodes@.len() == old(self).key_to_idx@.len() + final(self).free_list@.len()
                + 1,
            final(self).nodes@.len() <= old(self).capacity,
            !queue_entries(old(self).min_priority_queue).contains_key(idx),
            final(self).nodes@[idx as int].key == key,
            final(self).nodes@[idx as int].value == value,
            final(self).nodes@[idx as int].freq == freq,
            final(self).nodes@[idx as int].weight == weight,
            final(self).nodes@.len() >= old(self).nodes@.len(),
            final(self).stamps@.len() == final(self).nodes@.len(),
            final(self).stamps@[idx as int] == old(self).clock@,
            forall|s: int|
                0 <= s < old(self).nodes@.len() && s != idx ==> (#[trigger] final(self).nodes@[s])
                    == old(self).nodes@[s] && final(self).stamps@[s] == old(self).stamps@[s],
            final(self).free_list@.no_duplicates(),
            forall|j: int|
                0 <= j < final(self).free_list@.len() ==> {
                    &&& (#[trigger] final(self).free_list@[j]) < old(self).nodes@.len()
                    &&& final(self).free_list@[j] != idx
                    &&& !queue_entries(old(self).min_priority_queue).contains_key(
                        final(self).free_list@[j],
                    )
                },
            final(self).capacity == old(self).capacity,
            final(self).min_priority_queue == old(self).min_priority_queue,
            final(self).key_to_idx == old(self).key_to_idx,
            final(self).priority_to_list == old(self).priority_to_list,
            final(self).buckets == old(self).buckets,
            final(self).clock == old(self).clock,
            final(self).bucketed(),
            final(self).unlisted(idx),
    {
        let ghost queued = queue_entries(self.min_priority_queue);
        let node = Node { key, value, freq, weight, prev: None, next: None };
        let idx = if let Some(free_idx) = self.free_list.pop() {
            assert(free_idx == old(self).free_list@[old(self).free_list@.len() - 1]);
            self.nodes[free_idx] = node;
            self.stamps = Ghost(self.stamps@.update(free_idx as int, self.clock@));
            free_idx
        } else {
            self.nodes.push(node);
            self.stamps = Ghost(self.stamps@.push(self.clock@));
            self.nodes.len() - 1
        };
        proof {
            assert(!queued.contains_key(idx)) by {
                if queued.contains_key(idx) {
                    assert(old(self).live(idx));
                }
            }
            assert forall|p: u128, i: int|
                old(self).buckets@.contains_key(p) && 0 <= i < old(self).buckets@[p].len() implies (
            #[trigger] old(self).buckets@[p][i]) != idx && old(self).buckets@[p][i] < old(
                self,
            ).nodes@.len() by {
                assert(queued.contains_key(old(self).buckets@[p][i]));
                assert(old(self).live(old(self).buckets@[p][i]));
            }
            self.lemma_bucketed_frame(old(self));
            assert forall|p: u128| #[trigger] self.buckets@.contains_key(p) implies !self.buckets@[p].contains(
                idx,
            ) by {
                if self.buckets@[p].contains(idx) {
                    let i = self.buckets@[p].index_of(idx);
                    assert(old(self).buckets@[p][i] != idx);
                }
            }
        }
        idx
    }

    /// The priority of the entry in `slot`.
    spec fn rank_at(&self, slot: usize) -> u128 {
        slot_rank(self.nodes@[slot as int]) as u128
    }

    /// The buckets of `self` after slot `idx` left the bucket of `from`.
    spec fn buckets_without(&self, idx: usize, from: u128) -> Map<u128, Seq<usize>> {
        unlisted_from(self.buckets@, idx, from)
    }

    /// The buckets after slot `gone` left the bucket of its priority.
    spec fn left_by(&self, gone: usize) -> Map<u128, Seq<usize>> {
        self.buckets_without(gone, self.rank_at(gone))
    }

    /// Whether `slot` stands on the bucket of its priority once `gone` has left.
    spec fn stays(&self, gone: usize, slot: usize) -> bool {
        &&& self.left_by(gone).contains_key(self.rank_at(slot))
        &&& self.left_by(gone)[self.rank_at(slot)].contains(slot)
    }

    /// The invariant does not depend on the values.
    proof fn lemma_revalued(&self, earlier: &Self)
        requires
            earlier.wf(),
            self.capacity == earlier.capacity,
            self.min_priority_queue == earlier.min_priority_queue,
            self.key_to_idx == earlier.key_to_idx,
            self.priority_to_list == earlier.priority_to_list,
            self.free_list == earlier.free_list,
            self.buckets == earlier.buckets,
            self.stamps == earlier.stamps,
            self.clock == earlier.clock,
            self.nodes@.len() == earlier.nodes@.len(),
            forall|i: int|
                0 <= i < self.nodes@.len() ==> {
                    &&& (#[trigger] self.nodes@[i]).key == earlier.nodes@[i].key
                    &&& self.nodes@[i].weight == earlier.nodes@[i].weight
                    &&& self.nodes@[i].freq == earlier.nodes@[i].freq
                    &&& self.nodes@[i].prev == earlier.nodes@[i].prev
                    &&& self.nodes@[i].next == earlier.nodes@[i].next
                },
        ensures
            self.wf(),
    {
        let queued = queue_entries(self.min_priority_queue);
        assert forall|p: u128, i: int|
            earlier.buckets@.contains_key(p) && 0 <= i < earlier.buckets@[p].len() implies (
        #[trigger] earlier.buckets@[p][i]) < earlier.nodes@.len() by {
            assert(queued.contains_key(earlier.buckets@[p][i]));
            assert(earlier.live(earlier.buckets@[p][i]));
        }
        self.lemma_bucketed_frame(earlier);
        assert forall|slot: usize| #[trigger] queued.contains_key(slot) implies self.live(slot)
            && self.settled(slot) by {
            assert(earlier.live(slot));
            assert(earlier.settled(slot));
        }
        assert forall|slot: usize| self.live(slot) implies #[trigger] queued.contains_key(slot) by {
            assert(earlier.live(slot));
        }
    }

    /// Every bucket stays chained when the slots on the buckets keep their
    /// links, counts, weights and stamps.
    proof fn lemma_bucketed_frame(&self, earlier: &Self)
        requires
            earlier.bucketed(),
            self.buckets == earlier.buckets,
            self.priority_to_list == earlier.priority_to_list,
            self.nodes@.len() >= earlier.nodes@.len(),
            self.stamps@.len() == self.nodes@.len(),
            forall|p: u128, i: int|
                earlier.buckets@.contains_key(p) && 0 <= i < earlier.buckets@[p].len() ==> {
                    let slot = #[trigger] earlier.buckets@[p][i];
                    &&& self.nodes@[slot as int].prev == earlier.nodes@[slot as int].prev
                    &&& self.nodes@[slot as int].next == earlier.nodes@[slot as int].next
                    &&& self.nodes@[slot as int].freq == earlier.nodes@[slot as int].freq
                    &&& self.nodes@[slot as int].weight == earlier.nodes@[slot as int].weight
                    &&& self.stamps@[slot as int] == earlier.stamps@[slot as int]
                },
        ensures
            self.bucketed(),
    {
        assert forall|p: u128| #[trigger] self.buckets@.contains_key(p) implies chained(
            self.nodes@,
            self.stamps@,
            self.buckets@[p],
            self.priority_to_list@[p],
            p,
        ) by {
            let order = earlier.buckets@[p];
            assert(chained(
                earlier.nodes@,
                earlier.stamps@,
                order,
                earlier.priority_to_list@[p],
                p,
            ));
            assert forall|i: int| 0 <= i < order.len() implies {
                &&& self.nodes@[(#[trigger] order[i]) as int].prev == earlier.nodes@[order[i] as int].prev
                &&& self.nodes@[order[i] as int].next == earlier.nodes@[order[i] as int].next
                &&& self.nodes@[order[i] as int].freq == earlier.nodes@[order[i] as int].freq
                &&& self.nodes@[order[i] as int].weight == earlier.nodes@[order[i] as int].weight
                &&& self.stamps@[order[i] as int] == earlier.stamps@[order[i] as int]
            } by {
                assert(order[i] == earlier.buckets@[p][i]);
            }
            lemma_chained_frame(
                earlier.nodes@,
                earlier.stamps@,
                self.nodes@,
                self.stamps@,
                order,
                earlier.priority_to_list@[p],
                p,
            );
        }
    }

    /// Where slot `gone` has left its bucket, every other resident slot
    /// still stands on the bucket of its priority, and the buckets hold
    /// resident slots other than `gone` only.
    proof fn lemma_others_stay(&self, gone: usize)
        requires
            self.wf(),
            queue_entries(self.min_priority_queue).contains_key(gone),
        ensures
            forall|slot: usize| #[trigger]
                queue_entries(self.min_priority_queue).contains_key(slot) && slot != gone
                    ==> self.stays(gone, slot),
            forall|p: u128, i: int|
                self.left_by(gone).contains_key(p) && 0 <= i < self.left_by(gone)[p].len() ==> {
                    &&& queue_entries(self.min_priority_queue).contains_key(
                        #[trigger] self.left_by(gone)[p][i],
                    )
                    &&& self.left_by(gone)[p][i] != gone
                },
    {
        reveal(chained);
        let queued = queue_entries(self.min_priority_queue);
        let from = slot_rank(self.nodes@[gone as int]) as u128;
        let order = self.buckets@[from];
        let left = self.buckets_without(gone, from);
        assert(self.settled(gone));
        let pos = order.index_of(gone);
        assert(chained(self.nodes@, self.stamps@, order, self.priority_to_list@[from], from));
        lemma_remove(order, pos);
        assert forall|slot: usize| #[trigger] queued.contains_key(slot) && slot != gone implies self.stays(
            gone,
            slot,
        ) by {
            let p = slot_rank(self.nodes@[slot as int]) as u128;
            assert(self.settled(slot));
            if p == from {
                assert(order.contains(slot));
                let i = order.index_of(slot);
                assert(order[i] != order[pos]);
                assert(order.remove(pos).contains(slot));
            }
        }
        assert forall|p: u128, i: int| left.contains_key(p) && 0 <= i < left[p].len() implies {
            &&& queued.contains_key(#[trigger] left[p][i])
            &&& left[p][i] != gone
        } by {
            if p == from {
                assert(order.remove(pos).contains(left[p][i]));
                let j = order.index_of(left[p][i]);
                assert(queued.contains_key(self.buckets@[from][j]));
            } else {
                assert(queued.contains_key(self.buckets@[p][i]));
                let other = self.buckets@[p];
                assert(chained(self.nodes@, self.stamps@, other, self.priority_to_list@[p], p));
                assert(slot_rank(self.nodes@[other[i] as int]) == p);
            }
        }
    }

    /// The invariant and the view after the resident slot `idx` of `earlier`
    /// was counted, stamped, moved to the head of the bucket of its new
    /// priority `to`, and queued there.
    proof fn lemma_touched(&self, earlier: &Self, idx: usize, to: u128)
        requires
            earlier.wf(),
            queue_entries(earlier.min_priority_queue).contains_key(idx),
            self.bucketed(),
            self.capacity == earlier.capacity,
            self.key_to_idx == earlier.key_to_idx,
            self.free_list == earlier.free_list,
            self.nodes@.len() == earlier.nodes@.len(),
            forall|i: int|
                0 <= i < self.nodes@.len() ==> {
                    &&& (#[trigger] self.nodes@[i]).key == earlier.nodes@[i].key
                    &&& self.nodes@[i].value == earlier.nodes@[i].value
                    &&& self.nodes@[i].weight == earlier.nodes@[i].weight
                    &&& i != idx ==> self.nodes@[i].freq == earlier.nodes@[i].freq
                },
            self.nodes@[idx as int].freq == if earlier.nodes@[idx as int].freq < usize::MAX {
                earlier.nodes@[idx as int].freq + 1
            } else {
                earlier.nodes@[idx as int].freq as int
            },
            to == slot_rank(self.nodes@[idx as int]),
            self.stamps@ == earlier.stamps@.update(idx as int, earlier.clock@),
            self.clock@ == earlier.clock@ + 1,
            queue_entries(self.min_priority_queue) == queue_entries(
                earlier.min_priority_queue,
            ).insert(idx, to),
            ({
                let left = earlier.buckets_without(
                    idx,
                    slot_rank(earlier.nodes@[idx as int]) as u128,
                );
                self.buckets@ == left.insert(
                    to,
                    seq![idx] + if left.contains_key(to) {
                        left[to]
                    } else {
                        Seq::empty()
                    },
                )
            }),
        ensures
            self.wf(),
            self@ == touch(earlier@, earlier.nodes@[idx as int].key),
    {
        broadcast use group_hash_axioms;

        let queued = queue_entries(earlier.min_priority_queue);
        let requeued = queue_entries(self.min_priority_queue);
        let from = slot_rank(earlier.nodes@[idx as int]) as u128;
        let left = earlier.buckets_without(idx, from);
        let head = seq![idx] + if left.contains_key(to) {
            left[to]
        } else {
            Seq::empty()
        };
        earlier.lemma_others_stay(idx);
        assert(earlier.live(idx));
        assert(earlier.settled(idx));
        assert forall|slot: usize| #[trigger] requeued.contains_key(slot) implies self.live(slot) by {
            assert(queued.contains_key(slot));
            assert(earlier.live(slot));
        }
        assert forall|slot: usize| self.live(slot) implies #[trigger] requeued.contains_key(slot) by {
            assert(earlier.live(slot));
            assert(queued.contains_key(slot));
        }
        assert forall|a: usize, b: usize|
            #![trigger requeued.contains_key(a), requeued.contains_key(b)]
            requeued.contains_key(a) && requeued.contains_key(b) && a != b implies self.stamps@[a as int]
            != self.stamps@[b as int] by {
            assert(queued.contains_key(a) && queued.contains_key(b));
            assert(earlier.settled(a) && earlier.settled(b));
            assert(earlier.live(a) && earlier.live(b));
        }
        assert forall|j: int| 0 <= j < self.free_list@.len() implies (#[trigger] self.free_list@[j])
            < self.nodes@.len() && !requeued.contains_key(self.free_list@[j]) by {
            assert(!queued.contains_key(earlier.free_list@[j]));
        }
        assert(self.indexed());
        assert forall|slot: usize| #[trigger] requeued.contains_key(slot) implies self.settled(
            slot,
        ) by {
            assert(queued.contains_key(slot));
            assert(earlier.settled(slot));
            assert(earlier.live(slot));
            if slot == idx {
                assert(head[0] == idx);
                assert(self.buckets@[to] == head);
            } else {
                let p = slot_rank(earlier.nodes@[slot as int]) as u128;
                assert(earlier.stays(idx, slot));
                assert(left.contains_key(p));
                assert(left[p].contains(slot));
                if p == to {
                    let i = left[p].index_of(slot);
                    assert(head[i + 1] == slot);
                }
            }
        }
        assert forall|p: u128, i: int|
            self.buckets@.contains_key(p) && 0 <= i < self.buckets@[p].len() implies requeued.contains_key(
            #[trigger] self.buckets@[p][i],
        ) by {
            if p == to {
                if i > 0 {
                    assert(head[i] == left[to][i - 1]);
                    assert(queued.contains_key(left[to][i - 1]));
                }
            } else {
                assert(queued.contains_key(left[p][i]));
            }
        }
        assert(self.wf());
        let key = earlier.nodes@[idx as int].key;
        assert(self@.entries =~= touch(earlier@, key).entries) by {
            assert forall|k: K| #[trigger] self.key_to_idx@.contains_key(k) && k != key implies self.key_to_idx@[k]
                != idx by {}
        }
    }

    /// The tail of the bucket of the least queued priority is resident and
    /// holds the victim.
    proof fn lemma_tail_is_victim(&self, top: usize, least_priority: u128)
        requires
            self.wf(),
            queue_entries(self.min_priority_queue).contains_key(top),
            queue_entries(self.min_priority_queue)[top] == least_priority,
            least(queue_entries(self.min_priority_queue), top),
        ensures
            self.buckets@.contains_key(least_priority),
            self.priority_to_list@.contains_key(least_priority),
            self.buckets@[least_priority].len() > 0,
            ({
                let tail = self.buckets@[least_priority].last();
                &&& self.priority_to_list@[least_priority].tail == Some(tail)
                &&& queue_entries(self.min_priority_queue).contains_key(tail)
                &&& self.rank_at(tail) == least_priority
                &&& self.buckets@[least_priority].contains(tail)
                &&& is_victim(self@.entries, self.nodes@[tail as int].key)
            }),
    {
        reveal(chained);
        let queued = queue_entries(self.min_priority_queue);
        assert(self.settled(top));
        let order = self.buckets@[least_priority];
        assert(chained(
            self.nodes@,
            self.stamps@,
            order,
            self.priority_to_list@[least_priority],
            least_priority,
        ));
        let last = order.len() - 1;
        let tail = order[last];
        assert(queued.contains_key(self.buckets@[least_priority][last]));
        assert(self.live(tail));
        assert(self.settled(tail));
        let key = self.nodes@[tail as int].key;
        assert forall|other: K| #[trigger] self@.entries.contains_key(other) implies precedes(
            self@.entries[key],
            self@.entries[other],
        ) by {
            let slot = self.key_to_idx@[other];
            assert(self.live(slot));
            assert(queued.contains_key(slot));
            assert(self.settled(slot));
            assert(queued[top] <= queued[slot]);
            if queued[slot] == least_priority && slot != tail {
                let i = order.index_of(slot);
                assert(order[i] == slot);
                assert(self.stamps@[order[i] as int] > self.stamps@[order[last] as int]);
            }
        }
    }

    /// The invariant and the view after the resident slot `gone` of
    /// `earlier` left key index, bucket and queue and joined the spare slots.
    proof fn lemma_evicted(&self, earlier: &Self, gone: usize)
        requires
            earlier.wf(),
            queue_entries(earlier.min_priority_queue).contains_key(gone),
            self.bucketed(),
            self.capacity == earlier.capacity,
            self.stamps == earlier.stamps,
            self.clock == earlier.clock,
            self.nodes@.len() == earlier.nodes@.len(),
            forall|i: int|
                0 <= i < self.nodes@.len() ==> {
                    &&& (#[trigger] self.nodes@[i]).key == earlier.nodes@[i].key
                    &&& self.nodes@[i].value == earlier.nodes@[i].value
                    &&& self.nodes@[i].weight == earlier.nodes@[i].weight
                    &&& self.nodes@[i].freq == earlier.nodes@[i].freq
                },
            self.key_to_idx@ == earlier.key_to_idx@.remove(earlier.nodes@[gone as int].key),
            queue_entries(self.min_priority_queue) == queue_entries(
                earlier.min_priority_queue,
            ).remove(gone),
            self.free_list@ == earlier.free_list@.push(gone),
            self.buckets@ == earlier.left_by(gone),
        ensures
            self.wf(),
            self@ == (LfuView {
                entries: earlier@.entries.remove(earlier.nodes@[gone as int].key),
                ..earlier@
            }),
    {
        broadcast use group_hash_axioms;

        let queued = queue_entries(earlier.min_priority_queue);
        let requeued = queue_entries(self.min_priority_queue);
        let key = earlier.nodes@[gone as int].key;
        earlier.lemma_others_stay(gone);
        assert(earlier.live(gone));
        assert forall|slot: usize| #[trigger] requeued.contains_key(slot) implies self.live(slot) by {
            assert(queued.contains_key(slot));
            assert(earlier.live(slot));
        }
        assert forall|slot: usize| self.live(slot) implies #[trigger] requeued.contains_key(slot) by {
            assert(earlier.live(slot));
            assert(queued.contains_key(slot));
        }
        assert forall|a: usize, b: usize|
            #![trigger requeued.contains_key(a), requeued.contains_key(b)]
            requeued.contains_key(a) && requeued.contains_key(b) && a != b implies self.stamps@[a as int]
            != self.stamps@[b as int] by {
            assert(queued.contains_key(a) && queued.contains_key(b));
        }
        assert forall|j: int| 0 <= j < self.free_list@.len() implies (#[trigger] self.free_list@[j])
            < self.nodes@.len() && !requeued.contains_key(self.free_list@[j]) by {
            if j < earlier.free_list@.len() {
                assert(self.free_list@[j] == earlier.free_list@[j]);
                assert(!queued.contains_key(earlier.free_list@[j]));
            }
        }
        assert(self.free_list@.no_duplicates()) by {
            assert forall|a: int, b: int|
                0 <= a < self.free_list@.len() && 0 <= b < self.free_list@.len() && a
                    != b implies self.free_list@[a] != self.free_list@[b] by {
                if a < earlier.free_list@.len() {
                    assert(!queued.contains_key(earlier.free_list@[a]));
                }
                if b < earlier.free_list@.len() {
                    assert(!queued.contains_key(earlier.free_list@[b]));
                }
            }
        }
        assert(self.key_to_idx@.len() <= self.capacity);
        assert(self.indexed());
        assert forall|slot: usize| #[trigger] requeued.contains_key(slot) implies self.settled(
            slot,
        ) by {
            assert(queued.contains_key(slot));
            assert(earlier.settled(slot));
            assert(earlier.stays(gone, slot));
        }
        assert forall|p: u128, i: int|
            self.buckets@.contains_key(p) && 0 <= i < self.buckets@[p].len() implies requeued.contains_key(
            #[trigger] self.buckets@[p][i],
        ) by {
            assert(queued.contains_key(earlier.left_by(gone)[p][i]));
        }
        assert(self.wf());
        assert(self@.entries =~= earlier@.entries.remove(key));
    }

    /// The invariant and the view after `key` entered `earlier`, which did
    /// not hold it and was not full, in slot `idx` with access count 1.
    proof fn lemma_inserted(&self, earlier: &Self, idx: usize, key: K)
        requires
            earlier.wf(),
            !earlier.key_to_idx@.contains_key(key),
            earlier.key_to_idx@.len() < earlier.capacity,
            !queue_entries(earlier.min_priority_queue).contains_key(idx),
            self.bucketed(),
            self.capacity == earlier.capacity,
            self.key_to_idx@ == earlier.key_to_idx@.insert(key, idx),
            idx < self.nodes@.len(),
            self.nodes@.len() >= earlier.nodes@.len(),
            self.nodes@.len() == earlier.key_to_idx@.len() + self.free_list@.len() + 1,
            self.nodes@.len() <= earlier.capacity,
            self.nodes@[idx as int].key == key,
            self.nodes@[idx as int].freq == 1,
            forall|i: int|
                0 <= i < earlier.nodes@.len() && i != idx ==> {
                    &&& (#[trigger] self.nodes@[i]).key == earlier.nodes@[i].key
                    &&& self.nodes@[i].value == earlier.nodes@[i].value
                    &&& self.nodes@[i].weight == earlier.nodes@[i].weight
                    &&& self.nodes@[i].freq == earlier.nodes@[i].freq
                    &&& self.stamps@[i] == earlier.stamps@[i]
                },
            self.stamps@[idx as int] == earlier.clock@,
            self.clock@ == earlier.clock@ + 1,
            self.free_list@.no_duplicates(),
            forall|j: int|
                0 <= j < self.free_list@.len() ==> {
                    &&& (#[trigger] self.free_list@[j]) < earlier.nodes@.len()
                    &&& self.free_list@[j] != idx
                    &&& !queue_entries(earlier.min_priority_queue).contains_key(self.free_list@[j])
                },
            queue_entries(self.min_priority_queue) == queue_entries(
                earlier.min_priority_queue,
            ).insert(idx, self.rank_at(idx)),
            self.rank_at(idx) == slot_rank(self.nodes@[idx as int]),
            self.buckets@ == earlier.buckets@.insert(
                self.rank_at(idx),
                seq![idx] + earlier.bucket(self.rank_at(idx)),
            ),
        ensures
            self.wf(),
            self@ == (LfuView {
                clock: earlier@.clock + 1,
                entries: earlier@.entries.insert(
                    key,
                    LfuEntry {
                        value: self.nodes@[idx as int].value,
                        weight: self.nodes@[idx as int].weight,
                        freq: 1,
                        touched: earlier@.clock,
                    },
                ),
                ..earlier@
            }),
    {
        broadcast use group_hash_axioms;

        let queued = queue_entries(earlier.min_priority_queue);
        let requeued = queue_entries(self.min_priority_queue);
        let to = self.rank_at(idx);
        let head = seq![idx] + earlier.bucket(to);
        assert forall|k: K| #[trigger] self.key_to_idx@.contains_key(k) implies self.key_to_idx@[k]
            < self.nodes@.len() && self.nodes@[self.key_to_idx@[k] as int].key == k by {
            if k != key {
                assert(earlier.live(earlier.key_to_idx@[k]));
                assert(queued.contains_key(earlier.key_to_idx@[k]));
            }
        }
        assert forall|slot: usize| #[trigger] requeued.contains_key(slot) implies self.live(slot) by {
            if slot != idx {
                assert(queued.contains_key(slot));
                assert(earlier.live(slot));
            }
        }
        assert forall|slot: usize| self.live(slot) implies #[trigger] requeued.contains_key(slot) by {
            if slot != idx {
                let k = self.nodes@[slot as int].key;
                assert(self.key_to_idx@[k] == slot);
                assert(k != key);
                assert(earlier.key_to_idx@.contains_key(k));
                assert(earlier.nodes@[earlier.key_to_idx@[k] as int].key == k);
                assert(earlier.live(slot));
                assert(queued.contains_key(slot));
            }
        }
        assert forall|a: usize, b: usize|
            #![trigger requeued.contains_key(a), requeued.contains_key(b)]
            requeued.contains_key(a) && requeued.contains_key(b) && a != b implies self.stamps@[a as int]
            != self.stamps@[b as int] by {
            if a != idx {
                assert(queued.contains_key(a));
                assert(earlier.settled(a));
                assert(earlier.live(a));
            }
            if b != idx {
                assert(queued.contains_key(b));
                assert(earlier.settled(b));
                assert(earlier.live(b));
            }
        }
        assert(self.indexed());
        assert forall|slot: usize| #[trigger] requeued.contains_key(slot) implies self.settled(
            slot,
        ) by {
            if slot == idx {
                assert(head[0] == idx);
            } else {
                assert(queued.contains_key(slot));
                assert(earlier.settled(slot));
                assert(earlier.live(slot));
                let p = earlier.rank_at(slot);
                if p == to {
                    let i = earlier.buckets@[p].index_of(slot);
                    assert(head[i + 1] == slot);
                }
            }
        }
        assert forall|p: u128, i: int|
            self.buckets@.contains_key(p) && 0 <= i < self.buckets@[p].len() implies requeued.contains_key(
            #[trigger] self.buckets@[p][i],
        ) by {
            if p == to {
                if i > 0 {
                    assert(head[i] == earlier.buckets@[to][i - 1]);
                    assert(queued.contains_key(earlier.buckets@[to][i - 1]));
                }
            } else {
                assert(queued.contains_key(earlier.buckets@[p][i]));
            }
        }
        assert(self.wf());
        assert(self@.entries =~= earlier@.entries.insert(
            key,
            LfuEntry {
                value: self.nodes@[idx as int].value,
                weight: self.nodes@[idx as int].weight,
                freq: 1,
                touched: earlier@.clock,
            },
        )) by {
            assert forall|k: K| #[trigger] earlier.key_to_idx@.contains_key(k) implies earlier.key_to_idx@[k]
                != idx && earlier.key_to_idx@[k] < earlier.nodes@.len() by {
                assert(earlier.live(earlier.key_to_idx@[k]));
                assert(queued.contains_key(earlier.key_to_idx@[k]));
            }
        }
    }
}

} // verus!
