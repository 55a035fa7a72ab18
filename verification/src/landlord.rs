//! The Landlord policy: every resident entry holds credit that runs out when
//! the shared threshold `L` reaches the entry's due point. An access re-arms
//! the entry to its full weight above the threshold; an eviction takes an
//! entry with the least due point and raises the threshold to it.

use crate::keys::key_model;
use crate::seqs::next_slot;
use crate::queue::{
    least, queue_change_priority, queue_entries, queue_new, queue_pop, queue_push, SlotQueue,
};
use std::collections::HashMap;
use std::hash::Hash;
use vstd::prelude::*;
use vstd::std_specs::hash::*;

verus! {

/// What the cache stores for a key: the value and the weight it was put with.
pub struct LandlordNode<V> {
    value: V,
    weight: u32,
}

struct Slot<K, V> {
    key: K,
    node: LandlordNode<V>,
}

/// A cache under the Landlord policy. Entries live in an arena of slots;
/// `cache` gives the slot of each key and `pq` queues the resident slots by
/// due point.
pub struct Landlord<K, V> {
    capacity: usize,
    l: u128,
    pq: SlotQueue,
    cache: HashMap<K, usize>,
    slots: Vec<Slot<K, V>>,
    free_list: Vec<usize>,
}

/// A resident entry: its value, its weight, and the threshold at which its
/// credit is used up.
pub struct Tenant<V> {
    pub value: V,
    pub weight: u32,
    pub due: nat,
}

/// The state of a Landlord cache.
#[verifier::reject_recursive_types(K)]
pub struct LandlordView<K, V> {
    pub capacity: nat,
    pub threshold: nat,
    pub tenants: Map<K, Tenant<V>>,
}

/// The due point of an entry of weight `weight` that is armed at `threshold`:
/// their sum, held at the greatest 128-bit number should the sum pass it.
pub open spec fn rearmed(threshold: nat, weight: u32) -> nat {
    if threshold + weight > u128::MAX {
        u128::MAX as nat
    } else {
        (threshold + weight) as nat
    }
}

/// Whether no tenant is due before `key`.
pub open spec fn first_due<K, V>(tenants: Map<K, Tenant<V>>, key: K) -> bool {
    forall|other: K| #[trigger] tenants.contains_key(other) ==> tenants[key].due <= tenants[other].due
}

/// `post` is `pre` after one eviction: a tenant that is due first has left
/// and the threshold stands at its due point; an empty cache is unchanged.
pub open spec fn evicted<K, V>(pre: LandlordView<K, V>, post: LandlordView<K, V>) -> bool {
    if pre.tenants.dom() =~= Set::empty() {
        post == pre
    } else {
        exists|key: K|
            {
                &&& #[trigger] pre.tenants.contains_key(key)
                &&& first_due(pre.tenants, key)
                &&& post.capacity == pre.capacity
                &&& post.threshold == pre.tenants[key].due
                &&& post.tenants == pre.tenants.remove(key)
            }
    }
}

/// What every reachable state satisfies: room for an entry, finitely many
/// tenants and no more than the capacity, none due before the threshold,
/// and threshold and due points within 128 bits.
pub open spec fn sound<K, V>(state: LandlordView<K, V>) -> bool {
    &&& state.capacity >= 1
    &&& state.tenants.dom().finite()
    &&& state.tenants.len() <= state.capacity
    &&& state.threshold <= u128::MAX
    &&& forall|k: K| #[trigger]
        state.tenants.contains_key(k) ==> state.threshold <= state.tenants[k].due <= u128::MAX
}

/// `state` with `key` armed at the current threshold under `value` and `weight`.
pub open spec fn admitted<K, V>(state: LandlordView<K, V>, key: K, value: V, weight: u32)
    -> LandlordView<K, V> {
    LandlordView {
        tenants: state.tenants.insert(
            key,
            Tenant { value, weight, due: rearmed(state.threshold, weight) },
        ),
        ..state
    }
}

/// `post` is `pre` after `key` was put with `value` and `weight`. A resident
/// key takes the value and is re-armed as by a lookup, with the weight it
/// has; the weight given is not used. A new key is admitted with the weight
/// given, after one eviction if the cache was full.
pub open spec fn put_into<K, V>(
    pre: LandlordView<K, V>,
    key: K,
    value: V,
    weight: u32,
    post: LandlordView<K, V>,
) -> bool {
    if pre.tenants.contains_key(key) {
        post == admitted(pre, key, value, pre.tenants[key].weight)
    } else if pre.tenants.len() < pre.capacity {
        post == admitted(pre, key, value, weight)
    } else {
        exists|mid: LandlordView<K, V>| #[trigger]
            evicted(pre, mid) && post == admitted(mid, key, value, weight)
    }
}

/// `state` after a lookup of `key`: a resident key is re-armed at the
/// current threshold with its own weight, a miss changes nothing.
pub open spec fn looked_up<K, V>(state: LandlordView<K, V>, key: K) -> LandlordView<K, V> {
    if state.tenants.contains_key(key) {
        admitted(state, key, state.tenants[key].value, state.tenants[key].weight)
    } else {
        state
    }
}

/// An eviction keeps a sound state sound and never lowers the threshold.
/// From a cache with tenants it takes exactly one, and the threshold
/// afterwards is the due point that tenant had.
pub proof fn lemma_evicted<K, V>(pre: LandlordView<K, V>, post: LandlordView<K, V>)
    requires
        sound(pre),
        evicted(pre, post),
    ensures
        sound(post),
        post.capacity == pre.capacity,
        post.threshold >= pre.threshold,
        pre.tenants.len() == 0 ==> post == pre,
        pre.tenants.len() > 0 ==> post.tenants.len() == pre.tenants.len() - 1,
        forall|k: K| #[trigger]
            post.tenants.contains_key(k) ==> pre.tenants.contains_key(k) && post.tenants[k]
                == pre.tenants[k],
{
    if pre.tenants.dom() =~= Set::empty() {
        assert(pre.tenants.len() == 0);
    } else {
        assert(pre.tenants.len() > 0) by {
            vstd::set_lib::lemma_set_empty_equivalency_len(pre.tenants.dom());
        }
        let key = choose|key: K|
            {
                &&& #[trigger] pre.tenants.contains_key(key)
                &&& first_due(pre.tenants, key)
                &&& post.capacity == pre.capacity
                &&& post.threshold == pre.tenants[key].due
                &&& post.tenants == pre.tenants.remove(key)
            };
        assert forall|k: K| #[trigger] post.tenants.contains_key(k) implies post.threshold
            <= post.tenants[k].due <= u128::MAX by {
            assert(pre.tenants.contains_key(k));
        }
    }
}

/// A lookup keeps a sound state sound and leaves threshold, keys, values
/// and weights as they were. A miss changes nothing.
pub proof fn lemma_looked_up<K, V>(state: LandlordView<K, V>, key: K)
    requires
        sound(state),
    ensures
        sound(looked_up(state, key)),
        looked_up(state, key).capacity == state.capacity,
        looked_up(state, key).threshold == state.threshold,
        looked_up(state, key).tenants.dom() == state.tenants.dom(),
        forall|k: K| #[trigger]
            state.tenants.contains_key(k) ==> {
                &&& looked_up(state, key).tenants[k].value == state.tenants[k].value
                &&& looked_up(state, key).tenants[k].weight == state.tenants[k].weight
            },
        !state.tenants.contains_key(key) ==> looked_up(state, key) == state,
{
    if state.tenants.contains_key(key) {
        assert(looked_up(state, key).tenants.dom() =~= state.tenants.dom());
    }
}

/// A put keeps a sound state sound and never lowers the threshold.
/// Afterwards the key is resident with the value put, due a full weight
/// above the threshold: the weight it had if it was resident, the weight
/// put if it is new. Every other tenant was one before and is unchanged.
/// The number of tenants is as before for a resident key or a full cache,
/// and one more otherwise.
pub proof fn lemma_put_into<K, V>(
    pre: LandlordView<K, V>,
    key: K,
    value: V,
    weight: u32,
    post: LandlordView<K, V>,
)
    requires
        sound(pre),
        put_into(pre, key, value, weight, post),
    ensures
        sound(post),
        post.capacity == pre.capacity,
        post.threshold >= pre.threshold,
        post.tenants.contains_key(key),
        post.tenants[key].value == value,
        post.tenants[key].weight == if pre.tenants.contains_key(key) {
            pre.tenants[key].weight
        } else {
            weight
        },
        post.tenants[key].due == rearmed(post.threshold, post.tenants[key].weight),
        forall|k: K|
            k != key && #[trigger] post.tenants.contains_key(k) ==> pre.tenants.contains_key(k)
                && post.tenants[k] == pre.tenants[k],
        post.tenants.len() == if pre.tenants.contains_key(key) || pre.tenants.len()
            >= pre.capacity {
            pre.tenants.len()
        } else {
            pre.tenants.len() + 1
        },
        pre.tenants.contains_key(key) || pre.tenants.len() < pre.capacity ==> {
            &&& post.threshold == pre.threshold
            &&& forall|k: K| #[trigger] pre.tenants.contains_key(k) ==> post.tenants.contains_key(k)
        },
{
    if pre.tenants.contains_key(key) || pre.tenants.len() < pre.capacity {
        if pre.tenants.contains_key(key) {
            assert(post.tenants.dom() =~= pre.tenants.dom());
        }
    } else {
        let mid = choose|mid: LandlordView<K, V>| #[trigger]
            evicted(pre, mid) && post == admitted(mid, key, value, weight);
        lemma_evicted(pre, mid);
        assert(!mid.tenants.contains_key(key));
        assert forall|k: K| #[trigger] post.tenants.contains_key(k) implies post.threshold
            <= post.tenants[k].due <= u128::MAX by {
            if k != key {
                assert(mid.tenants.contains_key(k));
            }
        }
    }
}

/// One operation on a Landlord cache.
pub enum Request<K, V> {
    Put { key: K, value: V, weight: u32 },
    Get { key: K },
    Evict,
}

/// `post` is `pre` after the operation `request`.
pub open spec fn served<K, V>(
    pre: LandlordView<K, V>,
    request: Request<K, V>,
    post: LandlordView<K, V>,
) -> bool {
    match request {
        Request::Put { key, value, weight } => put_into(pre, key, value, weight, post),
        Request::Get { key } => post == looked_up(pre, key),
        Request::Evict => evicted(pre, post),
    }
}

/// `states` are the states that a cache goes through while `requests` are
/// served one after the other.
pub open spec fn history<K, V>(states: Seq<LandlordView<K, V>>, requests: Seq<Request<K, V>>)
    -> bool {
    &&& states.len() == requests.len() + 1
    &&& forall|i: int|
        0 <= i < requests.len() ==> served(#[trigger] states[i], requests[i], states[i + 1])
}

/// Over any sequence of puts, lookups and evictions, every state is sound
/// and the threshold of a later state is never below that of an earlier one.
pub proof fn lemma_threshold_never_falls<K, V>(
    states: Seq<LandlordView<K, V>>,
    requests: Seq<Request<K, V>>,
    earlier: int,
    later: int,
)
    requires
        history(states, requests),
        sound(states[0]),
        0 <= earlier <= later < states.len(),
    ensures
        sound(states[later]),
        states[earlier].threshold <= states[later].threshold,
    decreases later,
{
    if later > 0 {
        let before = later - 1;
        lemma_threshold_never_falls(states, requests, 0, before);
        if earlier < later {
            lemma_threshold_never_falls(states, requests, earlier, before);
        }
        assert(served(states[before], requests[before], states[before + 1]));
        match requests[before] {
            Request::Put { key, value, weight } => {
                lemma_put_into(states[before], key, value, weight, states[later]);
            },
            Request::Get { key } => {
                lemma_looked_up(states[before], key);
            },
            Request::Evict => {
                lemma_evicted(states[before], states[later]);
            },
        }
    }
}

impl<K, V> View for Landlord<K, V> {
    type V = LandlordView<K, V>;

    closed spec fn view(&self) -> LandlordView<K, V> {
        LandlordView {
            capacity: self.capacity as nat,
            threshold: self.l as nat,
            tenants: Map::new(
                |k: K| self.cache@.contains_key(k),
                |k: K|
                    Tenant {
                        value: self.slots@[self.cache@[k] as int].node.value,
                        weight: self.slots@[self.cache@[k] as int].node.weight,
                        due: queue_entries(self.pq)[self.cache@[k]] as nat,
                    },
            ),
        }
    }
}

impl<K: Clone + Hash + Eq, V> Landlord<K, V> {
    /// The number of slots in the arena, resident and spare.
    pub closed spec fn arena_len(&self) -> nat {
        self.slots@.len()
    }

    /// The key that each slot of the arena holds.
    pub closed spec fn slot_keys(&self) -> Seq<K> {
        Seq::new(self.slots@.len(), |i: int| self.slots@[i].key)
    }

    /// The slot that the key index gives for each key.
    pub closed spec fn index(&self) -> Map<K, usize> {
        self.cache@
    }

    /// The slots that wait for reuse, the one freed last at the end.
    pub closed spec fn spare(&self) -> Seq<usize> {
        self.free_list@
    }

    /// The slots that the queue holds, each with its due point.
    pub closed spec fn queued(&self) -> Map<usize, u128> {
        queue_entries(self.pq)
    }

    /// `self` is the arena with slot keys `slot_keys`, key index `index`,
    /// spare slots `spare` and queue `queued` after a new entry went in: it
    /// took the spare slot freed last, or else the arena grew by a slot for
    /// it; the slot holds `key`, stands under `key` in the index and is
    /// queued at `due`; the other slots are as they were.
    pub open spec fn entered(
        &self,
        index: Map<K, usize>,
        spare: Seq<usize>,
        slot_keys: Seq<K>,
        queued: Map<usize, u128>,
        key: K,
        due: nat,
    ) -> bool {
        let slot = next_slot(spare, slot_keys.len());
        &&& self.index() == index.insert(key, slot)
        &&& self.queued() == queued.insert(slot, due as u128)
        &&& if spare.len() > 0 {
            &&& self.spare() == spare.drop_last()
            &&& self.slot_keys() == slot_keys.update(slot as int, key)
        } else {
            &&& self.spare() == spare
            &&& self.slot_keys() == slot_keys.push(key)
        }
    }

    /// `self` is `earlier` with the slot of the resident `key` queued anew
    /// at the due point that its tenant has now; nothing else of the arena
    /// has changed.
    pub open spec fn requeued(&self, earlier: &Self, key: K) -> bool {
        &&& self.index() == earlier.index()
        &&& self.spare() == earlier.spare()
        &&& self.slot_keys() == earlier.slot_keys()
        &&& self.queued() == earlier.queued().insert(
            earlier.index()[key],
            self@.tenants[key].due as u128,
        )
    }

    /// Whether `slot` holds the entry that the key index has under the slot's key.
    spec fn live(&self, slot: usize) -> bool {
        &&& slot < self.slots@.len()
        &&& self.cache@.contains_key(self.slots@[slot as int].key)
        &&& self.cache@[self.slots@[slot as int].key] == slot
    }

    /// The cache's invariant: at most `capacity` keys, each indexed to the one
    /// slot that holds it; the queue holds exactly those slots, none of them
    /// due before the threshold; the other slots of the arena are the spare
    /// ones, and the arena has no more than `capacity` slots.
    pub closed spec fn wf(&self) -> bool {
        let queued = queue_entries(self.pq);
        &&& key_model::<K>()
        &&& self.capacity >= 1
        &&& self.cache@.len() <= self.capacity
        &&& self.slots@.len() == self.cache@.len() + self.free_list@.len()
        &&& self.slots@.len() <= self.capacity
        &&& forall|k: K| #[trigger]
            self.cache@.contains_key(k) ==> self.cache@[k] < self.slots@.len()
                && self.slots@[self.cache@[k] as int].key == k
        &&& forall|slot: usize| #[trigger] queued.contains_key(slot) <==> self.live(slot)
        &&& forall|slot: usize| #[trigger] queued.contains_key(slot) ==> queued[slot] >= self.l
        &&& self.free_list@.no_duplicates()
        &&& forall|j: int|
            0 <= j < self.free_list@.len() ==> (#[trigger] self.free_list@[j]) < self.slots@.len()
                && !queued.contains_key(self.free_list@[j])
    }

    /// What the invariant says of the view: as many tenants as indexed keys,
    /// none more than the capacity, none due before the threshold.
    proof fn lemma_tenants(&self)
        requires
            self.wf(),
        ensures
            self@.tenants.dom() == self.cache@.dom(),
            self@.tenants.len() == self.cache@.len(),
            self@.tenants.dom().finite(),
            self@.tenants.len() <= self@.capacity,
            self@.capacity >= 1,
            self@.threshold <= u128::MAX,
            forall|k: K| #[trigger]
                self@.tenants.contains_key(k) ==> self@.threshold <= self@.tenants[k].due
                    <= u128::MAX,
    {
        broadcast use group_hash_axioms;

        assert(self@.tenants.dom() =~= self.cache@.dom());
        assert forall|k: K| #[trigger] self@.tenants.contains_key(k) implies self@.threshold
            <= self@.tenants[k].due <= u128::MAX by {
            assert(self.live(self.cache@[k]));
            assert(queue_entries(self.pq).contains_key(self.cache@[k]));
        }
    }

    /// A cache that meets its invariant is in a sound state, over a key type
    /// that meets the key model, and its arena has not grown past the
    /// capacity.
    pub proof fn lemma_sound(&self)
        requires
            self.wf(),
        ensures
            sound(self@),
            key_model::<K>(),
            self.arena_len() <= self@.capacity,
    {
        self.lemma_tenants();
    }

    /// Under the invariant the key index leads every key to a slot of the
    /// arena that holds this key; the queue holds exactly those slots, each
    /// at its tenant's due point; the spare slots are the other slots of
    /// the arena, none of them twice.
    pub proof fn lemma_arena(&self)
        requires
            self.wf(),
        ensures
            self.slot_keys().len() == self.arena_len(),
            self@.tenants.dom() == self.index().dom(),
            forall|k: K| #[trigger]
                self.index().contains_key(k) ==> {
                    &&& self.index()[k] < self.arena_len()
                    &&& self.slot_keys()[self.index()[k] as int] == k
                    &&& self.queued().contains_key(self.index()[k])
                    &&& self.queued()[self.index()[k]] == self@.tenants[k].due
                },
            forall|slot: usize| #[trigger]
                self.queued().contains_key(slot) ==> {
                    &&& slot < self.arena_len()
                    &&& self.index().contains_key(self.slot_keys()[slot as int])
                    &&& self.index()[self.slot_keys()[slot as int]] == slot
                },
            self.spare().no_duplicates(),
            forall|j: int|
                0 <= j < self.spare().len() ==> (#[trigger] self.spare()[j]) < self.arena_len()
                    && !self.queued().contains_key(self.spare()[j]),
            self.arena_len() == self.index().len() + self.spare().len(),
    {
        self.lemma_tenants();
        assert forall|k: K| #[trigger] self.index().contains_key(k) implies {
            &&& self.index()[k] < self.arena_len()
            &&& self.slot_keys()[self.index()[k] as int] == k
            &&& self.queued().contains_key(self.index()[k])
            &&& self.queued()[self.index()[k]] == self@.tenants[k].due
        } by {
            assert(self.live(self.cache@[k]));
        }
        assert forall|slot: usize| #[trigger] self.queued().contains_key(slot) implies {
            &&& slot < self.arena_len()
            &&& self.index().contains_key(self.slot_keys()[slot as int])
            &&& self.index()[self.slot_keys()[slot as int]] == slot
        } by {
            assert(self.live(slot));
        }
    }

    /// An empty cache for at most `capacity` entries, with threshold 0 and
    /// an empty arena.
    pub fn new(capacity: usize) -> (cache: Self)
        requires
            capacity > 0,
            key_model::<K>(),
        ensures
            cache.wf(),
            cache@.capacity == capacity,
            cache@.threshold == 0,
            cache@.tenants == Map::<K, Tenant<V>>::empty(),
            cache.slot_keys() == Seq::<K>::empty(),
            cache.spare() == Seq::<usize>::empty(),
            cache.index() == Map::<K, usize>::empty(),
            cache.queued() == Map::<usize, u128>::empty(),
    {
        let cache = Landlord {
            capacity,
            l: 0,
            pq: queue_new(),
            cache: HashMap::new(),
            slots: Vec::new(),
            free_list: Vec::new(),
        };
        assert(cache@.tenants =~= Map::<K, Tenant<V>>::empty());
        assert(cache.slot_keys() =~= Seq::<K>::empty());
        cache
    }

    /// The greatest number of entries that the cache holds.
    pub fn capacity(&self) -> (capacity: usize)
        ensures
            capacity == self@.capacity,
    {
        self.capacity
    }

    /// The threshold `L`: the due point of the entry evicted last, 0 before
    /// the first eviction.
    pub fn threshold(&self) -> (l: u128)
        ensures
            l == self@.threshold,
    {
        self.l
    }

    /// The number of entries.
    pub fn len(&self) -> (n: usize)
        requires
            self.wf(),
        ensures
            n == self@.tenants.len(),
    {
        broadcast use group_hash_axioms;

        proof {
            self.lemma_tenants();
        }
        self.cache.len()
    }

    /// Whether the cache holds no entry.
    pub fn is_empty(&self) -> (empty: bool)
        requires
            self.wf(),
        ensures
            empty == (self@.tenants.len() == 0),
    {
        broadcast use group_hash_axioms;

        proof {
            self.lemma_tenants();
        }
        self.cache.len() == 0
    }

    /// Looks `key` up; a hit is re-armed at the current threshold.
    pub fn get(&mut self, key: K) -> (value: Option<&V>)
        requires
            old(self).wf(),
        ensures
            final(self).wf(),
            final(self)@ == looked_up(old(self)@, key),
            final(self)@.threshold == old(self)@.threshold,
            match value {
                Some(v) => old(self)@.tenants.contains_key(key) && *v == old(self)@.tenants[key].value,
                None => !old(self)@.tenants.contains_key(key),
            },
            if old(self)@.tenants.contains_key(key) {
                final(self).requeued(old(self), key)
            } else {
                &&& final(self).index() == old(self).index()
                &&& final(self).spare() == old(self).spare()
                &&& final(self).slot_keys() == old(self).slot_keys()
                &&& final(self).queued() == old(self).queued()
            },
    {
        broadcast use group_hash_axioms;

        let idx = match self.cache.get(&key) {
            Some(slot) => *slot,
            None => {
                return None;
            },
        };
        let ghost queued = queue_entries(self.pq);
        assert(self.live(idx));
        let due = self.rearm(self.slots[idx].node.weight);
        queue_change_priority(&mut self.pq, idx, due);
        proof {
            let requeued = queue_entries(self.pq);
            assert(requeued == queued.insert(idx, due));
            assert forall|s: usize| #[trigger] requeued.contains_key(s) implies self.live(s) by {
                assert(old(self).live(s));
            }
            assert forall|s: usize| self.live(s) implies #[trigger] requeued.contains_key(s) by {
                assert(old(self).live(s));
                assert(queued.contains_key(s));
            }
            assert(self.wf());
            assert(self@.tenants =~= looked_up(old(self)@, key).tenants) by {
                assert forall|k: K| #[trigger] self.cache@.contains_key(k) && k != key implies self.cache@[k]
                    != idx by {}
            }
            assert(self.slot_keys() =~= old(self).slot_keys());
        }
        Some(&self.slots[idx].node.value)
    }

    /// Puts `value` under `key`. A resident key takes the value and is
    /// re-armed as by a lookup, with the weight it has; the weight given is
    /// not used. A new key enters with `weight`, armed at the current
    /// threshold, after one eviction if the cache was full.
    pub fn put(&mut self, key: K, value: V, weight: u32)
        requires
            old(self).wf(),
        ensures
            final(self).wf(),
            put_into(old(self)@, key, value, weight, final(self)@),
            final(self)@.threshold >= old(self)@.threshold,
            if old(self)@.tenants.contains_key(key) {
                final(self).requeued(old(self), key)
            } else if old(self)@.tenants.len() < old(self)@.capacity {
                final(self).entered(
                    old(self).index(),
                    old(self).spare(),
                    old(self).slot_keys(),
                    old(self).queued(),
                    key,
                    rearmed(old(self)@.threshold, weight),
                )
            } else {
                exists|gone: usize|
                    {
                        &&& #[trigger] old(self).queued().contains_key(gone)
                        &&& least(old(self).queued(), gone)
                        &&& final(self)@.threshold == old(self).queued()[gone]
                        &&& final(self).entered(
                            old(self).index().remove(old(self).slot_keys()[gone as int]),
                            old(self).spare().push(gone),
                            old(self).slot_keys(),
                            old(self).queued().remove(gone),
                            key,
                            rearmed(old(self).queued()[gone] as nat, weight),
                        )
                    }
            },
    {
        broadcast use group_hash_axioms;

        let hit = match self.cache.get(&key) {
            Some(slot) => Some(*slot),
            None => None,
        };
        if let Some(idx) = hit {
            let ghost queued = queue_entries(self.pq);
            assert(self.live(idx));
            self.slots[idx].node.value = value;
            let due = self.rearm(self.slots[idx].node.weight);
            queue_change_priority(&mut self.pq, idx, due);
            proof {
                let requeued = queue_entries(self.pq);
                assert(requeued == queued.insert(idx, due));
                assert forall|s: usize| #[trigger] requeued.contains_key(s) implies self.live(
                    s,
                ) by {
                    assert(old(self).live(s));
                }
                assert forall|s: usize| self.live(s) implies #[trigger] requeued.contains_key(
                    s,
                ) by {
                    assert(old(self).live(s));
                    assert(queued.contains_key(s));
                }
                assert(self.wf());
                assert(self@.tenants =~= admitted(
                    old(self)@,
                    key,
                    value,
                    old(self)@.tenants[key].weight,
                ).tenants) by {
                    assert forall|k: K| #[trigger] self.cache@.contains_key(k) && k
                        != key implies self.cache@[k] != idx by {}
                }
                assert(self.slot_keys() =~= old(self).slot_keys());
            }
        } else {
            if self.cache.len() >= self.capacity {
                self.evict();
            }
            let ghost mid = *self;
            proof {
                old(self).lemma_tenants();
                mid.lemma_tenants();
                if old(self).cache@.len() >= old(self).capacity {
                    assert(evicted(old(self)@, mid@));
                    assert(old(self)@.tenants.len() > 0);
                    assert(!(old(self)@.tenants.dom() =~= Set::empty()));
                    assert(mid@.tenants.len() < mid@.capacity);
                    assert(!mid@.tenants.contains_key(key));
                }
                assert(!mid.cache@.contains_key(key));
                assert(mid.cache@.len() < mid.capacity);
            }
            self.admit_new(key, value, weight);
            proof {
                if old(self).cache@.len() >= old(self).capacity {
                    assert(evicted(old(self)@, mid@) && self@ == admitted(
                        mid@,
                        key,
                        value,
                        weight,
                    ));
                    let gone = choose|slot: usize|
                        {
                            &&& #[trigger] old(self).queued().contains_key(slot)
                            &&& least(old(self).queued(), slot)
                            &&& mid@.threshold == old(self).queued()[slot]
                            &&& mid.queued() == old(self).queued().remove(slot)
                            &&& mid.index() == old(self).index().remove(
                                old(self).slot_keys()[slot as int],
                            )
                            &&& mid.spare() == old(self).spare().push(slot)
                        };
                    assert(old(self).queued().contains_key(gone));
                }
            }
        }
    }

    /// Evicts a tenant that is due first and raises the threshold to its due
    /// point: its slot leaves the queue and joins the spare slots, and its
    /// key leaves the key index. Nothing happens to an empty cache.
    pub fn evict(&mut self)
        requires
            old(self).wf(),
        ensures
            final(self).wf(),
            evicted(old(self)@, final(self)@),
            final(self)@.threshold >= old(self)@.threshold,
            final(self).slot_keys() == old(self).slot_keys(),
            old(self)@.tenants.len() == 0 ==> {
                &&& final(self).index() == old(self).index()
                &&& final(self).spare() == old(self).spare()
                &&& final(self).queued() == old(self).queued()
            },
            old(self)@.tenants.len() > 0 ==> exists|slot: usize|
                {
                    &&& #[trigger] old(self).queued().contains_key(slot)
                    &&& least(old(self).queued(), slot)
                    &&& final(self)@.threshold == old(self).queued()[slot]
                    &&& final(self).queued() == old(self).queued().remove(slot)
                    &&& final(self).index() == old(self).index().remove(
                        old(self).slot_keys()[slot as int],
                    )
                    &&& final(self).spare() == old(self).spare().push(slot)
                },
    {
        broadcast use group_hash_axioms;

        let ghost queued = queue_entries(self.pq);
        proof {
            old(self).lemma_tenants();
        }
        if let Some((idx, due)) = queue_pop(&mut self.pq) {
            assert(old(self).live(idx));
            self.l = due;
            self.cache.remove(&self.slots[idx].key);
            self.free_list.push(idx);
            proof {
                let key = old(self).slots@[idx as int].key;
                self.lemma_vacated(old(self), idx);
                assert(old(self)@.tenants.contains_key(key));
                assert(first_due(old(self)@.tenants, key)) by {
                    assert forall|other: K| #[trigger]
                        old(self)@.tenants.contains_key(other) implies old(self)@.tenants[key].due
                        <= old(self)@.tenants[other].due by {
                        assert(old(self).live(old(self).cache@[other]));
                        assert(queued.contains_key(old(self).cache@[other]));
                    }
                }
                assert(self@.threshold == old(self)@.tenants[key].due);
                assert(old(self).queued().contains_key(idx));
                assert(self.slot_keys() =~= old(self).slot_keys());
            }
        } else {
            proof {
                assert(old(self)@.tenants.dom() =~= Set::empty()) by {
                    assert forall|k: K| !old(self)@.tenants.contains_key(k) by {
                        if old(self).cache@.contains_key(k) {
                            assert(old(self).live(old(self).cache@[k]));
                            assert(queued.contains_key(old(self).cache@[k]));
                        }
                    }
                }
                assert(self@.tenants =~= old(self)@.tenants);
            }
        }
    }

    /// The due point of an entry of weight `weight` that is armed now.
    fn rearm(&self, weight: u32) -> (due: u128)
        ensures
            due == rearmed(self.l as nat, weight),
            due >= self.l,
    {
        let room: u128 = u128::MAX - self.l;
        if weight as u128 > room {
            u128::MAX
        } else {
            self.l + weight as u128
        }
    }

    /// Stores a new entry in a cache that is not full and does not hold
    /// `key`, and queues it at the re-armed due point. The entry takes the
    /// spare slot freed last if there is a spare one, else a slot by which
    /// the arena grows; the other slots stay as they are.
    fn admit_new(&mut self, key: K, value: V, weight: u32)
        requires
            old(self).wf(),
            !old(self).cache@.contains_key(key),
            old(self).cache@.len() < old(self).capacity,
        ensures
            final(self).wf(),
            final(self)@ == admitted(old(self)@, key, value, weight),
            final(self).entered(
                old(self).index(),
                old(self).spare(),
                old(self).slot_keys(),
                old(self).queued(),
                key,
                rearmed(old(self)@.threshold, weight),
            ),
            forall|s: int|
                0 <= s < old(self).slots@.len() && s != final(self).cache@[key] ==> (
                #[trigger] final(self).slots@[s]) == old(self).slots@[s],
    {
        broadcast use group_hash_axioms;

        let ghost queued = queue_entries(self.pq);
        let slot_key = key.clone();
        assert(cloned::<K>(key, slot_key));
        let slot = Slot { key: slot_key, node: LandlordNode { value, weight } };
        let idx = if let Some(free_idx) = self.free_list.pop() {
            assert(free_idx == old(self).free_list@[old(self).free_list@.len() - 1]);
            self.slots[free_idx] = slot;
            free_idx
        } else {
            self.slots.push(slot);
            self.slots.len() - 1
        };
        proof {
            assert(!queued.contains_key(idx)) by {
                if queued.contains_key(idx) {
                    assert(old(self).live(idx));
                }
            }
            assert forall|s: usize| #[trigger] queued.contains_key(s) implies self.slots@[s as int]
                == old(self).slots@[s as int] by {
                assert(old(self).live(s));
            }
        }
        self.cache.insert(key, idx);
        let due = self.rearm(weight);
        queue_push(&mut self.pq, idx, due);
        proof {
            let requeued = queue_entries(self.pq);
            assert forall|k: K| #[trigger] self.cache@.contains_key(k) implies self.cache@[k]
                < self.slots@.len() && self.slots@[self.cache@[k] as int].key == k by {
                if k != key {
                    assert(old(self).cache@.contains_key(k));
                    assert(old(self).live(old(self).cache@[k]));
                    assert(queued.contains_key(old(self).cache@[k]));
                }
            }
            assert forall|s: usize| #[trigger] requeued.contains_key(s) implies self.live(s) by {
                if s != idx {
                    assert(queued.contains_key(s));
                    assert(old(self).live(s));
                }
            }
            assert forall|s: usize| self.live(s) implies #[trigger] requeued.contains_key(s) by {
                if s != idx {
                    let k = self.slots@[s as int].key;
                    assert(self.cache@[k] == s);
                    assert(k != key);
                    assert(old(self).cache@.contains_key(k));
                    assert(old(self).slots@[old(self).cache@[k] as int].key == k);
                    assert(old(self).live(s));
                }
            }
            assert forall|j: int| 0 <= j < self.free_list@.len() implies (
            #[trigger] self.free_list@[j]) < self.slots@.len() && !requeued.contains_key(
                self.free_list@[j],
            ) by {
                assert(self.free_list@[j] == old(self).free_list@[j]);
            }
            assert(self.wf());
            assert(self@.tenants =~= admitted(old(self)@, key, value, weight).tenants) by {
                assert forall|k: K| #[trigger] old(self).cache@.contains_key(k) implies self.slots@[old(
                    self,
                ).cache@[k] as int] == old(self).slots@[old(self).cache@[k] as int] && old(
                    self,
                ).cache@[k] != idx by {
                    assert(old(self).live(old(self).cache@[k]));
                    assert(queued.contains_key(old(self).cache@[k]));
                }
            }
            assert(idx == next_slot(old(self).spare(), old(self).slot_keys().len()));
            assert(self.slots@[idx as int].key == key);
            if old(self).free_list@.len() > 0 {
                assert(self.slot_keys() =~= old(self).slot_keys().update(idx as int, key));
            } else {
                assert(self.slot_keys() =~= old(self).slot_keys().push(key));
            }
        }
    }

    /// After the entry in slot `gone` has left key index and queue and its
    /// slot has joined the spare ones, the invariant holds and the other
    /// tenants are as before.
    proof fn lemma_vacated(&self, earlier: &Self, gone: usize)
        requires
            earlier.wf(),
            earlier.live(gone),
            self.capacity == earlier.capacity,
            self.l >= earlier.l,
            forall|slot: usize| #[trigger]
                queue_entries(earlier.pq).contains_key(slot) ==> queue_entries(earlier.pq)[slot]
                    >= self.l,
            self.slots@ == earlier.slots@,
            self.cache@ == earlier.cache@.remove(earlier.slots@[gone as int].key),
            queue_entries(self.pq) == queue_entries(earlier.pq).remove(gone),
            self.free_list@ == earlier.free_list@.push(gone),
        ensures
            self.wf(),
            self@.tenants == earlier@.tenants.remove(earlier.slots@[gone as int].key),
    {
        broadcast use group_hash_axioms;

        let queued = queue_entries(earlier.pq);
        let left = queue_entries(self.pq);
        let key = earlier.slots@[gone as int].key;
        assert forall|s: usize| #[trigger] left.contains_key(s) implies self.live(s) by {
            assert(earlier.live(s));
        }
        assert forall|s: usize| self.live(s) implies #[trigger] left.contains_key(s) by {
            assert(earlier.live(s));
            assert(queued.contains_key(s));
        }
        assert(queued.contains_key(gone));
        assert forall|j: int| 0 <= j < self.free_list@.len() implies (#[trigger] self.free_list@[j])
            < self.slots@.len() && !left.contains_key(self.free_list@[j]) by {
            if j < earlier.free_list@.len() {
                assert(self.free_list@[j] == earlier.free_list@[j]);
            }
        }
        assert(self.free_list@.no_duplicates()) by {
            assert forall|a: int, b: int|
                0 <= a < self.free_list@.len() && 0 <= b < self.free_list@.len() && a
                    != b implies self.free_list@[a] != self.free_list@[b] by {
                if a < earlier.free_list@.len() {
                    assert(!queued.contains_key(earlier.free_list@[a]));
                }
                if b < earlier.free_list@.len() {
                    assert(!queued.contains_key(earlier.free_list@[b]));
                }
            }
        }
        assert(self@.tenants =~= earlier@.tenants.remove(key)) by {
            assert forall|k: K| #[trigger] self.cache@.contains_key(k) implies earlier.cache@[k]
                != gone by {
                assert(earlier.cache@.contains_key(k));
            }
        }
    }
}

} // verus!
