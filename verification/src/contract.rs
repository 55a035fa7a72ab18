//! The contract that the three engines share: what a cache holds, how many
//! entries it has room for, and what a put and a lookup do to it.

use crate::keys::key_model;
use crate::landlord;
use crate::landlord::{Landlord, LandlordView};
use crate::lfu_w;
use crate::lfu_w::{LFUCache, LfuView};
use crate::lru;
use crate::lru::LRUCache;
use std::hash::Hash;
use vstd::prelude::*;

verus! {

/// The state of a cache of one of the three policies.
#[verifier::reject_recursive_types(K)]
pub enum CacheView<K, V> {
    /// Entries from most to least recently used.
    Lru { capacity: nat, entries: Seq<(K, V)> },
    Lfu(LfuView<K, V>),
    Landlord(LandlordView<K, V>),
}

/// The greatest number of entries that the cache holds.
pub open spec fn capacity<K, V>(state: CacheView<K, V>) -> nat {
    match state {
        CacheView::Lru { capacity, .. } => capacity,
        CacheView::Lfu(s) => s.capacity,
        CacheView::Landlord(s) => s.capacity,
    }
}

/// The number of entries.
pub open spec fn size<K, V>(state: CacheView<K, V>) -> nat {
    match state {
        CacheView::Lru { entries, .. } => entries.len(),
        CacheView::Lfu(s) => s.entries.len(),
        CacheView::Landlord(s) => s.tenants.len(),
    }
}

/// Whether `key` is resident.
pub open spec fn resident<K, V>(state: CacheView<K, V>, key: K) -> bool {
    match state {
        CacheView::Lru { entries, .. } => lru::holds(entries, key),
        CacheView::Lfu(s) => s.entries.contains_key(key),
        CacheView::Landlord(s) => s.tenants.contains_key(key),
    }
}

/// The value stored under the resident `key`.
pub open spec fn stored<K, V>(state: CacheView<K, V>, key: K) -> V {
    match state {
        CacheView::Lru { entries, .. } => entries[lru::place(entries, key)].1,
        CacheView::Lfu(s) => s.entries[key].value,
        CacheView::Landlord(s) => s.tenants[key].value,
    }
}

/// What a lookup of `key` returns.
pub open spec fn lookup<K, V>(state: CacheView<K, V>, key: K) -> Option<V> {
    if resident(state, key) {
        Some(stored(state, key))
    } else {
        None
    }
}

/// What every reachable state satisfies, by policy.
pub open spec fn sound<K, V>(state: CacheView<K, V>) -> bool {
    match state {
        CacheView::Lru { capacity, entries } => lru::sound(entries, capacity),
        CacheView::Lfu(s) => lfu_w::sound(s),
        CacheView::Landlord(s) => landlord::sound(s),
    }
}

/// Whether `state` is that of a new cache for at most `limit` entries:
/// nothing resident, and clock or threshold at 0.
pub open spec fn fresh<K, V>(state: CacheView<K, V>, limit: nat) -> bool {
    match state {
        CacheView::Lru { capacity, entries } => capacity == limit && entries == Seq::<
            (K, V),
        >::empty(),
        CacheView::Lfu(s) => s == (LfuView::<K, V> {
            capacity: limit,
            clock: 0,
            entries: Map::empty(),
        }),
        CacheView::Landlord(s) => s == (LandlordView::<K, V> {
            capacity: limit,
            threshold: 0,
            tenants: Map::empty(),
        }),
    }
}

/// `post` is `pre` after `key` was put with `value` and `weight`.
pub open spec fn put_step<K, V>(
    pre: CacheView<K, V>,
    key: K,
    value: V,
    weight: u32,
    post: CacheView<K, V>,
) -> bool {
    match pre {
        CacheView::Lru { capacity, entries } => post == (CacheView::Lru {
            capacity,
            entries: lru::after_put(entries, capacity, key, value),
        }),
        CacheView::Lfu(s) => post == CacheView::Lfu(lfu_w::after_put(s, key, value, weight)),
        CacheView::Landlord(s) => post is Landlord && landlord::put_into(
            s,
            key,
            value,
            weight,
            post->Landlord_0,
        ),
    }
}

/// The state after a lookup of `key`.
pub open spec fn get_step<K, V>(pre: CacheView<K, V>, key: K) -> CacheView<K, V> {
    match pre {
        CacheView::Lru { capacity, entries } => CacheView::Lru {
            capacity,
            entries: lru::after_get(entries, key),
        },
        CacheView::Lfu(s) => CacheView::Lfu(lfu_w::after_get(s, key)),
        CacheView::Landlord(s) => CacheView::Landlord(landlord::looked_up(s, key)),
    }
}

/// What every eviction policy offers. A caller that is written against
/// this trait works with any of the engines.
pub trait Cache<K: Clone + Hash + Eq, V>: Sized {
    /// The engine's invariant.
    spec fn inv(&self) -> bool;

    /// The engine's state.
    spec fn state(&self) -> CacheView<K, V>;

    /// A cache that meets its invariant is in a sound state.
    proof fn lemma_inv(&self)
        requires
            self.inv(),
        ensures
            sound(self.state()),
    ;

    /// An empty cache for at most `capacity` entries.
    fn new(capacity: usize) -> (cache: Self)
        requires
            capacity > 0,
            key_model::<K>(),
        ensures
            cache.inv(),
            fresh(cache.state(), capacity as nat),
    ;

    /// Looks `key` up.
    fn get(&mut self, key: &K) -> (value: Option<&V>)
        requires
            old(self).inv(),
        ensures
            final(self).inv(),
            final(self).state() == get_step(old(self).state(), *key),
            match value {
                Some(v) => lookup(old(self).state(), *key) == Some(*v),
                None => lookup(old(self).state(), *key) is None,
            },
    ;

    /// Puts `value` under `key` with `weight`.
    fn put(&mut self, key: K, value: V, weight: u32)
        requires
            old(self).inv(),
        ensures
            final(self).inv(),
            put_step(old(self).state(), key, value, weight, final(self).state()),
    ;

    /// The number of entries.
    fn len(&self) -> (n: usize)
        requires
            self.inv(),
        ensures
            n == size(self.state()),
    ;

    /// Whether the cache holds no entry.
    fn is_empty(&self) -> (empty: bool)
        requires
            self.inv(),
        ensures
            empty == (size(self.state()) == 0),
    ;
}

impl<K: Clone + Hash + Eq, V> Cache<K, V> for LRUCache<K, V> {
    open spec fn inv(&self) -> bool {
        self.wf()
    }

    open spec fn state(&self) -> CacheView<K, V> {
        CacheView::Lru { capacity: self.cap(), entries: self@ }
    }

    proof fn lemma_inv(&self) {
        self.lemma_sound();
    }

    fn new(capacity: usize) -> (cache: Self) {
        LRUCache::new(capacity)
    }

    fn get(&mut self, key: &K) -> (value: Option<&V>) {
        LRUCache::get(self, key)
    }

    fn put(&mut self, key: K, value: V, weight: u32) {
        LRUCache::put(self, key, value, weight)
    }

    fn len(&self) -> (n: usize) {
        LRUCache::len(self)
    }

    fn is_empty(&self) -> (empty: bool) {
        LRUCache::is_empty(self)
    }
}

impl<K: Clone + Hash + Eq, V> Cache<K, V> for LFUCache<K, V> {
    open spec fn inv(&self) -> bool {
        self.wf()
    }

    open spec fn state(&self) -> CacheView<K, V> {
        CacheView::Lfu(self@)
    }

    proof fn lemma_inv(&self) {
        self.lemma_sound();
    }

    fn new(capacity: usize) -> (cache: Self) {
        LFUCache::new(capacity)
    }

    fn get(&mut self, key: &K) -> (value: Option<&V>) {
        LFUCache::get(self, key)
    }

    fn put(&mut self, key: K, value: V, weight: u32) {
        LFUCache::put(self, key, value, weight)
    }

    fn len(&self) -> (n: usize) {
        LFUCache::len(self)
    }

    fn is_empty(&self) -> (empty: bool) {
        LFUCache::is_empty(self)
    }
}

impl<K: Clone + Hash + Eq, V> Cache<K, V> for Landlord<K, V> {
    open spec fn inv(&self) -> bool {
        self.wf()
    }

    open spec fn state(&self) -> CacheView<K, V> {
        CacheView::Landlord(self@)
    }

    proof fn lemma_inv(&self) {
        self.lemma_sound();
    }

    fn new(capacity: usize) -> (cache: Self) {
        Landlord::new(capacity)
    }

    fn get(&mut self, key: &K) -> (value: Option<&V>) {
        proof {
            self.lemma_sound();
        }
        let owned = key.clone();
        assert(cloned::<K>(*key, owned));
        Landlord::get(self, owned)
    }

    fn put(&mut self, key: K, value: V, weight: u32) {
        Landlord::put(self, key, value, weight)
    }

    fn len(&self) -> (n: usize) {
        Landlord::len(self)
    }

    fn is_empty(&self) -> (empty: bool) {
        Landlord::is_empty(self)
    }
}

/// The resident keys.
pub open spec fn residents<K, V>(state: CacheView<K, V>) -> Set<K> {
    Set::new(|key: K| resident(state, key))
}

/// A sound state has room for an entry, no more entries than its
/// capacity, and as many entries as resident keys.
pub proof fn lemma_size<K, V>(state: CacheView<K, V>)
    requires
        sound(state),
    ensures
        capacity(state) >= 1,
        size(state) <= capacity(state),
        residents(state).finite(),
        residents(state).len() == size(state),
{
    match state {
        CacheView::Lru { entries, .. } => {
            lru::lemma_key_count(entries);
            assert(residents(state) =~= lru::keys(entries));
        },
        CacheView::Lfu(s) => {
            assert(residents(state) =~= s.entries.dom());
        },
        CacheView::Landlord(s) => {
            assert(residents(state) =~= s.tenants.dom());
        },
    }
}

/// A lookup keeps a sound state sound and changes neither the capacity,
/// nor the number of entries, nor which keys are resident, nor what a
/// lookup finds under any key. A lookup of a key that is not resident finds
/// nothing and leaves the state exactly as it was, so that repeating it
/// changes nothing either.
pub proof fn lemma_get_step<K, V>(pre: CacheView<K, V>, key: K)
    requires
        sound(pre),
    ensures
        sound(get_step(pre, key)),
        capacity(get_step(pre, key)) == capacity(pre),
        size(get_step(pre, key)) == size(pre),
        forall|k: K| #[trigger] resident(get_step(pre, key), k) <==> resident(pre, k),
        forall|k: K| #[trigger] lookup(get_step(pre, key), k) == lookup(pre, k),
        !resident(pre, key) ==> lookup(pre, key) is None && get_step(pre, key) == pre
            && get_step(get_step(pre, key), key) == pre,
{
    match pre {
        CacheView::Lru { capacity, entries } => {
            lru::lemma_after_get(entries, capacity, key);
            assert forall|k: K| #[trigger] lookup(get_step(pre, key), k) == lookup(pre, k) by {
                assert(lru::found(lru::after_get(entries, key), k) == lru::found(entries, k));
            }
        },
        CacheView::Lfu(s) => {
            lfu_w::lemma_after_get(s, key);
        },
        CacheView::Landlord(s) => {
            landlord::lemma_looked_up(s, key);
        },
    }
}

/// A put keeps a sound state sound and the capacity as it was. Afterwards
/// a lookup of the key finds the value put. A put on a resident key does
/// not change the number of entries; a put of a new key adds one where
/// there is room and keeps the number where the cache is full. Every other
/// key that is resident afterwards was resident before, with the same
/// value; where nothing had to leave, every resident key stays.
pub proof fn lemma_put_step<K, V>(
    pre: CacheView<K, V>,
    key: K,
    value: V,
    weight: u32,
    post: CacheView<K, V>,
)
    requires
        sound(pre),
        put_step(pre, key, value, weight, post),
    ensures
        sound(post),
        capacity(post) == capacity(pre),
        resident(post, key),
        lookup(post, key) == Some(value),
        size(post) == if resident(pre, key) || size(pre) >= capacity(pre) {
            size(pre)
        } else {
            size(pre) + 1
        },
        forall|k: K|
            k != key && #[trigger] resident(post, k) ==> resident(pre, k) && lookup(post, k)
                == lookup(pre, k),
        resident(pre, key) || size(pre) < capacity(pre) ==> forall|k: K| #[trigger]
            resident(pre, k) ==> resident(post, k),
{
    match pre {
        CacheView::Lru { capacity, entries } => {
            lru::lemma_after_put(entries, capacity, key, value);
            let after = lru::after_put(entries, capacity, key, value);
            assert(after[0].0 == key);
            assert forall|k: K| k != key && #[trigger] resident(post, k) implies resident(pre, k)
                && lookup(post, k) == lookup(pre, k) by {
                assert(lru::holds(after, k));
                assert(lru::found(after, k) == lru::found(entries, k));
            }
        },
        CacheView::Lfu(s) => {
            lfu_w::lemma_after_put(s, key, value, weight);
        },
        CacheView::Landlord(s) => {
            landlord::lemma_put_into(s, key, value, weight, post->Landlord_0);
        },
    }
}

/// A new cache with room for an entry is sound and empty.
pub proof fn lemma_fresh<K, V>(state: CacheView<K, V>, limit: nat)
    requires
        fresh(state, limit),
        limit >= 1,
    ensures
        sound(state),
        capacity(state) == limit,
        size(state) == 0,
        forall|key: K| !resident(state, key),
{
}

/// The keys of a sequence of puts.
pub open spec fn keys_put<K, V>(puts: Seq<(K, V, u32)>) -> Set<K> {
    Set::new(|key: K| exists|i: int| 0 <= i < puts.len() && (#[trigger] puts[i]).0 == key)
}

/// `states` are the states that a cache goes through while `puts` are put
/// one after the other.
pub open spec fn put_run<K, V>(states: Seq<CacheView<K, V>>, puts: Seq<(K, V, u32)>) -> bool {
    &&& states.len() == puts.len() + 1
    &&& forall|i: int|
        0 <= i < puts.len() ==> put_step(
            #[trigger] states[i],
            puts[i].0,
            puts[i].1,
            puts[i].2,
            states[i + 1],
        )
}

/// The lesser of two numbers.
pub open spec fn lesser(a: nat, b: nat) -> nat {
    if a <= b {
        a
    } else {
        b
    }
}

/// After any sequence of puts into an empty cache, the state is sound, the
/// resident keys are among the keys put, and the number of entries is the
/// number of distinct keys put, or the capacity if that is less. While no
/// more distinct keys were put than the cache has room for, all of them
/// are resident.
pub proof fn lemma_puts<K, V>(states: Seq<CacheView<K, V>>, puts: Seq<(K, V, u32)>)
    requires
        put_run(states, puts),
        sound(states[0]),
        size(states[0]) == 0,
    ensures
        sound(states.last()),
        capacity(states.last()) == capacity(states[0]),
        keys_put(puts).finite(),
        residents(states.last()).subset_of(keys_put(puts)),
        size(states.last()) == lesser(capacity(states[0]), keys_put(puts).len()),
        size(states.last()) <= capacity(states[0]),
        keys_put(puts).len() <= capacity(states[0]) ==> residents(states.last()) == keys_put(puts),
    decreases puts.len(),
{
    let cap = capacity(states[0]);
    lemma_size(states[0]);
    if puts.len() == 0 {
        assert(keys_put(puts) =~= Set::empty());
        assert(states.last() == states[0]);
        assert(residents(states[0]).len() == 0);
        assert(residents(states[0]) =~= Set::empty());
    } else {
        let n = puts.len() - 1;
        let (key, value, weight) = puts[n];
        let pre = states[n];
        let post = states[n + 1];
        let earlier = puts.drop_last();
        assert(put_run(states.drop_last(), earlier)) by {
            assert forall|i: int| 0 <= i < earlier.len() implies put_step(
                #[trigger] states.drop_last()[i],
                earlier[i].0,
                earlier[i].1,
                earlier[i].2,
                states.drop_last()[i + 1],
            ) by {
                assert(put_step(states[i], puts[i].0, puts[i].1, puts[i].2, states[i + 1]));
            }
        }
        lemma_puts(states.drop_last(), earlier);
        assert(states.drop_last().last() == pre);
        assert(put_step(states[n], puts[n].0, puts[n].1, puts[n].2, states[n + 1]));
        lemma_put_step(pre, key, value, weight, post);
        lemma_size(pre);
        lemma_size(post);
        let before = keys_put(earlier);
        let all = keys_put(puts);
        assert(all =~= before.insert(key)) by {
            assert forall|k: K| all.contains(k) implies before.insert(key).contains(k) by {
                let i = choose|i: int| 0 <= i < puts.len() && (#[trigger] puts[i]).0 == k;
                if i < n {
                    assert(earlier[i].0 == k);
                }
            }
            assert forall|k: K| before.insert(key).contains(k) implies all.contains(k) by {
                if k == key {
                    assert(puts[n].0 == key);
                } else {
                    let i = choose|i: int| 0 <= i < earlier.len() && (#[trigger] earlier[i]).0 == k;
                    assert(puts[i].0 == k);
                }
            }
        }
        assert(residents(post).subset_of(all)) by {
            assert forall|k: K| residents(post).contains(k) implies all.contains(k) by {
                if k != key {
                    assert(resident(post, k));
                    assert(residents(pre).contains(k));
                }
            }
        }
        if resident(pre, key) {
            assert(residents(pre).contains(key));
            assert(before.contains(key));
        } else if size(pre) < cap {
            // where there is room left, everything put so far is resident
            vstd::set_lib::lemma_subset_equality(residents(pre), before);
            assert(!before.contains(key));
        } else {
            assert(before.len() >= cap);
            if !before.contains(key) {
                assert(all.len() == before.len() + 1);
            }
        }
    }
}

} // verus!
