//! Capacity-bounded in-memory caches with three eviction policies behind one
//! contract: least recently used ([`lru`]), weighted least frequently used
//! ([`lfu_w`]), and Landlord ([`landlord`]).
//!
//! Every engine keeps its entries in an arena of slots with a list of spare
//! slots, finds the slot of a key through a hash map, and threads its
//! ordering structures through slot numbers. [`contract`] states what the
//! engines have in common, and [`CacheType`] holds any one of them.
//!
//! A cache is made for a capacity of at least 1 and for a key type that
//! meets [`keys::key_model`]. Every `put` takes a weight. The weight counts
//! when a key enters: a put on a resident key replaces the value and counts
//! as an access, and the entry keeps the weight it has. The least-recently-
//! used policy accepts any weight and uses none. The caches are for one
//! owner at a time: every operation that changes a cache takes it by `&mut`.

pub mod contract;
pub mod keys;
pub mod landlord;
pub mod lfu_w;
pub mod lru;
pub mod queue;
pub mod seqs;

use contract::{get_step, lookup, put_step, size, sound, CacheView};
use keys::key_model;
use landlord::Landlord;
use lfu_w::LFUCache;
use lru::LRUCache;
use std::hash::Hash;
use vstd::prelude::*;

verus! {

/// A cache whose policy is chosen when it is made.
pub enum CacheType<K, V> {
    LRU(LRUCache<K, V>),
    LFU(LFUCache<K, V>),
    Landlord(Landlord<K, V>),
}

impl<K, V> View for CacheType<K, V> {
    type V = CacheView<K, V>;

    open spec fn view(&self) -> CacheView<K, V> {
        match self {
            CacheType::LRU(cache) => CacheView::Lru { capacity: cache.cap(), entries: cache@ },
            CacheType::LFU(cache) => CacheView::Lfu(cache@),
            CacheType::Landlord(cache) => CacheView::Landlord(cache@),
        }
    }
}

impl<K: Clone + Hash + Eq, V> CacheType<K, V> {
    /// The invariant of the engine inside.
    pub open spec fn wf(&self) -> bool {
        match self {
            CacheType::LRU(cache) => cache.wf(),
            CacheType::LFU(cache) => cache.wf(),
            CacheType::Landlord(cache) => cache.wf(),
        }
    }

    /// A cache that meets its invariant is in a sound state, over a key type
    /// that meets the key model.
    pub proof fn lemma_sound(&self)
        requires
            self.wf(),
        ensures
            sound(self@),
            key_model::<K>(),
    {
        match self {
            CacheType::LRU(cache) => cache.lemma_sound(),
            CacheType::LFU(cache) => cache.lemma_sound(),
            CacheType::Landlord(cache) => cache.lemma_sound(),
        }
    }

    /// An empty least-recently-used cache.
    pub fn new_lru(capacity: usize) -> (cache: Self)
        requires
            capacity > 0,
            key_model::<K>(),
        ensures
            cache.wf(),
            cache@ == (CacheView::Lru { capacity: capacity as nat, entries: Seq::<(K, V)>::empty() }),
    {
        CacheType::LRU(LRUCache::new(capacity))
    }

    /// An empty weighted least-frequently-used cache.
    pub fn new_lfu(capacity: usize) -> (cache: Self)
        requires
            capacity > 0,
            key_model::<K>(),
        ensures
            cache.wf(),
            cache@ == CacheView::Lfu(
                lfu_w::LfuView::<K, V> { capacity: capacity as nat, clock: 0, entries: Map::empty() },
            ),
    {
        CacheType::LFU(LFUCache::new(capacity))
    }

    /// An empty Landlord cache.
    pub fn new_landlord(capacity: usize) -> (cache: Self)
        requires
            capacity > 0,
            key_model::<K>(),
        ensures
            cache.wf(),
            cache@ == CacheView::Landlord(
                landlord::LandlordView::<K, V> {
                    capacity: capacity as nat,
                    threshold: 0,
                    tenants: Map::empty(),
                },
            ),
    {
        CacheType::Landlord(Landlord::new(capacity))
    }

    /// Puts `value` under `key` with `weight`, as the engine inside does.
    pub fn put(&mut self, key: K, value: V, weight: u32)
        requires
            old(self).wf(),
        ensures
            final(self).wf(),
            put_step(old(self)@, key, value, weight, final(self)@),
    {
        match self {
            CacheType::LRU(cache) => cache.put(key, value, weight),
            CacheType::LFU(cache) => cache.put(key, value, weight),
            CacheType::Landlord(cache) => cache.put(key, value, weight),
        }
    }

    /// Looks `key` up, as the engine inside does.
    pub fn get(&mut self, key: &K) -> (value: Option<&V>)
        requires
            old(self).wf(),
        ensures
            final(self).wf(),
            final(self)@ == get_step(old(self)@, *key),
            match value {
                Some(v) => lookup(old(self)@, *key) == Some(*v),
                None => lookup(old(self)@, *key) is None,
            },
    {
        match self {
            CacheType::LRU(cache) => cache.get(key),
            CacheType::LFU(cache) => cache.get(key),
            CacheType::Landlord(cache) => {
                proof {
                    cache.lemma_sound();
                }
                let owned = key.clone();
                assert(cloned::<K>(*key, owned));
                cache.get(owned)
            },
        }
    }

    /// The number of entries.
    pub fn len(&self) -> (n: usize)
        requires
            self.wf(),
        ensures
            n == size(self@),
    {
        match self {
            CacheType::LRU(cache) => cache.len(),
            CacheType::LFU(cache) => cache.len(),
            CacheType::Landlord(cache) => cache.len(),
        }
    }

    /// Whether the cache holds no entry.
    pub fn is_empty(&self) -> (empty: bool)
        requires
            self.wf(),
        ensures
            empty == (size(self@) == 0),
    {
        match self {
            CacheType::LRU(cache) => cache.is_empty(),
            CacheType::LFU(cache) => cache.is_empty(),
            CacheType::Landlord(cache) => cache.is_empty(),
        }
    }
}

} // verus!
