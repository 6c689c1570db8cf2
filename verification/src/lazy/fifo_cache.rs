//! A cache that drops the oldest entry first.

use std::collections::{HashMap, VecDeque};

use vstd::prelude::*;

verus! {

broadcast use vstd::std_specs::hash::group_hash_axioms;

/// A cache that holds at most `capacity` entries and drops the oldest first.
pub struct FifoCache<V> {
    capacity: usize,
    entries: HashMap<u64, V>,
    order: VecDeque<u64>,
}

/// What a cache holds.
pub struct CacheModel<V> {
    pub entries: Map<u64, V>,
    /// The keys, the oldest first.
    pub order: Seq<u64>,
}

/// A cache after an entry was put in: in place of one with its key, or else as the newest, the
/// oldest making room for it.
pub open spec fn cached<V>(cache: CacheModel<V>, capacity: nat, key: u64, value: V) -> CacheModel<V> {
    if cache.entries.contains_key(key) {
        CacheModel { entries: cache.entries.insert(key, value), ..cache }
    } else {
        let order = cache.order.push(key);
        let entries = cache.entries.insert(key, value);
        if order.len() > capacity {
            CacheModel { entries: entries.remove(order[0]), order: order.drop_first() }
        } else {
            CacheModel { entries, order }
        }
    }
}

/// Whether the keys of a cache are listed once each, and are no more than it can hold.
pub open spec fn within_capacity<V>(cache: CacheModel<V>, capacity: nat) -> bool {
    &&& cache.order.no_duplicates()
    &&& forall|key: u64| #[trigger] cache.entries.contains_key(key) <==> cache.order.contains(key)
    &&& cache.order.len() <= capacity
}

proof fn lemma_push_contains(order: Seq<u64>, key: u64)
    ensures
        forall|other: u64| #[trigger]
            order.push(key).contains(other) <==> order.contains(other) || other == key,
{
    assert forall|other: u64| #[trigger] order.push(key).contains(other) <==> order.contains(other)
        || other == key by {
        if order.contains(other) {
            let i = order.index_of(other);
            assert(order.push(key)[i] == other);
        }
        assert(order.push(key)[order.len() as int] == key);
        if order.push(key).contains(other) {
            let i = order.push(key).index_of(other);
            if i < order.len() {
                assert(order[i] == other);
            }
        }
    }
}

proof fn lemma_drop_first_contains(order: Seq<u64>)
    requires
        order.len() > 0,
        order.no_duplicates(),
    ensures
        order.drop_first().no_duplicates(),
        forall|other: u64| #[trigger]
            order.drop_first().contains(other) <==> order.contains(other) && other != order[0],
{
    assert forall|other: u64| #[trigger] order.drop_first().contains(other) <==> order.contains(
        other,
    ) && other != order[0] by {
        if order.drop_first().contains(other) {
            let i = order.drop_first().index_of(other);
            assert(order[i + 1] == other);
        }
        if order.contains(other) && other != order[0] {
            let i = order.index_of(other);
            assert(order.drop_first()[i - 1] == other);
        }
    }
}

/// A cache never holds more than it can, and an entry just put in is there if any can be.
pub proof fn lemma_cache_keeps_within_capacity<V>(
    cache: CacheModel<V>,
    capacity: nat,
    key: u64,
    value: V,
)
    requires
        within_capacity(cache, capacity),
    ensures
        within_capacity(cached(cache, capacity, key, value), capacity),
        capacity > 0 ==> cached(cache, capacity, key, value).entries.contains_key(key) && cached(
            cache,
            capacity,
            key,
            value,
        ).entries[key] == value,
        forall|other: u64| #[trigger]
            cached(cache, capacity, key, value).entries.contains_key(other) && other != key
                ==> cache.entries.contains_key(other) && cached(
                cache,
                capacity,
                key,
                value,
            ).entries[other] == cache.entries[other],
{
    let after = cached(cache, capacity, key, value);
    if !cache.entries.contains_key(key) {
        let order = cache.order.push(key);
        lemma_push_contains(cache.order, key);
        assert(!cache.order.contains(key));
        assert(order.no_duplicates());
        if order.len() > capacity {
            lemma_drop_first_contains(order);
            if capacity > 0 {
                assert(order[0] == cache.order[0]);
                assert(cache.order.contains(order[0]));
            }
        }
    } else {
        assert(cache.order.contains(key));
    }
}

impl<V> View for FifoCache<V> {
    type V = CacheModel<V>;

    closed spec fn view(&self) -> CacheModel<V> {
        CacheModel { entries: self.entries@, order: self.order@ }
    }
}

impl<V> FifoCache<V> {
    pub closed spec fn capacity(&self) -> nat {
        self.capacity as nat
    }

    pub open spec fn well_formed(&self) -> bool {
        within_capacity(self@, self.capacity())
    }

    pub fn new(capacity: usize) -> (r: Self)
        ensures
            r.well_formed(),
            r.capacity() == capacity,
            r@ == (CacheModel::<V> { entries: Map::empty(), order: Seq::empty() }),
    {
        let cache = FifoCache { capacity, entries: HashMap::new(), order: VecDeque::new() };
        assert(cache@.entries =~= Map::<u64, V>::empty());
        assert(cache@.order =~= Seq::<u64>::empty());
        cache
    }

    pub fn get(&self, key: u64) -> (r: Option<&V>)
        ensures
            match r {
                Some(value) => self@.entries.contains_key(key) && self@.entries[key] == *value,
                None => !self@.entries.contains_key(key),
            },
    {
        self.entries.get(&key)
    }

    pub fn insert(&mut self, key: u64, value: V)
        requires
            old(self).well_formed(),
        ensures
            final(self).well_formed(),
            final(self).capacity() == old(self).capacity(),
            final(self)@ == cached(old(self)@, old(self).capacity(), key, value),
    {
        let ghost before = self@;
        proof {
            lemma_cache_keeps_within_capacity(before, self.capacity(), key, value);
        }
        let known = self.entries.contains_key(&key);
        self.entries.insert(key, value);
        if !known {
            self.order.push_back(key);
            if self.order.len() > self.capacity {
                let oldest = self.order.pop_front();
                if let Some(oldest) = oldest {
                    self.entries.remove(&oldest);
                }
                assert(self.order@ =~= before.order.push(key).drop_first());
            }
        }
    }

    pub fn clear(&mut self)
        ensures
            final(self).well_formed(),
            final(self).capacity() == old(self).capacity(),
            final(self)@ == (CacheModel::<V> { entries: Map::empty(), order: Seq::empty() }),
    {
        self.entries = HashMap::new();
        self.order = VecDeque::new();
        assert(self@.entries =~= Map::<u64, V>::empty());
        assert(self@.order =~= Seq::<u64>::empty());
    }
}

} // verus!
