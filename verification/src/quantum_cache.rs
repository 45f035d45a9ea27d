//! The routing-state cache of QANBAN: states kept by flow, at most a fixed number of
//! flows at a time (one flow is evicted to make room), with hit and miss counters.
use vstd::prelude::*;
use std::collections::HashMap;
use vstd::std_specs::iter::IteratorSpec;

verus! {

broadcast use vstd::std_specs::hash::group_hash_axioms;

/// The first key of the map in its walking order, if it has any keys. Which key comes
/// first depends on the hasher's seed, so nothing is said of it beyond its being a key
/// of the map.
fn first_key<V>(m: &HashMap<u64, V>) -> (r: Option<u64>)
    ensures
        r matches Some(k) ==> m@.contains_key(k),
        r is None ==> m@.len() == 0,
{
    let mut r: Option<u64> = None;
    for k in it: m.keys()
        invariant
            it.seq().unref().to_set() == m@.dom(),
            it.seq().len() == m@.dom().len(),
            r matches Some(x) ==> m@.contains_key(x),
            r is None ==> it.index() == 0,
        ensures
            r matches Some(x) ==> m@.contains_key(x),
            r is None ==> m@.len() == 0,
    {
        proof {
            assert(it.seq().unref().to_set().contains(*k));
        }
        r = Some(*k);
        break;
    }
    r
}

/// Cache of routing states by flow identifier.
pub struct QuantumSuperpositionCache<V> {
    cache: HashMap<u64, V>,
    max_size: usize,
    hits: u64,
    misses: u64,
}

impl<V: Clone> QuantumSuperpositionCache<V> {
    /// The cached states, by flow.
    pub closed spec fn contents(&self) -> Map<u64, V> {
        self.cache@
    }

    /// The number of flows the cache is made to hold.
    pub closed spec fn capacity(&self) -> usize {
        self.max_size
    }

    /// Lookups that found a state.
    pub closed spec fn hit_count(&self) -> u64 {
        self.hits
    }

    /// Lookups that found none.
    pub closed spec fn miss_count(&self) -> u64 {
        self.misses
    }

    /// Create new quantum cache
    pub fn new(max_size: usize) -> (r: Self)
        ensures
            r.contents() == Map::<u64, V>::empty(),
            r.capacity() == max_size,
            r.hit_count() == 0,
            r.miss_count() == 0,
    {
        Self { cache: HashMap::new(), max_size, hits: 0, misses: 0 }
    }

    /// Insert a state for a flow; when the cache is full, one cached flow is evicted
    /// first (which one depends on the walking order of the map).
    pub fn insert(&mut self, flow_id: u64, state: V)
        ensures
            final(self).capacity() == old(self).capacity(),
            final(self).hit_count() == old(self).hit_count(),
            final(self).miss_count() == old(self).miss_count(),
            old(self).contents().len() < old(self).capacity() ==> final(self).contents() == old(
                self,
            ).contents().insert(flow_id, state),
            old(self).contents().len() >= old(self).capacity() ==> {
                ||| old(self).contents().len() == 0 && final(self).contents() == old(self).contents().insert(
                    flow_id,
                    state,
                )
                ||| exists|k: u64|
                    old(self).contents().contains_key(k) && final(self).contents() == old(
                        self,
                    ).contents().remove(k).insert(flow_id, state)
            },
    {
        if self.cache.len() >= self.max_size {
            match first_key(&self.cache) {
                Some(key) => {
                    self.cache.remove(&key);
                },
                None => {},
            }
        }
        self.cache.insert(flow_id, state);
    }

    /// Get quantum state from cache
    pub fn get(&mut self, flow_id: u64) -> (r: Option<V>)
        requires
            old(self).contents().contains_key(flow_id) ==> old(self).hit_count() < u64::MAX,
            !old(self).contents().contains_key(flow_id) ==> old(self).miss_count() < u64::MAX,
        ensures
            final(self).contents() == old(self).contents(),
            final(self).capacity() == old(self).capacity(),
            (r is Some) == old(self).contents().contains_key(flow_id),
            r matches Some(v) ==> cloned::<V>(old(self).contents()[flow_id], v),
            final(self).hit_count() == old(self).hit_count() + if r is Some {
                1int
            } else {
                0int
            },
            final(self).miss_count() == old(self).miss_count() + if r is Some {
                0int
            } else {
                1int
            },
    {
        match self.cache.get(&flow_id) {
            Some(state) => {
                let v = state.clone();
                self.hits += 1;
                Some(v)
            },
            None => {
                self.misses += 1;
                None
            },
        }
    }

    /// Whether a state is cached for the flow.
    pub fn contains_flow(&self, flow_id: u64) -> (r: bool)
        ensures
            r == self.contents().contains_key(flow_id),
    {
        self.cache.contains_key(&flow_id)
    }

    /// Lookups that found a state, and lookups that found none.
    pub fn counters(&self) -> (r: (u64, u64))
        ensures
            r == (self.hit_count(), self.miss_count()),
    {
        (self.hits, self.misses)
    }

    /// Clear cache
    pub fn clear(&mut self)
        ensures
            final(self).contents() == Map::<u64, V>::empty(),
            final(self).capacity() == old(self).capacity(),
            final(self).hit_count() == 0,
            final(self).miss_count() == 0,
    {
        self.cache.clear();
        self.hits = 0;
        self.misses = 0;
    }
}

/// The cache stays bounded: a cache that holds no more flows than its capacity (or
/// one flow, for a capacity of zero) still does after an insertion.
pub proof fn law_cache_bounded<V>(before: Map<u64, V>, after: Map<u64, V>, capacity: usize, flow_id: u64, state: V)
    requires
        before.dom().finite(),
        before.len() <= if capacity == 0 {
            1
        } else {
            capacity as nat
        },
        before.len() < capacity ==> after == before.insert(flow_id, state),
        before.len() >= capacity ==> {
            ||| before.len() == 0 && after == before.insert(flow_id, state)
            ||| exists|k: u64| before.contains_key(k) && after == before.remove(k).insert(flow_id, state)
        },
    ensures
        after.len() <= if capacity == 0 {
            1
        } else {
            capacity as nat
        },
        after.contains_key(flow_id),
        after[flow_id] == state,
{
    if before.len() < capacity {
        assert(after.len() <= before.len() + 1);
    } else if before.len() == 0 && after == before.insert(flow_id, state) {
        assert(after.len() <= 1);
    } else {
        let k = choose|k: u64| before.contains_key(k) && after == before.remove(k).insert(flow_id, state);
        assert(before.remove(k).len() == before.len() - 1);
        assert(after.len() <= before.len());
    }
}

} // verus!
