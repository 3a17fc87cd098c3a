use vstd::prelude::*;

use crate::cache::Cache;
use crate::policies::CachePolicy;

verus! {

/// Collects the immutable construction parameters of a [`Cache`]: the
/// priority policy and the optional weight and entry-count bounds.
#[derive(Clone, Copy)]
pub struct CacheBuilder {
    pub policy: CachePolicy,
    pub size: Option<u64>,
    pub capacity: Option<usize>,
}

impl CacheBuilder {
    /// A builder with the defaults: plain-frequency policy, no bounds.
    pub fn new() -> (r: CacheBuilder)
        ensures
            r.policy == CachePolicy::LFU,
            r.size is None,
            r.capacity is None,
    {
        CacheBuilder { policy: CachePolicy::LFU, size: None, capacity: None }
    }

    /// Selects the priority policy.
    pub fn set_policy(self, policy: CachePolicy) -> (r: CacheBuilder)
        ensures
            r.policy == policy,
            r.size == self.size,
            r.capacity == self.capacity,
    {
        CacheBuilder { policy, ..self }
    }

    /// Bounds the total weight of live entries.
    pub fn set_max_size(self, size: u64) -> (r: CacheBuilder)
        ensures
            r.size == Some(size),
            r.policy == self.policy,
            r.capacity == self.capacity,
    {
        CacheBuilder { size: Some(size), ..self }
    }

    /// Bounds the number of live entries.
    pub fn set_max_capacity(self, capacity: usize) -> (r: CacheBuilder)
        ensures
            r.capacity == Some(capacity),
            r.policy == self.policy,
            r.size == self.size,
    {
        CacheBuilder { capacity: Some(capacity), ..self }
    }

    /// Constructs an empty, well-formed cache from the collected parameters.
    pub fn build<V>(&self) -> (c: Cache<V>)
        ensures
            c.wf(),
            c.capacity == self.capacity,
            c.max_size == self.size,
            c.cur_size == 0,
            c.elements@.len() == 0,
            c.age == 0,
            c.min_frequency == 0,
            c.policy == self.policy,
    {
        Cache {
            capacity: self.capacity,
            max_size: self.size,
            cur_size: 0,
            elements: Vec::new(),
            frequencies: Vec::new(),
            min_frequency: 0,
            age: 0,
            policy: self.policy,
        }
    }
}

impl Default for CacheBuilder {
    /// Same defaults as [`CacheBuilder::new`].
    fn default() -> (r: CacheBuilder)
        ensures
            r.policy == CachePolicy::LFU,
            r.size is None,
            r.capacity is None,
    {
        CacheBuilder::new()
    }
}

} // verus!
