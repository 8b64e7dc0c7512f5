//! Hub sets: the most liquid tokens, which the core graph keeps.
use std::collections::HashMap;
use std::collections::HashSet;
use vstd::prelude::*;

verus! {

broadcast use vstd::std_specs::hash::group_hash_axioms;

/// The hub tokens (dense indices) and each hub's liquidity rank, 0 being the
/// most liquid.
pub struct HubSet {
    pub hubs: HashSet<usize>,
    pub rank: HashMap<usize, u32>,
}

impl HubSet {
    /// Whether `idx` is a hub.
    pub fn contains(&self, idx: usize) -> (r: bool)
        ensures
            r == self.hubs@.contains(idx),
    {
        self.hubs.contains(&idx)
    }
}

} // verus!
