//! Paths found by the discovery stage.
use vstd::prelude::*;

verus! {

/// A path with a single concrete pool per hop: `pools[i]` connects
/// `tokens[i]` and `tokens[i + 1]`.
#[derive(Debug, Clone)]
pub struct DiscoveredPath {
    pub tokens: Vec<usize>,
    pub pools: Vec<usize>,
}

} // verus!
