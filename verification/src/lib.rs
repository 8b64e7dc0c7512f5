use vstd::prelude::*;

pub mod address;
pub mod amount;
pub mod algo;
pub mod graph;
pub mod pool;
pub mod ratio;
pub mod token;
pub mod trace;
pub mod uint;

verus! {
} // verus!
