//! The event vocabulary of algorithm traces.
use crate::ratio::Ratio;
use vstd::prelude::*;

verus! {

/// One event of an algorithm's trace. Nodes are dense indices into the
/// graph's token list.
#[derive(Debug, Clone, PartialEq, Eq)]
pub enum Step {
    /// A node was settled or entered.
    Visit(usize),
    /// The best known route to `to` improved by stepping from `from`;
    /// `new_distance` is that route's exact product of marginal rates (its
    /// log distance is the negated logarithm).
    Relax { from: usize, to: usize, new_distance: Ratio },
    /// A Bellman-Ford sweep began.
    Pass(usize),
}

impl Step {
    /// Every node the event names is below `n`.
    pub open spec fn within(&self, n: nat) -> bool {
        match self {
            Step::Visit(i) => *i < n,
            Step::Relax { from, to, .. } => *from < n && *to < n,
            Step::Pass(_) => true,
        }
    }
}

/// Every event of a trace names only nodes below `n`.
pub open spec fn trace_within(trace: Seq<Step>, n: nat) -> bool {
    forall|i: int| 0 <= i < trace.len() ==> (#[trigger] trace[i]).within(n)
}

} // verus!
