//! Amount-aware routing never does worse than the direct pool.
//!
//! The enumeration always offers the direct hop when a usable pool joins
//! the two tokens, every candidate is examined, and the winner nets the
//! most; so the answer nets at least what the direct hop nets.
use crate::address::Address;
use crate::algo::amount_aware::{aa_contract, best_pick, examined, net_output, MAX_HOPS};
use crate::algo::bounded_bf::emits;
use crate::algo::{reports_route, Outcome, SolveResult};
use crate::algo::gas::GasModel;
use crate::graph::{token_index, Graph};
use crate::uint::U256;
use vstd::prelude::*;

verus! {

/// The first-best pick among the first `i` candidates nets at least every
/// one of them; it is a candidate exactly when its net is positive, and
/// then its net is the candidate's.
proof fn lemma_best_pick_max(g: &Graph, cands: Seq<Seq<usize>>, amount_in: U256, gas: GasModel, i: nat)
    ensures
        ({
            let (b, bn) = best_pick(g, cands, amount_in, gas, i);
            &&& -1 <= b < i
            &&& b >= 0 <==> bn > 0
            &&& b >= 0 ==> net_output(g, cands[b], amount_in, gas) == Some(bn)
            &&& forall|j: int|
                0 <= j < i ==> match net_output(g, #[trigger] cands[j], amount_in, gas) {
                    Some(n) => n <= bn,
                    None => true,
                }
        }),
    decreases i,
{
    if i > 0 {
        lemma_best_pick_max(g, cands, amount_in, gas, (i - 1) as nat);
    }
}

/// Law: amount-aware routing never nets less than the direct hop. Between
/// two different known tokens joined by a usable pool, when the direct
/// route, walked with the best pool at the trade size, nets a positive
/// amount after gas, the answer is a route whose output exceeds its gas by
/// at least that amount.
pub proof fn law_amount_aware_at_least_direct(
    g: &Graph,
    src: Address,
    dst: Address,
    amount_in: U256,
    with_trace: bool,
    gas: GasModel,
    r: SolveResult,
    n0: nat,
)
    requires
        aa_contract(g, src, dst, amount_in, with_trace, gas, r),
        token_index(g.tokens@, src) >= 0,
        token_index(g.tokens@, dst) >= 0,
        token_index(g.tokens@, src) != token_index(g.tokens@, dst),
        g.linked(token_index(g.tokens@, src), token_index(g.tokens@, dst)),
        net_output(
            g,
            seq![token_index(g.tokens@, src) as usize, token_index(g.tokens@, dst) as usize],
            amount_in,
            gas,
        ) == Some(n0),
        n0 > 0,
    ensures
        match r.outcome {
            Outcome::Found { amount_out, gas_cost, .. } => amount_out.val() >= gas_cost.val() + n0,
            _ => false,
        },
{
    let si = token_index(g.tokens@, src);
    let di = token_index(g.tokens@, dst);
    let direct = seq![si as usize, di as usize];
    let cands = choose|cands: Seq<Seq<usize>>|
        #[trigger] emits(g, cands, si, di, MAX_HOPS as nat) && {
            let b = best_pick(g, cands, amount_in, gas, examined(cands.len())).0;
            if b < 0 {
                r.outcome is NoPath
            } else {
                reports_route(g, r.outcome, cands[b], amount_in, gas)
            }
        };
    assert(cands.contains(direct));
    let j = choose|j: int| 0 <= j < cands.len() && cands[j] == direct;
    assert(examined(cands.len()) == cands.len());
    lemma_best_pick_max(g, cands, amount_in, gas, cands.len());
    let (b, bn) = best_pick(g, cands, amount_in, gas, cands.len());
    assert(net_output(g, cands[j], amount_in, gas) == Some(n0));
    assert(bn >= n0);
    assert(b >= 0);
    assert(reports_route(g, r.outcome, cands[b], amount_in, gas));
}

} // verus!
