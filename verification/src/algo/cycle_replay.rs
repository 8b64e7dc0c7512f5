//! A reported cycle's output agrees with replaying the cycle.
use crate::algo::bellman_ford::bf_contract;
use crate::algo::replay::{distinct_pool_addresses, lemma_replay_by_address};
use crate::algo::{closed, is_cycle, pool_addrs, reports_cycle, token_addrs, Outcome, SolveResult};
use crate::address::Address;
use crate::graph::Graph;
use crate::pool::{find_pool, simulate_ok, simulate_spec};
use crate::uint::U256;
use vstd::prelude::*;

verus! {

/// A cycle's pools and its tokens, closed by the first, are the graph's.
proof fn lemma_cycle_in_graph(g: &Graph, cn: Seq<usize>, cp: Seq<usize>)
    requires
        g.wf(),
        is_cycle(g, cn, cp),
    ensures
        forall|i: int| 0 <= i < cp.len() ==> #[trigger] cp[i] < g.pools@.len(),
        forall|i: int| 0 <= i < closed(cn).len() ==> #[trigger] closed(cn)[i] < g.tokens@.len(),
{
    let tour = closed(cn);
    g.lemma_adj_ok();
    assert forall|i: int| 0 <= i < cp.len() implies #[trigger] cp[i] < g.pools@.len() by {
        assert(g.hop(cn[i] as int, closed(cn)[i + 1] as int, cp[i] as int));
        let e = choose|e: int|
            #![trigger g.adj@[cn[i] as int]@[e]]
            g.usable(cn[i] as int, e) && g.adj@[cn[i] as int]@[e].to == closed(cn)[i + 1] as int
                && g.adj@[cn[i] as int]@[e].pool == cp[i] as int;
        assert(g.edge_ok(cn[i] as int, g.adj@[cn[i] as int]@[e]));
    }
    assert forall|i: int| 0 <= i < tour.len() implies #[trigger] tour[i] < g.tokens@.len() by {
        if i < cn.len() {
            assert(tour[i] == cn[i]);
        } else {
            assert(tour[i] == cn[0]);
        }
    }
}

/// Law: the output of a cycle that Bellman-Ford reports is exactly what
/// `Pool::simulate_path` gives when it replays the cycle, closed by its
/// first token, through the reported pools, provided no two pools of the
/// graph share an address; that replay is computable.
pub proof fn law_cycle_output_replays(
    g: &Graph,
    src: Address,
    dst: Address,
    amount_in: U256,
    with_trace: bool,
    gas: crate::algo::GasModel,
    r: SolveResult,
)
    requires
        g.wf(),
        distinct_pool_addresses(g.pools@),
        bf_contract(g, src, dst, amount_in, with_trace, gas, r),
        r.outcome is NegativeCycle,
    ensures
        match r.outcome {
            Outcome::NegativeCycle { cycle, pools_used, cycle_output, .. } => {
                &&& cycle@.len() >= 1
                &&& simulate_ok(cycle@.push(cycle@[0]), pools_used@, g.pools@, amount_in.val())
                &&& cycle_output.val() == simulate_spec(
                    cycle@.push(cycle@[0]),
                    pools_used@,
                    g.pools@,
                    amount_in.val(),
                    pools_used@.len() as nat,
                )
            },
            _ => true,
        },
{
    let (cn, cp) = choose|cn: Seq<usize>, cp: Seq<usize>|
        #[trigger] is_cycle(g, cn, cp) && reports_cycle(g, r.outcome, cn, cp, amount_in, gas);
    let tour = closed(cn);
    lemma_cycle_in_graph(g, cn, cp);
    lemma_replay_by_address(g, tour, cp, amount_in.val(), cp.len());
    match r.outcome {
        Outcome::NegativeCycle { cycle, pools_used, cycle_output, .. } => {
            assert(token_addrs(g, tour) =~= cycle@.push(cycle@[0]));
            assert forall|i: int| 0 <= i < pools_used@.len() implies {
                &&& #[trigger] find_pool(g.pools@, pools_used@[i]) >= 0
                &&& g.pools@[find_pool(g.pools@, pools_used@[i])].swap_ok(
                    cycle@.push(cycle@[0])[i],
                    simulate_spec(cycle@.push(cycle@[0]), pools_used@, g.pools@, amount_in.val(), i as nat),
                )
            } by {
                assert(find_pool(g.pools@, pool_addrs(g, cp)[i]) == cp[i] as int);
            }
        },
        _ => {},
    }
}

} // verus!
