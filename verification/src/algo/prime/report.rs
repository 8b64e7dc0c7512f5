//! The final report of the pool-disjoint split router: its simulated legs,
//! largest input first, floored at the seed route.
use crate::algo::bounded_bf::views;
use crate::algo::gas::{gas_cost_spec, gas_units_spec, GasModel};
use crate::algo::path::{walk_fixed, walk_pool_path};
use crate::algo::split_common::{inputs_view, sat_sub, LegSim};
use crate::algo::split_dp::{collect_legs, hops_of, indices, leg_matches, lemma_top_picks, pick_order, seed_trace, sum_at, top_picks};
use crate::algo::{pool_addresses, route_gas, token_addresses, Leg, Outcome, SolveResult};
use crate::graph::Graph;
use crate::trace::Step;
use crate::uint::U256;
use vstd::prelude::*;

verus! {

/// Each leg's input, zero for a leg that delivered nothing.
pub open spec fn leg_inputs(per: Seq<Option<LegSim>>) -> Seq<nat> {
    per.map_values(|o: Option<LegSim>| match o {
        Some(l) => l.amount_in.val(),
        None => 0,
    })
}

/// The most pools any of the first `n` legs walks.
pub open spec fn max_pools(per: Seq<Option<LegSim>>, n: nat) -> nat
    decreases n,
{
    if n == 0 {
        0
    } else {
        let m = max_pools(per, (n - 1) as nat);
        match per[n - 1] {
            Some(l) => if l.pool_idxs@.len() > m {
                l.pool_idxs@.len()
            } else {
                m
            },
            None => m,
        }
    }
}

/// No leg among the first `n` walks more pools than `max_pools` says.
proof fn lemma_max_pools(per: Seq<Option<LegSim>>, n: nat)
    ensures
        forall|i: int| 0 <= i < n && #[trigger] per[i] is Some ==> per[i].unwrap().pool_idxs@.len() <= max_pools(per, n),
    decreases n,
{
    if n > 0 {
        lemma_max_pools(per, (n - 1) as nat);
    }
}

/// Legs left out of the report: those that delivered nothing or that the
/// caller does not keep.
pub open spec fn left_out(per: Seq<Option<LegSim>>, keep: Seq<bool>) -> Seq<bool> {
    Seq::new(per.len(), |i: int| per[i] is None || !keep[i])
}

/// The seed route alone, reported with output `out`.
pub open spec fn seed_reported(g: &Graph, tp: Seq<usize>, pp: Seq<usize>, amount_in: U256, out: nat, gas_cost: nat, o: Outcome) -> bool {
    match o {
        Outcome::FoundSplit { legs, amount_in: given, amount_out, gas_cost: cost } => {
            &&& legs@.len() == 1
            &&& leg_matches(g, legs@[0], tp, pp, amount_in.val(), out)
            &&& given == amount_in
            &&& amount_out.val() == out
            &&& cost.val() == gas_cost
        },
        _ => false,
    }
}

/// What the report says. With no leg kept: the seed route when it walks,
/// else `NoPath`. Otherwise the kept legs, largest input first (the first
/// on ties), with their inputs summed, the simulation's `total_out` and the
/// gas of the reported legs; but the seed route alone when it nets more.
pub open spec fn split_reported(
    g: &Graph,
    paths: Seq<Seq<usize>>,
    per: Seq<Option<LegSim>>,
    keep: Seq<bool>,
    total_out: nat,
    seed_tp: Seq<usize>,
    seed_pp: Seq<usize>,
    amount_in: U256,
    gas: GasModel,
    d: int,
    trace: Seq<Step>,
    r: SolveResult,
) -> bool {
    let order = top_picks(leg_inputs(per), left_out(per, keep), per.len());
    let seed = walk_fixed(g, seed_tp, seed_pp, amount_in.val(), seed_pp.len());
    let seed_gas = route_gas(g, gas, seed_pp.len(), d);
    let cost = gas_cost_spec(
        gas.gas_price_wei as nat,
        gas_units_spec(gas.enabled_spec(), order.len(), hops_of(per, order)),
        g.tokens@[d].true_price_pico_usd as nat,
        g.tokens@[d].decimals as nat,
    );
    if order.len() == 0 {
        match seed {
            Some(so) => r.trace@ == trace && seed_reported(g, seed_tp, seed_pp, amount_in, so, seed_gas, r.outcome),
            None => r.outcome is NoPath && r.trace@.len() == 0,
        }
    } else if seed matches Some(so) && sat_sub(so, seed_gas) > sat_sub(total_out, cost) {
        r.trace@ == trace && seed_reported(g, seed_tp, seed_pp, amount_in, seed.unwrap(), seed_gas, r.outcome)
    } else {
        &&& r.trace@ == trace
        &&& match r.outcome {
            Outcome::FoundSplit { legs, amount_in: given, amount_out, gas_cost } => {
                &&& legs@.len() == order.len()
                &&& forall|t: int|
                    0 <= t < order.len() ==> leg_matches(
                        g,
                        #[trigger] legs@[t],
                        paths[order[t]],
                        per[order[t]].unwrap().pool_idxs@,
                        per[order[t]].unwrap().amount_in.val(),
                        per[order[t]].unwrap().amount_out.val(),
                    )
                &&& given.val() == sum_at(leg_inputs(per), order)
                &&& amount_out.val() == total_out
                &&& gas_cost.val() == cost
            },
            _ => false,
        }
    }
}

/// The seed route alone: its walk at the full amount and its gas.
fn seed_answer(
    graph: &Graph,
    seed_tokens: &Vec<usize>,
    seed_pools: &Vec<usize>,
    amount_in: U256,
    out: U256,
    gas_cost: U256,
    trace: Vec<Step>,
) -> (r: SolveResult)
    requires
        forall|i: int| 0 <= i < seed_tokens@.len() ==> #[trigger] seed_tokens@[i] < graph.tokens@.len(),
        forall|i: int| 0 <= i < seed_pools@.len() ==> #[trigger] seed_pools@[i] < graph.pools@.len(),
    ensures
        r.trace == trace,
        seed_reported(graph, seed_tokens@, seed_pools@, amount_in, out.val(), gas_cost.val(), r.outcome),
{
    let path = token_addresses(graph, seed_tokens);
    let pools_used = pool_addresses(graph, seed_pools);
    let mut legs: Vec<Leg> = Vec::new();
    legs.push(Leg { path, pools_used, amount_in, amount_out: out });
    SolveResult { outcome: Outcome::FoundSplit { legs, amount_in, amount_out: out, gas_cost }, trace }
}

/// Reports the simulated legs `per_leg` of the routes through `paths`,
/// keeping those that `keep` marks, as `split_reported` says; the trace is
/// the source's visit when tracing.
pub fn report_legs(
    graph: &Graph,
    paths: &Vec<Vec<usize>>,
    per_leg: &Vec<Option<LegSim>>,
    keep: &Vec<bool>,
    total_out: U256,
    seed_tokens: &Vec<usize>,
    seed_pools: &Vec<usize>,
    amount_in: U256,
    gas: &GasModel,
    src_idx: usize,
    dst_idx: usize,
    with_trace: bool,
) -> (r: SolveResult)
    requires
        paths@.len() == per_leg@.len(),
        keep@.len() == per_leg@.len(),
        per_leg@.len() * max_pools(per_leg@, per_leg@.len() as nat) <= usize::MAX,
        gas_units_spec(true, per_leg@.len() as nat, per_leg@.len() * max_pools(per_leg@, per_leg@.len() as nat))
            <= u64::MAX,
        src_idx < graph.tokens@.len(),
        dst_idx < graph.tokens@.len(),
        forall|i: int, x: int| 0 <= i < paths@.len() && 0 <= x < paths@[i]@.len() ==> #[trigger] paths@[i]@[x]
            < graph.tokens@.len(),
        forall|i: int|
            0 <= i < per_leg@.len() ==> (#[trigger] per_leg@[i] matches Some(l) ==> forall|x: int| 0 <= x < l.pool_idxs@.len() ==> #[trigger] l.pool_idxs@[x] < graph.pools@.len()),
        forall|i: int| 0 <= i < seed_tokens@.len() ==> #[trigger] seed_tokens@[i] < graph.tokens@.len(),
        forall|i: int| 0 <= i < seed_pools@.len() ==> #[trigger] seed_pools@[i] < graph.pools@.len(),
        gas_units_spec(true, 1, seed_pools@.len() as nat) <= u64::MAX,
        seed_tokens@.len() >= 2,
        seed_pools@.len() == seed_tokens@.len() - 1,
    ensures
        split_reported(
            graph,
            views(paths@),
            per_leg@,
            keep@,
            total_out.val(),
            seed_tokens@,
            seed_pools@,
            amount_in,
            *gas,
            dst_idx as int,
            if with_trace {
                seq![Step::Visit(src_idx)]
            } else {
                Seq::<Step>::empty()
            },
            r,
        ),
        crate::trace::trace_within(r.trace@, graph.tokens@.len()),
{
    let mut inputs: Vec<U256> = Vec::new();
    let mut done: Vec<bool> = Vec::new();
    let mut x: usize = 0;
    while x < per_leg.len()
        invariant
            x <= per_leg@.len(),
            per_leg@.len() == keep@.len(),
            inputs@.len() == x,
            done@.len() == x,
            forall|y: int| 0 <= y < x ==> #[trigger] inputs@[y].val() == leg_inputs(per_leg@)[y],
            forall|y: int| 0 <= y < x ==> (#[trigger] per_leg@[y] matches Some(l) ==> inputs@[y] == l.amount_in),
            forall|y: int| 0 <= y < x ==> #[trigger] done@[y] == (per_leg@[y] is None || !keep@[y]),
        decreases per_leg@.len() - x,
    {
        match &per_leg[x] {
            Some(l) => inputs.push(l.amount_in),
            None => inputs.push(U256::zero()),
        }
        done.push(per_leg[x].is_none() || !keep[x]);
        x = x + 1;
    }
    proof {
        assert(inputs_view(inputs@) =~= leg_inputs(per_leg@));
        assert(done@ =~= left_out(per_leg@, keep@));
    }
    let order = pick_order(&inputs, done, per_leg.len());
    let ghost ov = indices(order@);
    proof {
        lemma_top_picks(leg_inputs(per_leg@), left_out(per_leg@, keep@), per_leg@.len() as nat);
        assert forall|t: int| 0 <= t < order@.len() implies #[trigger] order@[t] < paths@.len()
            && per_leg@[order@[t] as int] is Some by {
            assert(ov[t] == order@[t] as int);
            assert(!left_out(per_leg@, keep@)[ov[t]]);
        }
        assert(order@.len() == ov.len());
    }
    let dst_token = &graph.tokens[dst_idx];
    let seed_walk = walk_pool_path(graph, seed_tokens, seed_pools, amount_in);
    let seed_units = gas.gas_units(1, seed_pools.len());
    let seed_gas = gas.gas_to_dst_token(seed_units, dst_token.true_price_pico_usd, dst_token.decimals);
    if order.len() == 0 {
        return match seed_walk {
            Some((out, _)) => seed_answer(
                graph,
                seed_tokens,
                seed_pools,
                amount_in,
                out,
                seed_gas,
                seed_trace(with_trace, src_idx),
            ),
            None => SolveResult { outcome: Outcome::NoPath, trace: Vec::new() },
        };
    }
    let ghost cap = max_pools(per_leg@, per_leg@.len() as nat);
    proof {
        lemma_max_pools(per_leg@, per_leg@.len() as nat);
        let (ol, nl) = (order@.len() as int, per_leg@.len() as int);
        assert(ol <= nl);
        assert(ol * cap <= nl * cap) by (nonlinear_arith)
            requires
                ol <= nl,
        ;
    }
    let (legs, total_in, total_hops) = collect_legs(graph, paths, per_leg, &inputs, &order, Ghost(cap));
    let units = gas.gas_units(legs.len(), total_hops);
    let gas_cost = gas.gas_to_dst_token(units, dst_token.true_price_pico_usd, dst_token.decimals);
    let split_net = total_out.saturating_sub(gas_cost);
    match seed_walk {
        Some((out, _)) => {
            if out.saturating_sub(seed_gas).gt(&split_net) {
                return seed_answer(
                    graph,
                    seed_tokens,
                    seed_pools,
                    amount_in,
                    out,
                    seed_gas,
                    seed_trace(with_trace, src_idx),
                );
            }
        },
        None => {},
    }
    proof {
        assert forall|t: int| 0 <= t < order@.len() implies leg_matches(
            graph,
            #[trigger] legs@[t],
            views(paths@)[order@[t] as int],
            per_leg@[order@[t] as int].unwrap().pool_idxs@,
            per_leg@[order@[t] as int].unwrap().amount_in.val(),
            per_leg@[order@[t] as int].unwrap().amount_out.val(),
        ) by {
            assert(views(paths@)[order@[t] as int] == paths@[order@[t] as int]@);
        }
        assert forall|t: int| 0 <= t < ov.len() implies leg_matches(
            graph,
            #[trigger] legs@[t],
            views(paths@)[ov[t]],
            per_leg@[ov[t]].unwrap().pool_idxs@,
            per_leg@[ov[t]].unwrap().amount_in.val(),
            per_leg@[ov[t]].unwrap().amount_out.val(),
        ) by {
            assert(ov[t] == order@[t] as int);
        }
    }
    SolveResult {
        outcome: Outcome::FoundSplit { legs, amount_in: total_in, amount_out: total_out, gas_cost },
        trace: seed_trace(with_trace, src_idx),
    }
}

} // verus!
