//! The exact parts of Frank-Wolfe split routing.
//!
//! Frank-Wolfe grows a set of routes and moves the allocation towards the
//! route that currently nets the most, by a step that a line search picks.
//! The allocation and its step sizes are fractions held by the caller; this
//! module does everything that is exact: the seed route, the net output of
//! a candidate allocation (turned into base-unit inputs), the reserves after
//! an allocation, and the final report.
use crate::algo::amount_aware::{best_pick, examined, pick_best, HARD_CAP, MAX_HOPS};
use crate::algo::bounded_bf::{emits, hop_path, views, within_hops, BoundedBfIter};
use crate::algo::gas::{gas_cost_spec, gas_units_spec, GasModel};
use crate::algo::path::{build_by_pair, walk_best, walk_with_best_pools};
use crate::algo::split_common::{
    allocation_ok, initial_state, initial_view, inputs_view, paths_view, per_view, reserves_view,
    lemma_simulate_idle, sat_sub, simulate_allocation, simulate_allocation_mut, simulate_spec, LegSim,
};
use crate::algo::split_dp::{
    collect_legs, hops_of, indices, leg_matches, lemma_top_picks, pick_order, seed_trace, sum_at, top_picks,
};
use crate::algo::{Leg, Outcome, SolveResult};
use crate::graph::Graph;
use crate::pool::Pool;
use crate::trace::Step;
use crate::uint::U256;
use vstd::prelude::*;

verus! {

/// Iteration budget for a graph of `n` tokens: `30 + n/5`, at most 500.
pub open spec fn iteration_budget(n: nat) -> nat {
    let b = 30 + n / 5;
    if b > 500 {
        500
    } else {
        b
    }
}

/// How many Frank-Wolfe iterations the graph gets.
pub fn max_iterations(graph: &Graph) -> (r: usize)
    ensures
        r == iteration_budget(graph.tokens@.len()),
{
    let b = 30 + graph.num_tokens() / 5;
    if b > 500 {
        500
    } else {
        b
    }
}

/// The route that nets the most at the full amount, among the first
/// `HARD_CAP` enumerated candidates of one to `MAX_HOPS` hops, each walked
/// with the best pool per hop; the first such route on ties, and none when
/// no route nets a positive amount.
pub fn best_single_path(
    graph: &Graph,
    src_idx: usize,
    dst_idx: usize,
    amount_in: U256,
    gas: &GasModel,
) -> (r: Option<(Vec<usize>, Vec<usize>)>)
    requires
        graph.wf(),
        src_idx < graph.tokens@.len(),
        dst_idx < graph.tokens@.len(),
        src_idx != dst_idx,
    ensures
        exists|cands: Seq<Seq<usize>>|
            #[trigger] emits(graph, cands, src_idx as int, dst_idx as int, MAX_HOPS as nat) && {
                let b = best_pick(graph, cands, amount_in, *gas, examined(cands.len())).0;
                match r {
                    None => b < 0,
                    Some((tp, ps)) => {
                        &&& 0 <= b < cands.len()
                        &&& tp@ == cands[b]
                        &&& walk_best(graph, tp@, amount_in.val(), (tp@.len() - 1) as nat) matches Some(
                            (p, _),
                        ) && ps@ == p
                    },
                }
            },
        r matches Some((tp, ps)) ==> within_hops(graph, tp@, src_idx as int, dst_idx as int, MAX_HOPS as nat)
            && ps@.len() == tp@.len() - 1 && forall|i: int| 0 <= i < ps@.len() ==> #[trigger] ps@[i]
            < graph.pools@.len(),
{
    let cands = BoundedBfIter::new(graph, src_idx, dst_idx, MAX_HOPS).into_paths();
    let ghost cv = views(cands@);
    proof {
        assert forall|i: int| 0 <= i < cands@.len() implies #[trigger] within_hops(
            graph,
            cands@[i]@,
            src_idx as int,
            dst_idx as int,
            MAX_HOPS as nat,
        ) by {
            assert(cv[i] == cands@[i]@);
        }
    }
    let by_pair = build_by_pair(graph);
    match pick_best(graph, &by_pair, &cands, amount_in, gas, Ghost(src_idx as int), Ghost(dst_idx as int)) {
        None => {
            proof {
                assert(emits(graph, cv, src_idx as int, dst_idx as int, MAX_HOPS as nat));
            }
            None
        },
        Some(b) => {
            let tp = cands[b].clone();
            proof {
                assert(cv[b as int] == tp@);
                assert(within_hops(graph, cands@[b as int]@, src_idx as int, dst_idx as int, MAX_HOPS as nat));
                let h = choose|h: nat| 1 <= h <= MAX_HOPS && #[trigger] hop_path(graph, tp@, src_idx as int, dst_idx as int, h);
                assert(hop_path(graph, tp@, src_idx as int, dst_idx as int, h));
                lemma_best_pick_walks(graph, cv, amount_in, *gas, examined(cv.len()));
                crate::algo::path::lemma_walk_best_len(graph, tp@, amount_in.val(), (tp@.len() - 1) as nat);
                assert(emits(graph, cv, src_idx as int, dst_idx as int, MAX_HOPS as nat));
            }
            match walk_with_best_pools(graph, &by_pair, &tp, amount_in) {
                Some((pools, _, _)) => Some((tp, pools)),
                None => None,
            }
        },
    }
}

/// The candidate that `best_pick` names walks.
proof fn lemma_best_pick_walks(g: &Graph, cands: Seq<Seq<usize>>, amount_in: U256, gas: GasModel, i: nat)
    ensures
        best_pick(g, cands, amount_in, gas, i).0 >= 0 ==> best_pick(g, cands, amount_in, gas, i).0 < i
            && walk_best(
            g,
            cands[best_pick(g, cands, amount_in, gas, i).0],
            amount_in.val(),
            (cands[best_pick(g, cands, amount_in, gas, i).0].len() - 1) as nat,
        ) is Some,
    decreases i,
{
    if i > 0 {
        lemma_best_pick_walks(g, cands, amount_in, gas, (i - 1) as nat);
    }
}

proof fn lemma_hops_along_bound(pps: Seq<Seq<usize>>, order: Seq<int>)
    requires
        forall|t: int| 0 <= t < order.len() ==> 0 <= #[trigger] order[t] < pps.len(),
        forall|i: int| 0 <= i < pps.len() ==> #[trigger] pps[i].len() <= MAX_HOPS,
    ensures
        hops_along(pps, order) <= MAX_HOPS * order.len(),
    decreases order.len(),
{
    if order.len() > 0 {
        lemma_hops_along_bound(pps, order.drop_last());
        assert(0 <= order.last() < pps.len());
    }
}

/// Legs that delivered something.
pub open spec fn live_legs(per: Seq<Option<nat>>, n: nat) -> nat
    decreases n,
{
    if n == 0 {
        0
    } else {
        live_legs(per, (n - 1) as nat) + if per[n - 1] is Some {
            1nat
        } else {
            0nat
        }
    }
}

/// Pools used by the legs that delivered something.
pub open spec fn live_hops(per: Seq<Option<nat>>, pps: Seq<Seq<usize>>, n: nat) -> nat
    decreases n,
{
    if n == 0 {
        0
    } else {
        live_hops(per, pps, (n - 1) as nat) + if per[n - 1] is Some {
            pps[n - 1].len()
        } else {
            0nat
        }
    }
}

/// The delivering-leg count over the first `m` results sees only those.
proof fn lemma_live_prefix(p1: Seq<Option<nat>>, q1: Seq<Seq<usize>>, p2: Seq<Option<nat>>, q2: Seq<Seq<usize>>, m: nat)
    requires
        forall|i: int| 0 <= i < m ==> p1[i] == p2[i] && q1[i] == q2[i],
    ensures
        live_legs(p1, m) == live_legs(p2, m),
        live_hops(p1, q1, m) == live_hops(p2, q2, m),
    decreases m,
{
    if m > 0 {
        lemma_live_prefix(p1, q1, p2, q2, (m - 1) as nat);
    }
}

/// A route given no input costs nothing: adding it to an allocation leaves
/// the net output, gas included, as it was, whatever its tokens and pools.
pub proof fn law_idle_route_costs_nothing(
    g: &Graph,
    tps: Seq<Seq<usize>>,
    pps: Seq<Seq<usize>>,
    inputs: Seq<nat>,
    t: Seq<usize>,
    p: Seq<usize>,
    gas: GasModel,
    d: int,
)
    requires
        tps.len() == inputs.len(),
        pps.len() == inputs.len(),
    ensures
        net_of(g, tps.push(t), pps.push(p), inputs.push(0), gas, d) == net_of(g, tps, pps, inputs, gas, d),
{
    let st0 = reserves_view(initial_view(g));
    lemma_simulate_idle(g, tps, pps, inputs, t, p, st0);
    let per = simulate_spec(g, tps, pps, inputs, st0).2;
    let n = per.len();
    lemma_live_prefix(per.push(None), pps.push(p), per, pps, n);
    assert(live_legs(per.push(None), n + 1) == live_legs(per, n));
    assert(live_hops(per.push(None), pps.push(p), n + 1) == live_hops(per, pps, n));
}

/// The routes' pool paths have at most `MAX_HOPS` pools, and the hop count
/// and gas of all the routes at that limit fit in a machine word and in
/// 64 bits.
pub open spec fn routes_small(pps: Seq<Seq<usize>>) -> bool {
    &&& pps.len() * MAX_HOPS <= usize::MAX
    &&& gas_units_spec(true, pps.len(), (pps.len() * MAX_HOPS) as nat) <= u64::MAX
    &&& forall|i: int| 0 <= i < pps.len() ==> #[trigger] pps[i].len() <= MAX_HOPS
}

/// Net output of the allocation with base-unit `inputs` along the routes
/// `tps`/`pps`: the sequential simulation's total, less the gas of every
/// leg that delivered when gas is on.
pub open spec fn net_of(g: &Graph, tps: Seq<Seq<usize>>, pps: Seq<Seq<usize>>, inputs: Seq<nat>, gas: GasModel, d: int) -> nat {
    let (st, total, per) = simulate_spec(g, tps, pps, inputs, reserves_view(initial_view(g)));
    if !gas.enabled_spec() {
        total
    } else {
        sat_sub(
            total,
            gas_cost_spec(
                gas.gas_price_wei as nat,
                gas_units_spec(true, live_legs(per, per.len()), live_hops(per, pps, per.len())),
                g.tokens@[d].true_price_pico_usd as nat,
                g.tokens@[d].decimals as nat,
            ),
        )
    }
}

/// The net output of an allocation, as `net_of` says.
pub fn evaluate_net(
    graph: &Graph,
    token_paths: &Vec<Vec<usize>>,
    pool_paths: &Vec<Vec<usize>>,
    inputs: &Vec<U256>,
    gas: &GasModel,
    dst_idx: usize,
) -> (r: U256)
    requires
        allocation_ok(graph, paths_view(token_paths@), paths_view(pool_paths@), inputs@.len() as nat),
        routes_small(paths_view(pool_paths@)),
        dst_idx < graph.tokens@.len(),
    ensures
        r.val() == net_of(
            graph,
            paths_view(token_paths@),
            paths_view(pool_paths@),
            inputs_view(inputs@),
            *gas,
            dst_idx as int,
        ),
{
    let (gross, per_leg) = simulate_allocation(graph, token_paths, pool_paths, inputs);
    let ghost per = per_view(per_leg@);
    let ghost pps = paths_view(pool_paths@);
    if !gas.enabled() {
        return gross;
    }
    let mut active: usize = 0;
    let mut hops: usize = 0;
    let mut i: usize = 0;
    while i < per_leg.len()
        invariant
            per == per_view(per_leg@),
            pps == paths_view(pool_paths@),
            per_leg@.len() == pool_paths@.len(),
            routes_small(pps),
            forall|x: int|
                0 <= x < per_leg@.len() ==> (#[trigger] per_leg@[x] matches Some(l) ==> l.pool_idxs@
                    == pool_paths@[x]@),
            i <= per_leg@.len(),
            active as nat == live_legs(per, i as nat),
            hops as nat == live_hops(per, pps, i as nat),
            active <= i,
            hops <= MAX_HOPS * i,
        decreases per_leg@.len() - i,
    {
        match &per_leg[i] {
            Some(l) => {
                proof {
                    assert(pps[i as int] == pool_paths@[i as int]@);
                    assert(pps[i as int].len() <= MAX_HOPS);
                }
                active = active + 1;
                hops = hops + l.pool_idxs.len();
            },
            None => {},
        }
        i = i + 1;
    }
    let units = gas.gas_units(active, hops);
    let dst_token = &graph.tokens[dst_idx];
    let cost = gas.gas_to_dst_token(units, dst_token.true_price_pico_usd, dst_token.decimals);
    gross.saturating_sub(cost)
}

/// The graph's pools with the reserves they hold after the allocation with
/// base-unit `inputs` has been simulated; everything else about each pool
/// unchanged.
pub fn apply_flow(
    graph: &Graph,
    token_paths: &Vec<Vec<usize>>,
    pool_paths: &Vec<Vec<usize>>,
    inputs: &Vec<U256>,
) -> (r: Vec<Pool>)
    requires
        allocation_ok(graph, paths_view(token_paths@), paths_view(pool_paths@), inputs@.len() as nat),
    ensures
        ({
            let st = simulate_spec(
                graph,
                paths_view(token_paths@),
                paths_view(pool_paths@),
                inputs_view(inputs@),
                reserves_view(initial_view(graph)),
            ).0;
            &&& r@.len() == graph.pools@.len()
            &&& forall|i: int|
                0 <= i < r@.len() ==> {
                    &&& (#[trigger] r@[i]).reserve_a.val() == st[i].0
                    &&& r@[i].reserve_b.val() == st[i].1
                    &&& r@[i].address == graph.pools@[i].address
                    &&& r@[i].token_a == graph.pools@[i].token_a
                    &&& r@[i].token_b == graph.pools@[i].token_b
                    &&& r@[i].fee_bps == graph.pools@[i].fee_bps
                    &&& r@[i].venue == graph.pools@[i].venue
                }
        }),
{
    let mut state = initial_state(graph);
    proof {
        assert(reserves_view(state@) =~= reserves_view(initial_view(graph)));
    }
    let _ = simulate_allocation_mut(graph, token_paths, pool_paths, inputs, &mut state);
    let mut out: Vec<Pool> = Vec::new();
    let mut i: usize = 0;
    while i < graph.pools.len()
        invariant
            state@.len() == graph.pools@.len(),
            i <= graph.pools@.len(),
            out@.len() == i,
            forall|x: int|
                0 <= x < i ==> {
                    &&& (#[trigger] out@[x]).reserve_a == state@[x].0
                    &&& out@[x].reserve_b == state@[x].1
                    &&& out@[x].address == graph.pools@[x].address
                    &&& out@[x].token_a == graph.pools@[x].token_a
                    &&& out@[x].token_b == graph.pools@[x].token_b
                    &&& out@[x].fee_bps == graph.pools@[x].fee_bps
                    &&& out@[x].venue == graph.pools@[x].venue
                },
        decreases graph.pools@.len() - i,
    {
        let p = &graph.pools[i];
        let (ra, rb) = state[i];
        out.push(
            Pool {
                address: p.address,
                token_a: p.token_a,
                token_b: p.token_b,
                reserve_a: ra,
                reserve_b: rb,
                fee_bps: p.fee_bps,
                venue: p.venue.clone(),
            },
        );
        i = i + 1;
    }
    proof {
        assert forall|x: int| 0 <= x < out@.len() implies (#[trigger] out@[x]).reserve_a.val()
            == reserves_view(state@)[x].0 by {}
    }
    out
}

/// Legs dropped from the report: those that delivered nothing or that the
/// caller does not keep.
pub open spec fn dropped(per: Seq<Option<nat>>, keep: Seq<bool>) -> Seq<bool> {
    Seq::new(per.len(), |i: int| per[i] is None || !keep[i])
}

/// Pools summed over the routes at `order`.
pub open spec fn hops_along(pps: Seq<Seq<usize>>, order: Seq<int>) -> nat
    decreases order.len(),
{
    if order.len() == 0 {
        0
    } else {
        hops_along(pps, order.drop_last()) + pps[order.last()].len()
    }
}

/// What each leg delivered; nothing for a leg that delivered nothing.
pub open spec fn delivered(per: Seq<Option<nat>>) -> Seq<nat> {
    per.map_values(|o: Option<nat>| match o {
        Some(v) => v,
        None => 0nat,
    })
}

/// The final report for the allocation with base-unit `inputs`: the kept
/// legs that delivered, largest input first (the first on ties), their
/// inputs summed as the reported input, their outputs summed as the
/// reported output, and the gas of the reported legs; `NoPath` with an
/// empty trace when no leg is reported.
pub open spec fn fw_reports(
    g: &Graph,
    tps: Seq<Seq<usize>>,
    pps: Seq<Seq<usize>>,
    inputs: Seq<nat>,
    keep: Seq<bool>,
    gas: GasModel,
    d: int,
    seed: Seq<Step>,
    r: SolveResult,
) -> bool {
    let (st, total, per) = simulate_spec(g, tps, pps, inputs, reserves_view(initial_view(g)));
    let order = top_picks(inputs, dropped(per, keep), tps.len());
    if order.len() == 0 {
        r.outcome is NoPath && r.trace@.len() == 0
    } else {
        &&& r.trace@ == seed
        &&& match r.outcome {
            Outcome::FoundSplit { legs, amount_in: given, amount_out, gas_cost } => {
                &&& legs@.len() == order.len()
                &&& forall|t: int|
                    0 <= t < order.len() ==> leg_matches(
                        g,
                        #[trigger] legs@[t],
                        tps[order[t]],
                        pps[order[t]],
                        inputs[order[t]],
                        per[order[t]].unwrap(),
                    )
                &&& given.val() == sum_at(inputs, order)
                &&& amount_out.val() == sum_at(delivered(per), order)
                &&& gas_cost.val() == gas_cost_spec(
                    gas.gas_price_wei as nat,
                    gas_units_spec(gas.enabled_spec(), order.len(), hops_along(pps, order)),
                    g.tokens@[d].true_price_pico_usd as nat,
                    g.tokens@[d].decimals as nat,
                )
            },
            _ => false,
        }
    }
}

proof fn lemma_hops_along(per: Seq<Option<LegSim>>, pps: Seq<Seq<usize>>, order: Seq<int>)
    requires
        forall|t: int| 0 <= t < order.len() ==> 0 <= #[trigger] order[t] < per.len() && per[order[t]] is Some,
        per.len() == pps.len(),
        forall|i: int| 0 <= i < per.len() ==> (#[trigger] per[i] matches Some(l) ==> l.pool_idxs@ == pps[i]),
    ensures
        hops_of(per, order) == hops_along(pps, order),
    decreases order.len(),
{
    if order.len() > 0 {
        lemma_hops_along(per, pps, order.drop_last());
        let i = order.last();
        assert(0 <= i < per.len() && per[i] is Some);
    }
}

/// Reports the allocation with base-unit `inputs`, keeping the legs that
/// `keep` marks, as `fw_reports` says; the trace is the source's visit when
/// tracing.
pub fn report_allocation(
    graph: &Graph,
    token_paths: &Vec<Vec<usize>>,
    pool_paths: &Vec<Vec<usize>>,
    inputs: &Vec<U256>,
    keep: &Vec<bool>,
    gas: &GasModel,
    src_idx: usize,
    dst_idx: usize,
    with_trace: bool,
) -> (r: SolveResult)
    requires
        allocation_ok(graph, paths_view(token_paths@), paths_view(pool_paths@), inputs@.len() as nat),
        routes_small(paths_view(pool_paths@)),
        keep@.len() == inputs@.len(),
        dst_idx < graph.tokens@.len(),
        src_idx < graph.tokens@.len(),
    ensures
        fw_reports(
            graph,
            paths_view(token_paths@),
            paths_view(pool_paths@),
            inputs_view(inputs@),
            keep@,
            *gas,
            dst_idx as int,
            if with_trace {
                seq![Step::Visit(src_idx)]
            } else {
                Seq::<Step>::empty()
            },
            r,
        ),
        crate::trace::trace_within(r.trace@, graph.tokens@.len()),
{
    let ghost tps = paths_view(token_paths@);
    let ghost pps = paths_view(pool_paths@);
    let (_, per_leg) = simulate_allocation(graph, token_paths, pool_paths, inputs);
    let ghost sim = simulate_spec(graph, tps, pps, inputs_view(inputs@), reserves_view(initial_view(graph)));
    let mut done: Vec<bool> = Vec::new();
    let mut x: usize = 0;
    while x < per_leg.len()
        invariant
            x <= per_leg@.len(),
            per_leg@.len() == keep@.len(),
            done@.len() == x,
            forall|y: int| 0 <= y < x ==> #[trigger] done@[y] == (per_leg@[y] is None || !keep@[y]),
        decreases per_leg@.len() - x,
    {
        done.push(per_leg[x].is_none() || !keep[x]);
        x = x + 1;
    }
    proof {
        assert(done@ =~= dropped(per_view(per_leg@), keep@));
    }
    let order = pick_order(inputs, done, token_paths.len());
    let ghost ov = indices(order@);
    proof {
        lemma_top_picks(inputs_view(inputs@), dropped(sim.2, keep@), tps.len());
        assert forall|t: int| 0 <= t < order@.len() implies #[trigger] order@[t] < token_paths@.len()
            && per_leg@[order@[t] as int] is Some by {
            assert(ov[t] == order@[t] as int);
            assert(!dropped(sim.2, keep@)[ov[t]]);
            assert(per_view(per_leg@)[ov[t]] is Some);
        }
    }
    if order.len() == 0 {
        return SolveResult { outcome: Outcome::NoPath, trace: Vec::new() };
    }
    proof {
        assert forall|i: int|
            0 <= i < per_leg@.len() implies (#[trigger] per_leg@[i] matches Some(l) ==> l.amount_in == inputs@[i]
                && l.pool_idxs@.len() <= MAX_HOPS && forall|y: int| 0 <= y < l.pool_idxs@.len() ==> #[trigger] l.pool_idxs@[y] < graph.pools@.len()) by {
            if per_leg@[i] is Some {
                assert(pps[i] == pool_paths@[i]@);
                assert(pps[i].len() <= MAX_HOPS);
            }
        }
        assert forall|i: int, y: int| 0 <= i < token_paths@.len() && 0 <= y < token_paths@[i]@.len() implies #[trigger] token_paths@[i]@[y] < graph.tokens@.len() by {
            assert(tps[i][y] < graph.tokens@.len());
        }
        assert(order@.len() <= token_paths@.len()) by {
            assert(ov.len() == order@.len());
        }
    }
    proof {
        let (ol, nl) = (order@.len() as int, token_paths@.len() as int);
        assert(ol * MAX_HOPS <= nl * MAX_HOPS) by (nonlinear_arith)
            requires
                ol <= nl,
        ;
    }
    let (legs, total_in, total_hops) = collect_legs(graph, token_paths, &per_leg, inputs, &order, Ghost(MAX_HOPS as nat));
    proof {
        assert forall|t: int| 0 <= t < ov.len() implies 0 <= #[trigger] ov[t] < per_leg@.len() && per_leg@[ov[t]] is Some by {
            assert(ov[t] == order@[t] as int);
        }
        assert forall|i: int| 0 <= i < per_leg@.len() implies (#[trigger] per_leg@[i] matches Some(l) ==> l.pool_idxs@ == pps[i]) by {
            if per_leg@[i] is Some {
                assert(pps[i] == pool_paths@[i]@);
            }
        }
        lemma_hops_along(per_leg@, pps, ov);
        assert forall|t: int| 0 <= t < ov.len() implies 0 <= #[trigger] ov[t] < pps.len() by {
            assert(ov[t] == order@[t] as int);
        }
        lemma_hops_along_bound(pps, ov);
    }
    let ghost outs = delivered(per_view(per_leg@));
    let mut total_out = U256::zero();
    let mut t: usize = 0;
    while t < legs.len()
        invariant
            t <= legs@.len(),
            legs@.len() == ov.len(),
            forall|y: int| 0 <= y < legs@.len() ==> (#[trigger] legs@[y]).amount_out.val() == outs[ov[y]],
            total_out.val() == sum_at(outs, ov.subrange(0, t as int)),
        decreases legs@.len() - t,
    {
        proof {
            assert(ov.subrange(0, t + 1).drop_last() =~= ov.subrange(0, t as int));
        }
        total_out = total_out.wrapping_add(legs[t].amount_out);
        t = t + 1;
    }
    proof {
        assert(ov.subrange(0, ov.len() as int) =~= ov);
    }
    let units = gas.gas_units(legs.len(), total_hops);
    let dst_token = &graph.tokens[dst_idx];
    let gas_cost = gas.gas_to_dst_token(units, dst_token.true_price_pico_usd, dst_token.decimals);
    SolveResult {
        outcome: Outcome::FoundSplit { legs, amount_in: total_in, amount_out: total_out, gas_cost },
        trace: seed_trace(with_trace, src_idx),
    }
}

} // verus!
