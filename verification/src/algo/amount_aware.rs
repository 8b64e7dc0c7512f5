//! Single-route search that ranks candidate routes by what they realise at
//! the trade size.
//!
//! Candidate token paths come from the bounded-hop enumeration; each is
//! walked with the best pool per hop for the user's amount and scored by its
//! output net of the route's gas. The best net output wins.
use crate::address::Address;
use crate::algo::bounded_bf::{emits, hop_path, views, within_hops, BoundedBfIter};
use crate::algo::dijkstra::found_along;
use crate::algo::gas::GasModel;
use crate::algo::{
    reports_route, reports_singleton, route_gas, singleton_result, Outcome, SolveResult, Tracer,
};
use crate::graph::{lemma_index_upto, token_index, Graph};
use crate::algo::path::{build_by_pair, lemma_walk_best_len, walk_best, walk_with_best_pools, PairIndex};
use crate::ratio::Ratio;
use crate::trace::{trace_within, Step};
use crate::uint::U256;
use vstd::prelude::*;

verus! {

/// Longest route considered, in hops.
pub const MAX_HOPS: usize = 3;

/// Most candidates examined.
pub const HARD_CAP: usize = 200;

/// Output of the route `tp` at the trade size, walked with the best pool
/// per hop, net of its gas (floored at zero); `None` when the walk fails.
pub open spec fn net_output(g: &Graph, tp: Seq<usize>, amount_in: U256, gas: GasModel) -> Option<nat> {
    match walk_best(g, tp, amount_in.val(), (tp.len() - 1) as nat) {
        None => None,
        Some((ps, out)) => {
            let cost = route_gas(g, gas, ps.len(), tp.last() as int);
            Some(
                if out >= cost {
                    (out - cost) as nat
                } else {
                    0
                },
            )
        },
    }
}

/// Index (or -1) and net output of the first candidate, among the first
/// `i`, whose net output is largest and positive.
pub open spec fn best_pick(g: &Graph, cands: Seq<Seq<usize>>, amount_in: U256, gas: GasModel, i: nat) -> (int, nat)
    decreases i,
{
    if i == 0 {
        (-1, 0)
    } else {
        let (b, bn) = best_pick(g, cands, amount_in, gas, (i - 1) as nat);
        match net_output(g, cands[i - 1], amount_in, gas) {
            Some(net) => if net > bn {
                (i - 1, net)
            } else {
                (b, bn)
            },
            None => (b, bn),
        }
    }
}

/// Number of candidates examined out of `len`.
pub open spec fn examined(len: nat) -> nat {
    if len < HARD_CAP {
        len
    } else {
        HARD_CAP as nat
    }
}

/// What amount-aware search promises: unknown tokens give `NoPath` with an
/// empty trace and equal ones the trivial route; otherwise, for the
/// enumerated candidates (simple walks of one to `MAX_HOPS` hops), the
/// outcome reports the first candidate with the largest positive net output
/// among those examined, or `NoPath` when none has one; tracing records at
/// least one event, and every event names real tokens.
pub open spec fn aa_contract(
    g: &Graph,
    src: Address,
    dst: Address,
    amount_in: U256,
    with_trace: bool,
    gas: GasModel,
    r: SolveResult,
) -> bool {
    let si = token_index(g.tokens@, src);
    let di = token_index(g.tokens@, dst);
    &&& trace_within(r.trace@, g.tokens@.len())
    &&& (si < 0 || di < 0) ==> r.outcome is NoPath && r.trace@.len() == 0
    &&& (si >= 0 && si == di) ==> reports_singleton(r.outcome, src, amount_in) && r.trace@ == (
    if with_trace {
        seq![Step::Visit(si as usize)]
    } else {
        Seq::<Step>::empty()
    })
    &&& (si >= 0 && di >= 0 && si != di) ==> {
        &&& exists|cands: Seq<Seq<usize>>|
            #[trigger] emits(g, cands, si, di, MAX_HOPS as nat) && {
                let b = best_pick(g, cands, amount_in, gas, examined(cands.len())).0;
                if b < 0 {
                    r.outcome is NoPath
                } else {
                    reports_route(g, r.outcome, cands[b], amount_in, gas)
                }
            }
        &&& with_trace ==> r.trace@.len() > 0
    }
}

/// Number of hops that a route trace shows: as many as there are pools and
/// token steps for.
pub open spec fn traced_hops(path_len: nat, pools_len: nat) -> nat {
    if path_len == 0 {
        0
    } else if pools_len < path_len - 1 {
        pools_len
    } else {
        (path_len - 1) as nat
    }
}

/// Product of the marginal rates of the first `k` hops, as a route trace
/// shows it: a hop whose pool cannot swap there counts as one.
pub open spec fn traced_rate(g: &Graph, path: Seq<usize>, pools: Seq<usize>, k: nat) -> (nat, nat)
    decreases k,
{
    if k == 0 {
        (1nat, 1nat)
    } else {
        let prev = traced_rate(g, path, pools, (k - 1) as nat);
        let pool = g.pools@[pools[k - 1] as int];
        let from = g.tokens@[path[k - 1] as int].address;
        if pool.swap_ok(from, 0) {
            (prev.0 * pool.rate_num(from), prev.1 * pool.rate_den(from))
        } else {
            prev
        }
    }
}

/// `ev` holds, for each of the first `k` hops `h`, a relaxation from
/// `path[h]` to `path[h + 1]` carrying the running product of marginal
/// rates, then a visit of `path[h + 1]`.
pub open spec fn route_events(g: &Graph, path: Seq<usize>, pools: Seq<usize>, ev: Seq<Step>, k: nat) -> bool {
    &&& ev.len() == 2 * k
    &&& forall|h: int|
        0 <= h < k ==> (#[trigger] ev[2 * h] matches Step::Relax { from, to, new_distance } && from
            == path[h] && to == path[h + 1] && new_distance.parts() == traced_rate(g, path, pools, (h + 1) as nat))
    &&& forall|h: int| 0 <= h < k ==> #[trigger] ev[2 * h + 1] == Step::Visit(path[h + 1])
}

/// Records the winning route for display: a relaxation and a visit per hop,
/// the relaxation carrying the running product of marginal rates.
fn trace_route(graph: &Graph, path: &Vec<usize>, pools: &Vec<usize>, tracer: &mut Tracer)
    requires
        forall|i: int| 0 <= i < path@.len() ==> #[trigger] path@[i] < graph.tokens@.len(),
        forall|i: int| 0 <= i < pools@.len() ==> #[trigger] pools@[i] < graph.pools@.len(),
        trace_within(old(tracer).events(), graph.tokens@.len()),
    ensures
        final(tracer).enabled() == old(tracer).enabled(),
        trace_within(final(tracer).events(), graph.tokens@.len()),
        old(tracer).events().len() <= final(tracer).events().len(),
        !old(tracer).enabled() ==> final(tracer).events() == old(tracer).events(),
        old(tracer).enabled() ==> {
            &&& final(tracer).events().take(old(tracer).events().len() as int) == old(tracer).events()
            &&& route_events(
                graph,
                path@,
                pools@,
                final(tracer).events().skip(old(tracer).events().len() as int),
                traced_hops(path@.len(), pools@.len()),
            )
        },
{
    let ghost ev0 = tracer.events();
    let mut running = Ratio::one();
    let mut hop: usize = 0;
    while hop < pools.len() && hop + 1 < path.len()
        invariant
            forall|i: int| 0 <= i < path@.len() ==> #[trigger] path@[i] < graph.tokens@.len(),
            forall|i: int| 0 <= i < pools@.len() ==> #[trigger] pools@[i] < graph.pools@.len(),
            tracer.enabled() == old(tracer).enabled(),
            trace_within(tracer.events(), graph.tokens@.len()),
            old(tracer).events().len() <= tracer.events().len(),
            ev0 == old(tracer).events(),
            hop <= traced_hops(path@.len(), pools@.len()),
            running.parts() == traced_rate(graph, path@, pools@, hop as nat),
            !old(tracer).enabled() ==> tracer.events() == ev0,
            old(tracer).enabled() ==> {
                &&& tracer.events().take(ev0.len() as int) == ev0
                &&& route_events(graph, path@, pools@, tracer.events().skip(ev0.len() as int), hop as nat)
            },
        decreases path@.len() - hop,
    {
        let ghost ev1 = tracer.events();
        let pool = &graph.pools[pools[hop]];
        let from = graph.tokens[path[hop]].address;
        if pool.can_swap(from, U256::zero()) {
            running = running.mul(&pool.marginal_rate(from));
        }
        let step = Step::Relax { from: path[hop], to: path[hop + 1], new_distance: running.copy() };
        tracer.push(step);
        tracer.push(Step::Visit(path[hop + 1]));
        proof {
            if old(tracer).enabled() {
                let ev = tracer.events();
                assert(ev == ev1.push(step).push(Step::Visit(path@[hop + 1])));
                assert(ev.take(ev0.len() as int) =~= ev0) by {
                    assert forall|i: int| 0 <= i < ev0.len() implies ev[i] == ev0[i] by {
                        assert(ev[i] == ev1[i]);
                        assert(ev1.take(ev0.len() as int)[i] == ev0[i]);
                    }
                }
                let old_tail = ev1.skip(ev0.len() as int);
                let tail = ev.skip(ev0.len() as int);
                assert(tail =~= old_tail.push(step).push(Step::Visit(path@[hop + 1])));
                assert forall|h: int| 0 <= h < hop + 1 implies (#[trigger] tail[2 * h] matches Step::Relax {
                    from,
                    to,
                    new_distance,
                } && from == path@[h] && to == path@[h + 1] && new_distance.parts() == traced_rate(
                    graph,
                    path@,
                    pools@,
                    (h + 1) as nat,
                )) by {
                    if h < hop {
                        assert(tail[2 * h] == old_tail[2 * h]);
                    }
                }
                assert forall|h: int| 0 <= h < hop + 1 implies #[trigger] tail[2 * h + 1] == Step::Visit(path@[h + 1]) by {
                    if h < hop {
                        assert(tail[2 * h + 1] == old_tail[2 * h + 1]);
                    }
                }
            }
        }
        hop = hop + 1;
    }
}

/// Index of the first candidate, among the first `HARD_CAP`, with the
/// largest positive output net of gas at the trade size.
pub(crate) fn pick_best(
    graph: &Graph,
    by_pair: &PairIndex,
    cands: &Vec<Vec<usize>>,
    amount_in: U256,
    gas: &GasModel,
    Ghost(s): Ghost<int>,
    Ghost(d): Ghost<int>,
) -> (r: Option<usize>)
    requires
        graph.wf(),
        by_pair.indexes(graph),
        forall|i: int|
            0 <= i < cands@.len() ==> #[trigger] within_hops(graph, cands@[i]@, s, d, MAX_HOPS as nat),
    ensures
        ({
            let b = best_pick(
                graph,
                views(cands@),
                amount_in,
                *gas,
                examined(cands@.len()),
            ).0;
            match r {
                None => b < 0,
                Some(i) => b == i as int && i < cands@.len(),
            }
        }),
{
    let ghost cv = views(cands@);
    let mut best: Option<usize> = None;
    let mut best_net = U256::zero();
    let mut i: usize = 0;
    while i < cands.len() && i < HARD_CAP
        invariant
            graph.wf(),
            by_pair.indexes(graph),
            cv == views(cands@),
            forall|k: int|
                0 <= k < cands@.len() ==> #[trigger] within_hops(graph, cands@[k]@, s, d, MAX_HOPS as nat),
            i <= cands@.len(),
            i <= HARD_CAP,
            ({
                let (b, bn) = best_pick(graph, cv, amount_in, *gas, i as nat);
                &&& best_net.val() == bn
                &&& match best {
                    None => b < 0,
                    Some(x) => b == x as int && x < i,
                }
            }),
        decreases cands@.len() - i,
    {
        let tp = &cands[i];
        proof {
            assert(cv[i as int] == tp@);
            assert(within_hops(graph, cands@[i as int]@, s, d, MAX_HOPS as nat));
            let h = choose|h: nat| 1 <= h <= MAX_HOPS && #[trigger] hop_path(graph, tp@, s, d, h);
            assert(hop_path(graph, tp@, s, d, h));
        }
        match walk_with_best_pools(graph, by_pair, tp, amount_in) {
            None => {},
            Some((pools, out, _)) => {
                proof {
                    lemma_walk_best_len(graph, tp@, amount_in.val(), (tp@.len() - 1) as nat);
                }
                let units = gas.gas_units(1, pools.len());
                let last = graph.tokens[tp[tp.len() - 1]].true_price_pico_usd;
                let dec = graph.tokens[tp[tp.len() - 1]].decimals;
                let leg_gas = gas.gas_to_dst_token(units, last, dec);
                let net = out.saturating_sub(leg_gas);
                if net.gt(&best_net) {
                    best = Some(i);
                    best_net = net;
                }
            },
        }
        i = i + 1;
    }
    proof {
        assert(examined(cands@.len()) == i);
    }
    best
}

/// Routes `amount_in` of `src` to `dst` along the candidate route that
/// realises the most net of gas at this size; `NoPath` when no candidate
/// nets a positive amount.
pub fn solve(
    graph: &Graph,
    src: Address,
    dst: Address,
    amount_in: U256,
    with_trace: bool,
    gas: &GasModel,
) -> (r: SolveResult)
    requires
        graph.wf(),
        graph.tokens@.len() < 0x1_0000_0000,
    ensures
        aa_contract(graph, src, dst, amount_in, with_trace, *gas, r),
{
    proof {
        lemma_index_upto(graph.tokens@, src, graph.tokens@.len() as int);
        lemma_index_upto(graph.tokens@, dst, graph.tokens@.len() as int);
    }
    let s = match graph.index_of(src) {
        Some(i) => i,
        None => {
            return SolveResult { outcome: Outcome::NoPath, trace: Vec::new() };
        },
    };
    let d = match graph.index_of(dst) {
        Some(i) => i,
        None => {
            return SolveResult { outcome: Outcome::NoPath, trace: Vec::new() };
        },
    };
    if s == d {
        return singleton_result(src, s, amount_in, with_trace);
    }
    let mut tracer = Tracer::new(with_trace);
    tracer.push(Step::Visit(s));
    let cands = BoundedBfIter::new(graph, s, d, MAX_HOPS).into_paths();
    let ghost cv = views(cands@);
    proof {
        assert forall|i: int| 0 <= i < cands@.len() implies #[trigger] within_hops(graph, cands@[i]@, s as int, d as int, MAX_HOPS as nat) by {
            assert(cv[i] == cands@[i]@);
        }
    }
    let by_pair = build_by_pair(graph);
    match pick_best(graph, &by_pair, &cands, amount_in, gas, Ghost(s as int), Ghost(d as int)) {
        None => SolveResult { outcome: Outcome::NoPath, trace: tracer.into_vec() },
        Some(b) => {
            let path = cands[b].clone();
            proof {
                assert(cv[b as int] == path@);
                assert(within_hops(graph, cands@[b as int]@, s as int, d as int, MAX_HOPS as nat));
                let h = choose|h: nat| 1 <= h <= MAX_HOPS && #[trigger] hop_path(graph, path@, s as int, d as int, h);
                assert(hop_path(graph, path@, s as int, d as int, h));
            }
            match walk_with_best_pools(graph, &by_pair, &path, amount_in) {
                Some((pools, _, _)) => {
                    trace_route(graph, &path, &pools, &mut tracer);
                },
                None => {},
            }
            found_along(graph, &path, amount_in, gas, tracer)
        },
    }
}

} // verus!
