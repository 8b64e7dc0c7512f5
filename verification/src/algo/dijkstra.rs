//! Dijkstra over exact rate products.
//!
//! A route's weight is the product of its hops' marginal rates, and a
//! larger product is a shorter distance (the usual edge weight is the
//! negated logarithm of the rate). Settling order is by largest product,
//! the smallest index first on ties. As with log weights, the result is
//! only optimal when no rate exceeds one along the way (a price potential
//! makes the reduced weights non-negative); on graphs with arbitrage
//! Bellman-Ford is the right tool. The route is chosen by marginal rates;
//! the reported output comes from the exact swap maths with the best pool
//! per hop at the trade size.
use crate::address::Address;
use crate::algo::gas::GasModel;
use crate::algo::{
    lemma_count_true_below, lemma_count_true_set, count_true,
    pool_addresses, reports_route, reports_singleton, singleton_result, token_addresses, Outcome,
    SolveResult, Tracer,
};
use crate::graph::{lemma_index_upto, token_index, Graph};
use crate::algo::path::{
    build_by_pair, chain_len, lemma_walk_best_len, walk_back, lemma_chain_from_order, lemma_chain_len_unique, lemma_chain_walk,
    reconstruct_with_pools, walk_with_best_pools,
};
use crate::algo::bf_gain::{hop_rate, lemma_hop_rate_pos};
use crate::algo::bellman_ford::parent_path;
use crate::algo::bf_sweeps::{dist_view, no_links, start_dist};
use crate::algo::dijkstra_run::{first_best, lemma_settle_step, relax_rest, relax_step, settle_run, settle_step, settled};
use crate::algo::best_walk::{
    best_inv, best_route, lemma_best_inv_pos, lemma_best_start, lemma_best_visit, lemma_chain_best,
    lemma_linked_raise, lemma_settle_best, products_linked, rates_at_most_one, relax_effects,
};
use crate::ratio::{frac_le, frac_lt, frac_mul, frac_pos, lemma_frac_mul_pos, lemma_frac_trans, Ratio};
use crate::trace::{trace_within, Step};
use crate::uint::U256;
use vstd::prelude::*;

verus! {

/// Parent links lead from settled tokens along usable pool hops, and a
/// settled token's parent was settled before it (by settling times `vt`).
pub open spec fn parents_ok(
    g: &Graph,
    prev: Seq<Option<(usize, usize)>>,
    settled: Seq<bool>,
    vt: Seq<nat>,
) -> bool {
    forall|v: int|
        0 <= v < prev.len() && #[trigger] prev[v] is Some ==> {
            &&& prev[v].unwrap().0 < prev.len()
            &&& settled[prev[v].unwrap().0 as int]
            &&& g.hop(prev[v].unwrap().0 as int, v, prev[v].unwrap().1 as int)
            &&& (settled[v] ==> vt[prev[v].unwrap().0 as int] < vt[v])
        }
}

/// What single-route search promises: unknown tokens give `NoPath` with an
/// empty trace; equal tokens give the trivial route; otherwise an
/// unreachable destination gives `NoPath`, a reachable one a report of some
/// walk from source to destination along usable edges, and tracing records
/// at least one event. When no usable marginal rate exceeds one, that walk
/// carries the best marginal-rate product of all routes. Every event names
/// real tokens; the trace holds visits of settled tokens and relaxations,
/// opens with the visit of the source and, when the destination is
/// reachable, ends with its visit. The answer itself, traced or not, is the
/// one `dijkstra_answer` reads off the state the search stops in.
pub open spec fn single_route_contract(
    g: &Graph,
    src: Address,
    dst: Address,
    amount_in: U256,
    with_trace: bool,
    gas: GasModel,
    r: SolveResult,
) -> bool {
    let si = token_index(g.tokens@, src);
    let di = token_index(g.tokens@, dst);
    &&& trace_within(r.trace@, g.tokens@.len())
    &&& (si < 0 || di < 0) ==> r.outcome is NoPath && r.trace@.len() == 0
    &&& (si >= 0 && si == di) ==> reports_singleton(r.outcome, src, amount_in) && r.trace@ == (
    if with_trace {
        seq![Step::Visit(si as usize)]
    } else {
        Seq::<Step>::empty()
    })
    &&& (si >= 0 && di >= 0 && si != di) ==> {
        &&& !g.reachable(si, di) ==> r.outcome is NoPath
        &&& g.reachable(si, di) ==> exists|tp: Seq<usize>|
            #[trigger] g.is_walk(tp) && tp[0] == si && tp.last() == di && reports_route(
                g,
                r.outcome,
                tp,
                amount_in,
                gas,
            ) && (rates_at_most_one(g) ==> best_route(g, tp, si, di))
        &&& with_trace ==> r.trace@.len() > 0 && r.trace@[0] == Step::Visit(si as usize)
        &&& (with_trace && g.reachable(si, di)) ==> r.trace@.last() == Step::Visit(di as usize)
        &&& forall|k: int| 0 <= k < r.trace@.len() ==> (#[trigger] r.trace@[k] is Visit || r.trace@[k] is Relax)
        &&& dijkstra_answer(g, si, di, amount_in, gas, r.outcome)
    }
}

/// Dijkstra's answer from `si` to another token `di`, fixed by the state its
/// search stops in: the route along the parent path when `di` was
/// settled, walked with the best pool per hop at the trade size; `NoPath`
/// otherwise.
pub open spec fn dijkstra_answer(g: &Graph, si: int, di: int, amount_in: U256, gas: GasModel, o: Outcome) -> bool {
    let st = settled(g, si, di);
    if st.2[di] {
        reports_route(g, o, parent_path(st.1, si, di), amount_in, gas)
    } else {
        o is NoPath
    }
}

/// The unsettled reached token with the largest rate product, the first on
/// ties; `None` when every reached token is settled.
fn pick_next(dist: &Vec<Option<Ratio>>, visited: &Vec<bool>) -> (r: Option<usize>)
    requires
        dist@.len() == visited@.len(),
        forall|v: int| 0 <= v < dist@.len() && #[trigger] dist@[v] is Some ==> frac_pos(dist@[v].unwrap().parts()),
    ensures
        match r {
            Some(u) => u < dist@.len() && !visited@[u as int] && dist@[u as int] is Some && forall|v: int|
                0 <= v < dist@.len() && !visited@[v] && #[trigger] dist@[v] is Some ==> frac_le(
                    dist@[v].unwrap().parts(),
                    dist@[u as int].unwrap().parts(),
                ),
            None => forall|v: int| 0 <= v < dist@.len() && dist@[v] is Some ==> visited@[v],
        },
        match r {
            Some(u) => first_best(dist_view(dist@), visited@, dist@.len() as nat) == u as int,
            None => first_best(dist_view(dist@), visited@, dist@.len() as nat) < 0,
        },
{
    let mut best: Option<usize> = None;
    let mut v: usize = 0;
    while v < dist.len()
        invariant
            dist@.len() == visited@.len(),
            v <= dist@.len(),
            forall|w: int| 0 <= w < dist@.len() && #[trigger] dist@[w] is Some ==> frac_pos(dist@[w].unwrap().parts()),
            match best {
                Some(b) => b < v && !visited@[b as int] && dist@[b as int] is Some && forall|w: int|
                    0 <= w < v && !visited@[w] && #[trigger] dist@[w] is Some ==> frac_le(
                        dist@[w].unwrap().parts(),
                        dist@[b as int].unwrap().parts(),
                    ),
                None => forall|w: int| 0 <= w < v && dist@[w] is Some ==> visited@[w],
            },
            match best {
                Some(b) => first_best(dist_view(dist@), visited@, v as nat) == b as int,
                None => first_best(dist_view(dist@), visited@, v as nat) < 0,
            },
        decreases dist@.len() - v,
    {
        if !visited[v] {
            match &dist[v] {
                Some(dv) => {
                    let better = match best {
                        None => true,
                        Some(b) => match &dist[b] {
                            Some(db) => dv.gt(db),
                            None => true,
                        },
                    };
                    proof {
                        let pv = dist@[v as int].unwrap().parts();
                        assert(frac_le(pv, pv)) by (nonlinear_arith);
                        if let Some(b) = best {
                            let pb = dist@[b as int].unwrap().parts();
                            if better {
                                assert(frac_lt(pb, pv));
                                assert forall|w: int|
                                    0 <= w < v && !visited@[w] && #[trigger] dist@[w] is Some implies frac_le(
                                    dist@[w].unwrap().parts(),
                                    pv,
                                ) by {
                                    lemma_frac_trans(dist@[w].unwrap().parts(), pb, pv);
                                }
                            } else {
                                assert(frac_le(pv, pb));
                            }
                        }
                    }
                    proof {
                        let dvw = dist_view(dist@);
                        assert(dvw[v as int] == Some(dist@[v as int].unwrap().parts()));
                        if let Some(b) = best {
                            assert(dvw[b as int] == Some(dist@[b as int].unwrap().parts()));
                        }
                    }
                    if better {
                        best = Some(v);
                    }
                },
                None => {
                    proof {
                        assert(dist_view(dist@)[v as int] is None);
                    }
                },
            }
        }
        v = v + 1;
    }
    best
}

/// Appending a relaxation (or nothing) keeps the earlier events `ev0` and a
/// tail of relaxations after them.
proof fn lemma_relax_tail(ev0: Seq<Step>, ev1: Seq<Step>, ev2: Seq<Step>, x: Step)
    requires
        ev0.len() <= ev1.len(),
        ev1.take(ev0.len() as int) == ev0,
        forall|k: int| ev0.len() <= k < ev1.len() ==> #[trigger] ev1[k] is Relax,
        x is Relax,
        ev2 == ev1.push(x) || ev2 == ev1,
    ensures
        ev0.len() <= ev2.len(),
        ev2.take(ev0.len() as int) == ev0,
        forall|k: int| ev0.len() <= k < ev2.len() ==> #[trigger] ev2[k] is Relax,
{
    if ev2 != ev1 {
        assert(ev2.take(ev0.len() as int) =~= ev0) by {
            assert forall|k: int| 0 <= k < ev0.len() implies ev2.take(ev0.len() as int)[k] == ev0[k] by {
                assert(ev2[k] == ev1[k]);
                assert(ev1.take(ev0.len() as int)[k] == ev1[k]);
            }
        }
        assert forall|k: int| ev0.len() <= k < ev2.len() implies #[trigger] ev2[k] is Relax by {
            if k < ev1.len() {
                assert(ev2[k] == ev1[k]);
            }
        }
    }
}

/// Relaxes the usable edges leaving the settled token `u`, whose best rate
/// product is `dist_u`, towards unsettled tokens.
fn relax_from(
    graph: &Graph,
    u: usize,
    dist_u: &Ratio,
    dist: &mut Vec<Option<Ratio>>,
    prev: &mut Vec<Option<(usize, usize)>>,
    visited: &Vec<bool>,
    tracer: &mut Tracer,
    Ghost(vt): Ghost<Seq<nat>>,
)
    requires
        graph.wf(),
        u < graph.tokens@.len(),
        visited@.len() == graph.tokens@.len(),
        visited@[u as int],
        old(dist)@.len() == graph.tokens@.len(),
        old(prev)@.len() == graph.tokens@.len(),
        vt.len() == graph.tokens@.len(),
        parents_ok(graph, old(prev)@, visited@, vt),
        trace_within(old(tracer).events(), graph.tokens@.len()),
        old(dist)@[u as int] is Some,
        dist_u.parts() == old(dist)@[u as int].unwrap().parts(),
        products_linked(graph, old(dist)@, old(prev)@),
    ensures
        final(dist)@.len() == graph.tokens@.len(),
        final(prev)@.len() == graph.tokens@.len(),
        parents_ok(graph, final(prev)@, visited@, vt),
        relax_effects(graph, u as int, dist_u.parts(), old(dist)@, final(dist)@, final(prev)@, visited@),
        forall|v: int|
            0 <= v < visited@.len() && visited@[v] ==> final(dist)@[v] == old(dist)@[v]
                && final(prev)@[v] == old(prev)@[v],
        forall|v: int| 0 <= v < visited@.len() && old(dist)@[v] is Some ==> final(dist)@[v] is Some,
        forall|v: int| 0 <= v < visited@.len() && old(prev)@[v] is Some ==> final(prev)@[v] is Some,
        forall|v: int|
            0 <= v < visited@.len() && final(dist)@[v] is Some && old(dist)@[v] is None
                ==> final(prev)@[v] is Some,
        forall|i: int|
            #[trigger] graph.usable(u as int, i) ==> final(dist)@[graph.adj@[u as int]@[i].to as int] is Some
                || visited@[graph.adj@[u as int]@[i].to as int],
        final(tracer).enabled() == old(tracer).enabled(),
        trace_within(final(tracer).events(), graph.tokens@.len()),
        old(tracer).events().len() <= final(tracer).events().len(),
        final(tracer).events().take(old(tracer).events().len() as int) == old(tracer).events(),
        forall|k: int|
            old(tracer).events().len() <= k < final(tracer).events().len() ==> #[trigger] final(tracer).events()[k] is Relax,
        (dist_view(final(dist)@), final(prev)@) == relax_rest(
            graph,
            (dist_view(old(dist)@), old(prev)@),
            visited@,
            u as int,
            dist_u.parts(),
            0,
        ),
{
    proof {
        graph.lemma_adj_ok();
    }
    let ghost target = relax_rest(graph, (dist_view(dist@), prev@), visited@, u as int, dist_u.parts(), 0);
    let edges = &graph.adj[u];
    let mut i: usize = 0;
    while i < edges.len()
        invariant
            graph.wf(),
            edges@ == graph.adj@[u as int]@,
            u < graph.tokens@.len(),
            forall|uu: int, ii: int|
                0 <= uu < graph.adj@.len() && 0 <= ii < graph.adj@[uu]@.len() ==> graph.edge_ok(
                    uu,
                    #[trigger] graph.adj@[uu]@[ii],
                ),
            i <= edges@.len(),
            visited@.len() == graph.tokens@.len(),
            visited@[u as int],
            dist@.len() == graph.tokens@.len(),
            prev@.len() == graph.tokens@.len(),
            vt.len() == graph.tokens@.len(),
            parents_ok(graph, prev@, visited@, vt),
            forall|v: int|
                0 <= v < visited@.len() && visited@[v] ==> dist@[v] == old(dist)@[v] && prev@[v]
                    == old(prev)@[v],
            forall|v: int| 0 <= v < visited@.len() && old(dist)@[v] is Some ==> dist@[v] is Some,
            forall|v: int| 0 <= v < visited@.len() && old(prev)@[v] is Some ==> prev@[v] is Some,
            forall|v: int|
                0 <= v < visited@.len() && dist@[v] is Some && old(dist)@[v] is None
                    ==> prev@[v] is Some,
            forall|j: int|
                0 <= j < i && #[trigger] graph.usable(u as int, j) ==> dist@[graph.adj@[u as int]@[j].to as int] is Some
                    || visited@[graph.adj@[u as int]@[j].to as int],
            tracer.enabled() == old(tracer).enabled(),
            trace_within(tracer.events(), graph.tokens@.len()),
            old(tracer).events().len() <= tracer.events().len(),
            tracer.events().take(old(tracer).events().len() as int) == old(tracer).events(),
            forall|k: int|
                old(tracer).events().len() <= k < tracer.events().len() ==> #[trigger] tracer.events()[k] is Relax,
            dist@[u as int] is Some,
            dist_u.parts() == dist@[u as int].unwrap().parts(),
            products_linked(graph, dist@, prev@),
            products_linked(graph, old(dist)@, old(prev)@),
            old(dist)@.len() == graph.tokens@.len(),
            forall|v: int|
                0 <= v < visited@.len() && #[trigger] old(dist)@[v] is Some ==> dist@[v] is Some && frac_le(
                    old(dist)@[v].unwrap().parts(),
                    dist@[v].unwrap().parts(),
                ),
            forall|j: int|
                0 <= j < i && #[trigger] graph.usable(u as int, j) && !visited@[graph.adj@[u as int]@[j].to as int]
                    ==> dist@[graph.adj@[u as int]@[j].to as int] is Some && frac_le(
                    frac_mul(dist_u.parts(), hop_rate(graph, u as int, graph.adj@[u as int]@[j].pool as int)),
                    dist@[graph.adj@[u as int]@[j].to as int].unwrap().parts(),
                ),
            relax_rest(graph, (dist_view(dist@), prev@), visited@, u as int, dist_u.parts(), i as int) == target,
        decreases edges@.len() - i,
    {
        let e = edges[i];
        assert(graph.edge_ok(u as int, graph.adj@[u as int]@[i as int]));
        let ghost dist_before = dist@;
        let ghost cur = (dist_view(dist@), prev@);
        proof {
            assert(relax_rest(graph, cur, visited@, u as int, dist_u.parts(), i as int) == relax_rest(
                graph,
                relax_step(graph, cur, visited@, u as int, dist_u.parts(), i as int),
                visited@,
                u as int,
                dist_u.parts(),
                i + 1,
            ));
        }
        if !visited[e.to] {
            match graph.pools[e.pool].usable_rate(e.in_token) {
                None => {},
                Some(rate) => {
                    let new_dist = dist_u.mul(&rate);
                    proof {
                        assert(graph.usable(u as int, i as int));
                        assert(graph.hop(u as int, e.to as int, e.pool as int));
                        lemma_hop_rate_pos(graph, u as int, e.to as int, e.pool as int);
                        lemma_frac_mul_pos(dist_u.parts(), hop_rate(graph, u as int, e.pool as int));
                        assert(new_dist.parts() == frac_mul(dist_u.parts(), hop_rate(graph, u as int, e.pool as int)));
                    }
                    let improves = match &dist[e.to] {
                        None => true,
                        Some(old_d) => new_dist.gt(old_d),
                    };
                    if improves {
                        let ghost prev0 = prev@;
                        let shown = new_dist.copy();
                        dist.set(e.to, Some(new_dist));
                        prev.set(e.to, Some((u, e.pool)));
                        proof {
                            let nd = frac_mul(dist_u.parts(), hop_rate(graph, u as int, e.pool as int));
                            assert forall|v: int| 0 <= v < prev0.len() && #[trigger] prev0[v] is Some implies visited@[prev0[v].unwrap().0 as int] by {
                                assert(parents_ok(graph, prev0, visited@, vt));
                            }
                            lemma_linked_raise(graph, dist_before, prev0, visited@, e.to as int, u, e.pool, dist@[e.to as int].unwrap());
                            if dist_before[e.to as int] is Some {
                                assert(frac_lt(dist_before[e.to as int].unwrap().parts(), nd));
                            }
                            assert forall|v: int|
                                0 <= v < visited@.len() && #[trigger] old(dist)@[v] is Some implies dist@[v] is Some && frac_le(
                                    old(dist)@[v].unwrap().parts(),
                                    dist@[v].unwrap().parts(),
                                ) by {
                                if v == e.to as int {
                                    let a = old(dist)@[v].unwrap().parts();
                                    let b = dist_before[v].unwrap().parts();
                                    assert(products_linked(graph, old(dist)@, old(prev)@));
                                    assert(0 <= v < old(dist)@.len());
                                    assert(frac_pos(a));
                                    assert(frac_pos(b));
                                    lemma_frac_trans(a, b, nd);
                                } else {
                                    assert(dist@[v] == dist_before[v]);
                                }
                            }
                            assert forall|j: int|
                                0 <= j < i + 1 && #[trigger] graph.usable(u as int, j) && !visited@[graph.adj@[u as int]@[j].to as int]
                                    implies dist@[graph.adj@[u as int]@[j].to as int] is Some && frac_le(
                                    frac_mul(dist_u.parts(), hop_rate(graph, u as int, graph.adj@[u as int]@[j].pool as int)),
                                    dist@[graph.adj@[u as int]@[j].to as int].unwrap().parts(),
                                ) by {
                                let t = graph.adj@[u as int]@[j].to as int;
                                let bj = frac_mul(dist_u.parts(), hop_rate(graph, u as int, graph.adj@[u as int]@[j].pool as int));
                                if j == i {
                                    assert(frac_le(nd, nd)) by (nonlinear_arith);
                                } else if t == e.to as int {
                                    graph.lemma_adj_ok();
                                    assert(graph.edge_ok(u as int, graph.adj@[u as int]@[j]));
                                    assert(graph.hop(u as int, t, graph.adj@[u as int]@[j].pool as int));
                                    lemma_hop_rate_pos(graph, u as int, t, graph.adj@[u as int]@[j].pool as int);
                                    lemma_frac_mul_pos(dist_u.parts(), hop_rate(graph, u as int, graph.adj@[u as int]@[j].pool as int));
                                    lemma_frac_trans(bj, dist_before[t].unwrap().parts(), nd);
                                } else {
                                    assert(dist@[t] == dist_before[t]);
                                }
                            }
                            assert(graph.usable(u as int, i as int));
                            assert(graph.hop(u as int, e.to as int, e.pool as int));
                            assert forall|v: int|
                                0 <= v < prev@.len() && #[trigger] prev@[v] is Some implies {
                                &&& prev@[v].unwrap().0 < prev@.len()
                                &&& visited@[prev@[v].unwrap().0 as int]
                                &&& graph.hop(
                                    prev@[v].unwrap().0 as int,
                                    v,
                                    prev@[v].unwrap().1 as int,
                                )
                                &&& (visited@[v] ==> vt[prev@[v].unwrap().0 as int] < vt[v])
                            } by {
                                if v != e.to as int {
                                    assert(prev@[v] == prev0[v]);
                                }
                            }
                        }
                        let ghost ev1 = tracer.events();
                        let step = Step::Relax { from: u, to: e.to, new_distance: shown };
                        tracer.push(step);
                        proof {
                            lemma_relax_tail(old(tracer).events(), ev1, tracer.events(), step);
                        }
                    } else {
                        proof {
                            let nd = frac_mul(dist_u.parts(), hop_rate(graph, u as int, e.pool as int));
                            assert(frac_le(nd, dist@[e.to as int].unwrap().parts()));
                        }
                    }
                },
            }
        }
        proof {
            assert((dist_view(dist@), prev@) == relax_step(graph, cur, visited@, u as int, dist_u.parts(), i as int));
        }
        i = i + 1;
    }
    proof {
        let cur = (dist_view(dist@), prev@);
        assert(relax_rest(graph, cur, visited@, u as int, dist_u.parts(), i as int) == cur);
        reveal(relax_effects);
    }
}

/// `n` unreached, unsettled tokens without parents.
pub(crate) fn fresh_state(n: usize) -> (r: (Vec<Option<Ratio>>, Vec<Option<(usize, usize)>>, Vec<bool>))
    ensures
        r.0@.len() == n,
        r.1@.len() == n,
        r.2@.len() == n,
        forall|v: int| 0 <= v < n ==> #[trigger] r.0@[v] is None,
        forall|v: int| 0 <= v < n ==> #[trigger] r.1@[v] is None,
        forall|v: int| 0 <= v < n ==> !#[trigger] r.2@[v],
{
    let mut dist: Vec<Option<Ratio>> = Vec::new();
    let mut prev: Vec<Option<(usize, usize)>> = Vec::new();
    let mut visited: Vec<bool> = Vec::new();
    let mut k: usize = 0;
    while k < n
        invariant
            k <= n,
            dist@.len() == k,
            prev@.len() == k,
            visited@.len() == k,
            forall|v: int| 0 <= v < k ==> #[trigger] dist@[v] is None,
            forall|v: int| 0 <= v < k ==> #[trigger] prev@[v] is None,
            forall|v: int| 0 <= v < k ==> !#[trigger] visited@[v],
        decreases n - k,
    {
        dist.push(None);
        prev.push(None);
        visited.push(false);
        k = k + 1;
    }
    (dist, prev, visited)
}

/// The search state: `s` is reached; settled tokens are reached and were
/// settled at times below `count`, the number of settled tokens; reached
/// tokens other than `s` have parents; parent links are well-founded usable
/// hops; every usable edge out of a settled token other than `d` leads to a
/// reached token; and before `s` is settled nothing else is reached.
#[verifier::opaque]
pub open spec fn search_inv(
    g: &Graph,
    s: int,
    d: int,
    dist: Seq<Option<Ratio>>,
    prev: Seq<Option<(usize, usize)>>,
    visited: Seq<bool>,
    vt: Seq<nat>,
    count: nat,
) -> bool {
    let n = g.tokens@.len();
    &&& dist.len() == n
    &&& prev.len() == n
    &&& visited.len() == n
    &&& vt.len() == n
    &&& 0 <= s < n
    &&& 0 <= d < n
    &&& s != d
    &&& dist[s] is Some
    &&& count == count_true(visited, n as int)
    &&& count <= n
    &&& forall|v: int| 0 <= v < n && #[trigger] visited[v] ==> dist[v] is Some && vt[v] < count
    &&& forall|v: int|
        #![trigger prev[v]]
        0 <= v < n && dist[v] is Some && v != s ==> prev[v] is Some
    &&& parents_ok(g, prev, visited, vt)
    &&& forall|u: int, i: int|
        0 <= u < n && visited[u] && u != d && #[trigger] g.usable(u, i) ==> dist[g.adj@[u]@[i].to as int] is Some
    &&& !visited[s] ==> count == 0 && forall|v: int| 0 <= v < n && #[trigger] dist[v] is Some ==> v == s
}

/// Settles the reached token `u`, then relaxes its edges unless it is `d`.
/// Returns the new settling times.
#[verifier::spinoff_prover]
#[verifier::rlimit(40)]
fn visit(
    graph: &Graph,
    s: usize,
    d: usize,
    u: usize,
    dist: &mut Vec<Option<Ratio>>,
    prev: &mut Vec<Option<(usize, usize)>>,
    visited: &mut Vec<bool>,
    tracer: &mut Tracer,
    Ghost(vt): Ghost<Seq<nat>>,
    count: usize,
) -> (r: Ghost<Seq<nat>>)
    requires
        graph.wf(),
        search_inv(graph, s as int, d as int, old(dist)@, old(prev)@, old(visited)@, vt, count as nat),
        u < graph.tokens@.len(),
        !old(visited)@[u as int],
        old(dist)@[u as int] is Some,
        trace_within(old(tracer).events(), graph.tokens@.len()),
        best_inv(graph, s as int, d as int, old(dist)@, old(prev)@, old(visited)@),
        !old(visited)@[d as int],
        forall|v: int|
            0 <= v < old(dist)@.len() && !old(visited)@[v] && #[trigger] old(dist)@[v] is Some ==> frac_le(
                old(dist)@[v].unwrap().parts(),
                old(dist)@[u as int].unwrap().parts(),
            ),
    ensures
        count < graph.tokens@.len(),
        final(dist)@.len() == graph.tokens@.len(),
        final(visited)@.len() == graph.tokens@.len(),
        search_inv(graph, s as int, d as int, final(dist)@, final(prev)@, final(visited)@, r@, (count + 1) as nat),
        final(visited)@[u as int],
        final(visited)@ == old(visited)@.update(u as int, true),
        best_inv(graph, s as int, d as int, final(dist)@, final(prev)@, final(visited)@),
        final(tracer).enabled() == old(tracer).enabled(),
        trace_within(final(tracer).events(), graph.tokens@.len()),
        final(tracer).enabled() ==> final(tracer).events().len() > 0,
        !old(visited)@[s as int] ==> u == s,
        final(tracer).enabled() ==> {
            &&& final(tracer).events().len() > old(tracer).events().len()
            &&& final(tracer).events().take(old(tracer).events().len() as int) == old(tracer).events()
            &&& final(tracer).events()[old(tracer).events().len() as int] == Step::Visit(u)
            &&& forall|k: int|
                old(tracer).events().len() < k < final(tracer).events().len() ==> #[trigger] final(tracer).events()[k] is Relax
        },
        (final(tracer).enabled() && u == d) ==> final(tracer).events() == old(tracer).events().push(Step::Visit(u)),
        !final(tracer).enabled() ==> final(tracer).events() == old(tracer).events(),
        (dist_view(final(dist)@), final(prev)@, final(visited)@) == settle_step(
            graph,
            (dist_view(old(dist)@), old(prev)@, old(visited)@),
            u as int,
            d as int,
        ),
{
    let ghost n = graph.tokens@.len() as int;
    let ghost dist_start = dist@;
    let ghost prev_start = prev@;
    proof {
        reveal(search_inv);
        lemma_count_true_below(visited@, u as int, n);
        lemma_count_true_set(visited@, u as int, n);
        if !visited@[s as int] {
            assert(u == s);
        }
        if rates_at_most_one(graph) {
            lemma_settle_best(graph, s as int, d as int, dist@, prev@, visited@, u as int);
        }
        lemma_best_inv_pos(graph, s as int, d as int, dist@, prev@, visited@);
    }
    let ghost vt1 = vt.update(u as int, count as nat);
    let ghost visited0 = visited@;
    visited.set(u, true);
    proof {
        assert(visited@ == visited0.update(u as int, true));
        assert forall|v: int|
            0 <= v < prev@.len() && #[trigger] prev@[v] is Some implies {
            &&& prev@[v].unwrap().0 < prev@.len()
            &&& visited@[prev@[v].unwrap().0 as int]
            &&& graph.hop(prev@[v].unwrap().0 as int, v, prev@[v].unwrap().1 as int)
            &&& (visited@[v] ==> vt1[prev@[v].unwrap().0 as int] < vt1[v])
        } by {
            assert(visited0[prev@[v].unwrap().0 as int]);
        }
    }
    let ghost ev_a = tracer.events();
    tracer.push(Step::Visit(u));
    let ghost ev_b = tracer.events();
    if u != d {
        let du = match &dist[u] {
            Some(x) => x.copy(),
            None => Ratio::one(),
        };
        let ghost dist0 = dist@;
        proof {
            assert(dist0 == dist_start);
            assert(prev@ == prev_start);
            assert(dist_view(dist_start)[u as int] == Some(du.parts()));
        }
        relax_from(graph, u, &du, dist, prev, visited, tracer, Ghost(vt1));
        proof {
            assert((dist_view(dist@), prev@) == relax_rest(
                graph,
                (dist_view(dist_start), prev_start),
                visited@,
                u as int,
                dist_view(dist_start)[u as int].unwrap(),
                0,
            ));
        }
        proof {
            if tracer.enabled() {
                let ev = tracer.events();
                assert(ev_b == ev_a.push(Step::Visit(u)));
                assert(ev.take(ev_b.len() as int)[ev_a.len() as int] == ev[ev_a.len() as int]);
                assert(ev.take(ev_a.len() as int) =~= ev_a) by {
                    assert forall|k: int| 0 <= k < ev_a.len() implies ev.take(ev_a.len() as int)[k] == ev_a[k] by {
                        assert(ev.take(ev_b.len() as int)[k] == ev[k]);
                        assert(ev_b[k] == ev_a[k]);
                    }
                }
            }
        }
        proof {
            assert forall|u2: int, i: int|
                0 <= u2 < n && visited@[u2] && u2 != d && #[trigger] graph.usable(u2, i)
                    implies dist@[graph.adj@[u2]@[i].to as int] is Some by {
                let t = graph.adj@[u2]@[i].to as int;
                graph.lemma_adj_ok();
                assert(graph.edge_ok(u2, graph.adj@[u2]@[i]));
                if u2 == u as int {
                    if visited@[t] {
                        assert(dist@[t] == dist0[t]);
                    }
                } else {
                    assert(dist0[t] is Some);
                }
            }
        }
    }
    proof {
        reveal(search_inv);
        lemma_best_visit(graph, s as int, d as int, dist_start, prev_start, visited0, dist@, prev@, u as int);
    }
    proof {
        lemma_settle_step(
            graph,
            (dist_view(dist_start), prev_start, visited0),
            u as int,
            d as int,
            dist_view(dist@),
            prev@,
            visited@,
        );
    }
    Ghost(vt1)
}

/// What the search state says once the search has stopped: either `d` is
/// settled or every reached token is.
proof fn lemma_search_end(
    g: &Graph,
    s: int,
    d: int,
    dist: Seq<Option<Ratio>>,
    prev: Seq<Option<(usize, usize)>>,
    visited: Seq<bool>,
    vt: Seq<nat>,
    count: nat,
)
    requires
        g.wf(),
        search_inv(g, s, d, dist, prev, visited, vt, count),
        visited[d] || forall|v: int| 0 <= v < g.tokens@.len() && #[trigger] dist[v] is Some ==> visited[v],
    ensures
        prev.len() == g.tokens@.len(),
        visited.len() == g.tokens@.len(),
        vt.len() == g.tokens@.len(),
        visited[s],
        forall|v: int|
            #![trigger prev[v]]
            0 <= v < g.tokens@.len() && visited[v] && v != s ==> prev[v] is Some,
        forall|v: int| 0 <= v < g.tokens@.len() && #[trigger] visited[v] ==> vt[v] < g.tokens@.len(),
        parents_ok(g, prev, visited, vt),
        !visited[d] ==> !g.reachable(s, d),
{
    reveal(search_inv);
    let n = g.tokens@.len() as int;
    assert(visited[s]) by {
        if !visited[s] {
            if visited[d] {
                assert(dist[d] is Some);
            } else {
                assert(dist[s] is Some);
            }
        }
    }
    if !visited[d] && g.reachable(s, d) {
        assert forall|u: int, i: int|
            0 <= u < visited.len() && visited[u] && #[trigger] g.usable(u, i) implies visited[g.adj@[u]@[i].to as int] by {
            assert(u != d);
            let t = g.adj@[u]@[i].to as int;
            assert(dist[t] is Some);
            g.lemma_adj_ok();
            assert(g.edge_ok(u, g.adj@[u]@[i]));
        }
        g.lemma_closed_contains_reachable(visited, s, d);
    }
}

/// The state before the first step satisfies the search invariant.
proof fn lemma_search_start(
    g: &Graph,
    s: int,
    d: int,
    dist: Seq<Option<Ratio>>,
    prev: Seq<Option<(usize, usize)>>,
    visited: Seq<bool>,
    vt: Seq<nat>,
)
    requires
        0 <= s < g.tokens@.len(),
        0 <= d < g.tokens@.len(),
        s != d,
        dist.len() == g.tokens@.len(),
        prev.len() == g.tokens@.len(),
        visited.len() == g.tokens@.len(),
        vt.len() == g.tokens@.len(),
        dist[s] is Some,
        forall|v: int| 0 <= v < dist.len() && v != s ==> #[trigger] dist[v] is None,
        forall|v: int| 0 <= v < dist.len() ==> #[trigger] prev[v] is None,
        forall|v: int| 0 <= v < dist.len() ==> !#[trigger] visited[v],
    ensures
        search_inv(g, s, d, dist, prev, visited, vt, 0),
{
    reveal(search_inv);
    assert forall|j: int| 0 <= j <= visited.len() implies count_true(visited, j) == 0 by {
        lemma_count_zero(visited, j);
    }
}

/// Settles tokens from `s` in order of best rate product until `d` is
/// settled or nothing reached is left. Returns the parent links, the
/// settled set, the trace and the settling times.
fn settle(graph: &Graph, s: usize, d: usize, with_trace: bool) -> (r: (
    Vec<Option<(usize, usize)>>,
    Vec<bool>,
    Tracer,
    Ghost<Seq<nat>>,
    Ghost<Seq<Option<Ratio>>>,
))
    requires
        graph.wf(),
        s < graph.tokens@.len(),
        d < graph.tokens@.len(),
        s != d,
    ensures
        ({
            let (prev, visited, tracer, vt, dv) = r;
            let n = graph.tokens@.len();
            &&& prev@.len() == n
            &&& visited@.len() == n
            &&& vt@.len() == n
            &&& visited@[s as int]
            &&& forall|v: int|
                #![trigger prev@[v]]
                0 <= v < n && visited@[v] && v != s ==> prev@[v] is Some
            &&& forall|v: int| 0 <= v < n && #[trigger] visited@[v] ==> vt@[v] < n
            &&& parents_ok(graph, prev@, visited@, vt@)
            &&& !visited@[d as int] ==> !graph.reachable(s as int, d as int)
            &&& tracer.enabled() == with_trace
            &&& trace_within(tracer.events(), n)
            &&& with_trace ==> tracer.events().len() > 0
            &&& best_inv(graph, s as int, d as int, dv@, prev@, visited@)
            &&& with_trace ==> tracer.events()[0] == Step::Visit(s)
            &&& (with_trace && visited@[d as int]) ==> tracer.events().last() == Step::Visit(d)
            &&& forall|k: int|
                0 <= k < tracer.events().len() ==> (#[trigger] tracer.events()[k] is Visit || tracer.events()[k] is Relax)
            &&& (dist_view(dv@), prev@, visited@) == settled(graph, s as int, d as int)
        }),
{
    let n = graph.num_tokens();
    let (mut dist, mut prev, mut visited) = fresh_state(n);
    dist.set(s, Some(Ratio::one()));
    let ghost mut vt: Seq<nat> = Seq::new(n as nat, |i: int| 0nat);
    let mut count: usize = 0;
    let mut tracer = Tracer::new(with_trace);
    let mut done = false;
    proof {
        assert(dist_view(dist@) =~= start_dist(graph, s as int));
        assert(prev@ =~= no_links(graph));
        assert(visited@ =~= Seq::new(graph.tokens@.len(), |v: int| false));
    }
    let ghost target = settled(graph, s as int, d as int);
    proof {
        lemma_search_start(graph, s as int, d as int, dist@, prev@, visited@, vt);
        lemma_best_start(graph, s as int, d as int, dist@, prev@, visited@);
    }
    while !done
        invariant
            graph.wf(),
            n == graph.tokens@.len(),
            search_inv(graph, s as int, d as int, dist@, prev@, visited@, vt, count as nat),
            tracer.enabled() == with_trace,
            trace_within(tracer.events(), n as nat),
            visited@[s as int] && with_trace ==> tracer.events().len() > 0,
            done ==> visited@[d as int] || forall|v: int|
                0 <= v < n && #[trigger] dist@[v] is Some ==> visited@[v],
            count <= n,
            dist@.len() == n,
            visited@.len() == n,
            best_inv(graph, s as int, d as int, dist@, prev@, visited@),
            !done ==> !visited@[d as int],
            s < n,
            d < n,
            !visited@[s as int] ==> tracer.events().len() == 0,
            (with_trace && visited@[s as int]) ==> tracer.events()[0] == Step::Visit(s),
            (with_trace && visited@[d as int]) ==> tracer.events().last() == Step::Visit(d),
            forall|k: int|
                0 <= k < tracer.events().len() ==> (#[trigger] tracer.events()[k] is Visit || tracer.events()[k] is Relax),
            target == settled(graph, s as int, d as int),
            !done ==> settle_run(graph, (dist_view(dist@), prev@, visited@), d as int, (n - count) as nat) == target,
            done ==> (dist_view(dist@), prev@, visited@) == target,
        decreases n + 1 - count - (if done {
            1int
        } else {
            0int
        }),
    {
        proof {
            lemma_best_inv_pos(graph, s as int, d as int, dist@, prev@, visited@);
        }
        let ghost cur = (dist_view(dist@), prev@, visited@);
        match pick_next(&dist, &visited) {
            None => {
                proof {
                    assert(settle_run(graph, cur, d as int, (n - count) as nat) == cur);
                }
                done = true;
            },
            Some(u) => {
                let ghost ev0 = tracer.events();
                let ghost vis0 = visited@;
                let Ghost(vt1) = visit(graph, s, d, u, &mut dist, &mut prev, &mut visited, &mut tracer, Ghost(vt), count);
                proof {
                    vt = vt1;
                    let ev = tracer.events();
                    if with_trace {
                        if vis0[s as int] {
                            assert(ev.take(ev0.len() as int)[0] == ev[0]);
                        } else {
                            assert(u == s);
                        }
                        assert forall|k: int| 0 <= k < ev.len() implies (#[trigger] ev[k] is Visit || ev[k] is Relax) by {
                            if k < ev0.len() {
                                assert(ev.take(ev0.len() as int)[k] == ev[k]);
                            }
                        }
                        if visited@[d as int] {
                            assert(u == d);
                        }
                    }
                }
                proof {
                    assert(n - count > 0);
                    assert(settle_run(graph, cur, d as int, (n - count) as nat) == (if u == d {
                        (dist_view(dist@), prev@, visited@)
                    } else {
                        settle_run(graph, (dist_view(dist@), prev@, visited@), d as int, (n - count - 1) as nat)
                    }));
                }
                count = count + 1;
                if u == d {
                    done = true;
                }
            },
        }
    }
    proof {
        lemma_search_end(graph, s as int, d as int, dist@, prev@, visited@, vt, count as nat);
        assert(best_inv(graph, s as int, d as int, dist@, prev@, visited@));
    }
    (prev, visited, tracer, Ghost(vt), Ghost(dist@))
}

/// Routes `amount_in` of `src` to `dst`: settles tokens in order of best
/// rate product until `dst` is settled, rebuilds the route from parent
/// links and walks it with the best pool per hop at the trade size. The
/// gas cost is reported, not optimised.
pub fn solve(
    graph: &Graph,
    src: Address,
    dst: Address,
    amount_in: U256,
    with_trace: bool,
    gas: &GasModel,
) -> (r: SolveResult)
    requires
        graph.wf(),
        graph.tokens@.len() < 0x1_0000_0000,
    ensures
        single_route_contract(graph, src, dst, amount_in, with_trace, *gas, r),
{
    proof {
        lemma_index_upto(graph.tokens@, src, graph.tokens@.len() as int);
        lemma_index_upto(graph.tokens@, dst, graph.tokens@.len() as int);
    }
    let src_idx = match graph.index_of(src) {
        Some(i) => i,
        None => {
            return SolveResult { outcome: Outcome::NoPath, trace: Vec::new() };
        },
    };
    let dst_idx = match graph.index_of(dst) {
        Some(i) => i,
        None => {
            return SolveResult { outcome: Outcome::NoPath, trace: Vec::new() };
        },
    };
    if src_idx == dst_idx {
        return singleton_result(src, src_idx, amount_in, with_trace);
    }
    let s = src_idx;
    let d = dst_idx;
    let (prev, visited, tracer, Ghost(vt), Ghost(dv)) = settle(graph, s, d, with_trace);
    proof {
        assert(visited@ == settled(graph, s as int, d as int).2);
        assert(prev@ == settled(graph, s as int, d as int).1);
    }
    if !visited[d] {
        return SolveResult { outcome: Outcome::NoPath, trace: tracer.into_vec() };
    }
    proof {
        assert forall|w: int|
            0 <= w < prev@.len() && #[trigger] visited@[w] && w != s as int implies {
                &&& prev@[w] is Some
                &&& prev@[w].unwrap().0 < prev@.len()
                &&& visited@[prev@[w].unwrap().0 as int]
                &&& vt[prev@[w].unwrap().0 as int] < vt[w]
            } by {
            assert(prev@[w] is Some);
        }
        let k = lemma_chain_from_order(prev@, visited@, vt, s as int, d as int);
        lemma_chain_len_unique(prev@, s as int, d as int, k, chain_len(prev@, s as int, d as int));
    }
    let (path_idx, pools_idx) = reconstruct_with_pools(&prev, s, d);
    proof {
        let k = chain_len(prev@, s as int, d as int);
        lemma_chain_walk(graph, prev@, s as int, d as int, k, path_idx@);
        assert(k >= 1) by {
            if k == 0 {
                assert(walk_back(prev@, d as int, 0) == d as int);
            }
        }
        lemma_chain_best(graph, s as int, d as int, dv, prev@, visited@, k, path_idx@, pools_idx@);
        assert(path_idx@ =~= parent_path(prev@, s as int, d as int));
    }
    let r = found_along(graph, &path_idx, amount_in, gas, tracer);
    proof {
        assert(graph.is_walk(path_idx@));
    }
    r
}

/// The report for the route along `path_idx`, walked with the best pool per
/// hop.
pub fn found_along(
    graph: &Graph,
    path_idx: &Vec<usize>,
    amount_in: U256,
    gas: &GasModel,
    tracer: Tracer,
) -> (r: SolveResult)
    requires
        graph.wf(),
        graph.is_walk(path_idx@),
        2 <= path_idx@.len() <= graph.tokens@.len() + 1,
        graph.tokens@.len() < 0x1_0000_0000,
    ensures
        reports_route(graph, r.outcome, path_idx@, amount_in, *gas),
        r.trace@ == tracer.events(),
{
    let by_pair = build_by_pair(graph);
    match walk_with_best_pools(graph, &by_pair, path_idx, amount_in) {
        None => SolveResult { outcome: Outcome::NoPath, trace: tracer.into_vec() },
        Some((pools_idx, amount_out, rate)) => {
            proof {
                lemma_walk_best_len(graph, path_idx@, amount_in.val(), (path_idx@.len() - 1) as nat);
            }
            let path = token_addresses(graph, path_idx);
            let pools_used = pool_addresses(graph, &pools_idx);
            let units = gas.gas_units(1, pools_used.len());
            let dst_token = &graph.tokens[path_idx[path_idx.len() - 1]];
            let gas_cost = gas.gas_to_dst_token(
                units,
                dst_token.true_price_pico_usd,
                dst_token.decimals,
            );
            SolveResult {
                outcome: Outcome::Found {
                    path,
                    pools_used,
                    product_of_rates: rate,
                    amount_in,
                    amount_out,
                    gas_cost,
                },
                trace: tracer.into_vec(),
            }
        },
    }
}

proof fn lemma_count_zero(s: Seq<bool>, j: int)
    requires
        0 <= j <= s.len(),
        forall|v: int| 0 <= v < s.len() ==> !s[v],
    ensures
        count_true(s, j) == 0,
    decreases j,
{
    if j > 0 {
        lemma_count_zero(s, j - 1);
    }
}

} // verus!
