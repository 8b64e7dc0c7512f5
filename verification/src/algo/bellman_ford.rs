//! Bellman-Ford over exact rate products.
//!
//! Correct with rates above one and with reachable arbitrage cycles; used
//! both for arbitrage-aware routing and for cycle detection. A reachable
//! profitable cycle takes priority over any route. An edge relaxes only when
//! it improves the best product by more than the factor `1 + 10⁻¹⁰`, the
//! tolerance that keeps zero-fee cycles of rate exactly one quiet.
use crate::address::Address;
use crate::algo::dijkstra::{found_along, fresh_state};
use crate::algo::gas::GasModel;
use crate::algo::{
    closed, is_cycle, pool_addresses, reports_cycle, reports_route, reports_singleton,
    singleton_result, token_addresses, Outcome, SolveResult, Tracer,
};
use crate::graph::{lemma_index_upto, token_index, Graph};
use crate::algo::path::{
    chain_len, chain_reaches, chain_within, lemma_chain_len_unique, lemma_chain_walk,
    reconstruct_with_pools, replay, route_rate, walk_back, walk_best,
};
use crate::algo::bf_sweeps::{first_relaxable, any_relaxable, dist_view, full_sweep, swept, run_sweeps, start_dist, no_links, sweep_from, edge_step, relaxable, beats, offer};
use crate::algo::bf_best::{lemma_near_best, near_best};
use crate::algo::bf_gain::{gains_ok, parent_gain, hop_rate, lemma_gains_raise, lemma_gains_repoint, lemma_parent_loop_gains};
use crate::ratio::{frac_le, frac_lt, frac_mul, frac_pos, lemma_frac_factor_lt, lemma_frac_trans, Natural, Ratio};
use crate::trace::{trace_within, Step};
use crate::uint::U256;
use vstd::prelude::*;

verus! {

/// Numerator of the relaxation tolerance factor `1 + 10⁻¹⁰`.
pub const TOLERANCE_NUM: u64 = 10_000_000_001;

/// Denominator of the relaxation tolerance factor.
pub const TOLERANCE_DEN: u64 = 10_000_000_000;

/// Every parent link is a usable pool hop from a token of the graph.
pub open spec fn links_ok(g: &Graph, prev: Seq<Option<(usize, usize)>>) -> bool {
    forall|v: int|
        0 <= v < prev.len() && #[trigger] prev[v] is Some ==> prev[v].unwrap().0 < prev.len() && g.hop(
            prev[v].unwrap().0 as int,
            v,
            prev[v].unwrap().1 as int,
        )
}

/// What Bellman-Ford promises: an unknown source gives `NoPath` with an
/// empty trace; equal source and destination give the trivial route;
/// otherwise the answer is the one `bf_answer` reads off the best products
/// and parent links of the sweeps, the same whether or not a trace is
/// kept. A route is a walk from source to destination along usable edges,
/// reported with the best pool per hop, whose parent path is within the
/// tolerance of the best rate product of every route; a cycle is a closed
/// loop of parent links through a token reachable from the source whose
/// exact rate product exceeds one, reported with that product and its
/// replayed output, so with no such gaining loop no cycle is reported. `NoPath` between two distinct
/// tokens comes only as `bf_no_route` allows. Every event names real
/// tokens, and a traced query between two distinct known tokens records at
/// least one event.
pub open spec fn bf_contract(
    g: &Graph,
    src: Address,
    dst: Address,
    amount_in: U256,
    with_trace: bool,
    gas: GasModel,
    r: SolveResult,
) -> bool {
    let si = token_index(g.tokens@, src);
    let di = token_index(g.tokens@, dst);
    &&& trace_within(r.trace@, g.tokens@.len())
    &&& si < 0 ==> r.outcome is NoPath && r.trace@.len() == 0
    &&& (si >= 0 && si == di) ==> reports_singleton(r.outcome, src, amount_in) && r.trace@ == (
    if with_trace {
        seq![Step::Visit(si as usize)]
    } else {
        Seq::<Step>::empty()
    })
    &&& (si >= 0 && si != di) ==> match r.outcome {
        Outcome::Found { .. } => di >= 0 && exists|tp: Seq<usize>|
            #[trigger] g.is_walk(tp) && tp[0] == si && tp.last() == di && reports_route(
                g,
                r.outcome,
                tp,
                amount_in,
                gas,
            ),
        Outcome::NegativeCycle { product_of_rates, .. } => product_of_rates.num.val()
            > product_of_rates.den.val() && exists|cn: Seq<usize>, cp: Seq<usize>|
            #[trigger] is_cycle(g, cn, cp) && g.reachable(si, cn[0] as int) && reports_cycle(
                g,
                r.outcome,
                cn,
                cp,
                amount_in,
                gas,
            ),
        Outcome::NoPath => bf_no_route(g, si, di, amount_in),
        Outcome::FoundSplit { .. } => false,
    }
    &&& (si >= 0 && si != di) ==> bf_answer(g, si, di, amount_in, gas, r.outcome)
    &&& (si >= 0 && si != di && r.outcome is Found) ==> near_best(g, si, di, swept(g, si).1)
    &&& (si >= 0 && si != di && !gain_cycle_from(g, si)) ==> !(r.outcome is NegativeCycle)
    &&& (si >= 0 && di >= 0 && si != di && with_trace) ==> r.trace@.len() > 0
}

/// When Bellman-Ford may answer `NoPath` from `si` to `di`: the destination
/// is unknown or cannot be reached; a loop of usable hops through a token
/// reachable from the source gains (its exact rate product exceeds one);
/// the best-pool walk along some walk to the destination meets a hop with no
/// computable swap; or an edge still relaxes after the `n − 1` sweeps.
pub open spec fn bf_no_route(g: &Graph, si: int, di: int, amount_in: U256) -> bool {
    ||| di < 0
    ||| !g.reachable(si, di)
    ||| gain_cycle_from(g, si)
    ||| exists|tp: Seq<usize>|
        #[trigger] g.is_walk(tp) && tp[0] == si && tp.last() == di && walk_best(
            g,
            tp,
            amount_in.val(),
            (tp.len() - 1) as nat,
        ) is None
    ||| any_relaxable(g, swept(g, si).0)
}

/// The answer that the parent links `prev` give from `entry`: walked back
/// `n` times they must not meet a token without a parent, and then land on
/// a loop of parent links; that loop, listed from where the walk landed, is
/// reported with its exact rate product (above one) and what `amount_in`
/// becomes once around it, or `NoPath` when a swap on it is not computable.
pub open spec fn cycle_answer(
    g: &Graph,
    prev: Seq<Option<(usize, usize)>>,
    entry: int,
    amount_in: U256,
    gas: GasModel,
    o: Outcome,
) -> bool {
    if exists|k: nat| k < prev.len() && #[trigger] prev[walk_back(prev, entry, k)] is None {
        o is NoPath
    } else {
        match o {
            Outcome::NegativeCycle { product_of_rates, .. } => product_of_rates.num.val()
                > product_of_rates.den.val() && exists|cn: Seq<usize>, cp: Seq<usize>|
                #[trigger] is_cycle(g, cn, cp) && parent_cycle(prev, cn, cp) && cn[0] == walk_back(
                    prev,
                    entry,
                    prev.len() as nat,
                ) && reports_cycle(g, o, cn, cp, amount_in, gas),
            Outcome::NoPath => exists|cn: Seq<usize>, cp: Seq<usize>|
                #[trigger] is_cycle(g, cn, cp) && parent_cycle(prev, cn, cp) && cn[0] == walk_back(
                    prev,
                    entry,
                    prev.len() as nat,
                ) && replay(g, closed(cn), cp, amount_in.val(), cn.len()) is None,
            _ => false,
        }
    }
}

/// The token path that the parent links record from `s` to `d`.
pub open spec fn parent_path(prev: Seq<Option<(usize, usize)>>, s: int, d: int) -> Seq<usize> {
    let k = chain_len(prev, s, d);
    Seq::new(k + 1, |i: int| walk_back(prev, d, (k - i) as nat) as usize)
}

/// The answer once no edge relaxes: `NoPath` when the destination is unknown
/// or has no best product, or when its parent walk does not meet the source
/// within `n` steps; otherwise the route along the parent path, walked with
/// the best pool per hop at the trade size.
pub open spec fn route_answer(
    g: &Graph,
    si: int,
    di: int,
    dv: Seq<Option<(nat, nat)>>,
    pv: Seq<Option<(usize, usize)>>,
    amount_in: U256,
    gas: GasModel,
    o: Outcome,
) -> bool {
    if di < 0 || dv[di] is None {
        o is NoPath
    } else if exists|k: nat| k <= g.tokens@.len() && #[trigger] chain_reaches(pv, si, di, k) {
        reports_route(g, o, parent_path(pv, si, di), amount_in, gas)
    } else {
        o is NoPath
    }
}

/// Bellman-Ford's answer from `si` to another token `di`, fixed by the best
/// products and parent links after the sweeps: when an edge still relaxes,
/// the first one (in token then edge order) becomes the parent link of its
/// head and the cycle is read from the links from there; otherwise the
/// route is read from the links.
pub open spec fn bf_answer(g: &Graph, si: int, di: int, amount_in: U256, gas: GasModel, o: Outcome) -> bool {
    let dv = swept(g, si).0;
    let pv = swept(g, si).1;
    if any_relaxable(g, dv) {
        exists|u: int, i: int|
            #[trigger] first_relaxable(g, dv, u, i) && cycle_answer(
                g,
                pv.update(g.adj@[u]@[i].to as int, Some((u as usize, g.adj@[u]@[i].pool))),
                g.adj@[u]@[i].to as int,
                amount_in,
                gas,
                o,
            )
    } else {
        route_answer(g, si, di, dv, pv, amount_in, gas, o)
    }
}

/// Whether stepping to a token whose best product is `current` with the
/// product `candidate` relaxes: the token is unreached, or the candidate
/// beats it by more than the tolerance factor.
fn relaxes(candidate: &Ratio, current: &Option<Ratio>, fnum: &Natural, fden: &Natural) -> (r: bool)
    ensures
        r == match current {
            None => true,
            Some(c) => candidate.num.val() * c.den.val() * fden.val() > c.num.val()
                * candidate.den.val() * fnum.val(),
        },
        (r && current is Some && fnum.val() >= fden.val() && fden.val() > 0) ==> frac_lt(
            current.unwrap().parts(),
            candidate.parts(),
        ),
{
    match current {
        None => true,
        Some(c) => {
            let r = candidate.gt_by_factor(c, fnum, fden);
            proof {
                if r && fnum.val() >= fden.val() && fden.val() > 0 {
                    lemma_frac_factor_lt(c.parts(), candidate.parts(), fnum.val(), fden.val());
                }
            }
            r
        },
    }
}

/// The usable edge `i` out of `u` does not relax `dist`: when `u` is
/// reached, the edge's head is reached too and stepping through the edge
/// does not beat the head's product by more than the tolerance factor.
pub open spec fn edge_settled(g: &Graph, dist: Seq<Option<Ratio>>, u: int, i: int) -> bool {
    (dist[u] is Some && g.usable(u, i)) ==> {
        let t = g.adj@[u]@[i].to as int;
        let cand = frac_mul(dist[u].unwrap().parts(), hop_rate(g, u, g.adj@[u]@[i].pool as int));
        &&& dist[t] is Some
        &&& !(cand.0 * dist[t].unwrap().parts().1 * TOLERANCE_DEN > dist[t].unwrap().parts().0 * cand.1
            * TOLERANCE_NUM)
    }
}

/// Every token with a best product can be reached from `s`.
pub open spec fn reached_from(g: &Graph, s: int, dist: Seq<Option<Ratio>>) -> bool {
    forall|v: int| 0 <= v < dist.len() && #[trigger] dist[v] is Some ==> g.reachable(s, v)
}

/// Every token other than `s` with a best product has a parent link.
pub open spec fn parented(s: int, dist: Seq<Option<Ratio>>, prev: Seq<Option<(usize, usize)>>) -> bool {
    forall|v: int| 0 <= v < dist.len() && #[trigger] dist[v] is Some && v != s ==> prev[v] is Some
}

/// A token reached from `s` leads, along a usable edge, to another.
proof fn lemma_reach_step(g: &Graph, s: int, u: int, v: int)
    requires
        g.reachable(s, u),
        g.linked(u, v),
        0 <= v < g.tokens@.len(),
    ensures
        g.reachable(s, v),
{
    let tp = choose|tp: Seq<usize>| #[trigger] g.is_walk(tp) && tp[0] == s && tp.last() == u;
    let tq = tp.push(v as usize);
    assert forall|i: int| 0 <= i < tq.len() implies #[trigger] tq[i] < g.tokens@.len() by {
        if i < tp.len() {
            assert(tq[i] == tp[i]);
        }
    }
    assert forall|i: int| 0 <= i < tq.len() - 1 implies g.linked(#[trigger] tq[i] as int, tq[i + 1] as int) by {
        if i < tp.len() - 1 {
            assert(tq[i] == tp[i] && tq[i + 1] == tp[i + 1]);
        } else {
            assert(tq[i] == tp.last());
        }
    }
    assert(g.is_walk(tq));
    assert(tq[0] == s);
}

/// Some closed loop of usable hops through a token reachable from `s` has
/// an exact rate product above one.
pub open spec fn gain_cycle_from(g: &Graph, s: int) -> bool {
    exists|cn: Seq<usize>, cp: Seq<usize>|
        #[trigger] is_cycle(g, cn, cp) && g.reachable(s, cn[0] as int) && route_rate(
            g.tokens@,
            g.pools@,
            closed(cn),
            cp,
            cn.len(),
        ).0 > route_rate(g.tokens@, g.pools@, closed(cn), cp, cn.len()).1
}

/// No usable edge out of a token with a best product still relaxes.
pub open spec fn all_settled(g: &Graph, dist: Seq<Option<Ratio>>) -> bool {
    forall|u: int, i: int| 0 <= u < g.tokens@.len() ==> #[trigger] edge_settled(g, dist, u, i)
}

/// When every usable edge out of a token with a best product leads to one,
/// every token reachable from `s` (which has one) has one.
proof fn lemma_reached_closure(g: &Graph, dist: Seq<Option<Ratio>>, s: int, tp: Seq<usize>)
    requires
        dist.len() == g.tokens@.len(),
        g.is_walk(tp),
        tp[0] == s,
        dist[s] is Some,
        forall|u: int, i: int|
            0 <= u < g.tokens@.len() && dist[u] is Some && #[trigger] g.usable(u, i)
                ==> dist[g.adj@[u]@[i].to as int] is Some,
    ensures
        dist[tp.last() as int] is Some,
    decreases tp.len(),
{
    if tp.len() > 1 {
        let tq = tp.drop_last();
        assert forall|i: int| 0 <= i < tq.len() implies #[trigger] tq[i] < g.tokens@.len() by {
            assert(tq[i] == tp[i]);
        }
        assert forall|i: int| 0 <= i < tq.len() - 1 implies g.linked(#[trigger] tq[i] as int, tq[i + 1] as int) by {
            assert(tq[i] == tp[i] && tq[i + 1] == tp[i + 1]);
        }
        lemma_reached_closure(g, dist, s, tq);
        let u = tq.last() as int;
        assert(u == tp[tp.len() - 2]);
        assert(g.linked(tp[tp.len() - 2] as int, tp[tp.len() - 1] as int));
        let i = choose|i: int| #![trigger g.adj@[u]@[i]] g.usable(u, i) && g.adj@[u]@[i].to == tp.last() as int;
        assert(g.usable(u, i));
    }
}

/// Token `c` on a parent walk that has not met `s`: a token with a best
/// product and a parent link.
spec fn chain_node(dist: Seq<Option<Ratio>>, prev: Seq<Option<(usize, usize)>>, s: int, c: int) -> bool {
    &&& 0 <= c < prev.len()
    &&& dist[c] is Some
    &&& c != s
    &&& prev[c] is Some
}

/// When the parent walk from `d` meets `s` within no `k ≤ n` steps, each of
/// its first `k + 1` tokens is a chain node.
proof fn lemma_chain_nodes(
    g: &Graph,
    dist: Seq<Option<Ratio>>,
    prev: Seq<Option<(usize, usize)>>,
    t: Seq<nat>,
    clock: nat,
    s: int,
    d: int,
    k: nat,
)
    requires
        gains_ok(g, dist, prev, t, clock),
        links_ok(g, prev),
        parented(s, dist, prev),
        dist.len() == prev.len(),
        0 <= d < prev.len(),
        dist[d] is Some,
        k <= prev.len(),
        forall|kk: nat| kk <= prev.len() ==> !#[trigger] chain_reaches(prev, s, d, kk),
    ensures
        forall|j: nat| j <= k ==> chain_node(dist, prev, s, #[trigger] walk_back(prev, d, j)),
    decreases k,
{
    if k == 0 {
        assert(walk_back(prev, d, 0) == d);
        if d == s {
            assert(chain_reaches(prev, s, d, 0));
        }
    } else {
        lemma_chain_nodes(g, dist, prev, t, clock, s, d, (k - 1) as nat);
        let c0 = walk_back(prev, d, (k - 1) as nat);
        assert(chain_node(dist, prev, s, c0));
        let c = walk_back(prev, d, k);
        assert(c == prev[c0].unwrap().0 as int);
        assert(parent_gain(g, dist, t, c0, prev[c0].unwrap().0 as int, prev[c0].unwrap().1 as int));
        if c == s {
            assert forall|j: nat| j < k implies {
                let cj = #[trigger] walk_back(prev, d, j);
                &&& 0 <= cj < prev.len()
                &&& prev[cj] is Some
                &&& cj != s
            } by {
                assert(chain_node(dist, prev, s, walk_back(prev, d, j)));
            }
            assert(chain_reaches(prev, s, d, k));
        }
    }
}

/// Among `n + 1` integers in `[0, n)` two are equal.
proof fn lemma_pigeonhole(xs: Seq<int>, n: int)
    requires
        n >= 0,
        xs.len() == n + 1,
        forall|i: int| 0 <= i < xs.len() ==> 0 <= #[trigger] xs[i] < n,
    ensures
        exists|i: int, j: int| 0 <= i < j < xs.len() && #[trigger] xs[i] == #[trigger] xs[j],
{
    if !(exists|i: int, j: int| 0 <= i < j < xs.len() && #[trigger] xs[i] == #[trigger] xs[j]) {
        assert forall|i: int, j: int| 0 <= i < xs.len() && 0 <= j < xs.len() && i != j implies xs[i] != xs[j] by {
            if i < j {
                assert(!(xs[i] == xs[j]));
            } else {
                assert(!(xs[j] == xs[i]));
            }
        }
        xs.unique_seq_to_set();
        vstd::set_lib::lemma_int_range(0, n);
        assert forall|x: int| xs.to_set().contains(x) implies vstd::set_lib::set_int_range(0, n).contains(x) by {
            let i = choose|i: int| 0 <= i < xs.len() && xs[i] == x;
        }
        vstd::set_lib::lemma_len_subset(xs.to_set(), vstd::set_lib::set_int_range(0, n));
    }
}

/// A parent walk from a token with a best product that never meets `s`
/// runs into a loop of parent links, which gains.
#[verifier::spinoff_prover]
#[verifier::rlimit(40)]
proof fn lemma_broken_chain_gains(
    g: &Graph,
    dist: Seq<Option<Ratio>>,
    prev: Seq<Option<(usize, usize)>>,
    t: Seq<nat>,
    clock: nat,
    s: int,
    d: int,
)
    requires
        g.wf(),
        gains_ok(g, dist, prev, t, clock),
        links_ok(g, prev),
        prev.len() == g.tokens@.len(),
        dist.len() == prev.len(),
        reached_from(g, s, dist),
        parented(s, dist, prev),
        0 <= d < prev.len(),
        dist[d] is Some,
        forall|k: nat| k <= prev.len() ==> !#[trigger] chain_reaches(prev, s, d, k),
    ensures
        gain_cycle_from(g, s),
{
    let n = prev.len();
    lemma_chain_nodes(g, dist, prev, t, clock, s, d, n);
    let xs = Seq::new(n + 1, |k: int| walk_back(prev, d, k as nat));
    assert forall|k: int| 0 <= k < xs.len() implies 0 <= #[trigger] xs[k] < n by {
        assert(chain_node(dist, prev, s, walk_back(prev, d, k as nat)));
    }
    lemma_pigeonhole(xs, n as int);
    let (i, j) = choose|i: int, j: int| 0 <= i < j < xs.len() && #[trigger] xs[i] == #[trigger] xs[j];
    let m = j - i;
    let cn = Seq::new(m as nat, |x: int| walk_back(prev, d, (j - x) as nat) as usize);
    let cp = Seq::new(m as nat, |x: int| prev[walk_back(prev, d, (j - x - 1) as nat)].unwrap().1);
    assert forall|x: int| 0 <= x < m implies prev[walk_back(prev, d, (j - x - 1) as nat)] == Some(
        (walk_back(prev, d, (j - x) as nat) as usize, #[trigger] cp[x]),
    ) by {
        let c = walk_back(prev, d, (j - x - 1) as nat);
        assert(chain_node(dist, prev, s, c));
        assert(walk_back(prev, d, (j - x) as nat) == prev[c].unwrap().0 as int);
    }
    assert forall|x: int| 0 <= x < cn.len() implies #[trigger] cn[x] < g.tokens@.len() by {
        assert(chain_node(dist, prev, s, walk_back(prev, d, (j - x) as nat)));
    }
    assert forall|x: int| 0 <= x < cn.len() implies prev[closed(cn)[x + 1] as int] == Some((#[trigger] cn[x], cp[x])) by {
        assert(prev[walk_back(prev, d, (j - x - 1) as nat)] == Some((walk_back(prev, d, (j - x) as nat) as usize, cp[x])));
        if x < m - 1 {
            assert(closed(cn)[x + 1] == cn[x + 1]);
        } else {
            assert(closed(cn)[x + 1] == cn[0]);
            assert(xs[i] == xs[j]);
            assert(walk_back(prev, d, (j - x - 1) as nat) == walk_back(prev, d, j as nat));
        }
    }
    lemma_parent_loop_gains(g, dist, prev, t, clock, cn, cp);
    assert forall|x: int| 0 <= x < cn.len() implies g.hop(#[trigger] cn[x] as int, closed(cn)[x + 1] as int, cp[x] as int) by {
        let v = closed(cn)[x + 1] as int;
        assert(prev[v] == Some((cn[x], cp[x])));
        assert(0 <= v < n) by {
            if x < m - 1 {
                assert(closed(cn)[x + 1] == cn[x + 1]);
            } else {
                assert(closed(cn)[x + 1] == cn[0]);
            }
        }
        assert(prev[v] is Some);
    }
    assert(is_cycle(g, cn, cp));
    assert(chain_node(dist, prev, s, walk_back(prev, d, j as nat)));
    assert(g.reachable(s, cn[0] as int));
}

/// The best product `b` is above `a`: reached where `a` was not, or larger.
pub open spec fn rose(a: Option<Ratio>, b: Option<Ratio>) -> bool {
    match (a, b) {
        (None, Some(_)) => true,
        (Some(x), Some(y)) => frac_lt(x.parts(), y.parts()),
        _ => false,
    }
}

/// One sweep over every edge, in token then edge order. Returns whether any
/// edge relaxed.
fn sweep(
    graph: &Graph,
    dist: &mut Vec<Option<Ratio>>,
    prev: &mut Vec<Option<(usize, usize)>>,
    tracer: &mut Tracer,
    Ghost(s): Ghost<int>,
) -> (relaxed: bool)
    requires
        graph.wf(),
        reached_from(graph, s, old(dist)@),
        parented(s, old(dist)@, old(prev)@),
        old(dist)@.len() == graph.tokens@.len(),
        old(prev)@.len() == graph.tokens@.len(),
        links_ok(graph, old(prev)@),
        trace_within(old(tracer).events(), graph.tokens@.len()),
        exists|t: Seq<nat>, c: nat| gains_ok(graph, old(dist)@, old(prev)@, t, c),
    ensures
        final(dist)@.len() == graph.tokens@.len(),
        final(prev)@.len() == graph.tokens@.len(),
        links_ok(graph, final(prev)@),
        forall|v: int| 0 <= v < graph.tokens@.len() && old(dist)@[v] is Some ==> #[trigger] final(dist)@[v] is Some,
        final(tracer).enabled() == old(tracer).enabled(),
        trace_within(final(tracer).events(), graph.tokens@.len()),
        old(tracer).events().len() <= final(tracer).events().len(),
        exists|t: Seq<nat>, c: nat| gains_ok(graph, final(dist)@, final(prev)@, t, c),
        reached_from(graph, s, final(dist)@),
        parented(s, final(dist)@, final(prev)@),
        forall|v: int|
            0 <= v < graph.tokens@.len() && #[trigger] old(dist)@[v] is Some ==> frac_le(
                old(dist)@[v].unwrap().parts(),
                final(dist)@[v].unwrap().parts(),
            ),
        forall|k: int|
            old(tracer).events().len() <= k < final(tracer).events().len() ==> #[trigger] final(tracer).events()[k] is Relax,
        final(tracer).events().take(old(tracer).events().len() as int) == old(tracer).events(),
        !relaxed ==> {
            &&& final(dist)@ == old(dist)@
            &&& final(prev)@ == old(prev)@
            &&& final(tracer).events() == old(tracer).events()
            &&& forall|u: int, i: int| 0 <= u < graph.tokens@.len() ==> #[trigger] edge_settled(graph, old(dist)@, u, i)
        },
        relaxed ==> exists|v: int| 0 <= v < graph.tokens@.len() && #[trigger] rose(old(dist)@[v], final(dist)@[v]),
        (dist_view(final(dist)@), final(prev)@, relaxed) == full_sweep(graph, dist_view(old(dist)@), old(prev)@),
{
    proof {
        graph.lemma_adj_ok();
    }
    let ghost target = full_sweep(graph, dist_view(dist@), prev@);
    let ghost tc = choose|t: Seq<nat>, c: nat| gains_ok(graph, dist@, prev@, t, c);
    let ghost mut t: Seq<nat> = tc.0;
    let ghost mut clock: nat = tc.1;
    let ghost mut wv: int = 0;
    let ghost ev0 = tracer.events();
    proof {
        assert forall|v: int| 0 <= v < dist@.len() && #[trigger] dist@[v] is Some implies frac_le(
            dist@[v].unwrap().parts(),
            dist@[v].unwrap().parts(),
        ) by {
            let a = dist@[v].unwrap().parts();
            assert(frac_le(a, a)) by (nonlinear_arith);
        }
    }
    let fnum = Natural::from_u64(TOLERANCE_NUM);
    let fden = Natural::from_u64(TOLERANCE_DEN);
    let n = graph.num_tokens();
    let mut any = false;
    let mut u: usize = 0;
    while u < n
        invariant
            graph.wf(),
            n == graph.tokens@.len(),
            u <= n,
            forall|uu: int, ii: int|
                0 <= uu < graph.adj@.len() && 0 <= ii < graph.adj@[uu]@.len() ==> graph.edge_ok(
                    uu,
                    #[trigger] graph.adj@[uu]@[ii],
                ),
            dist@.len() == n,
            prev@.len() == n,
            links_ok(graph, prev@),
            forall|v: int| 0 <= v < n && old(dist)@[v] is Some ==> #[trigger] dist@[v] is Some,
            tracer.enabled() == old(tracer).enabled(),
            trace_within(tracer.events(), n as nat),
            old(tracer).events().len() <= tracer.events().len(),
            gains_ok(graph, dist@, prev@, t, clock),
            reached_from(graph, s, dist@),
            parented(s, dist@, prev@),
            fnum.val() == TOLERANCE_NUM,
            fden.val() == TOLERANCE_DEN,
            ev0 == old(tracer).events(),
            old(dist)@.len() == n,
            forall|v: int| 0 <= v < n && #[trigger] old(dist)@[v] is Some ==> frac_pos(old(dist)@[v].unwrap().parts()),
            forall|v: int| 0 <= v < n && #[trigger] old(dist)@[v] is Some ==> frac_le(
                old(dist)@[v].unwrap().parts(),
                dist@[v].unwrap().parts(),
            ),
            forall|k: int| ev0.len() <= k < tracer.events().len() ==> #[trigger] tracer.events()[k] is Relax,
            tracer.events().take(ev0.len() as int) == ev0,
            !any ==> {
                &&& dist@ == old(dist)@
                &&& prev@ == old(prev)@
                &&& tracer.events() == ev0
                &&& forall|uu: int, ii: int| 0 <= uu < u ==> #[trigger] edge_settled(graph, old(dist)@, uu, ii)
            },
            any ==> 0 <= wv < n && rose(old(dist)@[wv], dist@[wv]),
            sweep_from(graph, (dist_view(dist@), prev@, any), u as int, 0) == target,
        decreases n - u,
    {
        let du = match &dist[u] {
            None => None,
            Some(x) => Some(x.copy()),
        };
        assert(du is Some ==> dist@[u as int] is Some && dist@[u as int].unwrap().parts() == du.unwrap().parts());
        match du {
            None => {
                proof {
                    if !any {
                        assert forall|ii: int| #[trigger] edge_settled(graph, old(dist)@, u as int, ii) by {
                            assert(dist@[u as int] is None);
                        }
                    }
                    let cur = (dist_view(dist@), prev@, any);
                    assert(cur.0[u as int] is None);
                    assert(sweep_from(graph, cur, u as int, 0) == sweep_from(graph, cur, u + 1, 0));
                }
            },
            Some(du) => {
                let edges = &graph.adj[u];
                let mut i: usize = 0;
                while i < edges.len()
                    invariant
                        graph.wf(),
                        n == graph.tokens@.len(),
                        u < n,
                        edges@ == graph.adj@[u as int]@,
                        i <= edges@.len(),
                        forall|uu: int, ii: int|
                            0 <= uu < graph.adj@.len() && 0 <= ii < graph.adj@[uu]@.len()
                                ==> graph.edge_ok(uu, #[trigger] graph.adj@[uu]@[ii]),
                        dist@.len() == n,
                        prev@.len() == n,
                        links_ok(graph, prev@),
                        forall|v: int|
                            0 <= v < n && old(dist)@[v] is Some ==> #[trigger] dist@[v] is Some,
                        tracer.enabled() == old(tracer).enabled(),
                        trace_within(tracer.events(), n as nat),
                        old(tracer).events().len() <= tracer.events().len(),
                        gains_ok(graph, dist@, prev@, t, clock),
                        reached_from(graph, s, dist@),
                        parented(s, dist@, prev@),
                        dist@[u as int] is Some,
                        dist@[u as int].unwrap().parts() == du.parts(),
                        fnum.val() == TOLERANCE_NUM,
                        fden.val() == TOLERANCE_DEN,
                        ev0 == old(tracer).events(),
                        old(dist)@.len() == n,
                        forall|v: int| 0 <= v < n && #[trigger] old(dist)@[v] is Some ==> frac_pos(old(dist)@[v].unwrap().parts()),
                        forall|v: int| 0 <= v < n && #[trigger] old(dist)@[v] is Some ==> frac_le(
                            old(dist)@[v].unwrap().parts(),
                            dist@[v].unwrap().parts(),
                        ),
                        forall|k: int| ev0.len() <= k < tracer.events().len() ==> #[trigger] tracer.events()[k] is Relax,
                        tracer.events().take(ev0.len() as int) == ev0,
                        !any ==> {
                            &&& dist@ == old(dist)@
                            &&& prev@ == old(prev)@
                            &&& tracer.events() == ev0
                            &&& forall|uu: int, ii: int| 0 <= uu < u ==> #[trigger] edge_settled(graph, old(dist)@, uu, ii)
                            &&& forall|ii: int| 0 <= ii < i ==> #[trigger] edge_settled(graph, old(dist)@, u as int, ii)
                        },
                        any ==> 0 <= wv < n && rose(old(dist)@[wv], dist@[wv]),
                        sweep_from(graph, (dist_view(dist@), prev@, any), u as int, i as int) == target,
                    decreases edges@.len() - i,
                {
                    let e = edges[i];
                    assert(graph.edge_ok(u as int, graph.adj@[u as int]@[i as int]));
                    let ghost cur = (dist_view(dist@), prev@, any);
                    proof {
                        assert(cur.0[u as int] == Some(du.parts()));
                        assert(sweep_from(graph, cur, u as int, i as int) == sweep_from(
                            graph,
                            edge_step(graph, cur, u as int, i as int),
                            u as int,
                            i + 1,
                        ));
                    }
                    let ghost dist_before = dist@;
                    let ghost ev_before = tracer.events();
                    match graph.pools[e.pool].usable_rate(e.in_token) {
                        None => {
                            proof {
                                assert(!graph.usable(u as int, i as int));
                                assert(edge_settled(graph, old(dist)@, u as int, i as int));
                                assert(!relaxable(graph, cur.0, u as int, i as int));
                            }
                        },
                        Some(rate) => {
                            let new_dist = du.mul(&rate);
                            proof {
                                assert(new_dist.parts() == frac_mul(dist@[u as int].unwrap().parts(), hop_rate(graph, u as int, e.pool as int)));
                            }
                            if relaxes(&new_dist, &dist[e.to], &fnum, &fden) {
                                let ghost prev0 = prev@;
                                proof {
                                    assert(graph.usable(u as int, i as int));
                                    assert(graph.hop(u as int, e.to as int, e.pool as int));
                                    assert(new_dist.parts() == frac_mul(dist@[u as int].unwrap().parts(), hop_rate(graph, u as int, e.pool as int)));
                                    lemma_gains_raise(graph, dist@, prev@, t, clock, e.to as int, u, e.pool, new_dist);
                                }
                                let shown = new_dist.copy();
                                let ghost dist_pre = dist@;
                                let ghost prev_pre = prev@;
                                proof {
                                    assert(graph.linked(u as int, e.to as int));
                                    lemma_reach_step(graph, s, u as int, e.to as int);
                                }
                                proof {
                                    assert(relaxable(graph, cur.0, u as int, i as int));
                                    assert(offer(graph, cur.0, u as int, i as int) == new_dist.parts());
                                }
                                dist.set(e.to, Some(new_dist));
                                prev.set(e.to, Some((u, e.pool)));
                                proof {
                                    assert(dist_view(dist@) =~= cur.0.update(e.to as int, Some(offer(graph, cur.0, u as int, i as int))));
                                }
                                proof {
                                    assert forall|v: int| 0 <= v < dist@.len() && #[trigger] dist@[v] is Some implies graph.reachable(s, v) by {
                                        if v != e.to as int {
                                            assert(dist@[v] == dist_pre[v]);
                                        }
                                    }
                                    assert forall|v: int| 0 <= v < dist@.len() && #[trigger] dist@[v] is Some && v != s implies prev@[v] is Some by {
                                        if v != e.to as int {
                                            assert(dist@[v] == dist_pre[v]);
                                            assert(prev@[v] == prev_pre[v]);
                                        }
                                    }
                                }
                                proof {
                                    t = t.update(e.to as int, clock + 1);
                                    clock = clock + 1;
                                    assert(graph.usable(u as int, i as int));
                                    assert(graph.hop(u as int, e.to as int, e.pool as int));
                                    assert forall|v: int|
                                        0 <= v < prev@.len() && #[trigger] prev@[v] is Some implies prev@[v].unwrap().0
                                            < prev@.len() && graph.hop(
                                            prev@[v].unwrap().0 as int,
                                            v,
                                            prev@[v].unwrap().1 as int,
                                        ) by {
                                        if v != e.to as int {
                                            assert(prev@[v] == prev0[v]);
                                        }
                                    }
                                }
                                tracer.push(Step::Relax { from: u, to: e.to, new_distance: shown });
                                proof {
                                    let x = e.to as int;
                                    let nd = dist@[x].unwrap().parts();
                                    assert(gains_ok(graph, dist@, prev@, t, clock));
                                    assert(frac_pos(nd));
                                    if dist_before[x] is Some {
                                        assert(frac_lt(dist_before[x].unwrap().parts(), nd));
                                        assert(frac_pos(dist_before[x].unwrap().parts()));
                                    }
                                    if old(dist)@[x] is Some {
                                        lemma_frac_trans(old(dist)@[x].unwrap().parts(), dist_before[x].unwrap().parts(), nd);
                                    }
                                    assert forall|v: int| 0 <= v < n && #[trigger] old(dist)@[v] is Some implies frac_le(
                                        old(dist)@[v].unwrap().parts(),
                                        dist@[v].unwrap().parts(),
                                    ) by {
                                        if v != x {
                                            assert(dist@[v] == dist_before[v]);
                                        }
                                    }
                                    assert(rose(old(dist)@[x], dist@[x]));
                                    wv = x;
                                    assert(tracer.events().take(ev0.len() as int) =~= ev0) by {
                                        assert(ev_before.take(ev0.len() as int) == ev0);
                                        if tracer.enabled() {
                                            assert forall|k: int| 0 <= k < ev0.len() implies tracer.events()[k] == ev0[k] by {
                                                assert(tracer.events()[k] == ev_before[k]);
                                                assert(ev_before.take(ev0.len() as int)[k] == ev_before[k]);
                                            }
                                        }
                                    }
                                    assert forall|k: int| ev0.len() <= k < tracer.events().len() implies #[trigger] tracer.events()[k] is Relax by {
                                        if tracer.enabled() && k < ev_before.len() {
                                            assert(tracer.events()[k] == ev_before[k]);
                                        } else if !tracer.enabled() {
                                            assert(tracer.events() == ev_before);
                                        }
                                    }
                                }
                                any = true;
                            } else {
                                proof {
                                    if !any {
                                        assert(edge_settled(graph, old(dist)@, u as int, i as int));
                                    }
                                    assert(!relaxable(graph, cur.0, u as int, i as int));
                                }
                            }
                        },
                    }
                    proof {
                        assert((dist_view(dist@), prev@, any) == edge_step(graph, cur, u as int, i as int));
                    }
                    i = i + 1;
                }
                proof {
                    let cur = (dist_view(dist@), prev@, any);
                    assert(sweep_from(graph, cur, u as int, i as int) == sweep_from(graph, cur, u + 1, 0));
                }
            },
        }
        u = u + 1;
    }
    proof {
        let cur = (dist_view(dist@), prev@, any);
        assert(sweep_from(graph, cur, n as int, 0) == cur);
    }
    any
}

/// The first reached token's usable edge that would still relax, as
/// (token, edge position); `None` when every usable edge out of a reached
/// token leads to a reached token and none relaxes.
fn find_relaxable(graph: &Graph, dist: &Vec<Option<Ratio>>) -> (r: Option<(usize, usize)>)
    requires
        graph.wf(),
        dist@.len() == graph.tokens@.len(),
    ensures
        match r {
            Some((u, i)) => u < graph.tokens@.len() && dist@[u as int] is Some && graph.usable(
                u as int,
                i as int,
            ) && !edge_settled(graph, dist@, u as int, i as int) && (dist@[graph.adj@[u as int]@[i as int].to as int] is Some ==> frac_lt(
                dist@[graph.adj@[u as int]@[i as int].to as int].unwrap().parts(),
                frac_mul(
                    dist@[u as int].unwrap().parts(),
                    hop_rate(graph, u as int, graph.adj@[u as int]@[i as int].pool as int),
                ),
            )),
            None => forall|u: int, i: int|
                0 <= u < graph.tokens@.len() && dist@[u] is Some && #[trigger] graph.usable(u, i)
                    ==> dist@[graph.adj@[u]@[i].to as int] is Some,
        },
        match r {
            Some((u, i)) => first_relaxable(graph, dist_view(dist@), u as int, i as int),
            None => !any_relaxable(graph, dist_view(dist@)),
        },
{
    proof {
        graph.lemma_adj_ok();
    }
    let fnum = Natural::from_u64(TOLERANCE_NUM);
    let fden = Natural::from_u64(TOLERANCE_DEN);
    let n = graph.num_tokens();
    let mut u: usize = 0;
    while u < n
        invariant
            graph.wf(),
            n == graph.tokens@.len(),
            dist@.len() == n,
            u <= n,
            forall|uu: int, ii: int|
                0 <= uu < graph.adj@.len() && 0 <= ii < graph.adj@[uu]@.len() ==> graph.edge_ok(
                    uu,
                    #[trigger] graph.adj@[uu]@[ii],
                ),
            forall|w: int, i: int|
                0 <= w < u && dist@[w] is Some && #[trigger] graph.usable(w, i)
                    ==> dist@[graph.adj@[w]@[i].to as int] is Some,
            fnum.val() == TOLERANCE_NUM,
            fden.val() == TOLERANCE_DEN,
            forall|uu: int, ii: int| uu < u ==> !#[trigger] relaxable(graph, dist_view(dist@), uu, ii),
        decreases n - u,
    {
        match &dist[u] {
            None => {},
            Some(du) => {
                let edges = &graph.adj[u];
                let mut i: usize = 0;
                while i < edges.len()
                    invariant
                        graph.wf(),
                        n == graph.tokens@.len(),
                        dist@.len() == n,
                        u < n,
                        dist@[u as int] is Some,
                        edges@ == graph.adj@[u as int]@,
                        i <= edges@.len(),
                        forall|uu: int, ii: int|
                            0 <= uu < graph.adj@.len() && 0 <= ii < graph.adj@[uu]@.len()
                                ==> graph.edge_ok(uu, #[trigger] graph.adj@[uu]@[ii]),
                        forall|j: int|
                            0 <= j < i && #[trigger] graph.usable(u as int, j)
                                ==> dist@[graph.adj@[u as int]@[j].to as int] is Some,
                        fnum.val() == TOLERANCE_NUM,
                        fden.val() == TOLERANCE_DEN,
                        du.parts() == dist@[u as int].unwrap().parts(),
                        forall|uu: int, ii: int| uu < u ==> !#[trigger] relaxable(graph, dist_view(dist@), uu, ii),
                        forall|ii: int| ii < i ==> !#[trigger] relaxable(graph, dist_view(dist@), u as int, ii),
                    decreases edges@.len() - i,
                {
                    let e = edges[i];
                    assert(graph.edge_ok(u as int, graph.adj@[u as int]@[i as int]));
                    let ghost dv = dist_view(dist@);
                    proof {
                        assert(dv[u as int] == Some(du.parts()));
                    }
                    match graph.pools[e.pool].usable_rate(e.in_token) {
                        None => {
                            proof {
                                assert(!relaxable(graph, dv, u as int, i as int));
                            }
                        },
                        Some(rate) => {
                            let new_dist = du.mul(&rate);
                            proof {
                                assert(offer(graph, dv, u as int, i as int) == new_dist.parts());
                            }
                            if relaxes(&new_dist, &dist[e.to], &fnum, &fden) {
                                proof {
                                    assert(new_dist.parts() == frac_mul(
                                        dist@[u as int].unwrap().parts(),
                                        hop_rate(graph, u as int, e.pool as int),
                                    ));
                                    assert(relaxable(graph, dv, u as int, i as int));
                                }
                                return Some((u, i));
                            }
                            proof {
                                assert(!relaxable(graph, dv, u as int, i as int));
                            }
                        },
                    }
                    i = i + 1;
                }
                proof {
                    assert forall|ii: int| !#[trigger] relaxable(graph, dist_view(dist@), u as int, ii) by {
                        assert(!graph.usable(u as int, ii) || ii < i);
                    }
                }
            },
        }
        proof {
            if dist@[u as int] is None {
                assert forall|ii: int| !#[trigger] relaxable(graph, dist_view(dist@), u as int, ii) by {
                    assert(dist_view(dist@)[u as int] is None);
                }
            }
        }
        u = u + 1;
    }
    proof {
        assert forall|uu: int, ii: int| !#[trigger] relaxable(graph, dist_view(dist@), uu, ii) by {
            if uu >= n {
                assert(!(0 <= uu < graph.tokens@.len()));
            }
        }
    }
    None
}

/// Each token of the loop `cn` is the parent, through pool `cp[x]`, of the
/// next one.
#[verifier::opaque]
pub open spec fn parent_cycle(prev: Seq<Option<(usize, usize)>>, cn: Seq<usize>, cp: Seq<usize>) -> bool {
    forall|x: int| 0 <= x < cn.len() ==> prev[closed(cn)[x + 1] as int] == Some((#[trigger] cn[x], cp[x]))
}

/// A loop of parent links lies among tokens reached from `s`.
proof fn lemma_parent_cycle_reached(
    g: &Graph,
    dist: Seq<Option<Ratio>>,
    prev: Seq<Option<(usize, usize)>>,
    t: Seq<nat>,
    clock: nat,
    s: int,
    cn: Seq<usize>,
    cp: Seq<usize>,
)
    requires
        gains_ok(g, dist, prev, t, clock),
        reached_from(g, s, dist),
        prev.len() == g.tokens@.len(),
        is_cycle(g, cn, cp),
        parent_cycle(prev, cn, cp),
    ensures
        g.reachable(s, cn[0] as int),
{
    reveal(parent_cycle);
    let nx = closed(cn)[1] as int;
    assert(prev[nx] == Some((cn[0], cp[0])));
    assert(0 <= nx < prev.len()) by {
        if cn.len() > 1 {
            assert(closed(cn)[1] == cn[1]);
        }
    }
    assert(dist[cn[0] as int] is Some);
}

/// Walks parent links `n` times from `entry` to land on a cycle of them,
/// then walks the cycle once to list its tokens and pools, and reports it:
/// its exact rate product, what `amount_in` of its first token becomes once
/// around, and its gas in that token. `NoPath` only when the first walk
/// meets a token without a parent or a swap on the loop is not computable:
/// after `n` parent steps the walk is on a loop, which closes within `n`
/// more.
#[verifier::rlimit(40)]
fn extract_cycle(
    graph: &Graph,
    prev: &Vec<Option<(usize, usize)>>,
    entry: usize,
    amount_in: U256,
    gas: &GasModel,
    trace: Vec<Step>,
    Ghost(dv): Ghost<Seq<Option<Ratio>>>,
    Ghost(s): Ghost<int>,
) -> (r: SolveResult)
    requires
        graph.wf(),
        graph.tokens@.len() < 0x1_0000_0000,
        prev@.len() == graph.tokens@.len(),
        links_ok(graph, prev@),
        entry < graph.tokens@.len(),
        reached_from(graph, s, dv),
        exists|t: Seq<nat>, c: nat| gains_ok(graph, dv, prev@, t, c),
    ensures
        r.trace@ == trace@,
        (exists|k: nat| k < prev@.len() && #[trigger] prev@[walk_back(prev@, entry as int, k)] is None)
            ==> r.outcome is NoPath,
        match r.outcome {
            Outcome::NegativeCycle { product_of_rates, .. } => product_of_rates.num.val()
                > product_of_rates.den.val() && exists|cn: Seq<usize>, cp: Seq<usize>|
                #[trigger] is_cycle(graph, cn, cp) && parent_cycle(prev@, cn, cp) && graph.reachable(s, cn[0] as int) && cn[0] == walk_back(
                    prev@,
                    entry as int,
                    prev@.len() as nat,
                ) && reports_cycle(graph, r.outcome, cn, cp, amount_in, *gas),
            Outcome::NoPath => (exists|k: nat| k < prev@.len() && #[trigger] prev@[walk_back(prev@, entry as int, k)] is None)
                || exists|cn: Seq<usize>, cp: Seq<usize>|
                #[trigger] is_cycle(graph, cn, cp) && parent_cycle(prev@, cn, cp) && cn[0] == walk_back(
                    prev@,
                    entry as int,
                    prev@.len() as nat,
                ) && replay(graph, closed(cn), cp, amount_in.val(), cn.len()) is None,
            _ => false,
        },
{
    let n = graph.num_tokens();
    let mut current = entry;
    let mut k: usize = 0;
    while k < n
        invariant
            n == prev@.len(),
            links_ok(graph, prev@),
            current < n,
            k <= n,
            entry < n,
            current as int == walk_back(prev@, entry as int, k as nat),
            forall|j: nat| j < k ==> #[trigger] prev@[walk_back(prev@, entry as int, j)] is Some,
            forall|j: nat| j <= k ==> 0 <= #[trigger] walk_back(prev@, entry as int, j) < n,
        decreases n - k,
    {
        match prev[current] {
            Some((p, _)) => {
                current = p;
                proof {
                    assert forall|j: nat| j <= k + 1 implies 0 <= #[trigger] walk_back(prev@, entry as int, j) < n by {
                        if j == k + 1 {
                            assert(walk_back(prev@, entry as int, j) == prev@[walk_back(prev@, entry as int, k as nat)].unwrap().0 as int);
                        }
                    }
                }
            },
            None => {
                return SolveResult { outcome: Outcome::NoPath, trace };
            },
        }
        k = k + 1;
    }
    let start = current;
    proof {
        assert forall|kk: nat| kk < prev@.len() implies !(#[trigger] prev@[walk_back(prev@, entry as int, kk)] is None) by {}
    }
    let ghost per: int;
    proof {
        let xs = Seq::new((n + 1) as nat, |x: int| walk_back(prev@, entry as int, x as nat));
        assert forall|x: int| 0 <= x < xs.len() implies 0 <= #[trigger] xs[x] < n by {
            assert(0 <= walk_back(prev@, entry as int, x as nat) < n);
        }
        lemma_pigeonhole(xs, n as int);
        let (i, j) = choose|i: int, j: int| 0 <= i < j < xs.len() && #[trigger] xs[i] == #[trigger] xs[j];
        lemma_on_loop(prev@, entry as int, n as nat, i as nat, j as nat);
        per = j - i;
    }
    let mut back_nodes: Vec<usize> = Vec::new();
    let mut back_pools: Vec<usize> = Vec::new();
    let mut cur = start;
    let mut is_closed = false;
    let mut steps: usize = 0;
    while !is_closed && steps < n
        invariant
            n == prev@.len(),
            n == graph.tokens@.len(),
            links_ok(graph, prev@),
            start < n,
            cur < n,
            steps <= n,
            back_nodes@.len() == steps,
            back_pools@.len() == steps,
            cur == (if steps == 0 {
                start
            } else {
                back_nodes@[steps - 1]
            }),
            forall|j: int|
                0 <= j < steps ==> #[trigger] back_nodes@[j] < n && graph.hop(
                    back_nodes@[j] as int,
                    (if j == 0 {
                        start
                    } else {
                        back_nodes@[j - 1]
                    }) as int,
                    back_pools@[j] as int,
                ),
            is_closed ==> steps >= 1 && back_nodes@[steps - 1] == start,
            forall|j: int|
                0 <= j < steps ==> prev@[(if j == 0 {
                    start
                } else {
                    back_nodes@[j - 1]
                }) as int] == Some((#[trigger] back_nodes@[j], back_pools@[j])),
            cur as int == walk_back(prev@, start as int, steps as nat),
            1 <= per <= n,
            walk_back(prev@, start as int, per as nat) == start as int,
            forall|kk: nat| kk < per ==> #[trigger] prev@[walk_back(prev@, start as int, kk)] is Some,
            !is_closed ==> steps < per,
        decreases n - steps,
    {
        match prev[cur] {
            None => {
                proof {
                    assert(prev@[walk_back(prev@, start as int, steps as nat)] is Some);
                }
                return SolveResult { outcome: Outcome::NoPath, trace };
            },
            Some((parent, pool)) => {
                proof {
                    assert(walk_back(prev@, start as int, (steps + 1) as nat) == parent as int);
                    if parent != start {
                        assert(steps + 1 != per);
                    }
                }
                back_nodes.push(parent);
                back_pools.push(pool);
                if parent == start {
                    is_closed = true;
                }
                cur = parent;
                steps = steps + 1;
            },
        }
    }
    if !is_closed {
        return SolveResult { outcome: Outcome::NoPath, trace };
    }
    let m = steps;
    let mut cn: Vec<usize> = Vec::new();
    let mut cp: Vec<usize> = Vec::new();
    let mut t: usize = 0;
    while t < m
        invariant
            m == back_nodes@.len(),
            m == back_pools@.len(),
            t <= m,
            cn@.len() == t,
            cp@.len() == t,
            forall|x: int| 0 <= x < t ==> #[trigger] cn@[x] == back_nodes@[m - 1 - x],
            forall|x: int| 0 <= x < t ==> #[trigger] cp@[x] == back_pools@[m - 1 - x],
        decreases m - t,
    {
        cn.push(back_nodes[m - 1 - t]);
        cp.push(back_pools[m - 1 - t]);
        t = t + 1;
    }
    proof {
        assert forall|i: int| 0 <= i < cn@.len() implies graph.hop(
            #[trigger] cn@[i] as int,
            closed(cn@)[i + 1] as int,
            cp@[i] as int,
        ) by {
            let j = m - 1 - i;
            assert(back_nodes@[j] < n);
            if i < m - 1 {
                assert(closed(cn@)[i + 1] == cn@[i + 1]);
                assert(cn@[i + 1] == back_nodes@[j - 1]);
            } else {
                assert(closed(cn@)[i + 1] == cn@[0]);
            }
        }
        assert forall|i: int| 0 <= i < cn@.len() implies #[trigger] cn@[i] < graph.tokens@.len() by {
            assert(back_nodes@[m - 1 - i] < n);
        }
        assert forall|i: int| 0 <= i < cn@.len() implies prev@[closed(cn@)[i + 1] as int] == Some((#[trigger] cn@[i], cp@[i])) by {
            let j = m - 1 - i;
            assert(prev@[(if j == 0 { start } else { back_nodes@[j - 1] }) as int] == Some((back_nodes@[j], back_pools@[j])));
            if i < m - 1 {
                assert(closed(cn@)[i + 1] == cn@[i + 1]);
                assert(cn@[i + 1] == back_nodes@[j - 1]);
            } else {
                assert(closed(cn@)[i + 1] == cn@[0]);
            }
        }
        let tc = choose|t: Seq<nat>, c: nat| gains_ok(graph, dv, prev@, t, c);
        lemma_parent_loop_gains(graph, dv, prev@, tc.0, tc.1, cn@, cp@);
    }
    proof {
        reveal(parent_cycle);
        assert(cn@[0] == back_nodes@[m - 1]);
    }
    let ghost start_v = walk_back(prev@, entry as int, prev@.len() as nat);
    assert(cn@[0] as int == start_v);
    let mut tour = cn.clone();
    tour.push(cn[0]);
    proof {
        assert(tour@ == closed(cn@));
        graph.lemma_adj_ok();
    }
    let mut rate = Ratio::one();
    let mut amount = amount_in;
    let mut i: usize = 0;
    while i < m
        invariant
            graph.wf(),
            is_cycle(graph, cn@, cp@),
            m == cn@.len(),
            tour@ == closed(cn@),
            i <= m,
            forall|uu: int, ii: int|
                0 <= uu < graph.adj@.len() && 0 <= ii < graph.adj@[uu]@.len() ==> graph.edge_ok(
                    uu,
                    #[trigger] graph.adj@[uu]@[ii],
                ),
            rate.num.val() == route_rate(graph.tokens@, graph.pools@, tour@, cp@, i as nat).0,
            rate.den.val() == route_rate(graph.tokens@, graph.pools@, tour@, cp@, i as nat).1,
            replay(graph, tour@, cp@, amount_in.val(), i as nat) == Some(amount.val()),
            parent_cycle(prev@, cn@, cp@),
            cn@[0] as int == start_v,
            start_v == walk_back(prev@, entry as int, prev@.len() as nat),
        decreases m - i,
    {
        let from_idx = tour[i];
        proof {
            assert(tour@[i as int] == cn@[i as int]);
            assert(graph.hop(cn@[i as int] as int, closed(cn@)[i + 1] as int, cp@[i as int] as int));
            let e = choose|e: int|
                #![trigger graph.adj@[cn@[i as int] as int]@[e]]
                graph.usable(cn@[i as int] as int, e) && graph.adj@[cn@[i as int] as int]@[e].to
                    == closed(cn@)[i + 1] as int && graph.adj@[cn@[i as int] as int]@[e].pool
                    == cp@[i as int] as int;
            assert(graph.edge_ok(cn@[i as int] as int, graph.adj@[cn@[i as int] as int]@[e]));
        }
        let pool = &graph.pools[cp[i]];
        let from = graph.tokens[from_idx].address;
        rate = rate.mul(&pool.marginal_rate(from));
        match pool.quote(from, amount) {
            None => {
                proof {
                    assert(replay(graph, tour@, cp@, amount_in.val(), (i + 1) as nat) is None);
                    lemma_replay_stays_none(graph, tour@, cp@, amount_in.val(), (i + 1) as nat, m as nat);
                }
                return SolveResult { outcome: Outcome::NoPath, trace };
            },
            Some(out) => {
                amount = out;
            },
        }
        i = i + 1;
    }
    let cycle = token_addresses(graph, &cn);
    proof {
        let tc = choose|t: Seq<nat>, c: nat| gains_ok(graph, dv, prev@, t, c);
        lemma_parent_cycle_reached(graph, dv, prev@, tc.0, tc.1, s, cn@, cp@);
    }
    proof {
        assert forall|x: int| 0 <= x < cp@.len() implies #[trigger] cp@[x] < graph.pools@.len() by {
            assert(graph.hop(cn@[x] as int, closed(cn@)[x + 1] as int, cp@[x] as int));
            let e = choose|e: int|
                #![trigger graph.adj@[cn@[x] as int]@[e]]
                graph.usable(cn@[x] as int, e) && graph.adj@[cn@[x] as int]@[e].to
                    == closed(cn@)[x + 1] as int && graph.adj@[cn@[x] as int]@[e].pool == cp@[x] as int;
            assert(graph.edge_ok(cn@[x] as int, graph.adj@[cn@[x] as int]@[e]));
        }
    }
    let pools_used = pool_addresses(graph, &cp);
    let units = gas.gas_units(1, m);
    let entry_token = &graph.tokens[cn[0]];
    let gas_cost = gas.gas_to_dst_token(
        units,
        entry_token.true_price_pico_usd,
        entry_token.decimals,
    );
    SolveResult {
        outcome: Outcome::NegativeCycle {
            cycle,
            pools_used,
            product_of_rates: rate,
            amount_in,
            cycle_output: amount,
            gas_cost,
        },
        trace,
    }
}

/// Following parent links `a + b` times is following them `a` times, then
/// `b` times.
proof fn lemma_walk_back_compose(prev: Seq<Option<(usize, usize)>>, d: int, a: nat, b: nat)
    ensures
        walk_back(prev, d, a + b) == walk_back(prev, walk_back(prev, d, a), b),
    decreases b,
{
    if b > 0 {
        lemma_walk_back_compose(prev, d, a, (b - 1) as nat);
        assert(walk_back(prev, d, a + b) == prev[walk_back(prev, d, (a + b - 1) as nat)].unwrap().0 as int);
        assert((a + b - 1) as nat == a + (b - 1) as nat);
    }
}

/// When the parent walk from `entry` has parents for its first `n` steps and
/// comes back to a token after `j − i` steps, from step `i`, then the token
/// it reaches after `n` steps comes back to itself after `j − i` steps with
/// a parent at every step.
proof fn lemma_on_loop(prev: Seq<Option<(usize, usize)>>, entry: int, n: nat, i: nat, j: nat)
    requires
        i < j <= n,
        walk_back(prev, entry, i) == walk_back(prev, entry, j),
        forall|x: nat| x < n ==> #[trigger] prev[walk_back(prev, entry, x)] is Some,
    ensures
        walk_back(prev, walk_back(prev, entry, n), (j - i) as nat) == walk_back(prev, entry, n),
        forall|k: nat| k < j - i ==> #[trigger] prev[walk_back(prev, walk_back(prev, entry, n), k)] is Some,
{
    let p = (j - i) as nat;
    let st = walk_back(prev, entry, n);
    lemma_walk_back_compose(prev, entry, n, p);
    lemma_walk_back_compose(prev, entry, j, (n - i) as nat);
    lemma_walk_back_compose(prev, entry, i, (n - i) as nat);
    assert(n + p == j + (n - i) as nat);
    assert(i + (n - i) as nat == n);
    assert forall|k: nat| k < p implies #[trigger] prev[walk_back(prev, st, k)] is Some by {
        let mm = (n + k - p) as nat;
        lemma_walk_back_compose(prev, entry, n, k);
        lemma_walk_back_compose(prev, entry, j, (mm - i) as nat);
        lemma_walk_back_compose(prev, entry, i, (mm - i) as nat);
        assert(j + (mm - i) as nat == n + k);
        assert(i + (mm - i) as nat == mm);
        assert(walk_back(prev, st, k) == walk_back(prev, entry, mm));
        assert(mm < n);
    }
}

/// A replay that fails stays failed.
proof fn lemma_replay_stays_none(g: &Graph, tp: Seq<usize>, pp: Seq<usize>, amount_in: nat, k: nat, m: nat)
    requires
        k <= m,
        replay(g, tp, pp, amount_in, k) is None,
    ensures
        replay(g, tp, pp, amount_in, m) is None,
    decreases m - k,
{
    if k < m {
        assert(replay(g, tp, pp, amount_in, (k + 1) as nat) is None);
        lemma_replay_stays_none(g, tp, pp, amount_in, (k + 1) as nat, m);
    }
}

/// Runs up to `n − 1` sweeps from `s`, stopping early after a sweep that
/// relaxes nothing. Returns best products, parent links and the trace.
fn passes(graph: &Graph, s: usize, with_trace: bool) -> (r: (
    Vec<Option<Ratio>>,
    Vec<Option<(usize, usize)>>,
    Tracer,
))
    requires
        graph.wf(),
        s < graph.tokens@.len(),
    ensures
        ({
            let (dist, prev, tracer) = r;
            &&& dist@.len() == graph.tokens@.len()
            &&& prev@.len() == graph.tokens@.len()
            &&& dist@[s as int] is Some
            &&& links_ok(graph, prev@)
            &&& tracer.enabled() == with_trace
            &&& trace_within(tracer.events(), graph.tokens@.len())
            &&& (graph.tokens@.len() >= 2 && with_trace) ==> tracer.events().len() > 0
            &&& exists|t: Seq<nat>, c: nat| gains_ok(graph, dist@, prev@, t, c)
            &&& reached_from(graph, s as int, dist@)
            &&& parented(s as int, dist@, prev@)
            &&& (with_trace && graph.tokens@.len() >= 2 && !all_settled(graph, dist@)) ==> tracer.events().contains(
                Step::Pass((graph.tokens@.len() - 2) as usize),
            )
            &&& (dist_view(dist@), prev@) == swept(graph, s as int)
        }),
{
    let n = graph.num_tokens();
    let (mut dist, mut prev, _) = fresh_state(n);
    dist.set(s, Some(Ratio::one()));
    proof {
        let t0 = Seq::new(n as nat, |i: int| 0nat);
        assert forall|v: int| 0 <= v < dist@.len() && #[trigger] dist@[v] is Some implies crate::ratio::frac_pos(dist@[v].unwrap().parts()) by {
            assert(v == s as int);
        }
        assert(gains_ok(graph, dist@, prev@, t0, 0));
        assert forall|v: int| 0 <= v < dist@.len() && #[trigger] dist@[v] is Some implies graph.reachable(s as int, v) by {
            assert(v == s as int);
            let tp = seq![s];
            assert(graph.is_walk(tp));
        }
        assert forall|v: int| 0 <= v < dist@.len() && #[trigger] dist@[v] is Some && v != s implies prev@[v] is Some by {
            assert(v == s as int);
        }
    }
    proof {
        assert(dist_view(dist@) =~= start_dist(graph, s as int));
        assert(prev@ =~= no_links(graph));
    }
    let ghost target = swept(graph, s as int);
    let mut tracer = Tracer::new(with_trace);
    let max_passes = if n > 0 {
        n - 1
    } else {
        0
    };
    let mut pass: usize = 0;
    let mut done = false;
    while !done && pass < max_passes
        invariant
            graph.wf(),
            n == graph.tokens@.len(),
            s < n,
            max_passes == n - 1,
            pass <= max_passes,
            dist@.len() == n,
            prev@.len() == n,
            dist@[s as int] is Some,
            links_ok(graph, prev@),
            tracer.enabled() == with_trace,
            trace_within(tracer.events(), n as nat),
            (pass > 0 && with_trace) ==> tracer.events().len() > 0,
            done ==> pass > 0,
            exists|t: Seq<nat>, c: nat| gains_ok(graph, dist@, prev@, t, c),
            reached_from(graph, s as int, dist@),
            parented(s as int, dist@, prev@),
            done ==> all_settled(graph, dist@),
            (with_trace && pass > 0) ==> tracer.events().contains(Step::Pass((pass - 1) as usize)),
            target == swept(graph, s as int),
            !done ==> run_sweeps(graph, dist_view(dist@), prev@, (max_passes - pass) as nat) == target,
            done ==> (dist_view(dist@), prev@) == target,
        decreases max_passes - pass,
    {
        tracer.push(Step::Pass(pass));
        let ghost d0 = dist_view(dist@);
        let ghost p0 = prev@;
        let ghost ev_p = tracer.events();
        proof {
            if with_trace {
                assert(ev_p[ev_p.len() - 1] == Step::Pass(pass));
            }
        }
        let any = sweep(graph, &mut dist, &mut prev, &mut tracer, Ghost(s as int));
        proof {
            if with_trace {
                assert(tracer.events().take(ev_p.len() as int)[ev_p.len() - 1] == tracer.events()[ev_p.len() - 1]);
                assert(tracer.events()[ev_p.len() - 1] == Step::Pass(pass));
            }
        }
        proof {
            assert(run_sweeps(graph, d0, p0, (max_passes - pass) as nat) == (if !any {
                (dist_view(dist@), prev@)
            } else {
                run_sweeps(graph, dist_view(dist@), prev@, (max_passes - pass - 1) as nat)
            }));
        }
        if !any {
            done = true;
        }
        pass = pass + 1;
    }
    proof {
        let tc = choose|t: Seq<nat>, c: nat| gains_ok(graph, dist@, prev@, t, c);
        assert(gains_ok(graph, dist@, prev@, tc.0, tc.1));
    }
    (dist, prev, tracer)
}

/// Routes `amount_in` of `src` to `dst`, or reports a profitable cycle
/// reachable from `src`: after the sweeps, one more sweep that still finds
/// a relaxing edge proves a cycle, extracted from the parent links;
/// otherwise the route is rebuilt from the parent links and walked with the
/// best pool per hop at the trade size.
#[verifier::spinoff_prover]
#[verifier::rlimit(80)]
pub fn solve(
    graph: &Graph,
    src: Address,
    dst: Address,
    amount_in: U256,
    with_trace: bool,
    gas: &GasModel,
) -> (r: SolveResult)
    requires
        graph.wf(),
        graph.tokens@.len() < 0x1_0000_0000,
    ensures
        bf_contract(graph, src, dst, amount_in, with_trace, *gas, r),
{
    proof {
        lemma_index_upto(graph.tokens@, src, graph.tokens@.len() as int);
        lemma_index_upto(graph.tokens@, dst, graph.tokens@.len() as int);
    }
    let s = match graph.index_of(src) {
        Some(i) => i,
        None => {
            return SolveResult { outcome: Outcome::NoPath, trace: Vec::new() };
        },
    };
    let dst_idx = graph.index_of(dst);
    match dst_idx {
        Some(d) => {
            if d == s {
                return singleton_result(src, s, amount_in, with_trace);
            }
        },
        None => {},
    }
    let (dist, mut prev, mut tracer) = passes(graph, s, with_trace);
    proof {
        if dst_idx is Some {
            assert(graph.tokens@.len() >= 2);
        }
    }
    match find_relaxable(graph, &dist) {
        Some((u, i)) => {
            let e = graph.adj[u][i];
            proof {
                graph.lemma_adj_ok();
                assert(graph.edge_ok(u as int, graph.adj@[u as int]@[i as int]));
            }
            let du = match &dist[u] {
                Some(x) => x.copy(),
                None => Ratio::one(),
            };
            let shown = match graph.pools[e.pool].usable_rate(e.in_token) {
                Some(rate) => du.mul(&rate),
                None => du,
            };
            let ghost prev0 = prev@;
            proof {
                let tc = choose|t: Seq<nat>, c: nat| gains_ok(graph, dist@, prev@, t, c);
                lemma_gains_repoint(graph, dist@, prev@, tc.0, tc.1, e.to as int, u, e.pool);
            }
            prev.set(e.to, Some((u, e.pool)));
            proof {
                assert(graph.hop(u as int, e.to as int, e.pool as int));
                assert forall|v: int|
                    0 <= v < prev@.len() && #[trigger] prev@[v] is Some implies prev@[v].unwrap().0
                        < prev@.len() && graph.hop(
                        prev@[v].unwrap().0 as int,
                        v,
                        prev@[v].unwrap().1 as int,
                    ) by {
                    if v != e.to as int {
                        assert(prev@[v] == prev0[v]);
                    }
                }
            }
            tracer.push(Step::Relax { from: u, to: e.to, new_distance: shown });
            let trace = tracer.into_vec();
            let r = extract_cycle(graph, &prev, e.to, amount_in, gas, trace, Ghost(dist@), Ghost(s as int));
            proof {
                let dv = swept(graph, s as int).0;
                assert(e == graph.adj@[u as int]@[i as int]);
                assert(first_relaxable(graph, dv, u as int, i as int));
                assert(any_relaxable(graph, dv));
                assert(prev@ == swept(graph, s as int).1.update(e.to as int, Some((u, e.pool))));
                assert(cycle_answer(graph, prev@, e.to as int, amount_in, *gas, r.outcome));
                assert(bf_answer(graph, s as int, token_index(graph.tokens@, dst), amount_in, *gas, r.outcome));
            }
            return r;
        },
        None => {
            proof {
                assert(!any_relaxable(graph, swept(graph, s as int).0));
            }
        },
    }
    let d = match dst_idx {
        Some(d) => d,
        None => {
            return SolveResult { outcome: Outcome::NoPath, trace: tracer.into_vec() };
        },
    };
    if dist[d].is_none() {
        proof {
            if graph.reachable(s as int, d as int) {
                let tp = choose|tp: Seq<usize>| #[trigger] graph.is_walk(tp) && tp[0] == s && tp.last() == d;
                lemma_reached_closure(graph, dist@, s as int, tp);
            }
        }
        return SolveResult { outcome: Outcome::NoPath, trace: tracer.into_vec() };
    }
    let n = graph.num_tokens();
    match chain_within(&prev, s, d, n) {
        None => {
            proof {
                let tc = choose|t: Seq<nat>, c: nat| gains_ok(graph, dist@, prev@, t, c);
                lemma_broken_chain_gains(graph, dist@, prev@, tc.0, tc.1, s as int, d as int);
            }
            SolveResult { outcome: Outcome::NoPath, trace: tracer.into_vec() }
        },
        Some(k) => {
            proof {
                lemma_chain_len_unique(prev@, s as int, d as int, k as nat, chain_len(prev@, s as int, d as int));
            }
            let (path_idx, _) = reconstruct_with_pools(&prev, s, d);
            proof {
                lemma_chain_walk(graph, prev@, s as int, d as int, k as nat, path_idx@);
                assert(k >= 1) by {
                    if k == 0 {
                        assert(walk_back(prev@, d as int, 0) == d as int);
                    }
                }
            }
            proof {
                assert(path_idx@ =~= parent_path(prev@, s as int, d as int));
                let tc = choose|t: Seq<nat>, c: nat| gains_ok(graph, dist@, prev@, t, c);
                lemma_near_best(graph, dist@, prev@, tc.0, tc.1, s as int, d as int, k as nat);
            }
            found_along(graph, &path_idx, amount_in, gas, tracer)
        },
    }
}

} // verus!
