//! Walks with a pool chosen per hop, their marginal-rate products, and the
//! facts behind settling tokens in order of best product.
//!
//! With every marginal rate at most one, extending a walk never raises its
//! product, so the best product of a token is known once every token with
//! a larger reached product has been settled.
use crate::algo::bf_gain::{hop_rate, lemma_hop_rate_pos};
use crate::algo::path::{chain_reaches, route_rate, walk_back};
use crate::graph::Graph;
use crate::ratio::{
    frac_le, frac_mul, frac_pos, lemma_frac_mul_mono, lemma_frac_mul_pos, lemma_frac_trans, Ratio,
};
use vstd::prelude::*;

verus! {

/// `tp` is a walk of tokens and `ps[i]` a pool whose usable edge leads from
/// `tp[i]` to `tp[i + 1]`.
pub open spec fn pool_walk(g: &Graph, tp: Seq<usize>, ps: Seq<usize>) -> bool {
    &&& tp.len() == ps.len() + 1
    &&& forall|i: int| 0 <= i < tp.len() ==> #[trigger] tp[i] < g.tokens@.len()
    &&& forall|i: int| 0 <= i < ps.len() ==> g.hop(#[trigger] tp[i] as int, tp[i + 1] as int, ps[i] as int)
}

/// A pool walk from `s` to `x`.
pub open spec fn walk_to(g: &Graph, tp: Seq<usize>, ps: Seq<usize>, s: int, x: int) -> bool {
    &&& pool_walk(g, tp, ps)
    &&& tp[0] == s
    &&& tp.last() == x
}

/// Product of the marginal rates along a pool walk, as a fraction.
pub open spec fn walk_rate(g: &Graph, tp: Seq<usize>, ps: Seq<usize>) -> (nat, nat) {
    route_rate(g.tokens@, g.pools@, tp, ps, ps.len())
}

/// No pool walk from `s` to `x` has a larger rate product than `q`.
pub open spec fn best_at(g: &Graph, s: int, x: int, q: (nat, nat)) -> bool {
    forall|tp: Seq<usize>, ps: Seq<usize>|
        #[trigger] walk_to(g, tp, ps, s, x) ==> frac_le(walk_rate(g, tp, ps), q)
}

/// Every usable hop's marginal rate is at most one: the graph's log weights
/// are all non-negative.
pub open spec fn rates_at_most_one(g: &Graph) -> bool {
    forall|u: int, i: int|
        #[trigger] g.usable(u, i) ==> frac_le(hop_rate(g, u, g.adj@[u]@[i].pool as int), (1nat, 1nat))
}

/// The rate product of the first `k` hops is positive, and with rates at
/// most one it does not grow from `k` to `m` hops.
pub(crate) proof fn lemma_rate_tail(g: &Graph, tp: Seq<usize>, ps: Seq<usize>, k: nat, m: nat)
    requires
        g.wf(),
        pool_walk(g, tp, ps),
        k <= m <= ps.len(),
    ensures
        frac_pos(route_rate(g.tokens@, g.pools@, tp, ps, m)),
        rates_at_most_one(g) ==> frac_le(
            route_rate(g.tokens@, g.pools@, tp, ps, m),
            route_rate(g.tokens@, g.pools@, tp, ps, k),
        ),
    decreases m,
{
    let rm = route_rate(g.tokens@, g.pools@, tp, ps, m);
    if m == 0 {
        assert(rm == (1nat, 1nat));
    } else {
        let j = (m - 1) as int;
        let rj = route_rate(g.tokens@, g.pools@, tp, ps, (m - 1) as nat);
        let r = hop_rate(g, tp[j] as int, ps[j] as int);
        assert(g.hop(tp[j] as int, tp[j + 1] as int, ps[j] as int));
        lemma_hop_rate_pos(g, tp[j] as int, tp[j + 1] as int, ps[j] as int);
        assert(rm == frac_mul(rj, r));
        if k == m {
            lemma_rate_tail(g, tp, ps, (m - 1) as nat, (m - 1) as nat);
            lemma_frac_mul_pos(rj, r);
            assert(frac_le(rm, rm)) by (nonlinear_arith);
        } else {
            lemma_rate_tail(g, tp, ps, k, (m - 1) as nat);
            lemma_frac_mul_pos(rj, r);
            if rates_at_most_one(g) {
                let i = choose|i: int|
                    #![trigger g.adj@[tp[j] as int]@[i]]
                    g.usable(tp[j] as int, i) && g.adj@[tp[j] as int]@[i].to == tp[j + 1] as int
                        && g.adj@[tp[j] as int]@[i].pool == ps[j] as int;
                assert(g.usable(tp[j] as int, i));
                assert(frac_le(r, (1nat, 1nat)));
                assert(r.0 * 1 <= 1 * r.1);
                assert(r.0 <= r.1);
                // rj * r <= rj * 1 = rj
                let (a0, a1, r0, r1) = (rj.0 as int, rj.1 as int, r.0 as int, r.1 as int);
                assert((a0 * r0) * a1 <= a0 * (a1 * r1)) by (nonlinear_arith)
                    requires r0 <= r1, a0 >= 0, a1 >= 0;
                assert(frac_le(rm, rj));
                let rk = route_rate(g.tokens@, g.pools@, tp, ps, k);
                assert(frac_le(rj, rk));
                lemma_frac_mul_pos(rj, r);
                lemma_rate_tail(g, tp, ps, k, k);
                lemma_frac_trans(rm, rj, rk);
            }
        }
    }
}

/// The first `k` hops of a pool walk from `s` form a pool walk from `s` to
/// the `k`-th token with the same rate product.
pub(crate) proof fn lemma_walk_prefix(g: &Graph, tp: Seq<usize>, ps: Seq<usize>, s: int, x: int, k: nat)
    requires
        walk_to(g, tp, ps, s, x),
        k <= ps.len(),
    ensures
        walk_to(g, tp.take(k + 1 as int), ps.take(k as int), s, tp[k as int] as int),
        walk_rate(g, tp.take(k + 1 as int), ps.take(k as int)) == route_rate(g.tokens@, g.pools@, tp, ps, k),
{
    let tq = tp.take(k + 1 as int);
    let pq = ps.take(k as int);
    assert forall|i: int| 0 <= i < tq.len() implies #[trigger] tq[i] < g.tokens@.len() by {
        assert(tq[i] == tp[i]);
    }
    assert forall|i: int| 0 <= i < pq.len() implies g.hop(#[trigger] tq[i] as int, tq[i + 1] as int, pq[i] as int) by {
        assert(tq[i] == tp[i] && tq[i + 1] == tp[i + 1] && pq[i] == ps[i]);
    }
    lemma_route_rate_same(g, tq, pq, tp, ps, k);
}

/// Route rates agree on walks that agree on their first `k` hops.
proof fn lemma_route_rate_same(g: &Graph, t1: Seq<usize>, p1: Seq<usize>, t2: Seq<usize>, p2: Seq<usize>, k: nat)
    requires
        k <= p1.len(),
        k <= p2.len(),
        k < t1.len(),
        k < t2.len(),
        forall|i: int| 0 <= i < k ==> t1[i] == t2[i] && p1[i] == p2[i],
    ensures
        route_rate(g.tokens@, g.pools@, t1, p1, k) == route_rate(g.tokens@, g.pools@, t2, p2, k),
    decreases k,
{
    if k > 0 {
        lemma_route_rate_same(g, t1, p1, t2, p2, (k - 1) as nat);
        assert(t1[k - 1] == t2[k - 1] && p1[k - 1] == p2[k - 1]);
    }
}

/// A walk from a settled token to an unsettled one leaves the settled set
/// at some hop.
pub(crate) proof fn lemma_first_unsettled(tp: Seq<usize>, settled: Seq<bool>) -> (k: int)
    requires
        tp.len() >= 1,
        forall|i: int| 0 <= i < tp.len() ==> #[trigger] tp[i] < settled.len(),
        settled[tp[0] as int],
        !settled[tp.last() as int],
    ensures
        1 <= k < tp.len(),
        settled[tp[k - 1] as int],
        !settled[tp[k] as int],
    decreases tp.len(),
{
    if settled[tp[tp.len() - 2] as int] {
        (tp.len() - 1) as int
    } else {
        let tq = tp.drop_last();
        assert forall|i: int| 0 <= i < tq.len() implies #[trigger] tq[i] < settled.len() by {
            assert(tq[i] == tp[i]);
        }
        assert(tq[0] == tp[0]);
        assert(tq.last() == tp[tp.len() - 2]);
        let k = lemma_first_unsettled(tq, settled);
        assert(tq[k - 1] == tp[k - 1] && tq[k] == tp[k]);
        k
    }
}

/// Reached tokens have positive products, and a parent link's product is
/// the parent's times the hop's rate.
pub(crate) open spec fn products_linked(g: &Graph, dist: Seq<Option<Ratio>>, prev: Seq<Option<(usize, usize)>>) -> bool {
    &&& prev.len() == dist.len()
    &&& forall|v: int| 0 <= v < dist.len() && #[trigger] dist[v] is Some ==> frac_pos(dist[v].unwrap().parts())
    &&& forall|v: int|
        0 <= v < prev.len() && #[trigger] prev[v] is Some ==> {
            &&& prev[v].unwrap().0 < dist.len()
            &&& dist[v] is Some
            &&& dist[prev[v].unwrap().0 as int] is Some
            &&& dist[v].unwrap().parts() == frac_mul(
                dist[prev[v].unwrap().0 as int].unwrap().parts(),
                hop_rate(g, prev[v].unwrap().0 as int, prev[v].unwrap().1 as int),
            )
        }
}

/// Raising unsettled token `x` to its settled parent `u`'s product times
/// the hop's rate keeps `products_linked`, as no parent is unsettled.
pub(crate) proof fn lemma_linked_raise(
    g: &Graph,
    dist: Seq<Option<Ratio>>,
    prev: Seq<Option<(usize, usize)>>,
    visited: Seq<bool>,
    x: int,
    u: usize,
    p: usize,
    nd: Ratio,
)
    requires
        g.wf(),
        products_linked(g, dist, prev),
        visited.len() == dist.len(),
        forall|v: int| 0 <= v < prev.len() && #[trigger] prev[v] is Some ==> visited[prev[v].unwrap().0 as int],
        0 <= x < dist.len(),
        !visited[x],
        u < dist.len(),
        u != x,
        dist[u as int] is Some,
        g.hop(u as int, x, p as int),
        nd.parts() == frac_mul(dist[u as int].unwrap().parts(), hop_rate(g, u as int, p as int)),
    ensures
        products_linked(g, dist.update(x, Some(nd)), prev.update(x, Some((u, p)))),
{
    let d1 = dist.update(x, Some(nd));
    let p1 = prev.update(x, Some((u, p)));
    lemma_hop_rate_pos(g, u as int, x, p as int);
    lemma_frac_mul_pos(dist[u as int].unwrap().parts(), hop_rate(g, u as int, p as int));
    assert forall|v: int| 0 <= v < d1.len() && #[trigger] d1[v] is Some implies frac_pos(d1[v].unwrap().parts()) by {
        if v != x {
            assert(d1[v] == dist[v]);
        }
    }
    assert forall|v: int| 0 <= v < p1.len() && #[trigger] p1[v] is Some implies {
        &&& p1[v].unwrap().0 < d1.len()
        &&& d1[v] is Some
        &&& d1[p1[v].unwrap().0 as int] is Some
        &&& d1[v].unwrap().parts() == frac_mul(
            d1[p1[v].unwrap().0 as int].unwrap().parts(),
            hop_rate(g, p1[v].unwrap().0 as int, p1[v].unwrap().1 as int),
        )
    } by {
        if v == x {
            assert(d1[u as int] == dist[u as int]);
        } else {
            assert(p1[v] == prev[v]);
            assert(d1[v] == dist[v]);
            assert(visited[prev[v].unwrap().0 as int]);
            assert(d1[prev[v].unwrap().0 as int] == dist[prev[v].unwrap().0 as int]);
        }
    }
}

/// What settling keeps, for `s`, the destination `d` and the current
/// products `dist`, parent links `prev` and settled set `visited`:
/// products are positive and `s` has product one; a parent link's product
/// is the parent's times the hop's rate; every usable hop out of a settled
/// token other than `d` into an unsettled one is relaxed; and, with rates
/// at most one, a settled token's product is best among all pool walks.
#[verifier::opaque]
pub(crate) open spec fn best_inv(
    g: &Graph,
    s: int,
    d: int,
    dist: Seq<Option<Ratio>>,
    prev: Seq<Option<(usize, usize)>>,
    visited: Seq<bool>,
) -> bool {
    let n = g.tokens@.len();
    &&& dist.len() == n
    &&& prev.len() == n
    &&& visited.len() == n
    &&& 0 <= s < n
    &&& dist[s] is Some
    &&& dist[s].unwrap().parts() == (1nat, 1nat)
    &&& products_linked(g, dist, prev)
    &&& forall|x: int| 0 <= x < n && #[trigger] visited[x] ==> dist[x] is Some
    &&& forall|x: int, i: int|
        0 <= x < n && visited[x] && x != d && #[trigger] g.usable(x, i) && !visited[g.adj@[x]@[i].to as int]
            ==> dist[g.adj@[x]@[i].to as int] is Some && frac_le(
            frac_mul(dist[x].unwrap().parts(), hop_rate(g, x, g.adj@[x]@[i].pool as int)),
            dist[g.adj@[x]@[i].to as int].unwrap().parts(),
        )
    &&& rates_at_most_one(g) ==> forall|x: int|
        0 <= x < n && #[trigger] visited[x] ==> dist[x] is Some && best_at(g, s, x, dist[x].unwrap().parts())
}

/// Settling `u`, an unsettled reached token with the largest product among
/// unsettled ones, once `s` is settled: with rates at most one, no pool
/// walk from `s` to `u` beats `u`'s product.
pub(crate) proof fn lemma_settle_best(
    g: &Graph,
    s: int,
    d: int,
    dist: Seq<Option<Ratio>>,
    prev: Seq<Option<(usize, usize)>>,
    visited: Seq<bool>,
    u: int,
)
    requires
        g.wf(),
        best_inv(g, s, d, dist, prev, visited),
        rates_at_most_one(g),
        0 <= u < g.tokens@.len(),
        !visited[u],
        dist[u] is Some,
        d == u || visited[d] == false,
        forall|v: int|
            0 <= v < g.tokens@.len() && !visited[v] && #[trigger] dist[v] is Some ==> frac_le(
                dist[v].unwrap().parts(),
                dist[u].unwrap().parts(),
            ),
        visited[s] || u == s,
    ensures
        best_at(g, s, u, dist[u].unwrap().parts()),
{
    reveal(best_inv);
    let du = dist[u].unwrap().parts();
    assert forall|tp: Seq<usize>, ps: Seq<usize>| #[trigger] walk_to(g, tp, ps, s, u) implies frac_le(walk_rate(g, tp, ps), du) by {
        let m = ps.len();
        lemma_rate_tail(g, tp, ps, 0, m);
        if !visited[s] {
            assert(u == s);
            assert(route_rate(g.tokens@, g.pools@, tp, ps, 0) == (1nat, 1nat));
        } else {
            let k = lemma_first_unsettled(tp, visited);
            let x = tp[k - 1] as int;
            let y = tp[k] as int;
            let j = (k - 1) as nat;
            // the prefix to x is a walk to a settled token
            lemma_walk_prefix(g, tp, ps, s, u, j);
            let rj = route_rate(g.tokens@, g.pools@, tp, ps, j);
            assert(walk_to(g, tp.take(j + 1 as int), ps.take(j as int), s, x));
            assert(frac_le(rj, dist[x].unwrap().parts()));
            // the hop x -> y is relaxed
            assert(g.hop(tp[k - 1] as int, tp[k] as int, ps[k - 1] as int));
            let i = choose|i: int|
                #![trigger g.adj@[x]@[i]]
                g.usable(x, i) && g.adj@[x]@[i].to == y && g.adj@[x]@[i].pool == ps[k - 1] as int;
            assert(g.usable(x, i));
            assert(x != d);
            let r = hop_rate(g, x, ps[k - 1] as int);
            assert(frac_le(frac_mul(dist[x].unwrap().parts(), r), dist[y].unwrap().parts()));
            lemma_hop_rate_pos(g, x, y, ps[k - 1] as int);
            lemma_rate_tail(g, tp, ps, j, j);
            let rk = route_rate(g.tokens@, g.pools@, tp, ps, k as nat);
            assert(rk == frac_mul(rj, r));
            lemma_frac_mul_mono(rj, dist[x].unwrap().parts(), r);
            lemma_frac_mul_pos(dist[x].unwrap().parts(), r);
            lemma_frac_mul_pos(rj, r);
            lemma_frac_trans(rk, frac_mul(dist[x].unwrap().parts(), r), dist[y].unwrap().parts());
            // y is unsettled and reached, so its product is at most u's
            assert(frac_le(dist[y].unwrap().parts(), du));
            lemma_frac_trans(rk, dist[y].unwrap().parts(), du);
            // the rest of the walk does not raise the product
            lemma_rate_tail(g, tp, ps, k as nat, m);
            lemma_frac_trans(walk_rate(g, tp, ps), rk, du);
        }
    }
}

/// What `best_inv` gives the search loop: products of reached tokens are
/// positive.
pub(crate) proof fn lemma_best_inv_pos(
    g: &Graph,
    s: int,
    d: int,
    dist: Seq<Option<Ratio>>,
    prev: Seq<Option<(usize, usize)>>,
    visited: Seq<bool>,
)
    requires
        best_inv(g, s, d, dist, prev, visited),
    ensures
        products_linked(g, dist, prev),
        forall|v: int| 0 <= v < dist.len() && #[trigger] dist[v] is Some ==> frac_pos(dist[v].unwrap().parts()),
{
    reveal(best_inv);
}

/// The state before the first step: only `s` is reached, with product one,
/// nothing is settled and there are no parent links.
pub(crate) proof fn lemma_best_start(
    g: &Graph,
    s: int,
    d: int,
    dist: Seq<Option<Ratio>>,
    prev: Seq<Option<(usize, usize)>>,
    visited: Seq<bool>,
)
    requires
        0 <= s < g.tokens@.len(),
        dist.len() == g.tokens@.len(),
        prev.len() == g.tokens@.len(),
        visited.len() == g.tokens@.len(),
        dist[s] is Some,
        dist[s].unwrap().parts() == (1nat, 1nat),
        forall|v: int| 0 <= v < dist.len() && v != s ==> #[trigger] dist[v] is None,
        forall|v: int| 0 <= v < dist.len() ==> #[trigger] prev[v] is None,
        forall|v: int| 0 <= v < dist.len() ==> !#[trigger] visited[v],
    ensures
        best_inv(g, s, d, dist, prev, visited),
{
    reveal(best_inv);
    assert forall|v: int| 0 <= v < dist.len() && #[trigger] dist[v] is Some implies frac_pos(dist[v].unwrap().parts()) by {
        assert(v == s);
    }
}

/// What relaxing the edges out of the settled token `u`, whose product is
/// `du`, did to the products `dist0` and parent links: products stay
/// linked, settled tokens keep theirs, no product falls, and every usable
/// hop out of `u` into an unsettled token is relaxed.
#[verifier::opaque]
pub(crate) open spec fn relax_effects(
    g: &Graph,
    u: int,
    du: (nat, nat),
    dist0: Seq<Option<Ratio>>,
    dist1: Seq<Option<Ratio>>,
    prev1: Seq<Option<(usize, usize)>>,
    visited1: Seq<bool>,
) -> bool {
    &&& dist1.len() == dist0.len()
    &&& products_linked(g, dist1, prev1)
    &&& forall|v: int| 0 <= v < visited1.len() && visited1[v] ==> dist1[v] == dist0[v]
    &&& forall|v: int|
        0 <= v < visited1.len() && #[trigger] dist0[v] is Some ==> dist1[v] is Some && frac_le(
            dist0[v].unwrap().parts(),
            dist1[v].unwrap().parts(),
        )
    &&& forall|i: int|
        #[trigger] g.usable(u, i) && !visited1[g.adj@[u]@[i].to as int]
            ==> dist1[g.adj@[u]@[i].to as int] is Some && frac_le(
            frac_mul(du, hop_rate(g, u, g.adj@[u]@[i].pool as int)),
            dist1[g.adj@[u]@[i].to as int].unwrap().parts(),
        )
}

/// Settling `u` and, unless it is `d`, relaxing its edges keeps `best_inv`.
pub(crate) proof fn lemma_best_visit(
    g: &Graph,
    s: int,
    d: int,
    dist0: Seq<Option<Ratio>>,
    prev0: Seq<Option<(usize, usize)>>,
    visited0: Seq<bool>,
    dist1: Seq<Option<Ratio>>,
    prev1: Seq<Option<(usize, usize)>>,
    u: int,
)
    requires
        g.wf(),
        best_inv(g, s, d, dist0, prev0, visited0),
        0 <= u < g.tokens@.len(),
        dist0[u] is Some,
        visited0[s] || u == s,
        rates_at_most_one(g) ==> best_at(g, s, u, dist0[u].unwrap().parts()),
        u == d ==> dist1 == dist0 && prev1 == prev0,
        u != d ==> relax_effects(g, u, dist0[u].unwrap().parts(), dist0, dist1, prev1, visited0.update(u, true)),
        prev1.len() == prev0.len(),
    ensures
        best_inv(g, s, d, dist1, prev1, visited0.update(u, true)),
{
    reveal(best_inv);
    reveal(relax_effects);
    let visited1 = visited0.update(u, true);
    let n = g.tokens@.len() as int;
    assert forall|x: int| 0 <= x < n && #[trigger] visited1[x] implies dist1[x] is Some by {
        if x != u {
            assert(visited0[x]);
        }
    }
    if u != d {
        assert(dist1[u] == dist0[u]);
        assert(dist1[s] == dist0[s]);
        assert forall|x: int, i: int|
            0 <= x < n && visited1[x] && x != d && #[trigger] g.usable(x, i) && !visited1[g.adj@[x]@[i].to as int]
                implies dist1[g.adj@[x]@[i].to as int] is Some && frac_le(
                frac_mul(dist1[x].unwrap().parts(), hop_rate(g, x, g.adj@[x]@[i].pool as int)),
                dist1[g.adj@[x]@[i].to as int].unwrap().parts(),
            ) by {
            let t = g.adj@[x]@[i].to as int;
            g.lemma_adj_ok();
            assert(g.edge_ok(x, g.adj@[x]@[i]));
            if x != u {
                assert(visited0[x]);
                assert(dist1[x] == dist0[x]);
                let b = frac_mul(dist0[x].unwrap().parts(), hop_rate(g, x, g.adj@[x]@[i].pool as int));
                assert(frac_le(b, dist0[t].unwrap().parts()));
                assert(g.hop(x, t, g.adj@[x]@[i].pool as int));
                lemma_hop_rate_pos(g, x, t, g.adj@[x]@[i].pool as int);
                lemma_frac_mul_pos(dist0[x].unwrap().parts(), hop_rate(g, x, g.adj@[x]@[i].pool as int));
                lemma_frac_trans(b, dist0[t].unwrap().parts(), dist1[t].unwrap().parts());
            }
        }
        if rates_at_most_one(g) {
            assert forall|x: int| 0 <= x < n && #[trigger] visited1[x] implies dist1[x] is Some && best_at(
                g,
                s,
                x,
                dist1[x].unwrap().parts(),
            ) by {
                assert(dist1[x] == dist0[x]);
            }
        }
    } else {
        assert forall|x: int, i: int|
            0 <= x < n && visited1[x] && x != d && #[trigger] g.usable(x, i) && !visited1[g.adj@[x]@[i].to as int]
                implies dist1[g.adj@[x]@[i].to as int] is Some && frac_le(
                frac_mul(dist1[x].unwrap().parts(), hop_rate(g, x, g.adj@[x]@[i].pool as int)),
                dist1[g.adj@[x]@[i].to as int].unwrap().parts(),
            ) by {
            assert(visited0[x]);
            g.lemma_adj_ok();
            assert(g.edge_ok(x, g.adj@[x]@[i]));
            assert(!visited0[g.adj@[x]@[i].to as int]);
        }
        if rates_at_most_one(g) {
            assert forall|x: int| 0 <= x < n && #[trigger] visited1[x] implies dist1[x] is Some && best_at(
                g,
                s,
                x,
                dist1[x].unwrap().parts(),
            ) by {
                if x != u {
                    assert(visited0[x]);
                }
            }
        }
    }
}

/// The token path `tp` carries a pool choice whose marginal-rate product
/// no pool walk from `s` to `d` beats.
pub open spec fn best_route(g: &Graph, tp: Seq<usize>, s: int, d: int) -> bool {
    exists|ps: Seq<usize>| #[trigger] walk_to(g, tp, ps, s, d) && best_at(g, s, d, walk_rate(g, tp, ps))
}

/// Along the parent chain from `s` to `d`, the rate product of the first
/// `j` hops is the product recorded for the `j`-th token.
proof fn lemma_chain_rate(
    g: &Graph,
    s: int,
    d: int,
    dv: Seq<Option<Ratio>>,
    prev: Seq<Option<(usize, usize)>>,
    k: nat,
    tp: Seq<usize>,
    ps: Seq<usize>,
    j: nat,
)
    requires
        products_linked(g, dv, prev),
        dv[s] is Some,
        dv[s].unwrap().parts() == (1nat, 1nat),
        chain_reaches(prev, s, d, k),
        tp.len() == k + 1,
        ps.len() == k,
        forall|i: int| 0 <= i <= k ==> tp[i] as int == walk_back(prev, d, (k - i) as nat),
        forall|i: int| 0 <= i < k ==> ps[i] == prev[walk_back(prev, d, (k - 1 - i) as nat)].unwrap().1,
        j <= k,
    ensures
        dv[tp[j as int] as int] is Some,
        route_rate(g.tokens@, g.pools@, tp, ps, j) == dv[tp[j as int] as int].unwrap().parts(),
    decreases j,
{
    if j == 0 {
        assert(tp[0] as int == walk_back(prev, d, k));
    } else {
        lemma_chain_rate(g, s, d, dv, prev, k, tp, ps, (j - 1) as nat);
        let c = walk_back(prev, d, (k - j) as nat);
        assert(tp[j as int] as int == c);
        assert(k - j < k);
        assert(0 <= c < prev.len() && prev[c] is Some) by {
            let jj = (k - j) as nat;
            assert(jj < k);
            let cc = walk_back(prev, d, jj);
            assert(0 <= cc < prev.len() && prev[cc] is Some && cc != s);
        }
        assert(tp[j - 1] as int == walk_back(prev, d, (k - (j - 1)) as nat));
        assert(walk_back(prev, d, (k - (j - 1)) as nat) == prev[c].unwrap().0 as int);
        assert(ps[j - 1] == prev[c].unwrap().1);
    }
}

/// The route rebuilt from the parent links of a finished search that
/// settled `d` is a pool walk from `s` to `d`, and with rates at most one
/// it carries the best marginal-rate product.
pub(crate) proof fn lemma_chain_best(
    g: &Graph,
    s: int,
    d: int,
    dv: Seq<Option<Ratio>>,
    prev: Seq<Option<(usize, usize)>>,
    visited: Seq<bool>,
    k: nat,
    tp: Seq<usize>,
    ps: Seq<usize>,
)
    requires
        g.wf(),
        best_inv(g, s, d, dv, prev, visited),
        0 <= d < g.tokens@.len(),
        visited[d],
        chain_reaches(prev, s, d, k),
        tp.len() == k + 1,
        ps.len() == k,
        forall|i: int| 0 <= i <= k ==> tp[i] as int == walk_back(prev, d, (k - i) as nat),
        forall|i: int| 0 <= i < k ==> ps[i] == prev[walk_back(prev, d, (k - 1 - i) as nat)].unwrap().1,
        forall|c: int|
            0 <= c < prev.len() && #[trigger] prev[c] is Some ==> g.hop(
                prev[c].unwrap().0 as int,
                c,
                prev[c].unwrap().1 as int,
            ) && prev[c].unwrap().0 < prev.len(),
    ensures
        walk_to(g, tp, ps, s, d),
        rates_at_most_one(g) ==> best_route(g, tp, s, d),
{
    reveal(best_inv);
    assert forall|i: int| 0 <= i < tp.len() implies #[trigger] tp[i] < g.tokens@.len() by {
        let jj = (k - i) as nat;
        if jj < k {
            let cc = walk_back(prev, d, jj);
            assert(0 <= cc < prev.len());
        } else {
            assert(walk_back(prev, d, jj) == s);
        }
    }
    assert forall|i: int| 0 <= i < ps.len() implies g.hop(#[trigger] tp[i] as int, tp[i + 1] as int, ps[i] as int) by {
        let jj = (k - 1 - i) as nat;
        let c = walk_back(prev, d, jj);
        assert(jj < k);
        assert(0 <= c < prev.len() && prev[c] is Some);
        assert(tp[i + 1] as int == c);
        assert(tp[i] as int == walk_back(prev, d, (jj + 1) as nat));
    }
    assert(tp[0] as int == walk_back(prev, d, k));
    assert(tp.last() as int == walk_back(prev, d, 0));
    lemma_chain_rate(g, s, d, dv, prev, k, tp, ps, k);
    if rates_at_most_one(g) {
        assert(best_at(g, s, d, dv[d].unwrap().parts()));
        assert(walk_to(g, tp, ps, s, d));
    }
}

} // verus!
