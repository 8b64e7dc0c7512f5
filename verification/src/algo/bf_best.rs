//! How close Bellman-Ford's route comes to the best rate product. Once no
//! edge relaxes, a token's best product falls short of what any route of
//! `m` hops offers it by at most the tolerance factor to the power `m`, and
//! the parent path to it carries at least its best product; so the parent
//! path's rate product is within that factor of every route's.
use crate::algo::bellman_ford::{parent_path, TOLERANCE_DEN, TOLERANCE_NUM};
use crate::algo::bf_gain::{gains_ok, hop_rate, lemma_hop_rate_pos};
use crate::algo::bf_sweeps::{any_relaxable, dist_view, offer, relaxable};
use crate::algo::path::{chain_len, chain_reaches, lemma_chain_len_unique, route_rate, walk_back};
use crate::graph::Graph;
use crate::ratio::{frac_le, frac_mul, frac_pos, lemma_frac_mul_mono, lemma_frac_mul_pos, lemma_frac_trans, Ratio};
use vstd::prelude::*;

verus! {

/// The tolerance factor `1 + 10⁻¹⁰` to the power `k`, as a fraction.
pub open spec fn tol_pow(k: nat) -> (nat, nat)
    decreases k,
{
    if k == 0 {
        (1, 1)
    } else {
        frac_mul(tol_pow((k - 1) as nat), (TOLERANCE_NUM as nat, TOLERANCE_DEN as nat))
    }
}

/// `tw` is a route along usable edges, hop `j` through pool `cw[j]`.
pub open spec fn hops_along(g: &Graph, tw: Seq<usize>, cw: Seq<usize>) -> bool {
    &&& tw.len() == cw.len() + 1
    &&& forall|j: int| 0 <= j < cw.len() ==> g.hop(#[trigger] tw[j] as int, tw[j + 1] as int, cw[j] as int)
}

/// The pools of the parent links along the parent path from `s` to `d`.
pub open spec fn parent_pools(prev: Seq<Option<(usize, usize)>>, s: int, d: int) -> Seq<usize> {
    let k = chain_len(prev, s, d);
    Seq::new(k, |i: int| prev[walk_back(prev, d, (k - 1 - i) as nat)].unwrap().1)
}

/// The parent path from `si` to `di`, through its parent pools, has a rate
/// product at least that of every route of `m` hops from `si` to `di`
/// divided by the tolerance factor to the power `m`.
pub open spec fn near_best(g: &Graph, si: int, di: int, pv: Seq<Option<(usize, usize)>>) -> bool {
    forall|tw: Seq<usize>, cw: Seq<usize>|
        #[trigger] hops_along(g, tw, cw) && tw[0] == si && tw.last() == di ==> frac_le(
            route_rate(g.tokens@, g.pools@, tw, cw, cw.len()),
            frac_mul(
                route_rate(g.tokens@, g.pools@, parent_path(pv, si, di), parent_pools(pv, si, di), chain_len(pv, si, di)),
                tol_pow(cw.len()),
            ),
        )
}

/// `a · b · c` regrouped as `(a · c) · b`.
proof fn lemma_frac_swap(a: (nat, nat), b: (nat, nat), c: (nat, nat))
    ensures
        frac_mul(frac_mul(a, b), c) == frac_mul(frac_mul(a, c), b),
        frac_mul(a, frac_mul(b, c)) == frac_mul(frac_mul(a, b), c),
{
    assert((a.0 * b.0) * c.0 == (a.0 * c.0) * b.0) by (nonlinear_arith);
    assert((a.1 * b.1) * c.1 == (a.1 * c.1) * b.1) by (nonlinear_arith);
    assert(a.0 * (b.0 * c.0) == (a.0 * b.0) * c.0) by (nonlinear_arith);
    assert(a.1 * (b.1 * c.1) == (a.1 * b.1) * c.1) by (nonlinear_arith);
}

/// A positive common factor cancels from both sides of `<=`.
proof fn lemma_frac_cancel(a: (nat, nat), x: (nat, nat), y: (nat, nat))
    requires
        frac_pos(a),
        frac_le(frac_mul(a, x), frac_mul(a, y)),
    ensures
        frac_le(x, y),
{
    let (a0, a1, x0, x1, y0, y1) = (a.0 as int, a.1 as int, x.0 as int, x.1 as int, y.0 as int, y.1 as int);
    assert((a0 * a1) * (x0 * y1) <= (a0 * a1) * (y0 * x1)) by (nonlinear_arith)
        requires (a0 * x0) * (a1 * y1) <= (a0 * y0) * (a1 * x1);
    assert(x0 * y1 <= y0 * x1) by (nonlinear_arith)
        requires (a0 * a1) * (x0 * y1) <= (a0 * a1) * (y0 * x1), a0 > 0, a1 > 0;
}

/// The tolerance powers are positive.
proof fn lemma_tol_pow_pos(k: nat)
    ensures
        frac_pos(tol_pow(k)),
    decreases k,
{
    if k > 0 {
        lemma_tol_pow_pos((k - 1) as nat);
        lemma_frac_mul_pos(tol_pow((k - 1) as nat), (TOLERANCE_NUM as nat, TOLERANCE_DEN as nat));
    }
}

/// With no edge relaxing, walking the route `tw` from a token with a best
/// product reaches tokens with best products, and after `j` hops the start's
/// best product times the route's rate is at most the reached token's best
/// product times the tolerance factor to the power `j`.
proof fn lemma_walk_bound(g: &Graph, dv: Seq<Option<(nat, nat)>>, tw: Seq<usize>, cw: Seq<usize>, j: nat)
    requires
        g.wf(),
        dv.len() == g.tokens@.len(),
        !any_relaxable(g, dv),
        forall|v: int| 0 <= v < dv.len() && #[trigger] dv[v] is Some ==> frac_pos(dv[v].unwrap()),
        hops_along(g, tw, cw),
        0 <= tw[0] < g.tokens@.len(),
        dv[tw[0] as int] is Some,
        j <= cw.len(),
    ensures
        0 <= tw[j as int] < g.tokens@.len(),
        dv[tw[j as int] as int] is Some,
        frac_pos(route_rate(g.tokens@, g.pools@, tw, cw, j)),
        frac_le(
            frac_mul(dv[tw[0] as int].unwrap(), route_rate(g.tokens@, g.pools@, tw, cw, j)),
            frac_mul(dv[tw[j as int] as int].unwrap(), tol_pow(j)),
        ),
    decreases j,
{
    let a = dv[tw[0] as int].unwrap();
    if j == 0 {
        assert(frac_le(frac_mul(a, (1, 1)), frac_mul(a, (1, 1))));
    } else {
        let m = (j - 1) as nat;
        lemma_walk_bound(g, dv, tw, cw, m);
        let u = tw[m as int] as int;
        let v = tw[j as int] as int;
        let p = cw[m as int] as int;
        assert(g.hop(u, v, p));
        let i = choose|i: int| #![trigger g.adj@[u]@[i]] g.usable(u, i) && g.adj@[u]@[i].to == v && g.adj@[u]@[i].pool == p;
        assert(!relaxable(g, dv, u, i));
        g.lemma_adj_ok();
        assert(g.edge_ok(u, g.adj@[u]@[i]));
        let du = dv[u].unwrap();
        let h = hop_rate(g, u, p);
        lemma_hop_rate_pos(g, u, v, p);
        let o = offer(g, dv, u, i);
        assert(o == frac_mul(du, h));
        assert(dv[v] is Some);
        let c = dv[v].unwrap();
        let f = (TOLERANCE_NUM as nat, TOLERANCE_DEN as nat);
        let rm = route_rate(g.tokens@, g.pools@, tw, cw, m);
        let pm = tol_pow(m);
        assert(route_rate(g.tokens@, g.pools@, tw, cw, j) == frac_mul(rm, h));
        lemma_frac_mul_pos(rm, h);
        lemma_tol_pow_pos(m);
        lemma_tol_pow_pos(j);
        lemma_frac_mul_pos(du, h);
        // a·(rm·h) = (a·rm)·h ≤ (du·pm)·h = (du·h)·pm = o·pm
        lemma_frac_swap(a, rm, h);
        lemma_frac_mul_mono(frac_mul(a, rm), frac_mul(du, pm), h);
        lemma_frac_swap(du, pm, h);
        // o ≤ c·f, so o·pm ≤ (c·f)·pm = c·(pm·f)
        let (o0, o1, c0, c1, fnm, fdn) = (o.0 as int, o.1 as int, c.0 as int, c.1 as int, TOLERANCE_NUM as int, TOLERANCE_DEN as int);
        assert(o0 * c1 * fdn <= c0 * o1 * fnm);
        assert(o0 * (c1 * fdn) <= (c0 * fnm) * o1) by (nonlinear_arith)
            requires
                o0 * c1 * fdn <= c0 * o1 * fnm,
        ;
        assert(frac_le(o, frac_mul(c, f)));
        lemma_frac_mul_mono(o, frac_mul(c, f), pm);
        lemma_frac_swap(c, f, pm);
        lemma_frac_swap(c, pm, f);
        assert(frac_mul(frac_mul(c, f), pm) == frac_mul(c, tol_pow(j)));
        lemma_frac_mul_pos(a, frac_mul(rm, h));
        lemma_frac_mul_pos(frac_mul(du, h), pm);
        lemma_frac_mul_pos(c, tol_pow(j));
        assert(frac_pos(du));
        lemma_frac_mul_pos(du, pm);
        lemma_frac_mul_pos(frac_mul(du, pm), h);
        lemma_frac_trans(
            frac_mul(a, frac_mul(rm, h)),
            frac_mul(frac_mul(du, h), pm),
            frac_mul(c, tol_pow(j)),
        );
    }
}

/// Along the parent path from `s` to `d`, each token's best product is at
/// most the source's times the rate of the path up to it.
proof fn lemma_chain_bound(
    g: &Graph,
    dist: Seq<Option<Ratio>>,
    prev: Seq<Option<(usize, usize)>>,
    t: Seq<nat>,
    clock: nat,
    s: int,
    d: int,
    j: nat,
)
    requires
        g.wf(),
        dist.len() == g.tokens@.len(),
        gains_ok(g, dist, prev, t, clock),
        forall|v: int|
            0 <= v < prev.len() && #[trigger] prev[v] is Some ==> prev[v].unwrap().0 < prev.len() && g.hop(
                prev[v].unwrap().0 as int,
                v,
                prev[v].unwrap().1 as int,
            ),
        0 <= s < dist.len(),
        dist[s] is Some,
        chain_reaches(prev, s, d, chain_len(prev, s, d)),
        j <= chain_len(prev, s, d),
    ensures
        ({
            let tp = parent_path(prev, s, d);
            let pp = parent_pools(prev, s, d);
            &&& 0 <= tp[j as int] < dist.len()
            &&& (j < chain_len(prev, s, d) || dist[d] is Some) ==> dist[tp[j as int] as int] is Some
            &&& frac_pos(route_rate(g.tokens@, g.pools@, tp, pp, j))
            &&& dist[tp[j as int] as int] is Some ==> frac_le(
                dist[tp[j as int] as int].unwrap().parts(),
                frac_mul(dist[s].unwrap().parts(), route_rate(g.tokens@, g.pools@, tp, pp, j)),
            )
        }),
    decreases j,
{
    let k = chain_len(prev, s, d);
    let tp = parent_path(prev, s, d);
    let pp = parent_pools(prev, s, d);
    let ds = dist[s].unwrap().parts();
    if j == 0 {
        assert(tp[0] as int == walk_back(prev, d, k));
        assert(frac_le(ds, frac_mul(ds, (1, 1))));
        if k > 0 {
            let c = walk_back(prev, d, (k - 1) as nat);
            assert(prev[c] is Some);
        }
    } else {
        let m = (j - 1) as nat;
        lemma_chain_bound(g, dist, prev, t, clock, s, d, m);
        let c = walk_back(prev, d, (k - j) as nat);
        assert(0 <= c < prev.len() && prev[c] is Some);
        assert(walk_back(prev, d, (k - m) as nat) == prev[c].unwrap().0 as int);
        let u = tp[m as int] as int;
        let v = tp[j as int] as int;
        assert(v == c);
        assert(u == prev[c].unwrap().0 as int);
        let p = pp[m as int] as int;
        assert(p == prev[c].unwrap().1 as int);
        assert(g.hop(u, v, p));
        lemma_hop_rate_pos(g, u, v, p);
        let h = hop_rate(g, u, p);
        let rm = route_rate(g.tokens@, g.pools@, tp, pp, m);
        assert(route_rate(g.tokens@, g.pools@, tp, pp, j) == frac_mul(rm, h));
        lemma_frac_mul_pos(rm, h);
        assert(dist[u] is Some);
        if dist[v] is Some {
            let dvv = dist[v].unwrap().parts();
            let du = dist[u].unwrap().parts();
            assert(frac_le(dvv, frac_mul(du, h)));
            lemma_frac_mul_mono(du, frac_mul(ds, rm), h);
            lemma_frac_swap(ds, rm, h);
            assert(frac_pos(ds));
            assert(frac_pos(du));
            lemma_frac_mul_pos(du, h);
            lemma_frac_mul_pos(ds, rm);
            lemma_frac_mul_pos(frac_mul(ds, rm), h);
            lemma_frac_trans(dvv, frac_mul(du, h), frac_mul(frac_mul(ds, rm), h));
        }
        if j < k {
            let c2 = walk_back(prev, d, (k - j - 1) as nat);
            assert(prev[c2] is Some);
            assert(walk_back(prev, d, (k - j) as nat) == prev[c2].unwrap().0 as int);
        }
    }
}

/// Once no edge relaxes, the parent path from `s` to a token `d` with a
/// best product whose parent walk meets `s` is within the tolerance of the
/// best rate product of every route from `s` to `d`.
pub(crate) proof fn lemma_near_best(
    g: &Graph,
    dist: Seq<Option<Ratio>>,
    prev: Seq<Option<(usize, usize)>>,
    t: Seq<nat>,
    clock: nat,
    s: int,
    d: int,
    k: nat,
)
    requires
        g.wf(),
        dist.len() == g.tokens@.len(),
        gains_ok(g, dist, prev, t, clock),
        forall|v: int|
            0 <= v < prev.len() && #[trigger] prev[v] is Some ==> prev[v].unwrap().0 < prev.len() && g.hop(
                prev[v].unwrap().0 as int,
                v,
                prev[v].unwrap().1 as int,
            ),
        !any_relaxable(g, dist_view(dist)),
        0 <= s < dist.len(),
        dist[s] is Some,
        0 <= d < dist.len(),
        dist[d] is Some,
        chain_reaches(prev, s, d, k),
    ensures
        near_best(g, s, d, prev),
{
    lemma_chain_len_unique(prev, s, d, k, chain_len(prev, s, d));
    let kk = chain_len(prev, s, d);
    let tp = parent_path(prev, s, d);
    let pp = parent_pools(prev, s, d);
    lemma_chain_bound(g, dist, prev, t, clock, s, d, kk);
    assert(tp[kk as int] as int == d);
    let dv = dist_view(dist);
    assert forall|v: int| 0 <= v < dv.len() && #[trigger] dv[v] is Some implies frac_pos(dv[v].unwrap()) by {
        assert(dist[v] is Some);
    }
    let ds = dist[s].unwrap().parts();
    let dd = dist[d].unwrap().parts();
    let cr = route_rate(g.tokens@, g.pools@, tp, pp, kk);
    assert forall|tw: Seq<usize>, cw: Seq<usize>|
        #[trigger] hops_along(g, tw, cw) && tw[0] == s && tw.last() == d implies frac_le(
            route_rate(g.tokens@, g.pools@, tw, cw, cw.len()),
            frac_mul(cr, tol_pow(cw.len())),
        ) by {
        let m = cw.len();
        lemma_walk_bound(g, dv, tw, cw, m);
        assert(tw[m as int] == tw.last());
        let w = route_rate(g.tokens@, g.pools@, tw, cw, m);
        let pm = tol_pow(m);
        lemma_tol_pow_pos(m);
        // ds·w ≤ dd·pm ≤ (ds·cr)·pm = ds·(cr·pm)
        lemma_frac_mul_mono(dd, frac_mul(ds, cr), pm);
        lemma_frac_swap(ds, cr, pm);
        lemma_frac_mul_pos(ds, w);
        lemma_frac_mul_pos(dd, pm);
        lemma_frac_mul_pos(ds, cr);
        lemma_frac_mul_pos(frac_mul(ds, cr), pm);
        lemma_frac_trans(frac_mul(ds, w), frac_mul(dd, pm), frac_mul(frac_mul(ds, cr), pm));
        lemma_frac_cancel(ds, w, frac_mul(cr, pm));
    }
}

} // verus!
