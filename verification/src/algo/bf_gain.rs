//! Why a cycle of Bellman-Ford parent links gains value.
//!
//! Every improvement of a best product is kept with the step at which it
//! happened. A token's product never exceeds its parent's times the hop's
//! rate, and where it equals it, the parent's last improvement came first.
//! Around a closed loop of parent links these steps cannot all increase, so
//! some hop is strict and the loop's rate product exceeds one.
use crate::algo::bellman_ford::links_ok;
use crate::algo::closed;
use crate::algo::path::route_rate;
use crate::graph::Graph;
use crate::pool::FEE_DENOM;
use crate::ratio::{
    frac_le, frac_lt, frac_mul, frac_pos, lemma_frac_gain, lemma_frac_mul_assoc,
    lemma_frac_mul_mono, lemma_frac_mul_pos, lemma_frac_trans, Ratio,
};
use vstd::prelude::*;

verus! {

/// Marginal rate of pool `p` selling token `u`, as a fraction.
pub open spec fn hop_rate(g: &Graph, u: int, p: int) -> (nat, nat) {
    (g.pools@[p].rate_num(g.tokens@[u].address), g.pools@[p].rate_den(g.tokens@[u].address))
}

/// The parent link `(u, p)` of `v`: the parent is reached, and `v`'s best
/// product is at most the parent's times the hop's rate; where it is not
/// below it, the parent's last improvement came before `v`'s.
pub(crate) open spec fn parent_gain(
    g: &Graph,
    dist: Seq<Option<Ratio>>,
    t: Seq<nat>,
    v: int,
    u: int,
    p: int,
) -> bool {
    &&& 0 <= u < dist.len()
    &&& dist[u] is Some
    &&& dist[v] is Some ==> {
        let bound = frac_mul(dist[u].unwrap().parts(), hop_rate(g, u, p));
        &&& frac_le(dist[v].unwrap().parts(), bound)
        &&& !frac_lt(dist[v].unwrap().parts(), bound) ==> t[u] < t[v]
    }
}

/// What the sweeps keep, with `t[v]` the step at which `v`'s best product
/// last rose and `clock` the latest step: reached tokens have positive
/// products and every parent link satisfies `parent_gain`.
pub(crate) open spec fn gains_ok(
    g: &Graph,
    dist: Seq<Option<Ratio>>,
    prev: Seq<Option<(usize, usize)>>,
    t: Seq<nat>,
    clock: nat,
) -> bool {
    &&& t.len() == dist.len()
    &&& prev.len() == dist.len()
    &&& forall|v: int| 0 <= v < t.len() ==> #[trigger] t[v] <= clock
    &&& forall|v: int|
        0 <= v < dist.len() && #[trigger] dist[v] is Some ==> frac_pos(dist[v].unwrap().parts())
    &&& forall|v: int|
        0 <= v < prev.len() && #[trigger] prev[v] is Some ==> parent_gain(
            g,
            dist,
            t,
            v,
            prev[v].unwrap().0 as int,
            prev[v].unwrap().1 as int,
        )
}

/// A usable hop has a positive rate.
pub(crate) proof fn lemma_hop_rate_pos(g: &Graph, u: int, v: int, p: int)
    requires
        g.wf(),
        g.hop(u, v, p),
    ensures
        frac_pos(hop_rate(g, u, p)),
{
    g.lemma_adj_ok();
    let i = choose|i: int|
        #![trigger g.adj@[u]@[i]]
        g.usable(u, i) && g.adj@[u]@[i].to == v && g.adj@[u]@[i].pool == p;
    assert(g.edge_ok(u, g.adj@[u]@[i]));
    let pool = g.pools@[p];
    let a = g.tokens@[u].address;
    let r_in = pool.reserves_spec(a).0.val() as int;
    let r_out = pool.reserves_spec(a).1.val() as int;
    let f = (FEE_DENOM - pool.fee_bps) as int;
    assert(r_out * f > 0) by (nonlinear_arith)
        requires r_out > 0, f > 0;
    assert(r_in * (FEE_DENOM as int) > 0) by (nonlinear_arith)
        requires r_in > 0;
}

/// Raising token `x` to the product `nd` through its new parent `(u, p)`,
/// at the next step, keeps `gains_ok`.
pub(crate) proof fn lemma_gains_raise(
    g: &Graph,
    dist: Seq<Option<Ratio>>,
    prev: Seq<Option<(usize, usize)>>,
    t: Seq<nat>,
    clock: nat,
    x: int,
    u: usize,
    p: usize,
    nd: Ratio,
)
    requires
        g.wf(),
        gains_ok(g, dist, prev, t, clock),
        links_ok(g, prev),
        0 <= x < dist.len(),
        u < dist.len(),
        u != x,
        dist[u as int] is Some,
        g.hop(u as int, x, p as int),
        nd.parts() == frac_mul(dist[u as int].unwrap().parts(), hop_rate(g, u as int, p as int)),
        dist[x] is Some ==> frac_lt(dist[x].unwrap().parts(), nd.parts()),
    ensures
        gains_ok(
            g,
            dist.update(x, Some(nd)),
            prev.update(x, Some((u, p))),
            t.update(x, clock + 1),
            clock + 1,
        ),
{
    let d1 = dist.update(x, Some(nd));
    let p1 = prev.update(x, Some((u, p)));
    let t1 = t.update(x, clock + 1);
    lemma_hop_rate_pos(g, u as int, x, p as int);
    lemma_frac_mul_pos(dist[u as int].unwrap().parts(), hop_rate(g, u as int, p as int));
    assert forall|v: int| 0 <= v < d1.len() && #[trigger] d1[v] is Some implies frac_pos(d1[v].unwrap().parts()) by {
        if v != x {
            assert(d1[v] == dist[v]);
        }
    }
    assert forall|v: int| 0 <= v < p1.len() && #[trigger] p1[v] is Some implies parent_gain(
        g,
        d1,
        t1,
        v,
        p1[v].unwrap().0 as int,
        p1[v].unwrap().1 as int,
    ) by {
        if v == x {
            assert(d1[u as int] == dist[u as int]);
            assert(t1[u as int] == t[u as int]);
        } else {
            assert(p1[v] == prev[v]);
            let w = prev[v].unwrap().0 as int;
            let q = prev[v].unwrap().1 as int;
            assert(parent_gain(g, dist, t, v, w, q));
            assert(d1[v] == dist[v]);
            assert(t1[v] == t[v]);
            if w == x {
                if dist[v] is Some {
                    let c = dist[x].unwrap().parts();
                    let r = hop_rate(g, x, q);
                    assert(g.hop(w, v, q));
                    lemma_hop_rate_pos(g, x, v, q);
                    assert(frac_lt(c, nd.parts()));
                    assert(frac_le(c, nd.parts()));
                    lemma_frac_mul_mono(c, nd.parts(), r);
                    lemma_frac_mul_pos(c, r);
                    lemma_frac_mul_pos(nd.parts(), r);
                    lemma_frac_trans(dist[v].unwrap().parts(), frac_mul(c, r), frac_mul(nd.parts(), r));
                }
            } else {
                assert(d1[w] == dist[w]);
                assert(t1[w] == t[w]);
            }
        }
    }
}

/// Pointing token `x` at a parent `(u, p)` whose product times the hop's
/// rate is strictly above `x`'s, without changing products, keeps
/// `gains_ok`.
pub(crate) proof fn lemma_gains_repoint(
    g: &Graph,
    dist: Seq<Option<Ratio>>,
    prev: Seq<Option<(usize, usize)>>,
    t: Seq<nat>,
    clock: nat,
    x: int,
    u: usize,
    p: usize,
)
    requires
        gains_ok(g, dist, prev, t, clock),
        0 <= x < dist.len(),
        u < dist.len(),
        dist[u as int] is Some,
        dist[x] is Some ==> frac_lt(
            dist[x].unwrap().parts(),
            frac_mul(dist[u as int].unwrap().parts(), hop_rate(g, u as int, p as int)),
        ),
    ensures
        gains_ok(g, dist, prev.update(x, Some((u, p))), t, clock),
{
    let p1 = prev.update(x, Some((u, p)));
    assert forall|v: int| 0 <= v < p1.len() && #[trigger] p1[v] is Some implies parent_gain(
        g,
        dist,
        t,
        v,
        p1[v].unwrap().0 as int,
        p1[v].unwrap().1 as int,
    ) by {
        if v != x {
            assert(p1[v] == prev[v]);
        }
    }
}

/// The `k`-th token of the closed loop `cn`.
spec fn loop_at(cn: Seq<usize>, k: int) -> int {
    closed(cn)[k] as int
}

/// Best product of the `k`-th token of the closed loop.
spec fn loop_dist(dist: Seq<Option<Ratio>>, cn: Seq<usize>, k: int) -> (nat, nat) {
    dist[loop_at(cn, k)].unwrap().parts()
}

/// The hop out of the `i`-th token of the loop is strict.
spec fn loop_strict(g: &Graph, dist: Seq<Option<Ratio>>, cn: Seq<usize>, cp: Seq<usize>, i: int) -> bool {
    frac_lt(
        loop_dist(dist, cn, i + 1),
        frac_mul(loop_dist(dist, cn, i), hop_rate(g, cn[i] as int, cp[i] as int)),
    )
}

/// `cn` with pools `cp` is a closed loop of parent links.
spec fn parent_loop(
    g: &Graph,
    dist: Seq<Option<Ratio>>,
    prev: Seq<Option<(usize, usize)>>,
    t: Seq<nat>,
    clock: nat,
    cn: Seq<usize>,
    cp: Seq<usize>,
) -> bool {
    &&& g.wf()
    &&& gains_ok(g, dist, prev, t, clock)
    &&& links_ok(g, prev)
    &&& prev.len() == g.tokens@.len()
    &&& cn.len() == cp.len()
    &&& cn.len() >= 1
    &&& forall|i: int| 0 <= i < cn.len() ==> #[trigger] cn[i] < g.tokens@.len()
    &&& forall|i: int|
        0 <= i < cn.len() ==> prev[loop_at(cn, i + 1)] == Some((#[trigger] cn[i], cp[i]))
}

/// Every token of a parent loop is reached, and each hop satisfies the
/// parent bound.
proof fn lemma_loop_hop(
    g: &Graph,
    dist: Seq<Option<Ratio>>,
    prev: Seq<Option<(usize, usize)>>,
    t: Seq<nat>,
    clock: nat,
    cn: Seq<usize>,
    cp: Seq<usize>,
    i: int,
)
    requires
        parent_loop(g, dist, prev, t, clock, cn, cp),
        0 <= i < cn.len(),
    ensures
        dist[cn[i] as int] is Some,
        dist[loop_at(cn, i)] is Some,
        dist[loop_at(cn, i + 1)] is Some,
        loop_at(cn, i) == cn[i] as int,
        frac_pos(loop_dist(dist, cn, i)),
        frac_pos(loop_dist(dist, cn, i + 1)),
        frac_pos(hop_rate(g, cn[i] as int, cp[i] as int)),
        frac_le(
            loop_dist(dist, cn, i + 1),
            frac_mul(loop_dist(dist, cn, i), hop_rate(g, cn[i] as int, cp[i] as int)),
        ),
        !loop_strict(g, dist, cn, cp, i) ==> t[cn[i] as int] < t[loop_at(cn, i + 1)],
{
    let m = cn.len() as int;
    let v = loop_at(cn, i + 1);
    assert(prev[v] == Some((cn[i], cp[i])));
    assert(0 <= v < prev.len()) by {
        if i + 1 < m {
            assert(closed(cn)[i + 1] == cn[i + 1]);
        } else {
            assert(closed(cn)[i + 1] == cn[0]);
        }
    }
    assert(prev[v] is Some);
    assert(parent_gain(g, dist, t, v, cn[i] as int, cp[i] as int));
    assert(closed(cn)[i] == cn[i]);
    // the token after v is a child of v, so v is reached too
    let j = if i + 1 < m { i + 1 } else { 0 };
    assert(cn[j] as int == v) by {
        if i + 1 < m {
            assert(closed(cn)[i + 1] == cn[i + 1]);
        } else {
            assert(closed(cn)[i + 1] == cn[0]);
        }
    }
    let w = loop_at(cn, j + 1);
    assert(prev[w] == Some((cn[j], cp[j])));
    assert(0 <= w < prev.len()) by {
        if j + 1 < m {
            assert(closed(cn)[j + 1] == cn[j + 1]);
        } else {
            assert(closed(cn)[j + 1] == cn[0]);
        }
    }
    assert(prev[w] is Some);
    assert(parent_gain(g, dist, t, w, cn[j] as int, cp[j] as int));
    assert(dist[v] is Some);
    assert(links_ok(g, prev));
    assert(g.hop(cn[i] as int, v, cp[i] as int));
    lemma_hop_rate_pos(g, cn[i] as int, v, cp[i] as int);
}

/// Some hop among the first `k` of the loop is strict.
spec fn any_strict(g: &Graph, dist: Seq<Option<Ratio>>, cn: Seq<usize>, cp: Seq<usize>, k: nat) -> bool
    decreases k,
{
    if k == 0 {
        false
    } else {
        any_strict(g, dist, cn, cp, (k - 1) as nat) || loop_strict(g, dist, cn, cp, k - 1)
    }
}

/// One more hop: from `e_j <= e_0 * p` and `e_k <= e_j * r` follows
/// `e_k <= e_0 * (p * r)`, strictly if either step is strict.
proof fn lemma_loop_extend(e0: (nat, nat), ej: (nat, nat), ek: (nat, nat), pj: (nat, nat), r: (nat, nat))
    requires
        frac_pos(e0),
        frac_pos(ej),
        frac_pos(ek),
        frac_pos(pj),
        frac_pos(r),
        frac_le(ej, frac_mul(e0, pj)),
        frac_le(ek, frac_mul(ej, r)),
    ensures
        frac_pos(frac_mul(pj, r)),
        frac_le(ek, frac_mul(e0, frac_mul(pj, r))),
        (frac_lt(ej, frac_mul(e0, pj)) || frac_lt(ek, frac_mul(ej, r))) ==> frac_lt(
            ek,
            frac_mul(e0, frac_mul(pj, r)),
        ),
{
    lemma_frac_mul_mono(ej, frac_mul(e0, pj), r);
    lemma_frac_mul_assoc(e0, pj, r);
    lemma_frac_mul_pos(ej, r);
    lemma_frac_mul_pos(pj, r);
    lemma_frac_mul_pos(e0, pj);
    lemma_frac_mul_pos(e0, frac_mul(pj, r));
    lemma_frac_trans(ek, frac_mul(ej, r), frac_mul(e0, frac_mul(pj, r)));
}

/// Down the first `k` hops of a parent loop, the `k`-th token's product is
/// at most the first token's times the rate product, strictly so once a
/// strict hop has passed.
proof fn lemma_loop_prefix(
    g: &Graph,
    dist: Seq<Option<Ratio>>,
    prev: Seq<Option<(usize, usize)>>,
    t: Seq<nat>,
    clock: nat,
    cn: Seq<usize>,
    cp: Seq<usize>,
    k: nat,
)
    requires
        parent_loop(g, dist, prev, t, clock, cn, cp),
        k <= cn.len(),
    ensures
        frac_pos(route_rate(g.tokens@, g.pools@, closed(cn), cp, k)),
        frac_pos(loop_dist(dist, cn, k as int)),
        frac_le(
            loop_dist(dist, cn, k as int),
            frac_mul(loop_dist(dist, cn, 0), route_rate(g.tokens@, g.pools@, closed(cn), cp, k)),
        ),
        any_strict(g, dist, cn, cp, k) ==> frac_lt(
            loop_dist(dist, cn, k as int),
            frac_mul(loop_dist(dist, cn, 0), route_rate(g.tokens@, g.pools@, closed(cn), cp, k)),
        ),
    decreases k,
{
    let e0 = loop_dist(dist, cn, 0);
    lemma_loop_hop(g, dist, prev, t, clock, cn, cp, 0);
    if k == 0 {
        assert(frac_mul(e0, (1nat, 1nat)) == e0) by (nonlinear_arith);
        assert(route_rate(g.tokens@, g.pools@, closed(cn), cp, 0) == (1nat, 1nat));
    } else {
        let j = (k - 1) as int;
        lemma_loop_prefix(g, dist, prev, t, clock, cn, cp, (k - 1) as nat);
        lemma_loop_hop(g, dist, prev, t, clock, cn, cp, j);
        let pj = route_rate(g.tokens@, g.pools@, closed(cn), cp, (k - 1) as nat);
        let r = hop_rate(g, cn[j] as int, cp[j] as int);
        assert(closed(cn)[j] == cn[j]);
        assert(route_rate(g.tokens@, g.pools@, closed(cn), cp, k) == frac_mul(pj, r));
        lemma_loop_extend(e0, loop_dist(dist, cn, j), loop_dist(dist, cn, k as int), pj, r);
    }
}

/// With no strict hop in the first `k`, the improvement steps rise along
/// the loop.
proof fn lemma_loop_steps(
    g: &Graph,
    dist: Seq<Option<Ratio>>,
    prev: Seq<Option<(usize, usize)>>,
    t: Seq<nat>,
    clock: nat,
    cn: Seq<usize>,
    cp: Seq<usize>,
    k: nat,
)
    requires
        parent_loop(g, dist, prev, t, clock, cn, cp),
        1 <= k <= cn.len(),
        !any_strict(g, dist, cn, cp, k),
    ensures
        t[loop_at(cn, k as int)] > t[loop_at(cn, 0)],
    decreases k,
{
    let j = (k - 1) as int;
    assert(!loop_strict(g, dist, cn, cp, j));
    lemma_loop_hop(g, dist, prev, t, clock, cn, cp, j);
    lemma_loop_hop(g, dist, prev, t, clock, cn, cp, 0);
    if k > 1 {
        lemma_loop_steps(g, dist, prev, t, clock, cn, cp, (k - 1) as nat);
    }
}

/// Around a closed loop of parent links the rate product exceeds one.
pub(crate) proof fn lemma_parent_loop_gains(
    g: &Graph,
    dist: Seq<Option<Ratio>>,
    prev: Seq<Option<(usize, usize)>>,
    t: Seq<nat>,
    clock: nat,
    cn: Seq<usize>,
    cp: Seq<usize>,
)
    requires
        g.wf(),
        gains_ok(g, dist, prev, t, clock),
        links_ok(g, prev),
        prev.len() == g.tokens@.len(),
        cn.len() == cp.len(),
        cn.len() >= 1,
        forall|i: int| 0 <= i < cn.len() ==> #[trigger] cn[i] < g.tokens@.len(),
        forall|i: int| 0 <= i < cn.len() ==> prev[closed(cn)[i + 1] as int] == Some((#[trigger] cn[i], cp[i])),
    ensures
        route_rate(g.tokens@, g.pools@, closed(cn), cp, cn.len()).0 > route_rate(
            g.tokens@,
            g.pools@,
            closed(cn),
            cp,
            cn.len(),
        ).1,
{
    let m = cn.len();
    assert(parent_loop(g, dist, prev, t, clock, cn, cp)) by {
        assert forall|i: int| 0 <= i < cn.len() implies prev[loop_at(cn, i + 1)] == Some((#[trigger] cn[i], cp[i])) by {
            assert(prev[closed(cn)[i + 1] as int] == Some((cn[i], cp[i])));
        }
    }
    lemma_loop_prefix(g, dist, prev, t, clock, cn, cp, m);
    assert(loop_at(cn, m as int) == loop_at(cn, 0)) by {
        assert(closed(cn)[m as int] == cn[0]);
        assert(closed(cn)[0] == cn[0]);
    }
    lemma_loop_hop(g, dist, prev, t, clock, cn, cp, 0);
    if any_strict(g, dist, cn, cp, m) {
        lemma_frac_gain(loop_dist(dist, cn, 0), route_rate(g.tokens@, g.pools@, closed(cn), cp, m));
    } else {
        lemma_loop_steps(g, dist, prev, t, clock, cn, cp, m);
    }
}

} // verus!
