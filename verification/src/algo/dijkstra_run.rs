//! Dijkstra's search as mathematics: which token it settles next, how
//! settling one relaxes its edges, and the state it stops in. The
//! executable search is proved to follow these steps exactly, whether or
//! not a trace is kept.
use crate::algo::bf_gain::hop_rate;
use crate::algo::bf_sweeps::{no_links, start_dist};
use crate::graph::Graph;
use crate::ratio::frac_mul;
use vstd::prelude::*;

verus! {

/// `x` is a strictly larger fraction than `y`.
pub open spec fn frac_gt(x: (nat, nat), y: (nat, nat)) -> bool {
    x.0 * y.1 > y.0 * x.1
}

/// The unsettled token with a best product, among the first `i`, whose
/// product is largest, the first on ties; -1 when there is none.
pub open spec fn first_best(dv: Seq<Option<(nat, nat)>>, vis: Seq<bool>, i: nat) -> int
    decreases i,
{
    if i == 0 {
        -1
    } else {
        let b = first_best(dv, vis, (i - 1) as nat);
        if vis[i - 1] || dv[i - 1] is None {
            b
        } else if b < 0 || frac_gt(dv[i - 1].unwrap(), dv[b].unwrap()) {
            i - 1
        } else {
            b
        }
    }
}

/// Relaxing edge `i` of the settled token `u`, whose best product is `du`:
/// a usable edge to an unsettled token whose product it strictly beats (or
/// that has none) gives that token the product and `u` as parent.
pub open spec fn relax_step(
    g: &Graph,
    st: (Seq<Option<(nat, nat)>>, Seq<Option<(usize, usize)>>),
    vis: Seq<bool>,
    u: int,
    du: (nat, nat),
    i: int,
) -> (Seq<Option<(nat, nat)>>, Seq<Option<(usize, usize)>>) {
    let e = g.adj@[u]@[i];
    let cand = frac_mul(du, hop_rate(g, u, e.pool as int));
    if !vis[e.to as int] && g.usable(u, i) && match st.0[e.to as int] {
        None => true,
        Some(c) => frac_gt(cand, c),
    } {
        (st.0.update(e.to as int, Some(cand)), st.1.update(e.to as int, Some((u as usize, e.pool))))
    } else {
        st
    }
}

/// Relaxing the edges of `u` from edge `i` on, in order.
pub open spec fn relax_rest(
    g: &Graph,
    st: (Seq<Option<(nat, nat)>>, Seq<Option<(usize, usize)>>),
    vis: Seq<bool>,
    u: int,
    du: (nat, nat),
    i: int,
) -> (Seq<Option<(nat, nat)>>, Seq<Option<(usize, usize)>>)
    decreases g.adj@[u]@.len() - i,
{
    if i < 0 || i >= g.adj@[u]@.len() {
        st
    } else {
        relax_rest(g, relax_step(g, st, vis, u, du, i), vis, u, du, i + 1)
    }
}

/// Settling `u`: it is marked, and unless it is the destination `d` its
/// edges are relaxed.
#[verifier::opaque]
pub open spec fn settle_step(
    g: &Graph,
    st: (Seq<Option<(nat, nat)>>, Seq<Option<(usize, usize)>>, Seq<bool>),
    u: int,
    d: int,
) -> (Seq<Option<(nat, nat)>>, Seq<Option<(usize, usize)>>, Seq<bool>) {
    let vis = st.2.update(u, true);
    if u == d {
        (st.0, st.1, vis)
    } else {
        let r = relax_rest(g, (st.0, st.1), vis, u, st.0[u].unwrap(), 0);
        (r.0, r.1, vis)
    }
}

/// What settling `u` gives, from what happens to the products and links.
pub proof fn lemma_settle_step(
    g: &Graph,
    st: (Seq<Option<(nat, nat)>>, Seq<Option<(usize, usize)>>, Seq<bool>),
    u: int,
    d: int,
    d1: Seq<Option<(nat, nat)>>,
    p1: Seq<Option<(usize, usize)>>,
    v1: Seq<bool>,
)
    requires
        v1 == st.2.update(u, true),
        u == d ==> d1 == st.0 && p1 == st.1,
        u != d ==> (d1, p1) == relax_rest(g, (st.0, st.1), v1, u, st.0[u].unwrap(), 0),
    ensures
        (d1, p1, v1) == settle_step(g, st, u, d),
{
    reveal(settle_step);
}

/// Up to `fuel` more settlements: the best unsettled token is settled,
/// until none is left or the destination is settled.
pub open spec fn settle_run(
    g: &Graph,
    st: (Seq<Option<(nat, nat)>>, Seq<Option<(usize, usize)>>, Seq<bool>),
    d: int,
    fuel: nat,
) -> (Seq<Option<(nat, nat)>>, Seq<Option<(usize, usize)>>, Seq<bool>)
    decreases fuel,
{
    if fuel == 0 {
        st
    } else {
        let u = first_best(st.0, st.2, st.0.len());
        if u < 0 {
            st
        } else {
            let nx = settle_step(g, st, u, d);
            if u == d {
                nx
            } else {
                settle_run(g, nx, d, (fuel - 1) as nat)
            }
        }
    }
}

/// Best products, parent links and settled tokens when the search from `s`
/// for `d` stops.
pub open spec fn settled(g: &Graph, s: int, d: int) -> (
    Seq<Option<(nat, nat)>>,
    Seq<Option<(usize, usize)>>,
    Seq<bool>,
) {
    settle_run(
        g,
        (start_dist(g, s), no_links(g), Seq::new(g.tokens@.len(), |v: int| false)),
        d,
        g.tokens@.len(),
    )
}

} // verus!
