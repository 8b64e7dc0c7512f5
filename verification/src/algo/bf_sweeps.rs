//! The Bellman-Ford sweeps as mathematics: best products as exact
//! fractions, parent links, and the order in which edges are relaxed. The
//! executable sweeps are proved to compute exactly these values, whether or
//! not a trace is kept.
use crate::algo::bellman_ford::{TOLERANCE_DEN, TOLERANCE_NUM};
use crate::algo::bf_gain::hop_rate;
use crate::graph::Graph;
use crate::ratio::{frac_mul, Ratio};
use vstd::prelude::*;

verus! {

/// Best products seen as fractions.
pub open spec fn dist_view(d: Seq<Option<Ratio>>) -> Seq<Option<(nat, nat)>> {
    Seq::new(
        d.len(),
        |v: int|
            match d[v] {
                Some(r) => Some(r.parts()),
                None => None,
            },
    )
}

/// Whether the product `cand` replaces the best product `cur`: there is
/// none yet, or `cand` beats it by more than the tolerance factor.
pub open spec fn beats(cand: (nat, nat), cur: Option<(nat, nat)>) -> bool {
    match cur {
        None => true,
        Some(c) => cand.0 * c.1 * TOLERANCE_DEN > c.0 * cand.1 * TOLERANCE_NUM,
    }
}

/// The product that edge `i` out of `u` offers its head.
pub open spec fn offer(g: &Graph, dv: Seq<Option<(nat, nat)>>, u: int, i: int) -> (nat, nat) {
    frac_mul(dv[u].unwrap(), hop_rate(g, u, g.adj@[u]@[i].pool as int))
}

/// Edge `i` out of `u` relaxes: `u` has a best product, the edge is usable,
/// and what it offers beats its head's best product.
pub open spec fn relaxable(g: &Graph, dv: Seq<Option<(nat, nat)>>, u: int, i: int) -> bool {
    &&& 0 <= u < g.tokens@.len()
    &&& dv[u] is Some
    &&& g.usable(u, i)
    &&& beats(offer(g, dv, u, i), dv[g.adj@[u]@[i].to as int])
}

/// Edge `i` out of `u` is the first that relaxes, in token then edge order.
pub open spec fn first_relaxable(g: &Graph, dv: Seq<Option<(nat, nat)>>, u: int, i: int) -> bool {
    &&& relaxable(g, dv, u, i)
    &&& forall|uu: int, ii: int| (uu < u || (uu == u && ii < i)) ==> !#[trigger] relaxable(g, dv, uu, ii)
}

/// Some edge still relaxes.
pub open spec fn any_relaxable(g: &Graph, dv: Seq<Option<(nat, nat)>>) -> bool {
    exists|u: int, i: int| #[trigger] relaxable(g, dv, u, i)
}

/// Visiting edge `i` out of `u`: where it relaxes, its head takes the
/// offered product and `u` as parent through the edge's pool, and the sweep
/// is marked as having relaxed.
pub open spec fn edge_step(
    g: &Graph,
    st: (Seq<Option<(nat, nat)>>, Seq<Option<(usize, usize)>>, bool),
    u: int,
    i: int,
) -> (Seq<Option<(nat, nat)>>, Seq<Option<(usize, usize)>>, bool) {
    if relaxable(g, st.0, u, i) {
        let e = g.adj@[u]@[i];
        (
            st.0.update(e.to as int, Some(offer(g, st.0, u, i))),
            st.1.update(e.to as int, Some((u as usize, e.pool))),
            true,
        )
    } else {
        st
    }
}

/// The rest of a sweep from edge `i` of token `u` on: the edges of each
/// token with a best product, in order, then the next token's.
pub open spec fn sweep_from(
    g: &Graph,
    st: (Seq<Option<(nat, nat)>>, Seq<Option<(usize, usize)>>, bool),
    u: int,
    i: int,
) -> (Seq<Option<(nat, nat)>>, Seq<Option<(usize, usize)>>, bool)
    decreases g.tokens@.len() - u, g.adj@[u]@.len() - i,
{
    if u < 0 || u >= g.tokens@.len() {
        st
    } else if 0 <= i < g.adj@[u]@.len() && st.0[u] is Some {
        sweep_from(g, edge_step(g, st, u, i), u, i + 1)
    } else {
        sweep_from(g, st, u + 1, 0)
    }
}

/// One full sweep over every edge; the flag says whether any relaxed.
pub open spec fn full_sweep(
    g: &Graph,
    d: Seq<Option<(nat, nat)>>,
    p: Seq<Option<(usize, usize)>>,
) -> (Seq<Option<(nat, nat)>>, Seq<Option<(usize, usize)>>, bool) {
    sweep_from(g, (d, p, false), 0, 0)
}

/// Up to `k` sweeps, stopping after one that relaxes nothing.
pub open spec fn run_sweeps(
    g: &Graph,
    d: Seq<Option<(nat, nat)>>,
    p: Seq<Option<(usize, usize)>>,
    k: nat,
) -> (Seq<Option<(nat, nat)>>, Seq<Option<(usize, usize)>>)
    decreases k,
{
    if k == 0 {
        (d, p)
    } else {
        let nx = full_sweep(g, d, p);
        if !nx.2 {
            (nx.0, nx.1)
        } else {
            run_sweeps(g, nx.0, nx.1, (k - 1) as nat)
        }
    }
}

/// Before any sweep: only `s` has a best product, one, and no token has a
/// parent.
pub open spec fn start_dist(g: &Graph, s: int) -> Seq<Option<(nat, nat)>> {
    Seq::new(g.tokens@.len(), |v: int| if v == s { Some((1nat, 1nat)) } else { None })
}

/// No parent links.
pub open spec fn no_links(g: &Graph) -> Seq<Option<(usize, usize)>> {
    Seq::new(g.tokens@.len(), |v: int| None)
}

/// Best products and parent links after the `n − 1` sweeps from `s`.
pub open spec fn swept(g: &Graph, s: int) -> (Seq<Option<(nat, nat)>>, Seq<Option<(usize, usize)>>) {
    run_sweeps(g, start_dist(g, s), no_links(g), (g.tokens@.len() - 1) as nat)
}

} // verus!
