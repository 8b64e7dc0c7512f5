//! Top-K bounded-hop Bellman-Ford path enumerator.
//!
//! Lists simple token paths from `src` to `dst` with at most `max_hops`
//! edges, best rate product first. Parallel pools are coalesced into one
//! edge per token pair, at the best marginal rate; for every (hop count,
//! token) at most `TOP_K` partial paths are kept. Consumers rerank by
//! realised output at the trade size: the marginal-rate order is a
//! heuristic, not a guarantee. Bounded hops and the simple-path rule keep
//! the enumeration finite on any rates, arbitrage cycles included.
use crate::graph::Graph;
use crate::algo::bf_gain::{hop_rate, lemma_hop_rate_pos};
use crate::ratio::{frac_le, frac_lt, frac_mul, frac_pos, lemma_frac_mul_pos, lemma_frac_trans, Ratio};
use vstd::prelude::*;

verus! {

/// Partial paths kept per (hop count, token).
pub const TOP_K: usize = 20;

/// No token occurs twice in `p`.
pub open spec fn simple(p: Seq<usize>) -> bool {
    forall|i: int, j: int| 0 <= i < j < p.len() ==> p[i] != p[j]
}

/// `p` is a simple walk from `s` to `t` along usable edges with `hops`
/// edges.
pub open spec fn hop_path(g: &Graph, p: Seq<usize>, s: int, t: int, hops: nat) -> bool {
    &&& g.is_walk(p)
    &&& p.len() == hops + 1
    &&& p[0] == s
    &&& p.last() == t
    &&& simple(p)
}

/// The paths' views.
pub open spec fn views(paths: Seq<Vec<usize>>) -> Seq<Seq<usize>> {
    paths.map_values(|p: Vec<usize>| p@)
}

/// `p` is a simple walk from `s` to `t` along usable edges with one to
/// `max_hops` edges.
pub open spec fn within_hops(g: &Graph, p: Seq<usize>, s: int, t: int, max_hops: nat) -> bool {
    exists|h: nat| 1 <= h <= max_hops && #[trigger] hop_path(g, p, s, t, h)
}

/// What the enumeration emits for `(s, t, max_hops)`: the trivial path
/// when `s == t`; otherwise at most `TOP_K` simple walks from `s` to `t`
/// per hop count from one to `max_hops`, none twice, ordered by the product
/// of their hops' best marginal rates, largest first, among them the direct
/// hop `[s, t]` whenever a usable edge joins the two and a hop is allowed,
/// and every such walk when no (hop count, token) holds more than `TOP_K`
/// simple walks from `s`.
pub open spec fn emits(g: &Graph, paths: Seq<Seq<usize>>, s: int, t: int, max_hops: nat) -> bool {
    if s == t {
        paths == seq![seq![s as usize]]
    } else {
        &&& forall|i: int| 0 <= i < paths.len() ==> #[trigger] within_hops(g, paths[i], s, t, max_hops)
        &&& paths.no_duplicates()
        &&& fits_top_k(g, s, max_hops) ==> forall|p: Seq<usize>|
            #[trigger] within_hops(g, p, s, t, max_hops) ==> paths.contains(p)
        &&& (max_hops >= 1 && g.linked(s, t)) ==> paths.contains(seq![s as usize, t as usize])
        &&& paths.len() <= TOP_K * max_hops
        &&& exists|ws: Seq<(nat, nat)>| #[trigger] ranked(g, paths, ws)
    }
}

/// `ws[i]` is the product of the best marginal rates along `paths[i]`, and
/// the products do not grow along the list.
pub open spec fn ranked(g: &Graph, paths: Seq<Seq<usize>>, ws: Seq<(nat, nat)>) -> bool {
    &&& ws.len() == paths.len()
    &&& forall|i: int| 0 <= i < paths.len() ==> path_weight(g, #[trigger] paths[i], ws[i])
    &&& forall|i: int, j: int| 0 <= i < j < ws.len() ==> frac_le(#[trigger] ws[j], #[trigger] ws[i])
}

/// A partial path with its rate product.
#[derive(Debug)]
struct Cand {
    weight: Ratio,
    path: Vec<usize>,
}

impl Cand {
    fn copy(&self) -> (r: Self)
        ensures
            r.path@ == self.path@,
            r.weight.num.val() == self.weight.num.val(),
            r.weight.den.val() == self.weight.den.val(),
    {
        Cand { weight: self.weight.copy(), path: self.path.clone() }
    }
}

/// The simple-path enumeration for one query, handed out path by path.
#[derive(Debug)]
pub struct BoundedBfIter {
    paths: Vec<Vec<usize>>,
    pos: usize,
}

/// Whether `x` occurs in `p`.
fn contains(p: &Vec<usize>, x: usize) -> (r: bool)
    ensures
        r == p@.contains(x),
{
    let mut i: usize = 0;
    while i < p.len()
        invariant
            i <= p@.len(),
            forall|j: int| 0 <= j < i ==> p@[j] != x,
        decreases p@.len() - i,
    {
        if p[i] == x {
            assert(p@[i as int] == x);
            return true;
        }
        i = i + 1;
    }
    false
}

/// `r` is the best marginal rate among the usable edges from `u` to `v`:
/// the rate of one of them, and at least that of each.
pub open spec fn best_hop_rate(g: &Graph, u: int, v: int, r: (nat, nat)) -> bool {
    &&& exists|i: int|
        #![trigger g.adj@[u]@[i]]
        g.usable(u, i) && g.adj@[u]@[i].to == v && hop_rate(g, u, g.adj@[u]@[i].pool as int) == r
    &&& forall|i: int|
        #![trigger g.adj@[u]@[i]]
        g.usable(u, i) && g.adj@[u]@[i].to == v ==> frac_le(hop_rate(g, u, g.adj@[u]@[i].pool as int), r)
}

/// `best_hop_rate` over the first `n` edges out of `u`.
spec fn best_hop_rate_upto(g: &Graph, u: int, n: int, v: int, r: (nat, nat)) -> bool {
    &&& exists|i: int|
        #![trigger g.adj@[u]@[i]]
        0 <= i < n && g.usable(u, i) && g.adj@[u]@[i].to == v && hop_rate(g, u, g.adj@[u]@[i].pool as int) == r
    &&& forall|i: int|
        #![trigger g.adj@[u]@[i]]
        0 <= i < n && g.usable(u, i) && g.adj@[u]@[i].to == v ==> frac_le(hop_rate(g, u, g.adj@[u]@[i].pool as int), r)
}

/// Tokens reachable in one usable edge from `u`, each once, in order of
/// first appearance, with the best marginal rate among the parallel pools.
fn coalesce(graph: &Graph, u: usize) -> (r: Vec<(usize, Ratio)>)
    requires
        graph.wf(),
        u < graph.tokens@.len(),
    ensures
        forall|j: int|
            0 <= j < r@.len() ==> #[trigger] r@[j].0 < graph.tokens@.len() && graph.linked(
                u as int,
                r@[j].0 as int,
            ),
        forall|i: int| #[trigger] graph.usable(u as int, i) ==> lists_token(r@, graph.adj@[u as int]@[i].to),
        forall|j: int| 0 <= j < r@.len() ==> best_hop_rate(graph, u as int, #[trigger] r@[j].0 as int, r@[j].1.parts()),
        forall|x: int, y: int| 0 <= x < y < r@.len() ==> #[trigger] r@[x].0 != #[trigger] r@[y].0,
{
    proof {
        graph.lemma_adj_ok();
    }
    let edges = &graph.adj[u];
    let mut out: Vec<(usize, Ratio)> = Vec::new();
    let mut i: usize = 0;
    while i < edges.len()
        invariant
            graph.wf(),
            u < graph.tokens@.len(),
            edges@ == graph.adj@[u as int]@,
            i <= edges@.len(),
            forall|uu: int, ii: int|
                0 <= uu < graph.adj@.len() && 0 <= ii < graph.adj@[uu]@.len() ==> graph.edge_ok(
                    uu,
                    #[trigger] graph.adj@[uu]@[ii],
                ),
            forall|j: int|
                0 <= j < out@.len() ==> #[trigger] out@[j].0 < graph.tokens@.len() && graph.linked(
                    u as int,
                    out@[j].0 as int,
                ),
            forall|k: int| 0 <= k < i && #[trigger] graph.usable(u as int, k) ==> lists_token(out@, graph.adj@[u as int]@[k].to),
            forall|j: int|
                0 <= j < out@.len() ==> best_hop_rate_upto(graph, u as int, i as int, #[trigger] out@[j].0 as int, out@[j].1.parts()),
            forall|x: int, y: int| 0 <= x < y < out@.len() ==> #[trigger] out@[x].0 != #[trigger] out@[y].0,
        decreases edges@.len() - i,
    {
        let e = edges[i];
        let ghost out_start = out@;
        assert(graph.edge_ok(u as int, graph.adj@[u as int]@[i as int]));
        match graph.pools[e.pool].usable_rate(e.in_token) {
            None => {
                proof {
                    assert forall|j: int|
                        0 <= j < out@.len() implies best_hop_rate_upto(graph, u as int, i + 1, #[trigger] out@[j].0 as int, out@[j].1.parts()) by {
                        assert(best_hop_rate_upto(graph, u as int, i as int, out@[j].0 as int, out@[j].1.parts()));
                        assert(!graph.usable(u as int, i as int));
                    }
                }
            },
            Some(rate) => {
                let ghost rr = rate.parts();
                proof {
                    assert(graph.usable(u as int, i as int));
                    assert(graph.linked(u as int, e.to as int));
                    assert(graph.hop(u as int, e.to as int, e.pool as int));
                    lemma_hop_rate_pos(graph, u as int, e.to as int, e.pool as int);
                    assert(rr == hop_rate(graph, u as int, e.pool as int));
                }
                let mut found = false;
                let mut j: usize = 0;
                while j < out.len()
                    invariant
                        graph.wf(),
                        u < graph.tokens@.len(),
                        i < graph.adj@[u as int]@.len(),
                        e == graph.adj@[u as int]@[i as int],
                        graph.usable(u as int, i as int),
                        rr == hop_rate(graph, u as int, e.pool as int),
                        rr == rate.parts(),
                        frac_pos(rr),
                        j <= out@.len(),
                        e.to < graph.tokens@.len(),
                        graph.linked(u as int, e.to as int),
                        forall|uu: int, ii: int|
                            0 <= uu < graph.adj@.len() && 0 <= ii < graph.adj@[uu]@.len() ==> graph.edge_ok(
                                uu,
                                #[trigger] graph.adj@[uu]@[ii],
                            ),
                        forall|x: int|
                            0 <= x < out@.len() ==> #[trigger] out@[x].0 < graph.tokens@.len()
                                && graph.linked(u as int, out@[x].0 as int),
                        out@.len() == out_start.len(),
                        forall|x: int| 0 <= x < out@.len() ==> #[trigger] out@[x].0 == out_start[x].0,
                        forall|x: int, y: int| 0 <= x < y < out_start.len() ==> #[trigger] out_start[x].0 != #[trigger] out_start[y].0,
                        found ==> lists_token(out@, e.to),
                        !found ==> forall|x: int| 0 <= x < j ==> #[trigger] out@[x].0 != e.to,
                        forall|x: int| j <= x < out@.len() ==> #[trigger] out@[x] == out_start[x],
                        forall|x: int|
                            0 <= x < out_start.len() ==> best_hop_rate_upto(graph, u as int, i as int, #[trigger] out_start[x].0 as int, out_start[x].1.parts()),
                        forall|x: int|
                            0 <= x < j ==> best_hop_rate_upto(graph, u as int, i + 1, #[trigger] out@[x].0 as int, out@[x].1.parts()),
                    decreases out@.len() - j,
                {
                    let ghost out_j = out@;
                    if out[j].0 == e.to {
                        found = true;
                        let ghost old_r = out@[j as int].1.parts();
                        proof {
                            assert(out@[j as int] == out_start[j as int]);
                            lemma_best_upto_pos(graph, u as int, i as int, e.to as int, old_r);
                        }
                        if rate.gt(&out[j].1) {
                            let better = rate.copy();
                            out.set(j, (e.to, better));
                            proof {
                                assert(out@[j as int].1.parts() == rr);
                                lemma_best_upto_raise(graph, u as int, i as int, e.to as int, old_r, rr);
                            }
                        } else {
                            proof {
                                lemma_best_upto_keep(graph, u as int, i as int, e.to as int, old_r, rr);
                            }
                        }
                        assert(out@[j as int].0 == e.to);
                    } else {
                        proof {
                            assert(out@[j as int] == out_start[j as int]);
                            lemma_best_upto_other(graph, u as int, i as int, out@[j as int].0 as int, out@[j as int].1.parts());
                        }
                    }
                    proof {
                        assert forall|x: int|
                            0 <= x < j + 1 implies best_hop_rate_upto(graph, u as int, i + 1, #[trigger] out@[x].0 as int, out@[x].1.parts()) by {
                            if x < j {
                                assert(out@[x] == out_j[x]);
                            }
                        }
                    }
                    j = j + 1;
                }
                proof {
                    assert forall|x: int, y: int| 0 <= x < y < out@.len() implies #[trigger] out@[x].0 != #[trigger] out@[y].0 by {
                        assert(out@[x].0 == out_start[x].0);
                        assert(out@[y].0 == out_start[y].0);
                    }
                }
                if !found {
                    let ghost out0 = out@;
                    out.push((e.to, rate));
                    assert(out@[out@.len() - 1].0 == e.to);
                    proof {
                        assert forall|x: int, y: int| 0 <= x < y < out@.len() implies #[trigger] out@[x].0 != #[trigger] out@[y].0 by {
                            if y < out0.len() {
                                assert(out@[x] == out0[x] && out@[y] == out0[y]);
                            } else {
                                assert(out@[x] == out0[x]);
                                assert(out0[x].0 != e.to);
                            }
                        }
                        assert(!lists_token(out_start, e.to)) by {
                            if lists_token(out_start, e.to) {
                                let x = choose|x: int| 0 <= x < out_start.len() && out_start[x].0 == e.to;
                                assert(out0[x].0 == out_start[x].0);
                            }
                        }
                        lemma_best_upto_new(graph, u as int, i as int, e.to as int, rr, out_start);
                        assert forall|x: int|
                            0 <= x < out@.len() implies best_hop_rate_upto(graph, u as int, i + 1, #[trigger] out@[x].0 as int, out@[x].1.parts()) by {
                            if x < out0.len() {
                                assert(out@[x] == out0[x]);
                            }
                        }
                    }
                }
                proof {
                    assert forall|k: int| 0 <= k < i + 1 && #[trigger] graph.usable(u as int, k) implies lists_token(out@, graph.adj@[u as int]@[k].to) by {
                        if k < i {
                            let x = choose|x: int| 0 <= x < out_start.len() && out_start[x].0 == graph.adj@[u as int]@[k].to;
                            assert(out@[x].0 == out_start[x].0);
                        }
                    }
                }
            },
        }
        i = i + 1;
    }
    proof {
        assert forall|j: int| 0 <= j < out@.len() implies best_hop_rate(graph, u as int, #[trigger] out@[j].0 as int, out@[j].1.parts()) by {
            let v = out@[j].0 as int;
            let r = out@[j].1.parts();
            assert(best_hop_rate_upto(graph, u as int, edges@.len() as int, v, r));
            let k = choose|k: int|
                #![trigger graph.adj@[u as int]@[k]]
                0 <= k < edges@.len() && graph.usable(u as int, k) && graph.adj@[u as int]@[k].to == v
                    && hop_rate(graph, u as int, graph.adj@[u as int]@[k].pool as int) == r;
            assert(graph.usable(u as int, k));
        }
    }
    out
}

/// The best rate so far is positive.
proof fn lemma_best_upto_pos(g: &Graph, u: int, n: int, v: int, r: (nat, nat))
    requires
        g.wf(),
        best_hop_rate_upto(g, u, n, v, r),
    ensures
        frac_pos(r),
{
    let k = choose|k: int|
        #![trigger g.adj@[u]@[k]]
        0 <= k < n && g.usable(u, k) && g.adj@[u]@[k].to == v && hop_rate(g, u, g.adj@[u]@[k].pool as int) == r;
    assert(g.usable(u, k));
    assert(g.hop(u, v, g.adj@[u]@[k].pool as int));
    lemma_hop_rate_pos(g, u, v, g.adj@[u]@[k].pool as int);
}

/// Edge `n` leads elsewhere than `v`: the best rate to `v` is unchanged.
proof fn lemma_best_upto_other(g: &Graph, u: int, n: int, v: int, r: (nat, nat))
    requires
        best_hop_rate_upto(g, u, n, v, r),
        g.usable(u, n) ==> g.adj@[u]@[n].to != v,
    ensures
        best_hop_rate_upto(g, u, n + 1, v, r),
{
    let k = choose|k: int|
        #![trigger g.adj@[u]@[k]]
        0 <= k < n && g.usable(u, k) && g.adj@[u]@[k].to == v && hop_rate(g, u, g.adj@[u]@[k].pool as int) == r;
    assert(0 <= k < n + 1 && g.usable(u, k) && g.adj@[u]@[k].to == v && hop_rate(g, u, g.adj@[u]@[k].pool as int) == r);
}

/// Edge `n` leads to `v` with a rate above the best so far: it is the new
/// best.
proof fn lemma_best_upto_raise(g: &Graph, u: int, n: int, v: int, r: (nat, nat), rr: (nat, nat))
    requires
        g.wf(),
        best_hop_rate_upto(g, u, n, v, r),
        g.usable(u, n),
        g.adj@[u]@[n].to == v,
        rr == hop_rate(g, u, g.adj@[u]@[n].pool as int),
        frac_lt(r, rr),
    ensures
        best_hop_rate_upto(g, u, n + 1, v, rr),
{
    lemma_best_upto_pos(g, u, n, v, r);
    assert(g.hop(u, v, g.adj@[u]@[n].pool as int));
    lemma_hop_rate_pos(g, u, v, g.adj@[u]@[n].pool as int);
    assert(frac_le(r, rr));
    assert forall|i: int|
        #![trigger g.adj@[u]@[i]]
        0 <= i < n + 1 && g.usable(u, i) && g.adj@[u]@[i].to == v implies frac_le(hop_rate(g, u, g.adj@[u]@[i].pool as int), rr) by {
        if i < n {
            let q = hop_rate(g, u, g.adj@[u]@[i].pool as int);
            assert(g.hop(u, v, g.adj@[u]@[i].pool as int));
            lemma_hop_rate_pos(g, u, v, g.adj@[u]@[i].pool as int);
            lemma_frac_trans(q, r, rr);
        } else {
            assert(frac_le(rr, rr)) by (nonlinear_arith);
        }
    }
    assert(0 <= n < n + 1 && g.usable(u, n) && g.adj@[u]@[n].to == v && hop_rate(g, u, g.adj@[u]@[n].pool as int) == rr);
}

/// Edge `n` leads to `v` with a rate not above the best so far: the best
/// stays.
proof fn lemma_best_upto_keep(g: &Graph, u: int, n: int, v: int, r: (nat, nat), rr: (nat, nat))
    requires
        best_hop_rate_upto(g, u, n, v, r),
        g.usable(u, n) && g.adj@[u]@[n].to == v ==> rr == hop_rate(g, u, g.adj@[u]@[n].pool as int),
        !frac_lt(r, rr),
    ensures
        best_hop_rate_upto(g, u, n + 1, v, r),
{
    let k = choose|k: int|
        #![trigger g.adj@[u]@[k]]
        0 <= k < n && g.usable(u, k) && g.adj@[u]@[k].to == v && hop_rate(g, u, g.adj@[u]@[k].pool as int) == r;
    assert(0 <= k < n + 1 && g.usable(u, k) && g.adj@[u]@[k].to == v && hop_rate(g, u, g.adj@[u]@[k].pool as int) == r);
}

/// Edge `n` is the first usable one to `v`: its rate is the best so far.
proof fn lemma_best_upto_new(g: &Graph, u: int, n: int, v: int, rr: (nat, nat), out: Seq<(usize, Ratio)>)
    requires
        g.usable(u, n),
        g.adj@[u]@[n].to == v,
        rr == hop_rate(g, u, g.adj@[u]@[n].pool as int),
        forall|k: int| 0 <= k < n && #[trigger] g.usable(u, k) ==> lists_token(out, g.adj@[u]@[k].to),
        !lists_token(out, v as usize),
        0 <= v,
    ensures
        best_hop_rate_upto(g, u, n + 1, v, rr),
{
    assert forall|i: int|
        #![trigger g.adj@[u]@[i]]
        0 <= i < n + 1 && g.usable(u, i) && g.adj@[u]@[i].to == v implies frac_le(hop_rate(g, u, g.adj@[u]@[i].pool as int), rr) by {
        if i < n {
            assert(lists_token(out, g.adj@[u]@[i].to));
        } else {
            assert(frac_le(rr, rr)) by (nonlinear_arith);
        }
    }
    assert(0 <= n < n + 1 && g.usable(u, n) && g.adj@[u]@[n].to == v && hop_rate(g, u, g.adj@[u]@[n].pool as int) == rr);
}

/// Some entry of `out` leads to token `v`.
spec fn lists_token(out: Seq<(usize, Ratio)>, v: usize) -> bool {
    exists|x: int| 0 <= x < out.len() && out[x].0 == v
}

/// `bucket` with `cand` inserted after every entry whose product is at
/// least as large, cut to `cap` entries.
fn insert_by_weight(bucket: &Vec<Cand>, cand: Cand, cap: usize) -> (r: Vec<Cand>)
    requires
        sorted_desc(bucket@),
        weights_pos(bucket@),
        frac_pos(cand.weight.parts()),
    ensures
        r@.len() <= cap,
        cap > 0 ==> r@.len() > 0,
        forall|i: int|
            0 <= i < r@.len() ==> #[trigger] r@[i].path@ == cand.path@ || exists|j: int|
                0 <= j < bucket@.len() && bucket@[j].path@ == r@[i].path@,
        forall|i: int| 0 <= i < r@.len() ==> kept_from(#[trigger] r@[i], cand, bucket@),
        sorted_desc(r@),
        weights_pos(r@),
        bucket@.len() < cap ==> {
            &&& r@.len() == bucket@.len() + 1
            &&& from_list(cand.path@, r@)
            &&& forall|j: int| 0 <= j < bucket@.len() ==> from_list(#[trigger] bucket@[j].path@, r@)
        },
        (paths_distinct(bucket@) && !from_list(cand.path@, bucket@)) ==> paths_distinct(r@),
        r@.len() == (if bucket@.len() + 1 < cap {
            bucket@.len() + 1int
        } else {
            cap as int
        }),
        forall|j: int, x: int|
            #![trigger bucket@[j], r@[x]]
            0 <= j < bucket@.len() && 0 <= x < r@.len() && !from_list(bucket@[j].path@, r@) ==> frac_le(
                bucket@[j].weight.parts(),
                r@[x].weight.parts(),
            ),
        forall|x: int|
            0 <= x < r@.len() && !from_list(cand.path@, r@) ==> frac_le(cand.weight.parts(), #[trigger] r@[x].weight.parts()),
{
    let ghost fresh = paths_distinct(bucket@) && !from_list(cand.path@, bucket@);
    let mut out: Vec<Cand> = Vec::new();
    let mut i: usize = 0;
    let mut placed = false;
    while i < bucket.len() && out.len() < cap
        invariant
            i <= bucket@.len(),
            out@.len() <= cap,
            out@.len() == i + (if placed { 1int } else { 0int }),
            placed ==> from_list(cand.path@, out@),
            forall|j: int| 0 <= j < i ==> from_list(#[trigger] bucket@[j].path@, out@),
            forall|x: int|
                0 <= x < out@.len() ==> #[trigger] out@[x].path@ == cand.path@ || exists|j: int|
                    0 <= j < bucket@.len() && bucket@[j].path@ == out@[x].path@,
            forall|x: int| 0 <= x < out@.len() ==> kept_from(#[trigger] out@[x], cand, bucket@),
            sorted_desc(bucket@),
            weights_pos(bucket@),
            frac_pos(cand.weight.parts()),
            sorted_desc(out@),
            weights_pos(out@),
            (out@.len() > 0 && i < bucket@.len()) ==> frac_le(bucket@[i as int].weight.parts(), out@.last().weight.parts()),
            (!placed && out@.len() > 0) ==> frac_le(cand.weight.parts(), out@.last().weight.parts()),
            fresh == (paths_distinct(bucket@) && !from_list(cand.path@, bucket@)),
            fresh ==> paths_distinct(out@),
            forall|x: int|
                0 <= x < out@.len() ==> (placed && (#[trigger] out@[x]).path@ == cand.path@) || exists|j: int|
                    0 <= j < i && bucket@[j].path@ == out@[x].path@,
        decreases bucket@.len() - i + cap - out@.len(),
    {
        let ghost out0 = out@;
        if !placed && cand.weight.gt(&bucket[i].weight) {
            let c = cand.copy();
            proof {
                lemma_sorted_push(out0, c);
            }
            out.push(c);
            placed = true;
            proof {
                assert(out@[out@.len() - 1].path@ == cand.path@);
                assert(same_cand(out@[out@.len() - 1], cand));
                assert forall|j: int| 0 <= j < i implies from_list(#[trigger] bucket@[j].path@, out@) by {
                    lemma_from_list_push(bucket@[j].path@, out0, c);
                }
                assert forall|x: int| 0 <= x < out@.len() implies kept_from(#[trigger] out@[x], cand, bucket@) by {
                    if x < out0.len() {
                        assert(out@[x] == out0[x]);
                    }
                }
                lemma_distinct_push(out0, c, cand.path@, bucket@, i as int, fresh, false);
            }
        } else {
            let c = bucket[i].copy();
            proof {
                assert(bucket@[i as int].path@ == c.path@);
                assert(weights_pos(bucket@));
                assert(frac_pos(bucket@[i as int].weight.parts()));
                lemma_sorted_push(out0, c);
            }
            out.push(c);
            proof {
                assert(out@[out@.len() - 1].path@ == bucket@[i as int].path@);
                assert(same_cand(bucket@[i as int], out@[out@.len() - 1]));
                assert forall|j: int| 0 <= j < i + 1 implies from_list(#[trigger] bucket@[j].path@, out@) by {
                    if j < i {
                        lemma_from_list_push(bucket@[j].path@, out0, c);
                    }
                }
                if placed {
                    lemma_from_list_push(cand.path@, out0, c);
                }
                assert forall|x: int| 0 <= x < out@.len() implies kept_from(#[trigger] out@[x], cand, bucket@) by {
                    if x < out0.len() {
                        assert(out@[x] == out0[x]);
                    }
                }
                if i + 1 < bucket@.len() {
                    assert(frac_le(bucket@[i + 1].weight.parts(), bucket@[i as int].weight.parts()));
                }
                lemma_distinct_push(out0, c, cand.path@, bucket@, i as int, fresh, placed);
            }
            i = i + 1;
        }
    }
    if !placed && out.len() < cap {
        let ghost out0 = out@;
        let ghost cp = cand.path@;
        let ghost cw = cand.weight.parts();
        proof {
            lemma_sorted_push(out0, cand);
        }
        out.push(cand);
        proof {
            assert(out@[out@.len() - 1].path@ == cp);
            assert forall|j: int| 0 <= j < i implies from_list(#[trigger] bucket@[j].path@, out@) by {
                lemma_from_list_push(bucket@[j].path@, out0, out@[out@.len() - 1]);
            }
            assert forall|x: int| 0 <= x < out@.len() implies kept_from(#[trigger] out@[x], cand, bucket@) by {
                if x < out0.len() {
                    assert(out@[x] == out0[x]);
                }
            }
            lemma_distinct_push(out0, out@[out@.len() - 1], cp, bucket@, i as int, fresh, false);
            assert(from_list(cand.path@, out@)) by {
                assert(out@[out@.len() - 1].path@ == cp);
            }
        }
    }
    proof {
        assert forall|j: int, x: int|
            #![trigger bucket@[j], out@[x]]
            0 <= j < bucket@.len() && 0 <= x < out@.len() && !from_list(bucket@[j].path@, out@) implies frac_le(
                bucket@[j].weight.parts(),
                out@[x].weight.parts(),
            ) by {
            assert(j >= i);
            let l = out@.len() - 1;
            assert(frac_le(bucket@[i as int].weight.parts(), out@[l].weight.parts()));
            if j > i {
                assert(frac_le(bucket@[j].weight.parts(), bucket@[i as int].weight.parts()));
            }
            assert(frac_pos(bucket@[j].weight.parts()));
            assert(frac_pos(bucket@[i as int].weight.parts()));
            assert(frac_pos(out@[l].weight.parts()));
            assert(frac_pos(out@[x].weight.parts()));
            if x < l {
                assert(frac_le(out@[l].weight.parts(), out@[x].weight.parts()));
            }
            lemma_frac_trans(bucket@[j].weight.parts(), bucket@[i as int].weight.parts(), out@[l].weight.parts());
            lemma_frac_trans(bucket@[j].weight.parts(), out@[l].weight.parts(), out@[x].weight.parts());
        }
        assert forall|x: int|
            0 <= x < out@.len() && !from_list(cand.path@, out@) implies frac_le(cand.weight.parts(), #[trigger] out@[x].weight.parts()) by {
            let l = out@.len() - 1;
            assert(!placed);
            assert(frac_le(cand.weight.parts(), out@[l].weight.parts()));
            assert(frac_pos(out@[l].weight.parts()));
            assert(frac_pos(out@[x].weight.parts()));
            if x < l {
                assert(frac_le(out@[l].weight.parts(), out@[x].weight.parts()));
            }
            lemma_frac_trans(cand.weight.parts(), out@[l].weight.parts(), out@[x].weight.parts());
        }
    }
    out
}

/// No two candidates share a path.
spec fn paths_distinct(cs: Seq<Cand>) -> bool {
    forall|a: int, b: int| 0 <= a < b < cs.len() ==> (#[trigger] cs[a]).path@ != (#[trigger] cs[b]).path@
}

/// Pushing onto a list whose paths come from the first `i` of `bucket` (or
/// are `cp`, once placed) a candidate that is `cp` (not yet placed) or
/// `bucket[i]` keeps the paths distinct when `bucket` is distinct and
/// lacks `cp`.
proof fn lemma_distinct_push(out: Seq<Cand>, c: Cand, cp: Seq<usize>, bucket: Seq<Cand>, i: int, fresh: bool, placed: bool)
    requires
        0 <= i <= bucket.len(),
        fresh == (paths_distinct(bucket) && !from_list(cp, bucket)),
        fresh ==> paths_distinct(out),
        (!placed && c.path@ == cp) || (i < bucket.len() && c.path@ == bucket[i].path@),
        forall|x: int|
            0 <= x < out.len() ==> (placed && (#[trigger] out[x]).path@ == cp) || exists|j: int|
                0 <= j < i && bucket[j].path@ == out[x].path@,
    ensures
        fresh ==> paths_distinct(out.push(c)),
{
    if fresh {
        let o = out.push(c);
        assert forall|a: int, b: int| 0 <= a < b < o.len() implies (#[trigger] o[a]).path@ != (#[trigger] o[b]).path@ by {
            assert(o[a] == out[a]);
            if b < out.len() {
                assert(o[b] == out[b]);
            } else {
                assert(o[b] == c);
                if !(placed && out[a].path@ == cp) {
                    let j = choose|j: int| 0 <= j < i && bucket[j].path@ == out[a].path@;
                    if c.path@ == cp {
                        assert(!from_list(cp, bucket));
                    } else {
                        assert(bucket[j].path@ != bucket[i].path@);
                    }
                } else {
                    if c.path@ != cp {
                        assert(!from_list(cp, bucket));
                        assert(bucket[i].path@ == c.path@);
                    }
                }
            }
        }
    }
}

/// Two candidates with the same path and the same product.
spec fn same_cand(a: Cand, b: Cand) -> bool {
    a.path@ == b.path@ && a.weight.parts() == b.weight.parts()
}

/// `c` is `cand` or one of `bucket`, up to path and product.
spec fn kept_from(c: Cand, cand: Cand, bucket: Seq<Cand>) -> bool {
    same_cand(c, cand) || exists|j: int| 0 <= j < bucket.len() && same_cand(bucket[j], c)
}

/// Every candidate's product is positive.
spec fn weights_pos(cs: Seq<Cand>) -> bool {
    forall|i: int| 0 <= i < cs.len() ==> frac_pos(#[trigger] cs[i].weight.parts())
}

/// Candidates in order of product, largest first.
spec fn sorted_desc(cs: Seq<Cand>) -> bool {
    forall|i: int, j: int|
        0 <= i < j < cs.len() ==> frac_le(#[trigger] cs[j].weight.parts(), #[trigger] cs[i].weight.parts())
}

/// Appending a candidate no larger than the last keeps the order.
proof fn lemma_sorted_push(cs: Seq<Cand>, c: Cand)
    requires
        sorted_desc(cs),
        weights_pos(cs),
        frac_pos(c.weight.parts()),
        cs.len() > 0 ==> frac_le(c.weight.parts(), cs.last().weight.parts()),
    ensures
        sorted_desc(cs.push(c)),
        weights_pos(cs.push(c)),
{
    let ds = cs.push(c);
    assert forall|i: int| 0 <= i < ds.len() implies frac_pos(#[trigger] ds[i].weight.parts()) by {
        if i < cs.len() {
            assert(ds[i] == cs[i]);
        }
    }
    assert forall|i: int, j: int|
        0 <= i < j < ds.len() implies frac_le(#[trigger] ds[j].weight.parts(), #[trigger] ds[i].weight.parts()) by {
        assert(ds[i] == cs[i]);
        if j < cs.len() {
            assert(ds[j] == cs[j]);
        } else {
            let last = cs.len() - 1;
            if i < last {
                assert(frac_le(cs[last].weight.parts(), cs[i].weight.parts()));
                assert(frac_pos(cs[last].weight.parts()));
                assert(frac_pos(cs[i].weight.parts()));
                lemma_frac_trans(c.weight.parts(), cs[last].weight.parts(), cs[i].weight.parts());
            }
        }
    }
}

/// A path found in a list is still found after a push.
proof fn lemma_from_list_push(p: Seq<usize>, all: Seq<Cand>, c: Cand)
    requires
        from_list(p, all),
    ensures
        from_list(p, all.push(c)),
{
    let j = choose|j: int| 0 <= j < all.len() && all[j].path@ == p;
    assert(all.push(c)[j] == all[j]);
}

/// Appending a token that is not on a simple walk, and that a usable edge
/// reaches from its end, gives a simple walk one hop longer.
proof fn lemma_extend(g: &Graph, p: Seq<usize>, s: int, u: int, v: usize, h: nat)
    requires
        hop_path(g, p, s, u, h),
        !p.contains(v),
        v < g.tokens@.len(),
        g.linked(u, v as int),
    ensures
        hop_path(g, p.push(v), s, v as int, h + 1),
{
    let q = p.push(v);
    assert forall|i: int| 0 <= i < q.len() implies #[trigger] q[i] < g.tokens@.len() by {
        if i < p.len() {
            assert(q[i] == p[i]);
        }
    }
    assert forall|i: int| 0 <= i < q.len() - 1 implies g.linked(#[trigger] q[i] as int, q[i + 1] as int) by {
        if i < p.len() - 1 {
            assert(q[i] == p[i] && q[i + 1] == p[i + 1]);
        } else {
            assert(q[i] == p.last());
        }
    }
    assert forall|i: int, j: int| 0 <= i < j < q.len() implies q[i] != q[j] by {
        if j < p.len() {
            assert(q[i] == p[i] && q[j] == p[j]);
        } else {
            assert(q[i] == p[i]);
        }
    }
}

/// Candidate `c` of token `u` in `layer` can be extended along the `j`-th
/// coalesced edge out of `u`: the edge's head is not on its path.
spec fn extendable(layer: Seq<Vec<Cand>>, outgoing: Seq<Vec<(usize, Ratio)>>, u: int, c: int, j: int) -> bool {
    &&& 0 <= u < layer.len()
    &&& u < outgoing.len()
    &&& 0 <= c < layer[u]@.len()
    &&& 0 <= j < outgoing[u]@.len()
    &&& !layer[u]@[c].path@.contains(outgoing[u]@[j].0)
}

/// `ws` is a list of at most `TOP_K` paths that holds every simple walk of
/// `h` hops from `s` to `w`.
pub open spec fn covers(g: &Graph, s: int, w: int, h: nat, ws: Seq<Seq<usize>>) -> bool {
    &&& ws.len() <= TOP_K
    &&& forall|p: Seq<usize>| #[trigger] hop_path(g, p, s, w, h) ==> ws.contains(p)
}

/// At most `TOP_K` simple walks of `h` hops lead from `s` to `w`.
pub open spec fn walks_fit(g: &Graph, s: int, w: int, h: nat) -> bool {
    exists|ws: Seq<Seq<usize>>| #[trigger] covers(g, s, w, h, ws)
}

/// At most `TOP_K` simple walks of `h` hops lead from `s` to each token, so
/// that the cut at `TOP_K` partial paths per token drops none of them.
pub open spec fn layer_fits(g: &Graph, s: int, h: nat) -> bool {
    forall|w: int| 0 <= w < g.tokens@.len() ==> #[trigger] walks_fit(g, s, w, h)
}

/// `layer_fits` for every hop count from one to `max_hops`.
pub open spec fn fits_top_k(g: &Graph, s: int, max_hops: nat) -> bool {
    forall|h: nat| 1 <= h <= max_hops ==> #[trigger] layer_fits(g, s, h)
}

/// A bucket of distinct walks of `h` hops from `s` to `w` that lacks the walk
/// `p` still has room for it when those walks fit.
proof fn lemma_room(g: &Graph, s: int, w: int, h: nat, b: Seq<Cand>, p: Seq<usize>)
    requires
        walks_fit(g, s, w, h),
        paths_distinct(b),
        forall|c: int| 0 <= c < b.len() ==> #[trigger] cand_on(g, s, w, h, b[c]),
        hop_path(g, p, s, w, h),
        !from_list(p, b),
    ensures
        b.len() < TOP_K,
{
    broadcast use vstd::seq_lib::seq_to_set_is_finite;
    let ws = choose|ws: Seq<Seq<usize>>| #[trigger] covers(g, s, w, h, ws);
    let a = b.map_values(|c: Cand| c.path@).push(p);
    assert forall|i: int, j: int| 0 <= i < a.len() && 0 <= j < a.len() && i != j implies a[i] != a[j] by {
        if i < b.len() && j < b.len() {
            if i < j {
                assert(b[i].path@ != b[j].path@);
            } else {
                assert(b[j].path@ != b[i].path@);
            }
        } else if i < b.len() {
            assert(a[i] == b[i].path@);
        } else {
            assert(a[j] == b[j].path@);
        }
    }
    a.unique_seq_to_set();
    ws.lemma_cardinality_of_set();
    assert forall|x: Seq<usize>| a.to_set().contains(x) implies ws.to_set().contains(x) by {
        let i = choose|i: int| 0 <= i < a.len() && a[i] == x;
        if i < b.len() {
            assert(cand_on(g, s, w, h, b[i]));
            assert(hop_path(g, b[i].path@, s, w, h));
        }
        assert(hop_path(g, x, s, w, h));
        assert(ws.contains(x));
    }
    vstd::set_lib::lemma_len_subset(a.to_set(), ws.to_set());
}

/// Every simple walk of `h` hops from `s` to token `w` is among the
/// candidates kept for `w`.
spec fn layer_complete(g: &Graph, s: int, h: nat, layer: Seq<Vec<Cand>>) -> bool {
    forall|w: int, p: Seq<usize>| 0 <= w < layer.len() && #[trigger] hop_path(g, p, s, w, h) ==> from_list(p, layer[w]@)
}

/// Product of a sequence of fractions.
pub open spec fn rates_product(rs: Seq<(nat, nat)>) -> (nat, nat)
    decreases rs.len(),
{
    if rs.len() == 0 {
        (1nat, 1nat)
    } else {
        frac_mul(rates_product(rs.drop_last()), rs.last())
    }
}

/// `w` is the product of the best marginal rates along the hops of `p`.
pub open spec fn path_weight(g: &Graph, p: Seq<usize>, w: (nat, nat)) -> bool {
    exists|rs: Seq<(nat, nat)>|
        #[trigger] rates_product(rs) == w && rs.len() + 1 == p.len() && forall|k: int|
            0 <= k < rs.len() ==> best_hop_rate(g, p[k] as int, p[k + 1] as int, #[trigger] rs[k])
}

/// One more hop multiplies the product by the hop's best rate.
proof fn lemma_weight_extend(g: &Graph, p: Seq<usize>, w: (nat, nat), v: usize, r: (nat, nat))
    requires
        p.len() >= 1,
        path_weight(g, p, w),
        best_hop_rate(g, p.last() as int, v as int, r),
    ensures
        path_weight(g, p.push(v), frac_mul(w, r)),
{
    let q = p.push(v);
    let rs = choose|rs: Seq<(nat, nat)>|
        #[trigger] rates_product(rs) == w && rs.len() + 1 == p.len() && forall|k: int|
            0 <= k < rs.len() ==> best_hop_rate(g, p[k] as int, p[k + 1] as int, #[trigger] rs[k]);
    let rs2 = rs.push(r);
    assert(rs2.drop_last() =~= rs);
    assert(rates_product(rs2) == frac_mul(w, r));
    assert forall|k: int| 0 <= k < rs2.len() implies best_hop_rate(g, q[k] as int, q[k + 1] as int, #[trigger] rs2[k]) by {
        if k < rs.len() {
            assert(rs2[k] == rs[k]);
            assert(q[k] == p[k] && q[k + 1] == p[k + 1]);
        } else {
            assert(q[k] == p.last());
            assert(q[k + 1] == v);
        }
    }
}

/// A one-token path has product one.
proof fn lemma_weight_start(g: &Graph, p: Seq<usize>)
    requires
        p.len() == 1,
    ensures
        path_weight(g, p, (1nat, 1nat)),
{
    let rs = Seq::<(nat, nat)>::empty();
    assert(rates_product(rs) == (1nat, 1nat));
}

/// A candidate for token `w` after `h` hops: a simple walk of `h` hops from
/// `s` to `w` carrying the product of its best hop rates.
spec fn cand_on(g: &Graph, s: int, w: int, h: nat, c: Cand) -> bool {
    hop_path(g, c.path@, s, w, h) && path_weight(g, c.path@, c.weight.parts())
}

/// The candidates kept for token `w` after `h` hops: at most `TOP_K`, with
/// positive products, largest first.
spec fn bucket_ok(g: &Graph, s: int, w: int, h: nat, b: Seq<Cand>) -> bool {
    &&& b.len() <= TOP_K
    &&& sorted_desc(b)
    &&& weights_pos(b)
    &&& forall|c: int| 0 <= c < b.len() ==> #[trigger] cand_on(g, s, w, h, b[c])
}

/// The coalesced edges: each entry of `outgoing[w]` leads from `w` along a
/// usable edge and carries the best rate to its token.
spec fn outgoing_ok(g: &Graph, outgoing: Seq<Vec<(usize, Ratio)>>) -> bool {
    &&& outgoing.len() == g.tokens@.len()
    &&& forall|w: int, j: int|
        0 <= w < outgoing.len() && 0 <= j < outgoing[w]@.len() ==> #[trigger] outgoing[w]@[j].0
            < g.tokens@.len() && g.linked(w, outgoing[w]@[j].0 as int) && best_hop_rate(
            g,
            w,
            outgoing[w]@[j].0 as int,
            outgoing[w]@[j].1.parts(),
        )
    &&& forall|w: int, x: int, y: int|
        0 <= w < outgoing.len() && 0 <= x < y < outgoing[w]@.len() ==> #[trigger] outgoing[w]@[x].0
            != #[trigger] outgoing[w]@[y].0
    &&& forall|w: int, i: int| 0 <= w < outgoing.len() && #[trigger] g.usable(w, i) ==> lists_token(outgoing[w]@, g.adj@[w]@[i].to)
}

/// A bucket after inserting a valid candidate is valid.
proof fn lemma_bucket_insert(g: &Graph, s: int, v: int, h: nat, b: Seq<Cand>, c: Cand, nb: Seq<Cand>)
    requires
        bucket_ok(g, s, v, h, b),
        cand_on(g, s, v, h, c),
        nb.len() <= TOP_K,
        sorted_desc(nb),
        weights_pos(nb),
        forall|i: int| 0 <= i < nb.len() ==> kept_from(#[trigger] nb[i], c, b),
    ensures
        bucket_ok(g, s, v, h, nb),
{
    assert forall|i: int| 0 <= i < nb.len() implies #[trigger] cand_on(g, s, v, h, nb[i]) by {
        assert(kept_from(nb[i], c, b));
        if !same_cand(nb[i], c) {
            let j = choose|j: int| 0 <= j < b.len() && same_cand(b[j], nb[i]);
            assert(cand_on(g, s, v, h, b[j]));
        }
    }
}

/// Position `(uu, jj, cc)` of the extension loop (token, coalesced edge,
/// candidate) comes before `(u, j, ci)`.
spec fn before(u: int, j: int, ci: int, uu: int, jj: int, cc: int) -> bool {
    uu < u || (uu == u && jj < j) || (uu == u && jj == j && cc < ci)
}

/// `p` is candidate `cc` of token `uu` extended along the coalesced edge
/// `jj` to token `w`, at a position before `(u, j, ci)`.
spec fn made_before(
    layer: Seq<Vec<Cand>>,
    outgoing: Seq<Vec<(usize, Ratio)>>,
    u: int,
    j: int,
    ci: int,
    w: int,
    p: Seq<usize>,
) -> bool {
    exists|uu: int, jj: int, cc: int|
        #![trigger layer[uu]@[cc], outgoing[uu]@[jj]]
        before(u, j, ci, uu, jj, cc) && 0 <= uu < layer.len() && uu < outgoing.len() && 0 <= cc
            < layer[uu]@.len() && 0 <= jj < outgoing[uu]@.len() && outgoing[uu]@[jj].0 == w && p
            == layer[uu]@[cc].path@.push(w as usize)
}

/// Every candidate in `next` was made before `(u, j, ci)`.
spec fn origins(
    layer: Seq<Vec<Cand>>,
    outgoing: Seq<Vec<(usize, Ratio)>>,
    next: Seq<Vec<Cand>>,
    u: int,
    j: int,
    ci: int,
) -> bool {
    forall|w: int, x: int|
        0 <= w < next.len() && 0 <= x < next[w]@.len() ==> made_before(
            layer,
            outgoing,
            u,
            j,
            ci,
            w,
            (#[trigger] next[w]@[x]).path@,
        )
}

/// Every extension made before `(u, j, ci)` is among the candidates of its
/// token in `next`.
spec fn kept_before(
    layer: Seq<Vec<Cand>>,
    outgoing: Seq<Vec<(usize, Ratio)>>,
    next: Seq<Vec<Cand>>,
    u: int,
    j: int,
    ci: int,
) -> bool {
    forall|uu: int, cc: int, jj: int|
        before(u, j, ci, uu, jj, cc) && #[trigger] extendable(layer, outgoing, uu, cc, jj) ==> from_list(
            layer[uu]@[cc].path@.push(outgoing[uu]@[jj].0),
            next[outgoing[uu]@[jj].0 as int]@,
        )
}

/// Origins stay valid at a later position.
proof fn lemma_origins_later(
    layer: Seq<Vec<Cand>>,
    outgoing: Seq<Vec<(usize, Ratio)>>,
    next: Seq<Vec<Cand>>,
    u: int,
    j: int,
    ci: int,
    u2: int,
    j2: int,
    ci2: int,
)
    requires
        origins(layer, outgoing, next, u, j, ci),
        u2 > u || (u2 == u && j2 > j) || (u2 == u && j2 == j && ci2 >= ci),
    ensures
        origins(layer, outgoing, next, u2, j2, ci2),
{
    assert forall|w: int, x: int| 0 <= w < next.len() && 0 <= x < next[w]@.len() implies made_before(
        layer,
        outgoing,
        u2,
        j2,
        ci2,
        w,
        (#[trigger] next[w]@[x]).path@,
    ) by {
        assert(made_before(layer, outgoing, u, j, ci, w, next[w]@[x].path@));
        let (uu, jj, cc) = choose|uu: int, jj: int, cc: int|
            #![trigger layer[uu]@[cc], outgoing[uu]@[jj]]
            before(u, j, ci, uu, jj, cc) && 0 <= uu < layer.len() && uu < outgoing.len() && 0 <= cc
                < layer[uu]@.len() && 0 <= jj < outgoing[uu]@.len() && outgoing[uu]@[jj].0 == w
                && next[w]@[x].path@ == layer[uu]@[cc].path@.push(w as usize);
        assert(before(u2, j2, ci2, uu, jj, cc));
    }
}

/// Extending candidate `ci` of token `u` along the coalesced edge `j` to
/// `v` gives a path that no candidate made before it has.
proof fn lemma_fresh(
    g: &Graph,
    s: int,
    h: nat,
    layer: Seq<Vec<Cand>>,
    outgoing: Seq<Vec<(usize, Ratio)>>,
    next: Seq<Vec<Cand>>,
    u: int,
    j: int,
    ci: int,
    v: usize,
)
    requires
        origins(layer, outgoing, next, u, j, ci),
        outgoing_ok(g, outgoing),
        layer.len() == g.tokens@.len(),
        forall|w: int| 0 <= w < layer.len() ==> bucket_ok(g, s, w, h, #[trigger] layer[w]@),
        forall|w: int| 0 <= w < layer.len() ==> paths_distinct(#[trigger] layer[w]@),
        0 <= u < layer.len(),
        0 <= j < outgoing[u]@.len(),
        outgoing[u]@[j].0 == v,
        0 <= ci < layer[u]@.len(),
        v < next.len(),
    ensures
        !from_list(layer[u]@[ci].path@.push(v), next[v as int]@),
{
    let cp = layer[u]@[ci].path@;
    if from_list(cp.push(v), next[v as int]@) {
        let x = choose|x: int| 0 <= x < next[v as int]@.len() && next[v as int]@[x].path@ == cp.push(v);
        assert(made_before(layer, outgoing, u, j, ci, v as int, next[v as int]@[x].path@));
        let (uu, jj, cc) = choose|uu: int, jj: int, cc: int|
            #![trigger layer[uu]@[cc], outgoing[uu]@[jj]]
            before(u, j, ci, uu, jj, cc) && 0 <= uu < layer.len() && uu < outgoing.len() && 0 <= cc
                < layer[uu]@.len() && 0 <= jj < outgoing[uu]@.len() && outgoing[uu]@[jj].0 == v
                && next[v as int]@[x].path@ == layer[uu]@[cc].path@.push(v);
        let pp = layer[uu]@[cc].path@;
        assert(bucket_ok(g, s, uu, h, layer[uu]@));
        assert(cand_on(g, s, uu, h, layer[uu]@[cc]));
        assert(bucket_ok(g, s, u, h, layer[u]@));
        assert(cand_on(g, s, u, h, layer[u]@[ci]));
        assert(pp.len() == cp.len()) by {
            assert(pp.push(v).len() == cp.push(v).len());
        }
        assert(pp =~= cp) by {
            assert forall|k: int| 0 <= k < pp.len() implies pp[k] == cp[k] by {
                assert(pp.push(v)[k] == cp.push(v)[k]);
            }
        }
        assert(uu == u);
        if jj != j {
            if jj < j {
                assert(outgoing[u]@[jj].0 != outgoing[u]@[j].0);
            } else {
                assert(outgoing[u]@[j].0 != outgoing[u]@[jj].0);
            }
        }
        assert(cc < ci);
        assert(paths_distinct(layer[u]@));
        assert(layer[u]@[cc].path@ != layer[u]@[ci].path@);
    }
}

/// Rate products and paths one hop longer than those of `layer` (which
/// holds, per token `w`, distinct simple walks of `h` hops from `s` to
/// `w`), keeping per token the `TOP_K` best; when every walk of `h` hops is
/// in `layer` and the walks of `h + 1` hops fit, every one of them is kept.
fn extend_layer(
    graph: &Graph,
    outgoing: &Vec<Vec<(usize, Ratio)>>,
    layer: &Vec<Vec<Cand>>,
    s: usize,
    Ghost(h): Ghost<nat>,
) -> (r: Vec<Vec<Cand>>)
    requires
        graph.wf(),
        outgoing_ok(graph, outgoing@),
        layer@.len() == graph.tokens@.len(),
        forall|w: int| 0 <= w < layer@.len() ==> bucket_ok(graph, s as int, w, h, #[trigger] layer@[w]@),
        forall|w: int| 0 <= w < layer@.len() ==> paths_distinct(#[trigger] layer@[w]@),
    ensures
        r@.len() == graph.tokens@.len(),
        forall|w: int| 0 <= w < r@.len() ==> bucket_ok(graph, s as int, w, h + 1, #[trigger] r@[w]@),
        forall|w: int| 0 <= w < r@.len() ==> paths_distinct(#[trigger] r@[w]@),
        forall|u: int, c: int, j: int|
            #[trigger] extendable(layer@, outgoing@, u, c, j) ==> r@[outgoing@[u]@[j].0 as int]@.len() > 0,
        (layer_complete(graph, s as int, h, layer@) && layer_fits(graph, s as int, h + 1)) ==> layer_complete(
            graph,
            s as int,
            h + 1,
            r@,
        ),
{
    let n = graph.num_tokens();
    let mut next: Vec<Vec<Cand>> = Vec::new();
    let mut k: usize = 0;
    while k < n
        invariant
            k <= n,
            next@.len() == k,
            forall|w: int| 0 <= w < k ==> #[trigger] next@[w]@.len() == 0,
        decreases n - k,
    {
        next.push(Vec::new());
        k = k + 1;
    }
    proof {
        assert forall|w: int| 0 <= w < next@.len() implies bucket_ok(graph, s as int, w, h + 1, #[trigger] next@[w]@) by {
            assert(next@[w]@.len() == 0);
        }
        assert forall|w: int| 0 <= w < next@.len() implies paths_distinct(#[trigger] next@[w]@) by {
            assert(next@[w]@.len() == 0);
        }
        assert forall|w: int, x: int| 0 <= w < next@.len() && 0 <= x < next@[w]@.len() implies made_before(
            layer@,
            outgoing@,
            0,
            0,
            0,
            w,
            (#[trigger] next@[w]@[x]).path@,
        ) by {
            assert(next@[w]@.len() == 0);
        }
    }
    let mut u: usize = 0;
    while u < n
        invariant
            graph.wf(),
            n == graph.tokens@.len(),
            u <= n,
            outgoing_ok(graph, outgoing@),
            layer@.len() == n,
            next@.len() == n,
            forall|w: int| 0 <= w < layer@.len() ==> bucket_ok(graph, s as int, w, h, #[trigger] layer@[w]@),
            forall|w: int| 0 <= w < layer@.len() ==> paths_distinct(#[trigger] layer@[w]@),
            forall|w: int| 0 <= w < next@.len() ==> bucket_ok(graph, s as int, w, h + 1, #[trigger] next@[w]@),
            forall|w: int| 0 <= w < next@.len() ==> paths_distinct(#[trigger] next@[w]@),
            forall|uu: int, c: int, jj: int|
                uu < u && #[trigger] extendable(layer@, outgoing@, uu, c, jj) ==> next@[outgoing@[uu]@[jj].0 as int]@.len() > 0,
            origins(layer@, outgoing@, next@, u as int, 0, 0),
            layer_fits(graph, s as int, h + 1) ==> kept_before(layer@, outgoing@, next@, u as int, 0, 0),
        decreases n - u,
    {
        let targets = &outgoing[u];
        let from = &layer[u];
        proof {
            assert(bucket_ok(graph, s as int, u as int, h, layer@[u as int]@));
        }
        let mut j: usize = 0;
        while j < targets.len()
            invariant
                graph.wf(),
                n == graph.tokens@.len(),
                u < n,
                targets@ == outgoing@[u as int]@,
                from@ == layer@[u as int]@,
                j <= targets@.len(),
                next@.len() == n,
                outgoing_ok(graph, outgoing@),
                layer@.len() == n,
                bucket_ok(graph, s as int, u as int, h, from@),
                forall|w: int| 0 <= w < layer@.len() ==> bucket_ok(graph, s as int, w, h, #[trigger] layer@[w]@),
                forall|w: int| 0 <= w < layer@.len() ==> paths_distinct(#[trigger] layer@[w]@),
                forall|w: int| 0 <= w < next@.len() ==> bucket_ok(graph, s as int, w, h + 1, #[trigger] next@[w]@),
                forall|w: int| 0 <= w < next@.len() ==> paths_distinct(#[trigger] next@[w]@),
                forall|uu: int, c: int, jj: int|
                    (uu < u || (uu == u && jj < j)) && #[trigger] extendable(layer@, outgoing@, uu, c, jj)
                        ==> next@[outgoing@[uu]@[jj].0 as int]@.len() > 0,
                origins(layer@, outgoing@, next@, u as int, j as int, 0),
                layer_fits(graph, s as int, h + 1) ==> kept_before(layer@, outgoing@, next@, u as int, j as int, 0),
            decreases targets@.len() - j,
        {
            let v = targets[j].0;
            let rate = &targets[j].1;
            proof {
                assert(outgoing@[u as int]@[j as int].0 < n);
            }
            let mut ci: usize = 0;
            while ci < from.len()
                invariant
                    graph.wf(),
                    n == graph.tokens@.len(),
                    u < n,
                    v < n,
                    graph.linked(u as int, v as int),
                    best_hop_rate(graph, u as int, v as int, rate.parts()),
                    from@ == layer@[u as int]@,
                    ci <= from@.len(),
                    next@.len() == n,
                    bucket_ok(graph, s as int, u as int, h, from@),
                    forall|w: int| 0 <= w < layer@.len() ==> bucket_ok(graph, s as int, w, h, #[trigger] layer@[w]@),
                    forall|w: int| 0 <= w < layer@.len() ==> paths_distinct(#[trigger] layer@[w]@),
                    forall|w: int| 0 <= w < next@.len() ==> bucket_ok(graph, s as int, w, h + 1, #[trigger] next@[w]@),
                    forall|w: int| 0 <= w < next@.len() ==> paths_distinct(#[trigger] next@[w]@),
                    targets@ == outgoing@[u as int]@,
                    j < targets@.len(),
                    v == targets@[j as int].0,
                    *rate == targets@[j as int].1,
                    outgoing_ok(graph, outgoing@),
                    layer@.len() == n,
                    forall|uu: int, c: int, jj: int|
                        (uu < u || (uu == u && jj < j) || (uu == u && jj == j && c < ci))
                            && #[trigger] extendable(layer@, outgoing@, uu, c, jj)
                            ==> next@[outgoing@[uu]@[jj].0 as int]@.len() > 0,
                    origins(layer@, outgoing@, next@, u as int, j as int, ci as int),
                    layer_fits(graph, s as int, h + 1) ==> kept_before(layer@, outgoing@, next@, u as int, j as int, ci as int),
                decreases from@.len() - ci,
            {
                let c = &from[ci];
                let ghost next_start = next@;
                proof {
                    assert(cand_on(graph, s as int, u as int, h, from@[ci as int]));
                }
                if !contains(&c.path, v) {
                    let ghost q = c.path@.push(v);
                    proof {
                        lemma_extend(graph, c.path@, s as int, u as int, v, h);
                        lemma_fresh(graph, s as int, h, layer@, outgoing@, next@, u as int, j as int, ci as int, v);
                        assert(from@[ci as int] == *c);
                        if layer_fits(graph, s as int, h + 1) {
                            assert(walks_fit(graph, s as int, v as int, h + 1));
                            assert(bucket_ok(graph, s as int, v as int, h + 1, next@[v as int]@));
                            lemma_room(graph, s as int, v as int, h + 1, next@[v as int]@, q);
                        }
                    }
                    let new_weight = c.weight.mul(rate);
                    let full = next[v].len() >= TOP_K;
                    let keeps = if full {
                        new_weight.gt(&next[v][TOP_K - 1].weight)
                    } else {
                        true
                    };
                    if keeps {
                        let mut new_path = c.path.clone();
                        new_path.push(v);
                        let ghost nw = new_weight.parts();
                        proof {
                            lemma_weight_extend(graph, c.path@, c.weight.parts(), v, rate.parts());
                            assert(new_path@ == c.path@.push(v));
                            assert(frac_pos(c.weight.parts()));
                            let k0 = choose|k0: int|
                                #![trigger graph.adj@[u as int]@[k0]]
                                graph.usable(u as int, k0) && graph.adj@[u as int]@[k0].to == v as int
                                    && hop_rate(graph, u as int, graph.adj@[u as int]@[k0].pool as int) == rate.parts();
                            assert(graph.usable(u as int, k0));
                            assert(graph.hop(u as int, v as int, graph.adj@[u as int]@[k0].pool as int));
                            lemma_hop_rate_pos(graph, u as int, v as int, graph.adj@[u as int]@[k0].pool as int);
                            lemma_frac_mul_pos(c.weight.parts(), rate.parts());
                            assert(bucket_ok(graph, s as int, v as int, h + 1, next@[v as int]@));
                        }
                        let cand = Cand { weight: new_weight, path: new_path };
                        proof {
                            assert(cand_on(graph, s as int, v as int, h + 1, cand));
                        }
                        let ghost b0 = next@[v as int]@;
                        let nb = insert_by_weight(&next[v], cand, TOP_K);
                        proof {
                            lemma_bucket_insert(graph, s as int, v as int, h + 1, b0, cand, nb@);
                            assert(paths_distinct(b0));
                        }
                        next.set(v, nb);
                        proof {
                            assert(next@[v as int]@.len() > 0);
                            assert forall|w: int, x: int| 0 <= w < next@.len() && 0 <= x < next@[w]@.len() implies made_before(
                                layer@,
                                outgoing@,
                                u as int,
                                j as int,
                                ci + 1,
                                w,
                                (#[trigger] next@[w]@[x]).path@,
                            ) by {
                                if w == v as int {
                                    assert(kept_from(nb@[x], cand, b0));
                                    if same_cand(nb@[x], cand) {
                                        assert(layer@[u as int]@[ci as int] == *c);
                                        assert(outgoing@[u as int]@[j as int].0 == v);
                                        assert(before(u as int, j as int, ci + 1, u as int, j as int, ci as int));
                                    } else {
                                        let y = choose|y: int| 0 <= y < b0.len() && same_cand(b0[y], nb@[x]);
                                        assert(made_before(layer@, outgoing@, u as int, j as int, ci as int, w, next_start[w]@[y].path@));
                                        lemma_origins_later(layer@, outgoing@, next_start, u as int, j as int, ci as int, u as int, j as int, ci + 1);
                                        assert(made_before(layer@, outgoing@, u as int, j as int, ci + 1, w, next_start[w]@[y].path@));
                                    }
                                } else {
                                    assert(next@[w] == next_start[w]);
                                    lemma_origins_later(layer@, outgoing@, next_start, u as int, j as int, ci as int, u as int, j as int, ci + 1);
                                    assert(made_before(layer@, outgoing@, u as int, j as int, ci + 1, w, next_start[w]@[x].path@));
                                }
                            }
                            if layer_fits(graph, s as int, h + 1) {
                                assert(b0.len() < TOP_K);
                                assert(from_list(q, next@[v as int]@));
                                assert forall|uu: int, cc: int, jj: int|
                                    before(u as int, j as int, ci + 1, uu, jj, cc) && #[trigger] extendable(layer@, outgoing@, uu, cc, jj)
                                    implies from_list(
                                        layer@[uu]@[cc].path@.push(outgoing@[uu]@[jj].0),
                                        next@[outgoing@[uu]@[jj].0 as int]@,
                                    ) by {
                                    let t = outgoing@[uu]@[jj].0 as int;
                                    if uu == u && jj == j && cc == ci {
                                        assert(layer@[uu]@[cc] == *c);
                                    } else {
                                        assert(before(u as int, j as int, ci as int, uu, jj, cc));
                                        assert(from_list(layer@[uu]@[cc].path@.push(outgoing@[uu]@[jj].0), next_start[t]@));
                                        if t == v as int {
                                            let y = choose|y: int| 0 <= y < b0.len() && b0[y].path@ == layer@[uu]@[cc].path@.push(outgoing@[uu]@[jj].0);
                                            assert(from_list(b0[y].path@, nb@));
                                        } else {
                                            assert(next@[t] == next_start[t]);
                                        }
                                    }
                                }
                            }
                        }
                    } else {
                        proof {
                            lemma_origins_later(layer@, outgoing@, next@, u as int, j as int, ci as int, u as int, j as int, ci + 1);
                        }
                    }
                    assert(next@[v as int]@.len() > 0);
                } else {
                    proof {
                        lemma_origins_later(layer@, outgoing@, next@, u as int, j as int, ci as int, u as int, j as int, ci + 1);
                        if layer_fits(graph, s as int, h + 1) {
                            assert forall|uu: int, cc: int, jj: int|
                                before(u as int, j as int, ci + 1, uu, jj, cc) && #[trigger] extendable(layer@, outgoing@, uu, cc, jj)
                                implies from_list(
                                    layer@[uu]@[cc].path@.push(outgoing@[uu]@[jj].0),
                                    next@[outgoing@[uu]@[jj].0 as int]@,
                                ) by {
                                if uu == u && jj == j && cc == ci {
                                    assert(layer@[uu]@[cc] == *c);
                                    assert(outgoing@[uu]@[jj].0 == v);
                                } else {
                                    assert(before(u as int, j as int, ci as int, uu, jj, cc));
                                }
                            }
                        }
                    }
                }
                proof {
                    assert forall|w: int| 0 <= w < next@.len() implies bucket_ok(graph, s as int, w, h + 1, #[trigger] next@[w]@) by {
                        if w != v as int {
                            assert(next@[w] == next_start[w]);
                        }
                    }
                    assert forall|w: int| 0 <= w < next@.len() implies paths_distinct(#[trigger] next@[w]@) by {
                        if w != v as int {
                            assert(next@[w] == next_start[w]);
                        }
                    }
                    assert forall|w: int| 0 <= w < n && #[trigger] next_start[w]@.len() > 0 implies next@[w]@.len() > 0 by {
                        if w != v as int {
                            assert(next@[w] == next_start[w]);
                        }
                    }
                    assert forall|uu: int, cc: int, jj: int|
                        (uu < u || (uu == u && jj < j) || (uu == u && jj == j && cc < ci + 1))
                            && #[trigger] extendable(layer@, outgoing@, uu, cc, jj)
                            implies next@[outgoing@[uu]@[jj].0 as int]@.len() > 0 by {
                        if uu == u && jj == j && cc == ci {
                            assert(from@[ci as int] == *c);
                            assert(outgoing@[uu]@[jj].0 == v);
                        } else {
                            assert(next_start[outgoing@[uu]@[jj].0 as int]@.len() > 0);
                            assert(outgoing@[uu]@[jj].0 < n);
                        }
                    }
                }
                ci = ci + 1;
            }
            proof {
                lemma_origins_later(layer@, outgoing@, next@, u as int, j as int, ci as int, u as int, j + 1, 0);
                if layer_fits(graph, s as int, h + 1) {
                    assert forall|uu: int, cc: int, jj: int|
                        before(u as int, j + 1, 0, uu, jj, cc) && #[trigger] extendable(layer@, outgoing@, uu, cc, jj)
                        implies from_list(
                            layer@[uu]@[cc].path@.push(outgoing@[uu]@[jj].0),
                            next@[outgoing@[uu]@[jj].0 as int]@,
                        ) by {
                        assert(before(u as int, j as int, ci as int, uu, jj, cc));
                    }
                }
            }
            j = j + 1;
        }
        proof {
            lemma_origins_later(layer@, outgoing@, next@, u as int, j as int, 0, u + 1, 0, 0);
            if layer_fits(graph, s as int, h + 1) {
                assert forall|uu: int, cc: int, jj: int|
                    before(u + 1, 0, 0, uu, jj, cc) && #[trigger] extendable(layer@, outgoing@, uu, cc, jj)
                    implies from_list(
                        layer@[uu]@[cc].path@.push(outgoing@[uu]@[jj].0),
                        next@[outgoing@[uu]@[jj].0 as int]@,
                    ) by {
                    assert(before(u as int, j as int, 0, uu, jj, cc));
                }
            }
        }
        u = u + 1;
    }
    proof {
        if layer_complete(graph, s as int, h, layer@) && layer_fits(graph, s as int, h + 1) {
            assert forall|w: int, q: Seq<usize>| 0 <= w < next@.len() && #[trigger] hop_path(graph, q, s as int, w, h + 1) implies from_list(q, next@[w]@) by {
                let uu = q[h as int] as int;
                let p = q.drop_last();
                assert(hop_path(graph, p, s as int, uu, h)) by {
                    assert forall|i: int| 0 <= i < p.len() implies #[trigger] p[i] < graph.tokens@.len() by {
                        assert(p[i] == q[i]);
                    }
                    assert forall|i: int| 0 <= i < p.len() - 1 implies graph.linked(#[trigger] p[i] as int, p[i + 1] as int) by {
                        assert(p[i] == q[i] && p[i + 1] == q[i + 1]);
                    }
                    assert forall|a: int, b: int| 0 <= a < b < p.len() implies p[a] != p[b] by {
                        assert(p[a] == q[a] && p[b] == q[b]);
                    }
                }
                assert(0 <= uu < layer@.len());
                assert(from_list(p, layer@[uu]@));
                let cc = choose|cc: int| 0 <= cc < layer@[uu]@.len() && layer@[uu]@[cc].path@ == p;
                assert(graph.linked(q[h as int] as int, q[h + 1int] as int));
                let i = choose|i: int| #![trigger graph.adj@[uu]@[i]] graph.usable(uu, i) && graph.adj@[uu]@[i].to == w;
                assert(graph.usable(uu, i));
                assert(lists_token(outgoing@[uu]@, graph.adj@[uu]@[i].to));
                let jj = choose|jj: int| 0 <= jj < outgoing@[uu]@.len() && outgoing@[uu]@[jj].0 == graph.adj@[uu]@[i].to;
                assert(!p.contains(w as usize)) by {
                    if p.contains(w as usize) {
                        let a = choose|a: int| 0 <= a < p.len() && p[a] == w as usize;
                        assert(q[a] == p[a]);
                        assert(q[a] != q[h + 1int]);
                    }
                }
                assert(extendable(layer@, outgoing@, uu, cc, jj));
                assert(before(n as int, 0, 0, uu, jj, cc));
                assert(p.push(w as usize) =~= q);
            }
        }
    }
    next
}

/// Every path of up to `max_hops` hops from `s` to `d` that survives the
/// per-layer cut, shortest hop count first, each layer best first.
fn collect_paths(
    graph: &Graph,
    outgoing: &Vec<Vec<(usize, Ratio)>>,
    s: usize,
    d: usize,
    max_hops: usize,
) -> (r: Vec<Cand>)
    requires
        graph.wf(),
        s < graph.tokens@.len(),
        d < graph.tokens@.len(),
        outgoing_ok(graph, outgoing@),
        forall|i: int| #[trigger] graph.usable(s as int, i) ==> lists_token(outgoing@[s as int]@, graph.adj@[s as int]@[i].to),
    ensures
        forall|i: int|
            0 <= i < r@.len() ==> #[trigger] within_hops(graph, r@[i].path@, s as int, d as int, max_hops as nat),
        (s != d && max_hops >= 1 && graph.linked(s as int, d as int)) ==> from_list(seq![s, d], r@),
        r@.len() <= TOP_K * max_hops,
        weights_pos(r@),
        forall|i: int| 0 <= i < r@.len() ==> path_weight(graph, #[trigger] r@[i].path@, r@[i].weight.parts()),
        paths_distinct(r@),
        fits_top_k(graph, s as int, max_hops as nat) ==> forall|p: Seq<usize>|
            #[trigger] within_hops(graph, p, s as int, d as int, max_hops as nat) ==> from_list(p, r@),
{
    let n = graph.num_tokens();
    let mut layer: Vec<Vec<Cand>> = Vec::new();
    let mut k: usize = 0;
    while k < n
        invariant
            k <= n,
            n == graph.tokens@.len(),
            s < n,
            layer@.len() == k,
            forall|w: int| 0 <= w < k && w != s ==> (#[trigger] layer@[w])@.len() == 0,
            s < k ==> layer@[s as int]@.len() == 1 && layer@[s as int]@[0].path@ == seq![s]
                && layer@[s as int]@[0].weight.parts() == (1nat, 1nat),
        decreases n - k,
    {
        let mut b: Vec<Cand> = Vec::new();
        if k == s {
            let mut p: Vec<usize> = Vec::new();
            p.push(s);
            proof {
                assert(p@ =~= seq![s]);
            }
            b.push(Cand { weight: Ratio::one(), path: p });
        }
        let ghost layer0 = layer@;
        layer.push(b);
        proof {
            assert forall|w: int| 0 <= w < k + 1 && w != s implies (#[trigger] layer@[w])@.len() == 0 by {
                if w < k {
                    assert(layer@[w] == layer0[w]);
                }
            }
            if s < k {
                assert(layer@[s as int] == layer0[s as int]);
            }
        }
        k = k + 1;
    }
    proof {
        assert forall|w: int| 0 <= w < layer@.len() implies bucket_ok(graph, s as int, w, 0, #[trigger] layer@[w]@) by {
            if w != s {
                assert(layer@[w]@.len() == 0);
            } else {
                let b = layer@[w]@;
                assert(b.len() == 1);
                assert(b[0].path@ == seq![s]);
                assert(b[0].weight.parts() == (1nat, 1nat));
                lemma_weight_start(graph, b[0].path@);
                assert(hop_path(graph, b[0].path@, s as int, w, 0));
                assert(path_weight(graph, b[0].path@, b[0].weight.parts()));
                assert(cand_on(graph, s as int, w, 0, b[0]));
            }
        }
        assert forall|w: int| 0 <= w < layer@.len() implies paths_distinct(#[trigger] layer@[w]@) by {
            if w != s {
                assert(layer@[w]@.len() == 0);
            }
        }
        assert forall|w: int, p: Seq<usize>| 0 <= w < layer@.len() && #[trigger] hop_path(graph, p, s as int, w, 0) implies from_list(p, layer@[w]@) by {
            assert(p =~= seq![s]);
            assert(layer@[s as int]@[0].path@ == seq![s]);
        }
    }
    let mut all: Vec<Cand> = Vec::new();
    let mut done: usize = 0;
    while done < max_hops
        invariant
            graph.wf(),
            n == graph.tokens@.len(),
            s < n,
            d < n,
            done <= max_hops,
            layer@.len() == n,
            outgoing@.len() == n,
            outgoing_ok(graph, outgoing@),
            forall|w: int| 0 <= w < layer@.len() ==> bucket_ok(graph, s as int, w, done as nat, #[trigger] layer@[w]@),
            weights_pos(all@),
            forall|i: int| 0 <= i < all@.len() ==> path_weight(graph, #[trigger] all@[i].path@, all@[i].weight.parts()),
            forall|i: int|
                0 <= i < all@.len() ==> #[trigger] within_hops(graph, all@[i].path@, s as int, d as int, max_hops as nat),
            forall|i: int| #[trigger] graph.usable(s as int, i) ==> lists_token(outgoing@[s as int]@, graph.adj@[s as int]@[i].to),
            done == 0 ==> layer@[s as int]@.len() == 1,
            (done >= 1 && s != d && graph.linked(s as int, d as int)) ==> from_list(seq![s, d], all@),
            all@.len() <= TOP_K * done,
            forall|w: int| 0 <= w < layer@.len() ==> paths_distinct(#[trigger] layer@[w]@),
            fits_top_k(graph, s as int, max_hops as nat) ==> layer_complete(graph, s as int, done as nat, layer@),
            paths_distinct(all@),
            forall|i: int| 0 <= i < all@.len() ==> (#[trigger] all@[i]).path@.len() <= done + 1,
            fits_top_k(graph, s as int, max_hops as nat) ==> forall|p: Seq<usize>, hh: nat|
                1 <= hh <= done && #[trigger] hop_path(graph, p, s as int, d as int, hh) ==> from_list(p, all@),
        decreases max_hops - done,
    {
        let next = extend_layer(graph, outgoing, &layer, s, Ghost(done as nat));
        let ghost all0 = all@;
        proof {
            if fits_top_k(graph, s as int, max_hops as nat) {
                assert(layer_fits(graph, s as int, (done + 1) as nat));
            }
        }
        proof {
            if done == 0 && s != d && graph.linked(s as int, d as int) {
                let i = choose|i: int| #![trigger graph.adj@[s as int]@[i]] graph.usable(s as int, i) && graph.adj@[s as int]@[i].to == d;
                assert(graph.usable(s as int, i));
                let j = choose|j: int| 0 <= j < outgoing@[s as int]@.len() && outgoing@[s as int]@[j].0 == d;
                assert(bucket_ok(graph, s as int, s as int, 0, layer@[s as int]@));
                assert(cand_on(graph, s as int, s as int, 0, layer@[s as int]@[0]));
                assert(hop_path(graph, layer@[s as int]@[0].path@, s as int, s as int, 0));
                assert(layer@[s as int]@[0].path@ =~= seq![s]);
                assert(!seq![s].contains(d)) by {
                    assert(seq![s][0] == s);
                }
                assert(extendable(layer@, outgoing@, s as int, 0, j));
            }
        }
        let bucket = &next[d];
        let mut c: usize = 0;
        while c < bucket.len()
            invariant
                bucket@ == next@[d as int]@,
                c <= bucket@.len(),
                done < max_hops,
                bucket_ok(graph, s as int, d as int, (done + 1) as nat, bucket@),
                weights_pos(all@),
                forall|i: int| 0 <= i < all@.len() ==> path_weight(graph, #[trigger] all@[i].path@, all@[i].weight.parts()),
                forall|i: int|
                    0 <= i < all@.len() ==> #[trigger] within_hops(graph, all@[i].path@, s as int, d as int, max_hops as nat),
                (done == 0 && s != d && graph.linked(s as int, d as int)) ==> bucket@.len() > 0,
                ((done >= 1 || c > 0) && s != d && graph.linked(s as int, d as int)) ==> from_list(seq![s, d], all@),
                all@.len() <= TOP_K * done + c,
                bucket@.len() <= TOP_K,
                paths_distinct(bucket@),
                all@.len() == all0.len() + c,
                forall|i: int| 0 <= i < all0.len() ==> all@[i] == all0[i],
                forall|y: int| 0 <= y < c ==> (#[trigger] all@[all0.len() + y]).path@ == bucket@[y].path@,
                paths_distinct(all0),
                forall|i: int| 0 <= i < all0.len() ==> (#[trigger] all0[i]).path@.len() <= done + 1,
                paths_distinct(all@),
                forall|i: int| 0 <= i < all@.len() ==> (#[trigger] all@[i]).path@.len() <= done + 2,
                fits_top_k(graph, s as int, max_hops as nat) ==> forall|p: Seq<usize>, hh: nat|
                    1 <= hh <= done && #[trigger] hop_path(graph, p, s as int, d as int, hh) ==> from_list(p, all@),
            decreases bucket@.len() - c,
        {
            let cc = bucket[c].copy();
            proof {
                assert(cand_on(graph, s as int, d as int, (done + 1) as nat, bucket@[c as int]));
                assert(hop_path(graph, bucket@[c as int].path@, s as int, d as int, (done + 1) as nat));
                assert(weights_pos(bucket@));
                assert(frac_pos(bucket@[c as int].weight.parts()));
                assert(within_hops(graph, cc.path@, s as int, d as int, max_hops as nat));
            }
            let ghost all_c = all@;
            let ghost cp = cc.path@;
            all.push(cc);
            proof {
                assert forall|i: int| 0 <= i < all@.len() implies #[trigger] within_hops(graph, all@[i].path@, s as int, d as int, max_hops as nat) by {
                    if i < all_c.len() {
                        assert(all@[i] == all_c[i]);
                    }
                }
                assert forall|i: int| 0 <= i < all@.len() implies frac_pos(#[trigger] all@[i].weight.parts()) by {
                    if i < all_c.len() {
                        assert(all@[i] == all_c[i]);
                    }
                }
                assert forall|i: int| 0 <= i < all@.len() implies path_weight(graph, #[trigger] all@[i].path@, all@[i].weight.parts()) by {
                    if i < all_c.len() {
                        assert(all@[i] == all_c[i]);
                    }
                }
                assert(cp.len() == done + 2);
                assert forall|a: int, b: int| 0 <= a < b < all@.len() implies (#[trigger] all@[a]).path@ != (#[trigger] all@[b]).path@ by {
                    if b < all@.len() - 1 {
                        assert(all@[a] == all_c[a] && all@[b] == all_c[b]);
                    } else if a < all0.len() {
                        assert(all@[a] == all0[a]);
                    } else {
                        let y = a - all0.len();
                        assert(all@[all0.len() + y] == all_c[all0.len() + y]);
                        assert(bucket@[y].path@ != bucket@[c as int].path@);
                    }
                }
                assert forall|i: int| 0 <= i < all@.len() implies (#[trigger] all@[i]).path@.len() <= done + 2 by {
                    if i < all@.len() - 1 {
                        assert(all@[i] == all_c[i]);
                    }
                }
                assert forall|i: int| 0 <= i < all0.len() implies all@[i] == all0[i] by {
                    assert(all@[i] == all_c[i]);
                }
                assert forall|y: int| 0 <= y < c + 1 implies (#[trigger] all@[all0.len() + y]).path@ == bucket@[y].path@ by {
                    if y < c {
                        assert(all@[all0.len() + y] == all_c[all0.len() + y]);
                    }
                }
                if fits_top_k(graph, s as int, max_hops as nat) {
                    assert forall|p: Seq<usize>, hh: nat|
                        1 <= hh <= done && #[trigger] hop_path(graph, p, s as int, d as int, hh) implies from_list(p, all@) by {
                        lemma_from_list_push(p, all_c, all@[all@.len() - 1]);
                    }
                }
                if s != d && graph.linked(s as int, d as int) {
                    if done >= 1 || c > 0 {
                        lemma_from_list_push(seq![s, d], all_c, all@[all@.len() - 1]);
                    } else {
                        lemma_one_hop(graph, bucket@[0].path@, s as int, d as int);
                        assert(all@[all@.len() - 1].path@ == cp);
                        assert(from_list(seq![s, d], all@));
                    }
                }
            }
            c = c + 1;
        }
        proof {
            assert forall|i: int| 0 <= i < all@.len() implies (#[trigger] all@[i]).path@.len() <= done + 2 by {}
            if fits_top_k(graph, s as int, max_hops as nat) {
                assert forall|p: Seq<usize>, hh: nat|
                    1 <= hh <= done + 1 && #[trigger] hop_path(graph, p, s as int, d as int, hh) implies from_list(p, all@) by {
                    if hh == done + 1 {
                        assert(from_list(p, bucket@));
                        let y = choose|y: int| 0 <= y < bucket@.len() && bucket@[y].path@ == p;
                        assert(all@[all0.len() + y].path@ == p);
                    }
                }
            }
        }
        layer = next;
        done = done + 1;
    }
    proof {
        if fits_top_k(graph, s as int, max_hops as nat) {
            assert forall|p: Seq<usize>| #[trigger] within_hops(graph, p, s as int, d as int, max_hops as nat) implies from_list(p, all@) by {
                let hh = choose|hh: nat| 1 <= hh <= max_hops && #[trigger] hop_path(graph, p, s as int, d as int, hh);
            }
        }
    }
    all
}

/// A simple walk of one hop from `s` to `d` is `[s, d]`.
proof fn lemma_one_hop(g: &Graph, p: Seq<usize>, s: int, d: int)
    requires
        hop_path(g, p, s, d, 1),
    ensures
        p == seq![s as usize, d as usize],
{
    assert(p =~= seq![s as usize, d as usize]);
}

/// Some candidate of `all` has the path and product of `c`.
spec fn from_cands(c: Cand, all: Seq<Cand>) -> bool {
    exists|k: int| 0 <= k < all.len() && same_cand(all[k], c)
}

/// Some candidate of `all` has the path `p`.
spec fn from_list(p: Seq<usize>, all: Seq<Cand>) -> bool {
    exists|j: int| 0 <= j < all.len() && all[j].path@ == p
}

/// `all` ordered by rate product, best first, keeping the given order among
/// equal products.
fn sort_by_weight(all: Vec<Cand>) -> (r: Vec<Cand>)
    requires
        weights_pos(all@),
    ensures
        forall|i: int| 0 <= i < r@.len() ==> #[trigger] from_list(r@[i].path@, all@),
        forall|i: int| 0 <= i < all@.len() ==> from_list(#[trigger] all@[i].path@, r@),
        r@.len() == all@.len(),
        sorted_desc(r@),
        weights_pos(r@),
        forall|i: int| 0 <= i < r@.len() ==> from_cands(#[trigger] r@[i], all@),
        paths_distinct(all@) ==> paths_distinct(r@),
{
    let mut out: Vec<Cand> = Vec::new();
    let mut i: usize = 0;
    while i < all.len()
        invariant
            i <= all@.len(),
            out@.len() == i,
            forall|x: int| 0 <= x < out@.len() ==> #[trigger] from_list(out@[x].path@, all@),
            forall|k: int| 0 <= k < i ==> from_list(#[trigger] all@[k].path@, out@),
            weights_pos(all@),
            sorted_desc(out@),
            weights_pos(out@),
            forall|x: int| 0 <= x < out@.len() ==> from_cands(#[trigger] out@[x], all@),
            paths_distinct(all@) ==> paths_distinct(out@),
            forall|x: int| 0 <= x < out@.len() ==> exists|k: int| 0 <= k < i && all@[k].path@ == (#[trigger] out@[x]).path@,
        decreases all@.len() - i,
    {
        let c = all[i].copy();
        let ghost out0 = out@;
        let ghost cp = c.path@;
        let ghost c0 = c;
        proof {
            assert(frac_pos(all@[i as int].weight.parts()));
            assert(same_cand(all@[i as int], c));
        }
        proof {
            if paths_distinct(all@) {
                if from_list(cp, out0) {
                    let x = choose|x: int| 0 <= x < out0.len() && out0[x].path@ == cp;
                    let k = choose|k: int| 0 <= k < i && all@[k].path@ == out0[x].path@;
                    assert(all@[k].path@ != all@[i as int].path@);
                }
            }
        }
        out = insert_by_weight(&out, c, usize::MAX);
        proof {
            assert forall|x: int| 0 <= x < out@.len() implies exists|k: int| 0 <= k < i + 1 && all@[k].path@ == (#[trigger] out@[x]).path@ by {
                if out@[x].path@ == cp {
                    assert(all@[i as int].path@ == cp);
                } else {
                    let j = choose|j: int| 0 <= j < out0.len() && out0[j].path@ == out@[x].path@;
                    assert(exists|k: int| 0 <= k < i && all@[k].path@ == (#[trigger] out0[j]).path@);
                }
            }
        }
        proof {
            assert forall|x: int| 0 <= x < out@.len() implies from_cands(#[trigger] out@[x], all@) by {
                assert(kept_from(out@[x], c0, out0));
                if same_cand(out@[x], c0) {
                    assert(same_cand(all@[i as int], out@[x]));
                } else {
                    let j = choose|j: int| 0 <= j < out0.len() && same_cand(out0[j], out@[x]);
                    assert(from_cands(out0[j], all@));
                    let k = choose|k: int| 0 <= k < all@.len() && same_cand(all@[k], out0[j]);
                    assert(same_cand(all@[k], out@[x]));
                }
            }
        }
        proof {
            assert forall|k: int| 0 <= k < i + 1 implies from_list(#[trigger] all@[k].path@, out@) by {
                if k < i {
                    let x = choose|x: int| 0 <= x < out0.len() && out0[x].path@ == all@[k].path@;
                    assert(from_list(out0[x].path@, out@));
                } else {
                    assert(cp == all@[k].path@);
                }
            }
        }
        proof {
            assert forall|x: int| 0 <= x < out@.len() implies #[trigger] from_list(out@[x].path@, all@) by {
                if out@[x].path@ != all@[i as int].path@ {
                    let jj = choose|jj: int| 0 <= jj < out0.len() && out0[jj].path@ == out@[x].path@;
                    assert(from_list(out0[jj].path@, all@));
                } else {
                    assert(all@[i as int].path@ == out@[x].path@);
                }
            }
        }
        i = i + 1;
    }
    out
}

impl BoundedBfIter {
    /// The paths not yet handed out.
    pub closed spec fn remaining(&self) -> Seq<Seq<usize>> {
        if self.pos <= self.paths@.len() {
            views(self.paths@).skip(self.pos as int)
        } else {
            Seq::empty()
        }
    }

    /// An enumeration with nothing in it.
    fn empty() -> (r: Self)
        ensures
            r.remaining() == Seq::<Seq<usize>>::empty(),
    {
        BoundedBfIter { paths: Vec::new(), pos: 0 }
    }

    /// Enumerates simple paths from `src` to `dst` with at most `max_hops`
    /// edges, best rate product first; empty for a token outside the graph,
    /// and the one trivial path when `src == dst`.
    pub fn new(graph: &Graph, src: usize, dst: usize, max_hops: usize) -> (r: Self)
        requires
            graph.wf(),
        ensures
            (src >= graph.tokens@.len() || dst >= graph.tokens@.len()) ==> r.remaining()
                == Seq::<Seq<usize>>::empty(),
            (src < graph.tokens@.len() && dst < graph.tokens@.len()) ==> emits(
                graph,
                r.remaining(),
                src as int,
                dst as int,
                max_hops as nat,
            ),
    {
        let n = graph.num_tokens();
        if src >= n || dst >= n {
            return Self::empty();
        }
        if src == dst {
            let mut p: Vec<usize> = Vec::new();
            p.push(src);
            let mut paths: Vec<Vec<usize>> = Vec::new();
            paths.push(p);
            let r = BoundedBfIter { paths, pos: 0 };
            proof {
                assert(r.remaining() =~= seq![seq![src]]);
            }
            return r;
        }
        let mut outgoing: Vec<Vec<(usize, Ratio)>> = Vec::new();
        let mut u: usize = 0;
        while u < n
            invariant
                graph.wf(),
                n == graph.tokens@.len(),
                u <= n,
                outgoing@.len() == u,
                forall|w: int, j: int|
                    0 <= w < u && 0 <= j < outgoing@[w]@.len() ==> #[trigger] outgoing@[w]@[j].0
                        < n && graph.linked(w, outgoing@[w]@[j].0 as int),
                forall|w: int, i: int| 0 <= w < u && #[trigger] graph.usable(w, i) ==> lists_token(outgoing@[w]@, graph.adj@[w]@[i].to),
                forall|w: int, x: int, y: int|
                    0 <= w < u && 0 <= x < y < outgoing@[w]@.len() ==> #[trigger] outgoing@[w]@[x].0
                        != #[trigger] outgoing@[w]@[y].0,
                forall|w: int, j: int|
                    0 <= w < u && 0 <= j < outgoing@[w]@.len() ==> best_hop_rate(
                        graph,
                        w,
                        #[trigger] outgoing@[w]@[j].0 as int,
                        outgoing@[w]@[j].1.parts(),
                    ),
            decreases n - u,
        {
            let ghost out0 = outgoing@;
            outgoing.push(coalesce(graph, u));
            proof {
                assert forall|w: int, j: int|
                    0 <= w < u + 1 && 0 <= j < outgoing@[w]@.len() implies best_hop_rate(
                        graph,
                        w,
                        #[trigger] outgoing@[w]@[j].0 as int,
                        outgoing@[w]@[j].1.parts(),
                    ) by {
                    if w < u {
                        assert(outgoing@[w] == out0[w]);
                    }
                }
                assert forall|w: int, i: int| 0 <= w < u + 1 && #[trigger] graph.usable(w, i) implies lists_token(outgoing@[w]@, graph.adj@[w]@[i].to) by {
                    if w < u {
                        assert(outgoing@[w] == out0[w]);
                    }
                }
                assert forall|w: int, x: int, y: int|
                    0 <= w < u + 1 && 0 <= x < y < outgoing@[w]@.len() implies #[trigger] outgoing@[w]@[x].0
                        != #[trigger] outgoing@[w]@[y].0 by {
                    if w < u {
                        assert(outgoing@[w] == out0[w]);
                    }
                }
            }
            u = u + 1;
        }
        proof {
            assert forall|w: int, j: int|
                0 <= w < outgoing@.len() && 0 <= j < outgoing@[w]@.len() implies #[trigger] outgoing@[w]@[j].0
                    < graph.tokens@.len() && graph.linked(w, outgoing@[w]@[j].0 as int) && best_hop_rate(
                    graph,
                    w,
                    outgoing@[w]@[j].0 as int,
                    outgoing@[w]@[j].1.parts(),
                ) by {
                assert(best_hop_rate(graph, w, outgoing@[w]@[j].0 as int, outgoing@[w]@[j].1.parts()));
            }
        }
        let all = collect_paths(graph, &outgoing, src, dst, max_hops);
        let sorted = sort_by_weight(all);
        let mut paths: Vec<Vec<usize>> = Vec::new();
        let mut i: usize = 0;
        while i < sorted.len()
            invariant
                i <= sorted@.len(),
                paths@.len() == i,
                forall|x: int| 0 <= x < i ==> #[trigger] paths@[x]@ == sorted@[x].path@,
            decreases sorted@.len() - i,
        {
            let c = sorted[i].path.clone();
            proof {
                assert(c@ == sorted@[i as int].path@);
            }
            paths.push(c);
            i = i + 1;
        }
        let r = BoundedBfIter { paths, pos: 0 };
        proof {
            assert forall|x: int| 0 <= x < r.remaining().len() implies #[trigger] within_hops(
                graph,
                r.remaining()[x],
                src as int,
                dst as int,
                max_hops as nat,
            ) by {
                assert(r.remaining()[x] == paths@[x]@);
                assert(paths@[x]@ == sorted@[x].path@);
                let j = choose|j: int| 0 <= j < all@.len() && #[trigger] from_list(sorted@[x].path@, all@) && all@[j].path@ == sorted@[x].path@;
                assert(within_hops(graph, all@[j].path@, src as int, dst as int, max_hops as nat));
            }
            let ws = Seq::new(sorted@.len(), |i: int| sorted@[i].weight.parts());
            assert forall|x: int| 0 <= x < r.remaining().len() implies path_weight(graph, #[trigger] r.remaining()[x], ws[x]) by {
                assert(r.remaining()[x] == paths@[x]@);
                assert(paths@[x]@ == sorted@[x].path@);
                assert(from_cands(sorted@[x], all@));
                let k = choose|k: int| 0 <= k < all@.len() && same_cand(all@[k], sorted@[x]);
                assert(path_weight(graph, all@[k].path@, all@[k].weight.parts()));
            }
            assert forall|i: int, j: int| 0 <= i < j < ws.len() implies frac_le(#[trigger] ws[j], #[trigger] ws[i]) by {
                assert(frac_le(sorted@[j].weight.parts(), sorted@[i].weight.parts()));
            }
            assert(ranked(graph, r.remaining(), ws));
            assert forall|a: int, b: int| 0 <= a < r.remaining().len() && 0 <= b < r.remaining().len() && a != b
                implies r.remaining()[a] != r.remaining()[b] by {
                assert(r.remaining()[a] == sorted@[a].path@);
                assert(r.remaining()[b] == sorted@[b].path@);
                if a < b {
                    assert(sorted@[a].path@ != sorted@[b].path@);
                } else {
                    assert(sorted@[b].path@ != sorted@[a].path@);
                }
            }
            if fits_top_k(graph, src as int, max_hops as nat) {
                assert forall|p: Seq<usize>| #[trigger] within_hops(graph, p, src as int, dst as int, max_hops as nat)
                    implies r.remaining().contains(p) by {
                    assert(from_list(p, all@));
                    let j = choose|j: int| 0 <= j < all@.len() && all@[j].path@ == p;
                    assert(from_list(all@[j].path@, sorted@));
                    let x = choose|x: int| 0 <= x < sorted@.len() && sorted@[x].path@ == all@[j].path@;
                    assert(r.remaining()[x] == paths@[x]@);
                }
            }
            if max_hops >= 1 && graph.linked(src as int, dst as int) {
                let j = choose|j: int| 0 <= j < all@.len() && all@[j].path@ == seq![src, dst];
                assert(from_list(all@[j].path@, sorted@));
                let x = choose|x: int| 0 <= x < sorted@.len() && sorted@[x].path@ == all@[j].path@;
                assert(r.remaining()[x] == paths@[x]@);
                assert(r.remaining()[x] == seq![src, dst]);
            }
        }
        r
    }

    /// The next path, if any.
    pub fn next(&mut self) -> (r: Option<Vec<usize>>)
        ensures
            match r {
                Some(p) => old(self).remaining().len() > 0 && p@ == old(self).remaining()[0]
                    && final(self).remaining() == old(self).remaining().drop_first(),
                None => old(self).remaining().len() == 0 && final(self).remaining() == old(self).remaining(),
            },
    {
        if self.pos < self.paths.len() {
            let p = self.paths[self.pos].clone();
            self.pos = self.pos + 1;
            proof {
                assert(final(self).remaining() =~= old(self).remaining().drop_first());
            }
            Some(p)
        } else {
            None
        }
    }

    /// Every path not yet handed out, in order.
    pub fn into_paths(self) -> (r: Vec<Vec<usize>>)
        ensures
            views(r@) == self.remaining(),
    {
        let mut out: Vec<Vec<usize>> = Vec::new();
        if self.pos > self.paths.len() {
            proof {
                assert(views(out@) =~= Seq::<Seq<usize>>::empty());
            }
            return out;
        }
        let mut i = self.pos;
        while i < self.paths.len()
            invariant
                self.pos <= i <= self.paths@.len(),
                out@.len() == i - self.pos,
                forall|k: int| 0 <= k < out@.len() ==> #[trigger] out@[k]@ == self.paths@[self.pos + k]@,
            decreases self.paths@.len() - i,
        {
            let c = self.paths[i].clone();
            out.push(c);
            i = i + 1;
        }
        proof {
            assert(views(out@) =~= views(self.paths@).skip(self.pos as int));
        }
        out
    }
}

} // verus!
