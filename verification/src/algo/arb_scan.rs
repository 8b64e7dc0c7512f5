//! Targeted arbitrage scan: the most profitable simple cycle that starts
//! and ends in a chosen token.
//!
//! Cycles of up to `MAX_HOPS` edges through the entry token are enumerated
//! depth first; each takes, per hop, the pool with the best marginal rate,
//! and its trade size is found by a ternary search on the exact profit
//! (output minus input minus gas), which is concave along a constant-product
//! cycle. Unlike Bellman-Ford's detection, which finds any cycle anywhere,
//! this fixes the entry token and ranks cycles by exact profit at their best
//! size, so a cycle that looks good at the margin but loses to slippage is
//! rejected.
use crate::address::Address;
use crate::algo::gas::GasModel;
use crate::algo::path::{build_by_pair, pools_to, replay, route_rate, PairIndex};
use crate::algo::{closed, pool_addresses, route_gas, token_addresses, Outcome, SolveResult};
use crate::graph::{lemma_index_upto, token_index, Edge, Graph};
use crate::pool::Pool;
use crate::ratio::Ratio;
use crate::trace::{trace_within, Step};
use crate::uint::U256;
use vstd::prelude::*;

verus! {

/// Longest cycle, in edges, that the targeted scan considers.
pub const MAX_HOPS: usize = 4;

/// Iterations of the ternary search on the trade size.
pub const TERNARY_ITERS: usize = 60;

/// Cycles emitted by the depth-first search from the path `stack`
/// (which starts at `start`) with `remaining` edges left to spend.
pub open spec fn dfs_from(
    nbrs: Seq<Seq<usize>>,
    start: usize,
    stack: Seq<usize>,
    remaining: nat,
) -> Seq<Seq<usize>>
    decreases remaining, nbrs[stack.last() as int].len() + 1,
{
    if remaining == 0 {
        Seq::empty()
    } else {
        dfs_steps(nbrs, start, stack, remaining, nbrs[stack.last() as int].len())
    }
}

/// Cycles emitted while trying the first `i` neighbours of the path's last
/// node, in neighbour order.
pub open spec fn dfs_steps(
    nbrs: Seq<Seq<usize>>,
    start: usize,
    stack: Seq<usize>,
    remaining: nat,
    i: nat,
) -> Seq<Seq<usize>>
    decreases remaining, i,
{
    if i == 0 || remaining == 0 {
        Seq::empty()
    } else {
        let to = nbrs[stack.last() as int][i - 1];
        let here = if to == start {
            if stack.len() >= 3 {
                seq![stack]
            } else {
                Seq::empty()
            }
        } else if stack.contains(to) {
            Seq::empty()
        } else {
            dfs_from(nbrs, start, stack.push(to), (remaining - 1) as nat)
        };
        dfs_steps(nbrs, start, stack, remaining, (i - 1) as nat) + here
    }
}

/// `c` is a simple cycle through `start` with at most `max_edges` edges and
/// at least three nodes: it starts at `start`, repeats no node, each step follows
/// a neighbour list, and the last node lists `start` as a neighbour.
pub open spec fn is_simple_cycle(
    nbrs: Seq<Seq<usize>>,
    start: usize,
    c: Seq<usize>,
    max_edges: nat,
) -> bool {
    &&& 3 <= c.len() <= max_edges
    &&& c[0] == start
    &&& forall|i: int, j: int| 0 <= i < j < c.len() ==> c[i] != c[j]
    &&& forall|i: int| 0 <= i < c.len() ==> 0 <= #[trigger] c[i] < nbrs.len()
    &&& forall|i: int| 0 <= i < c.len() - 1 ==> nbrs[c[i] as int].contains(#[trigger] c[i + 1])
    &&& nbrs[c.last() as int].contains(start)
}

/// Every neighbour list entry names a node.
pub open spec fn well_indexed(nbrs: Seq<Seq<usize>>) -> bool {
    forall|u: int, k: int|
        0 <= u < nbrs.len() && 0 <= k < nbrs[u].len() ==> #[trigger] nbrs[u][k] < nbrs.len()
}

/// The path on the search stack: it starts at `start`, repeats no node and
/// follows neighbour lists.
pub open spec fn stack_ok(nbrs: Seq<Seq<usize>>, start: usize, stack: Seq<usize>) -> bool {
    &&& stack.len() >= 1
    &&& stack[0] == start
    &&& forall|i: int, j: int| 0 <= i < j < stack.len() ==> stack[i] != stack[j]
    &&& forall|i: int| 0 <= i < stack.len() ==> 0 <= #[trigger] stack[i] < nbrs.len()
    &&& forall|i: int|
        0 <= i < stack.len() - 1 ==> nbrs[stack[i] as int].contains(#[trigger] stack[i + 1])
}

/// The search state is consistent: `stack` is a path from `start` along
/// neighbour lists without repeats that ends at `current`, and `visited`
/// marks exactly its tokens.
pub open spec fn search_state(
    nbrs: Seq<Seq<usize>>,
    start: usize,
    current: usize,
    stack: Seq<usize>,
    visited: Seq<bool>,
) -> bool {
    &&& stack_ok(nbrs, start, stack)
    &&& current == stack.last()
    &&& visited.len() == nbrs.len()
    &&& forall|x: usize| x < nbrs.len() ==> (visited[x as int] <==> stack.contains(x))
}

/// A cycle emitted from the stack `stack` with `remaining` edges left: it
/// extends that stack, has at least three tokens and at most
/// `stack.len() + remaining − 1`.
pub open spec fn emitted_from(c: Seq<usize>, stack: Seq<usize>, remaining: nat) -> bool {
    &&& 3 <= c.len() <= stack.len() + remaining - 1
    &&& stack.len() <= c.len()
    &&& c.take(stack.len() as int) == stack
}

/// Emits, in depth-first order, every simple cycle `start → … → start` that
/// extends the path on `stack` by at most `remaining` edges. Each cycle is
/// appended to `cycles` as its node sequence beginning with `start`; the
/// closing edge back to `start` is implicit. A cycle needs at least two nodes
/// besides `start`: a round trip through a single other token is not one.
/// On any input, every push and mark is undone before returning, nothing is
/// emitted with no edges left, what was in `cycles` stays, and each cycle
/// emitted extends the stack and is no longer than the edges left allow.
pub fn dfs_cycle(
    current: usize,
    start: usize,
    remaining: usize,
    unique_neighbors: &Vec<Vec<usize>>,
    stack: &mut Vec<usize>,
    visited: &mut Vec<bool>,
    cycles: &mut Vec<Vec<usize>>,
)
    requires
        well_indexed(unique_neighbors@.map_values(|v: Vec<usize>| v@)),
        current < unique_neighbors@.len(),
        old(visited)@.len() == unique_neighbors@.len(),
    ensures
        final(stack)@ == old(stack)@,
        final(visited)@ == old(visited)@,
        remaining == 0 ==> final(cycles)@ == old(cycles)@,
        final(cycles)@.len() >= old(cycles)@.len(),
        forall|x: int| 0 <= x < old(cycles)@.len() ==> #[trigger] final(cycles)@[x] == old(cycles)@[x],
        forall|x: int| old(cycles)@.len() <= x < final(cycles)@.len() ==> emitted_from(
            (#[trigger] final(cycles)@[x])@,
            old(stack)@,
            remaining as nat,
        ),
        search_state(unique_neighbors@.map_values(|v: Vec<usize>| v@), start, current, old(stack)@, old(visited)@)
            ==> final(cycles)@.map_values(|v: Vec<usize>| v@) == old(cycles)@.map_values(|v: Vec<usize>| v@)
            + dfs_from(unique_neighbors@.map_values(|v: Vec<usize>| v@), start, old(stack)@, remaining as nat),
    decreases remaining,
{
    let ghost nb = unique_neighbors@.map_values(|v: Vec<usize>| v@);
    let ghost stack0 = stack@;
    let ghost visited0 = visited@;
    let ghost cycles00 = cycles@;
    let ghost cycles0 = cycles@.map_values(|v: Vec<usize>| v@);
    let ghost ok = search_state(nb, start, current, stack0, visited0);
    if remaining == 0 {
        return;
    }
    let nbrs = &unique_neighbors[current];
    assert(nbrs@ == nb[current as int]);
    let mut i: usize = 0;
    while i < nbrs.len()
        invariant
            nb == unique_neighbors@.map_values(|v: Vec<usize>| v@),
            nbrs@ == nb[current as int],
            current < nb.len(),
            well_indexed(nb),
            ok == search_state(nb, start, current, stack0, visited0),
            remaining > 0,
            i <= nbrs.len(),
            stack@ == stack0,
            visited@ == visited0,
            visited0.len() == unique_neighbors@.len(),
            cycles@.len() >= cycles00.len(),
            forall|x: int| 0 <= x < cycles00.len() ==> #[trigger] cycles@[x] == cycles00[x],
            forall|x: int| cycles00.len() <= x < cycles@.len() ==> emitted_from((#[trigger] cycles@[x])@, stack0, remaining as nat),
            cycles0 == cycles00.map_values(|v: Vec<usize>| v@),
            ok ==> cycles@.map_values(|v: Vec<usize>| v@) == cycles0 + dfs_steps(nb, start, stack0, remaining as nat, i as nat),
        decreases nbrs.len() - i,
    {
        let to = nbrs[i];
        assert(to == nb[current as int][i as int]);
        assert(to < nb.len());
        let ghost before = cycles@.map_values(|v: Vec<usize>| v@);
        let ghost before_raw = cycles@;
        if to == start {
            if stack.len() >= 3 {
                let emitted = stack.clone();
                assert(emitted@ =~= stack0);
                cycles.push(emitted);
                proof {
                    assert(cycles@.map_values(|v: Vec<usize>| v@) =~= before + seq![stack0]);
                    assert forall|x: int| 0 <= x < cycles00.len() implies #[trigger] cycles@[x] == cycles00[x] by {
                        assert(cycles@[x] == before_raw[x]);
                    }
                    assert forall|x: int| cycles00.len() <= x < cycles@.len() implies emitted_from((#[trigger] cycles@[x])@, stack0, remaining as nat) by {
                        if x < before_raw.len() {
                            assert(cycles@[x] == before_raw[x]);
                        } else {
                            assert(cycles@[x]@ == stack0);
                            assert(stack0.take(stack0.len() as int) =~= stack0);
                        }
                    }
                }
            }
        } else if !visited[to] {
            proof {
                if ok {
                    assert(!stack0.contains(to));
                }
            }
            visited.set(to, true);
            stack.push(to);
            let ghost pushed = stack@;
            proof {
                if ok {
                    assert(stack_ok(nb, start, pushed)) by {
                        assert(pushed[pushed.len() - 1] == to);
                        assert forall|a: int, b: int| 0 <= a < b < pushed.len() implies pushed[a]
                            != pushed[b] by {
                            if b == pushed.len() - 1 {
                                assert(pushed[a] == stack0[a]);
                                if pushed[a] == to {
                                    assert(stack0.contains(to));
                                }
                            }
                        }
                        assert forall|a: int| 0 <= a < pushed.len() - 1 implies nb[pushed[a] as int].contains(
                            #[trigger] pushed[a + 1],
                        ) by {
                            if a == pushed.len() - 2 {
                                assert(pushed[a] == stack0.last());
                                assert(nb[stack0.last() as int][i as int] == to);
                            } else {
                                assert(pushed[a + 1] == stack0[a + 1]);
                            }
                        }
                    }
                    assert forall|x: usize| x < unique_neighbors@.len() implies (visited@[x as int]
                        <==> pushed.contains(x)) by {
                        if x == to {
                            assert(pushed[pushed.len() - 1] == to);
                        } else {
                            if pushed.contains(x) {
                                let w = choose|w: int| 0 <= w < pushed.len() && pushed[w] == x;
                                assert(stack0[w] == x);
                            }
                            if stack0.contains(x) {
                                let w = choose|w: int| 0 <= w < stack0.len() && stack0[w] == x;
                                assert(pushed[w] == x);
                            }
                        }
                    }
                    assert(search_state(nb, start, to, pushed, visited@));
                }
            }
            dfs_cycle(to, start, remaining - 1, unique_neighbors, stack, visited, cycles);
            stack.pop();
            visited.set(to, false);
            assert(stack@ =~= stack0);
            assert(visited@ =~= visited0);
            proof {
                assert forall|x: int| 0 <= x < cycles00.len() implies #[trigger] cycles@[x] == cycles00[x] by {
                    assert(cycles@[x] == before_raw[x]);
                }
                assert forall|x: int| cycles00.len() <= x < cycles@.len() implies emitted_from((#[trigger] cycles@[x])@, stack0, remaining as nat) by {
                    if x < before_raw.len() {
                        assert(cycles@[x] == before_raw[x]);
                    } else {
                        let c = cycles@[x]@;
                        assert(emitted_from(c, pushed, (remaining - 1) as nat));
                        assert(c.take(stack0.len() as int) =~= stack0) by {
                            assert forall|k: int| 0 <= k < stack0.len() implies c.take(stack0.len() as int)[k] == stack0[k] by {
                                assert(c.take(pushed.len() as int)[k] == pushed[k]);
                                assert(pushed[k] == stack0[k]);
                            }
                        }
                    }
                }
            }
        } else {
            proof {
                if ok {
                    assert(stack0.contains(to));
                }
            }
        }
        i = i + 1;
    }
}

/// The distinct targets of the first `k` edges, in order of first
/// appearance.
pub open spec fn unique_targets(edges: Seq<Edge>, k: int) -> Seq<usize>
    decreases k,
{
    if k <= 0 {
        Seq::empty()
    } else {
        let r = unique_targets(edges, k - 1);
        if r.contains(edges[k - 1].to) {
            r
        } else {
            r.push(edges[k - 1].to)
        }
    }
}

/// Each token's distinct neighbours.
pub open spec fn neighbours(g: &Graph) -> Seq<Seq<usize>> {
    Seq::new(g.adj@.len(), |u: int| unique_targets(g.adj@[u]@, g.adj@[u]@.len() as int))
}

/// Every target listed is the target of some edge.
proof fn lemma_unique_targets(edges: Seq<Edge>, k: int, x: usize)
    requires
        0 <= k <= edges.len(),
        unique_targets(edges, k).contains(x),
    ensures
        exists|i: int| 0 <= i < k && edges[i].to == x,
    decreases k,
{
    if k > 0 {
        let r = unique_targets(edges, k - 1);
        if r.contains(x) {
            lemma_unique_targets(edges, k - 1, x);
        } else {
            assert(edges[k - 1].to == x);
        }
    }
}

/// Index into `cands` of the first usable pool with the best marginal rate
/// for selling `from`, among the first `i`; -1 when none is usable.
pub open spec fn best_rate_candidate(pools: Seq<Pool>, cands: Seq<usize>, from: Address, i: nat) -> int
    decreases i,
{
    if i == 0 {
        -1
    } else {
        let b = best_rate_candidate(pools, cands, from, (i - 1) as nat);
        let p = pools[cands[i - 1] as int];
        if !p.rate_usable(from) {
            b
        } else if b < 0 || p.rate_num(from) * pools[cands[b] as int].rate_den(from) > pools[cands[b] as int].rate_num(from) * p.rate_den(from) {
            i - 1
        } else {
            b
        }
    }
}

/// The pools the scan uses for the first `k` hops of the cycle `cn`: per hop
/// the usable pool with the best marginal rate; `None` when a hop has none.
pub open spec fn cycle_choice(g: &Graph, cn: Seq<usize>, k: nat) -> Option<Seq<usize>>
    decreases k,
{
    if k == 0 {
        Some(Seq::empty())
    } else {
        match cycle_choice(g, cn, (k - 1) as nat) {
            None => None,
            Some(ps) => {
                let u = cn[k - 1] as int;
                let cands = pools_to(g.adj@[u]@, closed(cn)[k as int] as int);
                let b = best_rate_candidate(g.pools@, cands, g.tokens@[u].address, cands.len());
                if b < 0 {
                    None
                } else {
                    Some(ps.push(cands[b]))
                }
            },
        }
    }
}

/// What `m` of the cycle's first token becomes once around through `cp`;
/// zero when a swap on the way is not computable.
pub open spec fn cycle_out(g: &Graph, cn: Seq<usize>, cp: Seq<usize>, m: nat) -> nat {
    match replay(g, closed(cn), cp, m, cp.len()) {
        Some(x) => x,
        None => 0,
    }
}

/// Profit of trading `m` around the cycle, before gas.
pub open spec fn gross_profit(g: &Graph, cn: Seq<usize>, cp: Seq<usize>, m: nat) -> int {
    cycle_out(g, cn, cp, m) - m
}

/// The bracket `[lo, hi]` after `iters` rounds of ternary search on the
/// profit: each round compares the points a third in from either end and
/// keeps the two thirds on the side of the larger profit; it stops early
/// once a third rounds down to zero.
pub open spec fn ternary(g: &Graph, cn: Seq<usize>, cp: Seq<usize>, lo: nat, hi: nat, iters: nat) -> (nat, nat)
    decreases iters,
{
    if iters == 0 || hi < lo {
        (lo, hi)
    } else {
        let third = ((hi - lo) / 3) as nat;
        if third == 0 {
            (lo, hi)
        } else {
            let m1 = lo + third;
            let m2 = (hi - third) as nat;
            if gross_profit(g, cn, cp, m1) < gross_profit(g, cn, cp, m2) {
                ternary(g, cn, cp, m1, hi, (iters - 1) as nat)
            } else {
                ternary(g, cn, cp, lo, m2, (iters - 1) as nat)
            }
        }
    }
}

/// How the scan values the cycle `cn`: its pools, the trade size the search
/// settles on, the output there and the profit net of gas. `None` when a hop
/// has no usable pool, the rate product is not above one, the search range
/// `[1, r/2]` (with `r` the entry-side reserve of the first pool) is empty,
/// or the profit at the settled size is not positive.
pub open spec fn cycle_value(g: &Graph, cn: Seq<usize>, gas: GasModel) -> Option<(Seq<usize>, nat, nat, nat)> {
    match cycle_choice(g, cn, cn.len()) {
        None => None,
        Some(cp) => {
            let rate = route_rate(g.tokens@, g.pools@, closed(cn), cp, cp.len());
            let r_in = g.pools@[cp[0] as int].reserves_spec(g.tokens@[cn[0] as int].address).0.val();
            let hi = r_in / 2;
            if rate.0 <= rate.1 || r_in == 0 || hi <= 1 {
                None
            } else {
                let (lo2, hi2) = ternary(g, cn, cp, 1, hi, TERNARY_ITERS as nat);
                let opt = ((lo2 + hi2) / 2) as nat;
                let out = cycle_out(g, cn, cp, opt);
                let cost = route_gas(g, gas, cp.len(), cn[0] as int);
                if out <= opt || out - opt <= cost {
                    None
                } else {
                    Some((cp, opt, out, (out - opt - cost) as nat))
                }
            }
        },
    }
}

/// Index (or -1) and profit of the first cycle, among the first `i`, with
/// the largest positive profit.
pub open spec fn scan_best(g: &Graph, cycles: Seq<Seq<usize>>, gas: GasModel, i: nat) -> (int, nat)
    decreases i,
{
    if i == 0 {
        (-1, 0)
    } else {
        let (b, bp) = scan_best(g, cycles, gas, (i - 1) as nat);
        match cycle_value(g, cycles[i - 1], gas) {
            Some((_, _, _, p)) => if p > bp {
                (i - 1, p)
            } else {
                (b, bp)
            },
            None => (b, bp),
        }
    }
}

proof fn lemma_best_rate_range(pools: Seq<Pool>, cands: Seq<usize>, from: Address, i: nat)
    ensures
        -1 <= best_rate_candidate(pools, cands, from, i) < i,
        best_rate_candidate(pools, cands, from, i) >= 0 ==> pools[cands[best_rate_candidate(
            pools,
            cands,
            from,
            i,
        )] as int].rate_usable(from),
    decreases i,
{
    if i > 0 {
        lemma_best_rate_range(pools, cands, from, (i - 1) as nat);
    }
}

/// Each token's distinct neighbours, in order of first appearance.
fn unique_neighbors(graph: &Graph) -> (r: Vec<Vec<usize>>)
    requires
        graph.wf(),
    ensures
        r@.map_values(|v: Vec<usize>| v@) == neighbours(graph),
        well_indexed(r@.map_values(|v: Vec<usize>| v@)),
{
    proof {
        graph.lemma_adj_ok();
    }
    let n = graph.num_tokens();
    let mut out: Vec<Vec<usize>> = Vec::new();
    let mut u: usize = 0;
    while u < n
        invariant
            graph.wf(),
            n == graph.tokens@.len(),
            u <= n,
            out@.len() == u,
            forall|uu: int, ii: int|
                0 <= uu < graph.adj@.len() && 0 <= ii < graph.adj@[uu]@.len() ==> graph.edge_ok(
                    uu,
                    #[trigger] graph.adj@[uu]@[ii],
                ),
            forall|w: int| 0 <= w < u ==> #[trigger] out@[w]@ == unique_targets(graph.adj@[w]@, graph.adj@[w]@.len() as int),
        decreases n - u,
    {
        let edges = &graph.adj[u];
        let mut targets: Vec<usize> = Vec::new();
        let mut i: usize = 0;
        while i < edges.len()
            invariant
                edges@ == graph.adj@[u as int]@,
                i <= edges@.len(),
                targets@ == unique_targets(edges@, i as int),
            decreases edges@.len() - i,
        {
            let to = edges[i].to;
            let mut seen = false;
            let mut j: usize = 0;
            while j < targets.len()
                invariant
                    j <= targets@.len(),
                    seen == targets@.subrange(0, j as int).contains(to),
                decreases targets@.len() - j,
            {
                if targets[j] == to {
                    seen = true;
                }
                proof {
                    let s0 = targets@.subrange(0, j as int);
                    let s1 = targets@.subrange(0, j + 1);
                    assert(s1 =~= s0.push(targets@[j as int]));
                    if s0.contains(to) {
                        let w = choose|w: int| 0 <= w < s0.len() && s0[w] == to;
                        assert(s1[w] == to);
                    }
                    if targets@[j as int] == to {
                        assert(s1[j as int] == to);
                    }
                    if s1.contains(to) {
                        let w = choose|w: int| 0 <= w < s1.len() && s1[w] == to;
                        if w < j {
                            assert(s0[w] == to);
                        }
                    }
                }
                j = j + 1;
            }
            proof {
                assert(targets@.subrange(0, targets@.len() as int) =~= targets@);
            }
            if !seen {
                targets.push(to);
            }
            i = i + 1;
        }
        out.push(targets);
        u = u + 1;
    }
    proof {
        let nb = out@.map_values(|v: Vec<usize>| v@);
        assert(nb =~= neighbours(graph));
        assert forall|uu: int, k: int| 0 <= uu < nb.len() && 0 <= k < nb[uu].len() implies #[trigger] nb[uu][k] < nb.len() by {
            let x = nb[uu][k];
            lemma_unique_targets(graph.adj@[uu]@, graph.adj@[uu]@.len() as int, x);
            let e = choose|e: int| 0 <= e < graph.adj@[uu]@.len() && graph.adj@[uu]@[e].to == x;
            assert(graph.edge_ok(uu, graph.adj@[uu]@[e]));
        }
    }
    out
}

/// Per hop of the cycle `cn`, the usable pool with the best marginal rate;
/// `None` when a hop has none.
fn choose_pools(graph: &Graph, by_pair: &PairIndex, cn: &Vec<usize>) -> (r: Option<Vec<usize>>)
    requires
        graph.wf(),
        by_pair.indexes(graph),
        cn@.len() >= 1,
        forall|i: int| 0 <= i < cn@.len() ==> #[trigger] cn@[i] < graph.tokens@.len(),
    ensures
        match r {
            None => cycle_choice(graph, cn@, cn@.len()) is None,
            Some(cp) => {
                &&& cycle_choice(graph, cn@, cn@.len()) == Some(cp@)
                &&& cp@.len() == cn@.len()
                &&& forall|k: int|
                    0 <= k < cp@.len() ==> graph.hop(#[trigger] cn@[k] as int, closed(cn@)[k + 1] as int, cp@[k] as int)
                &&& forall|k: int|
                    0 <= k < cp@.len() ==> #[trigger] cp@[k] < graph.pools@.len() && graph.pools@[cp@[k] as int].has_token(
                        graph.tokens@[cn@[k] as int].address,
                    ) && graph.pools@[cp@[k] as int].rate_usable(graph.tokens@[cn@[k] as int].address)
            },
        },
{
    proof {
        graph.lemma_adj_ok();
    }
    let m = cn.len();
    let mut cp: Vec<usize> = Vec::new();
    let mut k: usize = 0;
    while k < m
        invariant
            graph.wf(),
            by_pair.indexes(graph),
            m == cn@.len(),
            m >= 1,
            k <= m,
            forall|i: int| 0 <= i < cn@.len() ==> #[trigger] cn@[i] < graph.tokens@.len(),
            forall|uu: int, ii: int|
                0 <= uu < graph.adj@.len() && 0 <= ii < graph.adj@[uu]@.len() ==> graph.edge_ok(
                    uu,
                    #[trigger] graph.adj@[uu]@[ii],
                ),
            cycle_choice(graph, cn@, k as nat) == Some(cp@),
            cp@.len() == k,
            forall|j: int|
                0 <= j < k ==> graph.hop(#[trigger] cn@[j] as int, closed(cn@)[j + 1] as int, cp@[j] as int),
            forall|j: int|
                0 <= j < k ==> #[trigger] cp@[j] < graph.pools@.len() && graph.pools@[cp@[j] as int].has_token(
                    graph.tokens@[cn@[j] as int].address,
                ) && graph.pools@[cp@[j] as int].rate_usable(graph.tokens@[cn@[j] as int].address),
        decreases m - k,
    {
        let u = cn[k];
        let v = if k + 1 < m {
            cn[k + 1]
        } else {
            cn[0]
        };
        assert(v == closed(cn@)[k + 1]);
        let ghost cands = pools_to(graph.adj@[u as int]@, v as int);
        let from = graph.tokens[u].address;
        let candidates = match by_pair.get(graph, u, v) {
            Some(c) => c,
            None => Vec::new(),
        };
        assert(candidates@ == cands);
        let mut best: Option<usize> = None;
        let mut best_rate = Ratio::one();
        let mut i: usize = 0;
        while i < candidates.len()
            invariant
                graph.wf(),
                candidates@ == cands,
                cands == pools_to(graph.adj@[u as int]@, v as int),
                u < graph.adj@.len(),
                from == graph.tokens@[u as int].address,
                forall|uu: int, ii: int|
                    0 <= uu < graph.adj@.len() && 0 <= ii < graph.adj@[uu]@.len() ==> graph.edge_ok(
                        uu,
                        #[trigger] graph.adj@[uu]@[ii],
                    ),
                i <= candidates@.len(),
                ({
                    let b = best_rate_candidate(graph.pools@, cands, from, i as nat);
                    match best {
                        None => b == -1,
                        Some(bi) => b >= 0 && bi == b && bi < cands.len() && best_rate.num.val()
                            == graph.pools@[cands[b] as int].rate_num(from) && best_rate.den.val()
                            == graph.pools@[cands[b] as int].rate_den(from),
                    }
                }),
            decreases candidates@.len() - i,
        {
            let pool_idx = candidates[i];
            proof {
                let e = crate::algo::path::lemma_pools_to(graph.adj@[u as int]@, v as int, i as int);
                assert(graph.edge_ok(u as int, graph.adj@[u as int]@[e]));
            }
            match graph.pools[pool_idx].usable_rate(from) {
                None => {},
                Some(rate) => {
                    let better = match best {
                        None => true,
                        Some(_) => rate.gt(&best_rate),
                    };
                    if better {
                        best = Some(i);
                        best_rate = rate;
                    }
                },
            }
            i = i + 1;
        }
        let bi = match best {
            Some(bi) => bi,
            None => {
                proof {
                    lemma_choice_stuck(graph, cn@, k as nat);
                }
                return None;
            },
        };
        let pool_idx = candidates[bi];
        proof {
            lemma_best_rate_range(graph.pools@, cands, from, cands.len());
            let e = crate::algo::path::lemma_pools_to(graph.adj@[u as int]@, v as int, bi as int);
            assert(graph.edge_ok(u as int, graph.adj@[u as int]@[e]));
            assert(graph.usable(u as int, e));
            assert(graph.hop(u as int, v as int, pool_idx as int));
        }
        cp.push(pool_idx);
        k = k + 1;
    }
    Some(cp)
}

proof fn lemma_choice_stuck(g: &Graph, cn: Seq<usize>, k: nat)
    requires
        k < cn.len(),
        cycle_choice(g, cn, (k + 1) as nat) is None,
    ensures
        cycle_choice(g, cn, cn.len()) is None,
    decreases cn.len() - k,
{
    if k + 1 < cn.len() {
        assert(cycle_choice(g, cn, (k + 2) as nat) is None);
        lemma_choice_stuck(g, cn, (k + 1) as nat);
    }
}

proof fn lemma_replay_stuck(g: &Graph, tp: Seq<usize>, pp: Seq<usize>, a: nat, k: nat)
    requires
        k < pp.len(),
        replay(g, tp, pp, a, (k + 1) as nat) is None,
    ensures
        replay(g, tp, pp, a, pp.len()) is None,
    decreases pp.len() - k,
{
    if k + 1 < pp.len() {
        assert(replay(g, tp, pp, a, (k + 2) as nat) is None);
        lemma_replay_stuck(g, tp, pp, a, (k + 1) as nat);
    }
}

/// What `m` becomes once around the cycle `tour` (the cycle's tokens with
/// the first repeated) through the pools `cp`; zero when a swap on the way
/// is not computable.
fn cycle_output(graph: &Graph, tour: &Vec<usize>, cp: &Vec<usize>, m: U256, Ghost(cn): Ghost<Seq<usize>>) -> (r: U256)
    requires
        tour@ == closed(cn),
        cp@.len() == cn.len(),
        forall|i: int| 0 <= i < tour@.len() ==> #[trigger] tour@[i] < graph.tokens@.len(),
        forall|i: int| 0 <= i < cp@.len() ==> #[trigger] cp@[i] < graph.pools@.len(),
    ensures
        r.val() == cycle_out(graph, cn, cp@, m.val()),
{
    let mut amount = m;
    let mut i: usize = 0;
    while i < cp.len()
        invariant
            tour@ == closed(cn),
            cp@.len() == cn.len(),
            i <= cp@.len(),
            forall|x: int| 0 <= x < tour@.len() ==> #[trigger] tour@[x] < graph.tokens@.len(),
            forall|x: int| 0 <= x < cp@.len() ==> #[trigger] cp@[x] < graph.pools@.len(),
            replay(graph, tour@, cp@, m.val(), i as nat) == Some(amount.val()),
        decreases cp@.len() - i,
    {
        let pool = &graph.pools[cp[i]];
        let from = graph.tokens[tour[i]].address;
        match pool.quote(from, amount) {
            None => {
                proof {
                    lemma_replay_stuck(graph, tour@, cp@, m.val(), i as nat);
                }
                return U256::zero();
            },
            Some(out) => {
                amount = out;
            },
        }
        i = i + 1;
    }
    amount
}

/// Every cycle the depth-first search emits from a well-formed stack is a
/// simple cycle through `start` using at most the stack's nodes plus the
/// remaining edges, less one.
pub proof fn lemma_dfs_from_sound(nbrs: Seq<Seq<usize>>, start: usize, stack: Seq<usize>, rem: nat, k: int)
    requires
        well_indexed(nbrs),
        stack_ok(nbrs, start, stack),
        0 <= k < dfs_from(nbrs, start, stack, rem).len(),
    ensures
        is_simple_cycle(nbrs, start, dfs_from(nbrs, start, stack, rem)[k], (stack.len() + rem - 1) as nat),
    decreases rem, nbrs[stack.last() as int].len() + 1,
{
    if rem > 0 {
        lemma_dfs_steps_sound(nbrs, start, stack, rem, nbrs[stack.last() as int].len(), k);
    }
}

/// A simple cycle through `start` that extends the stack, with at most the
/// stack's nodes plus the remaining edges less one, is among the cycles the
/// search emits from there.
proof fn lemma_dfs_from_complete(nbrs: Seq<Seq<usize>>, start: usize, stack: Seq<usize>, rem: nat, c: Seq<usize>)
    requires
        well_indexed(nbrs),
        stack_ok(nbrs, start, stack),
        is_simple_cycle(nbrs, start, c, (stack.len() + rem - 1) as nat),
        stack.len() <= c.len(),
        c.take(stack.len() as int) == stack,
    ensures
        dfs_from(nbrs, start, stack, rem).contains(c),
    decreases rem, nbrs[stack.last() as int].len() + 1,
{
    let last = stack.last() as int;
    let n = stack.len() as int;
    assert(c[n - 1] == stack[n - 1]);
    let next = if c.len() == n {
        start
    } else {
        let j = n - 1;
        assert(nbrs[c[j] as int].contains(c[j + 1]));
        c[n]
    };
    assert(nbrs[last].contains(next));
    let i0 = choose|i0: int| 0 <= i0 < nbrs[last].len() && nbrs[last][i0] == next;
    lemma_dfs_steps_complete(nbrs, start, stack, rem, nbrs[last].len(), i0, c);
}

/// As `lemma_dfs_from_complete`, for the cycles found through the first
/// `i` neighbours of the stack's last node, when the cycle's next node is
/// neighbour `i0 < i`.
proof fn lemma_dfs_steps_complete(
    nbrs: Seq<Seq<usize>>,
    start: usize,
    stack: Seq<usize>,
    rem: nat,
    i: nat,
    i0: int,
    c: Seq<usize>,
)
    requires
        well_indexed(nbrs),
        stack_ok(nbrs, start, stack),
        is_simple_cycle(nbrs, start, c, (stack.len() + rem - 1) as nat),
        stack.len() <= c.len(),
        c.take(stack.len() as int) == stack,
        0 <= i0 < i <= nbrs[stack.last() as int].len(),
        nbrs[stack.last() as int][i0] == (if c.len() == stack.len() {
            start
        } else {
            c[stack.len() as int]
        }),
    ensures
        dfs_steps(nbrs, start, stack, rem, i).contains(c),
    decreases rem, i,
{
    let last = stack.last() as int;
    let n = stack.len() as int;
    let prev = dfs_steps(nbrs, start, stack, rem, (i - 1) as nat);
    let to = nbrs[last][i - 1];
    let here = if to == start {
        if stack.len() >= 3 {
            seq![stack]
        } else {
            Seq::empty()
        }
    } else if stack.contains(to) {
        Seq::empty()
    } else {
        dfs_from(nbrs, start, stack.push(to), (rem - 1) as nat)
    };
    assert(dfs_steps(nbrs, start, stack, rem, i) == prev + here);
    if i0 == i - 1 {
        if c.len() == n {
            assert(c =~= stack) by {
                assert forall|x: int| 0 <= x < n implies c[x] == stack[x] by {
                    assert(c.take(n)[x] == c[x]);
                }
            }
            assert(to == start);
            assert(here == seq![stack]);
            assert((prev + here)[prev.len() as int] == c);
        } else {
            assert(to == c[n]);
            assert(to != start) by {
                assert(c[0] == start);
            }
            assert(!stack.contains(to)) by {
                if stack.contains(to) {
                    let w = choose|w: int| 0 <= w < n && stack[w] == to;
                    assert(c.take(n)[w] == c[w]);
                }
            }
            let st2 = stack.push(to);
            assert(c.take(n + 1) =~= st2) by {
                assert forall|x: int| 0 <= x < n implies c[x] == stack[x] by {
                    assert(c.take(n)[x] == c[x]);
                }
            }
            assert(stack_ok(nbrs, start, st2)) by {
                assert forall|x: int, y: int| 0 <= x < y < st2.len() implies st2[x] != st2[y] by {
                    assert(st2[x] == c[x] && st2[y] == c[y]);
                }
                assert forall|x: int| 0 <= x < st2.len() - 1 implies nbrs[st2[x] as int].contains(#[trigger] st2[x + 1]) by {
                    if x < n - 1 {
                        assert(st2[x] == stack[x] && st2[x + 1] == stack[x + 1]);
                    } else {
                        assert(st2[x] == stack[n - 1]);
                        assert(nbrs[last].contains(to));
                    }
                }
                assert forall|x: int| 0 <= x < st2.len() implies 0 <= #[trigger] st2[x] < nbrs.len() by {
                    if x < n {
                        assert(st2[x] == stack[x]);
                    }
                }
            }
            lemma_dfs_from_complete(nbrs, start, st2, (rem - 1) as nat, c);
            let k = choose|k: int| 0 <= k < here.len() && here[k] == c;
            assert((prev + here)[prev.len() + k] == c);
        }
    } else {
        lemma_dfs_steps_complete(nbrs, start, stack, rem, (i - 1) as nat, i0, c);
        let k = choose|k: int| 0 <= k < prev.len() && prev[k] == c;
        assert((prev + here)[k] == c);
    }
}

/// The depth-first search from `start` emits every simple cycle through
/// `start` of three to `max_edges` nodes.
pub proof fn law_dfs_finds_every_cycle(nbrs: Seq<Seq<usize>>, start: usize, c: Seq<usize>, max_edges: nat)
    requires
        well_indexed(nbrs),
        start < nbrs.len(),
        is_simple_cycle(nbrs, start, c, max_edges),
    ensures
        dfs_from(nbrs, start, seq![start], max_edges).contains(c),
{
    let st = seq![start];
    assert(c.take(1) =~= st);
    assert(stack_ok(nbrs, start, st));
    lemma_dfs_from_complete(nbrs, start, st, max_edges, c);
}

/// Neighbour `j` of `last` is the node a cycle `x` emitted from `stack`
/// takes next: `start` when `x` is the stack itself, else `x`'s node after
/// the stack.
pub open spec fn next_of(nbrs: Seq<Seq<usize>>, start: usize, stack: Seq<usize>, x: Seq<usize>, j: int) -> bool {
    nbrs[stack.last() as int][j] == (if x.len() == stack.len() {
        start
    } else {
        x[stack.len() as int]
    })
}

/// Every cycle emitted from `stack` extends it.
proof fn lemma_dfs_from_shape(nbrs: Seq<Seq<usize>>, start: usize, stack: Seq<usize>, rem: nat, k: int)
    requires
        stack.len() >= 1,
        0 <= k < dfs_from(nbrs, start, stack, rem).len(),
    ensures
        dfs_from(nbrs, start, stack, rem)[k].len() >= stack.len(),
        dfs_from(nbrs, start, stack, rem)[k].take(stack.len() as int) == stack,
    decreases rem, nbrs[stack.last() as int].len() + 1,
{
    if rem > 0 {
        lemma_dfs_steps_shape(nbrs, start, stack, rem, nbrs[stack.last() as int].len(), k);
    }
}

/// Every cycle emitted through the first `i` neighbours of the stack's
/// last node extends the stack and goes on through one of them.
proof fn lemma_dfs_steps_shape(nbrs: Seq<Seq<usize>>, start: usize, stack: Seq<usize>, rem: nat, i: nat, k: int)
    requires
        stack.len() >= 1,
        0 <= k < dfs_steps(nbrs, start, stack, rem, i).len(),
    ensures
        dfs_steps(nbrs, start, stack, rem, i)[k].len() >= stack.len(),
        dfs_steps(nbrs, start, stack, rem, i)[k].take(stack.len() as int) == stack,
        exists|j: int| 0 <= j < i && #[trigger] next_of(nbrs, start, stack, dfs_steps(nbrs, start, stack, rem, i)[k], j),
    decreases rem, i,
{
    let last = stack.last() as int;
    let n = stack.len() as int;
    let prev = dfs_steps(nbrs, start, stack, rem, (i - 1) as nat);
    let to = nbrs[last][i - 1];
    let here = if to == start {
        if stack.len() >= 3 {
            seq![stack]
        } else {
            Seq::empty()
        }
    } else if stack.contains(to) {
        Seq::empty()
    } else {
        dfs_from(nbrs, start, stack.push(to), (rem - 1) as nat)
    };
    assert(dfs_steps(nbrs, start, stack, rem, i) == prev + here);
    let x = (prev + here)[k];
    if k < prev.len() {
        lemma_dfs_steps_shape(nbrs, start, stack, rem, (i - 1) as nat, k);
        assert(x == prev[k]);
        let j = choose|j: int| 0 <= j < i - 1 && #[trigger] next_of(nbrs, start, stack, prev[k], j);
        assert(next_of(nbrs, start, stack, x, j));
    } else {
        let kk = k - prev.len();
        assert(x == here[kk]);
        if to == start {
            assert(x == stack);
            assert(stack.take(n) =~= stack);
            assert(next_of(nbrs, start, stack, x, i - 1));
        } else {
            let st2 = stack.push(to);
            lemma_dfs_from_shape(nbrs, start, st2, (rem - 1) as nat, kk);
            assert(x.take(n + 1) == st2);
            assert(x[n] == x.take(n + 1)[n]);
            assert(x.take(n) =~= stack) by {
                assert forall|y: int| 0 <= y < n implies x.take(n)[y] == stack[y] by {
                    assert(x.take(n + 1)[y] == st2[y]);
                }
            }
            assert(next_of(nbrs, start, stack, x, i - 1));
        }
    }
}

/// With no node repeated in a neighbour list, the cycles emitted from
/// `stack` are pairwise different.
proof fn lemma_dfs_from_unique(nbrs: Seq<Seq<usize>>, start: usize, stack: Seq<usize>, rem: nat)
    requires
        well_indexed(nbrs),
        stack.len() >= 1,
        0 <= stack.last() < nbrs.len(),
        forall|u: int, a: int, b: int| 0 <= u < nbrs.len() && 0 <= a < b < nbrs[u].len() ==> #[trigger] nbrs[u][a] != #[trigger] nbrs[u][b],
    ensures
        forall|a: int, b: int|
            0 <= a < b < dfs_from(nbrs, start, stack, rem).len() ==> dfs_from(nbrs, start, stack, rem)[a] != dfs_from(nbrs, start, stack, rem)[b],
    decreases rem, nbrs[stack.last() as int].len() + 1,
{
    if rem > 0 {
        lemma_dfs_steps_unique(nbrs, start, stack, rem, nbrs[stack.last() as int].len());
        assert(dfs_from(nbrs, start, stack, rem) == dfs_steps(nbrs, start, stack, rem, nbrs[stack.last() as int].len()));
    }
}

/// As `lemma_dfs_from_unique`, through the first `i` neighbours of the
/// stack's last node.
proof fn lemma_dfs_steps_unique(nbrs: Seq<Seq<usize>>, start: usize, stack: Seq<usize>, rem: nat, i: nat)
    requires
        well_indexed(nbrs),
        stack.len() >= 1,
        0 <= stack.last() < nbrs.len(),
        i <= nbrs[stack.last() as int].len(),
        forall|u: int, a: int, b: int| 0 <= u < nbrs.len() && 0 <= a < b < nbrs[u].len() ==> #[trigger] nbrs[u][a] != #[trigger] nbrs[u][b],
    ensures
        forall|a: int, b: int|
            0 <= a < b < dfs_steps(nbrs, start, stack, rem, i).len() ==> dfs_steps(nbrs, start, stack, rem, i)[a]
                != dfs_steps(nbrs, start, stack, rem, i)[b],
    decreases rem, i,
{
    if i > 0 && rem > 0 {
        let last = stack.last() as int;
        let n = stack.len() as int;
        let prev = dfs_steps(nbrs, start, stack, rem, (i - 1) as nat);
        let to = nbrs[last][i - 1];
        let here = if to == start {
            if stack.len() >= 3 {
                seq![stack]
            } else {
                Seq::empty()
            }
        } else if stack.contains(to) {
            Seq::empty()
        } else {
            dfs_from(nbrs, start, stack.push(to), (rem - 1) as nat)
        };
        let all = dfs_steps(nbrs, start, stack, rem, i);
        assert(all == prev + here);
        lemma_dfs_steps_unique(nbrs, start, stack, rem, (i - 1) as nat);
        if to != start && !stack.contains(to) {
            assert(to < nbrs.len());
            lemma_dfs_from_unique(nbrs, start, stack.push(to), (rem - 1) as nat);
        }
        assert forall|a: int, b: int| 0 <= a < b < all.len() implies all[a] != all[b] by {
            if a < prev.len() && b >= prev.len() {
                let kb = b - prev.len();
                lemma_dfs_steps_shape(nbrs, start, stack, rem, (i - 1) as nat, a);
                let j = choose|j: int| 0 <= j < i - 1 && #[trigger] next_of(nbrs, start, stack, prev[a], j);
                if all[a] == all[b] {
                    let y = here[kb];
                    if to == start {
                        assert(y == stack);
                        assert(next_of(nbrs, start, stack, y, i - 1));
                    } else {
                        let st2 = stack.push(to);
                        lemma_dfs_from_shape(nbrs, start, st2, (rem - 1) as nat, kb);
                        assert(y[n] == y.take(n + 1)[n]);
                        assert(next_of(nbrs, start, stack, y, i - 1));
                    }
                    assert(nbrs[last][j] == nbrs[last][i - 1]);
                }
            } else if b < prev.len() {
                assert(all[a] == prev[a] && all[b] == prev[b]);
            } else {
                assert(all[a] == here[a - prev.len()] && all[b] == here[b - prev.len()]);
            }
        }
    }
}

/// When no neighbour list repeats a node, the depth-first search from
/// `start` emits no cycle twice.
pub proof fn law_dfs_emits_each_cycle_once(nbrs: Seq<Seq<usize>>, start: usize, max_edges: nat)
    requires
        well_indexed(nbrs),
        start < nbrs.len(),
        forall|u: int, a: int, b: int| 0 <= u < nbrs.len() && 0 <= a < b < nbrs[u].len() ==> #[trigger] nbrs[u][a] != #[trigger] nbrs[u][b],
    ensures
        forall|a: int, b: int|
            0 <= a < b < dfs_from(nbrs, start, seq![start], max_edges).len() ==> dfs_from(nbrs, start, seq![start], max_edges)[a]
                != dfs_from(nbrs, start, seq![start], max_edges)[b],
{
    lemma_dfs_from_unique(nbrs, start, seq![start], max_edges);
}

/// As `lemma_dfs_from_sound`, for the cycles found through the first `i`
/// neighbours of the stack's last node.
pub proof fn lemma_dfs_steps_sound(
    nbrs: Seq<Seq<usize>>,
    start: usize,
    stack: Seq<usize>,
    rem: nat,
    i: nat,
    k: int,
)
    requires
        well_indexed(nbrs),
        stack_ok(nbrs, start, stack),
        i <= nbrs[stack.last() as int].len(),
        0 <= k < dfs_steps(nbrs, start, stack, rem, i).len(),
    ensures
        is_simple_cycle(nbrs, start, dfs_steps(nbrs, start, stack, rem, i)[k], (stack.len() + rem - 1) as nat),
    decreases rem, i,
{
    if i > 0 && rem > 0 {
        let last = stack.last();
        assert(0 <= last < nbrs.len()) by {
            assert(stack[stack.len() - 1] < nbrs.len());
        }
        let to = nbrs[last as int][i - 1];
        let before = dfs_steps(nbrs, start, stack, rem, (i - 1) as nat);
        if k < before.len() {
            lemma_dfs_steps_sound(nbrs, start, stack, rem, (i - 1) as nat, k);
        } else {
            let j = k - before.len();
            if to == start {
                assert(nbrs[last as int][i - 1] == start);
                assert(nbrs[stack.last() as int].contains(start));
            } else if !stack.contains(to) {
                assert(to < nbrs.len());
                let pushed = stack.push(to);
                assert(stack_ok(nbrs, start, pushed)) by {
                    assert forall|a: int, b: int| 0 <= a < b < pushed.len() implies pushed[a] != pushed[b] by {
                        if b == pushed.len() - 1 {
                            assert(pushed[a] == stack[a]);
                        }
                    }
                    assert forall|a: int| 0 <= a < pushed.len() - 1 implies nbrs[pushed[a] as int].contains(
                        #[trigger] pushed[a + 1],
                    ) by {
                        if a == pushed.len() - 2 {
                            assert(pushed[a] == last);
                            assert(nbrs[last as int][i - 1] == to);
                        } else {
                            assert(pushed[a + 1] == stack[a + 1]);
                        }
                    }
                }
                lemma_dfs_from_sound(nbrs, start, pushed, (rem - 1) as nat, j);
            }
        }
    }
}

/// Values the cycle `cn` as `cycle_value` does: its pools, the trade size
/// the ternary search settles on, the output there and the profit net of
/// gas.
fn evaluate(graph: &Graph, by_pair: &PairIndex, cn: &Vec<usize>, gas: &GasModel) -> (r: Option<
    (Vec<usize>, U256, U256, U256),
>)
    requires
        graph.wf(),
        by_pair.indexes(graph),
        1 <= cn@.len() <= MAX_HOPS,
        forall|i: int| 0 <= i < cn@.len() ==> #[trigger] cn@[i] < graph.tokens@.len(),
    ensures
        match r {
            None => cycle_value(graph, cn@, *gas) is None,
            Some((cp, opt, out, profit)) => {
                &&& cycle_value(graph, cn@, *gas) == Some((cp@, opt.val(), out.val(), profit.val()))
                &&& crate::algo::is_cycle(graph, cn@, cp@)
            },
        },
{
    let cp = match choose_pools(graph, by_pair, cn) {
        None => {
            return None;
        },
        Some(cp) => cp,
    };
    let m = cn.len();
    let mut tour = cn.clone();
    tour.push(cn[0]);
    proof {
        assert(tour@ =~= closed(cn@));
        assert forall|i: int| 0 <= i < tour@.len() implies #[trigger] tour@[i] < graph.tokens@.len() by {
            if i < m {
                assert(tour@[i] == cn@[i]);
            } else {
                assert(tour@[i] == cn@[0]);
            }
        }
    }
    let mut rate = Ratio::one();
    let mut i: usize = 0;
    while i < m
        invariant
            m == cn@.len(),
            cp@.len() == m,
            tour@ == closed(cn@),
            i <= m,
            forall|k: int|
                0 <= k < cp@.len() ==> #[trigger] cp@[k] < graph.pools@.len() && graph.pools@[cp@[k] as int].has_token(
                    graph.tokens@[cn@[k] as int].address,
                ) && graph.pools@[cp@[k] as int].rate_usable(graph.tokens@[cn@[k] as int].address),
            forall|x: int| 0 <= x < tour@.len() ==> #[trigger] tour@[x] < graph.tokens@.len(),
            rate.num.val() == route_rate(graph.tokens@, graph.pools@, tour@, cp@, i as nat).0,
            rate.den.val() == route_rate(graph.tokens@, graph.pools@, tour@, cp@, i as nat).1,
        decreases m - i,
    {
        assert(tour@[i as int] == cn@[i as int]);
        let pool = &graph.pools[cp[i]];
        let from = graph.tokens[tour[i]].address;
        assert(cp@[i as int] < graph.pools@.len());
        rate = rate.mul(&pool.marginal_rate(from));
        i = i + 1;
    }
    if !rate.den.lt(&rate.num) {
        return None;
    }
    assert(cp@[0] < graph.pools@.len());
    let (r_in, _) = graph.pools[cp[0]].reserves_for(graph.tokens[cn[0]].address);
    if r_in.is_zero() {
        return None;
    }
    let hi0 = r_in.div(U256::from_u64(2));
    proof {
        r_in.lemma_val_bound();
    }
    let one = U256::from_u64(1);
    if hi0.le(&one) {
        return None;
    }
    let ghost target = ternary(graph, cn@, cp@, 1, hi0.val(), TERNARY_ITERS as nat);
    let mut lo = one;
    let mut hi = hi0;
    let mut it: usize = 0;
    let mut stopped = false;
    while it < TERNARY_ITERS && !stopped
        invariant
            tour@ == closed(cn@),
            cp@.len() == cn@.len(),
            forall|x: int| 0 <= x < tour@.len() ==> #[trigger] tour@[x] < graph.tokens@.len(),
            forall|k: int| 0 <= k < cp@.len() ==> #[trigger] cp@[k] < graph.pools@.len(),
            it <= TERNARY_ITERS,
            lo.val() <= hi.val() <= hi0.val(),
            hi0.val() == r_in.val() / 2,
            r_in.val() < crate::uint::modulus(),
            ternary(graph, cn@, cp@, lo.val(), hi.val(), (TERNARY_ITERS - it) as nat) == target,
            stopped ==> ternary(graph, cn@, cp@, lo.val(), hi.val(), (TERNARY_ITERS - it) as nat) == (lo.val(), hi.val()),
        decreases TERNARY_ITERS - it + (if stopped {
            0int
        } else {
            1int
        }),
    {
        let span = hi.sub(lo);
        let third = span.div(U256::from_u64(3));
        assert(third.val() <= span.val());
        if third.is_zero() {
            stopped = true;
        } else {
            let m1 = lo.add(third);
            let m2 = hi.sub(third);
            let o1 = cycle_output(graph, &tour, &cp, m1, Ghost(cn@));
            let o2 = cycle_output(graph, &tour, &cp, m2, Ghost(cn@));
            let d = m2.sub(m1);
            if o2.gt(&o1) && o2.sub(o1).gt(&d) {
                lo = m1;
            } else {
                hi = m2;
            }
            it = it + 1;
        }
    }
    let opt = lo.add(hi).div(U256::from_u64(2));
    proof {
        assert((lo.val(), hi.val()) == target) by {
            if !stopped {
                assert(it == TERNARY_ITERS);
            }
        }
    }
    let out = cycle_output(graph, &tour, &cp, opt, Ghost(cn@));
    if out.le(&opt) {
        return None;
    }
    let units = gas.gas_units(1, m);
    let entry_token = &graph.tokens[cn[0]];
    let cost = gas.gas_to_dst_token(units, entry_token.true_price_pico_usd, entry_token.decimals);
    let gross = out.sub(opt);
    if gross.le(&cost) {
        return None;
    }
    let profit = gross.sub(cost);
    Some((cp, opt, out, profit))
}

/// `ev` holds, for each of the first `k` hops `h` of the tour `tour` through
/// pools `cp`, a relaxation from `tour[h]` to `tour[h + 1]` carrying the
/// product of the first `h + 1` marginal rates, then a visit of
/// `tour[h + 1]`.
pub open spec fn cycle_events(g: &Graph, tour: Seq<usize>, cp: Seq<usize>, ev: Seq<Step>, k: nat) -> bool {
    &&& ev.len() == 2 * k
    &&& forall|h: int|
        0 <= h < k ==> (#[trigger] ev[2 * h] matches Step::Relax { from, to, new_distance } && from
            == tour[h] && to == tour[h + 1] && new_distance.parts() == route_rate(
            g.tokens@,
            g.pools@,
            tour,
            cp,
            (h + 1) as nat,
        ))
    &&& forall|h: int| 0 <= h < k ==> #[trigger] ev[2 * h + 1] == Step::Visit(tour[h + 1int])
}

/// One more hop's relaxation and visit extend the recorded events.
proof fn lemma_cycle_events_push(g: &Graph, tour: Seq<usize>, cp: Seq<usize>, ev: Seq<Step>, step: Step, h: nat)
    requires
        cycle_events(g, tour, cp, ev, h),
        step matches Step::Relax { from, to, new_distance } && from == tour[h as int] && to == tour[h + 1int]
            && new_distance.parts() == route_rate(g.tokens@, g.pools@, tour, cp, h + 1),
    ensures
        cycle_events(g, tour, cp, ev.push(step).push(Step::Visit(tour[h + 1int])), h + 1),
{
    let tail = ev.push(step).push(Step::Visit(tour[h + 1int]));
    assert forall|hh: int| 0 <= hh < h + 1 implies (#[trigger] tail[2 * hh] matches Step::Relax {
        from,
        to,
        new_distance,
    } && from == tour[hh] && to == tour[hh + 1] && new_distance.parts() == route_rate(
        g.tokens@,
        g.pools@,
        tour,
        cp,
        (hh + 1) as nat,
    )) by {
        if hh < h {
            assert(tail[2 * hh] == ev[2 * hh]);
        }
    }
    assert forall|hh: int| 0 <= hh < h + 1 implies #[trigger] tail[2 * hh + 1] == Step::Visit(tour[hh + 1]) by {
        if hh < h {
            assert(tail[2 * hh + 1] == ev[2 * hh + 1]);
        }
    }
}

/// The exact rate product of the cycle `cn` through `cp`, recording for
/// display a relaxation (carrying the running product) and a visit per hop.
#[verifier::spinoff_prover]
#[verifier::rlimit(40)]
fn trace_cycle(graph: &Graph, tour: &Vec<usize>, cp: &Vec<usize>, Ghost(cn): Ghost<Seq<usize>>, trace: &mut Vec<Step>) -> (r: Ratio)
    requires
        graph.wf(),
        tour@ == closed(cn),
        cp@.len() == cn.len(),
        crate::algo::is_cycle(graph, cn, cp@),
        forall|x: int| 0 <= x < tour@.len() ==> #[trigger] tour@[x] < graph.tokens@.len(),
        trace_within(old(trace)@, graph.tokens@.len()),
    ensures
        trace_within(final(trace)@, graph.tokens@.len()),
        final(trace)@.len() >= old(trace)@.len(),
        forall|x: int| 0 <= x < old(trace)@.len() ==> #[trigger] final(trace)@[x] == old(trace)@[x],
        cycle_events(graph, tour@, cp@, final(trace)@.skip(old(trace)@.len() as int), cp@.len() as nat),
        r.num.val() == route_rate(graph.tokens@, graph.pools@, tour@, cp@, cp@.len() as nat).0,
        r.den.val() == route_rate(graph.tokens@, graph.pools@, tour@, cp@, cp@.len() as nat).1,
{
    proof {
        graph.lemma_adj_ok();
    }
    let m = cp.len();
    let mut rate = Ratio::one();
    let mut h: usize = 0;
    while h < m
        invariant
            graph.wf(),
            m == cn.len(),
            cp@.len() == m,
            tour@ == closed(cn),
            h <= m,
            crate::algo::is_cycle(graph, cn, cp@),
            forall|uu: int, ii: int|
                0 <= uu < graph.adj@.len() && 0 <= ii < graph.adj@[uu]@.len() ==> graph.edge_ok(
                    uu,
                    #[trigger] graph.adj@[uu]@[ii],
                ),
            forall|x: int| 0 <= x < tour@.len() ==> #[trigger] tour@[x] < graph.tokens@.len(),
            trace_within(trace@, graph.tokens@.len()),
            trace@.len() >= old(trace)@.len(),
            forall|x: int| 0 <= x < old(trace)@.len() ==> #[trigger] trace@[x] == old(trace)@[x],
            rate.num.val() == route_rate(graph.tokens@, graph.pools@, tour@, cp@, h as nat).0,
            rate.den.val() == route_rate(graph.tokens@, graph.pools@, tour@, cp@, h as nat).1,
            cycle_events(graph, tour@, cp@, trace@.skip(old(trace)@.len() as int), h as nat),
        decreases m - h,
    {
        proof {
            assert(tour@[h as int] == cn[h as int]);
            assert(graph.hop(cn[h as int] as int, closed(cn)[h + 1] as int, cp@[h as int] as int));
            let e = choose|e: int|
                #![trigger graph.adj@[cn[h as int] as int]@[e]]
                graph.usable(cn[h as int] as int, e) && graph.adj@[cn[h as int] as int]@[e].to
                    == closed(cn)[h + 1] as int && graph.adj@[cn[h as int] as int]@[e].pool
                    == cp@[h as int] as int;
            assert(graph.edge_ok(cn[h as int] as int, graph.adj@[cn[h as int] as int]@[e]));
        }
        let from = graph.tokens[tour[h]].address;
        rate = rate.mul(&graph.pools[cp[h]].marginal_rate(from));
        let ghost tr1 = trace@;
        let step = Step::Relax { from: tour[h], to: tour[h + 1], new_distance: rate.copy() };
        trace.push(step);
        trace.push(Step::Visit(tour[h + 1]));
        proof {
            let k0 = old(trace)@.len() as int;
            assert(trace@ == tr1.push(step).push(Step::Visit(tour@[h + 1])));
            assert(trace@.skip(k0) =~= tr1.skip(k0).push(step).push(Step::Visit(tour@[h + 1])));
            lemma_cycle_events_push(graph, tour@, cp@, tr1.skip(k0), step, h as nat);
        }
        h = h + 1;
    }
    rate
}

/// What the scan promises: an unknown entry gives `NoPath` with an empty
/// trace; otherwise, among the cycles the depth-first search emits (simple
/// cycles through the entry of three to `MAX_HOPS` edges), the first with the
/// largest positive profit is reported with its pools, trade size, output,
/// exact rate product and gas, and is a closed loop of usable hops; with
/// none, `NoPath`. The trace opens with a visit of the entry, followed, for a
/// reported cycle, by a relaxation (with the running rate product) and a
/// visit per hop, and names only real tokens.
pub open spec fn scan_contract(g: &Graph, entry: Address, gas: GasModel, r: SolveResult) -> bool {
    let ei = token_index(g.tokens@, entry);
    &&& trace_within(r.trace@, g.tokens@.len())
    &&& ei < 0 ==> r.outcome is NoPath && r.trace@.len() == 0
    &&& ei >= 0 ==> {
        let cycles = dfs_from(neighbours(g), ei as usize, seq![ei as usize], MAX_HOPS as nat);
        let b = scan_best(g, cycles, gas, cycles.len()).0;
        &&& r.trace@.len() >= 1
        &&& r.trace@[0] == Step::Visit(ei as usize)
        &&& if b < 0 {
            r.outcome is NoPath && r.trace@ == seq![Step::Visit(ei as usize)]
        } else {
            match cycle_value(g, cycles[b], gas) {
                None => false,
                Some((cp, opt, out, _)) => {
                    &&& crate::algo::is_cycle(g, cycles[b], cp)
                    &&& cycle_events(g, closed(cycles[b]), cp, r.trace@.skip(1), cycles[b].len())
                    &&& match r.outcome {
                        Outcome::NegativeCycle {
                            cycle,
                            pools_used,
                            product_of_rates,
                            amount_in,
                            cycle_output,
                            gas_cost,
                        } => {
                            &&& cycle@ == crate::algo::token_addrs(g, cycles[b])
                            &&& pools_used@ == crate::algo::pool_addrs(g, cp)
                            &&& product_of_rates.num.val() == route_rate(g.tokens@, g.pools@, closed(cycles[b]), cp, cp.len()).0
                            &&& product_of_rates.den.val() == route_rate(g.tokens@, g.pools@, closed(cycles[b]), cp, cp.len()).1
                            &&& amount_in.val() == opt
                            &&& cycle_output.val() == out
                            &&& gas_cost.val() == route_gas(g, gas, cp.len(), cycles[b][0] as int)
                        },
                        _ => false,
                    }
                },
            }
        }
    }
}

/// The ternary search keeps its bracket inside the one it starts from.
proof fn lemma_ternary_range(g: &Graph, cn: Seq<usize>, cp: Seq<usize>, lo: nat, hi: nat, iters: nat)
    requires
        lo <= hi,
    ensures
        lo <= ternary(g, cn, cp, lo, hi, iters).0 <= ternary(g, cn, cp, lo, hi, iters).1 <= hi,
    decreases iters,
{
    if iters > 0 {
        let third = ((hi - lo) / 3) as nat;
        if third > 0 {
            lemma_ternary_range(g, cn, cp, lo + third, hi, (iters - 1) as nat);
            lemma_ternary_range(g, cn, cp, lo, (hi - third) as nat, (iters - 1) as nat);
        }
    }
}

/// The index `scan_best` picks among the first `i` cycles is one of them,
/// and a valued one.
proof fn lemma_scan_best_range(g: &Graph, cycles: Seq<Seq<usize>>, gas: GasModel, i: nat)
    ensures
        -1 <= scan_best(g, cycles, gas, i).0 < i,
        scan_best(g, cycles, gas, i).0 >= 0 ==> cycle_value(g, cycles[scan_best(g, cycles, gas, i).0], gas) is Some,
    decreases i,
{
    if i > 0 {
        lemma_scan_best_range(g, cycles, gas, (i - 1) as nat);
    }
}

/// A cycle the scan reports starts at the entry and visits three to
/// `MAX_HOPS` distinct tokens, each joined to the next (and the last to the
/// first) by its pool; its output is what replaying its swaps on its input
/// gives and exceeds that input, which is at least one and at most half the
/// entry-side reserve of its first pool.
pub proof fn law_scan_cycle_shape(g: &Graph, entry: Address, gas: GasModel, r: SolveResult)
    requires
        g.wf(),
        scan_contract(g, entry, gas, r),
        r.outcome is NegativeCycle,
    ensures
        match r.outcome {
            Outcome::NegativeCycle { cycle, pools_used, amount_in, cycle_output, .. } => exists|
                cn: Seq<usize>,
                cp: Seq<usize>,
            |
                #[trigger] crate::algo::is_cycle(g, cn, cp) && cn[0] == token_index(g.tokens@, entry) && 3 <= cn.len()
                    <= MAX_HOPS && (forall|i: int, j: int| 0 <= i < j < cn.len() ==> cn[i] != cn[j])
                    && cycle@ == crate::algo::token_addrs(g, cn) && pools_used@ == crate::algo::pool_addrs(g, cp)
                    && replay(g, closed(cn), cp, amount_in.val(), cp.len()) == Some(cycle_output.val())
                    && amount_in.val() < cycle_output.val() && 1 <= amount_in.val() <= g.pools@[cp[0] as int].reserves_spec(
                    g.tokens@[cn[0] as int].address,
                ).0.val() / 2,
            _ => false,
        },
{
    let ei = token_index(g.tokens@, entry);
    lemma_index_upto(g.tokens@, entry, g.tokens@.len() as int);
    assert(ei >= 0);
    let cycles = dfs_from(neighbours(g), ei as usize, seq![ei as usize], MAX_HOPS as nat);
    lemma_scan_best_range(g, cycles, gas, cycles.len());
    let b = scan_best(g, cycles, gas, cycles.len()).0;
    assert(b >= 0);
    let cn = cycles[b];
    let (cp, opt, out, _) = cycle_value(g, cn, gas).unwrap();
    let ok = unique_neighbors_well_indexed(g);
    assert(stack_ok(neighbours(g), ei as usize, seq![ei as usize]));
    lemma_dfs_from_sound(neighbours(g), ei as usize, seq![ei as usize], MAX_HOPS as nat, b);
    let cp0 = cycle_choice(g, cn, cn.len()).unwrap();
    assert(cp0 == cp);
    let r_in = g.pools@[cp[0] as int].reserves_spec(g.tokens@[cn[0] as int].address).0.val();
    let hi = r_in / 2;
    lemma_ternary_range(g, cn, cp, 1, hi, TERNARY_ITERS as nat);
    match r.outcome {
        Outcome::NegativeCycle { cycle, pools_used, amount_in, cycle_output, .. } => {
            assert(amount_in.val() == opt);
            assert(1 <= opt <= hi);
            assert(replay(g, closed(cn), cp, opt, cp.len()) is Some);
            assert(crate::algo::is_cycle(g, cn, cp));
        },
        _ => {},
    }
}

/// The index `scan_best` settles on carries the largest profit among the
/// first `i` cycles: no valued cycle among them has a larger one, and a
/// cycle is picked whenever any is valued.
proof fn lemma_scan_best_max(g: &Graph, cycles: Seq<Seq<usize>>, gas: GasModel, i: nat)
    ensures
        scan_best(g, cycles, gas, i).0 >= 0 ==> cycle_value(g, cycles[scan_best(g, cycles, gas, i).0], gas).unwrap().3
            == scan_best(g, cycles, gas, i).1,
        forall|k: int|
            0 <= k < i && #[trigger] cycle_value(g, cycles[k], gas) is Some ==> scan_best(g, cycles, gas, i).0 >= 0
                && cycle_value(g, cycles[k], gas).unwrap().3 <= scan_best(g, cycles, gas, i).1,
        forall|k: int|
            0 <= k < scan_best(g, cycles, gas, i).0 && #[trigger] cycle_value(g, cycles[k], gas) is Some
                ==> cycle_value(g, cycles[k], gas).unwrap().3 < scan_best(g, cycles, gas, i).1,
    decreases i,
{
    if i > 0 {
        lemma_scan_best_max(g, cycles, gas, (i - 1) as nat);
        let prev = scan_best(g, cycles, gas, (i - 1) as nat);
        let cur = scan_best(g, cycles, gas, i);
        assert(cur.1 >= prev.1);
        assert(prev.0 < 0 ==> prev.1 == 0) by {
            lemma_scan_best_zero(g, cycles, gas, (i - 1) as nat);
        }
        if cycle_value(g, cycles[i - 1], gas) is Some {
            lemma_cycle_value_pos(g, cycles[i - 1], gas);
        }
    }
}

/// Without a pick the best profit is zero.
proof fn lemma_scan_best_zero(g: &Graph, cycles: Seq<Seq<usize>>, gas: GasModel, i: nat)
    ensures
        scan_best(g, cycles, gas, i).0 < 0 ==> scan_best(g, cycles, gas, i).1 == 0,
    decreases i,
{
    if i > 0 {
        lemma_scan_best_zero(g, cycles, gas, (i - 1) as nat);
    }
}

/// A valued cycle has a positive profit.
proof fn lemma_cycle_value_pos(g: &Graph, cn: Seq<usize>, gas: GasModel)
    requires
        cycle_value(g, cn, gas) is Some,
    ensures
        cycle_value(g, cn, gas).unwrap().3 > 0,
{
}

/// The scan reports the most profitable cycle: whenever the search emits a
/// cycle that the scan can value, it reports a cycle, and the reported
/// cycle's output less its input and its gas is at least the profit net of
/// gas of every emitted cycle.
pub proof fn law_scan_reports_most_profitable(g: &Graph, entry: Address, gas: GasModel, r: SolveResult)
    requires
        g.wf(),
        scan_contract(g, entry, gas, r),
        token_index(g.tokens@, entry) >= 0,
    ensures
        forall|k: int|
            0 <= k < dfs_from(neighbours(g), token_index(g.tokens@, entry) as usize, seq![token_index(g.tokens@, entry) as usize], MAX_HOPS as nat).len()
                && #[trigger] cycle_value(
                g,
                dfs_from(neighbours(g), token_index(g.tokens@, entry) as usize, seq![token_index(g.tokens@, entry) as usize], MAX_HOPS as nat)[k],
                gas,
            ) is Some ==> match r.outcome {
                Outcome::NegativeCycle { amount_in, cycle_output, gas_cost, .. } => cycle_output.val() - amount_in.val()
                    - gas_cost.val() >= cycle_value(
                    g,
                    dfs_from(neighbours(g), token_index(g.tokens@, entry) as usize, seq![token_index(g.tokens@, entry) as usize], MAX_HOPS as nat)[k],
                    gas,
                ).unwrap().3,
                _ => false,
            },
{
    let ei = token_index(g.tokens@, entry);
    let cycles = dfs_from(neighbours(g), ei as usize, seq![ei as usize], MAX_HOPS as nat);
    lemma_scan_best_max(g, cycles, gas, cycles.len());
    lemma_scan_best_range(g, cycles, gas, cycles.len());
}

/// Of the emitted cycles with the largest profit the scan reports the
/// first: the reported cycle is an emitted cycle, valued at the reported
/// output less input and gas, and every valued cycle emitted before it has
/// a strictly smaller profit; with no valued cycle the answer is `NoPath`.
pub proof fn law_scan_reports_first_best(g: &Graph, entry: Address, gas: GasModel, r: SolveResult)
    requires
        g.wf(),
        scan_contract(g, entry, gas, r),
        token_index(g.tokens@, entry) >= 0,
    ensures
        ({
            let ei = token_index(g.tokens@, entry) as usize;
            let cycles = dfs_from(neighbours(g), ei, seq![ei], MAX_HOPS as nat);
            match r.outcome {
                Outcome::NegativeCycle { cycle, amount_in, cycle_output, gas_cost, .. } => exists|b: int|
                    0 <= b < cycles.len() && cycle@ == crate::algo::token_addrs(g, #[trigger] cycles[b]) && cycle_value(
                        g,
                        cycles[b],
                        gas,
                    ) is Some && cycle_output.val() - amount_in.val() - gas_cost.val() == cycle_value(
                        g,
                        cycles[b],
                        gas,
                    ).unwrap().3 && forall|k: int|
                        0 <= k < b && #[trigger] cycle_value(g, cycles[k], gas) is Some ==> cycle_value(
                            g,
                            cycles[k],
                            gas,
                        ).unwrap().3 < cycle_value(g, cycles[b], gas).unwrap().3,
                Outcome::NoPath => forall|k: int| 0 <= k < cycles.len() ==> cycle_value(g, #[trigger] cycles[k], gas) is None,
                _ => false,
            }
        }),
{
    let ei = token_index(g.tokens@, entry);
    let cycles = dfs_from(neighbours(g), ei as usize, seq![ei as usize], MAX_HOPS as nat);
    lemma_scan_best_max(g, cycles, gas, cycles.len());
    lemma_scan_best_range(g, cycles, gas, cycles.len());
    let b = scan_best(g, cycles, gas, cycles.len()).0;
    if b >= 0 {
        assert(cycles[b] == cycles[b]);
    }
}

/// The cycles the depth-first search emits from `ei`.
fn enumerate_cycles(graph: &Graph, ei: usize) -> (r: Vec<Vec<usize>>)
    requires
        graph.wf(),
        ei < graph.tokens@.len(),
    ensures
        r@.map_values(|v: Vec<usize>| v@) == dfs_from(neighbours(graph), ei, seq![ei], MAX_HOPS as nat),
{
    let n = graph.num_tokens();
    let nbrs = unique_neighbors(graph);
    let ghost nb = nbrs@.map_values(|v: Vec<usize>| v@);
    let mut stack: Vec<usize> = Vec::new();
    stack.push(ei);
    let mut visited: Vec<bool> = Vec::new();
    let mut k: usize = 0;
    while k < n
        invariant
            k <= n,
            visited@.len() == k,
            forall|x: int| 0 <= x < k ==> #[trigger] visited@[x] == (x == ei as int),
        decreases n - k,
    {
        visited.push(k == ei);
        k = k + 1;
    }
    let mut cycles: Vec<Vec<usize>> = Vec::new();
    proof {
        assert(nb.len() == n);
        assert(stack@ =~= seq![ei]);
        assert forall|x: usize| x < nbrs@.len() implies (visited@[x as int] <==> stack@.contains(x)) by {
            if x == ei {
                assert(stack@[0] == x);
            }
        }
        assert(cycles@.map_values(|v: Vec<usize>| v@) =~= Seq::<Seq<usize>>::empty());
    }
    dfs_cycle(ei, ei, MAX_HOPS, &nbrs, &mut stack, &mut visited, &mut cycles);
    proof {
        assert(cycles@.map_values(|v: Vec<usize>| v@) =~= dfs_from(neighbours(graph), ei, seq![ei], MAX_HOPS as nat));
    }
    cycles
}

/// Index, pools, trade size and output of the first cycle with the largest
/// positive profit, as `scan_best` chooses.
fn pick_cycle(graph: &Graph, by_pair: &PairIndex, cycles: &Vec<Vec<usize>>, gas: &GasModel, Ghost(ei): Ghost<usize>) -> (r: Option<(usize, Vec<usize>, U256, U256)>)
    requires
        graph.wf(),
        by_pair.indexes(graph),
        ei < graph.tokens@.len(),
        cycles@.map_values(|v: Vec<usize>| v@) == dfs_from(neighbours(graph), ei, seq![ei], MAX_HOPS as nat),
    ensures
        ({
            let cyc = cycles@.map_values(|v: Vec<usize>| v@);
            let b = scan_best(graph, cyc, *gas, cyc.len()).0;
            match r {
                None => b < 0,
                Some((bi, cp, opt, out)) => {
                    &&& b == bi as int
                    &&& bi < cycles@.len()
                    &&& cycle_value(graph, cyc[b], *gas) matches Some((cp2, opt2, out2, _)) && cp2 == cp@ && opt2 == opt.val() && out2 == out.val()
                    &&& crate::algo::is_cycle(graph, cyc[b], cp@)
                },
            }
        }),
{
    let ghost cyc = cycles@.map_values(|v: Vec<usize>| v@);
    let ghost nb = neighbours(graph);
    proof {
        let nbrs_ok = unique_neighbors_well_indexed(graph);
        assert(stack_ok(nb, ei, seq![ei]));
    }
    let mut best: Option<(usize, Vec<usize>, U256, U256)> = None;
    let mut best_profit = U256::zero();
    let mut i: usize = 0;
    while i < cycles.len()
        invariant
            graph.wf(),
            by_pair.indexes(graph),
            ei < graph.tokens@.len(),
            nb == neighbours(graph),
            well_indexed(nb),
            stack_ok(nb, ei, seq![ei]),
            cyc == cycles@.map_values(|v: Vec<usize>| v@),
            cyc == dfs_from(nb, ei, seq![ei], MAX_HOPS as nat),
            i <= cycles@.len(),
            ({
                let (b, bp) = scan_best(graph, cyc, *gas, i as nat);
                &&& best_profit.val() == bp
                &&& match best {
                    None => b < 0,
                    Some((bi, cp, opt, out)) => {
                        &&& b == bi as int
                        &&& bi < i
                        &&& cycle_value(graph, cyc[b], *gas) matches Some((cp2, opt2, out2, _)) && cp2 == cp@ && opt2 == opt.val() && out2 == out.val()
                        &&& crate::algo::is_cycle(graph, cyc[b], cp@)
                    },
                }
            }),
        decreases cycles@.len() - i,
    {
        proof {
            lemma_dfs_from_sound(nb, ei, seq![ei], MAX_HOPS as nat, i as int);
            assert(cyc[i as int] == cycles@[i as int]@);
            assert forall|x: int| 0 <= x < cycles@[i as int]@.len() implies #[trigger] cycles@[i as int]@[x] < graph.tokens@.len() by {
                assert(0 <= cyc[i as int][x] < nb.len());
            }
        }
        match evaluate(graph, by_pair, &cycles[i], gas) {
            None => {},
            Some((cp, opt, out, profit)) => {
                if profit.gt(&best_profit) {
                    best = Some((i, cp, opt, out));
                    best_profit = profit;
                }
            },
        }
        i = i + 1;
    }
    best
}

/// The token neighbour lists name tokens of the graph.
proof fn unique_neighbors_well_indexed(g: &Graph) -> (r: bool)
    requires
        g.wf(),
    ensures
        well_indexed(neighbours(g)),
        neighbours(g).len() == g.tokens@.len(),
{
    let nb = neighbours(g);
    g.lemma_adj_ok();
    assert forall|uu: int, k: int| 0 <= uu < nb.len() && 0 <= k < nb[uu].len() implies #[trigger] nb[uu][k] < nb.len() by {
        let x = nb[uu][k];
        lemma_unique_targets(g.adj@[uu]@, g.adj@[uu]@.len() as int, x);
        let e = choose|e: int| 0 <= e < g.adj@[uu]@.len() && g.adj@[uu]@[e].to == x;
        assert(g.edge_ok(uu, g.adj@[uu]@[e]));
    }
    true
}

/// The report of the cycle `cn` through `cp`, traded at `opt` for `out`,
/// after the trace so far.
fn report_cycle(graph: &Graph, cn: &Vec<usize>, cp: Vec<usize>, opt: U256, out: U256, gas: &GasModel, trace: Vec<Step>) -> (r: SolveResult)
    requires
        graph.wf(),
        1 <= cn@.len() <= MAX_HOPS,
        crate::algo::is_cycle(graph, cn@, cp@),
        trace_within(trace@, graph.tokens@.len()),
    ensures
        trace_within(r.trace@, graph.tokens@.len()),
        r.trace@.len() >= trace@.len(),
        forall|x: int| 0 <= x < trace@.len() ==> #[trigger] r.trace@[x] == trace@[x],
        cycle_events(graph, closed(cn@), cp@, r.trace@.skip(trace@.len() as int), cn@.len()),
        match r.outcome {
            Outcome::NegativeCycle { cycle, pools_used, product_of_rates, amount_in, cycle_output, gas_cost } => {
                &&& cycle@ == crate::algo::token_addrs(graph, cn@)
                &&& pools_used@ == crate::algo::pool_addrs(graph, cp@)
                &&& product_of_rates.num.val() == route_rate(graph.tokens@, graph.pools@, closed(cn@), cp@, cp@.len()).0
                &&& product_of_rates.den.val() == route_rate(graph.tokens@, graph.pools@, closed(cn@), cp@, cp@.len()).1
                &&& amount_in == opt
                &&& cycle_output == out
                &&& gas_cost.val() == route_gas(graph, *gas, cp@.len(), cn@[0] as int)
            },
            _ => false,
        },
{
    let mut trace = trace;
    let m = cn.len();
    let mut tour = cn.clone();
    tour.push(cn[0]);
    proof {
        assert(tour@ =~= closed(cn@));
        assert forall|x: int| 0 <= x < tour@.len() implies #[trigger] tour@[x] < graph.tokens@.len() by {
            if x < m {
                assert(tour@[x] == cn@[x]);
            } else {
                assert(tour@[x] == cn@[0]);
            }
        }
    }
    let rate = trace_cycle(graph, &tour, &cp, Ghost(cn@), &mut trace);
    let cycle = token_addresses(graph, cn);
    proof {
        graph.lemma_adj_ok();
        assert forall|x: int| 0 <= x < cp@.len() implies #[trigger] cp@[x] < graph.pools@.len() by {
            assert(graph.hop(cn@[x] as int, closed(cn@)[x + 1] as int, cp@[x] as int));
            let e = choose|e: int|
                #![trigger graph.adj@[cn@[x] as int]@[e]]
                graph.usable(cn@[x] as int, e) && graph.adj@[cn@[x] as int]@[e].to
                    == closed(cn@)[x + 1] as int && graph.adj@[cn@[x] as int]@[e].pool == cp@[x] as int;
            assert(graph.edge_ok(cn@[x] as int, graph.adj@[cn@[x] as int]@[e]));
        }
    }
    let pools_used = pool_addresses(graph, &cp);
    let units = gas.gas_units(1, m);
    let entry_token = &graph.tokens[cn[0]];
    let gas_cost = gas.gas_to_dst_token(units, entry_token.true_price_pico_usd, entry_token.decimals);
    SolveResult {
        outcome: Outcome::NegativeCycle {
            cycle,
            pools_used,
            product_of_rates: rate,
            amount_in: opt,
            cycle_output: out,
            gas_cost,
        },
        trace,
    }
}

/// The most profitable simple cycle through `entry`, with its best trade
/// size; `NoPath` for an unknown token or when no cycle is profitable net of
/// gas.
pub fn scan_from(graph: &Graph, entry: Address, gas: &GasModel) -> (r: SolveResult)
    requires
        graph.wf(),
    ensures
        scan_contract(graph, entry, *gas, r),
{
    proof {
        lemma_index_upto(graph.tokens@, entry, graph.tokens@.len() as int);
    }
    let ei = match graph.index_of(entry) {
        Some(i) => i,
        None => {
            return SolveResult { outcome: Outcome::NoPath, trace: Vec::new() };
        },
    };
    let cycles = enumerate_cycles(graph, ei);
    let ghost cyc = cycles@.map_values(|v: Vec<usize>| v@);
    let by_pair = build_by_pair(graph);
    let mut trace: Vec<Step> = Vec::new();
    trace.push(Step::Visit(ei));
    match pick_cycle(graph, &by_pair, &cycles, gas, Ghost(ei)) {
        None => SolveResult { outcome: Outcome::NoPath, trace },
        Some((bi, cp, opt, out)) => {
            let cn = cycles[bi].clone();
            proof {
                assert(cn@ == cyc[bi as int]);
                let ok = unique_neighbors_well_indexed(graph);
                assert(stack_ok(neighbours(graph), ei, seq![ei]));
                lemma_dfs_from_sound(neighbours(graph), ei, seq![ei], MAX_HOPS as nat, bi as int);
            }
            report_cycle(graph, &cn, cp, opt, out, gas, trace)
        },
    }
}

} // verus!
