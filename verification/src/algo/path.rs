//! Path bookkeeping shared by the single-path routers.
use vstd::prelude::*;

verus! {

/// The node reached from `dst` after following parent links `k` times.
pub open spec fn walk_back(prev: Seq<Option<(usize, usize)>>, dst: int, k: nat) -> int
    decreases k,
{
    if k == 0 {
        dst
    } else {
        prev[walk_back(prev, dst, (k - 1) as nat)].unwrap().0 as int
    }
}

/// Following parent links from `dst` meets `src` for the first time after
/// exactly `k` steps, and every node passed on the way has a parent entry.
pub open spec fn chain_reaches(
    prev: Seq<Option<(usize, usize)>>,
    src: int,
    dst: int,
    k: nat,
) -> bool {
    &&& walk_back(prev, dst, k) == src
    &&& forall|j: nat|
        j < k ==> {
            let c = #[trigger] walk_back(prev, dst, j);
            &&& 0 <= c < prev.len()
            &&& prev[c] is Some
            &&& c != src
        }
}

/// Number of parent links from `dst` back to `src`.
pub open spec fn chain_len(prev: Seq<Option<(usize, usize)>>, src: int, dst: int) -> nat {
    choose|k: nat| chain_reaches(prev, src, dst, k)
}

/// The first meeting with `src` happens at a single step count.
pub proof fn lemma_chain_len_unique(
    prev: Seq<Option<(usize, usize)>>,
    src: int,
    dst: int,
    k1: nat,
    k2: nat,
)
    requires
        chain_reaches(prev, src, dst, k1),
        chain_reaches(prev, src, dst, k2),
    ensures
        k1 == k2,
{
    if k1 < k2 {
        assert(walk_back(prev, dst, k1) != src);
    } else if k2 < k1 {
        assert(walk_back(prev, dst, k2) != src);
    }
}

/// Following parent links from `v` one step lands on its parent `p`, and
/// from there on the walks agree.
pub proof fn lemma_walk_back_shift(prev: Seq<Option<(usize, usize)>>, v: int, j: nat)
    requires
        0 <= v < prev.len(),
        prev[v] is Some,
    ensures
        walk_back(prev, v, j + 1) == walk_back(prev, prev[v].unwrap().0 as int, j),
    decreases j,
{
    if j > 0 {
        lemma_walk_back_shift(prev, v, (j - 1) as nat);
        assert(walk_back(prev, v, j + 1) == prev[walk_back(prev, v, j)].unwrap().0 as int);
        assert(walk_back(prev, prev[v].unwrap().0 as int, j) == prev[walk_back(
            prev,
            prev[v].unwrap().0 as int,
            (j - 1) as nat,
        )].unwrap().0 as int);
    } else {
        assert(walk_back(prev, v, 1) == prev[walk_back(prev, v, 0)].unwrap().0 as int);
    }
}

/// When every settled token other than `s` has a settled parent settled
/// earlier (by the times `vt`), the parent links from a settled token reach
/// `s` within as many steps as its settling time.
pub proof fn lemma_chain_from_order(
    prev: Seq<Option<(usize, usize)>>,
    settled: Seq<bool>,
    vt: Seq<nat>,
    s: int,
    v: int,
) -> (k: nat)
    requires
        settled.len() == prev.len(),
        vt.len() == prev.len(),
        0 <= s < prev.len(),
        0 <= v < prev.len(),
        settled[v],
        forall|w: int|
            0 <= w < prev.len() && #[trigger] settled[w] && w != s ==> {
                &&& prev[w] is Some
                &&& prev[w].unwrap().0 < prev.len()
                &&& settled[prev[w].unwrap().0 as int]
                &&& vt[prev[w].unwrap().0 as int] < vt[w]
            },
    ensures
        chain_reaches(prev, s, v, k),
        k <= vt[v],
    decreases vt[v],
{
    if v == s {
        0
    } else {
        let p = prev[v].unwrap().0 as int;
        let k0 = lemma_chain_from_order(prev, settled, vt, s, p);
        assert forall|j: nat| j <= k0 implies walk_back(prev, v, j + 1) == walk_back(prev, p, j) by {
            lemma_walk_back_shift(prev, v, j);
        }
        assert forall|j: nat| j < k0 + 1 implies {
            let c = #[trigger] walk_back(prev, v, j);
            &&& 0 <= c < prev.len()
            &&& prev[c] is Some
            &&& c != s
        } by {
            if j > 0 {
                assert(walk_back(prev, v, j) == walk_back(prev, p, (j - 1) as nat));
            }
        }
        k0 + 1
    }
}

/// Follows parent links from `dst` for at most `limit` steps and returns
/// the number of steps after which `src` is first met; `None` when a token
/// on the way has no parent or `src` is not met in time.
pub fn chain_within(prev: &Vec<Option<(usize, usize)>>, src: usize, dst: usize, limit: usize) -> (r:
    Option<usize>)
    requires
        dst < prev@.len(),
        forall|v: int|
            0 <= v < prev@.len() && #[trigger] prev@[v] is Some ==> prev@[v].unwrap().0 < prev@.len(),
    ensures
        r matches Some(k) ==> chain_reaches(prev@, src as int, dst as int, k as nat) && k <= limit,
        r is None ==> forall|k: nat| k <= limit ==> !#[trigger] chain_reaches(prev@, src as int, dst as int, k),
{
    let mut current = dst;
    let mut steps: usize = 0;
    while steps < limit
        invariant
            dst < prev@.len(),
            forall|v: int|
                0 <= v < prev@.len() && #[trigger] prev@[v] is Some ==> prev@[v].unwrap().0 < prev@.len(),
            steps <= limit,
            current < prev@.len(),
            current as int == walk_back(prev@, dst as int, steps as nat),
            forall|j: nat|
                j < steps ==> {
                    let c = #[trigger] walk_back(prev@, dst as int, j);
                    &&& 0 <= c < prev@.len()
                    &&& prev@[c] is Some
                    &&& c != src
                },
        decreases limit - steps,
    {
        if current == src {
            return Some(steps);
        }
        match prev[current] {
            None => {
                proof {
                    assert forall|k: nat| k <= limit implies !#[trigger] chain_reaches(prev@, src as int, dst as int, k) by {
                        if k > steps {
                            let c = walk_back(prev@, dst as int, steps as nat);
                            assert(c == current as int);
                        } else if k < steps {
                            let c = walk_back(prev@, dst as int, k);
                            assert(c != src);
                        }
                    }
                }
                return None;
            },
            Some((p, _)) => {
                proof {
                    assert(walk_back(prev@, dst as int, (steps + 1) as nat) == p as int);
                }
                current = p;
                steps = steps + 1;
            },
        }
    }
    if current == src {
        Some(steps)
    } else {
        proof {
            assert forall|k: nat| k <= limit implies !#[trigger] chain_reaches(prev@, src as int, dst as int, k) by {
                if k < steps {
                    let c = walk_back(prev@, dst as int, k);
                    assert(c != src);
                }
            }
        }
        None
    }
}

/// Rebuilds the `(token path, pool path)` pair that a parent table records
/// for `dst`. The token path runs from `src` to `dst`; `pools[i]` is the pool
/// used to step from `path[i]` to `path[i + 1]`.
pub fn reconstruct_with_pools(
    prev: &[Option<(usize, usize)>],
    src: usize,
    dst: usize,
) -> (res: (Vec<usize>, Vec<usize>))
    requires
        exists|k: nat| chain_reaches(prev@, src as int, dst as int, k),
    ensures
        ({
            let k = chain_len(prev@, src as int, dst as int);
            let (path, pools) = res;
            &&& path.len() == k + 1
            &&& pools.len() == k
            &&& forall|i: int|
                0 <= i <= k ==> path[i] as int == walk_back(prev@, dst as int, (k - i) as nat)
            &&& forall|i: int|
                0 <= i < k ==> pools[i] == prev@[walk_back(
                    prev@,
                    dst as int,
                    (k - 1 - i) as nat,
                )].unwrap().1
        }),
{
    let ghost k = chain_len(prev@, src as int, dst as int);
    proof {
        let w = choose|k: nat| chain_reaches(prev@, src as int, dst as int, k);
        lemma_chain_len_unique(prev@, src as int, dst as int, w, k);
    }
    // Collected from `dst` backwards, then flipped.
    let mut back_path: Vec<usize> = Vec::new();
    let mut back_pools: Vec<usize> = Vec::new();
    back_path.push(dst);
    let mut current = dst;
    while current != src
        invariant
            chain_reaches(prev@, src as int, dst as int, k),
            back_pools.len() <= k,
            back_path.len() == back_pools.len() + 1,
            current as int == walk_back(prev@, dst as int, back_pools.len() as nat),
            forall|i: int|
                0 <= i < back_path.len() ==> back_path[i] as int == walk_back(
                    prev@,
                    dst as int,
                    i as nat,
                ),
            forall|i: int|
                0 <= i < back_pools.len() ==> back_pools[i] == prev@[walk_back(
                    prev@,
                    dst as int,
                    i as nat,
                )].unwrap().1,
        decreases k - back_pools.len(),
    {
        let ghost j = back_pools.len() as nat;
        assert(walk_back(prev@, dst as int, j) == current);
        assert(j < k);
        let (parent, pool_idx) = prev[current].unwrap();
        back_pools.push(pool_idx);
        back_path.push(parent);
        current = parent;
        assert(walk_back(prev@, dst as int, (j + 1) as nat) == parent);
    }
    assert(back_pools.len() == k) by {
        if back_pools.len() < k {
            assert(walk_back(prev@, dst as int, back_pools.len() as nat) != src);
        }
    }
    let mut path: Vec<usize> = Vec::new();
    let mut i = back_path.len();
    while i > 0
        invariant
            i <= back_path.len(),
            path.len() + i == back_path.len(),
            forall|t: int| 0 <= t < path.len() ==> path[t] == back_path[back_path.len() - 1 - t],
        decreases i,
    {
        i = i - 1;
        path.push(back_path[i]);
    }
    let mut pools: Vec<usize> = Vec::new();
    let mut i = back_pools.len();
    while i > 0
        invariant
            i <= back_pools.len(),
            pools.len() + i == back_pools.len(),
            forall|t: int|
                0 <= t < pools.len() ==> pools[t] == back_pools[back_pools.len() - 1 - t],
        decreases i,
    {
        i = i - 1;
        pools.push(back_pools[i]);
    }
    assert forall|t: int| 0 <= t <= k implies path[t] as int == walk_back(
        prev@,
        dst as int,
        (k - t) as nat,
    ) by {
        assert(path[t] == back_path[k - t]);
    }
    assert forall|t: int| 0 <= t < k implies pools[t] == prev@[walk_back(
        prev@,
        dst as int,
        (k - 1 - t) as nat,
    )].unwrap().1 by {
        assert(pools[t] == back_pools[k - 1 - t]);
    }
    (path, pools)
}

} // verus!

use crate::address::Address;
use crate::graph::{Edge, Graph};
use crate::pool::{Pool, FEE_DENOM};
use crate::ratio::Ratio;
use crate::token::Token;
use crate::uint::U256;

verus! {

/// Pools of the edges in `edges` that lead to `v`, in edge order.
pub open spec fn pools_to(edges: Seq<Edge>, v: int) -> Seq<usize>
    decreases edges.len(),
{
    if edges.len() == 0 {
        Seq::empty()
    } else {
        let rest = pools_to(edges.drop_last(), v);
        if edges.last().to == v {
            rest.push(edges.last().pool)
        } else {
            rest
        }
    }
}

/// Pools joining each pair of tokens, in pool order, looked up through the
/// adjacency lists of the graph that it was built from.
#[derive(Debug, Clone)]
pub struct PairIndex {
    adj: Vec<Vec<Edge>>,
}

impl PairIndex {
    /// The index answers for graph `g`.
    pub closed spec fn indexes(&self, g: &Graph) -> bool {
        &&& self.adj@.len() == g.adj@.len()
        &&& forall|u: int| 0 <= u < self.adj@.len() ==> #[trigger] self.adj@[u]@ == g.adj@[u]@
    }

    /// Pools joining tokens `u` and `v`, in pool order; `None` where there
    /// are none.
    pub fn get(&self, g: &Graph, u: usize, v: usize) -> (r: Option<Vec<usize>>)
        requires
            self.indexes(g),
            u < g.adj@.len(),
        ensures
            match r {
                Some(c) => c@ == pools_to(g.adj@[u as int]@, v as int) && c@.len() > 0,
                None => pools_to(g.adj@[u as int]@, v as int).len() == 0,
            },
    {
        let edges = &self.adj[u];
        let mut out: Vec<usize> = Vec::new();
        let mut i: usize = 0;
        while i < edges.len()
            invariant
                i <= edges.len(),
                out@ == pools_to(edges@.subrange(0, i as int), v as int),
            decreases edges.len() - i,
        {
            assert(edges@.subrange(0, i + 1).drop_last() =~= edges@.subrange(0, i as int));
            if edges[i].to == v {
                out.push(edges[i].pool);
            }
            i = i + 1;
        }
        assert(edges@.subrange(0, edges@.len() as int) =~= edges@);
        if out.len() == 0 {
            None
        } else {
            Some(out)
        }
    }
}

/// Index of pools joining each pair of tokens, for the best-pool walk.
pub fn build_by_pair(graph: &Graph) -> (r: PairIndex)
    ensures
        r.indexes(graph),
{
    let mut adj: Vec<Vec<Edge>> = Vec::new();
    let mut u: usize = 0;
    while u < graph.adj.len()
        invariant
            u <= graph.adj@.len(),
            adj@.len() == u,
            forall|w: int| 0 <= w < u ==> #[trigger] adj@[w]@ == graph.adj@[w]@,
        decreases graph.adj@.len() - u,
    {
        let src = &graph.adj[u];
        let mut copy: Vec<Edge> = Vec::new();
        let mut i: usize = 0;
        while i < src.len()
            invariant
                i <= src.len(),
                copy@ == src@.subrange(0, i as int),
            decreases src.len() - i,
        {
            copy.push(src[i]);
            i = i + 1;
        }
        assert(copy@ =~= src@);
        adj.push(copy);
        u = u + 1;
    }
    PairIndex { adj }
}

/// Exact product `(Π num, Π den)` of the marginal rates of the first `k`
/// hops of a route.
pub open spec fn route_rate(
    tokens: Seq<Token>,
    pools: Seq<Pool>,
    tp: Seq<usize>,
    pp: Seq<usize>,
    k: nat,
) -> (nat, nat)
    decreases k,
{
    if k == 0 {
        (1, 1)
    } else {
        let prev = route_rate(tokens, pools, tp, pp, (k - 1) as nat);
        let p = pools[pp[k - 1] as int];
        let from = tokens[tp[k - 1] as int].address;
        (prev.0 * p.rate_num(from), prev.1 * p.rate_den(from))
    }
}

/// Hop `k` of a route uses a pool that joins its two tokens.
pub open spec fn hop_joins(g: &Graph, tp: Seq<usize>, pp: Seq<usize>, k: int) -> bool {
    let pool = g.pools@[pp[k] as int];
    let from = g.tokens@[tp[k] as int].address;
    let to = g.tokens@[tp[k + 1] as int].address;
    (pool.token_a == from && pool.token_b == to) || (pool.token_a == to && pool.token_b == from)
}

/// Amount after the first `k` hops of a route through the given pools, or
/// `None` when some hop's pool does not join its tokens, its swap is not
/// computable, or it yields nothing.
pub open spec fn walk_fixed(g: &Graph, tp: Seq<usize>, pp: Seq<usize>, amount_in: nat, k: nat) -> Option<nat>
    decreases k,
{
    if k == 0 {
        Some(amount_in)
    } else {
        match walk_fixed(g, tp, pp, amount_in, (k - 1) as nat) {
            None => None,
            Some(a) => {
                let pool = g.pools@[pp[k - 1] as int];
                let from = g.tokens@[tp[k - 1] as int].address;
                if !hop_joins(g, tp, pp, k - 1) || !pool.swap_ok(from, a) {
                    None
                } else if pool.output_spec(from, a) == 0 {
                    None
                } else {
                    Some(pool.output_spec(from, a))
                }
            }
        }
    }
}

/// Indices of a route lie within the graph.
pub open spec fn route_in_graph(g: &Graph, tp: Seq<usize>, pp: Seq<usize>) -> bool {
    &&& forall|i: int| 0 <= i < tp.len() ==> #[trigger] tp[i] < g.tokens@.len()
    &&& forall|i: int| 0 <= i < pp.len() ==> #[trigger] pp[i] < g.pools@.len()
}

/// Walks an explicit (token path, pool path) route, using the given pool at
/// each hop. Returns the final amount and the exact product of the hops'
/// marginal rates; `None` when the route's shape is wrong, a pool does not
/// join its hop's tokens, a swap is not computable, or an intermediate output
/// rounds to zero.
pub fn walk_pool_path(
    graph: &Graph,
    token_path: &[usize],
    pool_path: &[usize],
    amount_in: U256,
) -> (r: Option<(U256, Ratio)>)
    requires
        route_in_graph(graph, token_path@, pool_path@),
    ensures
        ({
            let ok = token_path@.len() >= 2 && pool_path@.len() == token_path@.len() - 1;
            let w = walk_fixed(graph, token_path@, pool_path@, amount_in.val(), pool_path@.len() as nat);
            match r {
                Some((out, rate)) => {
                    &&& ok
                    &&& w == Some(out.val())
                    &&& (rate.num.val(), rate.den.val()) == route_rate(
                        graph.tokens@,
                        graph.pools@,
                        token_path@,
                        pool_path@,
                        pool_path@.len() as nat,
                    )
                },
                None => !ok || w is None,
            }
        }),
{
    if token_path.len() < 2 || pool_path.len() != token_path.len() - 1 {
        return None;
    }
    let mut amount = amount_in;
    let mut rate = Ratio::one();
    let mut hop: usize = 0;
    while hop < pool_path.len()
        invariant
            route_in_graph(graph, token_path@, pool_path@),
            pool_path@.len() == token_path@.len() - 1,
            hop <= pool_path@.len(),
            walk_fixed(graph, token_path@, pool_path@, amount_in.val(), hop as nat) == Some(amount.val()),
            (rate.num.val(), rate.den.val()) == route_rate(
                graph.tokens@,
                graph.pools@,
                token_path@,
                pool_path@,
                hop as nat,
            ),
        decreases pool_path@.len() - hop,
    {
        let from_addr = graph.tokens[token_path[hop]].address;
        let pool = &graph.pools[pool_path[hop]];
        let to_addr = graph.tokens[token_path[hop + 1]].address;
        let valid = (pool.token_a == from_addr && pool.token_b == to_addr) || (pool.token_a
            == to_addr && pool.token_b == from_addr);
        if !valid {
            proof {
                lemma_walk_fixed_stuck(graph, token_path@, pool_path@, amount_in.val(), hop as nat);
            }
            return None;
        }
        match pool.quote(from_addr, amount) {
            None => {
                proof {
                    lemma_walk_fixed_stuck(graph, token_path@, pool_path@, amount_in.val(), hop as nat);
                }
                return None;
            },
            Some(out) => {
                if out.is_zero() {
                    proof {
                        lemma_walk_fixed_stuck(graph, token_path@, pool_path@, amount_in.val(), hop as nat);
                    }
                    return None;
                }
                amount = out;
            },
        }
        rate = rate.mul(&pool.marginal_rate(from_addr));
        hop = hop + 1;
    }
    Some((amount, rate))
}

/// Once a walk fails it stays failed.
proof fn lemma_walk_fixed_stuck(g: &Graph, tp: Seq<usize>, pp: Seq<usize>, a: nat, k: nat)
    requires
        k < pp.len(),
        walk_fixed(g, tp, pp, a, (k + 1) as nat) is None,
    ensures
        walk_fixed(g, tp, pp, a, pp.len() as nat) is None,
    decreases pp.len() - k,
{
    if k + 1 < pp.len() {
        assert(walk_fixed(g, tp, pp, a, (k + 2) as nat) is None);
        lemma_walk_fixed_stuck(g, tp, pp, a, (k + 1) as nat);
    }
}

} // verus!

verus! {

/// Each pool listed by `pools_to` is the pool of an edge leading to `v`;
/// returns the position of such an edge.
pub proof fn lemma_pools_to(edges: Seq<Edge>, v: int, i: int) -> (j: int)
    requires
        0 <= i < pools_to(edges, v).len(),
    ensures
        0 <= j < edges.len(),
        edges[j].to == v,
        edges[j].pool == pools_to(edges, v)[i],
    decreases edges.len(),
{
    let rest = pools_to(edges.drop_last(), v);
    if i < rest.len() {
        let j = lemma_pools_to(edges.drop_last(), v, i);
        assert(edges[j] == edges.drop_last()[j]);
        j
    } else {
        edges.len() - 1
    }
}

/// Index into `cands` of the first candidate with the largest output for
/// `amount` of `from`, among the first `i` candidates whose swap is
/// computable; -1 when none is.
pub open spec fn best_candidate(
    pools: Seq<Pool>,
    cands: Seq<usize>,
    from: Address,
    amount: nat,
    i: nat,
) -> int
    decreases i,
{
    if i == 0 {
        -1
    } else {
        let b = best_candidate(pools, cands, from, amount, (i - 1) as nat);
        let p = pools[cands[i - 1] as int];
        if !p.swap_ok(from, amount) {
            b
        } else if b < 0 || p.output_spec(from, amount) > pools[cands[b] as int].output_spec(
            from,
            amount,
        ) {
            i - 1
        } else {
            b
        }
    }
}

pub proof fn lemma_best_candidate_range(
    pools: Seq<Pool>,
    cands: Seq<usize>,
    from: Address,
    amount: nat,
    i: nat,
)
    ensures
        -1 <= best_candidate(pools, cands, from, amount, i) < i,
        best_candidate(pools, cands, from, amount, i) >= 0 ==> pools[cands[best_candidate(
            pools,
            cands,
            from,
            amount,
            i,
        )] as int].swap_ok(from, amount),
    decreases i,
{
    if i > 0 {
        lemma_best_candidate_range(pools, cands, from, amount, (i - 1) as nat);
    }
}

/// The candidate `best_candidate` picks gives at least the output of every
/// candidate among the first `i` whose swap is computable, strictly more
/// than every such candidate before it, and one is picked whenever any is
/// computable.
pub proof fn lemma_best_candidate_max(pools: Seq<Pool>, cands: Seq<usize>, from: Address, amount: nat, i: nat)
    ensures
        forall|c: int|
            0 <= c < i && #[trigger] pools[cands[c] as int].swap_ok(from, amount) ==> best_candidate(pools, cands, from, amount, i)
                >= 0 && pools[cands[c] as int].output_spec(from, amount) <= pools[cands[best_candidate(
                pools,
                cands,
                from,
                amount,
                i,
            )] as int].output_spec(from, amount),
        forall|c: int|
            0 <= c < best_candidate(pools, cands, from, amount, i) && #[trigger] pools[cands[c] as int].swap_ok(from, amount)
                ==> pools[cands[c] as int].output_spec(from, amount) < pools[cands[best_candidate(
                pools,
                cands,
                from,
                amount,
                i,
            )] as int].output_spec(from, amount),
    decreases i,
{
    if i > 0 {
        lemma_best_candidate_max(pools, cands, from, amount, (i - 1) as nat);
        lemma_best_candidate_range(pools, cands, from, amount, (i - 1) as nat);
    }
}

/// Every edge of `edges` that leads to `v` has its pool among `pools_to`.
pub proof fn lemma_pools_to_has(edges: Seq<Edge>, v: int, i: int) -> (c: int)
    requires
        0 <= i < edges.len(),
        edges[i].to == v,
    ensures
        0 <= c < pools_to(edges, v).len(),
        pools_to(edges, v)[c] == edges[i].pool,
    decreases edges.len(),
{
    let rest = pools_to(edges.drop_last(), v);
    if i == edges.len() - 1 {
        rest.len() as int
    } else {
        assert(edges.drop_last()[i] == edges[i]);
        let c = lemma_pools_to_has(edges.drop_last(), v, i);
        c
    }
}

/// Pools chosen and amount held after the first `k` hops of the token path
/// `tp` when each hop takes its best pool at the running amount; `None` when
/// some hop has no pool whose swap is computable.
pub open spec fn walk_best(g: &Graph, tp: Seq<usize>, amount_in: nat, k: nat) -> Option<
    (Seq<usize>, nat),
>
    decreases k,
{
    if k == 0 {
        Some((Seq::empty(), amount_in))
    } else {
        match walk_best(g, tp, amount_in, (k - 1) as nat) {
            None => None,
            Some((ps, a)) => {
                let u = tp[k - 1] as int;
                let cands = pools_to(g.adj@[u]@, tp[k as int] as int);
                let from = g.tokens@[u].address;
                let b = best_candidate(g.pools@, cands, from, a, cands.len());
                if b < 0 {
                    None
                } else {
                    let p = cands[b];
                    Some((ps.push(p), g.pools@[p as int].output_spec(from, a)))
                }
            }
        }
    }
}

/// Walks a token path choosing, at each hop, the parallel pool that gives
/// the most output for the running amount (the first such pool on ties).
/// Returns the pools chosen, the final amount and the exact product of their
/// marginal rates; `None` for a path of fewer than two tokens or a hop with
/// no usable pool.
pub fn walk_with_best_pools(
    graph: &Graph,
    by_pair: &PairIndex,
    token_path: &[usize],
    amount_in: U256,
) -> (r: Option<(Vec<usize>, U256, Ratio)>)
    requires
        graph.wf(),
        by_pair.indexes(graph),
        forall|i: int| 0 <= i < token_path@.len() ==> #[trigger] token_path@[i] < graph.tokens@.len(),
    ensures
        token_path@.len() < 2 ==> r is None,
        r matches Some((pools, _, _)) ==> forall|i: int|
            0 <= i < pools@.len() ==> #[trigger] pools@[i] < graph.pools@.len(),
        token_path@.len() >= 2 ==> match walk_best(
            graph,
            token_path@,
            amount_in.val(),
            (token_path@.len() - 1) as nat,
        ) {
            None => r is None,
            Some((ps, a)) => match r {
                None => false,
                Some((pools, out, rate)) => {
                    &&& pools@ == ps
                    &&& out.val() == a
                    &&& (rate.num.val(), rate.den.val()) == route_rate(
                        graph.tokens@,
                        graph.pools@,
                        token_path@,
                        ps,
                        ps.len(),
                    )
                },
            },
        },
{
    if token_path.len() < 2 {
        return None;
    }
    proof {
        graph.lemma_adj_ok();
    }
    let mut amount = amount_in;
    let mut pools_idx: Vec<usize> = Vec::new();
    let mut rate = Ratio::one();
    let mut hop: usize = 0;
    while hop < token_path.len() - 1
        invariant
            graph.wf(),
            by_pair.indexes(graph),
            forall|i: int| 0 <= i < token_path@.len() ==> #[trigger] token_path@[i] < graph.tokens@.len(),
            forall|u: int, i: int|
                0 <= u < graph.adj@.len() && 0 <= i < graph.adj@[u]@.len() ==> graph.edge_ok(
                    u,
                    #[trigger] graph.adj@[u]@[i],
                ),
            token_path@.len() >= 2,
            hop <= token_path@.len() - 1,
            walk_best(graph, token_path@, amount_in.val(), hop as nat) == Some((pools_idx@, amount.val())),
            pools_idx@.len() == hop,
            forall|i: int| 0 <= i < pools_idx@.len() ==> #[trigger] pools_idx@[i] < graph.pools@.len(),
            (rate.num.val(), rate.den.val()) == route_rate(
                graph.tokens@,
                graph.pools@,
                token_path@,
                pools_idx@,
                hop as nat,
            ),
        decreases token_path@.len() - 1 - hop,
    {
        let u = token_path[hop];
        let v = token_path[hop + 1];
        let candidates = match by_pair.get(graph, u, v) {
            Some(c) => c,
            None => {
                proof {
                    lemma_walk_best_stuck(graph, token_path@, amount_in.val(), hop as nat);
                }
                return None;
            },
        };
        let ghost cands = pools_to(graph.adj@[u as int]@, v as int);
        let from_addr = graph.tokens[u].address;
        let mut best_pool_idx: Option<usize> = None;
        let mut best_hop_out = U256::zero();
        let mut i: usize = 0;
        while i < candidates.len()
            invariant
                graph.wf(),
                candidates@ == cands,
                u < graph.adj@.len(),
                from_addr == graph.tokens@[u as int].address,
                cands == pools_to(graph.adj@[u as int]@, v as int),
                forall|uu: int, ii: int|
                    0 <= uu < graph.adj@.len() && 0 <= ii < graph.adj@[uu]@.len() ==> graph.edge_ok(
                        uu,
                        #[trigger] graph.adj@[uu]@[ii],
                    ),
                i <= candidates@.len(),
                ({
                    let b = best_candidate(graph.pools@, cands, from_addr, amount.val(), i as nat);
                    match best_pool_idx {
                        None => b == -1,
                        Some(bi) => b >= 0 && bi == b && bi < cands.len() && best_hop_out.val()
                            == graph.pools@[cands[b] as int].output_spec(from_addr, amount.val()),
                    }
                }),
            decreases candidates@.len() - i,
        {
            let pool_idx = candidates[i];
            proof {
                let e = lemma_pools_to(graph.adj@[u as int]@, v as int, i as int);
                assert(graph.edge_ok(u as int, graph.adj@[u as int]@[e]));
            }
            match graph.pools[pool_idx].quote(from_addr, amount) {
                None => {},
                Some(out) => {
                    let better = match best_pool_idx {
                        None => true,
                        Some(_) => out.gt(&best_hop_out),
                    };
                    if better {
                        best_pool_idx = Some(i);
                        best_hop_out = out;
                    }
                },
            }
            i = i + 1;
        }
        let bi = match best_pool_idx {
            Some(bi) => bi,
            None => {
                proof {
                    lemma_walk_best_stuck(graph, token_path@, amount_in.val(), hop as nat);
                }
                return None;
            },
        };
        let pool_idx = candidates[bi];
        proof {
            lemma_best_candidate_range(graph.pools@, cands, from_addr, amount.val(), cands.len());
            let e = lemma_pools_to(graph.adj@[u as int]@, v as int, bi as int);
            assert(graph.edge_ok(u as int, graph.adj@[u as int]@[e]));
        }
        let hop_rate = graph.pools[pool_idx].marginal_rate(from_addr);
        rate = rate.mul(&hop_rate);
        amount = best_hop_out;
        let ghost old_pools = pools_idx@;
        pools_idx.push(pool_idx);
        proof {
            assert(pools_idx@.drop_last() =~= old_pools);
            lemma_route_rate_prefix(graph.tokens@, graph.pools@, token_path@, pools_idx@, hop as nat);
            assert(route_rate(graph.tokens@, graph.pools@, token_path@, pools_idx@, (hop + 1) as nat)
                == (route_rate(graph.tokens@, graph.pools@, token_path@, pools_idx@, hop as nat).0
                * graph.pools@[pool_idx as int].rate_num(from_addr), route_rate(graph.tokens@, graph.pools@, token_path@, pools_idx@, hop as nat).1
                * graph.pools@[pool_idx as int].rate_den(from_addr)));
        }
        hop = hop + 1;
    }
    Some((pools_idx, amount, rate))
}

/// The rate of a route prefix only looks at the prefix's pools.
proof fn lemma_route_rate_prefix(
    tokens: Seq<Token>,
    pools: Seq<Pool>,
    tp: Seq<usize>,
    pp: Seq<usize>,
    k: nat,
)
    requires
        k < pp.len(),
    ensures
        route_rate(tokens, pools, tp, pp, k) == route_rate(tokens, pools, tp, pp.drop_last(), k),
    decreases k,
{
    if k > 0 {
        lemma_route_rate_prefix(tokens, pools, tp, pp, (k - 1) as nat);
    }
}

proof fn lemma_walk_best_stuck(g: &Graph, tp: Seq<usize>, a: nat, k: nat)
    requires
        k < tp.len() - 1,
        walk_best(g, tp, a, (k + 1) as nat) is None,
    ensures
        walk_best(g, tp, a, (tp.len() - 1) as nat) is None,
    decreases tp.len() - k,
{
    if k + 1 < tp.len() - 1 {
        assert(walk_best(g, tp, a, (k + 2) as nat) is None);
        lemma_walk_best_stuck(g, tp, a, (k + 1) as nat);
    }
}

/// The token path rebuilt from a parent chain is a walk along usable edges
/// when every parent link is such an edge.
pub proof fn lemma_chain_walk(
    g: &Graph,
    prev: Seq<Option<(usize, usize)>>,
    s: int,
    d: int,
    k: nat,
    tp: Seq<usize>,
)
    requires
        prev.len() == g.tokens@.len(),
        0 <= s < prev.len(),
        chain_reaches(prev, s, d, k),
        tp.len() == k + 1,
        forall|i: int| 0 <= i <= k ==> tp[i] as int == walk_back(prev, d, (k - i) as nat),
        forall|c: int|
            0 <= c < prev.len() && #[trigger] prev[c] is Some ==> g.hop(
                prev[c].unwrap().0 as int,
                c,
                prev[c].unwrap().1 as int,
            ) && prev[c].unwrap().0 < prev.len(),
    ensures
        g.is_walk(tp),
        tp[0] == s,
        tp.last() == d,
{
    assert(tp[0] == walk_back(prev, d, k));
    assert(tp[k as int] == walk_back(prev, d, 0));
    assert forall|i: int| 0 <= i < tp.len() implies #[trigger] tp[i] < g.tokens@.len() by {
        if i < k {
            let c = walk_back(prev, d, (k - i - 1) as nat);
            assert(0 <= c < prev.len() && prev[c] is Some);
            assert(tp[i] as int == walk_back(prev, d, (k - i) as nat));
        } else {
            let c = walk_back(prev, d, 0);
            if k > 0 {
                assert(0 <= c < prev.len());
            }
        }
    }
    assert forall|i: int| 0 <= i < tp.len() - 1 implies g.linked(#[trigger] tp[i] as int, tp[i + 1] as int) by {
        let c = walk_back(prev, d, (k - i - 1) as nat);
        assert(0 <= c < prev.len() && prev[c] is Some);
        assert(tp[i + 1] as int == c);
        assert(tp[i] as int == walk_back(prev, d, (k - i) as nat));
        assert(walk_back(prev, d, (k - i) as nat) == prev[c].unwrap().0 as int);
        assert(g.hop(prev[c].unwrap().0 as int, c, prev[c].unwrap().1 as int));
        let e = choose|e: int|
            #![trigger g.adj@[prev[c].unwrap().0 as int]@[e]]
            g.usable(prev[c].unwrap().0 as int, e) && g.adj@[prev[c].unwrap().0 as int]@[e].to == c
                && g.adj@[prev[c].unwrap().0 as int]@[e].pool == prev[c].unwrap().1 as int;
        assert(g.adj@[tp[i] as int]@[e].to == tp[i + 1]);
    }
}

/// A successful best-pool walk of `k` hops chooses `k` pools.
pub proof fn lemma_walk_best_len(g: &Graph, tp: Seq<usize>, a: nat, k: nat)
    requires
        walk_best(g, tp, a, k) is Some,
    ensures
        walk_best(g, tp, a, k).unwrap().0.len() == k,
    decreases k,
{
    if k > 0 {
        lemma_walk_best_len(g, tp, a, (k - 1) as nat);
    }
}

/// Amount after the first `k` hops of swapping `amount_in` along the token
/// indices `tp` through the pool indices `pp`; `None` when some hop's swap
/// is not computable.
pub open spec fn replay(g: &Graph, tp: Seq<usize>, pp: Seq<usize>, amount_in: nat, k: nat) -> Option<nat>
    decreases k,
{
    if k == 0 {
        Some(amount_in)
    } else {
        match replay(g, tp, pp, amount_in, (k - 1) as nat) {
            None => None,
            Some(a) => {
                let pool = g.pools@[pp[k - 1] as int];
                let from = g.tokens@[tp[k - 1] as int].address;
                if pool.swap_ok(from, a) {
                    Some(pool.output_spec(from, a))
                } else {
                    None
                }
            },
        }
    }
}

} // verus!
