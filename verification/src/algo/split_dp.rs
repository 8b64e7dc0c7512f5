//! Split routing by a knapsack over chunks of the input, as in Uniswap's
//! smart order router.
//!
//! 1. Candidate token paths (the bounded-hop enumeration) are walked with
//!    the best pool per hop at the full amount and ranked by output net of
//!    their gas; the top `K_CANDIDATES` become routes.
//! 2. `quotes[r][k]` is route `r`'s output for `k/N` of the input alone.
//! 3. `dp[i][j]` is the best sum, over the first `i` routes with `j` chunks
//!    spent, of quotes net of each used route's gas; the allocation is read
//!    back from the choices.
//! 4. The allocation is simulated sequentially for an honest report, and
//!    the best single route wins instead when it nets more.
//!
//! The objective is optimistic: each quote assumes its route is alone on
//! its pools. The final simulation corrects the reported number, not the
//! choice.
use crate::address::Address;
use crate::algo::amount_aware::{net_output, MAX_HOPS};
use crate::algo::bounded_bf::{emits, hop_path, views, within_hops, BoundedBfIter};
use crate::algo::gas::GasModel;
use crate::algo::path::{build_by_pair, walk_best, walk_fixed, walk_pool_path, walk_with_best_pools, PairIndex};
use crate::algo::split_common::{first_max, sat_sub};
use crate::algo::split_common::{
    allocation_ok, initial_view, inputs_view, paths_view, per_view, reserves_view, simulate_allocation,
    simulate_spec, LegSim,
};
use crate::algo::gas::{gas_cost_spec, gas_units_spec};
use crate::algo::{pool_addresses, pool_addrs, route_gas, token_addresses, token_addrs, Leg, Outcome, SolveResult, Tracer};
use crate::graph::{lemma_index_upto, token_index, Graph};
use crate::trace::{trace_within, Step};
use crate::uint::{modulus, U256};
use vstd::prelude::*;

verus! {

/// Ranked candidates' views: token path, pools and net.
pub open spec fn ranked_view(sc: Seq<(Vec<usize>, Vec<usize>, U256)>) -> Seq<(Seq<usize>, Seq<usize>, nat)> {
    sc.map_values(|e: (Vec<usize>, Vec<usize>, U256)| (e.0@, e.1@, e.2.val()))
}

/// The routes' token paths.
pub open spec fn route_tokens(routes: Seq<(Seq<usize>, Seq<usize>)>) -> Seq<Seq<usize>> {
    routes.map_values(|r: (Seq<usize>, Seq<usize>)| r.0)
}

/// The routes' pools.
pub open spec fn route_pools(routes: Seq<(Seq<usize>, Seq<usize>)>) -> Seq<Seq<usize>> {
    routes.map_values(|r: (Seq<usize>, Seq<usize>)| r.1)
}

/// Indices as integers.
pub open spec fn indices(v: Seq<usize>) -> Seq<int> {
    v.map_values(|i: usize| i as int)
}

/// Inputs of `alloc[i]` chunks of `amount_in` each.
pub open spec fn chunks(amount_in: nat, alloc: Seq<nat>) -> Seq<nat> {
    alloc.map_values(|k: nat| chunk(amount_in, k))
}

/// The first `i` values summed modulo 2^256.
pub open spec fn mod_sum(v: Seq<nat>, i: nat) -> nat
    decreases i,
{
    if i == 0 {
        0
    } else {
        (mod_sum(v, (i - 1) as nat) + v[i - 1]) % modulus()
    }
}

/// The legs' inputs for allocation `alloc`: `alloc[i]` chunks each, with
/// what the rounding down of the chunks leaves over added to the first
/// route with the most chunks, so that the inputs add up to `amount_in`
/// (modulo 2^256, as the 256-bit sums are taken).
pub open spec fn leg_inputs(amount_in: nat, alloc: Seq<nat>) -> Seq<nat> {
    let c = chunks(amount_in, alloc);
    if alloc.len() == 0 {
        c
    } else {
        let j = first_max(alloc, none_done(alloc.len()), alloc.len());
        let rest = ((amount_in + modulus() - mod_sum(c, c.len())) as nat) % modulus();
        c.update(j, (c[j] + rest) % modulus())
    }
}

/// There is one leg input per route.
pub proof fn lemma_leg_inputs_len(amount_in: nat, alloc: Seq<nat>)
    ensures
        leg_inputs(amount_in, alloc).len() == alloc.len(),
{
    let n = alloc.len();
    if n > 0 {
        lemma_first_max_range(alloc, none_done(n), n);
        lemma_first_max_found(alloc, none_done(n), n, 0);
    }
}

/// A sum modulo 2^256 is below 2^256.
pub proof fn lemma_mod_sum_bound(v: Seq<nat>, i: nat)
    ensures
        mod_sum(v, i) < modulus(),
    decreases i,
{
    let b = crate::uint::limb_base();
    assert(b * (b * (b * b)) > 0) by (nonlinear_arith)
        requires
            b > 0,
    ;
    if i > 0 {
        lemma_mod_sum_bound(v, (i - 1) as nat);
    }
}

/// Routes kept for the allocation.
pub const K_CANDIDATES: usize = 7;

/// Chunks the input is cut into.
pub const N_CHUNKS: usize = 10;

/// Most candidates ranked.
pub const RANK_HARD_CAP: usize = 200;

/// Net contribution of sending `k` chunks through a route with quotes `q`
/// and gas `gas_i`: nothing for no chunks, else the quote less the gas
/// (not below zero).
pub open spec fn contribution(q: Seq<nat>, gas_i: nat, k: nat) -> nat {
    if k == 0 {
        0
    } else {
        sat_sub(q[k as int], gas_i)
    }
}

/// Best value and chunk count for cell `j`, over spending `k' < k` chunks
/// on the route: the previous row's value at `j − k'` plus the
/// contribution, summed modulo 2^256; the first best on ties; `None` when
/// no previous cell is reachable.
pub open spec fn best_k(prev: Seq<Option<nat>>, q: Seq<nat>, gas_i: nat, j: nat, k: nat) -> (Option<nat>, nat)
    decreases k,
{
    if k == 0 {
        (None, 0)
    } else {
        let (b, bk) = best_k(prev, q, gas_i, j, (k - 1) as nat);
        let kk = (k - 1) as nat;
        match prev[j - kk] {
            Some(prior) => {
                let total = (prior + contribution(q, gas_i, kk)) % modulus();
                if b is None || total > b.unwrap() {
                    (Some(total), kk)
                } else {
                    (b, bk)
                }
            },
            None => (b, bk),
        }
    }
}

/// The table row after one more route.
pub open spec fn next_row(prev: Seq<Option<nat>>, q: Seq<nat>, gas_i: nat) -> Seq<Option<nat>> {
    Seq::new((N_CHUNKS + 1) as nat, |j: int| best_k(prev, q, gas_i, j as nat, (j + 1) as nat).0)
}

/// The chunk counts chosen in the row after one more route.
pub open spec fn next_choices(prev: Seq<Option<nat>>, q: Seq<nat>, gas_i: nat) -> Seq<nat> {
    Seq::new((N_CHUNKS + 1) as nat, |j: int| best_k(prev, q, gas_i, j as nat, (j + 1) as nat).1)
}

/// The table row after the first `i` routes: only zero chunks is reachable
/// before any route.
pub open spec fn dp_row(quotes: Seq<Seq<nat>>, gas: Seq<nat>, i: nat) -> Seq<Option<nat>>
    decreases i,
{
    if i == 0 {
        Seq::new((N_CHUNKS + 1) as nat, |j: int| if j == 0 {
            Some(0nat)
        } else {
            None
        })
    } else {
        next_row(dp_row(quotes, gas, (i - 1) as nat), quotes[i - 1], gas[i - 1])
    }
}

/// Chunks given to each route, read back from the choices of the last route
/// down to the first, starting from `j` chunks left at route `i`.
pub open spec fn backtrack(quotes: Seq<Seq<nat>>, gas: Seq<nat>, i: nat, j: nat) -> Seq<nat>
    decreases i,
{
    if i == 0 {
        Seq::empty()
    } else {
        let k = next_choices(dp_row(quotes, gas, (i - 1) as nat), quotes[i - 1], gas[i - 1])[j as int];
        backtrack(quotes, gas, (i - 1) as nat, sat_sub(j, k)).push(k)
    }
}

/// The allocation of `N_CHUNKS` chunks over the routes.
pub open spec fn dp_allocation(quotes: Seq<Seq<nat>>, gas: Seq<nat>) -> Seq<nat> {
    backtrack(quotes, gas, quotes.len(), N_CHUNKS as nat)
}

/// Optional amounts as numbers.
pub open spec fn opt_view(row: Seq<Option<U256>>) -> Seq<Option<nat>> {
    row.map_values(|o: Option<U256>| match o {
        Some(x) => Some(x.val()),
        None => None,
    })
}

/// Amounts as numbers.
pub open spec fn amounts_view(v: Seq<U256>) -> Seq<nat> {
    v.map_values(|x: U256| x.val())
}

/// Quote rows as numbers.
pub open spec fn quotes_view(q: Seq<Vec<U256>>) -> Seq<Seq<nat>> {
    q.map_values(|row: Vec<U256>| amounts_view(row@))
}

/// Counts as numbers.
pub open spec fn counts_view(v: Seq<usize>) -> Seq<nat> {
    v.map_values(|x: usize| x as nat)
}

proof fn lemma_best_k_range(prev: Seq<Option<nat>>, q: Seq<nat>, gas_i: nat, j: nat, k: nat)
    requires
        k > 0,
    ensures
        best_k(prev, q, gas_i, j, k).1 < k,
    decreases k,
{
    if k > 1 {
        lemma_best_k_range(prev, q, gas_i, j, (k - 1) as nat);
    } else {
        assert(best_k(prev, q, gas_i, j, 0) == (None::<nat>, 0nat));
    }
}

/// The knapsack over chunks: how many chunks each route gets, as
/// `dp_allocation` says.
pub fn dp_allocate(quotes: &Vec<Vec<U256>>, gas: &Vec<U256>) -> (r: Vec<usize>)
    requires
        quotes@.len() == gas@.len(),
        forall|i: int| 0 <= i < quotes@.len() ==> #[trigger] quotes@[i]@.len() == N_CHUNKS + 1,
    ensures
        counts_view(r@) == dp_allocation(quotes_view(quotes@), amounts_view(gas@)),
        r@.len() == quotes@.len(),
{
    let ghost qv = quotes_view(quotes@);
    let ghost gv = amounts_view(gas@);
    let routes = quotes.len();
    let mut prev: Vec<Option<U256>> = Vec::new();
    prev.push(Some(U256::zero()));
    let mut t: usize = 1;
    while t < N_CHUNKS + 1
        invariant
            1 <= t <= N_CHUNKS + 1,
            prev@.len() == t,
            prev@[0] matches Some(z) && z.val() == 0,
            forall|x: int| 1 <= x < t ==> #[trigger] prev@[x] is None,
        decreases N_CHUNKS + 1 - t,
    {
        prev.push(None);
        t = t + 1;
    }
    proof {
        assert(opt_view(prev@) =~= dp_row(qv, gv, 0));
    }
    let mut choices: Vec<Vec<usize>> = Vec::new();
    let mut i: usize = 0;
    while i < routes
        invariant
            routes == quotes@.len(),
            routes == gas@.len(),
            qv == quotes_view(quotes@),
            gv == amounts_view(gas@),
            forall|x: int| 0 <= x < quotes@.len() ==> #[trigger] quotes@[x]@.len() == N_CHUNKS + 1,
            i <= routes,
            prev@.len() == N_CHUNKS + 1,
            opt_view(prev@) == dp_row(qv, gv, i as nat),
            choices@.len() == i,
            forall|x: int|
                0 <= x < i ==> counts_view(#[trigger] choices@[x]@) == next_choices(dp_row(qv, gv, x as nat), qv[x], gv[x]),
        decreases routes - i,
    {
        let q = &quotes[i];
        let g = gas[i];
        proof {
            assert(amounts_view(q@) == qv[i as int]);
            assert(g.val() == gv[i as int]);
        }
        let mut this_row: Vec<Option<U256>> = Vec::new();
        let mut crow: Vec<usize> = Vec::new();
        let mut j: usize = 0;
        while j < N_CHUNKS + 1
            invariant
                prev@.len() == N_CHUNKS + 1,
                q@.len() == N_CHUNKS + 1,
                j <= N_CHUNKS + 1,
                this_row@.len() == j,
                crow@.len() == j,
                forall|x: int|
                    0 <= x < j ==> #[trigger] opt_view(this_row@)[x] == best_k(opt_view(prev@), amounts_view(q@), g.val(), x as nat, (x + 1) as nat).0,
                forall|x: int|
                    0 <= x < j ==> #[trigger] crow@[x] as nat == best_k(opt_view(prev@), amounts_view(q@), g.val(), x as nat, (x + 1) as nat).1,
            decreases N_CHUNKS + 1 - j,
        {
            let mut best: Option<U256> = None;
            let mut bk: usize = 0;
            let mut k: usize = 0;
            while k <= j
                invariant
                    prev@.len() == N_CHUNKS + 1,
                    q@.len() == N_CHUNKS + 1,
                    j < N_CHUNKS + 1,
                    k <= j + 1,
                    opt_view(seq![best])[0] == best_k(opt_view(prev@), amounts_view(q@), g.val(), j as nat, k as nat).0,
                    bk as nat == best_k(opt_view(prev@), amounts_view(q@), g.val(), j as nat, k as nat).1,
                decreases j + 1 - k,
            {
                match prev[j - k] {
                    Some(prior) => {
                        let gain = if k == 0 {
                            U256::zero()
                        } else {
                            q[k].saturating_sub(g)
                        };
                        let total = prior.wrapping_add(gain);
                        let better = match best {
                            None => true,
                            Some(b) => total.gt(&b),
                        };
                        proof {
                            assert(opt_view(prev@)[j - k] == Some(prior.val()));
                            if k > 0 {
                                assert(amounts_view(q@)[k as int] == q@[k as int].val());
                            }
                            assert(gain.val() == contribution(amounts_view(q@), g.val(), k as nat));
                        }
                        if better {
                            best = Some(total);
                            bk = k;
                        }
                    },
                    None => {
                        proof {
                            assert(opt_view(prev@)[j - k] is None);
                        }
                    },
                }
                k = k + 1;
            }
            let ghost row0 = this_row@;
            this_row.push(best);
            crow.push(bk);
            proof {
                assert(opt_view(this_row@) =~= opt_view(row0).push(opt_view(seq![best])[0]));
            }
            j = j + 1;
        }
        proof {
            assert(opt_view(this_row@) =~= next_row(opt_view(prev@), amounts_view(q@), g.val()));
            assert(counts_view(crow@) =~= next_choices(opt_view(prev@), amounts_view(q@), g.val()));
        }
        prev = this_row;
        choices.push(crow);
        i = i + 1;
    }
    let mut allocs: Vec<usize> = Vec::new();
    let mut x: usize = 0;
    while x < routes
        invariant
            x <= routes,
            allocs@.len() == x,
        decreases routes - x,
    {
        allocs.push(0);
        x = x + 1;
    }
    let mut left: usize = N_CHUNKS;
    let mut i = routes;
    while i > 0
        invariant
            routes == quotes@.len(),
            i <= routes,
            left <= N_CHUNKS,
            allocs@.len() == routes,
            choices@.len() == routes,
            forall|y: int| 0 <= y < routes ==> #[trigger] choices@[y]@.len() == N_CHUNKS + 1,
            forall|y: int|
                0 <= y < routes ==> counts_view(#[trigger] choices@[y]@) == next_choices(dp_row(qv, gv, y as nat), qv[y], gv[y]),
            backtrack(qv, gv, i as nat, left as nat) + counts_view(allocs@).subrange(i as int, routes as int)
                == dp_allocation(qv, gv),
        decreases i,
    {
        let k = choices[i - 1][left];
        proof {
            assert(counts_view(choices@[i - 1]@)[left as int] == k as nat);
            lemma_best_k_range(dp_row(qv, gv, (i - 1) as nat), qv[i - 1], gv[i - 1], left as nat, (left + 1) as nat);
        }
        let ghost allocs0 = allocs@;
        allocs.set(i - 1, k);
        proof {
            assert(counts_view(allocs@).subrange(i - 1, routes as int) =~= seq![k as nat] + counts_view(allocs0).subrange(i as int, routes as int));
            assert(backtrack(qv, gv, i as nat, left as nat) == backtrack(qv, gv, (i - 1) as nat, (left - k) as nat).push(k as nat));
            assert(backtrack(qv, gv, (i - 1) as nat, (left - k) as nat) + counts_view(allocs@).subrange(i - 1, routes as int)
                =~= backtrack(qv, gv, i as nat, left as nat) + counts_view(allocs0).subrange(i as int, routes as int));
        }
        left = left - k;
        i = i - 1;
    }
    proof {
        assert(counts_view(allocs@).subrange(0, routes as int) =~= counts_view(allocs@));
        assert(backtrack(qv, gv, 0, left as nat) =~= Seq::<nat>::empty());
    }
    allocs
}

/// The candidates ranked so far after looking at the first `i`: each one
/// whose best-pool walk at the full amount succeeds, with its pools and its
/// output net of its gas in token `d`; ranking stops once
/// `RANK_HARD_CAP` are ranked.
pub open spec fn scored(
    g: &Graph,
    cands: Seq<Seq<usize>>,
    amount_in: U256,
    gas: GasModel,
    d: int,
    i: nat,
) -> Seq<(Seq<usize>, Seq<usize>, nat)>
    decreases i,
{
    if i == 0 {
        Seq::empty()
    } else {
        let s = scored(g, cands, amount_in, gas, d, (i - 1) as nat);
        if s.len() >= RANK_HARD_CAP {
            s
        } else {
            match walk_best(g, cands[i - 1], amount_in.val(), (cands[i - 1].len() - 1) as nat) {
                None => s,
                Some((ps, out)) => s.push((cands[i - 1], ps, sat_sub(out, route_gas(g, gas, ps.len(), d)))),
            }
        }
    }
}

/// Up to `k` indices, taken largest value first (the first on ties) among
/// those not done.
pub open spec fn top_picks(vals: Seq<nat>, done: Seq<bool>, k: nat) -> Seq<int>
    decreases k,
{
    if k == 0 {
        Seq::empty()
    } else {
        let li = first_max(vals, done, done.len());
        if li < 0 {
            Seq::empty()
        } else {
            seq![li] + top_picks(vals, done.update(li, true), (k - 1) as nat)
        }
    }
}

/// `k` chunks of `amount_in`: `amount_in · k / N_CHUNKS`, the product taken
/// modulo 2^256.
pub open spec fn chunk(amount_in: nat, k: nat) -> nat {
    ((amount_in * k) % modulus()) / (N_CHUNKS as nat)
}

/// Output of route `(tp, ps)` for `k` chunks alone: zero for no chunks or a
/// failing walk.
pub open spec fn quote(g: &Graph, tp: Seq<usize>, ps: Seq<usize>, amount_in: nat, k: nat) -> nat {
    if k == 0 {
        0
    } else {
        match walk_fixed(g, tp, ps, chunk(amount_in, k), ps.len()) {
            Some(o) => o,
            None => 0,
        }
    }
}

/// Every pool a successful best-pool walk picks is a pool of the graph with
/// a fee of at most 100%.
proof fn lemma_walk_best_pools(g: &Graph, tp: Seq<usize>, a: nat, k: nat)
    requires
        g.wf(),
        k < tp.len(),
        forall|i: int| 0 <= i < tp.len() ==> #[trigger] tp[i] < g.tokens@.len(),
        walk_best(g, tp, a, k) is Some,
    ensures
        walk_best(g, tp, a, k).unwrap().0.len() == k,
        forall|i: int|
            0 <= i < k ==> #[trigger] walk_best(g, tp, a, k).unwrap().0[i] < g.pools@.len()
                && g.pools@[walk_best(g, tp, a, k).unwrap().0[i] as int].fee_bps <= crate::pool::FEE_DENOM,
    decreases k,
{
    crate::algo::path::lemma_walk_best_len(g, tp, a, k);
    if k > 0 {
        crate::algo::replay::lemma_walk_best_step(g, tp, a, k);
        lemma_walk_best_pools(g, tp, a, (k - 1) as nat);
        let ps = walk_best(g, tp, a, k).unwrap().0;
        let ps0 = walk_best(g, tp, a, (k - 1) as nat).unwrap().0;
        assert forall|i: int| 0 <= i < k implies #[trigger] ps[i] < g.pools@.len() && g.pools@[ps[i] as int].fee_bps
            <= crate::pool::FEE_DENOM by {
            if i < k - 1 {
                assert(ps[i] == ps0[i]);
            }
        }
    }
}

/// Ranks the first candidates as `scored` does.
fn rank_candidates(
    graph: &Graph,
    by_pair: &PairIndex,
    cands: &Vec<Vec<usize>>,
    amount_in: U256,
    gas: &GasModel,
    s: usize,
    d: usize,
) -> (r: Vec<(Vec<usize>, Vec<usize>, U256)>)
    requires
        graph.wf(),
        by_pair.indexes(graph),
        s != d,
        d < graph.tokens@.len(),
        forall|i: int|
            0 <= i < cands@.len() ==> #[trigger] within_hops(graph, cands@[i]@, s as int, d as int, MAX_HOPS as nat),
    ensures
        ranked_view(r@) == scored(
            graph,
            views(cands@),
            amount_in,
            *gas,
            d as int,
            cands@.len(),
        ),
        forall|i: int|
            0 <= i < r@.len() ==> hop_ok(graph, #[trigger] r@[i].0@, r@[i].1@, s as int, d as int),
{
    let ghost cv = views(cands@);
    let mut out: Vec<(Vec<usize>, Vec<usize>, U256)> = Vec::new();
    let mut i: usize = 0;
    while i < cands.len()
        invariant
            graph.wf(),
            by_pair.indexes(graph),
            s != d,
            d < graph.tokens@.len(),
            cv == views(cands@),
            forall|x: int|
                0 <= x < cands@.len() ==> #[trigger] within_hops(graph, cands@[x]@, s as int, d as int, MAX_HOPS as nat),
            i <= cands@.len(),
            ranked_view(out@) == scored(graph, cv, amount_in, *gas, d as int, i as nat),
            forall|x: int| 0 <= x < out@.len() ==> hop_ok(graph, #[trigger] out@[x].0@, out@[x].1@, s as int, d as int),
        decreases cands@.len() - i,
    {
        let ghost before = out@;
        if out.len() < RANK_HARD_CAP {
            let tp = &cands[i];
            proof {
                assert(cv[i as int] == tp@);
                assert(within_hops(graph, cands@[i as int]@, s as int, d as int, MAX_HOPS as nat));
                let h = choose|h: nat| 1 <= h <= MAX_HOPS && #[trigger] hop_path(graph, tp@, s as int, d as int, h);
                assert(hop_path(graph, tp@, s as int, d as int, h));
            }
            match walk_with_best_pools(graph, by_pair, tp, amount_in) {
                None => {},
                Some((pools, amount_out, _)) => {
                    proof {
                        lemma_walk_best_pools(graph, tp@, amount_in.val(), (tp@.len() - 1) as nat);
                    }
                    let units = gas.gas_units(1, pools.len());
                    let dst_token = &graph.tokens[d];
                    let leg_gas = gas.gas_to_dst_token(units, dst_token.true_price_pico_usd, dst_token.decimals);
                    let net = amount_out.saturating_sub(leg_gas);
                    out.push((tp.clone(), pools, net));
                    proof {
                        assert(ranked_view(out@) =~= ranked_view(before).push(
                            (tp@, pools@, net.val()),
                        ));
                    }
                },
            }
        }
        i = i + 1;
    }
    out
}

/// A route of the allocation: a simple walk from `s` to `d` of one to
/// `MAX_HOPS` hops, walked through pools of the graph with fees of at most
/// 100%.
pub open spec fn hop_ok(g: &Graph, tp: Seq<usize>, ps: Seq<usize>, s: int, d: int) -> bool {
    &&& within_hops(g, tp, s, d, MAX_HOPS as nat)
    &&& ps.len() == tp.len() - 1
    &&& forall|i: int|
        0 <= i < ps.len() ==> #[trigger] ps[i] < g.pools@.len() && g.pools@[ps[i] as int].fee_bps
            <= crate::pool::FEE_DENOM
}

/// The ranked candidates' nets.
pub open spec fn nets(sc: Seq<(Seq<usize>, Seq<usize>, nat)>) -> Seq<nat> {
    sc.map_values(|e: (Seq<usize>, Seq<usize>, nat)| e.2)
}

/// Nothing done yet.
pub open spec fn none_done(n: nat) -> Seq<bool> {
    Seq::new(n, |i: int| false)
}

/// The routes of the allocation: the top `K_CANDIDATES` ranked candidates,
/// best net first.
pub open spec fn routes_of(sc: Seq<(Seq<usize>, Seq<usize>, nat)>) -> Seq<(Seq<usize>, Seq<usize>)> {
    top_picks(nets(sc), none_done(sc.len()), K_CANDIDATES as nat).map_values(|i: int| (sc[i].0, sc[i].1))
}

/// Each route's quotes for zero to `N_CHUNKS` chunks.
pub open spec fn quote_rows(g: &Graph, routes: Seq<(Seq<usize>, Seq<usize>)>, amount_in: nat) -> Seq<Seq<nat>> {
    routes.map_values(|r: (Seq<usize>, Seq<usize>)| Seq::new((N_CHUNKS + 1) as nat, |k: int| quote(g, r.0, r.1, amount_in, k as nat)))
}

/// Each route's gas in token `d`.
pub open spec fn gas_row(g: &Graph, routes: Seq<(Seq<usize>, Seq<usize>)>, gas: GasModel, d: int) -> Seq<nat> {
    routes.map_values(|r: (Seq<usize>, Seq<usize>)| route_gas(g, gas, r.1.len(), d))
}

/// Indices in `order` summed over `vals`, modulo 2^256.
pub open spec fn sum_at(vals: Seq<nat>, order: Seq<int>) -> nat
    decreases order.len(),
{
    if order.len() == 0 {
        0
    } else {
        (sum_at(vals, order.drop_last()) + vals[order.last()]) % modulus()
    }
}

/// Hops summed over the routes at `order`.
pub open spec fn hops_at(routes: Seq<(Seq<usize>, Seq<usize>)>, order: Seq<int>) -> nat
    decreases order.len(),
{
    if order.len() == 0 {
        0
    } else {
        hops_at(routes, order.drop_last()) + routes[order.last()].1.len()
    }
}

/// Picks `k` indices as `top_picks` does.
pub(crate) fn pick_order(vals: &Vec<U256>, done: Vec<bool>, k: usize) -> (r: Vec<usize>)
    requires
        vals@.len() == done@.len(),
    ensures
        indices(r@) == top_picks(crate::algo::split_common::inputs_view(vals@), done@, k as nat),
        forall|i: int| 0 <= i < r@.len() ==> #[trigger] r@[i] < vals@.len(),
{
    let ghost vv = crate::algo::split_common::inputs_view(vals@);
    let ghost done0 = done@;
    let mut done = done;
    let mut out: Vec<usize> = Vec::new();
    let mut t: usize = 0;
    let mut exhausted = false;
    while t < k && !exhausted
        invariant
            vals@.len() == done@.len(),
            vv == crate::algo::split_common::inputs_view(vals@),
            t <= k,
            indices(out@) + top_picks(vv, done@, (k - t) as nat) == top_picks(vv, done0, k as nat),
            exhausted ==> top_picks(vv, done@, (k - t) as nat) == Seq::<int>::empty(),
            forall|i: int| 0 <= i < out@.len() ==> #[trigger] out@[i] < vals@.len(),
        decreases k - t + (if exhausted {
            0int
        } else {
            1int
        }),
    {
        match crate::algo::split_common::next_leg(vals, &done) {
            None => {
                exhausted = true;
            },
            Some(li) => {
                let ghost done1 = done@;
                let ghost out1 = out@;
                done.set(li, true);
                out.push(li);
                proof {
                    assert(top_picks(vv, done1, (k - t) as nat) == seq![li as int] + top_picks(vv, done@, (k - t - 1) as nat));
                    assert(indices(out@) =~= indices(out1).push(li as int));
                    assert(indices(out@) + top_picks(vv, done@, (k - t - 1) as nat)
                        =~= indices(out1) + top_picks(vv, done1, (k - t) as nat));
                }
                t = t + 1;
            },
        }
    }
    proof {
        if !exhausted {
            assert(top_picks(vv, done@, 0) == Seq::<int>::empty());
        }
        assert(indices(out@) + Seq::<int>::empty() =~= indices(out@));
    }
    out
}

/// The top routes of the ranking with their quote rows and gas.
fn plan_routes(
    graph: &Graph,
    sc: &Vec<(Vec<usize>, Vec<usize>, U256)>,
    amount_in: U256,
    gas: &GasModel,
    s: usize,
    d: usize,
) -> (r: (Vec<Vec<usize>>, Vec<Vec<usize>>, Vec<Vec<U256>>, Vec<U256>))
    requires
        graph.wf(),
        d < graph.tokens@.len(),
        forall|i: int| 0 <= i < sc@.len() ==> hop_ok(graph, #[trigger] sc@[i].0@, sc@[i].1@, s as int, d as int),
    ensures
        ({
            let (tps, pps, quotes, gv) = r;
            let sv = ranked_view(sc@);
            let routes = routes_of(sv);
            &&& tps@.len() == routes.len()
            &&& pps@.len() == routes.len()
            &&& forall|i: int| 0 <= i < routes.len() ==> #[trigger] tps@[i]@ == routes[i].0
            &&& forall|i: int| 0 <= i < routes.len() ==> #[trigger] pps@[i]@ == routes[i].1
            &&& paths_view(tps@) == route_tokens(routes)
            &&& paths_view(pps@) == route_pools(routes)
            &&& forall|i: int| 0 <= i < routes.len() ==> hop_ok(graph, #[trigger] tps@[i]@, pps@[i]@, s as int, d as int)
            &&& quotes_view(quotes@) == quote_rows(graph, routes, amount_in.val())
            &&& forall|i: int| 0 <= i < quotes@.len() ==> #[trigger] quotes@[i]@.len() == N_CHUNKS + 1
            &&& amounts_view(gv@) == gas_row(graph, routes, *gas, d as int)
        }),
{
    let ghost sv = ranked_view(sc@);
    let mut net_list: Vec<U256> = Vec::new();
    let mut done: Vec<bool> = Vec::new();
    let mut i: usize = 0;
    while i < sc.len()
        invariant
            i <= sc@.len(),
            net_list@.len() == i,
            done@.len() == i,
            forall|x: int| 0 <= x < i ==> #[trigger] net_list@[x] == sc@[x].2,
            forall|x: int| 0 <= x < i ==> !#[trigger] done@[x],
        decreases sc@.len() - i,
    {
        net_list.push(sc[i].2);
        done.push(false);
        i = i + 1;
    }
    proof {
        assert(crate::algo::split_common::inputs_view(net_list@) =~= nets(sv));
        assert(done@ =~= none_done(sv.len()));
    }
    let picks = pick_order(&net_list, done, K_CANDIDATES);
    let ghost pk = indices(picks@);
    let mut tps: Vec<Vec<usize>> = Vec::new();
    let mut pps: Vec<Vec<usize>> = Vec::new();
    let mut quotes: Vec<Vec<U256>> = Vec::new();
    let mut gv: Vec<U256> = Vec::new();
    let mut t: usize = 0;
    while t < picks.len()
        invariant
            graph.wf(),
            d < graph.tokens@.len(),
            sv == ranked_view(sc@),
            pk == indices(picks@),
            pk == top_picks(nets(sv), none_done(sv.len()), K_CANDIDATES as nat),
            forall|i: int| 0 <= i < picks@.len() ==> #[trigger] picks@[i] < sc@.len(),
            forall|i: int| 0 <= i < sc@.len() ==> hop_ok(graph, #[trigger] sc@[i].0@, sc@[i].1@, s as int, d as int),
            t <= picks@.len(),
            tps@.len() == t,
            pps@.len() == t,
            quotes@.len() == t,
            gv@.len() == t,
            forall|x: int| 0 <= x < t ==> #[trigger] tps@[x]@ == routes_of(sv)[x].0,
            forall|x: int| 0 <= x < t ==> #[trigger] pps@[x]@ == routes_of(sv)[x].1,
            forall|x: int| 0 <= x < t ==> hop_ok(graph, #[trigger] tps@[x]@, pps@[x]@, s as int, d as int),
            forall|x: int| 0 <= x < t ==> #[trigger] quotes@[x]@.len() == N_CHUNKS + 1,
            forall|x: int| 0 <= x < t ==> #[trigger] amounts_view(quotes@[x]@) == quote_rows(graph, routes_of(sv), amount_in.val())[x],
            forall|x: int| 0 <= x < t ==> #[trigger] gv@[x].val() == gas_row(graph, routes_of(sv), *gas, d as int)[x],
        decreases picks@.len() - t,
    {
        let pick = picks[t];
        let tp = sc[pick].0.clone();
        let ps = sc[pick].1.clone();
        proof {
            assert(pk[t as int] == pick as int);
            assert(routes_of(sv)[t as int] == (sv[pick as int].0, sv[pick as int].1));
            assert(hop_ok(graph, sc@[pick as int].0@, sc@[pick as int].1@, s as int, d as int));
            let h = choose|h: nat| 1 <= h <= MAX_HOPS && #[trigger] hop_path(graph, tp@, s as int, d as int, h);
            assert(hop_path(graph, tp@, s as int, d as int, h));
        }
        let mut row: Vec<U256> = Vec::new();
        row.push(U256::zero());
        let mut k: usize = 1;
        while k < N_CHUNKS + 1
            invariant
                1 <= k <= N_CHUNKS + 1,
                row@.len() == k,
                crate::algo::path::route_in_graph(graph, tp@, ps@),
                tp@.len() >= 2,
                ps@.len() == tp@.len() - 1,
                forall|y: int| 0 <= y < k ==> #[trigger] row@[y].val() == quote(graph, tp@, ps@, amount_in.val(), y as nat),
            decreases N_CHUNKS + 1 - k,
        {
            let input = amount_in.wrapping_mul(U256::from_u64(k as u64)).div(U256::from_u64(N_CHUNKS as u64));
            let q = match walk_pool_path(graph, &tp, &ps, input) {
                Some((o, _)) => o,
                None => U256::zero(),
            };
            row.push(q);
            k = k + 1;
        }
        let units = gas.gas_units(1, ps.len());
        let dst_token = &graph.tokens[d];
        let g_i = gas.gas_to_dst_token(units, dst_token.true_price_pico_usd, dst_token.decimals);
        proof {
            assert(amounts_view(row@) =~= quote_rows(graph, routes_of(sv), amount_in.val())[t as int]);
        }
        tps.push(tp);
        pps.push(ps);
        quotes.push(row);
        gv.push(g_i);
        t = t + 1;
    }
    proof {
        assert(paths_view(tps@) =~= route_tokens(routes_of(sv)));
        assert(paths_view(pps@) =~= route_pools(routes_of(sv)));
        assert(quotes_view(quotes@) =~= quote_rows(graph, routes_of(sv), amount_in.val()));
        assert(amounts_view(gv@) =~= gas_row(graph, routes_of(sv), *gas, d as int));
    }
    (tps, pps, quotes, gv)
}

/// `leg` reports the leg through `tp` and `pp` with input `ain` and output
/// `aout`.
pub open spec fn leg_matches(g: &Graph, leg: Leg, tp: Seq<usize>, pp: Seq<usize>, ain: nat, aout: nat) -> bool {
    &&& leg.path@ == token_addrs(g, tp)
    &&& leg.pools_used@ == pool_addrs(g, pp)
    &&& leg.amount_in.val() == ain
    &&& leg.amount_out.val() == aout
}

/// Whether the leg at index `i` delivered nothing.
pub open spec fn idle(per: Seq<Option<nat>>) -> Seq<bool> {
    per.map_values(|o: Option<nat>| o is None)
}

/// The legs, largest input first, of the report for the ranked candidates
/// `sc` (which must not be empty): the allocation's simulated legs, or the
/// best route alone when it nets more. The legs take the whole input unless
/// a route that received some of it failed to deliver.
pub open spec fn dp_reports(
    g: &Graph,
    sc: Seq<(Seq<usize>, Seq<usize>, nat)>,
    amount_in: U256,
    gas: GasModel,
    d: int,
    o: Outcome,
) -> bool {
    let routes = routes_of(sc);
    let tps = route_tokens(routes);
    let pps = route_pools(routes);
    let alloc = dp_allocation(quote_rows(g, routes, amount_in.val()), gas_row(g, routes, gas, d));
    let inputs = leg_inputs(amount_in.val(), alloc);
    let (st, total, per) = simulate_spec(g, tps, pps, inputs, reserves_view(initial_view(g)));
    let order = top_picks(inputs, idle(per), routes.len());
    let cost = gas_cost_spec(
        gas.gas_price_wei as nat,
        gas_units_spec(gas.enabled_spec(), order.len(), hops_at(routes, order)),
        g.tokens@[d].true_price_pico_usd as nat,
        g.tokens@[d].decimals as nat,
    );
    let single = walk_fixed(g, routes[0].0, routes[0].1, amount_in.val(), routes[0].1.len());
    let single_gas = route_gas(g, gas, routes[0].1.len(), d);
    if order.len() == 0 {
        o is NoPath
    } else if single matches Some(so) && sat_sub(so, single_gas) > sat_sub(total, cost) {
        match o {
            Outcome::FoundSplit { legs, amount_in: given, amount_out, gas_cost } => {
                &&& legs@.len() == 1
                &&& leg_matches(g, legs@[0], routes[0].0, routes[0].1, amount_in.val(), single.unwrap())
                &&& given == amount_in
                &&& amount_out.val() == single.unwrap()
                &&& gas_cost.val() == single_gas
            },
            _ => false,
        }
    } else {
        match o {
            Outcome::FoundSplit { legs, amount_in: given, amount_out, gas_cost } => {
                &&& legs@.len() == order.len()
                &&& forall|t: int|
                    0 <= t < order.len() ==> leg_matches(
                        g,
                        #[trigger] legs@[t],
                        tps[order[t]],
                        pps[order[t]],
                        inputs[order[t]],
                        per[order[t]].unwrap(),
                    )
                &&& given.val() == sum_at(inputs, order)
                &&& (forall|i: int| 0 <= i < inputs.len() && #[trigger] inputs[i] > 0 ==> per[i] is Some)
                    ==> given == amount_in
                &&& amount_out.val() == total
                &&& gas_cost.val() == cost
            },
            _ => false,
        }
    }
}

/// What split routing promises: unknown tokens give `NoPath` with an empty
/// trace; equal tokens give one trivial leg handing the input back; otherwise,
/// for the enumerated candidates, `NoPath` with an empty trace when none walks
/// or no leg of the allocation delivers, else what `dp_reports` says, with
/// the trace opening at the source when tracing. Every event names real
/// tokens.
pub open spec fn dp_contract(
    g: &Graph,
    src: Address,
    dst: Address,
    amount_in: U256,
    with_trace: bool,
    gas: GasModel,
    r: SolveResult,
) -> bool {
    let si = token_index(g.tokens@, src);
    let di = token_index(g.tokens@, dst);
    let seed = if with_trace {
        seq![Step::Visit(si as usize)]
    } else {
        Seq::<Step>::empty()
    };
    &&& trace_within(r.trace@, g.tokens@.len())
    &&& (si < 0 || di < 0) ==> r.outcome is NoPath && r.trace@.len() == 0
    &&& (si >= 0 && si == di) ==> r.trace@ == seed && match r.outcome {
        Outcome::FoundSplit { legs, amount_in: given, amount_out, gas_cost } => {
            &&& legs@.len() == 1
            &&& legs@[0].path@ == seq![src]
            &&& legs@[0].pools_used@.len() == 0
            &&& legs@[0].amount_in == amount_in
            &&& legs@[0].amount_out == amount_in
            &&& given == amount_in
            &&& amount_out == amount_in
            &&& gas_cost.val() == 0
        },
        _ => false,
    }
    &&& (si >= 0 && di >= 0 && si != di) ==> exists|cands: Seq<Seq<usize>>|
        #[trigger] emits(g, cands, si, di, MAX_HOPS as nat) && dp_answers(g, cands, amount_in, gas, di, seed, r)
}

/// The answer for the enumerated candidates `cands`: `NoPath` with an
/// empty trace when none is ranked, else what `dp_reports` says, with the
/// trace `seed` unless nothing was found.
pub open spec fn dp_answers(
    g: &Graph,
    cands: Seq<Seq<usize>>,
    amount_in: U256,
    gas: GasModel,
    d: int,
    seed: Seq<Step>,
    r: SolveResult,
) -> bool {
    let sc = scored(g, cands, amount_in, gas, d, cands.len());
    if sc.len() == 0 {
        r.outcome is NoPath && r.trace@.len() == 0
    } else {
        &&& dp_reports(g, sc, amount_in, gas, d, r.outcome)
        &&& (r.outcome is NoPath ==> r.trace@.len() == 0)
        &&& (!(r.outcome is NoPath) ==> r.trace@ == seed)
    }
}

pub(crate) proof fn lemma_first_max_found(vals: Seq<nat>, done: Seq<bool>, i: nat, x: int)
    requires
        0 <= x < i <= done.len(),
        !done[x],
    ensures
        first_max(vals, done, i) >= 0,
    decreases i,
{
    if x < i - 1 {
        lemma_first_max_found(vals, done, (i - 1) as nat, x);
    }
}

pub(crate) proof fn lemma_first_max_range(vals: Seq<nat>, done: Seq<bool>, i: nat)
    requires
        i <= done.len(),
    ensures
        -1 <= first_max(vals, done, i) < i,
        first_max(vals, done, i) >= 0 ==> !done[first_max(vals, done, i)],
    decreases i,
{
    if i > 0 {
        lemma_first_max_range(vals, done, (i - 1) as nat);
    }
}

pub(crate) proof fn lemma_top_picks(vals: Seq<nat>, done: Seq<bool>, k: nat)
    requires
        vals.len() == done.len(),
    ensures
        top_picks(vals, done, k).len() <= k,
        forall|t: int|
            0 <= t < top_picks(vals, done, k).len() ==> 0 <= #[trigger] top_picks(vals, done, k)[t] < vals.len()
                && !done[top_picks(vals, done, k)[t]],
    decreases k,
{
    if k > 0 {
        lemma_first_max_range(vals, done, done.len());
        let li = first_max(vals, done, done.len());
        if li >= 0 {
            lemma_top_picks(vals, done.update(li, true), (k - 1) as nat);
            let rest = top_picks(vals, done.update(li, true), (k - 1) as nat);
            assert forall|t: int| 0 <= t < top_picks(vals, done, k).len() implies 0 <= #[trigger] top_picks(vals, done, k)[t] < vals.len()
                && !done[top_picks(vals, done, k)[t]] by {
                if t > 0 {
                    assert(top_picks(vals, done, k)[t] == rest[t - 1]);
                }
            }
        }
    }
}

/// The index `first_max` picks among the first `i` holds the largest value
/// of those not done, and one is picked whenever any is not done.
proof fn lemma_first_max_max(vals: Seq<nat>, done: Seq<bool>, i: nat)
    requires
        i <= done.len(),
    ensures
        forall|x: int|
            0 <= x < i && !done[x] ==> first_max(vals, done, i) >= 0 && vals[x] <= vals[first_max(vals, done, i)],
    decreases i,
{
    if i > 0 {
        lemma_first_max_max(vals, done, (i - 1) as nat);
        lemma_first_max_range(vals, done, (i - 1) as nat);
    }
}

/// The picks are distinct, every value left out (and not done) is at most
/// every picked value, and fewer than `k` picks means nothing was left out.
proof fn lemma_top_picks_best(vals: Seq<nat>, done: Seq<bool>, k: nat)
    requires
        vals.len() == done.len(),
    ensures
        forall|a: int, b: int|
            0 <= a < b < top_picks(vals, done, k).len() ==> top_picks(vals, done, k)[a] != top_picks(vals, done, k)[b],
        forall|t: int, x: int|
            #![trigger top_picks(vals, done, k)[t], vals[x]]
            0 <= t < top_picks(vals, done, k).len() && 0 <= x < vals.len() && !done[x] && !top_picks(vals, done, k).contains(x)
                ==> vals[x] <= vals[top_picks(vals, done, k)[t]],
        top_picks(vals, done, k).len() < k ==> forall|x: int|
            0 <= x < vals.len() && !done[x] ==> top_picks(vals, done, k).contains(x),
        forall|a: int, b: int|
            0 <= a < b < top_picks(vals, done, k).len() ==> vals[top_picks(vals, done, k)[b]] <= vals[top_picks(
                vals,
                done,
                k,
            )[a]],
    decreases k,
{
    if k > 0 {
        lemma_first_max_range(vals, done, done.len());
        lemma_first_max_max(vals, done, done.len());
        let li = first_max(vals, done, done.len());
        let picks = top_picks(vals, done, k);
        if li >= 0 {
            let d2 = done.update(li, true);
            lemma_top_picks(vals, d2, (k - 1) as nat);
            lemma_top_picks_best(vals, d2, (k - 1) as nat);
            let rest = top_picks(vals, d2, (k - 1) as nat);
            assert(picks == seq![li] + rest);
            assert forall|a: int, b: int| 0 <= a < b < picks.len() implies picks[a] != picks[b] by {
                if a == 0 {
                    assert(picks[b] == rest[b - 1]);
                    assert(!d2[rest[b - 1]]);
                } else {
                    assert(picks[a] == rest[a - 1] && picks[b] == rest[b - 1]);
                }
            }
            assert forall|t: int, x: int|
                #![trigger picks[t], vals[x]]
                0 <= t < picks.len() && 0 <= x < vals.len() && !done[x] && !picks.contains(x) implies vals[x]
                <= vals[picks[t]] by {
                assert(x != li) by {
                    assert(picks[0] == li);
                }
                assert(!d2[x]);
                if t > 0 {
                    assert(picks[t] == rest[t - 1]);
                    if rest.contains(x) {
                        let w = choose|w: int| 0 <= w < rest.len() && rest[w] == x;
                        assert(picks[w + 1] == x);
                    }
                }
            }
            assert forall|a: int, b: int| 0 <= a < b < picks.len() implies vals[picks[b]] <= vals[picks[a]] by {
                assert(picks[b] == rest[b - 1]);
                assert(!d2[rest[b - 1]]);
                if a > 0 {
                    assert(picks[a] == rest[a - 1]);
                }
            }
            if picks.len() < k {
                assert forall|x: int| 0 <= x < vals.len() && !done[x] implies picks.contains(x) by {
                    if x == li {
                        assert(picks[0] == x);
                    } else {
                        assert(!d2[x]);
                        let w = choose|w: int| 0 <= w < rest.len() && rest[w] == x;
                        assert(picks[w + 1] == x);
                    }
                }
            }
        } else {
            assert forall|x: int| 0 <= x < vals.len() && !done[x] implies picks.contains(x) by {
                lemma_first_max_found(vals, done, done.len(), x);
            }
        }
    }
}

/// `routes` is the candidates at `pk`, in that order: distinct candidates,
/// best net first, all of them when fewer than `K_CANDIDATES`, and every
/// candidate left out nets no more than every one taken.
pub open spec fn best_shortlist(
    sc: Seq<(Seq<usize>, Seq<usize>, nat)>,
    routes: Seq<(Seq<usize>, Seq<usize>)>,
    pk: Seq<int>,
) -> bool {
    &&& pk.len() == routes.len()
    &&& pk.len() <= K_CANDIDATES
    &&& pk.len() < K_CANDIDATES ==> forall|x: int| 0 <= x < sc.len() ==> pk.contains(x)
    &&& forall|t: int| 0 <= t < pk.len() ==> 0 <= #[trigger] pk[t] < sc.len() && routes[t] == (sc[pk[t]].0, sc[pk[t]].1)
    &&& forall|a: int, b: int| 0 <= a < b < pk.len() ==> pk[a] != pk[b]
    &&& forall|t: int, x: int|
        #![trigger pk[t], sc[x]]
        0 <= t < pk.len() && 0 <= x < sc.len() && !pk.contains(x) ==> sc[x].2 <= sc[pk[t]].2
    &&& forall|a: int, b: int| 0 <= a < b < pk.len() ==> sc[pk[b]].2 <= sc[pk[a]].2
}

/// The shortlist the allocation runs over holds the best-netting ranked
/// candidates: it takes distinct candidates, best net first, all of them
/// when there are no more than `K_CANDIDATES`, and every candidate left out
/// nets no more (at the full amount, less its gas) than every one taken.
pub proof fn law_shortlist_nets_best(sc: Seq<(Seq<usize>, Seq<usize>, nat)>)
    ensures
        exists|pk: Seq<int>| #[trigger] best_shortlist(sc, routes_of(sc), pk),
{
    let vals = nets(sc);
    let done = none_done(sc.len());
    let pk = top_picks(vals, done, K_CANDIDATES as nat);
    lemma_top_picks(vals, done, K_CANDIDATES as nat);
    lemma_top_picks_best(vals, done, K_CANDIDATES as nat);
    assert forall|t: int| 0 <= t < pk.len() implies 0 <= #[trigger] pk[t] < sc.len() && routes_of(sc)[t] == (
        sc[pk[t]].0,
        sc[pk[t]].1,
    ) by {}
    assert forall|t: int, x: int|
        #![trigger pk[t], sc[x]]
        0 <= t < pk.len() && 0 <= x < sc.len() && !pk.contains(x) implies sc[x].2 <= sc[pk[t]].2 by {
        assert(!done[x]);
        assert(vals[x] <= vals[pk[t]]);
    }
    assert(pk.len() == routes_of(sc).len());
    if pk.len() < K_CANDIDATES {
        assert forall|x: int| 0 <= x < sc.len() implies pk.contains(x) by {
            assert(!done[x]);
        }
    }
    assert forall|a: int, b: int| 0 <= a < b < pk.len() implies sc[pk[b]].2 <= sc[pk[a]].2 by {
        assert(vals[pk[b]] <= vals[pk[a]]);
    }
    assert(best_shortlist(sc, routes_of(sc), pk));
}

proof fn lemma_hops_at(routes: Seq<(Seq<usize>, Seq<usize>)>, order: Seq<int>)
    requires
        forall|t: int| 0 <= t < order.len() ==> 0 <= #[trigger] order[t] < routes.len(),
        forall|i: int| 0 <= i < routes.len() ==> #[trigger] routes[i].1.len() <= MAX_HOPS,
    ensures
        hops_at(routes, order) <= MAX_HOPS * order.len(),
    decreases order.len(),
{
    if order.len() > 0 {
        lemma_hops_at(routes, order.drop_last());
        assert(0 <= order.last() < routes.len());
    }
}

/// The legs the simulation delivered, largest input first, with the total
/// input and hop count.
pub(crate) fn collect_legs(
    graph: &Graph,
    tps: &Vec<Vec<usize>>,
    per_leg: &Vec<Option<LegSim>>,
    inputs: &Vec<U256>,
    order: &Vec<usize>,
    Ghost(cap): Ghost<nat>,
) -> (r: (Vec<Leg>, U256, usize))
    requires
        per_leg@.len() == tps@.len(),
        inputs@.len() == tps@.len(),
        order@.len() * cap <= usize::MAX,
        forall|t: int| 0 <= t < order@.len() ==> #[trigger] order@[t] < tps@.len() && per_leg@[order@[t] as int] is Some,
        forall|i: int, x: int| 0 <= i < tps@.len() && 0 <= x < tps@[i]@.len() ==> #[trigger] tps@[i]@[x] < graph.tokens@.len(),
        forall|i: int|
            0 <= i < per_leg@.len() ==> (#[trigger] per_leg@[i] matches Some(l) ==> l.amount_in == inputs@[i]
                && l.pool_idxs@.len() <= cap && forall|x: int| 0 <= x < l.pool_idxs@.len() ==> #[trigger] l.pool_idxs@[x] < graph.pools@.len()),
    ensures
        r.0@.len() == order@.len(),
        forall|t: int|
            0 <= t < order@.len() ==> leg_matches(
                graph,
                #[trigger] r.0@[t],
                tps@[order@[t] as int]@,
                per_leg@[order@[t] as int].unwrap().pool_idxs@,
                inputs@[order@[t] as int].val(),
                per_leg@[order@[t] as int].unwrap().amount_out.val(),
            ),
        r.1.val() == sum_at(inputs_view(inputs@), indices(order@)),
        r.2 as nat == hops_of(per_leg@, indices(order@)),
        r.2 <= order@.len() * cap,
{
    let ghost ov = indices(order@);
    let mut legs: Vec<Leg> = Vec::new();
    let mut total_in = U256::zero();
    let mut hops: usize = 0;
    let mut t: usize = 0;
    while t < order.len()
        invariant
            ov == indices(order@),
            per_leg@.len() == tps@.len(),
            inputs@.len() == tps@.len(),
            order@.len() * cap <= usize::MAX,
            forall|x: int| 0 <= x < order@.len() ==> #[trigger] order@[x] < tps@.len() && per_leg@[order@[x] as int] is Some,
            forall|i: int, x: int| 0 <= i < tps@.len() && 0 <= x < tps@[i]@.len() ==> #[trigger] tps@[i]@[x] < graph.tokens@.len(),
            forall|i: int|
                0 <= i < per_leg@.len() ==> (#[trigger] per_leg@[i] matches Some(l) ==> l.amount_in == inputs@[i]
                    && l.pool_idxs@.len() <= cap && forall|x: int| 0 <= x < l.pool_idxs@.len() ==> #[trigger] l.pool_idxs@[x] < graph.pools@.len()),
            t <= order@.len(),
            legs@.len() == t,
            forall|y: int|
                0 <= y < t ==> leg_matches(
                    graph,
                    #[trigger] legs@[y],
                    tps@[order@[y] as int]@,
                    per_leg@[order@[y] as int].unwrap().pool_idxs@,
                    inputs@[order@[y] as int].val(),
                    per_leg@[order@[y] as int].unwrap().amount_out.val(),
                ),
            total_in.val() == sum_at(inputs_view(inputs@), ov.subrange(0, t as int)),
            hops as nat == hops_of(per_leg@, ov.subrange(0, t as int)),
            hops <= t * cap,
        decreases order@.len() - t,
    {
        let i = order[t];
        let sim = match &per_leg[i] {
            Some(l) => l,
            None => {
                return (legs, total_in, hops);
            },
        };
        let tp = &tps[i];
        proof {
            assert(forall|x: int| 0 <= x < tp@.len() ==> #[trigger] tp@[x] < graph.tokens@.len());
        }
        let path = token_addresses(graph, tp);
        let pools_used = pool_addresses(graph, &sim.pool_idxs);
        let ghost ov_t = ov.subrange(0, t + 1);
        proof {
            assert(ov_t.drop_last() =~= ov.subrange(0, t as int));
            assert(ov_t.last() == i as int);
        }
        total_in = total_in.wrapping_add(sim.amount_in);
        proof {
            let ol = order@.len() as int;
            assert((t + 1) * cap <= ol * cap) by (nonlinear_arith)
                requires
                    t + 1 <= ol,
            ;
            assert((t + 1) * cap == t * cap + cap) by (nonlinear_arith);
        }
        hops = hops + sim.pool_idxs.len();
        legs.push(Leg { path, pools_used, amount_in: sim.amount_in, amount_out: sim.amount_out });
        t = t + 1;
    }
    proof {
        assert(ov.subrange(0, order@.len() as int) =~= ov);
    }
    (legs, total_in, hops)
}

/// Pools summed over the legs at `order`.
pub open spec fn hops_of(per: Seq<Option<LegSim>>, order: Seq<int>) -> nat
    decreases order.len(),
{
    if order.len() == 0 {
        0
    } else {
        hops_of(per, order.drop_last()) + per[order.last()].unwrap().pool_idxs@.len()
    }
}

/// The trace a split answer carries: the source's visit when tracing.
pub(crate) fn seed_trace(with_trace: bool, s: usize) -> (r: Vec<Step>)
    ensures
        r@ == (if with_trace {
            seq![Step::Visit(s)]
        } else {
            Seq::<Step>::empty()
        }),
{
    let mut t: Vec<Step> = Vec::new();
    if with_trace {
        t.push(Step::Visit(s));
    }
    t
}

/// The allocation `dp_allocate` gives routes `tps`/`pps` with `quotes` and
/// gas `gv`, its inputs, their sequential simulation, and the legs that
/// delivered, largest input first.
fn allocate_legs(
    graph: &Graph,
    tps: &Vec<Vec<usize>>,
    pps: &Vec<Vec<usize>>,
    quotes: &Vec<Vec<U256>>,
    gv: &Vec<U256>,
    amount_in: U256,
) -> (r: (Vec<U256>, U256, Vec<Option<LegSim>>, Vec<usize>))
    requires
        quotes@.len() == gv@.len(),
        forall|i: int| 0 <= i < quotes@.len() ==> #[trigger] quotes@[i]@.len() == N_CHUNKS + 1,
        allocation_ok(graph, paths_view(tps@), paths_view(pps@), quotes@.len() as nat),
    ensures
        ({
            let (inputs, total, per, order) = r;
            let alloc = dp_allocation(quotes_view(quotes@), amounts_view(gv@));
            let sim = simulate_spec(
                graph,
                paths_view(tps@),
                paths_view(pps@),
                inputs_view(inputs@),
                reserves_view(initial_view(graph)),
            );
            &&& inputs_view(inputs@) == leg_inputs(amount_in.val(), alloc)
            &&& inputs@.len() == tps@.len()
            &&& total.val() == sim.1
            &&& per_view(per@) == sim.2
            &&& per@.len() == tps@.len()
            &&& forall|i: int|
                0 <= i < per@.len() ==> (#[trigger] per@[i] matches Some(l) ==> l.amount_in == inputs@[i]
                    && l.pool_idxs@ == pps@[i]@)
            &&& indices(order@) == top_picks(inputs_view(inputs@), idle(sim.2), tps@.len() as nat)
            &&& forall|t: int| 0 <= t < order@.len() ==> #[trigger] order@[t] < tps@.len() && per@[order@[t] as int] is Some
            &&& order@.len() <= tps@.len()
        }),
{
    let allocs = dp_allocate(quotes, gv);
    let ghost alloc = dp_allocation(quotes_view(quotes@), amounts_view(gv@));
    let mut inputs: Vec<U256> = Vec::new();
    let mut i: usize = 0;
    while i < allocs.len()
        invariant
            i <= allocs@.len(),
            inputs@.len() == i,
            forall|x: int| 0 <= x < i ==> #[trigger] inputs@[x].val() == chunk(amount_in.val(), allocs@[x] as nat),
        decreases allocs@.len() - i,
    {
        inputs.push(amount_in.wrapping_mul(U256::from_u64(allocs[i] as u64)).div(U256::from_u64(N_CHUNKS as u64)));
        i = i + 1;
    }
    proof {
        assert(counts_view(allocs@) == alloc);
        assert(inputs_view(inputs@) =~= chunks(amount_in.val(), alloc));
    }
    if allocs.len() > 0 {
        let ghost c = chunks(amount_in.val(), alloc);
        let mut sum = U256::zero();
        let mut best: usize = 0;
        let mut found = false;
        let mut x: usize = 0;
        while x < inputs.len()
            invariant
                x <= inputs@.len(),
                inputs@.len() == allocs@.len(),
                inputs_view(inputs@) == c,
                alloc == counts_view(allocs@),
                sum.val() == mod_sum(c, x as nat),
                found == (x > 0),
                found ==> best < x && best as int == first_max(alloc, none_done(alloc.len()), x as nat),
                !found ==> first_max(alloc, none_done(alloc.len()), x as nat) < 0,
            decreases inputs@.len() - x,
        {
            sum = sum.wrapping_add(inputs[x]);
            if !found || allocs[x] > allocs[best] {
                best = x;
            }
            found = true;
            x = x + 1;
        }
        let rest = amount_in.wrapping_sub(sum);
        let topped = inputs[best].wrapping_add(rest);
        inputs.set(best, topped);
        proof {
            amount_in.lemma_val_bound();
            lemma_mod_sum_bound(c, c.len());
            assert(rest.val() == ((amount_in.val() + modulus() - mod_sum(c, c.len())) as nat) % modulus());
            assert(inputs_view(inputs@) =~= leg_inputs(amount_in.val(), alloc));
        }
    } else {
        proof {
            assert(inputs_view(inputs@) =~= leg_inputs(amount_in.val(), alloc));
        }
    }
    let (total_out, per_leg) = simulate_allocation(graph, tps, pps, &inputs);
    let ghost sim = simulate_spec(graph, paths_view(tps@), paths_view(pps@), inputs_view(inputs@), reserves_view(initial_view(graph)));
    let mut done: Vec<bool> = Vec::new();
    let mut x: usize = 0;
    while x < per_leg.len()
        invariant
            x <= per_leg@.len(),
            done@.len() == x,
            forall|y: int| 0 <= y < x ==> #[trigger] done@[y] == (per_leg@[y] is None),
        decreases per_leg@.len() - x,
    {
        done.push(per_leg[x].is_none());
        x = x + 1;
    }
    proof {
        assert(done@ =~= idle(per_view(per_leg@)));
    }
    let order = pick_order(&inputs, done, tps.len());
    proof {
        lemma_top_picks(inputs_view(inputs@), idle(sim.2), tps@.len() as nat);
        let ov = indices(order@);
        assert forall|t: int| 0 <= t < order@.len() implies #[trigger] order@[t] < tps@.len() && per_leg@[order@[t] as int] is Some by {
            assert(ov[t] == order@[t] as int);
            assert(!idle(sim.2)[ov[t]]);
            assert(per_view(per_leg@)[ov[t]] is Some);
        }
        assert(order@.len() == ov.len());
    }
    (inputs, total_out, per_leg, order)
}

/// Pools summed over delivered legs equal hops summed over their routes.
proof fn lemma_hops_same(per: Seq<Option<LegSim>>, routes: Seq<(Seq<usize>, Seq<usize>)>, order: Seq<int>)
    requires
        forall|t: int| 0 <= t < order.len() ==> 0 <= #[trigger] order[t] < per.len() && per[order[t]] is Some,
        per.len() == routes.len(),
        forall|i: int| 0 <= i < per.len() ==> (#[trigger] per[i] matches Some(l) ==> l.pool_idxs@ == routes[i].1),
    ensures
        hops_of(per, order) == hops_at(routes, order),
    decreases order.len(),
{
    if order.len() > 0 {
        lemma_hops_same(per, routes, order.drop_last());
        let i = order.last();
        assert(0 <= i < per.len() && per[i] is Some);
    }
}

/// The report for the ranking `sc`, which is not empty: `dp_reports`, with
/// the source's visit as the trace when tracing and something is found.
fn split_answer(
    graph: &Graph,
    sc: &Vec<(Vec<usize>, Vec<usize>, U256)>,
    amount_in: U256,
    gas: &GasModel,
    s: usize,
    d: usize,
    with_trace: bool,
) -> (r: SolveResult)
    requires
        graph.wf(),
        s < graph.tokens@.len(),
        d < graph.tokens@.len(),
        sc@.len() > 0,
        forall|i: int| 0 <= i < sc@.len() ==> hop_ok(graph, #[trigger] sc@[i].0@, sc@[i].1@, s as int, d as int),
    ensures
        dp_reports(graph, ranked_view(sc@), amount_in, *gas, d as int, r.outcome),
        r.outcome is NoPath ==> r.trace@.len() == 0,
        !(r.outcome is NoPath) ==> r.trace@ == (if with_trace {
            seq![Step::Visit(s)]
        } else {
            Seq::<Step>::empty()
        }),
        trace_within(r.trace@, graph.tokens@.len()),
{
    let ghost sv = ranked_view(sc@);
    let (tps, pps, quotes, gv) = plan_routes(graph, sc, amount_in, gas, s, d);
    let ghost routes = routes_of(sv);
    proof {
        lemma_first_max_found(nets(sv), none_done(sv.len()), sv.len(), 0);
        lemma_top_picks(nets(sv), none_done(sv.len()), K_CANDIDATES as nat);
        assert(routes.len() >= 1);
        assert(quotes_view(quotes@).len() == quotes@.len());
        assert(amounts_view(gv@).len() == gv@.len());
        assert forall|l: int, x: int| 0 <= l < paths_view(tps@).len() && 0 <= x < paths_view(tps@)[l].len() implies #[trigger] paths_view(tps@)[l][x] < graph.tokens@.len() by {
            assert(hop_ok(graph, tps@[l]@, pps@[l]@, s as int, d as int));
            let h = choose|h: nat| 1 <= h <= MAX_HOPS && #[trigger] hop_path(graph, tps@[l]@, s as int, d as int, h);
            assert(hop_path(graph, tps@[l]@, s as int, d as int, h));
            assert(tps@[l]@[x] < graph.tokens@.len());
        }
        assert forall|l: int, x: int| 0 <= l < paths_view(pps@).len() && 0 <= x < paths_view(pps@)[l].len() implies #[trigger] paths_view(pps@)[l][x] < graph.pools@.len()
            && graph.pools@[paths_view(pps@)[l][x] as int].fee_bps <= crate::pool::FEE_DENOM by {
            assert(hop_ok(graph, tps@[l]@, pps@[l]@, s as int, d as int));
        }
    }
    let (inputs, total_out, per_leg, order) = allocate_legs(graph, &tps, &pps, &quotes, &gv, amount_in);
    let ghost sim = simulate_spec(graph, paths_view(tps@), paths_view(pps@), inputs_view(inputs@), reserves_view(initial_view(graph)));
    let ghost ov = indices(order@);
    if order.len() == 0 {
        return SolveResult { outcome: Outcome::NoPath, trace: Vec::new() };
    }
    proof {
        assert forall|i: int|
            0 <= i < per_leg@.len() implies (#[trigger] per_leg@[i] matches Some(l) ==> l.amount_in == inputs@[i]
                && l.pool_idxs@.len() <= MAX_HOPS && forall|y: int| 0 <= y < l.pool_idxs@.len() ==> #[trigger] l.pool_idxs@[y] < graph.pools@.len()) by {
            if per_leg@[i] is Some {
                assert(hop_ok(graph, tps@[i]@, pps@[i]@, s as int, d as int));
                let h = choose|h: nat| 1 <= h <= MAX_HOPS && #[trigger] hop_path(graph, tps@[i]@, s as int, d as int, h);
                assert(hop_path(graph, tps@[i]@, s as int, d as int, h));
            }
        }
        assert forall|i: int, y: int| 0 <= i < tps@.len() && 0 <= y < tps@[i]@.len() implies #[trigger] tps@[i]@[y] < graph.tokens@.len() by {
            assert(paths_view(tps@)[i][y] < graph.tokens@.len());
        }
        assert(order@.len() <= K_CANDIDATES);
    }
    let (legs, total_in, total_hops) = collect_legs(graph, &tps, &per_leg, &inputs, &order, Ghost(MAX_HOPS as nat));
    proof {
        assert forall|t: int| 0 <= t < ov.len() implies 0 <= #[trigger] ov[t] < per_leg@.len() && per_leg@[ov[t]] is Some by {
            assert(ov[t] == order@[t] as int);
        }
        assert forall|i: int| 0 <= i < per_leg@.len() implies (#[trigger] per_leg@[i] matches Some(l) ==> l.pool_idxs@ == routes[i].1) by {
            if per_leg@[i] is Some {
                assert(pps@[i]@ == routes[i].1);
            }
        }
        lemma_hops_same(per_leg@, routes, ov);
        assert forall|t: int| 0 <= t < ov.len() implies 0 <= #[trigger] ov[t] < routes.len() by {
            assert(ov[t] == order@[t] as int);
        }
        assert forall|i: int| 0 <= i < routes.len() implies #[trigger] routes[i].1.len() <= MAX_HOPS by {
            assert(hop_ok(graph, tps@[i]@, pps@[i]@, s as int, d as int));
            assert(pps@[i]@ == routes[i].1);
            let h = choose|h: nat| 1 <= h <= MAX_HOPS && #[trigger] hop_path(graph, tps@[i]@, s as int, d as int, h);
            assert(hop_path(graph, tps@[i]@, s as int, d as int, h));
        }
        lemma_hops_at(routes, ov);
        assert(total_hops <= MAX_HOPS * K_CANDIDATES);
    }
    let units = gas.gas_units(legs.len(), total_hops);
    let dst_token = &graph.tokens[d];
    let gas_cost = gas.gas_to_dst_token(units, dst_token.true_price_pico_usd, dst_token.decimals);
    let dp_net = total_out.saturating_sub(gas_cost);
    proof {
        assert(hop_ok(graph, tps@[0]@, pps@[0]@, s as int, d as int));
        let h = choose|h: nat| 1 <= h <= MAX_HOPS && #[trigger] hop_path(graph, tps@[0]@, s as int, d as int, h);
        assert(hop_path(graph, tps@[0]@, s as int, d as int, h));
    }
    match walk_pool_path(graph, &tps[0], &pps[0], amount_in) {
        Some((single_out, _)) => {
            let single_units = gas.gas_units(1, pps[0].len());
            let single_gas = gas.gas_to_dst_token(single_units, dst_token.true_price_pico_usd, dst_token.decimals);
            let single_net = single_out.saturating_sub(single_gas);
            if single_net.gt(&dp_net) {
                let path = token_addresses(graph, &tps[0]);
                let pools_used = pool_addresses(graph, &pps[0]);
                let mut one: Vec<Leg> = Vec::new();
                one.push(Leg { path, pools_used, amount_in, amount_out: single_out });
                return SolveResult {
                    outcome: Outcome::FoundSplit {
                        legs: one,
                        amount_in,
                        amount_out: single_out,
                        gas_cost: single_gas,
                    },
                    trace: seed_trace(with_trace, s),
                };
            }
        },
        None => {},
    }
    proof {
        let alloc = dp_allocation(quotes_view(quotes@), amounts_view(gv@));
        let iv = inputs_view(inputs@);
        if forall|i: int| 0 <= i < iv.len() && #[trigger] iv[i] > 0 ==> sim.2[i] is Some {
            amount_in.lemma_val_bound();
            crate::algo::split_sums::lemma_backtrack_len_pub(quotes_view(quotes@), amounts_view(gv@));
            crate::algo::split_sums::lemma_whole_input(amount_in.val(), alloc, sim.2, routes.len());
            assert(total_in.val() == amount_in.val());
            amount_in.lemma_val_injective(total_in);
        }
    }
    SolveResult {
        outcome: Outcome::FoundSplit { legs, amount_in: total_in, amount_out: total_out, gas_cost },
        trace: seed_trace(with_trace, s),
    }
}

/// The split answer for a trade of a token into itself: one leg handing
/// the input back, no gas, and the token's visit as the trace when tracing.
pub fn singleton_split(src: Address, s: usize, amount_in: U256, with_trace: bool) -> (r: SolveResult)
    ensures
        r.trace@ == (if with_trace {
            seq![Step::Visit(s)]
        } else {
            Seq::<Step>::empty()
        }),
        match r.outcome {
            Outcome::FoundSplit { legs, amount_in: given, amount_out, gas_cost } => {
                &&& legs@.len() == 1
                &&& legs@[0].path@ == seq![src]
                &&& legs@[0].pools_used@.len() == 0
                &&& legs@[0].amount_in == amount_in
                &&& legs@[0].amount_out == amount_in
                &&& given == amount_in
                &&& amount_out == amount_in
                &&& gas_cost.val() == 0
            },
            _ => false,
        },
{
    let mut path: Vec<Address> = Vec::new();
    path.push(src);
    let mut legs: Vec<Leg> = Vec::new();
    legs.push(Leg { path, pools_used: Vec::new(), amount_in, amount_out: amount_in });
    SolveResult {
        outcome: Outcome::FoundSplit { legs, amount_in, amount_out: amount_in, gas_cost: U256::zero() },
        trace: seed_trace(with_trace, s),
    }
}

/// Splits `amount_in` of `src` into `dst` over up to `K_CANDIDATES` routes
/// by a knapsack over `N_CHUNKS` chunks, simulated sequentially; the best
/// single route stands instead when it nets more.
pub fn solve(
    graph: &Graph,
    src: Address,
    dst: Address,
    amount_in: U256,
    with_trace: bool,
    gas: &GasModel,
) -> (r: SolveResult)
    requires
        graph.wf(),
        graph.tokens@.len() < 0x1_0000_0000,
    ensures
        dp_contract(graph, src, dst, amount_in, with_trace, *gas, r),
{
    proof {
        lemma_index_upto(graph.tokens@, src, graph.tokens@.len() as int);
        lemma_index_upto(graph.tokens@, dst, graph.tokens@.len() as int);
    }
    let s = match graph.index_of(src) {
        Some(i) => i,
        None => {
            return SolveResult { outcome: Outcome::NoPath, trace: Vec::new() };
        },
    };
    let d = match graph.index_of(dst) {
        Some(i) => i,
        None => {
            return SolveResult { outcome: Outcome::NoPath, trace: Vec::new() };
        },
    };
    if s == d {
        return singleton_split(src, s, amount_in, with_trace);
    }
    let cands = BoundedBfIter::new(graph, s, d, MAX_HOPS).into_paths();
    let ghost cv = views(cands@);
    proof {
        assert forall|i: int| 0 <= i < cands@.len() implies #[trigger] within_hops(graph, cands@[i]@, s as int, d as int, MAX_HOPS as nat) by {
            assert(cv[i] == cands@[i]@);
        }
    }
    let by_pair = build_by_pair(graph);
    let sc = rank_candidates(graph, &by_pair, &cands, amount_in, gas, s, d);
    let ghost sv = ranked_view(sc@);
    if sc.len() == 0 {
        return SolveResult { outcome: Outcome::NoPath, trace: Vec::new() };
    }
    split_answer(graph, &sc, amount_in, gas, s, d, with_trace)
}

} // verus!
