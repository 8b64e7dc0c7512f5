//! Reported outputs agree with replaying the reported route.
//!
//! A caller holding an answer can replay it with `Pool::simulate_path`,
//! which looks each pool up by address. These laws prove that the replay
//! gives exactly the output the router reported, whenever pool addresses
//! identify pools.
use crate::algo::bellman_ford::bf_contract;
use crate::algo::path::{
    best_candidate, lemma_best_candidate_max, lemma_best_candidate_range, lemma_pools_to, lemma_pools_to_has,
    lemma_walk_best_len, pools_to, replay, walk_best,
};
use crate::algo::{
    closed, is_cycle, pool_addrs, reports_cycle, reports_route, reports_singleton, solve_contract,
    token_addrs, Algorithm, Outcome, SolveOptions, SolveResult,
};
use crate::algo::amount_aware::{aa_contract, best_pick, examined};
use crate::algo::bounded_bf::{hop_path, within_hops};
use crate::algo::dijkstra::single_route_contract;
use crate::address::Address;
use crate::graph::{token_index, Graph};
use crate::pool::{find_pool, lemma_find_pool_upto, simulate_ok, simulate_spec, Pool};
use crate::uint::U256;
use vstd::prelude::*;

verus! {

/// No two pools share an address.
pub open spec fn distinct_pool_addresses(pools: Seq<Pool>) -> bool {
    forall|i: int, j: int| 0 <= i < j < pools.len() ==> pools[i].address != pools[j].address
}

/// With distinct addresses, looking a pool up by its address finds it.
proof fn lemma_find_own(pools: Seq<Pool>, p: int)
    requires
        distinct_pool_addresses(pools),
        0 <= p < pools.len(),
    ensures
        find_pool(pools, pools[p].address) == p,
{
    lemma_find_pool_upto(pools, pools[p].address, pools.len() as int);
    let i = find_pool(pools, pools[p].address);
    if i != p {
        if 0 <= i < p {
            assert(pools[i].address != pools[p].address);
        }
    }
}

/// One step of the best-pool walk: it extends the previous step's pools by
/// a real pool whose swap is computable at the running amount.
pub proof fn lemma_walk_best_step(g: &Graph, tp: Seq<usize>, a: nat, k: nat)
    requires
        g.wf(),
        k >= 1,
        k < tp.len(),
        tp[k - 1] < g.tokens@.len(),
        walk_best(g, tp, a, k) is Some,
    ensures
        ({
            let (ps, out) = walk_best(g, tp, a, k).unwrap();
            let (ps0, a0) = walk_best(g, tp, a, (k - 1) as nat).unwrap();
            let from = g.tokens@[tp[k - 1] as int].address;
            &&& walk_best(g, tp, a, (k - 1) as nat) is Some
            &&& ps == ps0.push(ps[k - 1])
            &&& ps[k - 1] < g.pools@.len()
            &&& g.pools@[ps[k - 1] as int].swap_ok(from, a0)
            &&& out == g.pools@[ps[k - 1] as int].output_spec(from, a0)
        }),
{
    let (ps0, a0) = walk_best(g, tp, a, (k - 1) as nat).unwrap();
    lemma_walk_best_len(g, tp, a, (k - 1) as nat);
    let u = tp[k - 1] as int;
    let cands = pools_to(g.adj@[u]@, tp[k as int] as int);
    let from = g.tokens@[u].address;
    let b = crate::algo::path::best_candidate(g.pools@, cands, from, a0, cands.len());
    lemma_best_candidate_range(g.pools@, cands, from, a0, cands.len());
    let e = lemma_pools_to(g.adj@[u]@, tp[k as int] as int, b);
    g.lemma_adj_ok();
    assert(g.edge_ok(u, g.adj@[u]@[e]));
    assert(walk_best(g, tp, a, k).unwrap().0 == ps0.push(cands[b]));
}

/// A walk that takes the best pool per hop takes, at hop `j`, a pool whose
/// output for the amount held there is at least that of the pool of every
/// edge joining the same two tokens whose swap is computable, and strictly
/// more than that of every such pool before it in edge order.
pub proof fn law_walk_takes_best_pool(g: &Graph, tp: Seq<usize>, a: nat, k: nat, j: nat)
    requires
        g.wf(),
        j < k,
        k < tp.len(),
        forall|i: int| 0 <= i < tp.len() ==> #[trigger] tp[i] < g.tokens@.len(),
        walk_best(g, tp, a, k) is Some,
    ensures
        ({
            let ps = walk_best(g, tp, a, k).unwrap().0;
            let held = walk_best(g, tp, a, j).unwrap().1;
            let u = tp[j as int] as int;
            let from = g.tokens@[u].address;
            forall|i: int|
                0 <= i < g.adj@[u]@.len() && g.adj@[u]@[i].to == tp[j as int + 1] && #[trigger] g.pools@[g.adj@[u]@[i].pool as int].swap_ok(
                    from,
                    held,
                ) ==> g.pools@[g.adj@[u]@[i].pool as int].output_spec(from, held) <= g.pools@[ps[j as int] as int].output_spec(
                    from,
                    held,
                )
        }),
        ({
            let ps = walk_best(g, tp, a, k).unwrap().0;
            let held = walk_best(g, tp, a, j).unwrap().1;
            let u = tp[j as int] as int;
            let from = g.tokens@[u].address;
            let cands = pools_to(g.adj@[u]@, tp[j as int + 1] as int);
            exists|b: int|
                0 <= b < cands.len() && cands[b] == ps[j as int] && forall|c: int|
                    0 <= c < b && #[trigger] g.pools@[cands[c] as int].swap_ok(from, held) ==> g.pools@[cands[c] as int].output_spec(
                        from,
                        held,
                    ) < g.pools@[ps[j as int] as int].output_spec(from, held)
        }),
{
    lemma_walk_best_prefix(g, tp, a, k, (j + 1) as nat);
    lemma_walk_best_prefix(g, tp, a, k, j);
    let ps = walk_best(g, tp, a, k).unwrap().0;
    let ps1 = walk_best(g, tp, a, (j + 1) as nat).unwrap().0;
    let held = walk_best(g, tp, a, j).unwrap().1;
    let u = tp[j as int] as int;
    let from = g.tokens@[u].address;
    let cands = pools_to(g.adj@[u]@, tp[j as int + 1] as int);
    lemma_best_candidate_max(g.pools@, cands, from, held, cands.len());
    lemma_best_candidate_range(g.pools@, cands, from, held, cands.len());
    let b = best_candidate(g.pools@, cands, from, held, cands.len());
    lemma_walk_best_len(g, tp, a, k);
    lemma_walk_best_len(g, tp, a, (j + 1) as nat);
    lemma_walk_best_len(g, tp, a, j);
    assert(ps1[j as int] == ps[j as int]) by {
        assert(ps1 == ps.take(j as int + 1));
    }
    let ps0 = walk_best(g, tp, a, j).unwrap().0;
    assert(walk_best(g, tp, a, (j + 1) as nat) == Some((ps0.push(cands[b]), g.pools@[cands[b] as int].output_spec(from, held))));
    assert(ps1[j as int] == cands[b]);
    assert forall|i: int|
        0 <= i < g.adj@[u]@.len() && g.adj@[u]@[i].to == tp[j as int + 1] && #[trigger] g.pools@[g.adj@[u]@[i].pool as int].swap_ok(
            from,
            held,
        ) implies g.pools@[g.adj@[u]@[i].pool as int].output_spec(from, held) <= g.pools@[ps[j as int] as int].output_spec(
            from,
            held,
        ) by {
        let c = lemma_pools_to_has(g.adj@[u]@, tp[j as int + 1] as int, i);
        assert(g.pools@[cands[c] as int].swap_ok(from, held));
    }
}

/// The walk's choices on a prefix are a prefix of its choices.
pub proof fn lemma_walk_best_prefix(g: &Graph, tp: Seq<usize>, a: nat, k: nat, j: nat)
    requires
        g.wf(),
        j <= k,
        k < tp.len(),
        forall|i: int| 0 <= i < tp.len() ==> #[trigger] tp[i] < g.tokens@.len(),
        walk_best(g, tp, a, k) is Some,
    ensures
        walk_best(g, tp, a, j) is Some,
        walk_best(g, tp, a, j).unwrap().0 == walk_best(g, tp, a, k).unwrap().0.take(j as int),
    decreases k - j,
{
    lemma_walk_best_len(g, tp, a, k);
    if j == k {
        assert(walk_best(g, tp, a, k).unwrap().0.take(j as int) =~= walk_best(g, tp, a, k).unwrap().0);
    } else {
        lemma_walk_best_step(g, tp, a, k);
        lemma_walk_best_prefix(g, tp, a, (k - 1) as nat, j);
        let ps = walk_best(g, tp, a, k).unwrap().0;
        let ps0 = walk_best(g, tp, a, (k - 1) as nat).unwrap().0;
        assert(ps0.take(j as int) =~= ps.take(j as int));
    }
}

/// Hop `j` of the replay by address agrees with hop `j` of the walk.
proof fn lemma_replay_step(g: &Graph, tp: Seq<usize>, a: nat, k: nat, j: nat)
    requires
        g.wf(),
        distinct_pool_addresses(g.pools@),
        1 <= j <= k,
        k < tp.len(),
        forall|i: int| 0 <= i < tp.len() ==> #[trigger] tp[i] < g.tokens@.len(),
        walk_best(g, tp, a, k) is Some,
        simulate_spec(
            token_addrs(g, tp),
            pool_addrs(g, walk_best(g, tp, a, k).unwrap().0),
            g.pools@,
            a,
            (j - 1) as nat,
        ) == walk_best(g, tp, a, (j - 1) as nat).unwrap().1,
    ensures
        ({
            let ps = walk_best(g, tp, a, k).unwrap().0;
            let path = token_addrs(g, tp);
            let used = pool_addrs(g, ps);
            &&& simulate_spec(path, used, g.pools@, a, j) == walk_best(g, tp, a, j).unwrap().1
            &&& find_pool(g.pools@, used[j - 1]) == ps[j - 1] as int
            &&& g.pools@[ps[j - 1] as int].swap_ok(path[j - 1], simulate_spec(path, used, g.pools@, a, (j - 1) as nat))
        }),
{
    lemma_walk_best_len(g, tp, a, k);
    lemma_walk_best_prefix(g, tp, a, k, j);
    lemma_walk_best_step(g, tp, a, j);
    let ps = walk_best(g, tp, a, k).unwrap().0;
    let psj = walk_best(g, tp, a, j).unwrap().0;
    assert(psj[j - 1] == ps[j - 1]);
    lemma_find_own(g.pools@, ps[j - 1] as int);
    let used = pool_addrs(g, ps);
    assert(used[j - 1] == g.pools@[ps[j - 1] as int].address);
    assert(token_addrs(g, tp)[j - 1] == g.tokens@[tp[j - 1] as int].address);
}

/// Replaying the first `j` hops by address gives the walk's amount after
/// `j` hops, each hop's swap being computable.
proof fn lemma_walk_best_replays(g: &Graph, tp: Seq<usize>, a: nat, k: nat, j: nat)
    requires
        g.wf(),
        distinct_pool_addresses(g.pools@),
        j <= k,
        k < tp.len(),
        forall|i: int| 0 <= i < tp.len() ==> #[trigger] tp[i] < g.tokens@.len(),
        walk_best(g, tp, a, k) is Some,
    ensures
        ({
            let ps = walk_best(g, tp, a, k).unwrap().0;
            let path = token_addrs(g, tp);
            let used = pool_addrs(g, ps);
            &&& simulate_spec(path, used, g.pools@, a, j) == walk_best(g, tp, a, j).unwrap().1
            &&& forall|i: int|
                0 <= i < j ==> {
                    &&& #[trigger] find_pool(g.pools@, used[i]) == ps[i] as int
                    &&& g.pools@[ps[i] as int].swap_ok(path[i], simulate_spec(path, used, g.pools@, a, i as nat))
                }
        }),
    decreases j,
{
    if j > 0 {
        lemma_walk_best_replays(g, tp, a, k, (j - 1) as nat);
        lemma_replay_step(g, tp, a, k, j);
    } else {
        lemma_walk_best_prefix(g, tp, a, k, 0);
    }
}

/// A best-pool walk of a route, replayed through `Pool::simulate_path`'s
/// lookup by address, is computable and gives the walk's output.
pub proof fn lemma_route_replays(g: &Graph, tp: Seq<usize>, a: nat)
    requires
        g.wf(),
        distinct_pool_addresses(g.pools@),
        tp.len() >= 1,
        forall|i: int| 0 <= i < tp.len() ==> #[trigger] tp[i] < g.tokens@.len(),
        walk_best(g, tp, a, (tp.len() - 1) as nat) is Some,
    ensures
        ({
            let (ps, out) = walk_best(g, tp, a, (tp.len() - 1) as nat).unwrap();
            &&& simulate_ok(token_addrs(g, tp), pool_addrs(g, ps), g.pools@, a)
            &&& simulate_spec(token_addrs(g, tp), pool_addrs(g, ps), g.pools@, a, ps.len()) == out
        }),
{
    let k = (tp.len() - 1) as nat;
    lemma_walk_best_len(g, tp, a, k);
    lemma_walk_best_replays(g, tp, a, k, k);
    let (ps, out) = walk_best(g, tp, a, k).unwrap();
    let path = token_addrs(g, tp);
    let used = pool_addrs(g, ps);
    assert forall|i: int| 0 <= i < used.len() implies {
        &&& #[trigger] find_pool(g.pools@, used[i]) >= 0
        &&& g.pools@[find_pool(g.pools@, used[i])].swap_ok(path[i], simulate_spec(path, used, g.pools@, a, i as nat))
    } by {
        assert(find_pool(g.pools@, used[i]) == ps[i] as int);
    }
}

/// A computable replay is computable on every prefix.
proof fn lemma_replay_prefix(g: &Graph, tp: Seq<usize>, pp: Seq<usize>, a: nat, k: nat, j: nat)
    requires
        j <= k,
        replay(g, tp, pp, a, k) is Some,
    ensures
        replay(g, tp, pp, a, j) is Some,
    decreases k - j,
{
    if j < k {
        lemma_replay_prefix(g, tp, pp, a, (k - 1) as nat, j);
    }
}

/// Replaying pools given by index, by address instead, gives the same
/// amounts when addresses identify pools.
pub(crate) proof fn lemma_replay_by_address(g: &Graph, tp: Seq<usize>, pp: Seq<usize>, a: nat, j: nat)
    requires
        distinct_pool_addresses(g.pools@),
        j <= pp.len(),
        pp.len() < tp.len(),
        forall|i: int| 0 <= i < pp.len() ==> #[trigger] pp[i] < g.pools@.len(),
        forall|i: int| 0 <= i < tp.len() ==> #[trigger] tp[i] < g.tokens@.len(),
        replay(g, tp, pp, a, j) is Some,
    ensures
        simulate_spec(token_addrs(g, tp), pool_addrs(g, pp), g.pools@, a, j) == replay(g, tp, pp, a, j).unwrap(),
        forall|i: int|
            0 <= i < j ==> {
                &&& #[trigger] find_pool(g.pools@, pool_addrs(g, pp)[i]) == pp[i] as int
                &&& g.pools@[pp[i] as int].swap_ok(
                    token_addrs(g, tp)[i],
                    simulate_spec(token_addrs(g, tp), pool_addrs(g, pp), g.pools@, a, i as nat),
                )
            },
    decreases j,
{
    if j > 0 {
        lemma_replay_prefix(g, tp, pp, a, j, (j - 1) as nat);
        lemma_replay_by_address(g, tp, pp, a, (j - 1) as nat);
        lemma_find_own(g.pools@, pp[j - 1] as int);
        assert(pool_addrs(g, pp)[j - 1] == g.pools@[pp[j - 1] as int].address);
        assert(token_addrs(g, tp)[j - 1] == g.tokens@[tp[j - 1] as int].address);
    }
}

/// Law: the output that a single route reports (Dijkstra, Bellman-Ford or
/// amount-aware) is exactly what `Pool::simulate_path` gives when it replays
/// the reported path through the reported pools, provided no two pools of
/// the graph share an address; that replay is computable.
pub proof fn law_found_output_replays(
    algo: Algorithm,
    g: &Graph,
    src: Address,
    dst: Address,
    amount_in: U256,
    opts: SolveOptions,
    r: SolveResult,
)
    requires
        g.wf(),
        distinct_pool_addresses(g.pools@),
        algo is Dijkstra || algo is BellmanFord || algo is AmountAware,
        solve_contract(algo, g, src, dst, amount_in, opts, Some(r)),
        r.outcome is Found,
    ensures
        match r.outcome {
            Outcome::Found { path, pools_used, amount_out, .. } => {
                &&& simulate_ok(path@, pools_used@, g.pools@, amount_in.val())
                &&& amount_out.val() == simulate_spec(
                    path@,
                    pools_used@,
                    g.pools@,
                    amount_in.val(),
                    pools_used@.len() as nat,
                )
            },
            _ => true,
        },
{
    let si = token_index(g.tokens@, src);
    let di = token_index(g.tokens@, dst);
    if si >= 0 && si == di {
        match r.outcome {
            Outcome::Found { path, pools_used, amount_out, .. } => {
                assert(reports_singleton(r.outcome, src, amount_in));
                assert(simulate_spec(path@, pools_used@, g.pools@, amount_in.val(), 0) == amount_in.val());
            },
            _ => {},
        }
    } else {
        let tp = match algo {
            Algorithm::AmountAware => {
                assert(aa_contract(g, src, dst, amount_in, opts.with_trace, opts.gas, r));
                let cands = choose|cands: Seq<Seq<usize>>|
                    #[trigger] crate::algo::bounded_bf::emits(g, cands, si, di, crate::algo::amount_aware::MAX_HOPS as nat) && {
                        let b = best_pick(g, cands, amount_in, opts.gas, examined(cands.len())).0;
                        if b < 0 {
                            r.outcome is NoPath
                        } else {
                            reports_route(g, r.outcome, cands[b], amount_in, opts.gas)
                        }
                    };
                let b = best_pick(g, cands, amount_in, opts.gas, examined(cands.len())).0;
                assert(b >= 0);
                lemma_best_pick_range(g, cands, amount_in, opts.gas, examined(cands.len()));
                assert(within_hops(g, cands[b], si, di, crate::algo::amount_aware::MAX_HOPS as nat));
                let h = choose|h: nat| 1 <= h <= crate::algo::amount_aware::MAX_HOPS && #[trigger] hop_path(g, cands[b], si, di, h);
                assert(hop_path(g, cands[b], si, di, h));
                cands[b]
            },
            Algorithm::Dijkstra => {
                assert(single_route_contract(g, src, dst, amount_in, opts.with_trace, opts.gas, r));
                choose|tp: Seq<usize>|
                    #[trigger] g.is_walk(tp) && tp[0] == si && tp.last() == di && reports_route(
                        g,
                        r.outcome,
                        tp,
                        amount_in,
                        opts.gas,
                    )
            },
            _ => {
                assert(algo is BellmanFord);
                assert(bf_contract(g, src, dst, amount_in, opts.with_trace, opts.gas, r));
                choose|tp: Seq<usize>|
                    #[trigger] g.is_walk(tp) && tp[0] == si && tp.last() == di && reports_route(
                        g,
                        r.outcome,
                        tp,
                        amount_in,
                        opts.gas,
                    )
            },
        };
        assert(g.is_walk(tp) && reports_route(g, r.outcome, tp, amount_in, opts.gas));
        lemma_route_replays(g, tp, amount_in.val());
    }
}

/// The first-best candidate lies among those examined.
proof fn lemma_best_pick_range(g: &Graph, cands: Seq<Seq<usize>>, amount_in: U256, gas: crate::algo::GasModel, i: nat)
    ensures
        -1 <= best_pick(g, cands, amount_in, gas, i).0 < i,
    decreases i,
{
    if i > 0 {
        lemma_best_pick_range(g, cands, amount_in, gas, (i - 1) as nat);
    }
}

} // verus!
