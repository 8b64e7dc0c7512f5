//! Path discovery: a queue-based search over the core graph (source,
//! target and hubs) and the hub-to-hub shortcuts, pruned by the best amount
//! reached at each token, that admits a pool-disjoint path whose realised
//! rate beats the equilibrium price τ.
use crate::algo::bounded_bf::simple;
use crate::algo::path::{route_in_graph, walk_fixed, walk_pool_path};
use crate::algo::prime::hub::HubSet;
use crate::algo::prime::path::DiscoveredPath;
use crate::graph::Graph;
use crate::ratio::{Natural, Ratio};
use crate::uint::U256;
use vstd::prelude::*;

verus! {

/// Cap on queue pops, bounding the work when pruning is weak.
pub const SPFA_POP_LIMIT: usize = 50_000;

/// A route between two hubs through non-hub tokens, one pool per hop.
#[derive(Debug, Clone)]
pub struct Shortcut {
    pub from_hub: usize,
    pub to_hub: usize,
    /// The tokens visited between the hubs, in order.
    pub intermediate_tokens: Vec<usize>,
    /// One pool per hop.
    pub pools: Vec<usize>,
}

impl Shortcut {
    /// The shortcut's tokens from hub to hub.
    pub open spec fn tokens_spec(&self) -> Seq<usize> {
        seq![self.from_hub].add(self.intermediate_tokens@).push(self.to_hub)
    }
}

/// A shortcut names tokens and pools of the graph, has one pool per hop and
/// repeats no token.
pub open spec fn shortcut_ok(g: &Graph, sc: Shortcut) -> bool {
    &&& route_in_graph(g, sc.tokens_spec(), sc.pools@)
    &&& sc.pools@.len() + 1 == sc.tokens_spec().len()
    &&& simple(sc.tokens_spec())
}

/// `tp` through `pp` is a simple route from `s` to `at` of at most
/// `max_hops` hops, over pools that `used` does not mark, whose walk of
/// `amount_in` through the given pools delivers `amount`.
pub open spec fn partial_ok(
    g: &Graph,
    s: int,
    amount_in: nat,
    used: Seq<bool>,
    max_hops: nat,
    at: int,
    tp: Seq<usize>,
    pp: Seq<usize>,
    amount: nat,
) -> bool {
    &&& tp.len() == pp.len() + 1
    &&& tp[0] == s
    &&& tp.last() == at
    &&& simple(tp)
    &&& route_in_graph(g, tp, pp)
    &&& forall|i: int| 0 <= i < pp.len() ==> !used[#[trigger] pp[i] as int]
    &&& pp.len() <= max_hops
    &&& walk_fixed(g, tp, pp, amount_in, pp.len()) == Some(amount)
}

/// What a discovered path is: a simple route from `s` to `t` of one to
/// `max_hops` hops over pools that `used` does not mark, whose walk of
/// `amount_in` through its pools delivers more than `tau` times it.
pub open spec fn discovered_ok(
    g: &Graph,
    s: int,
    t: int,
    amount_in: nat,
    tau: (nat, nat),
    used: Seq<bool>,
    max_hops: nat,
    p: DiscoveredPath,
) -> bool {
    exists|out: nat|
        #[trigger] partial_ok(g, s, amount_in, used, max_hops, t, p.tokens@, p.pools@, out) && p.pools@.len()
            >= 1 && out * tau.1 > amount_in * tau.0
}

/// Shortcut `k` leaves `s` for `t` within `max_hops` hops over pools that
/// `used` does not mark, and walking `amount_in` along it delivers more than
/// `tau` times `amount_in`.
pub open spec fn shortcut_beats(
    g: &Graph,
    shortcuts: Seq<Shortcut>,
    k: int,
    s: int,
    t: int,
    amount_in: nat,
    tau: (nat, nat),
    used: Seq<bool>,
    max_hops: nat,
) -> bool {
    &&& 0 <= k < shortcuts.len()
    &&& shortcuts[k].from_hub == s
    &&& shortcuts[k].to_hub == t
    &&& shortcuts[k].pools@.len() <= max_hops
    &&& forall|y: int| 0 <= y < shortcuts[k].pools@.len() ==> !used[#[trigger] shortcuts[k].pools@[y] as int]
    &&& match walk_fixed(g, shortcuts[k].tokens_spec(), shortcuts[k].pools@, amount_in, shortcuts[k].pools@.len()) {
        Some(o) => o * tau.1 > amount_in * tau.0,
        None => false,
    }
}

/// Edge `i` out of `s` leads to `t` through a pool that `used` does not
/// mark.
pub open spec fn direct_edge(g: &Graph, s: int, t: int, i: int, used: Seq<bool>) -> bool {
    &&& 0 <= i < g.adj@[s]@.len()
    &&& g.adj@[s]@[i].to == t
    &&& !used[g.adj@[s]@[i].pool as int]
}

/// What walking `amount_in` from `s` to `t` through edge `i` of `s`
/// delivers.
pub open spec fn direct_out(g: &Graph, s: int, t: int, i: int, amount_in: nat) -> Option<nat> {
    walk_fixed(g, seq![s as usize, t as usize], seq![g.adj@[s]@[i].pool], amount_in, 1)
}

/// What walking `amount_in` along shortcut `k` delivers.
pub open spec fn shortcut_out(g: &Graph, shortcuts: Seq<Shortcut>, k: int, amount_in: nat) -> Option<nat> {
    walk_fixed(g, shortcuts[k].tokens_spec(), shortcuts[k].pools@, amount_in, shortcuts[k].pools@.len())
}

/// `o` is an amount above `tau` times `amount_in`.
pub open spec fn beats_tau(o: Option<nat>, amount_in: nat, tau: (nat, nat)) -> bool {
    match o {
        Some(x) => x * tau.1 > amount_in * tau.0,
        None => false,
    }
}

/// Walking `amount_in` along the path `p` delivers at least `o`.
pub open spec fn delivers_at_least(g: &Graph, p: DiscoveredPath, amount_in: nat, o: nat) -> bool {
    match walk_fixed(g, p.tokens@, p.pools@, amount_in, p.pools@.len()) {
        Some(out) => out >= o,
        None => false,
    }
}

/// No direct hop from `s` to `t` that beats `tau` delivers more than `b`.
spec fn directs_within(
    g: &Graph,
    s: int,
    t: int,
    amount_in: nat,
    tau: (nat, nat),
    used: Seq<bool>,
    max_hops: nat,
    b: nat,
) -> bool {
    forall|i: int|
        max_hops >= 1 && #[trigger] direct_edge(g, s, t, i, used) && beats_tau(direct_out(g, s, t, i, amount_in), amount_in, tau)
            ==> direct_out(g, s, t, i, amount_in).unwrap() <= b
}

/// No shortcut from the hub `s` to `t` that beats `tau` delivers more than
/// `b`.
spec fn shortcuts_within(
    g: &Graph,
    shortcuts: Seq<Shortcut>,
    hub: bool,
    s: int,
    t: int,
    amount_in: nat,
    tau: (nat, nat),
    used: Seq<bool>,
    max_hops: nat,
    b: nat,
) -> bool {
    forall|k: int|
        hub && #[trigger] shortcut_beats(g, shortcuts, k, s, t, amount_in, tau, used, max_hops)
            ==> shortcut_out(g, shortcuts, k, amount_in).unwrap() <= b
}

/// Some queued path from position `lo` on, within the first
/// `SPFA_POP_LIMIT`, is at `t` with at least the amount `a`.
spec fn good_amt(queue: Seq<Entry>, lo: int, t: usize, a: nat) -> bool {
    exists|q: int| lo <= q < queue.len() && q < SPFA_POP_LIMIT && (#[trigger] queue[q]).at == t && queue[q].amount.val() >= a
}

/// Pushing onto the queue keeps a queued path of at least an amount.
proof fn lemma_push_keeps_amt(queue: Seq<Entry>, lo: int, t: usize, a: nat, e: Entry)
    requires
        good_amt(queue, lo, t, a),
        lo >= 0,
    ensures
        good_amt(queue.push(e), lo, t, a),
{
    let q = choose|q: int| lo <= q < queue.len() && q < SPFA_POP_LIMIT && (#[trigger] queue[q]).at == t && queue[q].amount.val() >= a;
    assert(queue.push(e)[q] == queue[q]);
}

/// A queued partial path.
struct Entry {
    at: usize,
    amount: U256,
    tokens: Vec<usize>,
    pools: Vec<usize>,
}

/// Every token but `s` with a best amount has a queued path (after the
/// first) that reached it with that amount.
spec fn best_backed(queue: Seq<Entry>, best: Seq<U256>, s: usize) -> bool {
    forall|v: int|
        0 <= v < best.len() && v != s && (#[trigger] best[v]).val() > 0 ==> exists|q: int|
            1 <= q < queue.len() && (#[trigger] queue[q]).at == v && queue[q].amount.val() == best[v].val()
}

/// Pushing a path that reached `e.at` with `e.amount`, recorded as that
/// token's best, keeps every best backed.
proof fn lemma_push_keeps(queue: Seq<Entry>, best: Seq<U256>, s: usize, e: Entry)
    requires
        best_backed(queue, best, s),
        queue.len() >= 1,
        0 <= e.at < best.len(),
    ensures
        best_backed(queue.push(e), best.update(e.at as int, e.amount), s),
{
    let q2 = queue.push(e);
    let b2 = best.update(e.at as int, e.amount);
    assert forall|v: int| 0 <= v < b2.len() && v != s && (#[trigger] b2[v]).val() > 0 implies exists|q: int|
        1 <= q < q2.len() && (#[trigger] q2[q]).at == v && q2[q].amount.val() == b2[v].val() by {
        if v == e.at as int {
            assert(q2[queue.len() as int] == e);
        } else {
            assert(b2[v] == best[v]);
            let q = choose|q: int| 1 <= q < queue.len() && (#[trigger] queue[q]).at == v && queue[q].amount.val() == best[v].val();
            assert(q2[q] == queue[q]);
        }
    }
}

/// An amount at least one that beats `tau` beats it too.
proof fn lemma_beats_mono(a: nat, b: nat, ain: nat, tau: (nat, nat))
    requires
        a >= b,
        b * tau.1 > ain * tau.0,
    ensures
        a * tau.1 > ain * tau.0,
{
    assert(a * tau.1 >= b * tau.1) by (nonlinear_arith)
        requires
            a >= b,
    ;
}

/// Whether `x` occurs in `p`.
fn on_path(p: &Vec<usize>, x: usize) -> (r: bool)
    ensures
        r == p@.contains(x),
{
    let mut i: usize = 0;
    while i < p.len()
        invariant
            i <= p@.len(),
            forall|j: int| 0 <= j < i ==> p@[j] != x,
        decreases p@.len() - i,
    {
        if p[i] == x {
            assert(p@[i as int] == x);
            return true;
        }
        i = i + 1;
    }
    false
}

/// Appends `more` to a copy of `p`.
fn appended(p: &Vec<usize>, more: &Vec<usize>) -> (r: Vec<usize>)
    ensures
        r@ == p@ + more@,
{
    let mut r = p.clone();
    let mut i: usize = 0;
    while i < more.len()
        invariant
            i <= more@.len(),
            r@ == p@ + more@.subrange(0, i as int),
        decreases more@.len() - i,
    {
        r.push(more[i]);
        i = i + 1;
        assert(r@ =~= p@ + more@.subrange(0, i as int));
    }
    assert(more@.subrange(0, more@.len() as int) =~= more@);
    r
}

/// The shortcuts leaving each token, by position in `shortcuts`.
fn by_origin(n: usize, shortcuts: &Vec<Shortcut>) -> (r: Vec<Vec<usize>>)
    ensures
        r@.len() == n,
        forall|u: int, k: int|
            0 <= u < n && 0 <= k < r@[u]@.len() ==> #[trigger] r@[u]@[k] < shortcuts@.len()
                && shortcuts@[r@[u]@[k] as int].from_hub == u,
        forall|u: int| 0 <= u < n ==> (#[trigger] r@[u])@.len() <= shortcuts@.len(),
        forall|k: int|
            0 <= k < shortcuts@.len() && #[trigger] shortcuts@[k].from_hub < n ==> r@[shortcuts@[k].from_hub as int]@.contains(
                k as usize,
            ),
{
    let mut r: Vec<Vec<usize>> = Vec::new();
    let mut k: usize = 0;
    while k < n
        invariant
            k <= n,
            r@.len() == k,
            forall|u: int| 0 <= u < k ==> #[trigger] r@[u]@.len() == 0,
        decreases n - k,
    {
        r.push(Vec::new());
        k = k + 1;
    }
    let mut i: usize = 0;
    while i < shortcuts.len()
        invariant
            r@.len() == n,
            i <= shortcuts@.len(),
            forall|u: int, k: int|
                0 <= u < n && 0 <= k < r@[u]@.len() ==> #[trigger] r@[u]@[k] < i
                    && shortcuts@[r@[u]@[k] as int].from_hub == u,
            forall|u: int| 0 <= u < n ==> (#[trigger] r@[u])@.len() <= i,
            forall|k: int|
                0 <= k < i && #[trigger] shortcuts@[k].from_hub < n ==> r@[shortcuts@[k].from_hub as int]@.contains(
                    k as usize,
                ),
        decreases shortcuts@.len() - i,
    {
        let f = shortcuts[i].from_hub;
        if f < n {
            let ghost r0 = r@;
            let mut row = r[f].clone();
            row.push(i);
            r.set(f, row);
            proof {
                assert forall|u: int, k: int|
                    0 <= u < n && 0 <= k < r@[u]@.len() implies #[trigger] r@[u]@[k] < i + 1
                        && shortcuts@[r@[u]@[k] as int].from_hub == u by {
                    if u != f as int {
                        assert(r@[u] == r0[u]);
                    } else if k < r0[u]@.len() {
                        assert(r@[u]@[k] == r0[u]@[k]);
                    }
                }
                assert forall|u: int| 0 <= u < n implies (#[trigger] r@[u])@.len() <= i + 1 by {
                    if u != f as int {
                        assert(r@[u] == r0[u]);
                    }
                }
                assert forall|k: int|
                    0 <= k < i + 1 && #[trigger] shortcuts@[k].from_hub < n implies r@[shortcuts@[k].from_hub as int]@.contains(
                        k as usize,
                    ) by {
                    let fk = shortcuts@[k].from_hub as int;
                    if k == i {
                        assert(r@[fk]@[r0[fk]@.len() as int] == i);
                    } else if fk != f as int {
                        assert(r@[fk] == r0[fk]);
                    } else {
                        let z = choose|z: int| 0 <= z < r0[fk]@.len() && r0[fk]@[z] == k as usize;
                        assert(r@[fk]@[z] == r0[fk]@[z]);
                    }
                }
            }
        }
        i = i + 1;
    }
    r
}

/// A route extended by `more_t` and `more_p` from `at`: simple when none of
/// the new tokens is on it and they repeat none, and walked from the start.
proof fn lemma_extend_simple(tp: Seq<usize>, more: Seq<usize>)
    requires
        simple(tp),
        simple(more),
        forall|i: int| 0 <= i < more.len() ==> !tp.contains(#[trigger] more[i]),
    ensures
        simple(tp + more),
{
    let q = tp + more;
    assert forall|i: int, j: int| 0 <= i < j < q.len() implies q[i] != q[j] by {
        if j < tp.len() {
            assert(q[i] == tp[i] && q[j] == tp[j]);
        } else if i < tp.len() {
            assert(q[j] == more[j - tp.len()]);
            assert(q[i] == tp[i]);
            if q[i] == q[j] {
                assert(tp.contains(more[j - tp.len()]));
            }
        } else {
            assert(q[i] == more[i - tp.len()] && q[j] == more[j - tp.len()]);
        }
    }
}

/// Searches, from `s`, the edges between the source, the target and hubs,
/// and the shortcuts (in their given order) out of hubs, for the route to
/// `t` that delivers the most, among those whose realised rate beats `tau`;
/// a partial path goes on only when it reaches its token with more than any
/// earlier one, within `max_hops` hops and on pools that `used` does not
/// mark, and at most `SPFA_POP_LIMIT` partial paths are expanded. A hop
/// whose swap is not computable or yields nothing is not taken. `None` for
/// a zero amount, equal tokens, or no path found. When the first expansion
/// fits in the pop budget, a direct hop or a single shortcut out of `s`
/// that beats `tau` guarantees a path, and the path found delivers at least
/// as much as any of them.
#[verifier::spinoff_prover]
#[verifier::rlimit(80)]
pub fn find_path(
    graph: &Graph,
    hubs: &HubSet,
    shortcuts: &Vec<Shortcut>,
    s: usize,
    t: usize,
    amount_in: U256,
    tau: &Ratio,
    used: &Vec<bool>,
    max_hops: usize,
) -> (r: Option<DiscoveredPath>)
    requires
        graph.wf(),
        s < graph.tokens@.len(),
        t < graph.tokens@.len(),
        used@.len() == graph.pools@.len(),
        tau.den.val() > 0,
        forall|i: int| 0 <= i < shortcuts@.len() ==> shortcut_ok(graph, #[trigger] shortcuts@[i]),
    ensures
        (amount_in.val() == 0 || s == t) ==> r is None,
        forall|i: int|
            (amount_in.val() > 0 && s != t && max_hops >= 1 && graph.adj@[s as int]@.len() + shortcuts@.len()
                < SPFA_POP_LIMIT && #[trigger] direct_edge(graph, s as int, t as int, i, used@) && beats_tau(
                direct_out(graph, s as int, t as int, i, amount_in.val()),
                amount_in.val(),
                tau.parts(),
            )) ==> (r matches Some(p) && delivers_at_least(
                graph,
                p,
                amount_in.val(),
                direct_out(graph, s as int, t as int, i, amount_in.val()).unwrap(),
            )),
        forall|k: int|
            (amount_in.val() > 0 && s != t && hubs.hubs@.contains(s) && graph.adj@[s as int]@.len() + shortcuts@.len()
                < SPFA_POP_LIMIT && #[trigger] shortcut_beats(
                graph,
                shortcuts@,
                k,
                s as int,
                t as int,
                amount_in.val(),
                tau.parts(),
                used@,
                max_hops as nat,
            )) ==> (r matches Some(p) && delivers_at_least(
                graph,
                p,
                amount_in.val(),
                shortcut_out(graph, shortcuts@, k, amount_in.val()).unwrap(),
            )),
        r matches Some(p) ==> discovered_ok(
            graph,
            s as int,
            t as int,
            amount_in.val(),
            tau.parts(),
            used@,
            max_hops as nat,
            p,
        ),
{
    if amount_in.is_zero() || s == t {
        return None;
    }
    proof {
        graph.lemma_adj_ok();
    }
    let n = graph.num_tokens();
    let from_hub = by_origin(n, shortcuts);
    let mut best: Vec<U256> = Vec::new();
    let mut k: usize = 0;
    while k < n
        invariant
            k <= n,
            best@.len() == k,
            forall|v: int| 0 <= v < k ==> (#[trigger] best@[v]).val() == 0,
        decreases n - k,
    {
        best.push(U256::zero());
        k = k + 1;
    }
    best.set(s, amount_in);
    let mut first: Vec<usize> = Vec::new();
    first.push(s);
    let mut queue: Vec<Entry> = Vec::new();
    queue.push(Entry { at: s, amount: amount_in, tokens: first, pools: Vec::new() });
    proof {
        assert(queue@[0].tokens@ =~= seq![s]);
        assert(walk_fixed(graph, seq![s], Seq::<usize>::empty(), amount_in.val(), 0) == Some(amount_in.val()));
    }
    let mut head: usize = 0;
    let mut found: Option<DiscoveredPath> = None;
    let mut found_amount = U256::zero();
    let mut floor = tau.copy();
    let ain = Natural::from_u256(&amount_in);
    let mut pops: usize = 0;
    let ghost mut b0: nat = 0;
    let n_shortcuts = shortcuts.len();
    proof {
        assert forall|v: int| 0 <= v < best@.len() && v != s && (#[trigger] best@[v]).val() > 0 implies exists|q: int|
            1 <= q < queue@.len() && (#[trigger] queue@[q]).at == v && queue@[q].amount.val() == best@[v].val() by {
            assert(best@[v].val() == 0);
        }
    }
    while head < queue.len() && pops < SPFA_POP_LIMIT
        invariant
            head == pops,
            head == 0 ==> queue@.len() == 1 && queue@[0].at == s && queue@[0].tokens@ == seq![s]
                && queue@[0].pools@.len() == 0,
            best_backed(queue@, best@, s),
            head >= 1 ==> forall|i: int|
                max_hops >= 1 && #[trigger] direct_edge(graph, s as int, t as int, i, used@) && beats_tau(
                    direct_out(graph, s as int, t as int, i, amount_in.val()),
                    amount_in.val(),
                    tau.parts(),
                ) ==> direct_out(graph, s as int, t as int, i, amount_in.val()).unwrap() <= b0,
            head >= 1 ==> forall|k: int|
                hubs.hubs@.contains(s) && #[trigger] shortcut_beats(
                    graph,
                    shortcuts@,
                    k,
                    s as int,
                    t as int,
                    amount_in.val(),
                    tau.parts(),
                    used@,
                    max_hops as nat,
                ) ==> shortcut_out(graph, shortcuts@, k, amount_in.val()).unwrap() <= b0,
            (head >= 1 && b0 > 0 && graph.adj@[s as int]@.len() + shortcuts@.len() < SPFA_POP_LIMIT && b0 * tau.den.val()
                > amount_in.val() * tau.num.val()) ==> (found_amount.val() >= b0 || good_amt(queue@, head as int, t, b0)),
            graph.wf(),
            n == graph.tokens@.len(),
            s < n,
            t < n,
            s != t,
            amount_in.val() > 0,
            ain.val() == amount_in.val(),
            used@.len() == graph.pools@.len(),
            tau.den.val() > 0,
            best@.len() == n,
            from_hub@.len() == n,
            forall|u: int, k: int|
                0 <= u < n && 0 <= k < from_hub@[u]@.len() ==> #[trigger] from_hub@[u]@[k] < shortcuts@.len()
                    && shortcuts@[from_hub@[u]@[k] as int].from_hub == u,
            forall|u: int| 0 <= u < n ==> (#[trigger] from_hub@[u])@.len() <= shortcuts@.len(),
            forall|k: int|
                0 <= k < shortcuts@.len() && #[trigger] shortcuts@[k].from_hub < n ==> from_hub@[shortcuts@[k].from_hub as int]@.contains(
                    k as usize,
                ),
            n_shortcuts == shortcuts@.len(),
            forall|i: int| 0 <= i < shortcuts@.len() ==> shortcut_ok(graph, #[trigger] shortcuts@[i]),
            forall|uu: int, ii: int|
                0 <= uu < graph.adj@.len() && 0 <= ii < graph.adj@[uu]@.len() ==> graph.edge_ok(
                    uu,
                    #[trigger] graph.adj@[uu]@[ii],
                ),
            forall|q: int|
                0 <= q < queue@.len() ==> partial_ok(
                    graph,
                    s as int,
                    amount_in.val(),
                    used@,
                    max_hops as nat,
                    (#[trigger] queue@[q]).at as int,
                    queue@[q].tokens@,
                    queue@[q].pools@,
                    queue@[q].amount.val(),
                ),
            floor.den.val() > 0,
            found is None ==> floor.num.val() == tau.num.val() && floor.den.val() == tau.den.val()
                && found_amount.val() == 0,
            found matches Some(p) ==> {
                &&& floor.num.val() == found_amount.val()
                &&& floor.den.val() == amount_in.val()
                &&& partial_ok(graph, s as int, amount_in.val(), used@, max_hops as nat, t as int, p.tokens@, p.pools@, found_amount.val())
                &&& p.pools@.len() >= 1
                &&& found_amount.val() * tau.den.val() > amount_in.val() * tau.num.val()
            },
        decreases SPFA_POP_LIMIT - pops,
    {
        pops = pops + 1;
        let u = queue[head].at;
        let amount_at_u = queue[head].amount;
        let cur_tokens = queue[head].tokens.clone();
        let cur_pools = queue[head].pools.clone();
        proof {
            assert(partial_ok(graph, s as int, amount_in.val(), used@, max_hops as nat, u as int, cur_tokens@, cur_pools@, amount_at_u.val()));
        }
        let ghost head0 = head as int;
        let ghost q_len0 = queue@.len();
        head = head + 1;
        let ghost wants = head0 >= 1 && b0 > 0 && graph.adj@[s as int]@.len() + shortcuts@.len() < SPFA_POP_LIMIT
            && b0 * tau.den.val() > amount_in.val() * tau.num.val() && found_amount.val() < b0;
        proof {
            if wants && u != t {
                let q = choose|q: int|
                    head0 <= q < queue@.len() && q < SPFA_POP_LIMIT && (#[trigger] queue@[q]).at == t
                        && queue@[q].amount.val() >= b0;
                assert(q != head0);
                assert(good_amt(queue@, head0 + 1, t, b0));
            }
        }
        if u == t {
            let mp = Ratio::new(Natural::from_u256(&amount_at_u), ain.copy());
            let ghost fa0 = found_amount.val();
            let ghost hit_t = wants && amount_at_u.val() >= b0;
            proof {
                if hit_t {
                    lemma_beats_mono(amount_at_u.val(), b0, amount_in.val(), tau.parts());
                }
            }
            if !(mp.gt(&floor) && amount_at_u.gt(&found_amount)) {
                proof {
                    if hit_t {
                        let a = amount_at_u.val();
                        let x = amount_in.val();
                        assert(a > fa0);
                        if found is None {
                            assert(a * tau.den.val() <= tau.num.val() * x);
                            assert(false) by (nonlinear_arith)
                                requires
                                    a * tau.den.val() <= tau.num.val() * x,
                                    a * tau.den.val() > x * tau.num.val(),
                            ;
                        } else {
                            assert(a * x <= fa0 * x);
                            assert(false) by (nonlinear_arith)
                                requires
                                    a * x <= fa0 * x,
                                    a > fa0,
                                    x > 0,
                            ;
                        }
                    }
                    if wants && !hit_t {
                        let q = choose|q: int|
                            head0 <= q < queue@.len() && q < SPFA_POP_LIMIT && (#[trigger] queue@[q]).at == t
                                && queue@[q].amount.val() >= b0;
                        assert(q != head0);
                        assert(good_amt(queue@, head0 + 1, t, b0));
                    }
                }
            }
            if mp.gt(&floor) && amount_at_u.gt(&found_amount) {
                proof {
                    if wants && !hit_t {
                        let q = choose|q: int|
                            head0 <= q < queue@.len() && q < SPFA_POP_LIMIT && (#[trigger] queue@[q]).at == t
                                && queue@[q].amount.val() >= b0;
                        assert(q != head0);
                        assert(good_amt(queue@, head0 + 1, t, b0));
                    }
                }
                proof {
                    let a = amount_at_u.val();
                    let x = amount_in.val();
                    if found is None {
                        assert(a * tau.den.val() > tau.num.val() * x);
                        assert(a * tau.den.val() > x * tau.num.val()) by (nonlinear_arith)
                            requires
                                a * tau.den.val() > tau.num.val() * x,
                        ;
                    }
                    if found is Some {
                        let b = found_amount.val();
                        assert(a * x > b * x);
                        assert(b * tau.den.val() > x * tau.num.val());
                        assert(a * tau.den.val() > x * tau.num.val()) by (nonlinear_arith)
                            requires
                                a * x > b * x,
                                b * tau.den.val() > x * tau.num.val(),
                                x > 0,
                        ;
                    }
                    assert(cur_pools@.len() >= 1) by {
                        if cur_pools@.len() == 0 {
                            assert(cur_tokens@.len() == 1);
                            assert(cur_tokens@[0] == s);
                        }
                    }
                }
                found_amount = amount_at_u;
                floor = mp;
                let ft = cur_tokens.clone();
                let fp = cur_pools.clone();
                assert(ft@ == cur_tokens@ && fp@ == cur_pools@);
                found = Some(DiscoveredPath { tokens: ft, pools: fp });
            }
            proof {
                assert(head0 >= 1) by {
                    if head0 == 0 {
                        assert(queue@[0].at == s);
                    }
                }
            }
        } else if cur_pools.len() < max_hops {
            let edges = &graph.adj[u];
            let mut i: usize = 0;
            while i < edges.len()
                invariant
                    graph.wf(),
                    n == graph.tokens@.len(),
                    u < n,
                    edges@ == graph.adj@[u as int]@,
                    i <= edges@.len(),
                    used@.len() == graph.pools@.len(),
                    best@.len() == n,
                    cur_pools@.len() < max_hops,
                    partial_ok(graph, s as int, amount_in.val(), used@, max_hops as nat, u as int, cur_tokens@, cur_pools@, amount_at_u.val()),
                    queue@.len() >= 1,
                    s != t,
                    t < n,
                    s < n,
                    amount_in.val() > 0,
                    best_backed(queue@, best@, s),
                    head0 == 0 ==> u == s && cur_tokens@ == seq![s] && cur_pools@.len() == 0 && queue@.len() <= 1 + i,
                    head0 >= 0,
                    (head0 >= 1 && wants) ==> good_amt(queue@, head0 + 1, t, b0),
                    head0 == 0 ==> forall|ii: int|
                        0 <= ii < i && max_hops >= 1 && #[trigger] direct_edge(graph, s as int, t as int, ii, used@) && beats_tau(
                            direct_out(graph, s as int, t as int, ii, amount_in.val()),
                            amount_in.val(),
                            tau.parts(),
                        ) ==> direct_out(graph, s as int, t as int, ii, amount_in.val()).unwrap() <= best@[t as int].val(),
                    forall|uu: int, ii: int|
                        0 <= uu < graph.adj@.len() && 0 <= ii < graph.adj@[uu]@.len() ==> graph.edge_ok(
                            uu,
                            #[trigger] graph.adj@[uu]@[ii],
                        ),
                    forall|q: int|
                        0 <= q < queue@.len() ==> partial_ok(
                            graph,
                            s as int,
                            amount_in.val(),
                            used@,
                            max_hops as nat,
                            (#[trigger] queue@[q]).at as int,
                            queue@[q].tokens@,
                            queue@[q].pools@,
                            queue@[q].amount.val(),
                        ),
                decreases edges@.len() - i,
            {
                let edge = edges[i];
                proof {
                    assert(graph.edge_ok(u as int, graph.adj@[u as int]@[i as int]));
                }
                let ghost di = head0 == 0 && max_hops >= 1 && direct_edge(graph, s as int, t as int, i as int, used@)
                    && beats_tau(direct_out(graph, s as int, t as int, i as int, amount_in.val()), amount_in.val(), tau.parts());
                let ghost bt0 = best@[t as int].val();
                let to = edge.to;
                let allowed = to == s || to == t || hubs.contains(to);
                if allowed && !used[edge.pool] && !on_path(&cur_tokens, to) {
                    let mut tokens = cur_tokens.clone();
                    tokens.push(to);
                    let mut pools = cur_pools.clone();
                    pools.push(edge.pool);
                    proof {
                        lemma_extend_simple(cur_tokens@, seq![to]);
                        assert(cur_tokens@ + seq![to] =~= tokens@);
                        assert(route_in_graph(graph, tokens@, pools@)) by {
                            assert forall|x: int| 0 <= x < tokens@.len() implies #[trigger] tokens@[x] < graph.tokens@.len() by {
                                if x < cur_tokens@.len() {
                                    assert(tokens@[x] == cur_tokens@[x]);
                                }
                            }
                            assert forall|x: int| 0 <= x < pools@.len() implies #[trigger] pools@[x] < graph.pools@.len() by {
                                if x < cur_pools@.len() {
                                    assert(pools@[x] == cur_pools@[x]);
                                }
                            }
                        }
                    }
                    let ghost tokens_v = tokens@;
                    let ghost pools_v = pools@;
                    match walk_pool_path(graph, tokens.as_slice(), pools.as_slice(), amount_in) {
                        None => {
                            proof {
                                if di {
                                    assert(tokens_v =~= seq![s, t]);
                                    assert(pools_v =~= seq![graph.adj@[s as int]@[i as int].pool]);
                                    assert(false);
                                }
                            }
                        },
                        Some((out, _)) => {
                            if out.gt(&best[to]) {
                                let ghost best0 = best@;
                                best.set(to, out);
                                let ghost q0 = queue@;
                                proof {
                                    assert forall|x: int| 0 <= x < pools@.len() implies !used@[#[trigger] pools@[x] as int] by {
                                        if x < cur_pools@.len() {
                                            assert(pools@[x] == cur_pools@[x]);
                                        }
                                    }
                                }
                                queue.push(Entry { at: to, amount: out, tokens, pools });
                                proof {
                                    assert forall|q: int| 0 <= q < queue@.len() implies partial_ok(
                                        graph,
                                        s as int,
                                        amount_in.val(),
                                        used@,
                                        max_hops as nat,
                                        (#[trigger] queue@[q]).at as int,
                                        queue@[q].tokens@,
                                        queue@[q].pools@,
                                        queue@[q].amount.val(),
                                    ) by {
                                        if q < q0.len() {
                                            assert(queue@[q] == q0[q]);
                                        }
                                    }
                                    let en = queue@[q0.len() as int];
                                    assert(queue@ == q0.push(en));
                                    assert(best@ == best0.update(to as int, out));
                                    lemma_push_keeps(q0, best0, s, en);
                                    if head0 >= 1 && wants {
                                        lemma_push_keeps_amt(q0, head0 + 1, t, b0, en);
                                    }
                                    assert(best@[t as int].val() >= bt0);
                                    if di {
                                        assert(tokens_v =~= seq![s, t]);
                                        assert(pools_v =~= seq![graph.adj@[s as int]@[i as int].pool]);
                                        assert(best@[t as int].val() == out.val());
                                    }
                                }
                            } else {
                                proof {
                                    if di {
                                        assert(tokens_v =~= seq![s, t]);
                                        assert(pools_v =~= seq![graph.adj@[s as int]@[i as int].pool]);
                                    }
                                }
                            }
                        },
                    }
                } else {
                    proof {
                        if di {
                            assert(!cur_tokens@.contains(t)) by {
                                assert(cur_tokens@ == seq![s]);
                            }
                            assert(false);
                        }
                    }
                }
                i = i + 1;
            }
            proof {
                if head0 == 0 {
                    assert(directs_within(graph, s as int, t as int, amount_in.val(), tau.parts(), used@, max_hops as nat, best@[t as int].val()));
                }
            }
            if hubs.contains(u) {
                let idxs = &from_hub[u];
                let mut j: usize = 0;
                while j < idxs.len()
                    invariant
                        graph.wf(),
                        n == graph.tokens@.len(),
                        u < n,
                        idxs@ == from_hub@[u as int]@,
                        j <= idxs@.len(),
                        used@.len() == graph.pools@.len(),
                        best@.len() == n,
                        partial_ok(graph, s as int, amount_in.val(), used@, max_hops as nat, u as int, cur_tokens@, cur_pools@, amount_at_u.val()),
                        forall|k: int|
                            0 <= k < idxs@.len() ==> #[trigger] idxs@[k] < shortcuts@.len()
                                && shortcuts@[idxs@[k] as int].from_hub == u,
                        forall|x: int| 0 <= x < shortcuts@.len() ==> shortcut_ok(graph, #[trigger] shortcuts@[x]),
                        queue@.len() >= 1,
                        best_backed(queue@, best@, s),
                        head0 >= 0,
                        s < n,
                        head0 == 0 ==> queue@.len() <= 1 + graph.adj@[s as int]@.len() + j,
                        idxs@.len() <= shortcuts@.len(),
                        head0 == 0 ==> u == s && cur_tokens@ == seq![s] && cur_pools@.len() == 0,
                        n_shortcuts == shortcuts@.len(),
                        (head0 >= 1 && wants) ==> good_amt(queue@, head0 + 1, t, b0),
                        head0 == 0 ==> forall|ii: int|
                            max_hops >= 1 && #[trigger] direct_edge(graph, s as int, t as int, ii, used@) && beats_tau(
                                direct_out(graph, s as int, t as int, ii, amount_in.val()),
                                amount_in.val(),
                                tau.parts(),
                            ) ==> direct_out(graph, s as int, t as int, ii, amount_in.val()).unwrap() <= best@[t as int].val(),
                        head0 == 0 ==> forall|jj: int|
                            0 <= jj < j && hubs.hubs@.contains(s) && #[trigger] shortcut_beats(
                                graph,
                                shortcuts@,
                                idxs@[jj] as int,
                                s as int,
                                t as int,
                                amount_in.val(),
                                tau.parts(),
                                used@,
                                max_hops as nat,
                            ) ==> shortcut_out(graph, shortcuts@, idxs@[jj] as int, amount_in.val()).unwrap() <= best@[t as int].val(),
                        s != t,
                        t < n,
                        amount_in.val() > 0,
                        forall|q: int|
                            0 <= q < queue@.len() ==> partial_ok(
                                graph,
                                s as int,
                                amount_in.val(),
                                used@,
                                max_hops as nat,
                                (#[trigger] queue@[q]).at as int,
                                queue@[q].tokens@,
                                queue@[q].pools@,
                                queue@[q].amount.val(),
                            ),
                    decreases idxs@.len() - j,
                {
                    let sc = &shortcuts[idxs[j]];
                    proof {
                        assert(shortcut_ok(graph, shortcuts@[idxs@[j as int] as int]));
                    }
                    let mut clear = true;
                    let mut x: usize = 0;
                    while x < sc.pools.len()
                        invariant
                            x <= sc.pools@.len(),
                            used@.len() == graph.pools@.len(),
                            route_in_graph(graph, sc.tokens_spec(), sc.pools@),
                            clear ==> forall|y: int| 0 <= y < x ==> !used@[#[trigger] sc.pools@[y] as int],
                            (forall|y: int| 0 <= y < sc.pools@.len() ==> !used@[#[trigger] sc.pools@[y] as int]) ==> clear,
                        decreases sc.pools@.len() - x,
                    {
                        if used[sc.pools[x]] {
                            clear = false;
                        }
                        x = x + 1;
                    }
                    let mut more = sc.intermediate_tokens.clone();
                    more.push(sc.to_hub);
                    let mut fresh = true;
                    let mut y: usize = 0;
                    while y < more.len()
                        invariant
                            y <= more@.len(),
                            fresh ==> forall|z: int| 0 <= z < y ==> !cur_tokens@.contains(#[trigger] more@[z]),
                            (forall|z: int| 0 <= z < more@.len() ==> !cur_tokens@.contains(#[trigger] more@[z])) ==> fresh,
                        decreases more@.len() - y,
                    {
                        if on_path(&cur_tokens, more[y]) {
                            fresh = false;
                        }
                        y = y + 1;
                    }
                    let ghost kj = idxs@[j as int] as int;
                    let ghost sh = head0 == 0 && hubs.hubs@.contains(s) && shortcut_beats(
                        graph,
                        shortcuts@,
                        kj,
                        s as int,
                        t as int,
                        amount_in.val(),
                        tau.parts(),
                        used@,
                        max_hops as nat,
                    );
                    let ghost bt0 = best@[t as int].val();
                    proof {
                        if sh {
                            let st = sc.tokens_spec();
                            assert(sc == shortcuts@[kj]);
                            assert(st =~= seq![sc.from_hub] + more@);
                            assert forall|z: int| 0 <= z < more@.len() implies !cur_tokens@.contains(#[trigger] more@[z]) by {
                                assert(more@[z] == st[z + 1]);
                                assert(st[0] == s);
                                assert(st[z + 1] != st[0]);
                                if cur_tokens@.contains(more@[z]) {
                                    let w = choose|w: int| 0 <= w < cur_tokens@.len() && cur_tokens@[w] == more@[z];
                                    assert(cur_tokens@[w] == s);
                                }
                            }
                            assert(fresh);
                            assert(clear);
                            assert(sc.pools@.len() >= 1);
                        }
                    }
                    if clear && fresh && cur_pools.len() <= max_hops && sc.pools.len() <= max_hops - cur_pools.len() {
                        let tokens = appended(&cur_tokens, &more);
                        let pools = appended(&cur_pools, &sc.pools);
                        let target = sc.to_hub;
                        proof {
                            let st = sc.tokens_spec();
                            assert(st =~= seq![sc.from_hub] + more@);
                            assert(simple(more@)) by {
                                assert forall|a: int, b: int| 0 <= a < b < more@.len() implies more@[a] != more@[b] by {
                                    assert(more@[a] == st[a + 1] && more@[b] == st[b + 1]);
                                }
                            }
                            lemma_extend_simple(cur_tokens@, more@);
                            assert(route_in_graph(graph, tokens@, pools@)) by {
                                assert forall|z: int| 0 <= z < tokens@.len() implies #[trigger] tokens@[z] < graph.tokens@.len() by {
                                    if z < cur_tokens@.len() {
                                        assert(tokens@[z] == cur_tokens@[z]);
                                    } else {
                                        assert(tokens@[z] == st[z - cur_tokens@.len() + 1]);
                                    }
                                }
                                assert forall|z: int| 0 <= z < pools@.len() implies #[trigger] pools@[z] < graph.pools@.len() by {
                                    if z < cur_pools@.len() {
                                        assert(pools@[z] == cur_pools@[z]);
                                    } else {
                                        assert(pools@[z] == sc.pools@[z - cur_pools@.len()]);
                                    }
                                }
                            }
                            assert(tokens@.len() == pools@.len() + 1);
                            assert(tokens@.last() == target) by {
                                assert(more@.last() == target);
                            }
                            assert(target < n) by {
                                assert(st[st.len() - 1] == target);
                            }
                            assert(tokens@[0] == s) by {
                                assert(tokens@[0] == cur_tokens@[0]);
                            }
                            assert forall|z: int| 0 <= z < pools@.len() implies !used@[#[trigger] pools@[z] as int] by {
                                if z < cur_pools@.len() {
                                    assert(pools@[z] == cur_pools@[z]);
                                } else {
                                    assert(pools@[z] == sc.pools@[z - cur_pools@.len()]);
                                }
                            }
                        }
                        let ghost tokens_v = tokens@;
                        let ghost pools_v = pools@;
                        proof {
                            if sh {
                                assert(tokens_v =~= sc.tokens_spec());
                                assert(pools_v =~= sc.pools@);
                            }
                        }
                        match walk_pool_path(graph, tokens.as_slice(), pools.as_slice(), amount_in) {
                            None => {
                                proof {
                                    if sh {
                                        assert(false);
                                    }
                                }
                            },
                            Some((out, _)) => {
                                if out.gt(&best[target]) {
                                    let ghost best0 = best@;
                                    best.set(target, out);
                                    let ghost q0 = queue@;
                                    queue.push(Entry { at: target, amount: out, tokens, pools });
                                    proof {
                                        let en = queue@[q0.len() as int];
                                        assert(queue@ == q0.push(en));
                                        assert(best@ == best0.update(target as int, out));
                                        lemma_push_keeps(q0, best0, s, en);
                                        if head0 >= 1 && wants {
                                            lemma_push_keeps_amt(q0, head0 + 1, t, b0, en);
                                        }
                                        assert(best@[t as int].val() >= bt0);
                                        if sh {
                                            assert(target == t);
                                            assert(best@[t as int].val() == out.val());
                                        }
                                    }
                                    proof {
                                        assert forall|q: int| 0 <= q < queue@.len() implies partial_ok(
                                            graph,
                                            s as int,
                                            amount_in.val(),
                                            used@,
                                            max_hops as nat,
                                            (#[trigger] queue@[q]).at as int,
                                            queue@[q].tokens@,
                                            queue@[q].pools@,
                                            queue@[q].amount.val(),
                                        ) by {
                                            if q < q0.len() {
                                                assert(queue@[q] == q0[q]);
                                            }
                                        }
                                    }
                                } else {
                                    proof {
                                        if sh {
                                            assert(target == t);
                                        }
                                    }
                                }
                            },
                        }
                    } else {
                        proof {
                            if sh {
                                assert(false);
                            }
                        }
                    }
                    j = j + 1;
                }
                proof {
                    if head0 == 0 {
                        assert forall|k: int|
                            hubs.hubs@.contains(s) && #[trigger] shortcut_beats(
                                graph,
                                shortcuts@,
                                k,
                                s as int,
                                t as int,
                                amount_in.val(),
                                tau.parts(),
                                used@,
                                max_hops as nat,
                            ) implies shortcut_out(graph, shortcuts@, k, amount_in.val()).unwrap() <= best@[t as int].val() by {
                            assert(shortcuts@[k].from_hub < n);
                            assert(from_hub@[s as int]@.contains(k as usize));
                            assert(idxs@ == from_hub@[s as int]@);
                            let jj = choose|jj: int| 0 <= jj < idxs@.len() && idxs@[jj] == k as usize;
                            assert(idxs@[jj] as int == k);
                            assert(shortcut_beats(
                                graph,
                                shortcuts@,
                                idxs@[jj] as int,
                                s as int,
                                t as int,
                                amount_in.val(),
                                tau.parts(),
                                used@,
                                max_hops as nat,
                            ));
                        }
                        assert(directs_within(graph, s as int, t as int, amount_in.val(), tau.parts(), used@, max_hops as nat, best@[t as int].val()));
                    }
                }
            }
            proof {
                if head0 == 0 {
                    assert(shortcuts_within(graph, shortcuts@, hubs.hubs@.contains(s), s as int, t as int, amount_in.val(), tau.parts(), used@, max_hops as nat, best@[t as int].val()));
                    assert(queue@.len() <= 1 + graph.adj@[s as int]@.len() + shortcuts@.len());
                }
            }
        } else {
            proof {
                if head0 == 0 {
                    assert(max_hops == 0);
                    assert forall|k: int|
                        hubs.hubs@.contains(s) && #[trigger] shortcut_beats(
                            graph,
                            shortcuts@,
                            k,
                            s as int,
                            t as int,
                            amount_in.val(),
                            tau.parts(),
                            used@,
                            max_hops as nat,
                        ) implies shortcut_out(graph, shortcuts@, k, amount_in.val()).unwrap() <= best@[t as int].val() by {
                        assert(shortcut_ok(graph, shortcuts@[k]));
                        assert(shortcuts@[k].tokens_spec().len() >= 2);
                    }
                    assert(shortcuts_within(graph, shortcuts@, hubs.hubs@.contains(s), s as int, t as int, amount_in.val(), tau.parts(), used@, max_hops as nat, best@[t as int].val()));
                    assert(directs_within(graph, s as int, t as int, amount_in.val(), tau.parts(), used@, max_hops as nat, best@[t as int].val()));
                }
            }
        }
        proof {
            if head0 == 0 {
                b0 = best@[t as int].val();
                if b0 > 0 && graph.adj@[s as int]@.len() + shortcuts@.len() < SPFA_POP_LIMIT {
                    let q = choose|q: int|
                        1 <= q < queue@.len() && (#[trigger] queue@[q]).at == t && queue@[q].amount.val() == best@[t as int].val();
                    assert(good_amt(queue@, 1, t, b0));
                }
            }
        }
    }
    proof {
        assert(head >= 1);
        let x = amount_in.val();
        assert forall|i: int|
            (max_hops >= 1 && graph.adj@[s as int]@.len() + shortcuts@.len() < SPFA_POP_LIMIT
                && #[trigger] direct_edge(graph, s as int, t as int, i, used@) && beats_tau(
                direct_out(graph, s as int, t as int, i, x),
                x,
                tau.parts(),
            )) implies (found matches Some(p) && delivers_at_least(graph, p, x, direct_out(graph, s as int, t as int, i, x).unwrap())) by {
            let o = direct_out(graph, s as int, t as int, i, x).unwrap();
            lemma_beats_mono(b0, o, x, tau.parts());
            assert(o > 0) by (nonlinear_arith)
                requires
                    o * tau.den.val() > x * tau.num.val(),
            ;
            assert(found_amount.val() >= b0);
        }
        assert forall|k: int|
            (hubs.hubs@.contains(s) && graph.adj@[s as int]@.len() + shortcuts@.len() < SPFA_POP_LIMIT
                && #[trigger] shortcut_beats(graph, shortcuts@, k, s as int, t as int, x, tau.parts(), used@, max_hops as nat))
                implies (found matches Some(p) && delivers_at_least(graph, p, x, shortcut_out(graph, shortcuts@, k, x).unwrap())) by {
            let o = shortcut_out(graph, shortcuts@, k, x).unwrap();
            lemma_beats_mono(b0, o, x, tau.parts());
            assert(o > 0) by (nonlinear_arith)
                requires
                    o * tau.den.val() > x * tau.num.val(),
            ;
            assert(found_amount.val() >= b0);
        }
    }
    found
}

} // verus!
