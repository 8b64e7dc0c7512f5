//! Routing algorithms and their shared result vocabulary.
use crate::address::Address;
use crate::graph::Graph;
use crate::algo::path::{replay, route_rate, walk_best};
use crate::ratio::Ratio;
use crate::trace::Step;
use crate::uint::U256;
use gas::{gas_cost_spec, gas_units_spec};
use vstd::prelude::*;

pub mod bellman_ford;
pub mod best_walk;
pub mod bf_best;
pub mod bf_gain;
pub mod bf_sweeps;
pub mod amount_aware;
pub mod arb_scan;
pub mod bounded_bf;
pub mod cycle_replay;
pub mod direct_floor;
pub mod dijkstra;
pub mod dijkstra_run;
pub mod gas;
pub mod knapsack;
pub mod path;
pub mod prime;
pub mod replay;
pub mod split_common;
pub mod split_dp;
pub mod split_fw;
pub mod split_sums;

pub use gas::GasModel;

verus! {

/// The routing algorithms the library offers.
#[derive(Debug, Clone, Copy, PartialEq, Eq, Structural)]
pub enum Algorithm {
    Dijkstra,
    BellmanFord,
    AmountAware,
    SplitDp,
    SplitFw,
    Prime,
}

/// One leg of a split route: `amount_in` across legs sums to the user's
/// total and `amount_out` across legs to the realised output.
#[derive(Debug, Clone, PartialEq, Eq)]
pub struct Leg {
    pub path: Vec<Address>,
    pub pools_used: Vec<Address>,
    pub amount_in: U256,
    pub amount_out: U256,
}

/// What a routing query found.
#[derive(Debug, Clone, PartialEq, Eq)]
pub enum Outcome {
    /// A single route. `product_of_rates` is the exact product of the hops'
    /// marginal rates; `amount_out` is the gross output before gas and
    /// `gas_cost` the gas in destination base units (zero when gas is off).
    Found {
        path: Vec<Address>,
        pools_used: Vec<Address>,
        product_of_rates: Ratio,
        amount_in: U256,
        amount_out: U256,
        gas_cost: U256,
    },
    /// A route split over several legs.
    FoundSplit { legs: Vec<Leg>, amount_in: U256, amount_out: U256, gas_cost: U256 },
    /// A profitable cycle: trading `amount_in` once around it yields
    /// `cycle_output`.
    NegativeCycle {
        cycle: Vec<Address>,
        pools_used: Vec<Address>,
        product_of_rates: Ratio,
        amount_in: U256,
        cycle_output: U256,
        gas_cost: U256,
    },
    NoPath,
}

/// An outcome with the trace of events that led to it.
#[derive(Debug, Clone, PartialEq, Eq)]
pub struct SolveResult {
    pub outcome: Outcome,
    pub trace: Vec<Step>,
}

/// Options of a routing query.
#[derive(Debug, Clone, Copy, PartialEq, Eq, Structural)]
pub struct SolveOptions {
    /// Whether to collect a trace; off is cheap on big graphs.
    pub with_trace: bool,
    /// When enabled, algorithms optimise net of gas instead of gross.
    pub gas: GasModel,
}

impl Default for SolveOptions {
    fn default() -> (r: Self)
        ensures
            r.with_trace,
            r.gas.gas_price_wei == 0,
    {
        SolveOptions { with_trace: true, gas: GasModel::off() }
    }
}

/// Collects trace events when enabled; pushing is a no-op otherwise.
#[derive(Debug)]
pub struct Tracer {
    steps: Option<Vec<Step>>,
}

impl Tracer {
    /// Whether events are collected.
    pub closed spec fn enabled(&self) -> bool {
        self.steps is Some
    }

    /// The events collected so far.
    pub closed spec fn events(&self) -> Seq<Step> {
        match self.steps {
            Some(v) => v@,
            None => Seq::empty(),
        }
    }

    /// An empty tracer, collecting when `enabled`.
    pub fn new(enabled: bool) -> (r: Self)
        ensures
            r.enabled() == enabled,
            r.events() == Seq::<Step>::empty(),
    {
        Tracer {
            steps: if enabled {
                Some(Vec::new())
            } else {
                None
            },
        }
    }

    /// As `new`, reserving room for `cap` events.
    pub fn with_capacity(enabled: bool, cap: usize) -> (r: Self)
        ensures
            r.enabled() == enabled,
            r.events() == Seq::<Step>::empty(),
    {
        Tracer {
            steps: if enabled {
                Some(Vec::with_capacity(cap))
            } else {
                None
            },
        }
    }

    /// Records `step` when enabled.
    pub fn push(&mut self, step: Step)
        ensures
            final(self).enabled() == old(self).enabled(),
            final(self).events() == if old(self).enabled() {
                old(self).events().push(step)
            } else {
                old(self).events()
            },
    {
        match &mut self.steps {
            Some(v) => v.push(step),
            None => {},
        }
    }

    /// The collected events; empty when disabled.
    pub fn into_vec(self) -> (r: Vec<Step>)
        ensures
            r@ == self.events(),
    {
        match self.steps {
            Some(v) => v,
            None => Vec::new(),
        }
    }
}

/// Gas cost, in base units of token `token`, of a one-leg route of `hops`
/// hops.
pub open spec fn route_gas(g: &Graph, gas: GasModel, hops: nat, token: int) -> nat {
    gas_cost_spec(
        gas.gas_price_wei as nat,
        gas_units_spec(gas.enabled_spec(), 1, hops),
        g.tokens@[token].true_price_pico_usd as nat,
        g.tokens@[token].decimals as nat,
    )
}

/// Addresses of the tokens at indices `tp`.
pub open spec fn token_addrs(g: &Graph, tp: Seq<usize>) -> Seq<Address> {
    tp.map_values(|i: usize| g.tokens@[i as int].address)
}

/// Addresses of the pools at indices `ps`.
pub open spec fn pool_addrs(g: &Graph, ps: Seq<usize>) -> Seq<Address> {
    ps.map_values(|p: usize| g.pools@[p as int].address)
}

/// `o` reports the route along the token indices `tp`, walked with the
/// best pool per hop for `amount_in`; `NoPath` exactly when that walk finds
/// a hop with no computable swap.
pub open spec fn reports_route(g: &Graph, o: Outcome, tp: Seq<usize>, amount_in: U256, gas: GasModel) -> bool {
    match walk_best(g, tp, amount_in.val(), (tp.len() - 1) as nat) {
        None => o is NoPath,
        Some((ps, a)) => match o {
            Outcome::Found { path, pools_used, product_of_rates, amount_in: given, amount_out, gas_cost } => {
                &&& path@ == token_addrs(g, tp)
                &&& pools_used@ == pool_addrs(g, ps)
                &&& product_of_rates.num.val() == route_rate(g.tokens@, g.pools@, tp, ps, ps.len()).0
                &&& product_of_rates.den.val() == route_rate(g.tokens@, g.pools@, tp, ps, ps.len()).1
                &&& given == amount_in
                &&& amount_out.val() == a
                &&& gas_cost.val() == route_gas(g, gas, ps.len(), tp.last() as int)
            },
            _ => false,
        },
    }
}

/// `o` is the trivial route that stays at `src`: no hops, rate one, the
/// input handed back and no gas.
pub open spec fn reports_singleton(o: Outcome, src: Address, amount_in: U256) -> bool {
    match o {
        Outcome::Found { path, pools_used, product_of_rates, amount_in: given, amount_out, gas_cost } => {
            &&& path@ == seq![src]
            &&& pools_used@.len() == 0
            &&& product_of_rates.num.val() == 1
            &&& product_of_rates.den.val() == 1
            &&& given == amount_in
            &&& amount_out == amount_in
            &&& gas_cost.val() == 0
        },
        _ => false,
    }
}

/// Addresses of the tokens at indices `tp`.
pub fn token_addresses(g: &Graph, tp: &Vec<usize>) -> (r: Vec<Address>)
    requires
        forall|i: int| 0 <= i < tp@.len() ==> #[trigger] tp@[i] < g.tokens@.len(),
    ensures
        r@ == token_addrs(g, tp@),
{
    let mut r: Vec<Address> = Vec::new();
    let mut i: usize = 0;
    while i < tp.len()
        invariant
            i <= tp@.len(),
            forall|j: int| 0 <= j < tp@.len() ==> #[trigger] tp@[j] < g.tokens@.len(),
            r@ == token_addrs(g, tp@.subrange(0, i as int)),
        decreases tp@.len() - i,
    {
        r.push(g.address_of(tp[i]));
        i = i + 1;
        assert(r@ =~= token_addrs(g, tp@.subrange(0, i as int)));
    }
    assert(tp@.subrange(0, tp@.len() as int) =~= tp@);
    r
}

/// Addresses of the pools at indices `ps`.
pub fn pool_addresses(g: &Graph, ps: &Vec<usize>) -> (r: Vec<Address>)
    requires
        forall|i: int| 0 <= i < ps@.len() ==> #[trigger] ps@[i] < g.pools@.len(),
    ensures
        r@ == pool_addrs(g, ps@),
{
    let mut r: Vec<Address> = Vec::new();
    let mut i: usize = 0;
    while i < ps.len()
        invariant
            i <= ps@.len(),
            forall|j: int| 0 <= j < ps@.len() ==> #[trigger] ps@[j] < g.pools@.len(),
            r@ == pool_addrs(g, ps@.subrange(0, i as int)),
        decreases ps@.len() - i,
    {
        r.push(g.pools[ps[i]].address);
        i = i + 1;
        assert(r@ =~= pool_addrs(g, ps@.subrange(0, i as int)));
    }
    assert(ps@.subrange(0, ps@.len() as int) =~= ps@);
    r
}

/// The trivial route that stays at `src`, with a trace holding the one
/// visit of `src_idx` when tracing.
pub fn singleton_result(src: Address, src_idx: usize, amount_in: U256, with_trace: bool) -> (r:
    SolveResult)
    ensures
        reports_singleton(r.outcome, src, amount_in),
        r.trace@ == (if with_trace {
            seq![Step::Visit(src_idx)]
        } else {
            Seq::<Step>::empty()
        }),
{
    let mut tracer = Tracer::new(with_trace);
    tracer.push(Step::Visit(src_idx));
    let mut path: Vec<Address> = Vec::new();
    path.push(src);
    SolveResult {
        outcome: Outcome::Found {
            path,
            pools_used: Vec::new(),
            product_of_rates: Ratio::one(),
            amount_in,
            amount_out: amount_in,
            gas_cost: U256::zero(),
        },
        trace: tracer.into_vec(),
    }
}

/// Number of `true` entries among the first `k`.
pub open spec fn count_true(s: Seq<bool>, k: int) -> nat
    decreases k,
{
    if k <= 0 {
        0
    } else {
        count_true(s, k - 1) + if s[k - 1] {
            1nat
        } else {
            0nat
        }
    }
}

/// At most `k` of the first `k` entries are `true`.
pub proof fn lemma_count_true_bound(s: Seq<bool>, k: int)
    requires
        0 <= k <= s.len(),
    ensures
        count_true(s, k) <= k,
    decreases k,
{
    if k > 0 {
        lemma_count_true_bound(s, k - 1);
    }
}

/// Setting a `false` entry raises the count of a prefix holding it by one.
pub proof fn lemma_count_true_set(s: Seq<bool>, j: int, k: int)
    requires
        0 <= j < s.len(),
        !s[j],
        0 <= k <= s.len(),
    ensures
        count_true(s.update(j, true), k) == count_true(s, k) + if j < k {
            1nat
        } else {
            0nat
        },
    decreases k,
{
    if k > 0 {
        lemma_count_true_set(s, j, k - 1);
    }
}

/// With a `false` entry, fewer than all entries are `true`.
pub proof fn lemma_count_true_below(s: Seq<bool>, j: int, k: int)
    requires
        0 <= j < k <= s.len(),
        !s[j],
    ensures
        count_true(s, k) < k,
    decreases k,
{
    lemma_count_true_bound(s, k - 1);
    if j < k - 1 {
        lemma_count_true_below(s, j, k - 1);
    }
}

/// The cycle's token indices with the first repeated at the end.
pub open spec fn closed(cn: Seq<usize>) -> Seq<usize> {
    cn.push(cn[0])
}

/// Token indices `cn` and pool indices `cp` form a closed loop of usable
/// hops: pool `cp[i]` leads from `cn[i]` to the next token, and the last hop
/// returns to `cn[0]`.
pub open spec fn is_cycle(g: &Graph, cn: Seq<usize>, cp: Seq<usize>) -> bool {
    &&& cn.len() == cp.len()
    &&& cn.len() >= 1
    &&& forall|i: int| 0 <= i < cn.len() ==> #[trigger] cn[i] < g.tokens@.len()
    &&& forall|i: int|
        0 <= i < cn.len() ==> g.hop(#[trigger] cn[i] as int, closed(cn)[i + 1] as int, cp[i] as int)
}

/// `o` reports the cycle `cn` through pools `cp`: its addresses, the exact
/// product of its marginal rates, the amount that `amount_in` of `cn[0]`
/// becomes once around, and its gas in that token.
pub open spec fn reports_cycle(
    g: &Graph,
    o: Outcome,
    cn: Seq<usize>,
    cp: Seq<usize>,
    amount_in: U256,
    gas: GasModel,
) -> bool {
    match o {
        Outcome::NegativeCycle { cycle, pools_used, product_of_rates, amount_in: given, cycle_output, gas_cost } => {
            &&& cycle@ == token_addrs(g, cn)
            &&& pools_used@ == pool_addrs(g, cp)
            &&& product_of_rates.num.val() == route_rate(g.tokens@, g.pools@, closed(cn), cp, cp.len()).0
            &&& product_of_rates.den.val() == route_rate(g.tokens@, g.pools@, closed(cn), cp, cp.len()).1
            &&& given == amount_in
            &&& replay(g, closed(cn), cp, amount_in.val(), cp.len()) == Some(cycle_output.val())
            &&& gas_cost.val() == route_gas(g, gas, cp.len(), cn[0] as int)
        },
        _ => false,
    }
}

/// What a query with `algo` promises, by algorithm; `None` is the answer
/// for the algorithms whose search runs on floating-point estimates and is
/// not part of this library.
pub open spec fn solve_contract(
    algo: Algorithm,
    g: &Graph,
    src: Address,
    dst: Address,
    amount_in: U256,
    opts: SolveOptions,
    r: Option<SolveResult>,
) -> bool {
    match algo {
        Algorithm::Dijkstra => r is Some && dijkstra::single_route_contract(
            g,
            src,
            dst,
            amount_in,
            opts.with_trace,
            opts.gas,
            r.unwrap(),
        ),
        Algorithm::BellmanFord => r is Some && bellman_ford::bf_contract(
            g,
            src,
            dst,
            amount_in,
            opts.with_trace,
            opts.gas,
            r.unwrap(),
        ),
        Algorithm::AmountAware => r is Some && amount_aware::aa_contract(
            g,
            src,
            dst,
            amount_in,
            opts.with_trace,
            opts.gas,
            r.unwrap(),
        ),
        Algorithm::SplitDp => r is Some && split_dp::dp_contract(
            g,
            src,
            dst,
            amount_in,
            opts.with_trace,
            opts.gas,
            r.unwrap(),
        ),
        _ => r is None,
    }
}

/// Routes `amount_in` of `src` to `dst` with `algo`, tracing, gas off.
pub fn solve(algo: Algorithm, graph: &Graph, src: Address, dst: Address, amount_in: U256) -> (r:
    Option<SolveResult>)
    requires
        graph.wf(),
        graph.tokens@.len() < 0x1_0000_0000,
    ensures
        solve_contract(
            algo,
            graph,
            src,
            dst,
            amount_in,
            SolveOptions { with_trace: true, gas: GasModel { gas_price_wei: 0 } },
            r,
        ),
{
    solve_with_opts(algo, graph, src, dst, amount_in, SolveOptions::default())
}

/// Routes `amount_in` of `src` to `dst` with `algo` under `opts`.
pub fn solve_with_opts(
    algo: Algorithm,
    graph: &Graph,
    src: Address,
    dst: Address,
    amount_in: U256,
    opts: SolveOptions,
) -> (r: Option<SolveResult>)
    requires
        graph.wf(),
        graph.tokens@.len() < 0x1_0000_0000,
    ensures
        solve_contract(algo, graph, src, dst, amount_in, opts, r),
{
    match algo {
        Algorithm::Dijkstra => Some(
            dijkstra::solve(graph, src, dst, amount_in, opts.with_trace, &opts.gas),
        ),
        Algorithm::BellmanFord => Some(
            bellman_ford::solve(graph, src, dst, amount_in, opts.with_trace, &opts.gas),
        ),
        Algorithm::AmountAware => Some(
            amount_aware::solve(graph, src, dst, amount_in, opts.with_trace, &opts.gas),
        ),
        Algorithm::SplitDp => Some(
            split_dp::solve(graph, src, dst, amount_in, opts.with_trace, &opts.gas),
        ),
        _ => None,
    }
}

} // verus!
