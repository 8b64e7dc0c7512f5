//! Sequential simulation of a split allocation.
//!
//! Each leg comes as an explicit (token path, pool path) pair and its pool
//! sequence is honoured, so two legs through different parallel pools of
//! one pair drain different pools. Legs run biggest input first (the order
//! of an atomic transaction), and later legs see the reserves that earlier
//! legs left behind.
use crate::algo::{count_true, lemma_count_true_below, lemma_count_true_set};
use crate::graph::Graph;
use crate::pool::{fee_scaled_input, swap_denominator, Pool, FEE_DENOM};
use crate::uint::{modulus, U256};
use vstd::prelude::*;

verus! {

/// What a simulated leg did: its input, its output and its pools.
#[derive(Clone, Debug, PartialEq, Eq)]
pub struct LegSim {
    pub amount_in: U256,
    pub amount_out: U256,
    pub pool_idxs: Vec<usize>,
}

/// Constant-product output of `a` against the given reserves at the fee
/// `fee_bps`; zero for a zero input, an empty reserve or a zero
/// denominator.
pub open spec fn output_with_reserves_spec(fee_bps: nat, a: nat, r_in: nat, r_out: nat) -> nat {
    if a == 0 || r_in == 0 || r_out == 0 || swap_denominator(r_in, fee_bps, a) == 0 {
        0
    } else {
        ((fee_scaled_input(fee_bps, a) * r_out) % modulus()) / swap_denominator(r_in, fee_bps, a)
    }
}

/// Reserves as numbers.
pub open spec fn reserves_view(state: Seq<(U256, U256)>) -> Seq<(nat, nat)> {
    state.map_values(|p: (U256, U256)| (p.0.val(), p.1.val()))
}

/// `x − y`, or zero.
pub open spec fn sat_sub(x: nat, y: nat) -> nat {
    if x >= y {
        (x - y) as nat
    } else {
        0
    }
}

/// One hop against overridden reserves `st` of `pool`: the reserves after
/// the swap and its output. The input side grows (modulo 2^256), the output
/// side shrinks (not below zero).
pub open spec fn apply_hop(pool: Pool, from: crate::address::Address, st: (nat, nat), a: nat) -> ((nat, nat), nat) {
    let (ra, rb) = st;
    let r_in = if pool.token_a == from {
        ra
    } else {
        rb
    };
    let r_out = if pool.token_a == from {
        rb
    } else {
        ra
    };
    let out = output_with_reserves_spec(pool.fee_bps as nat, a, r_in, r_out);
    let ns = if pool.token_a == from {
        ((ra + a) % modulus(), sat_sub(rb, out))
    } else {
        (sat_sub(ra, out), (rb + a) % modulus())
    };
    (ns, out)
}

/// Reserves, running amount and success after the first `k` hops of a leg;
/// it stops, without touching the reserves, at the first hop that yields
/// nothing.
pub open spec fn run_leg(
    g: &Graph,
    tp: Seq<usize>,
    pp: Seq<usize>,
    st: Seq<(nat, nat)>,
    a: nat,
    k: nat,
) -> (Seq<(nat, nat)>, nat, bool)
    decreases k,
{
    if k == 0 {
        (st, a, true)
    } else {
        let (s, x, ok) = run_leg(g, tp, pp, st, a, (k - 1) as nat);
        if !ok {
            (s, x, false)
        } else {
            let p = pp[k - 1] as int;
            let (ns, out) = apply_hop(g.pools@[p], g.tokens@[tp[k - 1] as int].address, s[p], x);
            if out == 0 {
                (s, x, false)
            } else {
                (s.update(p, ns), out, true)
            }
        }
    }
}

/// Reserves after a leg with input `a`, and its output when it delivers
/// something; a zero input or a malformed leg changes nothing.
pub open spec fn leg_result(g: &Graph, tp: Seq<usize>, pp: Seq<usize>, st: Seq<(nat, nat)>, a: nat) -> (
    Seq<(nat, nat)>,
    Option<nat>,
) {
    if a == 0 || tp.len() < 2 || pp.len() != tp.len() - 1 {
        (st, None)
    } else {
        let (s, x, ok) = run_leg(g, tp, pp, st, a, pp.len());
        (
            s,
            if ok && x > 0 {
                Some(x)
            } else {
                None
            },
        )
    }
}

/// Index of the first leg, among the first `i` not yet done, with the
/// largest input; -1 when none is left.
pub open spec fn first_max(inputs: Seq<nat>, done: Seq<bool>, i: nat) -> int
    decreases i,
{
    if i == 0 {
        -1
    } else {
        let b = first_max(inputs, done, (i - 1) as nat);
        if done[i - 1] {
            b
        } else if b < 0 || inputs[i - 1] > inputs[b] {
            i - 1
        } else {
            b
        }
    }
}

/// The simulation after `k` more legs: reserves, total output (modulo
/// 2^256) and each leg's output, legs taken biggest input first (the first
/// on ties).
pub open spec fn sim_rounds(
    g: &Graph,
    tps: Seq<Seq<usize>>,
    pps: Seq<Seq<usize>>,
    inputs: Seq<nat>,
    done: Seq<bool>,
    st: Seq<(nat, nat)>,
    total: nat,
    per: Seq<Option<nat>>,
    k: nat,
) -> (Seq<(nat, nat)>, nat, Seq<Option<nat>>)
    decreases k,
{
    if k == 0 {
        (st, total, per)
    } else {
        let li = first_max(inputs, done, done.len());
        if li < 0 {
            (st, total, per)
        } else {
            let (s2, res) = leg_result(g, tps[li], pps[li], st, inputs[li]);
            let t2 = match res {
                Some(x) => (total + x) % modulus(),
                None => total,
            };
            let per2 = match res {
                Some(x) => per.update(li, Some(x)),
                None => per,
            };
            sim_rounds(g, tps, pps, inputs, done.update(li, true), s2, t2, per2, (k - 1) as nat)
        }
    }
}

/// The simulation of a whole allocation from reserves `st`.
pub open spec fn simulate_spec(
    g: &Graph,
    tps: Seq<Seq<usize>>,
    pps: Seq<Seq<usize>>,
    inputs: Seq<nat>,
    st: Seq<(nat, nat)>,
) -> (Seq<(nat, nat)>, nat, Seq<Option<nat>>) {
    sim_rounds(
        g,
        tps,
        pps,
        inputs,
        Seq::new(inputs.len(), |i: int| false),
        st,
        0,
        Seq::new(inputs.len(), |i: int| None),
        inputs.len(),
    )
}

/// A leg leaves a pool it does not use as it was.
proof fn lemma_run_leg_frame(g: &Graph, tp: Seq<usize>, pp: Seq<usize>, st: Seq<(nat, nat)>, a: nat, k: nat, p: int)
    requires
        k <= pp.len(),
        0 <= p < st.len(),
        forall|i: int| 0 <= i < pp.len() ==> #[trigger] pp[i] as int != p && pp[i] < st.len(),
    ensures
        run_leg(g, tp, pp, st, a, k).0.len() == st.len(),
        run_leg(g, tp, pp, st, a, k).0[p] == st[p],
    decreases k,
{
    if k > 0 {
        lemma_run_leg_frame(g, tp, pp, st, a, (k - 1) as nat, p);
        assert(pp[k - 1] as int != p && pp[k - 1] < st.len());
    }
}

/// The remaining rounds of a simulation leave a pool that no leg uses as
/// it was.
proof fn lemma_rounds_frame(
    g: &Graph,
    tps: Seq<Seq<usize>>,
    pps: Seq<Seq<usize>>,
    inputs: Seq<nat>,
    done: Seq<bool>,
    st: Seq<(nat, nat)>,
    total: nat,
    per: Seq<Option<nat>>,
    k: nat,
    p: int,
)
    requires
        done.len() == inputs.len(),
        tps.len() == inputs.len(),
        pps.len() == inputs.len(),
        0 <= p < st.len(),
        forall|l: int, i: int|
            0 <= l < pps.len() && 0 <= i < pps[l].len() ==> #[trigger] pps[l][i] as int != p && pps[l][i] < st.len(),
    ensures
        sim_rounds(g, tps, pps, inputs, done, st, total, per, k).0.len() == st.len(),
        sim_rounds(g, tps, pps, inputs, done, st, total, per, k).0[p] == st[p],
    decreases k,
{
    if k > 0 {
        crate::algo::split_dp::lemma_first_max_range(inputs, done, done.len());
        let li = first_max(inputs, done, done.len());
        if li >= 0 {
            let (s2, res) = leg_result(g, tps[li], pps[li], st, inputs[li]);
            if !(inputs[li] == 0 || tps[li].len() < 2 || pps[li].len() != tps[li].len() - 1) {
                assert forall|i: int| 0 <= i < pps[li].len() implies #[trigger] pps[li][i] as int != p && pps[li][i] < st.len() by {
                    assert(pps[li][i] as int != p);
                }
                lemma_run_leg_frame(g, tps[li], pps[li], st, inputs[li], pps[li].len(), p);
            }
            let t2 = match res {
                Some(x) => (total + x) % modulus(),
                None => total,
            };
            let per2 = match res {
                Some(x) => per.update(li, Some(x)),
                None => per,
            };
            lemma_rounds_frame(g, tps, pps, inputs, done.update(li, true), s2, t2, per2, (k - 1) as nat, p);
        }
    }
}

/// Simulating an allocation leaves every pool that no leg walks through
/// with the reserves it started with.
pub proof fn law_simulation_frame(
    g: &Graph,
    tps: Seq<Seq<usize>>,
    pps: Seq<Seq<usize>>,
    inputs: Seq<nat>,
    st: Seq<(nat, nat)>,
    p: int,
)
    requires
        tps.len() == inputs.len(),
        pps.len() == inputs.len(),
        0 <= p < st.len(),
        forall|l: int, i: int|
            0 <= l < pps.len() && 0 <= i < pps[l].len() ==> #[trigger] pps[l][i] as int != p && pps[l][i] < st.len(),
    ensures
        simulate_spec(g, tps, pps, inputs, st).0[p] == st[p],
{
    lemma_rounds_frame(
        g,
        tps,
        pps,
        inputs,
        Seq::new(inputs.len(), |i: int| false),
        st,
        0,
        Seq::new(inputs.len(), |i: int| None),
        inputs.len(),
        p,
    );
}

/// `first_max` over the first `n` entries sees only those entries.
proof fn lemma_first_max_prefix(v1: Seq<nat>, d1: Seq<bool>, v2: Seq<nat>, d2: Seq<bool>, n: nat)
    requires
        n <= d1.len(),
        n <= d2.len(),
        forall|x: int| 0 <= x < n ==> v1[x] == v2[x] && d1[x] == d2[x],
    ensures
        first_max(v1, d1, n) == first_max(v2, d2, n),
    decreases n,
{
    if n > 0 {
        lemma_first_max_prefix(v1, d1, v2, d2, (n - 1) as nat);
        crate::algo::split_dp::lemma_first_max_range(v1, d1, (n - 1) as nat);
    }
}

/// With a leg of no input appended, the largest-input pick is the same
/// among the first legs, and falls on the new leg only when every other
/// is done.
proof fn lemma_first_max_idle(inputs: Seq<nat>, done: Seq<bool>, last: bool)
    requires
        done.len() == inputs.len(),
    ensures
        first_max(inputs.push(0), done.push(last), done.len() + 1) == (if first_max(inputs, done, done.len()) >= 0
            || last {
            first_max(inputs, done, done.len())
        } else {
            done.len() as int
        }),
{
    let n = done.len();
    lemma_first_max_prefix(inputs.push(0), done.push(last), inputs, done, n);
    crate::algo::split_dp::lemma_first_max_range(inputs, done, n);
}

/// No entry of a fresh `done` is set.
proof fn lemma_count_none(n: nat, k: int)
    requires
        0 <= k <= n,
    ensures
        count_true(Seq::new(n, |i: int| false), k) == 0,
    decreases k,
{
    if k > 0 {
        lemma_count_none(n, k - 1);
    }
}

/// Simulating rounds keeps the number of per-leg results.
proof fn lemma_rounds_len(
    g: &Graph,
    tps: Seq<Seq<usize>>,
    pps: Seq<Seq<usize>>,
    inputs: Seq<nat>,
    done: Seq<bool>,
    st: Seq<(nat, nat)>,
    total: nat,
    per: Seq<Option<nat>>,
    k: nat,
)
    requires
        done.len() == inputs.len(),
        per.len() == inputs.len(),
    ensures
        sim_rounds(g, tps, pps, inputs, done, st, total, per, k).2.len() == per.len(),
    decreases k,
{
    if k > 0 {
        crate::algo::split_dp::lemma_first_max_range(inputs, done, done.len());
        let li = first_max(inputs, done, done.len());
        if li >= 0 {
            let (s2, res) = leg_result(g, tps[li], pps[li], st, inputs[li]);
            let t2 = match res {
                Some(x) => (total + x) % modulus(),
                None => total,
            };
            let per2 = match res {
                Some(x) => per.update(li, Some(x)),
                None => per,
            };
            lemma_rounds_len(g, tps, pps, inputs, done.update(li, true), s2, t2, per2, (k - 1) as nat);
        }
    }
}

/// The rounds with a leg of no input appended (not yet taken) give the same
/// reserves and total, and the same per-leg results followed by nothing for
/// the new leg, given one more round and enough rounds for every leg left.
proof fn lemma_rounds_idle(
    g: &Graph,
    tps: Seq<Seq<usize>>,
    pps: Seq<Seq<usize>>,
    inputs: Seq<nat>,
    t: Seq<usize>,
    p: Seq<usize>,
    done: Seq<bool>,
    st: Seq<(nat, nat)>,
    total: nat,
    per: Seq<Option<nat>>,
    k: nat,
)
    requires
        tps.len() == inputs.len(),
        pps.len() == inputs.len(),
        done.len() == inputs.len(),
        per.len() == inputs.len(),
        k + count_true(done, done.len() as int) >= done.len(),
    ensures
        ({
            let r = sim_rounds(g, tps, pps, inputs, done, st, total, per, k);
            sim_rounds(g, tps.push(t), pps.push(p), inputs.push(0), done.push(false), st, total, per.push(None), k + 1)
                == (r.0, r.1, r.2.push(None))
        }),
    decreases k,
{
    let n = done.len();
    lemma_first_max_idle(inputs, done, false);
    crate::algo::split_dp::lemma_first_max_range(inputs, done, n);
    let b = first_max(inputs, done, n);
    let tps2 = tps.push(t);
    let pps2 = pps.push(p);
    let in2 = inputs.push(0);
    if b >= 0 {
        lemma_count_true_below(done, b, n as int);
        assert(k >= 1);
        let (s2, res) = leg_result(g, tps[b], pps[b], st, inputs[b]);
        assert(tps2[b] == tps[b] && pps2[b] == pps[b] && in2[b] == inputs[b]);
        let t2 = match res {
            Some(x) => (total + x) % modulus(),
            None => total,
        };
        let per2 = match res {
            Some(x) => per.update(b, Some(x)),
            None => per,
        };
        let per2x = match res {
            Some(x) => per.push(None).update(b, Some(x)),
            None => per.push(None),
        };
        assert(per2x =~= per2.push(None));
        assert(done.push(false).update(b, true) =~= done.update(b, true).push(false));
        lemma_count_true_set(done, b, n as int);
        lemma_rounds_idle(g, tps, pps, inputs, t, p, done.update(b, true), s2, t2, per2, (k - 1) as nat);
        assert(first_max(in2, done.push(false), done.push(false).len()) == b);
        assert(leg_result(g, tps2[b], pps2[b], st, in2[b]) == (s2, res));
        assert(sim_rounds(g, tps2, pps2, in2, done.push(false), st, total, per.push(None), k + 1) == sim_rounds(
            g,
            tps2,
            pps2,
            in2,
            done.push(false).update(b, true),
            s2,
            t2,
            per2x,
            k,
        ));
        assert(sim_rounds(g, tps, pps, inputs, done, st, total, per, k) == sim_rounds(
            g,
            tps,
            pps,
            inputs,
            done.update(b, true),
            s2,
            t2,
            per2,
            (k - 1) as nat,
        ));
    } else {
        let dn = done.push(false).update(n as int, true);
        assert(dn =~= done.push(true));
        assert(leg_result(g, tps2[n as int], pps2[n as int], st, in2[n as int]) == (st, Option::<nat>::None));
        assert(first_max(in2, done.push(false), done.push(false).len()) == n);
        assert(sim_rounds(g, tps2, pps2, in2, done.push(false), st, total, per.push(None), k + 1) == sim_rounds(
            g,
            tps2,
            pps2,
            in2,
            dn,
            st,
            total,
            per.push(None),
            k,
        ));
        if k > 0 {
            lemma_first_max_idle(inputs, done, true);
            assert(first_max(in2, dn, dn.len()) < 0);
            assert(sim_rounds(g, tps2, pps2, in2, dn, st, total, per.push(None), k) == (st, total, per.push(None)));
            assert(sim_rounds(g, tps, pps, inputs, done, st, total, per, k) == (st, total, per));
        }
    }
}

/// Simulating an allocation with a route of no input appended gives the
/// same reserves and total, and the same per-leg results followed by
/// nothing for the new route.
pub proof fn lemma_simulate_idle(
    g: &Graph,
    tps: Seq<Seq<usize>>,
    pps: Seq<Seq<usize>>,
    inputs: Seq<nat>,
    t: Seq<usize>,
    p: Seq<usize>,
    st: Seq<(nat, nat)>,
)
    requires
        tps.len() == inputs.len(),
        pps.len() == inputs.len(),
    ensures
        ({
            let r = simulate_spec(g, tps, pps, inputs, st);
            &&& simulate_spec(g, tps.push(t), pps.push(p), inputs.push(0), st) == (r.0, r.1, r.2.push(None))
            &&& r.2.len() == inputs.len()
        }),
{
    let n = inputs.len();
    let d0 = Seq::new(n, |i: int| false);
    let p0 = Seq::new(n, |i: int| Option::<nat>::None);
    lemma_count_none(n, n as int);
    assert(Seq::new(n + 1, |i: int| false) =~= d0.push(false));
    assert(Seq::new(n + 1, |i: int| Option::<nat>::None) =~= p0.push(None));
    lemma_rounds_idle(g, tps, pps, inputs, t, p, d0, st, 0, p0, n);
    lemma_rounds_len(g, tps, pps, inputs, d0, st, 0, p0, n);
}

/// The legs can be simulated without a panic: matching lengths, indices
/// inside the graph, and fees of at most 100% on every pool a leg uses.
pub open spec fn allocation_ok(g: &Graph, tps: Seq<Seq<usize>>, pps: Seq<Seq<usize>>, n_inputs: nat) -> bool {
    &&& tps.len() == n_inputs
    &&& pps.len() == n_inputs
    &&& forall|l: int, i: int| 0 <= l < tps.len() && 0 <= i < tps[l].len() ==> #[trigger] tps[l][i] < g.tokens@.len()
    &&& forall|l: int, i: int|
        0 <= l < pps.len() && 0 <= i < pps[l].len() ==> #[trigger] pps[l][i] < g.pools@.len()
            && g.pools@[pps[l][i] as int].fee_bps <= FEE_DENOM
}

/// Constant-product output with overridden reserves; zero for a zero
/// input, an empty reserve or a zero denominator.
pub fn output_with_reserves(pool: &Pool, amount_in: U256, r_in: U256, r_out: U256) -> (r: U256)
    requires
        pool.fee_bps <= FEE_DENOM,
    ensures
        r.val() == output_with_reserves_spec(pool.fee_bps as nat, amount_in.val(), r_in.val(), r_out.val()),
{
    if amount_in.is_zero() || r_in.is_zero() || r_out.is_zero() {
        return U256::zero();
    }
    let fee_denom = U256::from_u64(FEE_DENOM);
    let fee_mult = U256::from_u64(FEE_DENOM - pool.fee_bps as u64);
    let amount_in_with_fee = amount_in.wrapping_mul(fee_mult);
    let numerator = amount_in_with_fee.wrapping_mul(r_out);
    let denominator = r_in.wrapping_mul(fee_denom).wrapping_add(amount_in_with_fee);
    if denominator.is_zero() {
        return U256::zero();
    }
    numerator.div(denominator)
}

/// Every pool's reserves, by pool index.
pub fn initial_state(graph: &Graph) -> (r: Vec<(U256, U256)>)
    ensures
        r@.len() == graph.pools@.len(),
        forall|i: int| 0 <= i < r@.len() ==> #[trigger] r@[i] == (graph.pools@[i].reserve_a, graph.pools@[i].reserve_b),
{
    let mut r: Vec<(U256, U256)> = Vec::new();
    let mut i: usize = 0;
    while i < graph.pools.len()
        invariant
            i <= graph.pools@.len(),
            r@.len() == i,
            forall|x: int| 0 <= x < i ==> #[trigger] r@[x] == (graph.pools@[x].reserve_a, graph.pools@[x].reserve_b),
        decreases graph.pools@.len() - i,
    {
        r.push((graph.pools[i].reserve_a, graph.pools[i].reserve_b));
        i = i + 1;
    }
    r
}

/// Legs' outputs as numbers.
pub open spec fn per_view(per: Seq<Option<LegSim>>) -> Seq<Option<nat>> {
    per.map_values(|o: Option<LegSim>| match o {
        Some(l) => Some(l.amount_out.val()),
        None => None,
    })
}

/// Inputs as numbers.
pub open spec fn inputs_view(inputs: Seq<U256>) -> Seq<nat> {
    inputs.map_values(|x: U256| x.val())
}

/// Paths' views.
pub open spec fn paths_view(paths: Seq<Vec<usize>>) -> Seq<Seq<usize>> {
    paths.map_values(|p: Vec<usize>| p@)
}

proof fn lemma_run_leg_stuck(g: &Graph, tp: Seq<usize>, pp: Seq<usize>, st: Seq<(nat, nat)>, a: nat, k: nat, kk: nat)
    requires
        k <= kk,
        !run_leg(g, tp, pp, st, a, k).2,
    ensures
        run_leg(g, tp, pp, st, a, kk) == run_leg(g, tp, pp, st, a, k),
    decreases kk - k,
{
    if k < kk {
        lemma_run_leg_stuck(g, tp, pp, st, a, k, (kk - 1) as nat);
    }
}

/// Runs one leg of input `a` through its pools against `state`, updating
/// the reserves hop by hop; stops at the first hop that yields nothing.
fn run_leg_exec(
    graph: &Graph,
    tp: &Vec<usize>,
    pp: &Vec<usize>,
    state: &mut Vec<(U256, U256)>,
    a: U256,
) -> (r: (U256, bool))
    requires
        tp@.len() >= 2,
        pp@.len() == tp@.len() - 1,
        forall|i: int| 0 <= i < tp@.len() ==> #[trigger] tp@[i] < graph.tokens@.len(),
        forall|i: int|
            0 <= i < pp@.len() ==> #[trigger] pp@[i] < graph.pools@.len() && graph.pools@[pp@[i] as int].fee_bps
                <= FEE_DENOM,
        old(state)@.len() == graph.pools@.len(),
    ensures
        final(state)@.len() == graph.pools@.len(),
        (reserves_view(final(state)@), r.0.val(), r.1) == run_leg(
            graph,
            tp@,
            pp@,
            reserves_view(old(state)@),
            a.val(),
            pp@.len(),
        ),
{
    let ghost st0 = reserves_view(state@);
    let mut amount = a;
    let mut hop: usize = 0;
    while hop < pp.len()
        invariant
            pp@.len() == tp@.len() - 1,
            forall|i: int| 0 <= i < tp@.len() ==> #[trigger] tp@[i] < graph.tokens@.len(),
            forall|i: int|
                0 <= i < pp@.len() ==> #[trigger] pp@[i] < graph.pools@.len() && graph.pools@[pp@[i] as int].fee_bps
                    <= FEE_DENOM,
            state@.len() == graph.pools@.len(),
            st0 == reserves_view(old(state)@),
            hop <= pp@.len(),
            run_leg(graph, tp@, pp@, st0, a.val(), hop as nat) == (reserves_view(state@), amount.val(), true),
        decreases pp@.len() - hop,
    {
        let p = pp[hop];
        let pool = &graph.pools[p];
        let from = graph.tokens[tp[hop]].address;
        let (ra, rb) = state[p];
        let (r_in, r_out) = if pool.token_a == from {
            (ra, rb)
        } else {
            (rb, ra)
        };
        let out = output_with_reserves(pool, amount, r_in, r_out);
        proof {
            assert(reserves_view(state@)[p as int] == (ra.val(), rb.val()));
            assert(apply_hop(graph.pools@[p as int], from, (ra.val(), rb.val()), amount.val()).1 == out.val());
        }
        if out.is_zero() {
            proof {
                assert(run_leg(graph, tp@, pp@, st0, a.val(), (hop + 1) as nat) == (reserves_view(state@), amount.val(), false));
                lemma_run_leg_stuck(graph, tp@, pp@, st0, a.val(), (hop + 1) as nat, pp@.len());
                assert(st0 == reserves_view(old(state)@));
                assert((reserves_view(state@), amount.val(), false) == run_leg(graph, tp@, pp@, st0, a.val(), pp@.len()));
            }
            return (amount, false);
        }
        let ns = if pool.token_a == from {
            (ra.wrapping_add(amount), rb.saturating_sub(out))
        } else {
            (ra.saturating_sub(out), rb.wrapping_add(amount))
        };
        let ghost before = state@;
        state.set(p, ns);
        proof {
            assert(reserves_view(state@) =~= reserves_view(before).update(p as int, (ns.0.val(), ns.1.val())));
        }
        amount = out;
        hop = hop + 1;
    }
    (amount, true)
}

/// The leg not yet done with the largest input, the first on ties.
pub(crate) fn next_leg(inputs: &Vec<U256>, done: &Vec<bool>) -> (r: Option<usize>)
    requires
        inputs@.len() == done@.len(),
    ensures
        match r {
            None => first_max(inputs_view(inputs@), done@, done@.len()) < 0,
            Some(li) => first_max(inputs_view(inputs@), done@, done@.len()) == li as int && li < done@.len(),
        },
{
    let mut best: Option<usize> = None;
    let mut i: usize = 0;
    while i < done.len()
        invariant
            inputs@.len() == done@.len(),
            i <= done@.len(),
            match best {
                None => first_max(inputs_view(inputs@), done@, i as nat) < 0,
                Some(b) => first_max(inputs_view(inputs@), done@, i as nat) == b as int && b < i,
            },
        decreases done@.len() - i,
    {
        if !done[i] {
            let better = match best {
                None => true,
                Some(b) => inputs[i].gt(&inputs[b]),
            };
            if better {
                best = Some(i);
            }
        }
        i = i + 1;
    }
    best
}

/// Simulates the allocation against `state`, biggest input first, each leg
/// against the reserves the earlier legs left; returns the total output
/// (modulo 2^256) and, per leg, what it did when it delivered something.
pub fn simulate_allocation_mut(
    graph: &Graph,
    token_paths: &Vec<Vec<usize>>,
    pool_paths: &Vec<Vec<usize>>,
    inputs: &Vec<U256>,
    state: &mut Vec<(U256, U256)>,
) -> (r: (U256, Vec<Option<LegSim>>))
    requires
        allocation_ok(graph, paths_view(token_paths@), paths_view(pool_paths@), inputs@.len() as nat),
        old(state)@.len() == graph.pools@.len(),
    ensures
        final(state)@.len() == graph.pools@.len(),
        ({
            let (st, total, per) = simulate_spec(
                graph,
                paths_view(token_paths@),
                paths_view(pool_paths@),
                inputs_view(inputs@),
                reserves_view(old(state)@),
            );
            &&& reserves_view(final(state)@) == st
            &&& r.0.val() == total
            &&& per_view(r.1@) == per
            &&& r.1@.len() == inputs@.len()
            &&& forall|i: int|
                0 <= i < r.1@.len() ==> (#[trigger] r.1@[i] matches Some(l) ==> l.amount_in == inputs@[i]
                    && l.pool_idxs@ == pool_paths@[i]@)
        }),
{
    let ghost tps = paths_view(token_paths@);
    let ghost pps = paths_view(pool_paths@);
    let ghost ins = inputs_view(inputs@);
    let ghost target = simulate_spec(graph, tps, pps, ins, reserves_view(state@));
    let n = inputs.len();
    let mut done: Vec<bool> = Vec::new();
    let mut per_leg: Vec<Option<LegSim>> = Vec::new();
    let mut k: usize = 0;
    while k < n
        invariant
            k <= n,
            done@.len() == k,
            per_leg@.len() == k,
            forall|x: int| 0 <= x < k ==> !#[trigger] done@[x],
            forall|x: int| 0 <= x < k ==> #[trigger] per_leg@[x] is None,
        decreases n - k,
    {
        done.push(false);
        per_leg.push(None);
        k = k + 1;
    }
    proof {
        assert(done@ =~= Seq::new(ins.len(), |i: int| false));
        assert(per_view(per_leg@) =~= Seq::new(ins.len(), |i: int| None));
    }
    let mut total = U256::zero();
    let mut r: usize = 0;
    let mut exhausted = false;
    while r < n && !exhausted
        invariant
            exhausted ==> first_max(inputs_view(inputs@), done@, done@.len()) < 0,
            tps == paths_view(token_paths@),
            pps == paths_view(pool_paths@),
            ins == inputs_view(inputs@),
            allocation_ok(graph, tps, pps, n as nat),
            n == inputs@.len(),
            r <= n,
            done@.len() == n,
            per_leg@.len() == n,
            state@.len() == graph.pools@.len(),
            sim_rounds(graph, tps, pps, ins, done@, reserves_view(state@), total.val(), per_view(per_leg@), (n - r) as nat) == target,
            forall|i: int|
                0 <= i < per_leg@.len() ==> (#[trigger] per_leg@[i] matches Some(l) ==> l.amount_in == inputs@[i]
                    && l.pool_idxs@ == pool_paths@[i]@),
        decreases n - r + (if exhausted {
            0int
        } else {
            1int
        }),
    {
        let li = match next_leg(inputs, &done) {
            None => {
                exhausted = true;
                continue;
            },
            Some(li) => li,
        };
        let ghost done0 = done@;
        let ghost st0 = reserves_view(state@);
        done.set(li, true);
        let a_in = inputs[li];
        let tp = &token_paths[li];
        let pp = &pool_paths[li];
        proof {
            assert(tps[li as int] == tp@);
            assert(pps[li as int] == pp@);
            assert(ins[li as int] == a_in.val());
        }
        if !a_in.is_zero() && tp.len() >= 2 && pp.len() == tp.len() - 1 {
            proof {
                assert forall|i: int| 0 <= i < tp@.len() implies #[trigger] tp@[i] < graph.tokens@.len() by {
                    assert(tps[li as int][i] < graph.tokens@.len());
                }
                assert forall|i: int| 0 <= i < pp@.len() implies #[trigger] pp@[i] < graph.pools@.len() && graph.pools@[pp@[i] as int].fee_bps <= FEE_DENOM by {
                    assert(pps[li as int][i] < graph.pools@.len());
                }
            }
            let (amount, valid) = run_leg_exec(graph, tp, pp, state, a_in);
            if valid && !amount.is_zero() {
                let ghost per0 = per_leg@;
                per_leg.set(li, Some(LegSim { amount_in: a_in, amount_out: amount, pool_idxs: pp.clone() }));
                total = total.wrapping_add(amount);
                proof {
                    assert(per_view(per_leg@) =~= per_view(per0).update(li as int, Some(amount.val())));
                }
            }
        }
        r = r + 1;
    }
    proof {
        if exhausted {
            assert(sim_rounds(graph, tps, pps, ins, done@, reserves_view(state@), total.val(), per_view(per_leg@), (n - r) as nat)
                == (reserves_view(state@), total.val(), per_view(per_leg@)));
        }
    }
    (total, per_leg)
}

/// Simulates the allocation against the graph's own reserves.
pub fn simulate_allocation(
    graph: &Graph,
    token_paths: &Vec<Vec<usize>>,
    pool_paths: &Vec<Vec<usize>>,
    inputs: &Vec<U256>,
) -> (r: (U256, Vec<Option<LegSim>>))
    requires
        allocation_ok(graph, paths_view(token_paths@), paths_view(pool_paths@), inputs@.len() as nat),
    ensures
        ({
            let (st, total, per) = simulate_spec(
                graph,
                paths_view(token_paths@),
                paths_view(pool_paths@),
                inputs_view(inputs@),
                reserves_view(initial_view(graph)),
            );
            &&& r.0.val() == total
            &&& per_view(r.1@) == per
            &&& r.1@.len() == inputs@.len()
            &&& forall|i: int|
                0 <= i < r.1@.len() ==> (#[trigger] r.1@[i] matches Some(l) ==> l.amount_in == inputs@[i]
                    && l.pool_idxs@ == pool_paths@[i]@)
        }),
{
    let mut state = initial_state(graph);
    proof {
        assert(state@ =~= initial_view(graph));
    }
    simulate_allocation_mut(graph, token_paths, pool_paths, inputs, &mut state)
}

/// Every pool's reserves, by pool index.
pub open spec fn initial_view(g: &Graph) -> Seq<(U256, U256)> {
    g.pools@.map_values(|p: Pool| (p.reserve_a, p.reserve_b))
}

} // verus!
