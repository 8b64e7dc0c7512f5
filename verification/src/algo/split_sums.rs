//! What holds of every split answer: its legs add up to its totals, and it
//! nets at least what its best-ranked single route nets.
//!
//! The knapsack answer reports each leg's input and output beside the
//! totals; the legs' inputs sum to the reported input and their outputs to
//! the reported output, modulo 2^256 as the 256-bit sums are taken.
use crate::address::Address;
use crate::algo::split_common::{first_max, leg_result, sim_rounds, simulate_spec};
use crate::algo::split_dp::{
    backtrack, leg_inputs, mod_sum, lemma_mod_sum_bound, none_done, dp_allocation, dp_answers, dp_contract, dp_reports, dp_row, gas_row, hops_at, idle,
    leg_matches, lemma_first_max_range, lemma_top_picks, next_choices, quote_rows, route_pools,
    route_tokens, routes_of, scored, sum_at, top_picks, N_CHUNKS,
};
use crate::algo::amount_aware::MAX_HOPS;
use crate::algo::gas::{gas_cost_spec, gas_units_spec};
use crate::algo::path::walk_fixed;
use crate::algo::route_gas;
use crate::algo::split_common::{initial_view, reserves_view, sat_sub};
use crate::algo::bounded_bf::emits;
use crate::algo::gas::GasModel;
use crate::algo::{Leg, Outcome, SolveResult};
use crate::graph::{token_index, Graph};
use crate::uint::{modulus, U256};
use vstd::arithmetic::div_mod::{lemma_add_mod_noop_right, lemma_mod_add_multiples_vanish, lemma_small_mod};
use vstd::prelude::*;

verus! {

/// Values summed modulo 2^256, first to last.
pub open spec fn total_of(s: Seq<nat>) -> nat
    decreases s.len(),
{
    if s.len() == 0 {
        0
    } else {
        (total_of(s.drop_last()) + s.last()) % modulus()
    }
}

/// One value below 2^256 sums to itself.
proof fn lemma_total_of_one(s: Seq<nat>)
    requires
        s.len() == 1,
        s[0] < modulus(),
    ensures
        total_of(s) == s[0],
{
    lemma_modulus_positive();
    assert(s.drop_last() =~= Seq::<nat>::empty());
    assert(total_of(s.drop_last()) == 0);
    lemma_small_mod(s[0], modulus());
}

/// The legs' inputs.
pub open spec fn leg_ins(legs: Seq<Leg>) -> Seq<nat> {
    legs.map_values(|l: Leg| l.amount_in.val())
}

/// The legs' outputs.
pub open spec fn leg_outs(legs: Seq<Leg>) -> Seq<nat> {
    legs.map_values(|l: Leg| l.amount_out.val())
}

/// Each leg's output, zero for a leg that delivered nothing.
pub open spec fn outs(per: Seq<Option<nat>>) -> Seq<nat> {
    per.map_values(|o: Option<nat>| match o {
        Some(x) => x,
        None => 0,
    })
}

/// `v[x]` summed modulo 2^256 over the `x < i` that are not done.
pub open spec fn sum_live(v: Seq<nat>, d: Seq<bool>, i: nat) -> nat
    decreases i,
{
    if i == 0 {
        0
    } else if d[i - 1] {
        sum_live(v, d, (i - 1) as nat)
    } else {
        (sum_live(v, d, (i - 1) as nat) + v[i - 1]) % modulus()
    }
}

/// How many `x < i` are not done.
pub open spec fn count_live(d: Seq<bool>, i: nat) -> nat
    decreases i,
{
    if i == 0 {
        0
    } else if d[i - 1] {
        count_live(d, (i - 1) as nat)
    } else {
        count_live(d, (i - 1) as nat) + 1
    }
}

proof fn lemma_modulus_positive()
    ensures
        modulus() > 0,
{
    let b = crate::uint::limb_base();
    assert(b * (b * (b * b)) > 0) by (nonlinear_arith)
        requires
            b > 0,
    ;
}

/// Adding two values modulo `m` in either order gives the same.
proof fn lemma_mod_swap(s: nat, x: nat, v: nat)
    ensures
        ((s + x) % modulus() + v) % modulus() == ((s + v) % modulus() + x) % modulus(),
{
    lemma_modulus_positive();
    let m = modulus() as int;
    lemma_add_mod_noop_right(v as int, (s + x) as int, m);
    lemma_add_mod_noop_right(x as int, (s + v) as int, m);
    assert((v + (s + x)) == (x + (s + v)));
}

/// Updating at or beyond `i` leaves the first `i` alone.
proof fn lemma_sum_live_frame(v: Seq<nat>, d: Seq<bool>, li: int, x: nat, b: bool, i: nat)
    requires
        i <= li < d.len(),
        v.len() == d.len(),
    ensures
        sum_live(v.update(li, x), d.update(li, b), i) == sum_live(v, d, i),
        count_live(d.update(li, b), i) == count_live(d, i),
    decreases i,
{
    if i > 0 {
        lemma_sum_live_frame(v, d, li, x, b, (i - 1) as nat);
    }
}

/// Bringing a done index `li < i` back to life with value `x` adds `x`.
proof fn lemma_sum_live_set(v: Seq<nat>, d: Seq<bool>, li: int, x: nat, i: nat)
    requires
        0 <= li < i <= d.len(),
        v.len() == d.len(),
        d[li],
    ensures
        sum_live(v.update(li, x), d.update(li, false), i) == (sum_live(v, d, i) + x) % modulus(),
        count_live(d.update(li, false), i) == count_live(d, i) + 1,
    decreases i,
{
    let v2 = v.update(li, x);
    let d2 = d.update(li, false);
    if li == i - 1 {
        lemma_sum_live_frame(v, d, li, x, false, (i - 1) as nat);
    } else {
        lemma_sum_live_set(v, d, li, x, (i - 1) as nat);
        let s = sum_live(v, d, (i - 1) as nat);
        if !d[i - 1] {
            lemma_mod_swap(s, x, v[i - 1]);
        }
    }
}

/// Nothing is live when every index is done.
proof fn lemma_sum_live_none(v: Seq<nat>, d: Seq<bool>, i: nat)
    requires
        i <= d.len(),
        count_live(d, i) == 0,
    ensures
        sum_live(v, d, i) == 0,
    decreases i,
{
    if i > 0 {
        lemma_sum_live_none(v, d, (i - 1) as nat);
    }
}

proof fn lemma_count_live_bound(d: Seq<bool>, i: nat)
    ensures
        count_live(d, i) <= i,
    decreases i,
{
    if i > 0 {
        lemma_count_live_bound(d, (i - 1) as nat);
    }
}

/// No index is picked only when none is live.
proof fn lemma_first_max_none(vals: Seq<nat>, d: Seq<bool>, i: nat)
    requires
        i <= d.len(),
        first_max(vals, d, i) < 0,
    ensures
        count_live(d, i) == 0,
    decreases i,
{
    if i > 0 {
        lemma_first_max_none(vals, d, (i - 1) as nat);
    }
}

/// Summing over an index put in front adds its value.
proof fn lemma_sum_at_front(v: Seq<nat>, a: int, rest: Seq<int>)
    ensures
        sum_at(v, seq![a] + rest) == (v[a] + sum_at(v, rest)) % modulus(),
    decreases rest.len(),
{
    lemma_modulus_positive();
    let m = modulus() as int;
    let s = seq![a] + rest;
    if rest.len() == 0 {
        assert(s.drop_last() =~= Seq::<int>::empty());
        assert(s.last() == a);
        assert(sum_at(v, s) == (0 + v[a]) % modulus());
    } else {
        let vl = v[rest.last()];
        assert(s.drop_last() =~= seq![a] + rest.drop_last());
        assert(s.last() == rest.last());
        lemma_sum_at_front(v, a, rest.drop_last());
        let t = sum_at(v, rest.drop_last());
        assert(sum_at(v, s) == (sum_at(v, s.drop_last()) + vl) % modulus());
        assert(sum_at(v, s.drop_last()) == (v[a] + t) % modulus());
        assert(sum_at(v, rest) == (t + vl) % modulus());
        lemma_add_mod_noop_right(vl as int, (v[a] + t) as int, m);
        lemma_add_mod_noop_right(v[a] as int, (t + vl) as int, m);
        assert(((v[a] + t) % modulus() + vl) % modulus() == (vl + (v[a] + t)) % modulus());
        assert((v[a] + (t + vl) % modulus()) % modulus() == (v[a] + (t + vl)) % modulus());
    }
}

/// Taking every live index, largest input first, sums all live values.
proof fn lemma_picks_sum(inputs: Seq<nat>, v: Seq<nat>, d: Seq<bool>, k: nat)
    requires
        inputs.len() == d.len(),
        v.len() == d.len(),
        count_live(d, d.len()) <= k,
    ensures
        sum_at(v, top_picks(inputs, d, k)) == sum_live(v, d, d.len()),
    decreases k,
{
    lemma_first_max_range(inputs, d, d.len());
    let li = first_max(inputs, d, d.len());
    if k == 0 || li < 0 {
        if li < 0 {
            lemma_first_max_none(inputs, d, d.len());
        }
        lemma_sum_live_none(v, d, d.len());
        assert(top_picks(inputs, d, k) =~= Seq::<int>::empty());
    } else {
        let d2 = d.update(li, true);
        lemma_sum_live_set(v, d2, li, v[li], d.len());
        assert(v.update(li, v[li]) =~= v);
        assert(d2.update(li, false) =~= d);
        lemma_picks_sum(inputs, v, d2, (k - 1) as nat);
        lemma_sum_at_front(v, li, top_picks(inputs, d2, (k - 1) as nat));
        lemma_mod_swap(0, v[li], sum_live(v, d2, d.len()));
        lemma_modulus_positive();
        lemma_add_mod_noop_right(v[li] as int, sum_live(v, d2, d.len()) as int, modulus() as int);
        assert(sum_live(v, d2, d.len()) < modulus()) by {
            lemma_sum_live_bound(v, d2, d.len());
        }
    }
}

proof fn lemma_sum_live_bound(v: Seq<nat>, d: Seq<bool>, i: nat)
    ensures
        sum_live(v, d, i) < modulus(),
    decreases i,
{
    lemma_modulus_positive();
    if i > 0 {
        lemma_sum_live_bound(v, d, (i - 1) as nat);
    }
}

/// The simulation's total is the sum of the outputs of the legs that
/// delivered.
proof fn lemma_sim_total(
    g: &Graph,
    tps: Seq<Seq<usize>>,
    pps: Seq<Seq<usize>>,
    inputs: Seq<nat>,
    done: Seq<bool>,
    st: Seq<(nat, nat)>,
    total: nat,
    per: Seq<Option<nat>>,
    k: nat,
)
    requires
        done.len() == per.len(),
        inputs.len() == per.len(),
        forall|x: int| 0 <= x < per.len() && #[trigger] per[x] is Some ==> done[x],
        total == sum_live(outs(per), idle(per), per.len()),
    ensures
        ({
            let r = sim_rounds(g, tps, pps, inputs, done, st, total, per, k);
            &&& r.2.len() == per.len()
            &&& r.1 == sum_live(outs(r.2), idle(r.2), per.len())
        }),
    decreases k,
{
    if k > 0 {
        lemma_first_max_range(inputs, done, done.len());
        let li = first_max(inputs, done, done.len());
        if li >= 0 {
            let (s2, res) = leg_result(g, tps[li], pps[li], st, inputs[li]);
            match res {
                Some(x) => {
                    let per2 = per.update(li, Some(x));
                    assert(per[li] is None);
                    assert(outs(per2) =~= outs(per).update(li, x));
                    assert(idle(per2) =~= idle(per).update(li, false));
                    lemma_sum_live_set(outs(per), idle(per), li, x, per.len());
                    lemma_sim_total(
                        g,
                        tps,
                        pps,
                        inputs,
                        done.update(li, true),
                        s2,
                        (total + x) % modulus(),
                        per2,
                        (k - 1) as nat,
                    );
                },
                None => {
                    lemma_sim_total(g, tps, pps, inputs, done.update(li, true), s2, total, per, (k - 1) as nat);
                },
            }
        }
    }
}

/// Raising `c[j]` by `r` (modulo 2^256) raises the sum of the first `i`
/// values by `r` when `j < i`.
proof fn lemma_mod_sum_raise(c: Seq<nat>, j: int, r: nat, i: nat)
    requires
        0 <= j < c.len(),
        i <= c.len(),
    ensures
        mod_sum(c.update(j, (c[j] + r) % modulus()), i) == if j < i {
            (mod_sum(c, i) + r) % modulus()
        } else {
            mod_sum(c, i)
        },
    decreases i,
{
    lemma_modulus_positive();
    let m = modulus() as int;
    let c2 = c.update(j, (c[j] + r) % modulus());
    if i > 0 {
        lemma_mod_sum_raise(c, j, r, (i - 1) as nat);
        let s = mod_sum(c, (i - 1) as nat);
        if j == i - 1 {
            lemma_add_mod_noop_right(s as int, (c[j] + r) as int, m);
            lemma_add_mod_noop_right(r as int, (s + c[j]) as int, m);
            assert(s + (c[j] + r) == r + (s + c[j]));
            assert(((s + c[j]) % modulus() + r) % modulus() == (r + (s + c[j]) % modulus()) % modulus());
        } else if j < i - 1 {
            lemma_mod_swap(s, r, c[i - 1]);
        }
    }
}

/// The legs' inputs add up to `amount_in` (below 2^256), modulo 2^256.
proof fn lemma_leg_inputs_sum(amount_in: nat, alloc: Seq<nat>)
    requires
        amount_in < modulus(),
        alloc.len() > 0,
    ensures
        mod_sum(leg_inputs(amount_in, alloc), alloc.len()) == amount_in,
{
    lemma_modulus_positive();
    let m = modulus() as int;
    let c = chunks_of(amount_in, alloc);
    let n = alloc.len();
    crate::algo::split_dp::lemma_first_max_range(alloc, none_done(n), n);
    let j = crate::algo::split_common::first_max(alloc, none_done(n), n);
    crate::algo::split_dp::lemma_first_max_found(alloc, none_done(n), n, 0);
    lemma_mod_sum_bound(c, n);
    let sc = mod_sum(c, n);
    let rest = ((amount_in + modulus() - sc) as nat) % modulus();
    assert(leg_inputs(amount_in, alloc) == c.update(j, (c[j] + rest) % modulus()));
    lemma_mod_sum_raise(c, j, rest, n);
    lemma_add_mod_noop_right(sc as int, (amount_in + modulus() - sc) as int, m);
    assert(sc + (amount_in + modulus() - sc) == m + amount_in);
    lemma_mod_add_multiples_vanish(amount_in as int, m);
    lemma_small_mod(amount_in, modulus());
}

/// The chunked inputs.
spec fn chunks_of(amount_in: nat, alloc: Seq<nat>) -> Seq<nat> {
    crate::algo::split_dp::chunks(amount_in, alloc)
}

/// Summing the live values, where every value left out is zero, is
/// summing them all.
proof fn lemma_live_is_all(v: Seq<nat>, d: Seq<bool>, i: nat)
    requires
        i <= d.len(),
        v.len() == d.len(),
        forall|x: int| 0 <= x < i && #[trigger] d[x] ==> v[x] == 0,
    ensures
        sum_live(v, d, i) == mod_sum(v, i),
    decreases i,
{
    lemma_modulus_positive();
    if i > 0 {
        lemma_live_is_all(v, d, (i - 1) as nat);
        if d[i - 1] {
            lemma_mod_sum_bound(v, (i - 1) as nat);
            lemma_small_mod(mod_sum(v, (i - 1) as nat), modulus());
        }
    }
}

/// When every leg that received input delivered, the delivered legs'
/// inputs, taken largest first, add up to the whole input.
pub(crate) proof fn lemma_whole_input(amount_in: nat, alloc: Seq<nat>, per: Seq<Option<nat>>, k: nat)
    requires
        amount_in < modulus(),
        alloc.len() > 0,
        per.len() == alloc.len(),
        k >= alloc.len(),
        forall|i: int| 0 <= i < per.len() && #[trigger] leg_inputs(amount_in, alloc)[i] > 0 ==> per[i] is Some,
    ensures
        sum_at(leg_inputs(amount_in, alloc), top_picks(leg_inputs(amount_in, alloc), idle(per), k)) == amount_in,
{
    let v = leg_inputs(amount_in, alloc);
    let n = alloc.len();
    crate::algo::split_dp::lemma_leg_inputs_len(amount_in, alloc);
    lemma_count_live_bound(idle(per), n);
    lemma_picks_sum(v, v, idle(per), k);
    assert forall|x: int| 0 <= x < n && #[trigger] idle(per)[x] implies v[x] == 0 by {
        assert(per[x] is None);
    }
    lemma_live_is_all(v, idle(per), n);
    lemma_leg_inputs_sum(amount_in, alloc);
}

/// A sum over indices, term by term, is the sum of the terms.
proof fn lemma_total_of_terms(s: Seq<nat>, v: Seq<nat>, order: Seq<int>)
    requires
        s.len() == order.len(),
        forall|t: int| 0 <= t < s.len() ==> #[trigger] s[t] == v[order[t]],
    ensures
        total_of(s) == sum_at(v, order),
    decreases s.len(),
{
    if s.len() > 0 {
        lemma_total_of_terms(s.drop_last(), v, order.drop_last());
    }
}

/// Law: the legs of a split answer add up to its totals. For every
/// `FoundSplit` that split routing reports, the legs' inputs summed modulo
/// 2^256 give the reported input and their outputs the reported output.
pub proof fn law_split_legs_add_up(
    g: &Graph,
    src: Address,
    dst: Address,
    amount_in: U256,
    with_trace: bool,
    gas: GasModel,
    r: SolveResult,
)
    requires
        g.wf(),
        dp_contract(g, src, dst, amount_in, with_trace, gas, r),
        r.outcome is FoundSplit,
    ensures
        match r.outcome {
            Outcome::FoundSplit { legs, amount_in: given, amount_out, .. } => {
                &&& total_of(leg_ins(legs@)) == given.val()
                &&& total_of(leg_outs(legs@)) == amount_out.val()
            },
            _ => true,
        },
{
    amount_in.lemma_val_bound();
    let si = token_index(g.tokens@, src);
    let di = token_index(g.tokens@, dst);
    match r.outcome {
        Outcome::FoundSplit { legs, amount_in: given, amount_out, .. } => {
            assert(si >= 0 && di >= 0);
            if si == di {
                lemma_total_of_one(leg_ins(legs@));
                lemma_total_of_one(leg_outs(legs@));
            } else {
                let seed = if with_trace {
                    seq![crate::trace::Step::Visit(si as usize)]
                } else {
                    Seq::<crate::trace::Step>::empty()
                };
                let cands = choose|cands: Seq<Seq<usize>>|
                    #[trigger] emits(g, cands, si, di, MAX_HOPS as nat) && dp_answers(g, cands, amount_in, gas, di, seed, r);
                let sc = scored(g, cands, amount_in, gas, di, cands.len());
                assert(sc.len() > 0);
                lemma_split_report_sums(g, sc, amount_in, gas, di, r.outcome);
            }
        },
        _ => {},
    }
}

/// Law: split routing never nets less than its best-ranked route alone.
/// For every `FoundSplit` between two different tokens, the output net of
/// gas is at least the output net of gas of the top-ranked candidate route
/// walked at the full amount, whenever that walk succeeds.
pub proof fn law_split_dp_floors_at_best_route(
    g: &Graph,
    src: Address,
    dst: Address,
    amount_in: U256,
    with_trace: bool,
    gas: GasModel,
    r: SolveResult,
)
    requires
        g.wf(),
        dp_contract(g, src, dst, amount_in, with_trace, gas, r),
        r.outcome is FoundSplit,
        token_index(g.tokens@, src) != token_index(g.tokens@, dst),
    ensures
        exists|cands: Seq<Seq<usize>>|
            #[trigger] emits(g, cands, token_index(g.tokens@, src), token_index(g.tokens@, dst), MAX_HOPS as nat)
                && {
                let sc = scored(g, cands, amount_in, gas, token_index(g.tokens@, dst), cands.len());
                let best = routes_of(sc)[0];
                let single = walk_fixed(g, best.0, best.1, amount_in.val(), best.1.len());
                let single_gas = route_gas(g, gas, best.1.len(), token_index(g.tokens@, dst));
                &&& sc.len() > 0
                &&& match r.outcome {
                    Outcome::FoundSplit { amount_out, gas_cost, .. } => single matches Some(so) ==> sat_sub(
                        amount_out.val(),
                        gas_cost.val(),
                    ) >= sat_sub(so, single_gas),
                    _ => true,
                }
            },
{
    let si = token_index(g.tokens@, src);
    let di = token_index(g.tokens@, dst);
    let seed = if with_trace {
        seq![crate::trace::Step::Visit(si as usize)]
    } else {
        Seq::<crate::trace::Step>::empty()
    };
    assert(si >= 0 && di >= 0);
    let cands = choose|cands: Seq<Seq<usize>>|
        #[trigger] emits(g, cands, si, di, MAX_HOPS as nat) && dp_answers(g, cands, amount_in, gas, di, seed, r);
    let sc = scored(g, cands, amount_in, gas, di, cands.len());
    assert(sc.len() > 0);
    let routes = routes_of(sc);
    let single = walk_fixed(g, routes[0].0, routes[0].1, amount_in.val(), routes[0].1.len());
    match r.outcome {
        Outcome::FoundSplit { amount_out, gas_cost, .. } => {
            if single is Some {
                assert(dp_reports(g, sc, amount_in, gas, di, r.outcome));
            }
        },
        _ => {},
    }
}

/// Law: the pool-disjoint router's report never nets less than its seed
/// route alone: whenever the seed walks at the full amount, the reported
/// output net of gas is at least the seed's.
pub proof fn law_report_floors_at_seed(
    g: &Graph,
    paths: Seq<Seq<usize>>,
    per: Seq<Option<crate::algo::split_common::LegSim>>,
    keep: Seq<bool>,
    total_out: nat,
    seed_tp: Seq<usize>,
    seed_pp: Seq<usize>,
    amount_in: U256,
    gas: GasModel,
    d: int,
    trace: Seq<crate::trace::Step>,
    r: SolveResult,
)
    requires
        crate::algo::prime::report::split_reported(
            g,
            paths,
            per,
            keep,
            total_out,
            seed_tp,
            seed_pp,
            amount_in,
            gas,
            d,
            trace,
            r,
        ),
        walk_fixed(g, seed_tp, seed_pp, amount_in.val(), seed_pp.len()) is Some,
    ensures
        match r.outcome {
            Outcome::FoundSplit { amount_out, gas_cost, .. } => sat_sub(amount_out.val(), gas_cost.val())
                >= sat_sub(
                walk_fixed(g, seed_tp, seed_pp, amount_in.val(), seed_pp.len()).unwrap(),
                route_gas(g, gas, seed_pp.len(), d),
            ),
            _ => true,
        },
{
}

/// The allocation names one count per route.
pub(crate) proof fn lemma_backtrack_len_pub(quotes: Seq<Seq<nat>>, gas: Seq<nat>)
    ensures
        dp_allocation(quotes, gas).len() == quotes.len(),
{
    lemma_backtrack_len(quotes, gas, quotes.len(), N_CHUNKS as nat);
}

proof fn lemma_backtrack_len(quotes: Seq<Seq<nat>>, gas: Seq<nat>, i: nat, j: nat)
    ensures
        backtrack(quotes, gas, i, j).len() == i,
    decreases i,
{
    if i > 0 {
        let k = next_choices(dp_row(quotes, gas, (i - 1) as nat), quotes[i - 1], gas[i - 1])[j as int];
        lemma_backtrack_len(quotes, gas, (i - 1) as nat, sat_sub(j, k));
    }
}

proof fn lemma_count_live_all_done(d: Seq<bool>, i: nat)
    requires
        i <= d.len(),
        forall|x: int| 0 <= x < d.len() ==> #[trigger] d[x],
    ensures
        count_live(d, i) == 0,
    decreases i,
{
    if i > 0 {
        lemma_count_live_all_done(d, (i - 1) as nat);
    }
}

/// What `dp_reports` describes adds up.
proof fn lemma_split_report_sums(
    g: &Graph,
    sc: Seq<(Seq<usize>, Seq<usize>, nat)>,
    amount_in: U256,
    gas: GasModel,
    d: int,
    o: Outcome,
)
    requires
        dp_reports(g, sc, amount_in, gas, d, o),
        o is FoundSplit,
    ensures
        match o {
            Outcome::FoundSplit { legs, amount_in: given, amount_out, .. } => {
                &&& total_of(leg_ins(legs@)) == given.val()
                &&& total_of(leg_outs(legs@)) == amount_out.val()
            },
            _ => true,
        },
{
    amount_in.lemma_val_bound();
    lemma_modulus_positive();
    let routes = routes_of(sc);
    let tps = route_tokens(routes);
    let pps = route_pools(routes);
    let quotes = quote_rows(g, routes, amount_in.val());
    let gr = gas_row(g, routes, gas, d);
    let alloc = dp_allocation(quotes, gr);
    let inputs = leg_inputs(amount_in.val(), alloc);
    crate::algo::split_dp::lemma_leg_inputs_len(amount_in.val(), alloc);
    let st0 = reserves_view(initial_view(g));
    let (st, total, per) = simulate_spec(g, tps, pps, inputs, st0);
    let order = top_picks(inputs, idle(per), routes.len());
    let cost = gas_cost_spec(
        gas.gas_price_wei as nat,
        gas_units_spec(gas.enabled_spec(), order.len(), hops_at(routes, order)),
        g.tokens@[d].true_price_pico_usd as nat,
        g.tokens@[d].decimals as nat,
    );
    let single = walk_fixed(g, routes[0].0, routes[0].1, amount_in.val(), routes[0].1.len());
    let single_gas = route_gas(g, gas, routes[0].1.len(), d);
    match o {
        Outcome::FoundSplit { legs, amount_in: given, amount_out, .. } => {
            amount_out.lemma_val_bound();
            given.lemma_val_bound();
            if single matches Some(so) && sat_sub(so, single_gas) > sat_sub(total, cost) {
                legs@[0].amount_out.lemma_val_bound();
                lemma_total_of_one(leg_ins(legs@));
                lemma_total_of_one(leg_outs(legs@));
            } else {
                lemma_backtrack_len(quotes, gr, quotes.len(), N_CHUNKS as nat);
                let n = inputs.len();
                let done0 = Seq::new(n, |i: int| false);
                let per0 = Seq::new(n, |i: int| None::<nat>);
                assert(idle(per0) =~= Seq::new(n, |i: int| true));
                lemma_count_live_all_done(idle(per0), n);
                lemma_sum_live_none(outs(per0), idle(per0), n);
                lemma_sim_total(g, tps, pps, inputs, done0, st0, 0, per0, n);
                lemma_top_picks(inputs, idle(per), routes.len() as nat);
                assert forall|t: int| 0 <= t < leg_ins(legs@).len() implies #[trigger] leg_ins(legs@)[t] == inputs[order[t]] by {
                    assert(leg_matches(g, legs@[t], tps[order[t]], pps[order[t]], inputs[order[t]], per[order[t]].unwrap()));
                }
                lemma_total_of_terms(leg_ins(legs@), inputs, order);
                assert forall|t: int| 0 <= t < leg_outs(legs@).len() implies #[trigger] leg_outs(legs@)[t] == outs(per)[order[t]] by {
                    assert(leg_matches(g, legs@[t], tps[order[t]], pps[order[t]], inputs[order[t]], per[order[t]].unwrap()));
                    assert(!idle(per)[order[t]]);
                }
                lemma_total_of_terms(leg_outs(legs@), outs(per), order);
                lemma_count_live_bound(idle(per), n);
                lemma_picks_sum(inputs, outs(per), idle(per), routes.len());
            }
        },
        _ => {},
    }
}

} // verus!
