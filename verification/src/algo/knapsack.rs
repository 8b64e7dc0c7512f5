//! The knapsack's allocation is optimal: among all ways of spreading the
//! `N_CHUNKS` chunks over the routes, none nets a larger sum of quotes than
//! the one `dp_allocation` reads back, as long as those sums stay below
//! 2^256 (where the 256-bit additions of the table do not wrap).
use crate::algo::split_common::sat_sub;
use crate::algo::split_dp::{backtrack, best_k, contribution, dp_allocation, dp_row, next_choices, N_CHUNKS};
use crate::uint::modulus;
use vstd::prelude::*;

verus! {

/// Chunks given to the first `i` routes.
pub open spec fn chunks_used(a: Seq<nat>, i: nat) -> nat
    decreases i,
{
    if i == 0 {
        0
    } else {
        chunks_used(a, (i - 1) as nat) + a[i - 1]
    }
}

/// Net quotes of the first `i` routes under allocation `a`, summed exactly.
pub open spec fn allocation_value(quotes: Seq<Seq<nat>>, gas: Seq<nat>, a: Seq<nat>, i: nat) -> nat
    decreases i,
{
    if i == 0 {
        0
    } else {
        allocation_value(quotes, gas, a, (i - 1) as nat) + contribution(quotes[i - 1], gas[i - 1], a[i - 1])
    }
}

/// The largest of the first `k` quotes of a row.
pub open spec fn row_max(q: Seq<nat>, k: nat) -> nat
    decreases k,
{
    if k == 0 {
        0
    } else if q[k - 1] > row_max(q, (k - 1) as nat) {
        q[k - 1]
    } else {
        row_max(q, (k - 1) as nat)
    }
}

/// The routes' largest quotes summed over the first `i` routes.
pub open spec fn quote_cap(quotes: Seq<Seq<nat>>, i: nat) -> nat
    decreases i,
{
    if i == 0 {
        0
    } else {
        quote_cap(quotes, (i - 1) as nat) + row_max(quotes[i - 1], (N_CHUNKS + 1) as nat)
    }
}

proof fn lemma_row_max(q: Seq<nat>, k: nat, x: nat)
    requires
        x < k,
    ensures
        q[x as int] <= row_max(q, k),
    decreases k,
{
    if x < k - 1 {
        lemma_row_max(q, (k - 1) as nat, x);
    }
}

proof fn lemma_contribution_capped(q: Seq<nat>, gas_i: nat, k: nat)
    requires
        k <= N_CHUNKS,
    ensures
        contribution(q, gas_i, k) <= row_max(q, (N_CHUNKS + 1) as nat),
{
    if k > 0 {
        lemma_row_max(q, (N_CHUNKS + 1) as nat, k);
    }
}

proof fn lemma_cap_grows(quotes: Seq<Seq<nat>>, i: nat, n: nat)
    requires
        i <= n,
    ensures
        quote_cap(quotes, i) <= quote_cap(quotes, n),
    decreases n,
{
    if i < n {
        lemma_cap_grows(quotes, i, (n - 1) as nat);
    }
}

/// What the best choice for one cell is: found exactly when some earlier
/// cell is reachable; its value that cell's plus the contribution, modulo
/// 2^256; and no reachable choice does better.
proof fn lemma_best_k(prev: Seq<Option<nat>>, q: Seq<nat>, gas_i: nat, j: nat, k: nat)
    requires
        k <= j + 1,
    ensures
        ({
            let (b, bk) = best_k(prev, q, gas_i, j, k);
            &&& (b is Some <==> exists|kk: nat| kk < k && #[trigger] prev[j - kk] is Some)
            &&& (b matches Some(v) ==> bk < k && prev[j - bk] is Some && v == (prev[j - bk].unwrap()
                + contribution(q, gas_i, bk)) % modulus())
            &&& forall|kk: nat|
                kk < k && #[trigger] prev[j - kk] is Some ==> (prev[j - kk].unwrap() + contribution(q, gas_i, kk))
                    % modulus() <= b.unwrap()
        }),
    decreases k,
{
    if k > 0 {
        lemma_best_k(prev, q, gas_i, j, (k - 1) as nat);
        let kk = (k - 1) as nat;
        if prev[j - kk] is Some {
            assert(exists|x: nat| x < k && #[trigger] prev[j - x] is Some) by {
                assert(prev[j - kk] is Some);
            }
        }
    }
}

/// Every value of row `i` is at most the cap of the first `i` routes, when
/// that cap is below 2^256.
proof fn lemma_row_capped(quotes: Seq<Seq<nat>>, gas: Seq<nat>, i: nat, j: nat)
    requires
        i <= quotes.len(),
        i <= gas.len(),
        j <= N_CHUNKS,
        quote_cap(quotes, i) < modulus(),
    ensures
        dp_row(quotes, gas, i)[j as int] matches Some(v) ==> v <= quote_cap(quotes, i),
    decreases i,
{
    if i > 0 {
        let prev = dp_row(quotes, gas, (i - 1) as nat);
        let q = quotes[i - 1];
        let g = gas[i - 1];
        lemma_best_k(prev, q, g, j, j + 1);
        let (b, bk) = best_k(prev, q, g, j, j + 1);
        if b is Some {
            lemma_cap_grows(quotes, (i - 1) as nat, i);
            lemma_row_capped(quotes, gas, (i - 1) as nat, (j - bk) as nat);
            lemma_contribution_capped(q, g, bk);
            vstd::arithmetic::div_mod::lemma_small_mod(
                (prev[j - bk].unwrap() + contribution(q, g, bk)) as nat,
                modulus(),
            );
        }
    }
}

/// Row `i` holds, at `j`, at least the value of any allocation of `j`
/// chunks over the first `i` routes.
proof fn lemma_row_bounds(quotes: Seq<Seq<nat>>, gas: Seq<nat>, a: Seq<nat>, i: nat, j: nat)
    requires
        i <= quotes.len(),
        i <= gas.len(),
        i <= a.len(),
        j <= N_CHUNKS,
        chunks_used(a, i) == j,
        quote_cap(quotes, i) < modulus(),
    ensures
        dp_row(quotes, gas, i)[j as int] is Some,
        allocation_value(quotes, gas, a, i) <= dp_row(quotes, gas, i)[j as int].unwrap(),
    decreases i,
{
    if i > 0 {
        let prev = dp_row(quotes, gas, (i - 1) as nat);
        let q = quotes[i - 1];
        let g = gas[i - 1];
        let kk = a[i - 1];
        lemma_cap_grows(quotes, (i - 1) as nat, i);
        lemma_row_bounds(quotes, gas, a, (i - 1) as nat, (j - kk) as nat);
        lemma_best_k(prev, q, g, j, j + 1);
        assert(prev[j - kk] is Some);
        lemma_row_capped(quotes, gas, (i - 1) as nat, (j - kk) as nat);
        lemma_contribution_capped(q, g, kk);
        vstd::arithmetic::div_mod::lemma_small_mod((prev[j - kk].unwrap() + contribution(q, g, kk)) as nat, modulus());
    }
}

/// Reading the choices back from a reachable cell gives an allocation of
/// its chunks whose value is the cell's.
proof fn lemma_backtrack_achieves(quotes: Seq<Seq<nat>>, gas: Seq<nat>, i: nat, j: nat)
    requires
        i <= quotes.len(),
        i <= gas.len(),
        j <= N_CHUNKS,
        dp_row(quotes, gas, i)[j as int] is Some,
        quote_cap(quotes, i) < modulus(),
    ensures
        backtrack(quotes, gas, i, j).len() == i,
        chunks_used(backtrack(quotes, gas, i, j), i) == j,
        allocation_value(quotes, gas, backtrack(quotes, gas, i, j), i) == dp_row(quotes, gas, i)[j as int].unwrap(),
    decreases i,
{
    if i > 0 {
        let prev = dp_row(quotes, gas, (i - 1) as nat);
        let q = quotes[i - 1];
        let g = gas[i - 1];
        lemma_best_k(prev, q, g, j, j + 1);
        let (b, bk) = best_k(prev, q, g, j, j + 1);
        assert(next_choices(prev, q, g)[j as int] == bk);
        lemma_cap_grows(quotes, (i - 1) as nat, i);
        lemma_backtrack_achieves(quotes, gas, (i - 1) as nat, (j - bk) as nat);
        lemma_row_capped(quotes, gas, (i - 1) as nat, (j - bk) as nat);
        lemma_contribution_capped(q, g, bk);
        vstd::arithmetic::div_mod::lemma_small_mod((prev[j - bk].unwrap() + contribution(q, g, bk)) as nat, modulus());
        let rest = backtrack(quotes, gas, (i - 1) as nat, sat_sub(j, bk));
        assert(backtrack(quotes, gas, i, j) == rest.push(bk));
        lemma_prefix_same(quotes, gas, rest, bk, (i - 1) as nat);
    }
}

/// Appending leaves the sums over a prefix alone.
proof fn lemma_prefix_same(quotes: Seq<Seq<nat>>, gas: Seq<nat>, a: Seq<nat>, x: nat, i: nat)
    requires
        i <= a.len(),
    ensures
        chunks_used(a.push(x), i) == chunks_used(a, i),
        allocation_value(quotes, gas, a.push(x), i) == allocation_value(quotes, gas, a, i),
    decreases i,
{
    if i > 0 {
        lemma_prefix_same(quotes, gas, a, x, (i - 1) as nat);
    }
}

/// Law: the knapsack's allocation is optimal. For quote rows of
/// `N_CHUNKS + 1` entries whose largest quotes sum below 2^256, the
/// allocation `dp_allocation` reads back spends all `N_CHUNKS` chunks, and
/// no allocation of `N_CHUNKS` chunks over the routes nets a larger sum of
/// quotes less gas.
pub proof fn law_knapsack_is_optimal(quotes: Seq<Seq<nat>>, gas: Seq<nat>, a: Seq<nat>)
    requires
        quotes.len() == gas.len(),
        a.len() == quotes.len(),
        chunks_used(a, a.len()) == N_CHUNKS,
        quote_cap(quotes, quotes.len()) < modulus(),
    ensures
        dp_allocation(quotes, gas).len() == quotes.len(),
        chunks_used(dp_allocation(quotes, gas), quotes.len()) == N_CHUNKS,
        allocation_value(quotes, gas, a, quotes.len()) <= allocation_value(
            quotes,
            gas,
            dp_allocation(quotes, gas),
            quotes.len(),
        ),
{
    lemma_row_bounds(quotes, gas, a, quotes.len(), N_CHUNKS as nat);
    lemma_backtrack_achieves(quotes, gas, quotes.len(), N_CHUNKS as nat);
}

} // verus!
