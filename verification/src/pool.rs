//! Constant-product (Uniswap-V2 style) pools and their exact swap maths.
use crate::address::Address;
use crate::ratio::{Natural, Ratio};
use crate::uint::{modulus, U256};
use vstd::prelude::*;

verus! {

/// Basis-point denominator of the fee.
pub const FEE_DENOM: u64 = 10_000;

/// A constant-product pool between `token_a` and `token_b`.
#[derive(Debug, Clone, PartialEq, Eq)]
pub struct Pool {
    pub address: Address,
    pub token_a: Address,
    pub token_b: Address,
    pub reserve_a: U256,
    pub reserve_b: U256,
    pub fee_bps: u16,
    /// Venue tag, e.g. "Uniswap V2".
    pub venue: String,
}

/// Input with the fee taken off, scaled by the fee denominator, modulo 2^256.
pub open spec fn fee_scaled_input(fee_bps: nat, amount_in: nat) -> nat {
    (amount_in * ((FEE_DENOM - fee_bps) as nat)) % modulus()
}

/// Denominator of the constant-product quote, computed modulo 2^256 as the
/// 256-bit arithmetic does.
pub open spec fn swap_denominator(r_in: nat, fee_bps: nat, amount_in: nat) -> nat {
    ((r_in * (FEE_DENOM as nat)) % modulus() + fee_scaled_input(fee_bps, amount_in)) % modulus()
}

/// Uniswap-V2 output for `amount_in` against reserves `(r_in, r_out)`:
/// `floor(a·(10⁴−fee)·r_out / (r_in·10⁴ + a·(10⁴−fee)))`, each product and
/// the sum taken modulo 2^256; zero for a zero input.
pub open spec fn swap_output(r_in: nat, r_out: nat, fee_bps: nat, amount_in: nat) -> nat {
    if amount_in == 0 {
        0
    } else {
        ((fee_scaled_input(fee_bps, amount_in) * r_out) % modulus()) / swap_denominator(
            r_in,
            fee_bps,
            amount_in,
        )
    }
}

/// Whether the quote is computable: the fee is at most 100% and a non-zero
/// input meets a non-zero denominator.
pub open spec fn swap_defined(r_in: nat, fee_bps: nat, amount_in: nat) -> bool {
    &&& fee_bps <= FEE_DENOM
    &&& (amount_in == 0 || swap_denominator(r_in, fee_bps, amount_in) != 0)
}

impl Pool {
    /// Whether `t` is one of the pool's two tokens.
    pub open spec fn has_token(&self, t: Address) -> bool {
        t == self.token_a || t == self.token_b
    }

    /// `(reserve of in_token, reserve of the other token)`.
    pub open spec fn reserves_spec(&self, in_token: Address) -> (U256, U256) {
        if in_token == self.token_a {
            (self.reserve_a, self.reserve_b)
        } else {
            (self.reserve_b, self.reserve_a)
        }
    }

    /// The token received for `in_token`.
    pub open spec fn other_spec(&self, in_token: Address) -> Address {
        if in_token == self.token_a {
            self.token_b
        } else {
            self.token_a
        }
    }

    /// Output of swapping `amount_in` of `in_token` through this pool.
    pub open spec fn output_spec(&self, in_token: Address, amount_in: nat) -> nat {
        swap_output(
            self.reserves_spec(in_token).0.val(),
            self.reserves_spec(in_token).1.val(),
            self.fee_bps as nat,
            amount_in,
        )
    }

    /// Whether swapping `amount_in` of `in_token` is computable here.
    pub open spec fn swap_ok(&self, in_token: Address, amount_in: nat) -> bool {
        &&& self.has_token(in_token)
        &&& swap_defined(self.reserves_spec(in_token).0.val(), self.fee_bps as nat, amount_in)
    }

    /// `(reserve of in_token, reserve of the other token)`; `in_token` must
    /// be one of the pool's tokens.
    pub fn reserves_for(&self, in_token: Address) -> (r: (U256, U256))
        requires
            self.has_token(in_token),
        ensures
            r == self.reserves_spec(in_token),
    {
        if in_token == self.token_a {
            (self.reserve_a, self.reserve_b)
        } else {
            (self.reserve_b, self.reserve_a)
        }
    }

    /// The pool's other token; `in_token` must be one of the pool's tokens.
    pub fn other_token(&self, in_token: Address) -> (r: Address)
        requires
            self.has_token(in_token),
        ensures
            r == self.other_spec(in_token),
    {
        if in_token == self.token_a {
            self.token_b
        } else {
            self.token_a
        }
    }

    /// Uniswap-V2 constant-product output, with a single floor division at
    /// the end as on chain.
    pub fn output_amount(&self, in_token: Address, amount_in: U256) -> (r: U256)
        requires
            self.swap_ok(in_token, amount_in.val()),
        ensures
            r.val() == self.output_spec(in_token, amount_in.val()),
    {
        if amount_in.is_zero() {
            return U256::zero();
        }
        let (r_in, r_out) = self.reserves_for(in_token);
        let fee_denom = U256::from_u64(FEE_DENOM);
        let fee_mult = U256::from_u64(FEE_DENOM - self.fee_bps as u64);
        let amount_in_with_fee = amount_in.wrapping_mul(fee_mult);
        let numerator = amount_in_with_fee.wrapping_mul(r_out);
        let denominator = r_in.wrapping_mul(fee_denom).wrapping_add(amount_in_with_fee);
        numerator.div(denominator)
    }

    /// Whether swapping `amount_in` of `in_token` is computable here.
    pub fn can_swap(&self, in_token: Address, amount_in: U256) -> (r: bool)
        ensures
            r == self.swap_ok(in_token, amount_in.val()),
    {
        if in_token != self.token_a && in_token != self.token_b {
            return false;
        }
        if self.fee_bps as u64 > FEE_DENOM {
            return false;
        }
        if amount_in.is_zero() {
            return true;
        }
        let (r_in, _) = self.reserves_for(in_token);
        let fee_mult = U256::from_u64(FEE_DENOM - self.fee_bps as u64);
        let amount_in_with_fee = amount_in.wrapping_mul(fee_mult);
        let denominator = r_in.wrapping_mul(U256::from_u64(FEE_DENOM)).wrapping_add(
            amount_in_with_fee,
        );
        !denominator.is_zero()
    }

    /// The swap output where it is computable, `None` where computing it
    /// would divide by zero or the token is not the pool's.
    pub fn quote(&self, in_token: Address, amount_in: U256) -> (r: Option<U256>)
        ensures
            match r {
                Some(out) => self.swap_ok(in_token, amount_in.val()) && out.val()
                    == self.output_spec(in_token, amount_in.val()),
                None => !self.swap_ok(in_token, amount_in.val()),
            },
    {
        if self.can_swap(in_token, amount_in) {
            Some(self.output_amount(in_token, amount_in))
        } else {
            None
        }
    }
}

impl Pool {
    /// Numerator of the marginal exchange rate `r_out·(10⁴−fee) / (r_in·10⁴)`.
    pub open spec fn rate_num(&self, in_token: Address) -> nat {
        self.reserves_spec(in_token).1.val() * ((FEE_DENOM - self.fee_bps) as nat)
    }

    /// Denominator of the marginal exchange rate.
    pub open spec fn rate_den(&self, in_token: Address) -> nat {
        self.reserves_spec(in_token).0.val() * (FEE_DENOM as nat)
    }

    /// The marginal rate is a finite positive number: both reserves are
    /// positive and the fee is below 100%.
    pub open spec fn rate_usable(&self, in_token: Address) -> bool {
        &&& self.reserves_spec(in_token).0.val() > 0
        &&& self.reserves_spec(in_token).1.val() > 0
        &&& self.fee_bps < FEE_DENOM
    }

    /// Marginal exchange rate for selling `in_token`: output per unit input
    /// at zero size, net of the fee, as an exact fraction.
    pub fn marginal_rate(&self, in_token: Address) -> (r: Ratio)
        requires
            self.has_token(in_token),
            self.fee_bps <= FEE_DENOM,
        ensures
            r.num.val() == self.rate_num(in_token),
            r.den.val() == self.rate_den(in_token),
    {
        let (r_in, r_out) = self.reserves_for(in_token);
        let num = Natural::from_u256(&r_out).mul(&Natural::from_u64(FEE_DENOM - self.fee_bps as u64));
        let den = Natural::from_u256(&r_in).mul(&Natural::from_u64(FEE_DENOM));
        Ratio::new(num, den)
    }

    /// The marginal rate where it is a finite positive number, else `None`
    /// (an edge that the routers skip).
    pub fn usable_rate(&self, in_token: Address) -> (r: Option<Ratio>)
        requires
            self.has_token(in_token),
        ensures
            match r {
                Some(q) => self.rate_usable(in_token) && q.num.val() == self.rate_num(in_token)
                    && q.den.val() == self.rate_den(in_token),
                None => !self.rate_usable(in_token),
            },
    {
        let (r_in, r_out) = self.reserves_for(in_token);
        if r_in.is_zero() || r_out.is_zero() || self.fee_bps as u64 >= FEE_DENOM {
            None
        } else {
            Some(self.marginal_rate(in_token))
        }
    }
}

/// Law: nothing in, nothing out.
pub proof fn law_zero_input_gives_zero_output(pool: Pool, in_token: Address)
    ensures
        pool.output_spec(in_token, 0) == 0,
{
}

/// The reserve product moves by the fee's share of the trade plus the
/// rounding residue: `D·((r_in + a)(r_out − out) − r_in·r_out) =
/// a·(D − f)·(r_out − out) + (a·f·r_out mod (r_in·D + a·f))`, and the output
/// stays below the reserve.
proof fn lemma_product_shift(r_in: int, r_out: int, a: int, f: int, dd: int, out: int, rem: int)
    by (nonlinear_arith)
    requires
        r_in >= 0,
        r_out >= 0,
        a >= 0,
        0 <= f <= dd,
        r_in * dd + a * f > 0,
        a * f * r_out == out * (r_in * dd + a * f) + rem,
        0 <= rem < r_in * dd + a * f,
        out >= 0,
    ensures
        out <= r_out,
        dd * ((r_in + a) * (r_out - out) - r_in * r_out) == a * (dd - f) * (r_out - out) + rem,
        r_in > 0 && r_out > 0 ==> out < r_out,
{
}

/// Law: a swap never shrinks the reserve product `k`, and never drains the
/// output reserve: against non-empty reserves the output stays below it.
/// With a fee and a
/// positive trade against non-empty reserves `k` strictly grows; at zero fee
/// it grows by less than the new input reserve (the floor division's
/// residue). Stated for swaps whose 256-bit products do not wrap: `a·f·r_out`
/// and `r_in·10⁴ + a·f` below 2^256, with `f = 10⁴ − fee`.
pub proof fn law_swap_never_shrinks_product(pool: Pool, in_token: Address, a: nat)
    requires
        pool.has_token(in_token),
        pool.fee_bps <= FEE_DENOM,
        ({
            let r_in = pool.reserves_spec(in_token).0.val();
            let r_out = pool.reserves_spec(in_token).1.val();
            let f = (FEE_DENOM - pool.fee_bps) as nat;
            &&& r_in * FEE_DENOM + a * f < modulus()
            &&& a * f * r_out < modulus()
            &&& r_in * FEE_DENOM + a * f > 0
        }),
    ensures
        ({
            let r_in = pool.reserves_spec(in_token).0.val();
            let r_out = pool.reserves_spec(in_token).1.val();
            let out = pool.output_spec(in_token, a);
            &&& out <= r_out
            &&& (r_in > 0 && r_out > 0) ==> out < r_out
            &&& (r_in + a) * (r_out - out) >= r_in * r_out
            &&& (pool.fee_bps > 0 && a > 0 && r_in > 0 && r_out > 0) ==> (r_in + a) * (r_out - out) > r_in
                * r_out
            &&& pool.fee_bps == 0 ==> (r_in + a) * (r_out - out) < r_in * r_out + r_in + a
        }),
{
    let r_in = pool.reserves_spec(in_token).0.val();
    let r_out = pool.reserves_spec(in_token).1.val();
    let f = (FEE_DENOM - pool.fee_bps) as nat;
    let dd = FEE_DENOM as nat;
    let m = modulus();
    let af = a * f;
    let d = r_in * dd + af;
    let q = af * r_out;
    assert(af <= d);
    vstd::arithmetic::div_mod::lemma_small_mod(af, m);
    vstd::arithmetic::div_mod::lemma_small_mod(r_in * dd, m);
    vstd::arithmetic::div_mod::lemma_small_mod(d, m);
    vstd::arithmetic::div_mod::lemma_small_mod(q, m);
    assert(fee_scaled_input(pool.fee_bps as nat, a) == af);
    assert(swap_denominator(r_in, pool.fee_bps as nat, a) == d);
    let out = pool.output_spec(in_token, a);
    if a == 0 {
        assert(out == 0);
        assert(q == 0) by (nonlinear_arith)
            requires
                af == a * f,
                q == af * r_out,
                a == 0,
        ;
        lemma_product_shift(r_in as int, r_out as int, 0, f as int, dd as int, 0, 0);
    } else {
        assert(out == q / d);
        vstd::arithmetic::div_mod::lemma_fundamental_div_mod(q as int, d as int);
        let rem = q % d;
        lemma_product_shift(r_in as int, r_out as int, a as int, f as int, dd as int, out as int, rem as int);
        if pool.fee_bps > 0 && r_in > 0 && r_out > 0 {
            assert(a * (dd - f) * (r_out - out) > 0) by (nonlinear_arith)
                requires
                    a > 0,
                    dd > f,
                    r_out > out,
            ;
        }
        if pool.fee_bps == 0 {
            assert(f == dd);
            assert(dd * ((r_in + a) * (r_out - out) - r_in * r_out) < dd * (r_in + a)) by (nonlinear_arith)
                requires
                    dd * ((r_in + a) * (r_out - out) - r_in * r_out) == a * (dd - f) * (r_out - out) + rem,
                    f == dd,
                    rem < r_in * dd + a * f,
            ;
        }
    }
}

impl Pool {
    /// Moves the pool's price by `bps` basis points in favour of `token_b`:
    /// `reserve_a` grows by the factor `(10⁴ + bps)/10⁴` and `reserve_b`
    /// shrinks by its inverse, each product taken modulo 2^256 and each
    /// quotient rounded down. Used to plant an arbitrage opportunity.
    pub fn skew_reserves(&mut self, bps: u64)
        requires
            bps <= u64::MAX - FEE_DENOM,
        ensures
            final(self).reserve_a.val() == ((old(self).reserve_a.val() * ((FEE_DENOM + bps) as nat))
                % modulus()) / (FEE_DENOM as nat),
            final(self).reserve_b.val() == ((old(self).reserve_b.val() * (FEE_DENOM as nat)) % modulus())
                / ((FEE_DENOM + bps) as nat),
            final(self).address == old(self).address,
            final(self).token_a == old(self).token_a,
            final(self).token_b == old(self).token_b,
            final(self).fee_bps == old(self).fee_bps,
            final(self).venue == old(self).venue,
    {
        let num = U256::from_u64(FEE_DENOM + bps);
        let denom = U256::from_u64(FEE_DENOM);
        self.reserve_a = self.reserve_a.wrapping_mul(num).div(denom);
        self.reserve_b = self.reserve_b.wrapping_mul(denom).div(num);
    }
}

/// Index of the first pool with address `addr` among the first `n` pools,
/// or -1.
pub open spec fn find_pool_upto(pools: Seq<Pool>, addr: Address, n: int) -> int
    decreases n,
{
    if n <= 0 {
        -1
    } else {
        let i = find_pool_upto(pools, addr, n - 1);
        if i >= 0 {
            i
        } else if pools[n - 1].address == addr {
            n - 1
        } else {
            -1
        }
    }
}

/// Index of the first pool with address `addr`, or -1.
pub open spec fn find_pool(pools: Seq<Pool>, addr: Address) -> int {
    find_pool_upto(pools, addr, pools.len() as int)
}

pub proof fn lemma_find_pool_upto(pools: Seq<Pool>, addr: Address, n: int)
    requires
        0 <= n <= pools.len(),
    ensures
        -1 <= find_pool_upto(pools, addr, n) < n,
        find_pool_upto(pools, addr, n) >= 0 ==> pools[find_pool_upto(pools, addr, n)].address
            == addr,
        find_pool_upto(pools, addr, n) == -1 ==> forall|j: int|
            0 <= j < n ==> pools[j].address != addr,
        forall|j: int| 0 <= j < find_pool_upto(pools, addr, n) ==> pools[j].address != addr,
    decreases n,
{
    if n > 0 {
        lemma_find_pool_upto(pools, addr, n - 1);
    }
}

/// Amount held after the first `k` hops of a swap route: `path[i]` is the
/// token sold at hop `i` and `used[i]` the address of the pool it goes
/// through.
pub open spec fn simulate_spec(
    path: Seq<Address>,
    used: Seq<Address>,
    pools: Seq<Pool>,
    amount_in: nat,
    k: nat,
) -> nat
    decreases k,
{
    if k == 0 {
        amount_in
    } else {
        pools[find_pool(pools, used[k - 1])].output_spec(
            path[k - 1],
            simulate_spec(path, used, pools, amount_in, (k - 1) as nat),
        )
    }
}

/// A route replay is computable: one more token than pools, every pool
/// address is found, and each hop's swap is computable.
pub open spec fn simulate_ok(
    path: Seq<Address>,
    used: Seq<Address>,
    pools: Seq<Pool>,
    amount_in: nat,
) -> bool {
    &&& path.len() == used.len() + 1
    &&& forall|k: int|
        0 <= k < used.len() ==> {
            &&& #[trigger] find_pool(pools, used[k]) >= 0
            &&& pools[find_pool(pools, used[k])].swap_ok(
                path[k],
                simulate_spec(path, used, pools, amount_in, k as nat),
            )
        }
}

/// First pool with address `addr`.
fn find_pool_index(pools: &[Pool], addr: Address) -> (r: usize)
    requires
        find_pool(pools@, addr) >= 0,
    ensures
        r as int == find_pool(pools@, addr),
{
    proof {
        lemma_find_pool_upto(pools@, addr, pools@.len() as int);
    }
    let mut i: usize = 0;
    while i < pools.len()
        invariant
            i <= pools.len(),
            find_pool(pools@, addr) >= 0,
            forall|j: int| 0 <= j < i ==> pools@[j].address != addr,
            -1 <= find_pool(pools@, addr) < pools@.len(),
            pools@[find_pool(pools@, addr)].address == addr,
            forall|j: int| 0 <= j < find_pool(pools@, addr) ==> pools@[j].address != addr,
        decreases pools.len() - i,
    {
        if pools[i].address == addr {
            assert(i as int == find_pool(pools@, addr));
            return i;
        }
        i = i + 1;
    }
    assert(false);
    0
}

/// Replaying a one-hop route is the swap through its pool: the output of
/// the first pool with that address for the route's first token.
pub proof fn law_one_hop_replay(a: Address, b: Address, pool: Address, pools: Seq<Pool>, amount_in: nat)
    ensures
        simulate_spec(seq![a, b], seq![pool], pools, amount_in, 1) == pools[find_pool(pools, pool)].output_spec(
            a,
            amount_in,
        ),
{
    assert(simulate_spec(seq![a, b], seq![pool], pools, amount_in, 0) == amount_in);
}

impl Pool {
    /// Replays a route: swaps `amount_in` along `path` through the pools
    /// named in `pools_used`, each looked up by address in `pools`.
    pub fn simulate_path(
        path: &[Address],
        pools_used: &[Address],
        pools: &[Pool],
        amount_in: U256,
    ) -> (r: U256)
        requires
            simulate_ok(path@, pools_used@, pools@, amount_in.val()),
        ensures
            r.val() == simulate_spec(
                path@,
                pools_used@,
                pools@,
                amount_in.val(),
                pools_used@.len() as nat,
            ),
    {
        let mut amount = amount_in;
        let mut hop: usize = 0;
        while hop < pools_used.len()
            invariant
                hop <= pools_used.len(),
                simulate_ok(path@, pools_used@, pools@, amount_in.val()),
                amount.val() == simulate_spec(
                    path@,
                    pools_used@,
                    pools@,
                    amount_in.val(),
                    hop as nat,
                ),
            decreases pools_used.len() - hop,
        {
            assert(find_pool(pools@, pools_used@[hop as int]) >= 0);
            proof {
                lemma_find_pool_upto(pools@, pools_used@[hop as int], pools@.len() as int);
            }
            let idx = find_pool_index(pools, pools_used[hop]);
            amount = pools[idx].output_amount(path[hop], amount);
            hop = hop + 1;
        }
        amount
    }
}

} // verus!
