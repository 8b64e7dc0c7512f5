//! Gas accounting for Uniswap-V2 style swaps.
//!
//! A one-hop swap costs 21k + 30k + 90k = 141k gas; each further hop adds
//! 90k and each further leg adds 30k for its router call.
use crate::uint::{modulus, U256};
use vstd::prelude::*;

verus! {

/// Base cost of a transaction.
pub const BASE_TX_GAS: u64 = 21_000;

/// Router call overhead per leg.
pub const ROUTER_OVERHEAD_GAS: u64 = 30_000;

/// Cost of one swap hop.
pub const PER_HOP_GAS: u64 = 90_000;

/// Reference USD price of one ETH.
pub const ETH_PRICE_USD: u64 = 3000;

/// 10^d.
pub open spec fn pow10(d: nat) -> nat
    decreases d,
{
    if d == 0 {
        1
    } else {
        10 * pow10((d - 1) as nat)
    }
}

/// 2^128, above which a converted gas cost saturates.
pub open spec fn cost_cap() -> nat {
    0x1_0000_0000_0000_0000_0000_0000_0000_0000nat
}

/// Gas units of a route: base cost, plus router overhead per leg, plus the
/// hop cost per hop; zero when gas accounting is off or the route is empty.
pub open spec fn gas_units_spec(enabled: bool, num_legs: nat, total_hops: nat) -> nat {
    if !enabled || num_legs == 0 || total_hops == 0 {
        0
    } else {
        BASE_TX_GAS as nat + num_legs * (ROUTER_OVERHEAD_GAS as nat) + total_hops * (PER_HOP_GAS as nat)
    }
}

/// Gas cost in base units of a token: `gas_units` at `wei` per unit, priced
/// at `ETH_PRICE_USD` per ETH, divided by the token's USD price (given in
/// 10⁻¹² USD) and scaled by its decimals, rounded down. Zero when gas is
/// off, no gas is used, the price is zero or the decimals exceed 30;
/// saturates to 2^256 − 1 from 2^128 on.
pub open spec fn gas_cost_spec(wei: nat, gas_units: nat, price_pico_usd: nat, decimals: nat) -> nat {
    if wei == 0 || gas_units == 0 || price_pico_usd == 0 || decimals > 30 {
        0
    } else {
        let q = (gas_units * wei * (ETH_PRICE_USD as nat) * pow10(decimals)) / (1_000_000
            * price_pico_usd);
        if q < cost_cap() {
            q
        } else {
            (modulus() - 1) as nat
        }
    }
}

/// How gas is charged: the gas price in wei. A zero price disables gas
/// accounting.
#[derive(Debug, Clone, Copy, PartialEq, Eq, Structural)]
pub struct GasModel {
    pub gas_price_wei: u64,
}

impl Default for GasModel {
    fn default() -> (r: Self)
        ensures
            r.gas_price_wei == 0,
    {
        GasModel::off()
    }
}

proof fn lemma_pow10_mono(a: nat, b: nat)
    requires
        a <= b,
    ensures
        1 <= pow10(a) <= pow10(b),
    decreases b,
{
    if b > a {
        lemma_pow10_mono(a, (b - 1) as nat);
    } else if a > 0 {
        lemma_pow10_mono((a - 1) as nat, (a - 1) as nat);
    }
}

impl GasModel {
    /// Gas accounting switched off.
    pub fn off() -> (r: Self)
        ensures
            r.gas_price_wei == 0,
    {
        GasModel { gas_price_wei: 0 }
    }

    /// Gas charged at `wei` per unit of gas.
    pub fn at_wei(wei: u64) -> (r: Self)
        ensures
            r.gas_price_wei == wei,
    {
        GasModel { gas_price_wei: wei }
    }

    /// Whether gas is charged.
    pub open spec fn enabled_spec(&self) -> bool {
        self.gas_price_wei > 0
    }

    /// Whether gas is charged.
    pub fn enabled(&self) -> (r: bool)
        ensures
            r == self.enabled_spec(),
    {
        self.gas_price_wei > 0
    }

    /// Gas units for a route of `num_legs` legs and `total_hops` hops.
    pub fn gas_units(&self, num_legs: usize, total_hops: usize) -> (r: u64)
        requires
            gas_units_spec(self.enabled_spec(), num_legs as nat, total_hops as nat) <= u64::MAX,
        ensures
            r == gas_units_spec(self.enabled_spec(), num_legs as nat, total_hops as nat),
    {
        if !self.enabled() || num_legs == 0 || total_hops == 0 {
            return 0;
        }
        BASE_TX_GAS + (num_legs as u64) * ROUTER_OVERHEAD_GAS + (total_hops as u64) * PER_HOP_GAS
    }

    /// Cost of `gas_units` in base units of a token priced at
    /// `dst_price_pico_usd` (10⁻¹² USD per whole token) with `dst_decimals`
    /// decimals.
    pub fn gas_to_dst_token(&self, gas_units: u64, dst_price_pico_usd: u64, dst_decimals: u8) -> (r:
        U256)
        ensures
            r.val() == gas_cost_spec(
                self.gas_price_wei as nat,
                gas_units as nat,
                dst_price_pico_usd as nat,
                dst_decimals as nat,
            ),
    {
        if !self.enabled() || gas_units == 0 || dst_price_pico_usd == 0 || dst_decimals > 30 {
            return U256::zero();
        }
        let wei = self.gas_price_wei;
        let ghost m = modulus();
        proof {
            assert(m == 0x1_0000_0000_0000_0000_0000_0000_0000_0000_0000_0000_0000_0000_0000_0000_0000_0000nat);
            assert((gas_units as nat) * (wei as nat) < 0x1_0000_0000_0000_0000_0000_0000_0000_0000nat)
                by (nonlinear_arith)
                requires
                    gas_units < 0x1_0000_0000_0000_0000nat,
                    wei < 0x1_0000_0000_0000_0000nat,
            ;
        }
        let units_wei = U256::from_u64(gas_units).mul(U256::from_u64(wei));
        let eth_usd = units_wei.mul(U256::from_u64(ETH_PRICE_USD));
        let mut scale = U256::from_u64(1);
        let mut d: u8 = 0;
        while d < dst_decimals
            invariant
                d <= dst_decimals <= 30,
                scale.val() == pow10(d as nat),
                m == modulus(),
                m == 0x1_0000_0000_0000_0000_0000_0000_0000_0000_0000_0000_0000_0000_0000_0000_0000_0000nat,
            decreases dst_decimals - d,
        {
            proof {
                lemma_pow10_mono(d as nat, 29);
                reveal_with_fuel(pow10, 30);
                assert(pow10(29) == 100_000_000_000_000_000_000_000_000_000nat);
            }
            scale = scale.mul(U256::from_u64(10));
            d = d + 1;
        }
        proof {
            lemma_pow10_mono(dst_decimals as nat, 30);
            reveal_with_fuel(pow10, 31);
            assert(pow10(30) == 1_000_000_000_000_000_000_000_000_000_000nat);
            let a = eth_usd.val();
            let s = scale.val();
            assert(a * s < m) by (nonlinear_arith)
                requires
                    a < 0x1_0000_0000_0000_0000_0000_0000_0000_0000nat * 3000,
                    s <= 1_000_000_000_000_000_000_000_000_000_000nat,
                    m == 0x1_0000_0000_0000_0000_0000_0000_0000_0000_0000_0000_0000_0000_0000_0000_0000_0000nat,
            ;
            assert(1_000_000 * (dst_price_pico_usd as nat) < m);
        }
        let numerator = eth_usd.mul(scale);
        let denominator = U256::from_u64(1_000_000).mul(U256::from_u64(dst_price_pico_usd));
        let q = numerator.div(denominator);
        let cap = U256::from_limbs([0, 0, 1, 0]);
        proof {
            assert(cap.val() == cost_cap()) by (nonlinear_arith)
                requires
                    cap.val() == 0nat + crate::uint::limb_base() * (0nat + crate::uint::limb_base()
                        * (1nat + crate::uint::limb_base() * 0nat)),
                    crate::uint::limb_base() == 0x1_0000_0000_0000_0000nat,
            ;
        }
        if q.lt(&cap) {
            q
        } else {
            U256::max_value()
        }
    }
}

} // verus!
