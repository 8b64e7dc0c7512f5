use routeviz::address::Address;
use routeviz::pool::Pool;
use routeviz::ratio::{Natural, Ratio};
use routeviz::uint::U256;

fn addr(byte: u8) -> Address {
    Address::new([byte; 20])
}

fn u(x: u64) -> U256 {
    U256::from_u64(x)
}

fn sym_pool(pool_byte: u8, a: Address, b: Address, reserve: U256, fee_bps: u16) -> Pool {
    Pool {
        address: addr(pool_byte),
        token_a: a,
        token_b: b,
        reserve_a: reserve,
        reserve_b: reserve,
        fee_bps,
        venue: "Test".to_string(),
    }
}

fn u256_to_f64(x: U256) -> f64 {
    let limbs = x.as_limbs();
    (limbs[0] as f64)
        + (limbs[1] as f64) * 2f64.powi(64)
        + (limbs[2] as f64) * 2f64.powi(128)
        + (limbs[3] as f64) * 2f64.powi(192)
}

#[test]
fn output_amount_matches_hand_computation() {
    // (1000, 1000), fee 0, 100 in: 1_000_000_000 / 11_000_000 = 90.
    let a = addr(1);
    let b = addr(2);
    let pool = sym_pool(0xAA, a, b, u(1000), 0);
    assert_eq!(pool.output_amount(a, u(100)), u(90));
}

#[test]
fn zero_input_gives_zero_output() {
    let a = addr(1);
    let b = addr(2);
    let pool = Pool {
        address: addr(0xAA),
        token_a: a,
        token_b: b,
        reserve_a: u(1_000_000),
        reserve_b: u(500_000),
        fee_bps: 30,
        venue: "Test".to_string(),
    };
    assert_eq!(pool.output_amount(a, U256::zero()), U256::zero());
}

#[test]
fn k_strictly_grows_after_swap_with_fee() {
    let a = addr(1);
    let b = addr(2);
    let pool = sym_pool(0xAA, a, b, u(1_000_000), 30);
    let amount_in = u(10_000);
    let amount_out = pool.output_amount(a, amount_in);
    let new_reserve_a = pool.reserve_a.add(amount_in);
    let new_reserve_b = pool.reserve_b.sub(amount_out);
    assert!(new_reserve_a.mul(new_reserve_b).gt(&pool.reserve_a.mul(pool.reserve_b)));
}

#[test]
fn zero_fee_k_grows_only_by_rounding_slack() {
    let a = addr(1);
    let b = addr(2);
    let pool = sym_pool(0xAA, a, b, u(1_000_000), 0);
    let amount_in = u(10_000);
    let amount_out = pool.output_amount(a, amount_in);
    let new_reserve_a = pool.reserve_a.add(amount_in);
    let new_reserve_b = pool.reserve_b.sub(amount_out);
    let slack = new_reserve_a.mul(new_reserve_b).sub(pool.reserve_a.mul(pool.reserve_b));
    assert!(slack.le(&new_reserve_a));
}

#[test]
fn simulate_path_single_hop_equals_output_amount() {
    let a = addr(1);
    let b = addr(2);
    let pool = Pool {
        address: addr(0xAA),
        token_a: a,
        token_b: b,
        reserve_a: u(1_000_000),
        reserve_b: u(500_000),
        fee_bps: 30,
        venue: "Test".to_string(),
    };
    let pools = vec![pool.clone()];
    let amount_in = u(1_000);
    let direct = pool.output_amount(a, amount_in);
    let simulated = Pool::simulate_path(&[a, b], &[pool.address], &pools, amount_in);
    assert_eq!(direct, simulated);
}

#[test]
fn three_hop_round_trip_zero_fee_loses_at_most_rounding() {
    let t0 = addr(1);
    let t1 = addr(2);
    let t2 = addr(3);
    let reserve = u(1_000_000_000);
    let pools = vec![
        sym_pool(0xA0, t0, t1, reserve, 0),
        sym_pool(0xA1, t1, t2, reserve, 0),
        sym_pool(0xA2, t2, t0, reserve, 0),
    ];
    let pool_addrs: Vec<Address> = pools.iter().map(|p| p.address).collect();
    let amount_in = u(1_000);
    let out = Pool::simulate_path(&[t0, t1, t2, t0], &pool_addrs, &pools, amount_in);
    assert!(out.le(&amount_in));
    assert!(amount_in.sub(out).lt(&u(10)));
}

#[test]
fn three_hop_round_trip_with_fees_loses_approximately_three_fees() {
    let t0 = addr(1);
    let t1 = addr(2);
    let t2 = addr(3);
    let reserve = u(1_000_000_000);
    let pools = vec![
        sym_pool(0xA0, t0, t1, reserve, 30),
        sym_pool(0xA1, t1, t2, reserve, 30),
        sym_pool(0xA2, t2, t0, reserve, 30),
    ];
    let pool_addrs: Vec<Address> = pools.iter().map(|p| p.address).collect();
    let amount_in = u(1_000_000);
    let out = Pool::simulate_path(&[t0, t1, t2, t0], &pool_addrs, &pools, amount_in);
    assert!(out.lt(&amount_in));
    assert!(out.ge(&u(985_000)) && out.le(&u(995_000)));
}

#[test]
fn marginal_rate_and_log_weight_are_finite_and_consistent() {
    let a = addr(1);
    let b = addr(2);
    let pool = Pool {
        address: addr(0xAA),
        token_a: a,
        token_b: b,
        reserve_a: u(1_000_000),
        reserve_b: u(2_000_000),
        fee_bps: 30,
        venue: "Test".to_string(),
    };
    // (2_000_000 / 1_000_000) * 0.997 = 1.994, exactly.
    let rate = pool.marginal_rate(a);
    assert!(rate.equals(&Ratio::new(Natural::from_u64(1_994), Natural::from_u64(1_000))));
    assert!(pool.usable_rate(a).is_some());
}

#[test]
fn swapping_opposite_direction_uses_reversed_reserves() {
    let a = addr(1);
    let b = addr(2);
    let pool = Pool {
        address: addr(0xAA),
        token_a: a,
        token_b: b,
        reserve_a: u(1_000_000),
        reserve_b: u(500_000),
        fee_bps: 0,
        venue: "Test".to_string(),
    };
    let ab = pool.output_amount(a, u(10_000));
    let ba = pool.output_amount(b, u(10_000));
    assert!(ba.gt(&ab));
}

#[test]
fn output_amount_at_wei_scale() {
    let weth = addr(1);
    let usdc = addr(2);
    let ten_pow_18 = u(1_000_000_000_000_000_000);
    let pool = Pool {
        address: addr(0xAA),
        token_a: weth,
        token_b: usdc,
        reserve_a: u(1_000).mul(ten_pow_18),
        reserve_b: u(3_000_000).mul(ten_pow_18),
        fee_bps: 30,
        venue: "Test".to_string(),
    };
    let out = pool.output_amount(weth, ten_pow_18);
    let approx_out_f = u256_to_f64(out) / u256_to_f64(ten_pow_18);
    assert!(approx_out_f > 2_980.0 && approx_out_f < 3_000.0);
}

#[test]
fn other_token_resolves_both_directions() {
    let a = addr(3);
    let b = addr(7);
    let pool = sym_pool(0xAA, a, b, u(1), 0);
    assert_eq!(pool.other_token(a), b);
    assert_eq!(pool.other_token(b), a);
}

#[test]
fn quote_refuses_a_token_outside_the_pool_and_a_zero_denominator() {
    let a = addr(3);
    let b = addr(7);
    let pool = sym_pool(0xAA, a, b, u(1_000), 0);
    assert!(pool.quote(addr(42), u(10)).is_none());
    assert_eq!(pool.quote(a, u(100)), Some(u(90)));
    let empty = sym_pool(0xAB, a, b, u(0), 10_000);
    // Zero reserve in, every unit taken as fee: the quote divides by zero.
    assert!(empty.quote(a, u(100)).is_none());
    assert_eq!(empty.quote(a, u(0)), Some(u(0)));
}

#[test]
fn skewing_reserves_moves_the_price_by_the_given_basis_points() {
    let a = addr(1);
    let b = addr(2);
    let mut pool = sym_pool(0xAA, a, b, u(1_000_000), 30);
    pool.skew_reserves(500);
    assert_eq!(pool.reserve_a, u(1_050_000));
    assert_eq!(pool.reserve_b, u(952_380));
    assert_eq!(pool.fee_bps, 30);
    assert_eq!(pool.token_a, a);
}

#[test]
fn a_huge_trade_never_drains_the_output_reserve() {
    let a = addr(1);
    let b = addr(2);
    let pool = sym_pool(0xAB, a, b, u(1000), 0);
    let out = pool.output_amount(a, u(1_000_000_000_000));
    assert!(out.lt(&u(1000)));
    assert_eq!(out, u(999));
}
