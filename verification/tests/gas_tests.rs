use routeviz::algo::gas::GasModel;
use routeviz::uint::U256;

const GWEI: u64 = 1_000_000_000;
const ONE_USD_PICO: u64 = 1_000_000_000_000;

#[test]
fn off_model_returns_zero() {
    let g = GasModel::off();
    assert_eq!(g.gas_units(1, 1), 0);
    assert_eq!(g.gas_to_dst_token(141_000, 3000 * ONE_USD_PICO, 18), U256::zero());
}

#[test]
fn gas_units_match_realistic_v2_swap() {
    let g = GasModel::at_wei(20 * GWEI);
    assert_eq!(g.gas_units(1, 1), 141_000);
    assert_eq!(g.gas_units(1, 2), 231_000);
    assert_eq!(g.gas_units(5, 10), 1_071_000);
}

#[test]
fn one_hop_gas_at_20_gwei_is_about_eight_dollars_in_usdc() {
    // 141,000 × 20 × 1e-9 × 3000 / 1.0 × 10^6 = 8,460,000 base units.
    let g = GasModel::at_wei(20 * GWEI);
    let cost = g.gas_to_dst_token(141_000, ONE_USD_PICO, 6);
    let expected = U256::from_u64(8_460_000);
    let diff = if cost.gt(&expected) { cost.sub(expected) } else { expected.sub(cost) };
    assert!(diff.le(&U256::from_u64(1)), "cost not within one unit of 8.46M");
}

#[test]
fn one_hop_gas_in_weth_at_18_decimals() {
    // 141,000 × 20 × 1e-9 = 2.82e-3 ETH ≈ 2.82e15 base units.
    let g = GasModel::at_wei(20 * GWEI);
    let cost = g.gas_to_dst_token(141_000, 3000 * ONE_USD_PICO, 18);
    let expected = U256::from_u64(2_820_000_000_000_000);
    let diff = if cost.gt(&expected) { cost.sub(expected) } else { expected.sub(cost) };
    assert!(diff.le(&U256::from_u64(1_000_000_000)), "cost not near 2.82e15");
}

#[test]
fn conversion_is_exact_and_guards_its_inputs() {
    let g = GasModel::at_wei(20 * GWEI);
    assert_eq!(g.gas_to_dst_token(141_000, ONE_USD_PICO, 6), U256::from_u64(8_460_000));
    assert_eq!(g.gas_to_dst_token(141_000, 0, 6), U256::zero());
    assert_eq!(g.gas_to_dst_token(141_000, ONE_USD_PICO, 31), U256::zero());
    assert_eq!(g.gas_to_dst_token(0, ONE_USD_PICO, 6), U256::zero());
    // A token priced at one pico-dollar with 30 decimals saturates.
    assert_eq!(g.gas_to_dst_token(141_000, 1, 30), U256::max_value());
    assert!(g.enabled());
    assert!(!GasModel::off().enabled());
}
