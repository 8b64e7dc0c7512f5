use routeviz::address::Address;
use routeviz::algo::prime::find_path::{find_path, Shortcut};
use routeviz::algo::prime::hub::HubSet;
use routeviz::graph::Graph;
use routeviz::pool::Pool;
use routeviz::ratio::{Natural, Ratio};
use routeviz::token::{Token, TokenKind};
use routeviz::uint::U256;
use std::collections::{HashMap, HashSet};

fn addr(byte: u8) -> Address {
    Address::new([byte; 20])
}

fn tok(byte: u8) -> Token {
    Token {
        address: addr(byte),
        symbol: format!("T{byte}"),
        decimals: 18,
        true_price_pico_usd: 1_000_000_000_000,
        kind: TokenKind::Spoke,
    }
}

fn pool(pool_byte: u8, a: Address, b: Address, ra: u64, rb: u64) -> Pool {
    Pool {
        address: addr(pool_byte),
        token_a: a,
        token_b: b,
        reserve_a: U256::from_u64(ra),
        reserve_b: U256::from_u64(rb),
        fee_bps: 30,
        venue: "Test".to_string(),
    }
}

fn hubs(ids: &[usize]) -> HubSet {
    let mut h = HashSet::new();
    let mut rank = HashMap::new();
    for (r, &i) in ids.iter().enumerate() {
        h.insert(i);
        rank.insert(i, r as u32);
    }
    HubSet { hubs: h, rank }
}

fn ratio(num: u64, den: u64) -> Ratio {
    Ratio::new(Natural::from_u64(num), Natural::from_u64(den))
}

fn chain() -> Graph {
    Graph::new(
        vec![tok(1), tok(2), tok(3)],
        vec![pool(0xA0, addr(1), addr(2), 1_000_000, 1_000_000), pool(0xA1, addr(2), addr(3), 1_000_000, 1_000_000)],
    )
}

#[test]
fn find_path_refuses_a_zero_amount_or_equal_tokens() {
    let g = chain();
    let used = vec![false, false];
    let h = hubs(&[1]);
    assert!(find_path(&g, &h, &Vec::new(), 0, 2, U256::zero(), &ratio(0, 1), &used, 4).is_none());
    assert!(find_path(&g, &h, &Vec::new(), 0, 0, U256::from_u64(1_000), &ratio(0, 1), &used, 4).is_none());
}

#[test]
fn find_path_follows_hubs_to_the_target() {
    let g = chain();
    let used = vec![false, false];
    let p = find_path(&g, &hubs(&[1]), &Vec::new(), 0, 2, U256::from_u64(1_000), &ratio(1, 2), &used, 4).unwrap();
    assert_eq!(p.tokens, vec![0, 1, 2]);
    assert_eq!(p.pools, vec![0, 1]);
}

#[test]
fn find_path_avoids_used_pools_and_non_hubs() {
    let g = chain();
    assert!(find_path(&g, &hubs(&[1]), &Vec::new(), 0, 2, U256::from_u64(1_000), &ratio(1, 2), &vec![true, false], 4)
        .is_none());
    assert!(find_path(&g, &hubs(&[]), &Vec::new(), 0, 2, U256::from_u64(1_000), &ratio(1, 2), &vec![false, false], 4)
        .is_none());
}

#[test]
fn find_path_needs_a_rate_above_tau_and_hops_within_the_limit() {
    let g = chain();
    let used = vec![false, false];
    assert!(find_path(&g, &hubs(&[1]), &Vec::new(), 0, 2, U256::from_u64(1_000), &ratio(1, 1), &used, 4).is_none());
    assert!(find_path(&g, &hubs(&[1]), &Vec::new(), 0, 2, U256::from_u64(1_000), &ratio(1, 2), &used, 1).is_none());
}

#[test]
fn find_path_takes_a_shortcut_through_a_non_hub() {
    let g = Graph::new(
        vec![tok(1), tok(2), tok(3), tok(4), tok(5)],
        vec![
            pool(0xA0, addr(1), addr(2), 1_000_000, 1_000_000),
            pool(0xA1, addr(2), addr(3), 1_000_000, 1_000_000),
            pool(0xA2, addr(3), addr(4), 1_000_000, 1_000_000),
            pool(0xA3, addr(4), addr(5), 1_000_000, 1_000_000),
        ],
    );
    let sc = vec![Shortcut { from_hub: 1, to_hub: 3, intermediate_tokens: vec![2], pools: vec![1, 2] }];
    let used = vec![false; 4];
    let p = find_path(&g, &hubs(&[1, 3]), &sc, 0, 4, U256::from_u64(1_000), &ratio(1, 2), &used, 4).unwrap();
    assert_eq!(p.tokens, vec![0, 1, 2, 3, 4]);
    assert_eq!(p.pools, vec![0, 1, 2, 3]);
    assert!(find_path(&g, &hubs(&[1, 3]), &Vec::new(), 0, 4, U256::from_u64(1_000), &ratio(1, 2), &used, 4).is_none());
}

#[test]
fn find_path_takes_a_direct_hop_that_beats_tau() {
    let g = Graph::new(
        vec![tok(1), tok(2)],
        vec![pool(0xA0, addr(1), addr(2), 1_000_000, 3_000_000)],
    );
    let p = find_path(&g, &hubs(&[]), &Vec::new(), 0, 1, U256::from_u64(1_000), &ratio(2, 1), &vec![false], 1).unwrap();
    assert_eq!(p.tokens, vec![0, 1]);
    assert_eq!(p.pools, vec![0]);
    assert!(find_path(&g, &hubs(&[]), &Vec::new(), 0, 1, U256::from_u64(1_000), &ratio(3, 1), &vec![false], 1).is_none());
}

#[test]
fn find_path_takes_a_shortcut_out_of_the_source() {
    let g = Graph::new(
        vec![tok(1), tok(2), tok(3)],
        vec![
            pool(0xA0, addr(1), addr(2), 1_000_000, 1_000_000),
            pool(0xA1, addr(2), addr(3), 1_000_000, 1_000_000),
        ],
    );
    let sc = vec![Shortcut { from_hub: 0, to_hub: 2, intermediate_tokens: vec![1], pools: vec![0, 1] }];
    let used = vec![false; 2];
    let p = find_path(&g, &hubs(&[0, 2]), &sc, 0, 2, U256::from_u64(1_000), &ratio(1, 2), &used, 2).unwrap();
    assert_eq!(p.tokens, vec![0, 1, 2]);
    assert_eq!(p.pools, vec![0, 1]);
    assert!(find_path(&g, &hubs(&[0, 2]), &Vec::new(), 0, 2, U256::from_u64(1_000), &ratio(1, 2), &used, 2).is_none());
    assert!(find_path(&g, &hubs(&[0, 2]), &sc, 0, 2, U256::from_u64(1_000), &ratio(1, 2), &vec![true, false], 2).is_none());
}
