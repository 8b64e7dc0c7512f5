use routeviz::address::Address;
use routeviz::algo::prime::report::report_legs;
use routeviz::algo::split_common::LegSim;
use routeviz::algo::{GasModel, Outcome};
use routeviz::graph::Graph;
use routeviz::pool::Pool;
use routeviz::token::{Token, TokenKind};
use routeviz::uint::U256;

fn addr(byte: u8) -> Address {
    Address::new([byte; 20])
}

fn u(x: u64) -> U256 {
    U256::from_u64(x)
}

fn tok(byte: u8) -> Token {
    Token {
        address: addr(byte),
        symbol: format!("T{byte}"),
        decimals: 18,
        true_price_pico_usd: 1_000_000_000_000,
        kind: TokenKind::Hub,
    }
}

fn pool(pool_byte: u8, a: Address, b: Address, ra: u64, rb: u64) -> Pool {
    Pool {
        address: addr(pool_byte),
        token_a: a,
        token_b: b,
        reserve_a: u(ra),
        reserve_b: u(rb),
        fee_bps: 30,
        venue: "Test".to_string(),
    }
}

fn graph() -> Graph {
    Graph::new(
        vec![tok(1), tok(2)],
        vec![pool(0xA1, addr(1), addr(2), 1_000_000, 1_000_000), pool(0xA2, addr(1), addr(2), 1_000_000, 1_000_000)],
    )
}

fn leg(amount_in: u64, amount_out: u64, pool: usize) -> Option<LegSim> {
    Some(LegSim { amount_in: u(amount_in), amount_out: u(amount_out), pool_idxs: vec![pool] })
}

#[test]
fn split_legs_stand_when_they_beat_the_seed() {
    let g = graph();
    let paths = vec![vec![0, 1], vec![0, 1]];
    // Two halves of 200 000 through twin pools: each gets about 90 661.
    let per = vec![leg(100_000, 90_661, 0), leg(100_000, 90_661, 1)];
    let r = report_legs(
        &g,
        &paths,
        &per,
        &vec![true, true],
        u(181_322),
        &vec![0, 1],
        &vec![0],
        u(200_000),
        &GasModel::off(),
        0,
        1,
        false,
    );
    match r.outcome {
        Outcome::FoundSplit { legs, amount_in, amount_out, .. } => {
            assert_eq!(legs.len(), 2);
            assert_eq!(legs[0].pools_used, vec![addr(0xA1)]);
            assert_eq!(legs[1].pools_used, vec![addr(0xA2)]);
            assert_eq!(amount_in, u(200_000));
            assert_eq!(amount_out, u(181_322));
        }
        other => panic!("expected FoundSplit, got {other:?}"),
    }
    assert!(r.trace.is_empty());
}

#[test]
fn the_seed_stands_when_it_nets_more() {
    let g = graph();
    let paths = vec![vec![0, 1]];
    let per = vec![leg(200_000, 10, 0)];
    let seed_out = g.pools[0].output_amount(addr(1), u(200_000));
    let r = report_legs(&g, &paths, &per, &vec![true], u(10), &vec![0, 1], &vec![0], u(200_000), &GasModel::off(), 0, 1, true);
    match r.outcome {
        Outcome::FoundSplit { legs, amount_in, amount_out, .. } => {
            assert_eq!(legs.len(), 1);
            assert_eq!(amount_in, u(200_000));
            assert_eq!(amount_out, seed_out);
        }
        other => panic!("expected FoundSplit, got {other:?}"),
    }
    assert_eq!(r.trace.len(), 1);
}

#[test]
fn with_no_leg_kept_the_seed_is_reported() {
    let g = graph();
    let r = report_legs(
        &g,
        &vec![vec![0, 1]],
        &vec![leg(5, 4, 0)],
        &vec![false],
        u(4),
        &vec![0, 1],
        &vec![1],
        u(1_000),
        &GasModel::off(),
        0,
        1,
        false,
    );
    match r.outcome {
        Outcome::FoundSplit { legs, .. } => {
            assert_eq!(legs.len(), 1);
            assert_eq!(legs[0].pools_used, vec![addr(0xA2)]);
            assert_eq!(legs[0].amount_out, u(996));
        }
        other => panic!("expected FoundSplit, got {other:?}"),
    }
}
