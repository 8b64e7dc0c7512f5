use routeviz::address::Address;
use routeviz::algo::split_dp::dp_allocate;
use routeviz::algo::{solve, solve_with_opts, Algorithm, GasModel, Leg, Outcome, SolveOptions, SolveResult};
use routeviz::graph::Graph;
use routeviz::pool::Pool;
use routeviz::token::{Token, TokenKind};
use routeviz::trace::Step;
use routeviz::uint::U256;

fn addr(byte: u8) -> Address {
    Address::new([byte; 20])
}

fn u(x: u64) -> U256 {
    U256::from_u64(x)
}

fn tok(byte: u8, symbol: &str) -> Token {
    Token {
        address: addr(byte),
        symbol: symbol.to_string(),
        decimals: 18,
        true_price_pico_usd: 1_000_000_000_000,
        kind: TokenKind::Spoke,
    }
}

fn pool(pool_byte: u8, a: Address, b: Address, reserve_a: u64, reserve_b: u64) -> Pool {
    Pool {
        address: addr(pool_byte),
        token_a: a,
        token_b: b,
        reserve_a: u(reserve_a),
        reserve_b: u(reserve_b),
        fee_bps: 30,
        venue: "Test".to_string(),
    }
}

fn run(algo: Algorithm, g: &Graph, src: Address, dst: Address, amount_in: U256) -> SolveResult {
    solve(algo, g, src, dst, amount_in).expect("algorithm is part of the library")
}

fn sum_in(legs: &[Leg]) -> U256 {
    let mut s = U256::zero();
    for l in legs {
        s = s.wrapping_add(l.amount_in);
    }
    s
}

fn sum_out(legs: &[Leg]) -> U256 {
    let mut s = U256::zero();
    for l in legs {
        s = s.wrapping_add(l.amount_out);
    }
    s
}

#[test]
fn split_dp_src_equals_dst_returns_singleton_leg() {
    let a = addr(1);
    let g = Graph::new(vec![tok(1, "A")], Vec::new());
    let r = run(Algorithm::SplitDp, &g, a, a, u(100));
    match r.outcome {
        Outcome::FoundSplit { legs, amount_in, amount_out, .. } => {
            assert_eq!(legs.len(), 1);
            assert_eq!(amount_in, u(100));
            assert_eq!(amount_out, u(100));
        }
        other => panic!("expected FoundSplit, got {other:?}"),
    }
}

#[test]
fn split_dp_no_path_when_disconnected() {
    let a = addr(1);
    let b = addr(2);
    let g = Graph::new(vec![tok(1, "A"), tok(2, "B")], Vec::new());
    let r = run(Algorithm::SplitDp, &g, a, b, u(100));
    assert!(matches!(r.outcome, Outcome::NoPath));
}

#[test]
fn single_path_falls_back_to_one_leg() {
    let a = addr(1);
    let b = addr(2);
    let g = Graph::new(vec![tok(1, "A"), tok(2, "B")], vec![pool(0xA1, a, b, 1_000_000, 1_000_000)]);
    let r = run(Algorithm::SplitDp, &g, a, b, u(100));
    match r.outcome {
        Outcome::FoundSplit { legs, .. } => {
            assert_eq!(legs.len(), 1);
            assert_eq!(legs[0].path, vec![a, b]);
        }
        other => panic!("expected FoundSplit, got {other:?}"),
    }
}

#[test]
fn split_outperforms_single_path_on_shallow_pools() {
    // Two parallel A↔B pools with small reserves. The enumeration yields
    // one token path for both, so the split can only match the single
    // route here, never fall below it.
    let a = addr(1);
    let b = addr(2);
    let g = Graph::new(
        vec![tok(1, "A"), tok(2, "B")],
        vec![pool(0xA1, a, b, 1_000_000, 1_000_000), pool(0xA2, a, b, 1_000_000, 1_000_000)],
    );
    let amount = u(500_000);

    let single = run(Algorithm::AmountAware, &g, a, b, amount);
    let single_out = match single.outcome {
        Outcome::Found { amount_out, .. } => amount_out,
        other => panic!("expected Found, got {other:?}"),
    };

    let split = run(Algorithm::SplitDp, &g, a, b, amount);
    let split_out = match split.outcome {
        Outcome::FoundSplit { amount_out, .. } => amount_out,
        other => panic!("expected FoundSplit, got {other:?}"),
    };

    assert!(split_out.ge(&single_out), "split {split_out:?} should be ≥ single {single_out:?}");
}

#[test]
fn leg_outputs_sum_to_total() {
    let a = addr(1);
    let b = addr(2);
    let c = addr(3);
    let g = Graph::new(
        vec![tok(1, "A"), tok(2, "B"), tok(3, "C")],
        vec![
            pool(0xA1, a, b, 1_000_000, 1_000_000),
            pool(0xA2, b, c, 1_000_000, 1_000_000),
            pool(0xA3, a, c, 500_000, 500_000),
        ],
    );
    let r = run(Algorithm::SplitDp, &g, a, c, u(100_000));
    match r.outcome {
        Outcome::FoundSplit { legs, amount_in, amount_out, .. } => {
            assert_eq!(sum_in(&legs), amount_in);
            assert_eq!(sum_out(&legs), amount_out);
        }
        other => panic!("expected FoundSplit, got {other:?}"),
    }
}

// ---------- further cases ----------

#[test]
fn split_dp_unknown_token_returns_no_path_and_empty_trace() {
    let a = addr(1);
    let b = addr(2);
    let g = Graph::new(vec![tok(1, "A")], Vec::new());
    let r = run(Algorithm::SplitDp, &g, a, b, u(100));
    assert!(matches!(r.outcome, Outcome::NoPath));
    assert!(r.trace.is_empty());
}

#[test]
fn split_dp_trace_is_the_source_visit() {
    let a = addr(1);
    let b = addr(2);
    let g = Graph::new(vec![tok(1, "A"), tok(2, "B")], vec![pool(0xA1, a, b, 1_000_000, 1_000_000)]);
    let r = run(Algorithm::SplitDp, &g, a, b, u(100));
    assert_eq!(r.trace, vec![Step::Visit(0)]);
    let quiet = solve_with_opts(
        Algorithm::SplitDp,
        &g,
        a,
        b,
        u(100),
        SolveOptions { with_trace: false, gas: GasModel::off() },
    )
    .unwrap();
    assert!(quiet.trace.is_empty());
}

#[test]
fn split_dp_single_leg_reports_the_direct_swap() {
    let a = addr(1);
    let b = addr(2);
    let g = Graph::new(vec![tok(1, "A"), tok(2, "B")], vec![pool(0xA1, a, b, 1_000_000, 1_000_000)]);
    let amount = u(1_000);
    let r = run(Algorithm::SplitDp, &g, a, b, amount);
    let expected = g.pools[0].output_amount(a, amount);
    match r.outcome {
        Outcome::FoundSplit { legs, amount_in, amount_out, gas_cost } => {
            assert_eq!(legs.len(), 1);
            assert_eq!(legs[0].pools_used, vec![addr(0xA1)]);
            assert_eq!(amount_in, amount);
            assert_eq!(amount_out, expected);
            // 1000 · 0.997 · 10⁶ / (10⁶ + 997) = 996.00…
            assert_eq!(amount_out, u(996));
            assert_eq!(gas_cost, U256::zero());
        }
        other => panic!("expected FoundSplit, got {other:?}"),
    }
}

#[test]
fn split_dp_never_below_the_best_single_route() {
    let a = addr(1);
    let b = addr(2);
    let c = addr(3);
    let g = Graph::new(
        vec![tok(1, "A"), tok(2, "B"), tok(3, "C")],
        vec![
            pool(0xA1, a, b, 100_000, 100_000),
            pool(0xA2, a, c, 100_000, 100_000),
            pool(0xA3, c, b, 100_000, 100_000),
        ],
    );
    let amount = u(50_000);
    let single_out = match run(Algorithm::AmountAware, &g, a, b, amount).outcome {
        Outcome::Found { amount_out, .. } => amount_out,
        other => panic!("expected Found, got {other:?}"),
    };
    match run(Algorithm::SplitDp, &g, a, b, amount).outcome {
        Outcome::FoundSplit { legs, amount_in, amount_out, .. } => {
            assert!(amount_out.ge(&single_out));
            assert_eq!(sum_in(&legs), amount_in);
            assert_eq!(sum_out(&legs), amount_out);
            for l in &legs {
                assert_eq!(l.path[0], a);
                assert_eq!(*l.path.last().unwrap(), b);
                assert_eq!(l.pools_used.len() + 1, l.path.len());
            }
            for w in legs.windows(2) {
                assert!(w[0].amount_in.ge(&w[1].amount_in), "legs not largest input first");
            }
        }
        other => panic!("expected FoundSplit, got {other:?}"),
    }
}

#[test]
fn knapsack_takes_the_concave_route_until_it_flattens() {
    let linear: Vec<U256> = (0..=10u64).map(|k| u(10 * k)).collect();
    let concave: Vec<U256> = [0u64, 15, 30, 45, 60, 65, 70, 75, 80, 85, 90].iter().map(|&x| u(x)).collect();
    let quotes = vec![linear.clone(), concave.clone()];
    assert_eq!(dp_allocate(&quotes, &vec![U256::zero(), U256::zero()]), vec![6, 4]);
}

#[test]
fn knapsack_drops_a_route_whose_gas_eats_its_gain() {
    let linear: Vec<U256> = (0..=10u64).map(|k| u(10 * k)).collect();
    let concave: Vec<U256> = [0u64, 15, 30, 45, 60, 65, 70, 75, 80, 85, 90].iter().map(|&x| u(x)).collect();
    let quotes = vec![linear, concave];
    assert_eq!(dp_allocate(&quotes, &vec![U256::zero(), u(20)]), vec![10, 0]);
}

#[test]
fn split_dp_legs_take_the_whole_input() {
    let a = addr(1);
    let b = addr(2);
    let c = addr(3);
    let g = Graph::new(
        vec![tok(1, "A"), tok(2, "B"), tok(3, "C")],
        vec![
            pool(0xA1, a, b, 1_000_000, 1_000_000),
            pool(0xA2, b, c, 1_000_000, 1_000_000),
            pool(0xA3, a, c, 500_000, 500_000),
        ],
    );
    let r = run(Algorithm::SplitDp, &g, a, c, u(100_001));
    match r.outcome {
        Outcome::FoundSplit { legs, amount_in, amount_out, .. } => {
            assert!(legs.len() >= 2);
            assert_eq!(amount_in, u(100_001));
            assert_eq!(sum_in(&legs), u(100_001));
            assert_eq!(sum_out(&legs), amount_out);
        }
        other => panic!("expected FoundSplit, got {other:?}"),
    }
}
