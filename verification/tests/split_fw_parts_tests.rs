use routeviz::address::Address;
use routeviz::algo::split_common::{initial_state, simulate_allocation_mut};
use routeviz::algo::split_fw::{apply_flow, best_single_path, evaluate_net, max_iterations, report_allocation};
use routeviz::algo::{GasModel, Outcome};
use routeviz::graph::Graph;
use routeviz::pool::Pool;
use routeviz::token::{Token, TokenKind};
use routeviz::trace::Step;
use routeviz::uint::U256;

fn addr(byte: u8) -> Address {
    Address::new([byte; 20])
}

fn u(x: u64) -> U256 {
    U256::from_u64(x)
}

fn tok(byte: u8) -> Token {
    Token {
        address: addr(byte),
        symbol: format!("T{byte}"),
        decimals: 18,
        true_price_pico_usd: 1_000_000_000_000,
        kind: TokenKind::Spoke,
    }
}

fn pool(pool_byte: u8, a: Address, b: Address, ra: u64, rb: u64) -> Pool {
    Pool {
        address: addr(pool_byte),
        token_a: a,
        token_b: b,
        reserve_a: u(ra),
        reserve_b: u(rb),
        fee_bps: 30,
        venue: "Test".to_string(),
    }
}

fn two_routes() -> Graph {
    // A → B directly, or A → C → B.
    Graph::new(
        vec![tok(1), tok(2), tok(3)],
        vec![
            pool(0xA1, addr(1), addr(2), 1_000_000, 1_000_000),
            pool(0xA2, addr(1), addr(3), 1_000_000, 1_000_000),
            pool(0xA3, addr(3), addr(2), 1_000_000, 1_000_000),
        ],
    )
}

#[test]
fn iteration_budget_grows_with_the_graph_and_is_capped() {
    assert_eq!(max_iterations(&Graph::new(Vec::new(), Vec::new())), 30);
    let tokens: Vec<Token> = (1..=10).map(tok).collect();
    assert_eq!(max_iterations(&Graph::new(tokens, Vec::new())), 32);
    let many: Vec<Token> = (0..=255u8).map(tok).collect();
    assert_eq!(max_iterations(&Graph::new(many, Vec::new())), 81);
}

#[test]
fn seed_route_is_the_best_netting_candidate() {
    let g = two_routes();
    let (tp, ps) = best_single_path(&g, 0, 1, u(10_000), &GasModel::off()).unwrap();
    assert_eq!(tp, vec![0, 1]);
    assert_eq!(ps, vec![0]);
}

#[test]
fn no_seed_route_when_nothing_nets_a_positive_amount() {
    let g = two_routes();
    // One base unit rounds to nothing on every route.
    assert_eq!(best_single_path(&g, 0, 1, u(1), &GasModel::off()), None);
}

#[test]
fn net_of_one_route_is_its_output_without_gas() {
    let g = two_routes();
    let net = evaluate_net(&g, &vec![vec![0, 1]], &vec![vec![0]], &vec![u(10_000)], &GasModel::off(), 1);
    assert_eq!(net, g.pools[0].output_amount(addr(1), u(10_000)));
}

#[test]
fn net_subtracts_the_gas_of_delivering_legs() {
    let g = two_routes();
    let gross = evaluate_net(&g, &vec![vec![0, 1]], &vec![vec![0]], &vec![u(100_000)], &GasModel::off(), 1);
    let gas = GasModel::at_wei(1_000_000_000);
    let net = evaluate_net(&g, &vec![vec![0, 1]], &vec![vec![0]], &vec![u(100_000)], &gas, 1);
    assert!(net.lt(&gross));
}

#[test]
fn flow_moves_the_reserves_of_the_pools_it_crosses() {
    let g = two_routes();
    let out = g.pools[0].output_amount(addr(1), u(10_000));
    let pools = apply_flow(&g, &vec![vec![0, 1]], &vec![vec![0]], &vec![u(10_000)]);
    assert_eq!(pools.len(), 3);
    assert_eq!(pools[0].reserve_a, u(1_010_000));
    assert_eq!(pools[0].reserve_b, u(1_000_000).wrapping_sub(out));
    assert_eq!(pools[1].reserve_a, u(1_000_000));
    assert_eq!(pools[2].address, addr(0xA3));
}

#[test]
fn report_keeps_marked_legs_largest_first() {
    let g = two_routes();
    let tps = vec![vec![0, 2, 1], vec![0, 1]];
    let pps = vec![vec![1, 2], vec![0]];
    let inputs = vec![u(3_000), u(7_000)];
    let r = report_allocation(&g, &tps, &pps, &inputs, &vec![true, true], &GasModel::off(), 0, 1, true);
    assert_eq!(r.trace, vec![Step::Visit(0)]);
    match r.outcome {
        Outcome::FoundSplit { legs, amount_in, amount_out, gas_cost } => {
            assert_eq!(legs.len(), 2);
            assert_eq!(legs[0].amount_in, u(7_000));
            assert_eq!(legs[0].path, vec![addr(1), addr(2)]);
            assert_eq!(legs[1].path, vec![addr(1), addr(3), addr(2)]);
            assert_eq!(amount_in, u(10_000));
            assert_eq!(amount_out, legs[0].amount_out.wrapping_add(legs[1].amount_out));
            assert_eq!(gas_cost, U256::zero());
        }
        other => panic!("expected FoundSplit, got {other:?}"),
    }
    let dropped = report_allocation(&g, &tps, &pps, &inputs, &vec![false, false], &GasModel::off(), 0, 1, true);
    assert!(matches!(dropped.outcome, Outcome::NoPath));
    assert!(dropped.trace.is_empty());
}

#[test]
fn report_output_counts_only_the_reported_legs() {
    let g = two_routes();
    let tps = vec![vec![0, 2, 1], vec![0, 1]];
    let pps = vec![vec![1, 2], vec![0]];
    let inputs = vec![u(3_000), u(7_000)];
    let r = report_allocation(&g, &tps, &pps, &inputs, &vec![true, false], &GasModel::off(), 0, 1, false);
    match r.outcome {
        Outcome::FoundSplit { legs, amount_in, amount_out, .. } => {
            assert_eq!(legs.len(), 1);
            assert_eq!(legs[0].amount_in, u(3_000));
            assert_eq!(amount_in, u(3_000));
            assert_eq!(amount_out, legs[0].amount_out);
        }
        other => panic!("expected FoundSplit, got {other:?}"),
    }
}

#[test]
fn simulation_leaves_unused_pools_alone() {
    let a = addr(1);
    let b = addr(2);
    let c = addr(3);
    let g = Graph::new(
        vec![tok(1), tok(2), tok(3)],
        vec![pool(0xA0, a, b, 1_000_000, 1_000_000), pool(0xA1, b, c, 2_000_000, 3_000_000)],
    );
    let mut state = initial_state(&g);
    let (total, per) = simulate_allocation_mut(&g, &vec![vec![0, 1]], &vec![vec![0]], &vec![u(1_000)], &mut state);
    assert_eq!(state[1], (u(2_000_000), u(3_000_000)));
    assert_eq!(state[0].0, u(1_001_000));
    assert!(per[0].is_some());
    assert_eq!(total, g.pools[0].output_amount(a, u(1_000)));
}
