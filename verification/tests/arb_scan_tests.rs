use routeviz::address::Address;
use routeviz::algo::arb_scan::{dfs_cycle, scan_from};
use routeviz::algo::gas::GasModel;
use routeviz::algo::Outcome;
use routeviz::graph::Graph;
use routeviz::pool::Pool;
use routeviz::ratio::Ratio;
use routeviz::token::{Token, TokenKind};
use routeviz::trace::Step;
use routeviz::uint::U256;

fn addr(byte: u8) -> Address {
    Address::new([byte; 20])
}

fn tok(byte: u8, symbol: &str) -> Token {
    Token {
        address: addr(byte),
        symbol: symbol.to_string(),
        decimals: 18,
        true_price_pico_usd: 1_000_000_000_000,
        kind: TokenKind::Spoke,
    }
}

fn pool(pool_byte: u8, a: Address, b: Address, ra: u64, rb: u64, fee: u16) -> Pool {
    Pool {
        address: addr(pool_byte),
        token_a: a,
        token_b: b,
        reserve_a: U256::from_u64(ra),
        reserve_b: U256::from_u64(rb),
        fee_bps: fee,
        venue: "Test".to_string(),
    }
}

#[test]
fn finds_profitable_triangle_through_user_token() {
    let a = addr(1);
    let b = addr(2);
    let c = addr(3);
    let g = Graph::new(
        vec![tok(1, "A"), tok(2, "B"), tok(3, "C")],
        vec![
            pool(0xA0, a, b, 1_000_000_000, 100_000_000_000, 0),
            pool(0xA1, b, c, 1_000_000_000, 100_000_000_000, 0),
            pool(0xA2, a, c, 1_100_000_000, 9_090_909_090_909, 0),
        ],
    );
    let r = scan_from(&g, a, &GasModel::off());
    match &r.outcome {
        Outcome::NegativeCycle { cycle, pools_used, product_of_rates, cycle_output, amount_in, .. } => {
            assert_eq!(cycle[0], a);
            assert_eq!(cycle.len(), 3);
            assert_eq!(pools_used.len(), 3);
            assert!(product_of_rates.gt(&Ratio::one()));
            assert!(cycle_output.gt(amount_in));
        }
        other => panic!("expected NegativeCycle through A, got {other:?}"),
    }
    assert_eq!(r.trace[0], Step::Visit(0));
}

#[test]
fn returns_no_path_on_fair_graph() {
    let a = addr(1);
    let b = addr(2);
    let c = addr(3);
    let g = Graph::new(
        vec![tok(1, "A"), tok(2, "B"), tok(3, "C")],
        vec![
            pool(0xA0, a, b, 1_000_000_000, 100_000_000_000, 0),
            pool(0xA1, b, c, 1_000_000_000, 100_000_000_000, 0),
            pool(0xA2, a, c, 1_000_000_000, 10_000_000_000_000, 0),
        ],
    );
    let r = scan_from(&g, a, &GasModel::off());
    assert!(matches!(r.outcome, Outcome::NoPath), "expected NoPath on fair graph, got {:?}", r.outcome);
}

#[test]
fn unknown_entry_token_returns_no_path() {
    let a = addr(1);
    let b = addr(2);
    let g = Graph::new(vec![tok(1, "A"), tok(2, "B")], vec![pool(0xA0, a, b, 1_000, 1_000, 0)]);
    let r = scan_from(&g, addr(99), &GasModel::off());
    assert!(matches!(r.outcome, Outcome::NoPath));
    assert!(r.trace.is_empty());
}

#[test]
fn gas_can_eat_the_whole_profit() {
    let a = addr(1);
    let b = addr(2);
    let c = addr(3);
    // A token worth a pico-dollar makes any gas cost astronomically large.
    let mut cheap_a = tok(1, "A");
    cheap_a.true_price_pico_usd = 1;
    let g = Graph::new(
        vec![cheap_a, tok(2, "B"), tok(3, "C")],
        vec![
            pool(0xA0, a, b, 1_000_000_000, 100_000_000_000, 0),
            pool(0xA1, b, c, 1_000_000_000, 100_000_000_000, 0),
            pool(0xA2, a, c, 1_100_000_000, 9_090_909_090_909, 0),
        ],
    );
    let r = scan_from(&g, a, &GasModel::at_wei(20_000_000_000));
    assert!(matches!(r.outcome, Outcome::NoPath));
}

#[test]
fn dfs_cycle_skips_round_trips_and_restores_its_state() {
    let un = vec![vec![1, 2], vec![0, 2], vec![0, 1]];
    let mut stack = vec![0];
    let mut visited = vec![true, false, false];
    let mut cycles: Vec<Vec<usize>> = Vec::new();
    dfs_cycle(0, 0, 4, &un, &mut stack, &mut visited, &mut cycles);
    assert_eq!(cycles, vec![vec![0, 1, 2], vec![0, 2, 1]]);
    assert_eq!(stack, vec![0]);
    assert_eq!(visited, vec![true, false, false]);
}

#[test]
fn dfs_cycle_emits_nothing_with_no_edges_left() {
    let un = vec![vec![1, 2], vec![0, 2], vec![0, 1]];
    let mut stack = vec![0];
    let mut visited = vec![true, false, false];
    let mut cycles: Vec<Vec<usize>> = vec![vec![7]];
    dfs_cycle(0, 0, 0, &un, &mut stack, &mut visited, &mut cycles);
    assert_eq!(cycles, vec![vec![7]]);
    assert_eq!(stack, vec![0]);
    assert_eq!(visited, vec![true, false, false]);
}

#[test]
fn dfs_cycle_restores_an_inconsistent_state() {
    let un = vec![vec![1, 2], vec![0, 2], vec![0, 1]];
    let mut stack = vec![2, 2];
    let mut visited = vec![false, true, false];
    let mut cycles: Vec<Vec<usize>> = Vec::new();
    dfs_cycle(0, 2, 3, &un, &mut stack, &mut visited, &mut cycles);
    assert_eq!(stack, vec![2, 2]);
    assert_eq!(visited, vec![false, true, false]);
}

#[test]
fn scan_trace_records_a_relaxation_and_a_visit_per_hop() {
    let a = addr(1);
    let b = addr(2);
    let c = addr(3);
    let g = Graph::new(
        vec![tok(1, "A"), tok(2, "B"), tok(3, "C")],
        vec![
            pool(0xA0, a, b, 1_000_000_000, 100_000_000_000, 0),
            pool(0xA1, b, c, 1_000_000_000, 100_000_000_000, 0),
            pool(0xA2, a, c, 1_100_000_000, 9_090_909_090_909, 0),
        ],
    );
    let r = scan_from(&g, a, &GasModel::off());
    let cycle = match &r.outcome {
        Outcome::NegativeCycle { cycle, .. } => cycle.clone(),
        other => panic!("expected NegativeCycle, got {other:?}"),
    };
    let idx: Vec<usize> = cycle.iter().map(|x| g.index_of(*x).unwrap()).collect();
    assert_eq!(r.trace.len(), 1 + 2 * idx.len());
    assert_eq!(r.trace[0], Step::Visit(0));
    for h in 0..idx.len() {
        let next = idx[(h + 1) % idx.len()];
        match &r.trace[1 + 2 * h] {
            Step::Relax { from, to, .. } => {
                assert_eq!(*from, idx[h]);
                assert_eq!(*to, next);
            }
            other => panic!("expected a relaxation, got {other:?}"),
        }
        assert_eq!(r.trace[2 + 2 * h], Step::Visit(next));
    }
    assert_eq!(r.trace[r.trace.len() - 1], Step::Visit(0));
}

#[test]
fn dfs_cycle_finds_every_simple_cycle_once() {
    let un = vec![vec![1, 2, 3], vec![0, 2, 3], vec![0, 1, 3], vec![0, 1, 2]];
    let mut stack = vec![0];
    let mut visited = vec![true, false, false, false];
    let mut cycles: Vec<Vec<usize>> = Vec::new();
    dfs_cycle(0, 0, 4, &un, &mut stack, &mut visited, &mut cycles);
    // Through node 0 in a 4-clique: 3·2 triangles and 3·2·1 squares.
    assert_eq!(cycles.len(), 12);
    for c in &cycles {
        assert_eq!(c[0], 0);
        assert!(c.len() == 3 || c.len() == 4);
    }
    for i in 0..cycles.len() {
        for j in (i + 1)..cycles.len() {
            assert_ne!(cycles[i], cycles[j]);
        }
    }
    assert!(cycles.contains(&vec![0, 3, 1, 2]));
    assert!(cycles.contains(&vec![0, 2, 1]));
}
