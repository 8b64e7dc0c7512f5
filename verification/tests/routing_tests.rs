use routeviz::address::Address;
use routeviz::algo::{solve, Algorithm, Outcome, SolveResult};
use routeviz::graph::Graph;
use routeviz::pool::Pool;
use routeviz::ratio::{Natural, Ratio};
use routeviz::token::{Token, TokenKind};
use routeviz::trace::Step;
use routeviz::uint::U256;

fn addr(byte: u8) -> Address {
    Address::new([byte; 20])
}

fn u(x: u64) -> U256 {
    U256::from_u64(x)
}

fn tok(byte: u8, symbol: &str, decimals: u8) -> Token {
    Token {
        address: addr(byte),
        symbol: symbol.to_string(),
        decimals,
        true_price_pico_usd: 1_000_000_000_000,
        kind: TokenKind::Spoke,
    }
}

fn pool(pool_byte: u8, a: Address, b: Address, reserve_a: u64, reserve_b: u64, fee_bps: u16) -> Pool {
    Pool {
        address: addr(pool_byte),
        token_a: a,
        token_b: b,
        reserve_a: u(reserve_a),
        reserve_b: u(reserve_b),
        fee_bps,
        venue: "Test".to_string(),
    }
}

fn run(algo: Algorithm, g: &Graph, src: Address, dst: Address, amount_in: U256) -> SolveResult {
    solve(algo, g, src, dst, amount_in).expect("algorithm is part of the library")
}

fn find_pool<'a>(g: &'a Graph, a: Address) -> &'a Pool {
    g.pools.iter().find(|p| p.address == a).unwrap()
}

fn ratio(num: u64, den: u64) -> Ratio {
    Ratio::new(Natural::from_u64(num), Natural::from_u64(den))
}

// ---------- properties shared by the single-route algorithms ----------

fn src_equals_dst_returns_singleton(algo: Algorithm) {
    let a = addr(1);
    let b = addr(2);
    let g = Graph::new(
        vec![tok(1, "A", 18), tok(2, "B", 18)],
        vec![pool(0xA0, a, b, 1_000_000, 1_000_000, 30)],
    );
    let r = run(algo, &g, a, a, u(100));
    match &r.outcome {
        Outcome::Found { path, pools_used, amount_in, amount_out, product_of_rates, .. } => {
            assert_eq!(path.as_slice(), &[a]);
            assert!(pools_used.is_empty());
            assert_eq!(*amount_in, u(100));
            assert_eq!(*amount_out, u(100));
            // Zero log weight: the rate product is exactly one.
            assert!(product_of_rates.equals(&Ratio::one()));
        }
        other => panic!("expected Found, got {other:?}"),
    }
}

fn two_nodes_one_edge(algo: Algorithm) {
    let a = addr(1);
    let b = addr(2);
    let g = Graph::new(
        vec![tok(1, "A", 18), tok(2, "B", 18)],
        vec![pool(0xA0, a, b, 1_000_000_000, 2_000_000_000, 0)],
    );
    let r = run(algo, &g, a, b, u(1_000_000));
    match &r.outcome {
        Outcome::Found { path, pools_used, amount_in, amount_out, .. } => {
            assert_eq!(path.as_slice(), &[a, b]);
            assert_eq!(pools_used.as_slice(), &[addr(0xA0)]);
            assert_eq!(*amount_in, u(1_000_000));
            // 1e6 into a 1e9/2e9 pool at zero fee: ~1_998_002.
            assert!(amount_out.gt(&u(1_990_000)));
            assert!(amount_out.lt(&u(2_000_000)));
        }
        other => panic!("expected Found, got {other:?}"),
    }
}

fn no_path_when_disconnected(algo: Algorithm) {
    let a = addr(1);
    let b = addr(2);
    let g = Graph::new(vec![tok(1, "A", 18), tok(2, "B", 18)], Vec::new());
    let r = run(algo, &g, a, b, u(100));
    assert!(matches!(r.outcome, Outcome::NoPath));
}

fn unknown_source_or_dst_returns_no_path(algo: Algorithm) {
    let a = addr(1);
    let b = addr(2);
    let unknown = addr(99);
    let g = Graph::new(
        vec![tok(1, "A", 18), tok(2, "B", 18)],
        vec![pool(0xA0, a, b, 1_000, 1_000, 30)],
    );
    let r1 = run(algo, &g, unknown, b, u(100));
    assert!(matches!(r1.outcome, Outcome::NoPath));
    let r2 = run(algo, &g, a, unknown, u(100));
    assert!(matches!(r2.outcome, Outcome::NoPath));
}

fn path_is_contiguous_via_real_edges(algo: Algorithm) {
    let a = addr(1);
    let b = addr(2);
    let c = addr(3);
    let g = Graph::new(
        vec![tok(1, "A", 18), tok(2, "B", 18), tok(3, "C", 18)],
        vec![
            pool(0xA0, a, b, 1_000_000_000, 1_000_000_000, 0),
            pool(0xA1, b, c, 1_000_000_000, 1_000_000_000, 0),
        ],
    );
    let r = run(algo, &g, a, c, u(10_000));
    match &r.outcome {
        Outcome::Found { path, pools_used, .. } => {
            assert_eq!(path.as_slice(), &[a, b, c]);
            assert_eq!(pools_used.len(), path.len() - 1);
            for (i, pool_addr) in pools_used.iter().enumerate() {
                let p = find_pool(&g, *pool_addr);
                let from = path[i];
                let to = path[i + 1];
                let ok = (p.token_a == from && p.token_b == to) || (p.token_a == to && p.token_b == from);
                assert!(ok, "pool does not connect its hop");
            }
        }
        other => panic!("expected Found, got {other:?}"),
    }
}

fn reported_log_weight_equals_sum_of_hops(algo: Algorithm) {
    let a = addr(1);
    let b = addr(2);
    let c = addr(3);
    let g = Graph::new(
        vec![tok(1, "A", 18), tok(2, "B", 18), tok(3, "C", 18)],
        vec![
            pool(0xA0, a, b, 1_000_000_000, 2_000_000_000, 30),
            pool(0xA1, b, c, 1_000_000_000, 3_000_000_000, 30),
        ],
    );
    let r = run(algo, &g, a, c, u(10_000));
    match &r.outcome {
        Outcome::Found { path, pools_used, product_of_rates, .. } => {
            // Log weights add where rates multiply.
            let mut product = Ratio::one();
            for (i, pool_addr) in pools_used.iter().enumerate() {
                let p = find_pool(&g, *pool_addr);
                product = product.mul(&p.marginal_rate(path[i]));
            }
            assert!(product_of_rates.equals(&product));
        }
        other => panic!("expected Found, got {other:?}"),
    }
}

fn trace_is_nonempty_for_reachable_dst(algo: Algorithm) {
    let a = addr(1);
    let b = addr(2);
    let g = Graph::new(
        vec![tok(1, "A", 18), tok(2, "B", 18)],
        vec![pool(0xA0, a, b, 1_000, 1_000, 30)],
    );
    let r = run(algo, &g, a, b, u(100));
    assert!(!r.trace.is_empty());
}

fn every_trace_event_references_real_nodes(algo: Algorithm) {
    let a = addr(1);
    let b = addr(2);
    let c = addr(3);
    let g = Graph::new(
        vec![tok(1, "A", 18), tok(2, "B", 18), tok(3, "C", 18)],
        vec![
            pool(0xA0, a, b, 1_000_000_000, 1_000_000_000, 30),
            pool(0xA1, b, c, 1_000_000_000, 1_000_000_000, 30),
        ],
    );
    let r = run(algo, &g, a, c, u(1_000));
    let n = g.num_tokens();
    for step in &r.trace {
        match step {
            Step::Visit(idx) | Step::Pass(idx) => assert!(*idx < n),
            Step::Relax { from, to, .. } => {
                assert!(*from < n);
                assert!(*to < n);
            }
        }
    }
}

fn prefers_cheaper_pool_on_same_pair(algo: Algorithm) {
    let a = addr(1);
    let b = addr(2);
    let g = Graph::new(
        vec![tok(1, "A", 18), tok(2, "B", 18)],
        vec![
            pool(0xA0, a, b, 1_000_000_000, 1_000_000_000, 100),
            pool(0xA1, a, b, 1_000_000_000, 1_000_000_000, 10),
        ],
    );
    let r = run(algo, &g, a, b, u(1_000));
    match &r.outcome {
        Outcome::Found { pools_used, .. } => {
            assert_eq!(pools_used.as_slice(), &[addr(0xA1)]);
        }
        other => panic!("expected Found, got {other:?}"),
    }
}

fn amount_out_matches_simulate_path(algo: Algorithm) {
    let a = addr(1);
    let b = addr(2);
    let c = addr(3);
    let g = Graph::new(
        vec![tok(1, "A", 18), tok(2, "B", 18), tok(3, "C", 18)],
        vec![
            pool(0xA0, a, b, 1_000_000_000, 2_000_000_000, 30),
            pool(0xA1, b, c, 1_000_000_000, 3_000_000_000, 30),
        ],
    );
    let amount_in = u(100_000);
    let r = run(algo, &g, a, c, amount_in);
    match &r.outcome {
        Outcome::Found { path, pools_used, amount_out, .. } => {
            let replay = Pool::simulate_path(path, pools_used, &g.pools, amount_in);
            assert_eq!(replay, *amount_out);
        }
        other => panic!("expected Found, got {other:?}"),
    }
}

fn product_of_rates_equals_exp_neg_total_log_weight(algo: Algorithm) {
    let a = addr(1);
    let b = addr(2);
    let g = Graph::new(
        vec![tok(1, "A", 18), tok(2, "B", 18)],
        vec![pool(0xA0, a, b, 1_000_000_000, 2_000_000_000, 30)],
    );
    let r = run(algo, &g, a, b, u(1_000));
    match &r.outcome {
        Outcome::Found { product_of_rates, .. } => {
            // One hop: the product is the pool's marginal rate, 2 × 0.997.
            assert!(product_of_rates.equals(&ratio(1_994, 1_000)));
            assert!(product_of_rates.equals(&g.pools[0].marginal_rate(a)));
        }
        other => panic!("expected Found, got {other:?}"),
    }
}

// ---------- Dijkstra ----------

#[test]
fn dijkstra_src_equals_dst_returns_singleton() {
    src_equals_dst_returns_singleton(Algorithm::Dijkstra);
}

#[test]
fn dijkstra_two_nodes_one_edge() {
    two_nodes_one_edge(Algorithm::Dijkstra);
}

#[test]
fn dijkstra_no_path_when_disconnected() {
    no_path_when_disconnected(Algorithm::Dijkstra);
}

#[test]
fn dijkstra_unknown_source_or_dst_returns_no_path() {
    unknown_source_or_dst_returns_no_path(Algorithm::Dijkstra);
}

#[test]
fn dijkstra_path_is_contiguous_via_real_edges() {
    path_is_contiguous_via_real_edges(Algorithm::Dijkstra);
}

#[test]
fn dijkstra_reported_log_weight_equals_sum_of_hops() {
    reported_log_weight_equals_sum_of_hops(Algorithm::Dijkstra);
}

#[test]
fn dijkstra_trace_is_nonempty_for_reachable_dst() {
    trace_is_nonempty_for_reachable_dst(Algorithm::Dijkstra);
}

#[test]
fn dijkstra_every_trace_event_references_real_nodes() {
    every_trace_event_references_real_nodes(Algorithm::Dijkstra);
}

#[test]
fn dijkstra_prefers_cheaper_pool_on_same_pair() {
    prefers_cheaper_pool_on_same_pair(Algorithm::Dijkstra);
}

#[test]
fn dijkstra_amount_out_matches_simulate_path() {
    amount_out_matches_simulate_path(Algorithm::Dijkstra);
}

#[test]
fn dijkstra_product_of_rates_equals_exp_neg_total_log_weight() {
    product_of_rates_equals_exp_neg_total_log_weight(Algorithm::Dijkstra);
}

// ---------- Bellman-Ford ----------

#[test]
fn bellman_ford_src_equals_dst_returns_singleton() {
    src_equals_dst_returns_singleton(Algorithm::BellmanFord);
}

#[test]
fn bellman_ford_two_nodes_one_edge() {
    two_nodes_one_edge(Algorithm::BellmanFord);
}

#[test]
fn bellman_ford_no_path_when_disconnected() {
    no_path_when_disconnected(Algorithm::BellmanFord);
}

#[test]
fn bellman_ford_unknown_source_or_dst_returns_no_path() {
    unknown_source_or_dst_returns_no_path(Algorithm::BellmanFord);
}

#[test]
fn bellman_ford_path_is_contiguous_via_real_edges() {
    path_is_contiguous_via_real_edges(Algorithm::BellmanFord);
}

#[test]
fn bellman_ford_reported_log_weight_equals_sum_of_hops() {
    reported_log_weight_equals_sum_of_hops(Algorithm::BellmanFord);
}

#[test]
fn bellman_ford_trace_is_nonempty_for_reachable_dst() {
    trace_is_nonempty_for_reachable_dst(Algorithm::BellmanFord);
}

#[test]
fn bellman_ford_every_trace_event_references_real_nodes() {
    every_trace_event_references_real_nodes(Algorithm::BellmanFord);
}

#[test]
fn bellman_ford_prefers_cheaper_pool_on_same_pair() {
    prefers_cheaper_pool_on_same_pair(Algorithm::BellmanFord);
}

#[test]
fn bellman_ford_amount_out_matches_simulate_path() {
    amount_out_matches_simulate_path(Algorithm::BellmanFord);
}

#[test]
fn bellman_ford_product_of_rates_equals_exp_neg_total_log_weight() {
    product_of_rates_equals_exp_neg_total_log_weight(Algorithm::BellmanFord);
}

// ---------- Amount-aware ----------

#[test]
fn amount_aware_src_equals_dst_returns_singleton() {
    src_equals_dst_returns_singleton(Algorithm::AmountAware);
}

#[test]
fn amount_aware_two_nodes_one_edge() {
    two_nodes_one_edge(Algorithm::AmountAware);
}

#[test]
fn amount_aware_no_path_when_disconnected() {
    no_path_when_disconnected(Algorithm::AmountAware);
}

#[test]
fn amount_aware_unknown_source_or_dst_returns_no_path() {
    unknown_source_or_dst_returns_no_path(Algorithm::AmountAware);
}

#[test]
fn amount_aware_path_is_contiguous_via_real_edges() {
    path_is_contiguous_via_real_edges(Algorithm::AmountAware);
}

#[test]
fn amount_aware_prefers_cheaper_pool_on_same_pair() {
    prefers_cheaper_pool_on_same_pair(Algorithm::AmountAware);
}

#[test]
fn amount_aware_amount_out_matches_simulate_path() {
    amount_out_matches_simulate_path(Algorithm::AmountAware);
}

// Direct A↔C with deep reserves, or A→B→C through shallow pools whose
// marginal rates are a sliver better.
fn slippage_sensitive_graph() -> (Graph, Address, Address) {
    let a = addr(1);
    let b = addr(2);
    let c = addr(3);
    let tokens = vec![tok(1, "A", 18), tok(2, "B", 18), tok(3, "C", 18)];
    let pools = vec![
        pool(0xA0, a, c, 1_000_000_000, 1_000_000_000, 0),
        pool(0xB1, a, b, 25_000_000, 27_500_000, 0),
        pool(0xB2, b, c, 25_000_000, 27_500_000, 0),
    ];
    (Graph::new(tokens, pools), a, c)
}

#[test]
fn picks_direct_over_multi_hop_when_direct_wins_with_slippage() {
    let (g, a, c) = slippage_sensitive_graph();
    let big_amount = u(10_000_000);
    let r = run(Algorithm::AmountAware, &g, a, c, big_amount);
    match &r.outcome {
        Outcome::Found { path, pools_used, amount_out, .. } => {
            assert_eq!(path.as_slice(), &[a, c], "expected direct path at large size");
            assert_eq!(pools_used.as_slice(), &[addr(0xA0)]);
            assert!(amount_out.gt(&u(9_000_000)));
        }
        other => panic!("expected Found via direct pool, got {other:?}"),
    }
}

#[test]
fn picks_multi_hop_for_small_trade_through_same_graph() {
    let (g, a, c) = slippage_sensitive_graph();
    let small_amount = u(1_000);
    let r = run(Algorithm::AmountAware, &g, a, c, small_amount);
    match &r.outcome {
        Outcome::Found { amount_out, .. } => {
            let direct_out = g.pools[0].output_amount(a, small_amount);
            assert!(amount_out.ge(&direct_out), "amount-aware output worse than direct");
        }
        other => panic!("expected Found, got {other:?}"),
    }
}

// ---------- Bellman-Ford cycles ----------

// A ↔ B and B ↔ C fair at 100:1, A ↔ C mispriced at 9000:1 instead of
// 10000:1: the cycle A → B → C → A multiplies by about 1.111.
fn hand_arb_graph() -> (Graph, Address, Address, Address) {
    let a = addr(1);
    let b = addr(2);
    let c = addr(3);
    let g = Graph::new(
        vec![tok(1, "A", 18), tok(2, "B", 18), tok(3, "C", 18)],
        vec![
            pool(0xA0, a, b, 1_000_000_000, 100_000_000_000, 0),
            pool(0xA1, b, c, 1_000_000_000, 100_000_000_000, 0),
            pool(0xA2, a, c, 1_000_000_000, 9_000_000_000_000, 0),
        ],
    );
    (g, a, b, c)
}

#[test]
fn detects_injected_arb_and_verifies_exact_profit() {
    let a = addr(1);
    let b = addr(2);
    let c = addr(3);
    let tokens = vec![tok(1, "A", 18), tok(2, "B", 18), tok(3, "C", 18)];
    let clean_pools = vec![
        pool(0xA0, a, b, 1_000_000_000, 100_000_000_000, 0),
        pool(0xA1, b, c, 1_000_000_000, 100_000_000_000, 0),
        pool(0xA2, a, c, 1_000_000_000, 10_000_000_000_000, 0),
    ];
    let clean_graph = Graph::new(tokens.clone(), clean_pools.clone());
    let clean = run(Algorithm::BellmanFord, &clean_graph, a, b, u(1_000));
    assert!(
        !matches!(clean.outcome, Outcome::NegativeCycle { .. }),
        "arb-free clean graph unexpectedly produced a negative cycle: {:?}",
        clean.outcome
    );

    let mut arb_pools = clean_pools;
    arb_pools[2] = pool(0xA2, a, c, 1_100_000_000, 9_090_909_090_909, 0);
    let arb_graph = Graph::new(tokens, arb_pools);
    let amount_in = u(1_000);
    let arb = run(Algorithm::BellmanFord, &arb_graph, a, b, amount_in);
    match &arb.outcome {
        Outcome::NegativeCycle { cycle, pools_used, product_of_rates, amount_in: reported_in, cycle_output, .. } => {
            assert_eq!(*reported_in, amount_in);
            assert!(product_of_rates.gt(&Ratio::one()), "product not above one");
            assert!(cycle_output.gt(reported_in), "cycle output not above the input at zero fees");
            assert_eq!(cycle.len(), 3);
            assert_eq!(pools_used.len(), 3);
        }
        other => panic!("expected NegativeCycle after perturbation, got {other:?}"),
    }
}

#[test]
fn cycle_product_of_rates_greater_than_one() {
    let (g, a, b, _c) = hand_arb_graph();
    let r = run(Algorithm::BellmanFord, &g, a, a, u(1_000));
    let r = if matches!(r.outcome, Outcome::Found { .. } if r.trace.len() == 1) {
        run(Algorithm::BellmanFord, &g, a, b, u(1_000))
    } else {
        r
    };
    match &r.outcome {
        Outcome::NegativeCycle { product_of_rates, .. } => {
            assert!(product_of_rates.gt(&Ratio::one()), "expected product > 1");
            assert!(product_of_rates.gt(&ratio(110, 100)) && ratio(113, 100).gt(product_of_rates));
        }
        other => panic!("expected NegativeCycle, got {other:?}"),
    }
}

#[test]
fn arb_free_zero_fee_graph_returns_no_cycle() {
    let a = addr(1);
    let b = addr(2);
    let c = addr(3);
    let g = Graph::new(
        vec![tok(1, "A", 18), tok(2, "B", 18), tok(3, "C", 18)],
        vec![
            pool(0xA0, a, b, 1_000_000, 1_000_000, 0),
            pool(0xA1, b, c, 1_000_000, 1_000_000, 0),
        ],
    );
    let r = run(Algorithm::BellmanFord, &g, a, c, u(1_000));
    assert!(
        !matches!(r.outcome, Outcome::NegativeCycle { .. }),
        "tree topology must not produce a negative cycle: {:?}",
        r.outcome
    );
    assert!(matches!(r.outcome, Outcome::Found { .. }));
}

#[test]
fn cycle_is_a_closed_loop_of_real_pools() {
    let (g, a, b, _c) = hand_arb_graph();
    let r = run(Algorithm::BellmanFord, &g, a, b, u(1_000));
    match &r.outcome {
        Outcome::NegativeCycle { cycle, pools_used, .. } => {
            assert_eq!(pools_used.len(), cycle.len());
            for i in 0..cycle.len() {
                let from = cycle[i];
                let to = cycle[(i + 1) % cycle.len()];
                let p = find_pool(&g, pools_used[i]);
                let ok = (p.token_a == from && p.token_b == to) || (p.token_a == to && p.token_b == from);
                assert!(ok, "pools_used[{i}] does not connect its hop");
            }
        }
        other => panic!("expected NegativeCycle, got {other:?}"),
    }
}

#[test]
fn cycle_output_matches_manual_simulate_path_replay() {
    let (g, a, b, _c) = hand_arb_graph();
    let amount_in = u(1_000);
    let r = run(Algorithm::BellmanFord, &g, a, b, amount_in);
    match &r.outcome {
        Outcome::NegativeCycle { cycle, pools_used, cycle_output, .. } => {
            let mut closed: Vec<Address> = cycle.clone();
            closed.push(cycle[0]);
            let replay = Pool::simulate_path(&closed, pools_used, &g.pools, amount_in);
            assert_eq!(replay, *cycle_output);
            assert!(cycle_output.gt(&amount_in));
        }
        other => panic!("expected NegativeCycle, got {other:?}"),
    }
}

// ---------- the dispatcher ----------

#[test]
fn float_based_algorithms_are_answered_by_the_caller() {
    let a = addr(1);
    let b = addr(2);
    let g = Graph::new(
        vec![tok(1, "A", 18), tok(2, "B", 18)],
        vec![pool(0xA0, a, b, 1_000_000, 1_000_000, 30)],
    );
    assert!(solve(Algorithm::SplitFw, &g, a, b, u(100)).is_none());
    assert!(solve(Algorithm::Prime, &g, a, b, u(100)).is_none());
    assert!(solve(Algorithm::Dijkstra, &g, a, b, u(100)).is_some());
    assert!(solve(Algorithm::SplitDp, &g, a, b, u(100)).is_some());
}

#[test]
fn dijkstra_picks_the_larger_rate_product_over_the_direct_pool() {
    // A→C directly at rate 1/2; A→B→C at 9/10 · 9/10 = 81/100.
    let a = addr(1);
    let b = addr(2);
    let c = addr(3);
    let g = Graph::new(
        vec![tok(1, "A", 18), tok(2, "B", 18), tok(3, "C", 18)],
        vec![
            pool(0xA0, a, c, 1_000_000, 500_000, 0),
            pool(0xA1, a, b, 1_000_000, 900_000, 0),
            pool(0xA2, b, c, 1_000_000, 900_000, 0),
        ],
    );
    let r = run(Algorithm::Dijkstra, &g, a, c, u(1_000));
    match r.outcome {
        Outcome::Found { path, pools_used, product_of_rates, .. } => {
            assert_eq!(path, vec![a, b, c]);
            assert_eq!(pools_used, vec![addr(0xA1), addr(0xA2)]);
            assert!(product_of_rates.equals(&ratio(81, 100)));
        },
        other => panic!("expected a route, got {:?}", other),
    }
}

#[test]
fn dijkstra_trace_opens_at_the_source_and_ends_at_the_destination() {
    let (a, b, c) = (addr(1), addr(2), addr(3));
    let g = Graph::new(
        vec![tok(1, "A", 18), tok(2, "B", 18), tok(3, "C", 18)],
        vec![pool(0xA0, a, b, 1_000_000, 1_000_000, 30), pool(0xA1, b, c, 1_000_000, 1_000_000, 30)],
    );
    let r = run(Algorithm::Dijkstra, &g, a, c, u(1_000));
    assert!(matches!(r.outcome, Outcome::Found { .. }));
    assert_eq!(r.trace[0], Step::Visit(0));
    assert_eq!(r.trace[r.trace.len() - 1], Step::Visit(2));
    assert!(r.trace.iter().all(|e| matches!(e, Step::Visit(_) | Step::Relax { .. })));
}

#[test]
fn bf_outcome_is_the_same_with_or_without_a_trace() {
    let (g, a, b, _c) = hand_arb_graph();
    let quiet = |src: Address, dst: Address| {
        routeviz::algo::solve_with_opts(
            Algorithm::BellmanFord,
            &g,
            src,
            dst,
            u(1_000),
            routeviz::algo::SolveOptions { with_trace: false, gas: routeviz::algo::GasModel::off() },
        )
        .unwrap()
    };
    let traced = run(Algorithm::BellmanFord, &g, a, b, u(1_000));
    let untraced = quiet(a, b);
    assert!(matches!(traced.outcome, Outcome::NegativeCycle { .. }));
    assert_eq!(traced.outcome, untraced.outcome);
    assert!(untraced.trace.is_empty());
    assert!(!traced.trace.is_empty());
}

#[test]
fn bf_chain_route_follows_the_parent_links() {
    let a = addr(1);
    let b = addr(2);
    let c = addr(3);
    let g = Graph::new(
        vec![tok(1, "A", 18), tok(2, "B", 18), tok(3, "C", 18)],
        vec![pool(0xA0, a, b, 1_000_000, 1_000_000, 0), pool(0xA1, b, c, 1_000_000, 1_000_000, 0)],
    );
    let r = run(Algorithm::BellmanFord, &g, a, c, u(1_000));
    match r.outcome {
        Outcome::Found { path, pools_used, amount_in, .. } => {
            assert_eq!(path, vec![a, b, c]);
            assert_eq!(pools_used, vec![addr(0xA0), addr(0xA1)]);
            assert_eq!(amount_in, u(1_000));
        }
        other => panic!("expected Found, got {other:?}"),
    }
}

#[test]
fn bf_takes_the_two_hop_route_with_the_better_product() {
    let a = addr(1);
    let b = addr(2);
    let c = addr(3);
    let g = Graph::new(
        vec![tok(1, "A", 18), tok(2, "B", 18), tok(3, "C", 18)],
        vec![
            pool(0xA0, a, b, 1_000_000, 1_000_000, 30),
            pool(0xA1, b, c, 1_000_000, 1_000_000, 30),
            pool(0xA2, a, c, 1_000_000, 995_000, 30),
        ],
    );
    let r = run(Algorithm::BellmanFord, &g, a, c, u(1_000));
    match r.outcome {
        Outcome::Found { path, pools_used, .. } => {
            assert_eq!(path, vec![a, b, c]);
            assert_eq!(pools_used, vec![addr(0xA0), addr(0xA1)]);
        }
        other => panic!("expected Found, got {other:?}"),
    }
}

#[test]
fn dijkstra_outcome_is_the_same_with_or_without_a_trace() {
    let a = addr(1);
    let b = addr(2);
    let c = addr(3);
    let g = Graph::new(
        vec![tok(1, "A", 18), tok(2, "B", 18), tok(3, "C", 18)],
        vec![
            pool(0xA0, a, b, 1_000_000, 1_000_000, 30),
            pool(0xA1, b, c, 1_000_000, 1_000_000, 30),
            pool(0xA2, a, c, 1_000_000, 995_000, 30),
        ],
    );
    let traced = run(Algorithm::Dijkstra, &g, a, c, u(1_000));
    let untraced = routeviz::algo::solve_with_opts(
        Algorithm::Dijkstra,
        &g,
        a,
        c,
        u(1_000),
        routeviz::algo::SolveOptions { with_trace: false, gas: routeviz::algo::GasModel::off() },
    )
    .unwrap();
    assert_eq!(traced.outcome, untraced.outcome);
    assert!(untraced.trace.is_empty());
    match traced.outcome {
        Outcome::Found { path, .. } => assert_eq!(path, vec![a, b, c]),
        other => panic!("expected Found, got {other:?}"),
    }
}
