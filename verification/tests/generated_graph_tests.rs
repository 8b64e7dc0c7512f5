//! Queries on the synthetic hub-and-spoke market at its default settings.
//! The market is drawn here the way the command-line tool draws it: a
//! seeded ChaCha8 stream, log-normal price jitter and liquidity, venues
//! rolled per pair.
use rand::seq::SliceRandom;
use rand::{Rng, RngCore, SeedableRng};
use rand_chacha::ChaCha8Rng;
use rand_distr::{Distribution, LogNormal};
use routeviz::address::Address;
use routeviz::algo::bounded_bf::BoundedBfIter;
use routeviz::algo::{solve, Algorithm, Outcome};
use routeviz::graph::Graph;
use routeviz::pool::Pool;
use routeviz::token::{Token, TokenKind};
use routeviz::uint::U256;

struct Venue {
    name: &'static str,
    fee_bps: u16,
    weight: f64,
}

const VENUES: [Venue; 4] = [
    Venue { name: "Uniswap V2", fee_bps: 30, weight: 1.00 },
    Venue { name: "SushiSwap", fee_bps: 30, weight: 0.60 },
    Venue { name: "PancakeSwap", fee_bps: 25, weight: 0.50 },
    Venue { name: "Biswap", fee_bps: 10, weight: 0.30 },
];

const CATALOG: [(&str, u8, f64, TokenKind); 30] = [
    ("WETH", 18, 3000.0, TokenKind::Hub),
    ("USDC", 6, 1.0, TokenKind::Hub),
    ("USDT", 6, 1.0, TokenKind::Hub),
    ("WBTC", 8, 100000.0, TokenKind::Hub),
    ("DAI", 18, 1.0, TokenKind::Hub),
    ("LINK", 18, 15.0, TokenKind::Spoke),
    ("UNI", 18, 10.0, TokenKind::Spoke),
    ("AAVE", 18, 100.0, TokenKind::Spoke),
    ("CRV", 18, 0.5, TokenKind::Spoke),
    ("MKR", 18, 2500.0, TokenKind::Spoke),
    ("SNX", 18, 3.0, TokenKind::Spoke),
    ("COMP", 18, 50.0, TokenKind::Spoke),
    ("LDO", 18, 2.5, TokenKind::Spoke),
    ("ARB", 18, 1.0, TokenKind::Spoke),
    ("OP", 18, 2.0, TokenKind::Spoke),
    ("PEPE", 18, 0.00001, TokenKind::Spoke),
    ("SHIB", 18, 0.00002, TokenKind::Spoke),
    ("GRT", 18, 0.2, TokenKind::Spoke),
    ("FXS", 18, 2.5, TokenKind::Spoke),
    ("MATIC", 18, 0.5, TokenKind::Spoke),
    ("1INCH", 18, 0.3, TokenKind::Spoke),
    ("SUSHI", 18, 1.0, TokenKind::Spoke),
    ("YFI", 18, 8000.0, TokenKind::Spoke),
    ("BAL", 18, 3.0, TokenKind::Spoke),
    ("RPL", 18, 30.0, TokenKind::Spoke),
    ("ENS", 18, 25.0, TokenKind::Spoke),
    ("APE", 18, 1.5, TokenKind::Spoke),
    ("CVX", 18, 3.5, TokenKind::Spoke),
    ("GMX", 18, 35.0, TokenKind::Spoke),
    ("PENDLE", 18, 4.0, TokenKind::Spoke),
];

fn to_base_units(human: f64, decimals: u8) -> U256 {
    if !human.is_finite() || human <= 0.0 {
        return U256::zero();
    }
    let base = human * 10f64.powi(decimals as i32);
    if !base.is_finite() {
        return U256::zero();
    }
    if base >= u128::MAX as f64 {
        return U256::from_u128(u128::MAX);
    }
    U256::from_u128(base as u128)
}

fn pico_usd(price: f64) -> u64 {
    let p = (price * 1e12).round();
    if p >= u64::MAX as f64 {
        u64::MAX
    } else if p <= 0.0 {
        0
    } else {
        p as u64
    }
}

/// The default market (20 tokens, seed 42, liquidity spread 1.5, pair
/// density 0.35) with the given price noise.
fn market(price_noise: f64) -> (Vec<Token>, Vec<Pool>) {
    let num_tokens = 20usize;
    let mut rng = ChaCha8Rng::seed_from_u64(42);
    let max_hubs = CATALOG.iter().filter(|t| t.3 == TokenKind::Hub).count();
    let from_catalog = num_tokens.min(CATALOG.len());
    let target_hubs = (num_tokens / 3).clamp(2, max_hubs).min(from_catalog);
    let mut hubs: Vec<usize> = (0..CATALOG.len()).filter(|&i| CATALOG[i].3 == TokenKind::Hub).collect();
    let mut spokes: Vec<usize> = (0..CATALOG.len()).filter(|&i| CATALOG[i].3 == TokenKind::Spoke).collect();
    hubs.shuffle(&mut rng);
    spokes.shuffle(&mut rng);
    hubs.truncate(target_hubs);
    spokes.truncate(from_catalog - target_hubs);
    let jitter = LogNormal::new(0.0, 0.02).unwrap();
    let mut tokens = Vec::new();
    let mut prices = Vec::new();
    for i in hubs.into_iter().chain(spokes) {
        let (symbol, decimals, typical, kind) = CATALOG[i];
        let mut bytes = [0u8; 20];
        rng.fill_bytes(&mut bytes);
        let price = typical * jitter.sample(&mut rng);
        prices.push(price);
        tokens.push(Token {
            address: Address::new(bytes),
            symbol: symbol.to_string(),
            decimals,
            true_price_pico_usd: pico_usd(price),
            kind,
        });
    }

    let hub_hub = LogNormal::new((50e6_f64).ln(), 1.5).unwrap();
    let hub_spoke = LogNormal::new((5e6_f64).ln(), 1.5).unwrap();
    let noise_dist = LogNormal::new(0.0, price_noise).unwrap();
    let mut pools = Vec::new();
    let n = tokens.len();
    for i in 0..n {
        for j in (i + 1)..n {
            let (p, tvl_dist) = match (tokens[i].kind, tokens[j].kind) {
                (TokenKind::Hub, TokenKind::Hub) => (1.0f64, &hub_hub),
                (TokenKind::Spoke, TokenKind::Spoke) => continue,
                _ => (0.35 * 1.5, &hub_spoke),
            };
            let p = p.clamp(0.0, 1.0);
            for venue in VENUES.iter() {
                let vp = (p * venue.weight).clamp(0.0, 1.0);
                if rng.random::<f64>() > vp {
                    continue;
                }
                let tvl = tvl_dist.sample(&mut rng) * venue.weight;
                let noise = noise_dist.sample(&mut rng);
                let ra = to_base_units((tvl / 2.0) / prices[i], tokens[i].decimals);
                let rb = to_base_units((tvl / 2.0) / prices[j] * noise, tokens[j].decimals);
                if ra.is_zero() || rb.is_zero() {
                    continue;
                }
                let mut bytes = [0u8; 20];
                rng.fill_bytes(&mut bytes);
                pools.push(Pool {
                    address: Address::new(bytes),
                    token_a: tokens[i].address,
                    token_b: tokens[j].address,
                    reserve_a: ra,
                    reserve_b: rb,
                    fee_bps: venue.fee_bps,
                    venue: venue.name.to_string(),
                });
            }
        }
    }
    (tokens, pools)
}

fn hubs(tokens: &[Token]) -> Vec<Address> {
    tokens.iter().filter(|t| t.kind == TokenKind::Hub).map(|t| t.address).collect()
}

fn solve_on_generated_graph_returns_valid_path(algo: Algorithm) {
    let (tokens, pools) = market(0.0);
    let g = Graph::new(tokens, pools);
    let hubs = hubs(&g.tokens);
    assert!(hubs.len() >= 2);
    let src = hubs[0];
    let dst = hubs[1];
    let amount_in = U256::from_u64(1_000_000);
    let r = solve(algo, &g, src, dst, amount_in).unwrap();
    match &r.outcome {
        Outcome::Found { path, amount_in: reported_in, amount_out, pools_used, .. } => {
            assert_eq!(path.first().copied(), Some(src));
            assert_eq!(path.last().copied(), Some(dst));
            assert_eq!(*reported_in, amount_in);
            assert!(amount_out.gt(&U256::zero()));
            assert_eq!(pools_used.len(), path.len() - 1);
        }
        other => panic!("expected Found between hubs, got {other:?}"),
    }
}

#[test]
fn dijkstra_solve_on_generated_graph_returns_valid_path() {
    solve_on_generated_graph_returns_valid_path(Algorithm::Dijkstra);
}

#[test]
fn bellman_ford_solve_on_generated_graph_returns_valid_path() {
    solve_on_generated_graph_returns_valid_path(Algorithm::BellmanFord);
}

#[test]
fn amount_aware_runs_on_default_generator_graph() {
    let (tokens, pools) = market(0.0);
    let g = Graph::new(tokens, pools);
    let hubs = hubs(&g.tokens);
    let r = solve(Algorithm::AmountAware, &g, hubs[0], hubs[1], U256::from_u64(1_000_000)).unwrap();
    let _ = r.outcome;
}

#[test]
fn split_dp_runs_on_default_generator_graph() {
    let (tokens, pools) = market(0.0);
    let g = Graph::new(tokens, pools);
    let hubs = hubs(&g.tokens);
    let r = solve(Algorithm::SplitDp, &g, hubs[0], hubs[1], U256::from_u64(1_000_000)).unwrap();
    assert!(matches!(r.outcome, Outcome::FoundSplit { .. } | Outcome::NoPath));
}

#[test]
fn works_on_arb_free_generator_graph() {
    let (tokens, pools) = market(0.0);
    let g = Graph::new(tokens, pools);
    let hubs = hubs(&g.tokens);
    let src = g.index_of(hubs[0]).unwrap();
    let dst = g.index_of(hubs[1]).unwrap();
    let mut it = BoundedBfIter::new(&g, src, dst, 3);
    let mut count = 0;
    while it.next().is_some() {
        count += 1;
        if count >= 50 {
            break;
        }
    }
    assert!(count >= 10, "expected ≥10 paths, got {count}");
}

#[test]
fn works_on_arb_able_generator_graph() {
    let (tokens, pools) = market(0.0);
    let g = Graph::new(tokens, pools);
    let hubs = hubs(&g.tokens);
    let src = g.index_of(hubs[0]).unwrap();
    let dst = g.index_of(hubs[1]).unwrap();
    let count = BoundedBfIter::new(&g, src, dst, 3).into_paths().len();
    assert!(count >= 1, "expected ≥1 path, got {count}");
}
