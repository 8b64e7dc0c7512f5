use routeviz::address::Address;
use routeviz::algo::bounded_bf::BoundedBfIter;
use routeviz::graph::Graph;
use routeviz::pool::Pool;
use routeviz::token::{Token, TokenKind};
use routeviz::uint::U256;
use std::collections::HashSet;

fn addr(byte: u8) -> Address {
    Address::new([byte; 20])
}

fn tok(byte: u8, symbol: &str) -> Token {
    Token {
        address: addr(byte),
        symbol: symbol.to_string(),
        decimals: 18,
        true_price_pico_usd: 1_000_000_000_000,
        kind: TokenKind::Spoke,
    }
}

fn pool(pool_byte: u8, a: Address, b: Address, ra: u64, rb: u64) -> Pool {
    Pool {
        address: addr(pool_byte),
        token_a: a,
        token_b: b,
        reserve_a: U256::from_u64(ra),
        reserve_b: U256::from_u64(rb),
        fee_bps: 0,
        venue: "Test".to_string(),
    }
}

#[test]
fn emits_shortest_first() {
    let a = addr(1);
    let b = addr(2);
    let c = addr(3);
    let g = Graph::new(
        vec![tok(1, "A"), tok(2, "B"), tok(3, "C")],
        vec![
            pool(0xA0, a, c, 1_000, 1_000),
            pool(0xA1, a, b, 1_000, 2_000),
            pool(0xA2, b, c, 1_000, 2_000),
        ],
    );
    let g_src = g.index_of(a).unwrap();
    let g_dst = g.index_of(c).unwrap();
    let mut iter = BoundedBfIter::new(&g, g_src, g_dst, 3);
    let p1 = iter.next().expect("at least one path");
    let p2 = iter.next().expect("at least two paths");
    assert_ne!(p1, p2);
    // A→B→C doubles twice: it comes before the direct route.
    assert_eq!(p1, vec![g_src, g.index_of(b).unwrap(), g_dst]);
}

#[test]
fn terminates_when_exhausted() {
    let a = addr(1);
    let b = addr(2);
    let g = Graph::new(vec![tok(1, "A"), tok(2, "B")], vec![pool(0xA0, a, b, 1_000, 1_000)]);
    let mut iter = BoundedBfIter::new(&g, g.index_of(a).unwrap(), g.index_of(b).unwrap(), 3);
    assert!(iter.next().is_some());
    assert!(iter.next().is_none());
}

#[test]
fn respects_max_hops() {
    let a = addr(1);
    let b = addr(2);
    let c = addr(3);
    let d = addr(4);
    let g = Graph::new(
        vec![tok(1, "A"), tok(2, "B"), tok(3, "C"), tok(4, "D")],
        vec![
            pool(0xA1, a, b, 1_000, 1_000),
            pool(0xA2, b, c, 1_000, 1_000),
            pool(0xA3, c, d, 1_000, 1_000),
        ],
    );
    let src = g.index_of(a).unwrap();
    let dst = g.index_of(d).unwrap();
    let mut iter = BoundedBfIter::new(&g, src, dst, 2);
    assert!(iter.next().is_none());
    let mut iter = BoundedBfIter::new(&g, src, dst, 3);
    assert!(iter.next().is_some());
}

#[test]
fn paths_are_simple() {
    let a = addr(1);
    let b = addr(2);
    let c = addr(3);
    let g = Graph::new(
        vec![tok(1, "A"), tok(2, "B"), tok(3, "C")],
        vec![
            pool(0xA1, a, b, 1_000, 1_000),
            pool(0xA2, b, c, 1_000, 1_000),
            pool(0xA3, a, c, 1_000, 1_000),
        ],
    );
    let src = g.index_of(a).unwrap();
    let dst = g.index_of(c).unwrap();
    for path in BoundedBfIter::new(&g, src, dst, 3).into_paths() {
        let unique: HashSet<usize> = path.iter().copied().collect();
        assert_eq!(unique.len(), path.len(), "duplicate node: {path:?}");
    }
}

#[test]
fn parallel_pools_coalesce() {
    let a = addr(1);
    let b = addr(2);
    let g = Graph::new(
        vec![tok(1, "A"), tok(2, "B")],
        vec![
            pool(0xA1, a, b, 1_000, 1_000),
            pool(0xA2, a, b, 1_000, 2_000),
            pool(0xA3, a, b, 2_000, 1_000),
            pool(0xA4, a, b, 3_000, 3_000),
        ],
    );
    let src = g.index_of(a).unwrap();
    let dst = g.index_of(b).unwrap();
    let paths = BoundedBfIter::new(&g, src, dst, 3).into_paths();
    assert_eq!(paths.len(), 1, "expected 1 coalesced path, got {paths:?}");
}

#[test]
fn handles_negative_cycles_without_exploding() {
    let a = addr(1);
    let b = addr(2);
    let c = addr(3);
    let g = Graph::new(
        vec![tok(1, "A"), tok(2, "B"), tok(3, "C")],
        vec![
            pool(0xA1, a, b, 1_000_000, 1_000_001),
            pool(0xA2, b, a, 1_000_001, 1_000_000),
            pool(0xA3, b, c, 1_000, 1_000),
            pool(0xA4, a, c, 1_000, 1_000),
        ],
    );
    let src = g.index_of(a).unwrap();
    let dst = g.index_of(c).unwrap();
    let paths = BoundedBfIter::new(&g, src, dst, 3).into_paths();
    assert!(!paths.is_empty());
    for p in &paths {
        let unique: HashSet<usize> = p.iter().copied().collect();
        assert_eq!(unique.len(), p.len());
    }
}

#[test]
fn src_equals_dst_emits_the_trivial_path() {
    let a = addr(1);
    let b = addr(2);
    let g = Graph::new(vec![tok(1, "A"), tok(2, "B")], vec![pool(0xA0, a, b, 1_000, 1_000)]);
    let paths = BoundedBfIter::new(&g, 0, 0, 3).into_paths();
    assert_eq!(paths, vec![vec![0]]);
    assert!(BoundedBfIter::new(&g, 0, 5, 3).into_paths().is_empty());
}

#[test]
fn lists_every_short_walk_once() {
    let (a, b, c, d) = (addr(1), addr(2), addr(3), addr(4));
    let g = Graph::new(
        vec![tok(1, "A"), tok(2, "B"), tok(3, "C"), tok(4, "D")],
        vec![
            pool(0xA1, a, b, 1_000, 1_000),
            pool(0xA2, b, d, 1_000, 1_000),
            pool(0xA3, a, c, 1_000, 2_000),
            pool(0xA4, c, d, 1_000, 1_000),
            pool(0xA5, a, b, 1_000, 1_000),
        ],
    );
    let ps = BoundedBfIter::new(&g, 0, 3, 2).into_paths();
    assert_eq!(ps.len(), 2);
    assert!(ps.contains(&vec![0, 1, 3]));
    assert!(ps.contains(&vec![0, 2, 3]));
    let unique: HashSet<Vec<usize>> = ps.iter().cloned().collect();
    assert_eq!(unique.len(), ps.len());
}
