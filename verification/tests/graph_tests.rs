use routeviz::address::Address;
use routeviz::graph::{Graph, GraphError};
use routeviz::pool::Pool;
use routeviz::token::{Token, TokenKind};
use routeviz::uint::U256;

fn addr(byte: u8) -> Address {
    Address::new([byte; 20])
}

fn tok(byte: u8, symbol: &str) -> Token {
    Token {
        address: addr(byte),
        symbol: symbol.to_string(),
        decimals: 18,
        true_price_pico_usd: 1_000_000_000_000,
        kind: TokenKind::Spoke,
    }
}

fn pool(pool_byte: u8, a: Address, b: Address) -> Pool {
    Pool {
        address: addr(pool_byte),
        token_a: a,
        token_b: b,
        reserve_a: U256::from_u64(1_000),
        reserve_b: U256::from_u64(1_000),
        fee_bps: 30,
        venue: "Test".to_string(),
    }
}

#[test]
fn each_pool_contributes_exactly_two_directed_edges() {
    let tokens = vec![tok(1, "A"), tok(2, "B"), tok(3, "C")];
    let pools = vec![pool(0xA0, addr(1), addr(2)), pool(0xA1, addr(2), addr(3))];
    let g = Graph::new(tokens, pools);
    let total_edges: usize = g.adj.iter().map(|v| v.len()).sum();
    assert_eq!(total_edges, g.num_pools() * 2);
}

#[test]
fn adj_lookup_returns_outgoing_edges_for_source() {
    let tokens = vec![tok(1, "A"), tok(2, "B"), tok(3, "C")];
    let pools = vec![pool(0xA0, addr(1), addr(2)), pool(0xA1, addr(1), addr(3))];
    let g = Graph::new(tokens, pools);
    let a = g.index_of(addr(1)).unwrap();
    let out_from_a = &g.adj[a];
    assert_eq!(out_from_a.len(), 2);
    let destinations: Vec<usize> = out_from_a.iter().map(|e| e.to).collect();
    assert!(destinations.contains(&g.index_of(addr(2)).unwrap()));
    assert!(destinations.contains(&g.index_of(addr(3)).unwrap()));
}

#[test]
fn edges_are_directed_with_correct_in_token() {
    let tokens = vec![tok(1, "A"), tok(2, "B")];
    let pools = vec![pool(0xA0, addr(1), addr(2))];
    let g = Graph::new(tokens, pools);
    let a = g.index_of(addr(1)).unwrap();
    let b = g.index_of(addr(2)).unwrap();
    let edge_ab = g.adj[a].iter().find(|e| e.to == b).unwrap();
    assert_eq!(edge_ab.in_token, addr(1));
    let edge_ba = g.adj[b].iter().find(|e| e.to == a).unwrap();
    assert_eq!(edge_ba.in_token, addr(2));
}

#[test]
fn disconnected_token_has_no_outgoing_edges() {
    let tokens = vec![tok(1, "A"), tok(2, "B"), tok(3, "C")];
    let pools = vec![pool(0xA0, addr(1), addr(2))];
    let g = Graph::new(tokens, pools);
    let c = g.index_of(addr(3)).unwrap();
    assert!(g.adj[c].is_empty());
}

#[test]
fn token_index_round_trips() {
    let tokens = vec![tok(1, "A"), tok(5, "E"), tok(9, "I")];
    let g = Graph::new(tokens.clone(), vec![]);
    for (i, t) in tokens.iter().enumerate() {
        assert_eq!(g.index_of(t.address), Some(i));
        assert_eq!(g.address_of(i), t.address);
    }
}

#[test]
fn parallel_pools_between_same_pair_produce_four_edges() {
    let tokens = vec![tok(1, "A"), tok(2, "B")];
    let pools = vec![pool(0xA0, addr(1), addr(2)), pool(0xA1, addr(1), addr(2))];
    let g = Graph::new(tokens, pools);
    let a = g.index_of(addr(1)).unwrap();
    let b = g.index_of(addr(2)).unwrap();
    assert_eq!(g.adj[a].len(), 2);
    assert_eq!(g.adj[b].len(), 2);
    let distinct_pools: Vec<usize> = g.adj[a].iter().map(|e| e.pool).collect();
    assert_ne!(distinct_pools[0], distinct_pools[1]);
}

#[test]
fn empty_graph_is_valid() {
    let g = Graph::new(vec![], vec![]);
    assert_eq!(g.num_tokens(), 0);
    assert_eq!(g.num_pools(), 0);
    assert!(g.adj.is_empty());
}

fn build(tokens: Vec<Token>, pools: Vec<Pool>) -> Graph {
    match Graph::try_new(tokens, pools) {
        Ok(g) => g,
        Err(e) => panic!("Graph::new: {}", e.message()),
    }
}

#[test]
#[should_panic(expected = "identical tokens")]
fn self_loop_pool_is_rejected() {
    let tokens = vec![tok(1, "A")];
    let pools = vec![pool(0xA0, addr(1), addr(1))];
    build(tokens, pools);
}

#[test]
#[should_panic(expected = "unknown token")]
fn pool_referencing_unknown_token_is_rejected() {
    let tokens = vec![tok(1, "A")];
    let pools = vec![pool(0xA0, addr(1), addr(99))];
    build(tokens, pools);
}

#[test]
#[should_panic(expected = "duplicate token address")]
fn duplicate_token_address_is_rejected() {
    let tokens = vec![tok(1, "A"), tok(1, "A_dup")];
    let pools = vec![];
    build(tokens, pools);
}

#[test]
fn try_new_names_the_first_bad_pool() {
    let tokens = vec![tok(1, "A"), tok(2, "B")];
    let pools = vec![pool(0xA0, addr(1), addr(2)), pool(0xA1, addr(2), addr(9)), pool(0xA2, addr(1), addr(1))];
    assert_eq!(Graph::try_new(tokens.clone(), pools).err(), Some(GraphError::UnknownToken { pool: 1 }));
    let pools = vec![pool(0xA0, addr(2), addr(2)), pool(0xA1, addr(2), addr(9))];
    assert_eq!(Graph::try_new(tokens.clone(), pools).err(), Some(GraphError::IdenticalTokens { pool: 0 }));
    let dup = vec![tok(1, "A"), tok(2, "B"), tok(2, "B2")];
    assert_eq!(Graph::try_new(dup, vec![pool(0xA0, addr(1), addr(1))]).err(), Some(GraphError::DuplicateToken));
    let g = Graph::try_new(tokens, vec![pool(0xA0, addr(1), addr(2))]).unwrap();
    assert_eq!(g.num_pools(), 1);
    assert_eq!(g.adj[0].len() + g.adj[1].len(), 2);
}
