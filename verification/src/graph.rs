//! The directed token graph: each pool contributes an edge in each direction.
use crate::address::Address;
use crate::pool::Pool;
use crate::token::Token;
use vstd::prelude::*;

verus! {

/// A directed edge in dense index space: leaving a token through pool
/// `pool` towards token `to`, selling `in_token`.
#[derive(Debug, Clone, Copy, PartialEq, Eq, Structural)]
pub struct Edge {
    pub pool: usize,
    pub to: usize,
    pub in_token: Address,
}

/// Index of the first token with address `a` among the first `n`, or -1.
pub open spec fn index_upto(tokens: Seq<Token>, a: Address, n: int) -> int
    decreases n,
{
    if n <= 0 {
        -1
    } else {
        let i = index_upto(tokens, a, n - 1);
        if i >= 0 {
            i
        } else if tokens[n - 1].address == a {
            n - 1
        } else {
            -1
        }
    }
}

/// Index of the token with address `a`, or -1.
pub open spec fn token_index(tokens: Seq<Token>, a: Address) -> int {
    index_upto(tokens, a, tokens.len() as int)
}

/// No two tokens share an address.
pub open spec fn distinct_addresses(tokens: Seq<Token>) -> bool {
    forall|i: int, j: int|
        0 <= i < j < tokens.len() ==> tokens[i].address != tokens[j].address
}

/// Every pool joins two different tokens of the list.
pub open spec fn pools_valid(tokens: Seq<Token>, pools: Seq<Pool>) -> bool {
    forall|k: int|
        0 <= k < pools.len() ==> {
            &&& #[trigger] pools[k].token_a != pools[k].token_b
            &&& token_index(tokens, pools[k].token_a) >= 0
            &&& token_index(tokens, pools[k].token_b) >= 0
        }
}

/// Edges leaving token `u` contributed by the first `k` pools, in pool
/// order: pool `p` gives `u` an edge when `u` is one of its tokens.
pub open spec fn edges_from(tokens: Seq<Token>, pools: Seq<Pool>, u: int, k: int) -> Seq<Edge>
    decreases k,
{
    if k <= 0 {
        Seq::empty()
    } else {
        let p = pools[k - 1];
        let ia = token_index(tokens, p.token_a);
        let ib = token_index(tokens, p.token_b);
        let ea = if ia == u {
            seq![Edge { pool: (k - 1) as usize, to: ib as usize, in_token: p.token_a }]
        } else {
            Seq::empty()
        };
        let eb = if ib == u {
            seq![Edge { pool: (k - 1) as usize, to: ia as usize, in_token: p.token_b }]
        } else {
            Seq::empty()
        };
        edges_from(tokens, pools, u, k - 1) + ea + eb
    }
}

/// Facts about token lookup.
pub proof fn lemma_index_upto(tokens: Seq<Token>, a: Address, n: int)
    requires
        0 <= n <= tokens.len(),
    ensures
        -1 <= index_upto(tokens, a, n) < n,
        index_upto(tokens, a, n) >= 0 ==> tokens[index_upto(tokens, a, n)].address == a,
        index_upto(tokens, a, n) == -1 ==> forall|j: int|
            0 <= j < n ==> tokens[j].address != a,
        forall|j: int| 0 <= j < index_upto(tokens, a, n) ==> tokens[j].address != a,
    decreases n,
{
    if n > 0 {
        lemma_index_upto(tokens, a, n - 1);
    }
}

/// With distinct addresses, the token at index `i` is found at `i`.
pub proof fn lemma_token_index_of(tokens: Seq<Token>, i: int)
    requires
        distinct_addresses(tokens),
        0 <= i < tokens.len(),
    ensures
        token_index(tokens, tokens[i].address) == i,
{
    lemma_index_upto(tokens, tokens[i].address, tokens.len() as int);
    let j = token_index(tokens, tokens[i].address);
    if j >= 0 && j != i {
        if j < i {
            assert(tokens[j].address != tokens[i].address);
        } else {
            assert(tokens[i].address != tokens[j].address);
        }
    }
}

/// The directed token graph.
#[derive(Debug, Clone)]
pub struct Graph {
    pub tokens: Vec<Token>,
    pub pools: Vec<Pool>,
    /// `adj[u]` lists the edges leaving token `u`.
    pub adj: Vec<Vec<Edge>>,
}

impl Graph {
    /// The graph is what `new` builds from its tokens and pools.
    pub open spec fn wf(&self) -> bool {
        &&& self.tokens@.len() <= usize::MAX
        &&& self.pools@.len() <= usize::MAX
        &&& distinct_addresses(self.tokens@)
        &&& pools_valid(self.tokens@, self.pools@)
        &&& self.adj@.len() == self.tokens@.len()
        &&& forall|u: int|
            0 <= u < self.adj@.len() ==> #[trigger] self.adj@[u]@ == edges_from(
                self.tokens@,
                self.pools@,
                u,
                self.pools@.len() as int,
            )
    }

    /// An edge from `u` is a real pool hop: it leaves `u` selling `u`'s
    /// token through a pool that joins `u` and `to`.
    pub open spec fn edge_ok(&self, u: int, e: Edge) -> bool {
        &&& e.pool < self.pools@.len()
        &&& e.to < self.tokens@.len()
        &&& e.to != u
        &&& e.in_token == self.tokens@[u].address
        &&& self.pools@[e.pool as int].has_token(e.in_token)
        &&& self.pools@[e.pool as int].other_spec(e.in_token) == self.tokens@[e.to as int].address
    }

    /// Builds the graph; every pool gives an edge in each direction. The
    /// token addresses must be distinct and each pool must join two different
    /// tokens of the list.
    pub fn new(tokens: Vec<Token>, pools: Vec<Pool>) -> (g: Self)
        requires
            distinct_addresses(tokens@),
            pools_valid(tokens@, pools@),
        ensures
            g.wf(),
            g.tokens@ == tokens@,
            g.pools@ == pools@,
    {
        let n = tokens.len();
        let mut ia: Vec<usize> = Vec::new();
        let mut ib: Vec<usize> = Vec::new();
        let mut k: usize = 0;
        while k < pools.len()
            invariant
                k <= pools.len(),
                ia.len() == k,
                ib.len() == k,
                pools_valid(tokens@, pools@),
                forall|j: int|
                    0 <= j < k ==> ia@[j] as int == token_index(tokens@, pools@[j].token_a)
                        && ib@[j] as int == token_index(tokens@, pools@[j].token_b),
            decreases pools.len() - k,
        {
            assert(token_index(tokens@, pools@[k as int].token_a) >= 0);
            let a = index_in(&tokens, pools[k].token_a).unwrap();
            let b = index_in(&tokens, pools[k].token_b).unwrap();
            ia.push(a);
            ib.push(b);
            k = k + 1;
        }
        let mut adj: Vec<Vec<Edge>> = Vec::new();
        let mut u: usize = 0;
        while u < n
            invariant
                n == tokens.len(),
                u <= n,
                adj.len() == u,
                ia.len() == pools.len(),
                ib.len() == pools.len(),
                forall|j: int|
                    0 <= j < pools.len() ==> ia@[j] as int == token_index(
                        tokens@,
                        pools@[j].token_a,
                    ) && ib@[j] as int == token_index(tokens@, pools@[j].token_b),
                forall|v: int|
                    0 <= v < u ==> #[trigger] adj@[v]@ == edges_from(
                        tokens@,
                        pools@,
                        v,
                        pools@.len() as int,
                    ),
            decreases n - u,
        {
            let mut out: Vec<Edge> = Vec::new();
            let mut k: usize = 0;
            while k < pools.len()
                invariant
                    k <= pools.len(),
                    ia.len() == pools.len(),
                    ib.len() == pools.len(),
                    forall|j: int|
                        0 <= j < pools.len() ==> ia@[j] as int == token_index(
                            tokens@,
                            pools@[j].token_a,
                        ) && ib@[j] as int == token_index(tokens@, pools@[j].token_b),
                    out@ == edges_from(tokens@, pools@, u as int, k as int),
                decreases pools.len() - k,
            {
                let ghost before = out@;
                if ia[k] == u {
                    out.push(Edge { pool: k, to: ib[k], in_token: pools[k].token_a });
                }
                if ib[k] == u {
                    out.push(Edge { pool: k, to: ia[k], in_token: pools[k].token_b });
                }
                assert(out@ =~= edges_from(tokens@, pools@, u as int, k + 1));
                k = k + 1;
            }
            adj.push(out);
            u = u + 1;
        }
        Graph { tokens, pools, adj }
    }

    /// Number of tokens.
    pub fn num_tokens(&self) -> (r: usize)
        ensures
            r == self.tokens@.len(),
    {
        self.tokens.len()
    }

    /// Number of pools.
    pub fn num_pools(&self) -> (r: usize)
        ensures
            r == self.pools@.len(),
    {
        self.pools.len()
    }

    /// Index of the token with this address.
    pub fn index_of(&self, address: Address) -> (r: Option<usize>)
        ensures
            match r {
                Some(i) => token_index(self.tokens@, address) == i as int,
                None => token_index(self.tokens@, address) == -1,
            },
    {
        index_in(&self.tokens, address)
    }

    /// Address of the token at `idx`.
    pub fn address_of(&self, idx: usize) -> (r: Address)
        requires
            idx < self.tokens@.len(),
        ensures
            r == self.tokens@[idx as int].address,
    {
        self.tokens[idx].address
    }
}

/// Index of the first token with this address.
fn index_in(tokens: &Vec<Token>, address: Address) -> (r: Option<usize>)
    ensures
        match r {
            Some(i) => token_index(tokens@, address) == i as int,
            None => token_index(tokens@, address) == -1,
        },
{
    proof {
        lemma_index_upto(tokens@, address, tokens@.len() as int);
    }
    let mut i: usize = 0;
    while i < tokens.len()
        invariant
            i <= tokens.len(),
            forall|j: int| 0 <= j < i ==> tokens@[j].address != address,
            -1 <= token_index(tokens@, address) < tokens@.len(),
            token_index(tokens@, address) >= 0 ==> tokens@[token_index(
                tokens@,
                address,
            )].address == address,
            token_index(tokens@, address) == -1 ==> forall|j: int|
                0 <= j < tokens@.len() ==> tokens@[j].address != address,
            forall|j: int|
                0 <= j < token_index(tokens@, address) ==> tokens@[j].address != address,
        decreases tokens.len() - i,
    {
        if tokens[i].address == address {
            return Some(i);
        }
        i = i + 1;
    }
    None
}

/// Every edge that the first `k` pools give token `u` is a real pool hop.
pub proof fn lemma_edges_from_ok(g: Graph, u: int, k: int)
    requires
        distinct_addresses(g.tokens@),
        pools_valid(g.tokens@, g.pools@),
        g.tokens@.len() <= usize::MAX,
        g.pools@.len() <= usize::MAX,
        0 <= u < g.tokens@.len(),
        0 <= k <= g.pools@.len(),
    ensures
        forall|i: int|
            0 <= i < edges_from(g.tokens@, g.pools@, u, k).len() ==> g.edge_ok(
                u,
                #[trigger] edges_from(g.tokens@, g.pools@, u, k)[i],
            ),
        forall|i: int|
            0 <= i < edges_from(g.tokens@, g.pools@, u, k).len() ==> (#[trigger] edges_from(
                g.tokens@,
                g.pools@,
                u,
                k,
            )[i]).pool < k,
    decreases k,
{
    if k > 0 {
        lemma_edges_from_ok(g, u, k - 1);
        let p = g.pools@[k - 1];
        assert(p.token_a != p.token_b);
        lemma_index_upto(g.tokens@, p.token_a, g.tokens@.len() as int);
        lemma_index_upto(g.tokens@, p.token_b, g.tokens@.len() as int);
        let s = edges_from(g.tokens@, g.pools@, u, k);
        let s0 = edges_from(g.tokens@, g.pools@, u, k - 1);
        assert forall|i: int| 0 <= i < s.len() implies g.edge_ok(u, #[trigger] s[i]) && s[i].pool
            < k by {
            let ia = token_index(g.tokens@, p.token_a);
            let ib = token_index(g.tokens@, p.token_b);
            assert(ia != ib);
            let ea = if ia == u {
                seq![Edge { pool: (k - 1) as usize, to: ib as usize, in_token: p.token_a }]
            } else {
                Seq::empty()
            };
            let eb = if ib == u {
                seq![Edge { pool: (k - 1) as usize, to: ia as usize, in_token: p.token_b }]
            } else {
                Seq::empty()
            };
            assert(s == s0 + ea + eb);
            if i < s0.len() {
                assert(s[i] == s0[i]);
            } else if i < s0.len() + ea.len() {
                assert(s[i] == ea[i - s0.len()]);
                assert(g.tokens@[ia].address == p.token_a);
                assert(g.tokens@[ib].address == p.token_b);
            } else {
                assert(s[i] == eb[i - s0.len() - ea.len()]);
                assert(g.tokens@[ia].address == p.token_a);
                assert(g.tokens@[ib].address == p.token_b);
            }
        }
    }
}

impl Graph {
    /// Every edge in the adjacency lists is a real pool hop.
    pub proof fn lemma_adj_ok(&self)
        requires
            self.wf(),
        ensures
            forall|u: int, i: int|
                0 <= u < self.adj@.len() && 0 <= i < self.adj@[u]@.len() ==> self.edge_ok(
                    u,
                    #[trigger] self.adj@[u]@[i],
                ),
    {
        assert forall|u: int, i: int|
            0 <= u < self.adj@.len() && 0 <= i < self.adj@[u]@.len() implies self.edge_ok(
            u,
            #[trigger] self.adj@[u]@[i],
        ) by {
            lemma_edges_from_ok(*self, u, self.pools@.len() as int);
            assert(self.adj@[u]@ == edges_from(
                self.tokens@,
                self.pools@,
                u,
                self.pools@.len() as int,
            ));
        }
    }
}

/// Why a token list and a pool list cannot make a graph.
#[derive(Debug, Clone, Copy, PartialEq, Eq, Structural)]
pub enum GraphError {
    /// Two tokens share an address.
    DuplicateToken,
    /// Pool `pool` joins a token with itself.
    IdenticalTokens { pool: usize },
    /// Pool `pool` names a token missing from the list.
    UnknownToken { pool: usize },
}

impl GraphError {
    /// What went wrong, in words.
    pub fn message(&self) -> (r: String)
        ensures
            r@ == match self {
                GraphError::DuplicateToken => "duplicate token address in tokens vec"@,
                GraphError::IdenticalTokens { .. } => "pool has identical tokens"@,
                GraphError::UnknownToken { .. } => "pool references unknown token"@,
            },
    {
        match self {
            GraphError::DuplicateToken => "duplicate token address in tokens vec".to_owned(),
            GraphError::IdenticalTokens { .. } => "pool has identical tokens".to_owned(),
            GraphError::UnknownToken { .. } => "pool references unknown token".to_owned(),
        }
    }
}

/// Pool `p` joins two different tokens of the list.
pub open spec fn pool_fits(tokens: Seq<Token>, p: Pool) -> bool {
    &&& p.token_a != p.token_b
    &&& token_index(tokens, p.token_a) >= 0
    &&& token_index(tokens, p.token_b) >= 0
}

/// Index of the first of the first `k` pools that does not fit, or -1.
pub open spec fn first_misfit(tokens: Seq<Token>, pools: Seq<Pool>, k: int) -> int
    decreases k,
{
    if k <= 0 {
        -1
    } else {
        let i = first_misfit(tokens, pools, k - 1);
        if i >= 0 {
            i
        } else if !pool_fits(tokens, pools[k - 1]) {
            k - 1
        } else {
            -1
        }
    }
}

proof fn lemma_first_misfit(tokens: Seq<Token>, pools: Seq<Pool>, k: int)
    requires
        0 <= k <= pools.len(),
    ensures
        -1 <= first_misfit(tokens, pools, k) < k,
        first_misfit(tokens, pools, k) >= 0 ==> !pool_fits(tokens, pools[first_misfit(tokens, pools, k)]),
        first_misfit(tokens, pools, k) < 0 <==> forall|j: int| 0 <= j < k ==> #[trigger] pool_fits(tokens, pools[j]),
    decreases k,
{
    if k > 0 {
        lemma_first_misfit(tokens, pools, k - 1);
    }
}

/// The error `Graph::try_new` reports for tokens with distinct addresses
/// and a misfit pool: the first misfit's.
pub open spec fn misfit_error(tokens: Seq<Token>, pools: Seq<Pool>) -> GraphError {
    let k = first_misfit(tokens, pools, pools.len() as int);
    if pools[k].token_a == pools[k].token_b {
        GraphError::IdenticalTokens { pool: k as usize }
    } else {
        GraphError::UnknownToken { pool: k as usize }
    }
}

impl Graph {
    /// Whether every token is found at its own index, which holds exactly
    /// when no two tokens share an address.
    fn addresses_distinct(tokens: &Vec<Token>) -> (r: bool)
        ensures
            r == distinct_addresses(tokens@),
    {
        let mut i: usize = 0;
        while i < tokens.len()
            invariant
                i <= tokens.len(),
                forall|x: int| 0 <= x < i ==> token_index(tokens@, #[trigger] tokens@[x].address) == x,
            decreases tokens.len() - i,
        {
            match index_in(tokens, tokens[i].address) {
                Some(j) => {
                    if j != i {
                        proof {
                            lemma_index_upto(tokens@, tokens@[i as int].address, tokens@.len() as int);
                        }
                        return false;
                    }
                },
                None => {
                    proof {
                        lemma_index_upto(tokens@, tokens@[i as int].address, tokens@.len() as int);
                    }
                    return false;
                },
            }
            i = i + 1;
        }
        proof {
            assert forall|x: int, y: int| 0 <= x < y < tokens@.len() implies tokens@[x].address != tokens@[y].address by {
                if tokens@[x].address == tokens@[y].address {
                    assert(token_index(tokens@, tokens@[x].address) == x);
                    assert(token_index(tokens@, tokens@[y].address) == y);
                }
            }
        }
        true
    }

    /// Builds the graph, or says why the lists cannot make one: a repeated
    /// token address first, else the first pool that joins a token with
    /// itself or names a token missing from the list.
    pub fn try_new(tokens: Vec<Token>, pools: Vec<Pool>) -> (r: Result<Self, GraphError>)
        ensures
            !distinct_addresses(tokens@) ==> r == Err::<Self, GraphError>(GraphError::DuplicateToken),
            distinct_addresses(tokens@) && pools_valid(tokens@, pools@) ==> (r matches Ok(g) && g.wf()
                && g.tokens@ == tokens@ && g.pools@ == pools@),
            distinct_addresses(tokens@) && !pools_valid(tokens@, pools@) ==> r == Err::<Self, GraphError>(
                misfit_error(tokens@, pools@),
            ),
    {
        if !Self::addresses_distinct(&tokens) {
            return Err(GraphError::DuplicateToken);
        }
        let mut k: usize = 0;
        while k < pools.len()
            invariant
                k <= pools.len(),
                distinct_addresses(tokens@),
                forall|j: int| 0 <= j < k ==> #[trigger] pool_fits(tokens@, pools@[j]),
            decreases pools.len() - k,
        {
            let a = pools[k].token_a;
            let b = pools[k].token_b;
            proof {
                lemma_first_misfit(tokens@, pools@, k as int);
                lemma_first_misfit(tokens@, pools@, k + 1);
                lemma_first_misfit(tokens@, pools@, pools@.len() as int);
                if !pool_fits(tokens@, pools@[k as int]) {
                    lemma_misfit_prefix(tokens@, pools@, k + 1, pools@.len() as int);
                }
            }
            if a == b {
                return Err(GraphError::IdenticalTokens { pool: k });
            }
            if index_in(&tokens, a).is_none() || index_in(&tokens, b).is_none() {
                return Err(GraphError::UnknownToken { pool: k });
            }
            k = k + 1;
        }
        proof {
            assert forall|j: int| 0 <= j < pools@.len() implies #[trigger] pools@[j].token_a != pools@[j].token_b
                && token_index(tokens@, pools@[j].token_a) >= 0 && token_index(tokens@, pools@[j].token_b) >= 0 by {
                assert(pool_fits(tokens@, pools@[j]));
            }
        }
        Ok(Graph::new(tokens, pools))
    }
}

/// Once a misfit is found it stays the first.
proof fn lemma_misfit_prefix(tokens: Seq<Token>, pools: Seq<Pool>, k: int, n: int)
    requires
        0 <= k <= n <= pools.len(),
        first_misfit(tokens, pools, k) >= 0,
    ensures
        first_misfit(tokens, pools, n) == first_misfit(tokens, pools, k),
    decreases n - k,
{
    if n > k {
        lemma_misfit_prefix(tokens, pools, k, n - 1);
    }
}

/// Edges leaving the first `n` tokens, counted from the first `k` pools.
pub open spec fn edges_counted(tokens: Seq<Token>, pools: Seq<Pool>, n: int, k: int) -> nat
    decreases n,
{
    if n <= 0 {
        0
    } else {
        edges_counted(tokens, pools, n - 1, k) + edges_from(tokens, pools, n - 1, k).len()
    }
}

/// One more pool adds one edge for each of its tokens among the first `n`.
proof fn lemma_edges_counted_step(tokens: Seq<Token>, pools: Seq<Pool>, n: int, k: int)
    requires
        0 < k <= pools.len(),
    ensures
        edges_counted(tokens, pools, n, k) == edges_counted(tokens, pools, n, k - 1) + (if 0
            <= token_index(tokens, pools[k - 1].token_a) < n {
            1nat
        } else {
            0nat
        }) + (if 0 <= token_index(tokens, pools[k - 1].token_b) < n {
            1nat
        } else {
            0nat
        }),
    decreases n,
{
    if n > 0 {
        lemma_edges_counted_step(tokens, pools, n - 1, k);
    }
}

/// Each of the first `k` pools contributes two edges.
proof fn lemma_edges_counted_all(tokens: Seq<Token>, pools: Seq<Pool>, k: int)
    requires
        distinct_addresses(tokens),
        pools_valid(tokens, pools),
        0 <= k <= pools.len(),
    ensures
        edges_counted(tokens, pools, tokens.len() as int, k) == 2 * k,
    decreases k,
{
    if k > 0 {
        lemma_edges_counted_all(tokens, pools, k - 1);
        lemma_edges_counted_step(tokens, pools, tokens.len() as int, k);
        let p = pools[k - 1];
        assert(p.token_a != p.token_b);
        lemma_index_upto(tokens, p.token_a, tokens.len() as int);
        lemma_index_upto(tokens, p.token_b, tokens.len() as int);
    } else {
        lemma_edges_zero(tokens, pools, tokens.len() as int);
    }
}

proof fn lemma_edges_zero(tokens: Seq<Token>, pools: Seq<Pool>, n: int)
    ensures
        edges_counted(tokens, pools, n, 0) == 0,
    decreases n,
{
    if n > 0 {
        lemma_edges_zero(tokens, pools, n - 1);
    }
}

impl Graph {
    /// Edges in the adjacency lists of the first `n` tokens.
    pub open spec fn edge_count(&self, n: int) -> nat
        decreases n,
    {
        if n <= 0 {
            0
        } else {
            self.edge_count(n - 1) + self.adj@[n - 1]@.len()
        }
    }

    /// Law: every pool contributes exactly two directed edges, one leaving
    /// each of its tokens; the adjacency lists hold twice as many edges as
    /// there are pools.
    pub proof fn law_two_edges_per_pool(&self)
        requires
            self.wf(),
        ensures
            self.edge_count(self.tokens@.len() as int) == 2 * self.pools@.len(),
    {
        self.lemma_edge_count_is_counted(self.tokens@.len() as int);
        lemma_edges_counted_all(self.tokens@, self.pools@, self.pools@.len() as int);
    }

    proof fn lemma_edge_count_is_counted(&self, n: int)
        requires
            self.wf(),
            n <= self.tokens@.len(),
        ensures
            self.edge_count(n) == edges_counted(self.tokens@, self.pools@, n, self.pools@.len() as int),
        decreases n,
    {
        if n > 0 {
            self.lemma_edge_count_is_counted(n - 1);
        }
    }
}

impl Graph {
    /// Edge `i` of token `u` has a finite positive marginal rate: its pool's
    /// reserves are both positive and its fee is below 100%.
    pub open spec fn usable(&self, u: int, i: int) -> bool {
        &&& 0 <= u < self.adj@.len()
        &&& 0 <= i < self.adj@[u]@.len()
        &&& self.pools@[self.adj@[u]@[i].pool as int].rate_usable(self.adj@[u]@[i].in_token)
    }

    /// A usable edge through pool `pool` leads from `u` to `v`.
    pub open spec fn hop(&self, u: int, v: int, pool: int) -> bool {
        exists|i: int|
            #![trigger self.adj@[u]@[i]]
            self.usable(u, i) && self.adj@[u]@[i].to == v && self.adj@[u]@[i].pool == pool
    }

    /// Some usable edge leads from `u` to `v`.
    pub open spec fn linked(&self, u: int, v: int) -> bool {
        exists|i: int|
            #![trigger self.adj@[u]@[i]]
            self.usable(u, i) && self.adj@[u]@[i].to == v
    }

    /// `tp` is a non-empty walk of token indices along usable edges.
    pub open spec fn is_walk(&self, tp: Seq<usize>) -> bool {
        &&& tp.len() >= 1
        &&& forall|i: int| 0 <= i < tp.len() ==> #[trigger] tp[i] < self.tokens@.len()
        &&& forall|i: int| 0 <= i < tp.len() - 1 ==> self.linked(#[trigger] tp[i] as int, tp[i + 1] as int)
    }

    /// Token `t` can be reached from token `s` along usable edges.
    pub open spec fn reachable(&self, s: int, t: int) -> bool {
        exists|tp: Seq<usize>| #[trigger] self.is_walk(tp) && tp[0] == s && tp.last() == t
    }

    /// A set of tokens that contains `s` and is closed under usable edges
    /// contains every token reachable from `s`.
    pub proof fn lemma_closed_contains_reachable(&self, inside: Seq<bool>, s: int, t: int)
        requires
            inside.len() == self.tokens@.len(),
            self.adj@.len() == self.tokens@.len(),
            0 <= s < inside.len(),
            inside[s],
            forall|u: int, i: int|
                0 <= u < inside.len() && inside[u] && #[trigger] self.usable(u, i) ==> inside[self.adj@[u]@[i].to as int],
            self.reachable(s, t),
        ensures
            inside[t],
    {
        let tp = choose|tp: Seq<usize>| #[trigger] self.is_walk(tp) && tp[0] == s && tp.last() == t;
        self.lemma_walk_inside(inside, tp, tp.len() - 1);
    }

    proof fn lemma_walk_inside(&self, inside: Seq<bool>, tp: Seq<usize>, j: int)
        requires
            inside.len() == self.tokens@.len(),
            self.is_walk(tp),
            0 <= j < tp.len(),
            inside[tp[0] as int],
            forall|u: int, i: int|
                0 <= u < inside.len() && inside[u] && #[trigger] self.usable(u, i) ==> inside[self.adj@[u]@[i].to as int],
        ensures
            inside[tp[j] as int],
        decreases j,
    {
        if j > 0 {
            self.lemma_walk_inside(inside, tp, j - 1);
            assert(self.linked(tp[j - 1] as int, tp[j] as int));
            let i = choose|i: int|
                #![trigger self.adj@[tp[j - 1] as int]@[i]]
                self.usable(tp[j - 1] as int, i) && self.adj@[tp[j - 1] as int]@[i].to == tp[j] as int;
            assert(tp[j - 1] < self.tokens@.len());
        }
    }
}

} // verus!
