//! Tokens as the routing layer sees them.
use crate::address::Address;
use vstd::prelude::*;
use vstd::string::*;

verus! {

/// A token's role in the graph's topology. Hub tokens carry most of the
/// liquidity and act as routing intermediates; spokes are the long tail that
/// mostly pairs with hubs.
#[derive(Debug, Clone, Copy, PartialEq, Eq, Structural)]
pub enum TokenKind {
    Hub,
    Spoke,
}

/// A token: its address, ticker, number of decimals, reference price and
/// role.
#[derive(Debug, Clone, PartialEq, Eq)]
pub struct Token {
    pub address: Address,
    pub symbol: String,
    pub decimals: u8,
    /// USD price of one whole token, in units of 10⁻¹² USD. Gas costs are
    /// converted into the token through it.
    pub true_price_pico_usd: u64,
    pub kind: TokenKind,
}

/// `c` with an ASCII capital letter taken to lower case, as a code point.
pub open spec fn ascii_lower(c: char) -> int {
    if 'A' <= c && c <= 'Z' {
        c as int + 32
    } else {
        c as int
    }
}

/// The texts are equal when ASCII letters are compared without case.
pub open spec fn same_ignoring_ascii_case(a: Seq<char>, b: Seq<char>) -> bool {
    &&& a.len() == b.len()
    &&& forall|i: int| 0 <= i < a.len() ==> ascii_lower(#[trigger] a[i]) == ascii_lower(b[i])
}

/// Index of the first token whose symbol matches `symbol`, ASCII case aside;
/// -1 when none does.
pub open spec fn symbol_index(tokens: Seq<Token>, symbol: Seq<char>, n: int) -> int
    decreases n,
{
    if n <= 0 {
        -1
    } else if symbol_index(tokens, symbol, n - 1) >= 0 {
        symbol_index(tokens, symbol, n - 1)
    } else if same_ignoring_ascii_case(tokens[n - 1].symbol@, symbol) {
        n - 1
    } else {
        -1
    }
}

fn lower_code(c: char) -> (r: u32)
    ensures
        r as int == ascii_lower(c),
{
    let x = c as u32;
    if 'A' <= c && c <= 'Z' {
        x + 32
    } else {
        x
    }
}

/// Whether the two texts match, ASCII case aside.
fn matches_ignoring_ascii_case(a: &str, b: &str) -> (r: bool)
    ensures
        r == same_ignoring_ascii_case(a@, b@),
{
    let n = a.unicode_len();
    if n != b.unicode_len() {
        return false;
    }
    let mut i: usize = 0;
    while i < n
        invariant
            n == a@.len(),
            n == b@.len(),
            i <= n,
            forall|x: int| 0 <= x < i ==> ascii_lower(#[trigger] a@[x]) == ascii_lower(b@[x]),
        decreases n - i,
    {
        if lower_code(a.get_char(i)) != lower_code(b.get_char(i)) {
            return false;
        }
        i = i + 1;
    }
    true
}

/// Index of the first token whose symbol is `symbol`, ASCII case aside.
pub fn find_by_symbol(tokens: &Vec<Token>, symbol: &str) -> (r: Option<usize>)
    ensures
        match r {
            Some(i) => symbol_index(tokens@, symbol@, tokens@.len() as int) == i as int,
            None => symbol_index(tokens@, symbol@, tokens@.len() as int) == -1,
        },
{
    let mut i: usize = 0;
    while i < tokens.len()
        invariant
            i <= tokens@.len(),
            symbol_index(tokens@, symbol@, i as int) == -1,
        decreases tokens@.len() - i,
    {
        if matches_ignoring_ascii_case(tokens[i].symbol.as_str(), symbol) {
            proof {
                lemma_symbol_index_found(tokens@, symbol@, i + 1, tokens@.len() as int);
            }
            return Some(i);
        }
        i = i + 1;
    }
    None
}

proof fn lemma_symbol_index_found(tokens: Seq<Token>, symbol: Seq<char>, k: int, n: int)
    requires
        0 < k <= n,
        symbol_index(tokens, symbol, k) >= 0,
    ensures
        symbol_index(tokens, symbol, n) == symbol_index(tokens, symbol, k),
    decreases n - k,
{
    if n > k {
        lemma_symbol_index_found(tokens, symbol, k, n - 1);
    }
}

} // verus!
