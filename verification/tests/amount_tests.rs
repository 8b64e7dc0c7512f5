use routeviz::address::Address;
use routeviz::amount::{format_amount, parse_amount, AmountError};
use routeviz::token::{find_by_symbol, Token, TokenKind};
use routeviz::uint::U256;

fn u(x: u64) -> U256 {
    U256::from_u64(x)
}

#[test]
fn parses_whole_and_fractional_amounts() {
    assert_eq!(parse_amount("1", 18), Ok(u(1_000_000_000_000_000_000)));
    assert_eq!(parse_amount("1.5", 6), Ok(u(1_500_000)));
    assert_eq!(parse_amount(".25", 2), Ok(u(25)));
    assert_eq!(parse_amount("007", 0), Ok(u(7)));
    assert_eq!(parse_amount("0", 18), Ok(U256::zero()));
    assert_eq!(parse_amount("3.", 1), Ok(u(30)));
}

#[test]
fn drops_digits_beyond_the_token_decimals() {
    assert_eq!(parse_amount("0.0000001", 6), Ok(U256::zero()));
    assert_eq!(parse_amount("2.123456789", 3), Ok(u(2_123)));
}

#[test]
fn rejects_empty_and_malformed_amounts() {
    assert_eq!(parse_amount("", 6), Err(AmountError::Empty));
    assert_eq!(parse_amount("1.2.3", 6), Err(AmountError::Invalid));
    assert_eq!(parse_amount("12a", 0), Err(AmountError::Invalid));
    assert_eq!(parse_amount("-1", 0), Err(AmountError::Invalid));
    assert_eq!(parse_amount("1 000", 0), Err(AmountError::Invalid));
}

#[test]
fn reaching_two_to_the_256_is_too_large() {
    let max = "115792089237316195423570985008687907853269984665640564039457584007913129639935";
    let over = "115792089237316195423570985008687907853269984665640564039457584007913129639936";
    assert_eq!(parse_amount(max, 0), Ok(U256::max_value()));
    assert_eq!(parse_amount(over, 0), Err(AmountError::TooLarge));
    assert_eq!(parse_amount("1", 78), Err(AmountError::TooLarge));
}

#[test]
fn formats_amounts_in_whole_tokens() {
    assert_eq!(format_amount(U256::zero(), 18), "0");
    assert_eq!(format_amount(u(1_500_000), 6), "1.5");
    assert_eq!(format_amount(u(1), 18), "0.000000000000000001");
    assert_eq!(format_amount(u(1_000_000_000_000_000_000), 18), "1");
    assert_eq!(format_amount(u(1234), 0), "1234");
    assert_eq!(format_amount(u(1230), 2), "12.3");
    assert_eq!(format_amount(u(5), 3), "0.005");
}

#[test]
fn formatting_then_reading_gives_the_value_back() {
    for (v, d) in [(1_500_000u64, 6u8), (1, 18), (987_654_321, 4), (40, 1), (7, 0)] {
        let text = format_amount(u(v), d);
        assert_eq!(parse_amount(&text, d), Ok(u(v)), "round trip of {text}");
    }
}

fn tok(byte: u8, symbol: &str) -> Token {
    Token {
        address: Address::new([byte; 20]),
        symbol: symbol.to_string(),
        decimals: 18,
        true_price_pico_usd: 1_000_000_000_000,
        kind: TokenKind::Hub,
    }
}

#[test]
fn symbols_are_found_without_regard_to_case() {
    let tokens = vec![tok(1, "WETH"), tok(2, "usdc"), tok(3, "1INCH")];
    assert_eq!(find_by_symbol(&tokens, "weth"), Some(0));
    assert_eq!(find_by_symbol(&tokens, "USDC"), Some(1));
    assert_eq!(find_by_symbol(&tokens, "1inch"), Some(2));
    assert_eq!(find_by_symbol(&tokens, "DAI"), None);
    assert_eq!(find_by_symbol(&tokens, "WET"), None);
}
