use idx_core::number::{parse_integer, parse_signed_integer, NumberError};
use idx_core::strand::Lexer;

fn at(src: &str) -> Lexer {
    Lexer::new(src)
}

#[test]
fn unsigned_integers() {
    let mut l = at("123 rest");
    assert_eq!(parse_integer(&mut l), Ok(123));
    assert_eq!(l.pos, 3);
    let mut l = at("+42");
    assert_eq!(parse_integer(&mut l), Ok(42));
    let mut l = at("-1");
    assert_eq!(parse_integer(&mut l), Err(NumberError::Negative));
    assert_eq!(l.pos, 0);
    let mut l = at("x");
    assert_eq!(parse_integer(&mut l), Err(NumberError::Unexpected));
    let mut l = at("+");
    assert_eq!(parse_integer(&mut l), Err(NumberError::Unexpected));
    let mut l = at("18446744073709551615");
    assert_eq!(parse_integer(&mut l), Ok(u64::MAX));
    let mut l = at("18446744073709551616");
    assert_eq!(parse_integer(&mut l), Err(NumberError::Overflow));
}

#[test]
fn signed_integers() {
    let mut l = at("-17,");
    assert_eq!(parse_signed_integer(&mut l), Ok(-17));
    assert_eq!(l.pos, 3);
    let mut l = at("+5");
    assert_eq!(parse_signed_integer(&mut l), Ok(5));
    let mut l = at("-9223372036854775808");
    assert_eq!(parse_signed_integer(&mut l), Ok(i64::MIN));
    let mut l = at("9223372036854775807");
    assert_eq!(parse_signed_integer(&mut l), Ok(i64::MAX));
    let mut l = at("9223372036854775808");
    assert_eq!(parse_signed_integer(&mut l), Err(NumberError::Overflow));
    let mut l = at("-");
    assert_eq!(parse_signed_integer(&mut l), Err(NumberError::Unexpected));
}
