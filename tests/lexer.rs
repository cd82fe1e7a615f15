use stacklang::parser::Word::{Ident, Int, Op};
use stacklang::parser::{expression, identifier, integer, operator, parse_expression, split_tokens, word};

#[test]
fn integers_good() {
    assert_eq!(integer("1"), Ok(Int(1)));
    assert_eq!(integer("1"), Ok(Int(1)));
    assert_eq!(integer("0"), Ok(Int(0)));
    assert_eq!(integer("-1"), Ok(Int(-1)));
    assert_eq!(integer("255"), Ok(Int(255)));
    assert_eq!(integer("0001"), Ok(Int(1)));
}

#[test]
fn integers_bad() {
    assert!(matches!(integer("1-"), Err(_)));
    assert!(matches!(integer("_1"), Err(_)));
    assert!(matches!(integer("NaN"), Err(_)));
    assert!(matches!(integer("100000000000000000000"), Err(_)));
}

#[test]
fn identifiers_good() {
    assert_eq!(identifier("abc"), Ok(Ident("abc".to_string())));
    assert_eq!(identifier("ident-123"), Ok(Ident("ident-123".to_string())));
    assert_eq!(identifier("is_potato?"), Ok(Ident("is_potato?".to_string())));
}

#[test]
fn identifiers_bad() {
    assert!(matches!(identifier("1"), Err(_)));
    assert!(matches!(identifier("1abc"), Err(_)));
}

#[test]
fn operators_good() {
    assert_eq!(operator("+"), Ok(Op("+".to_string())));
    assert_eq!(operator("/-/"), Ok(Op("/-/".to_string())));
}

#[test]
fn operators_bad() {
    assert!(matches!(operator("?"), Err(_)));
}

#[test]
fn expressions_good() {
    assert_eq!(expression("1 2 +"), Ok(vec![Int(1), Int(2), Op("+".to_string())]));
    assert_eq!(expression("1"), Ok(vec![Int(1)]));
    assert_eq!(expression("1 "), Ok(vec![Int(1)]));
    assert_eq!(expression(" 1"), Ok(vec![Int(1)]));
    assert_eq!(expression(" 1 "), Ok(vec![Int(1)]));
}

#[test]
fn expressions_bad() {
    assert!(matches!(expression("1-"), Err(_)));
}

#[test]
fn integer_limits() {
    assert_eq!(integer("2147483647"), Ok(Int(2147483647)));
    assert_eq!(integer("-2147483648"), Ok(Int(-2147483648)));
    assert!(integer("2147483648").is_err());
    assert!(integer("-2147483649").is_err());
    assert!(integer("-").is_err());
    assert!(integer("").is_err());
}

#[test]
fn identifier_question_mark_only_at_end() {
    assert!(identifier("a?b").is_err());
    assert!(identifier("a??").is_err());
    assert!(identifier("").is_err());
    assert_eq!(identifier("x_1-y"), Ok(Ident("x_1-y".to_string())));
}

#[test]
fn word_precedence() {
    assert_eq!(word("-5"), Ok(Int(-5)));
    assert_eq!(word("-"), Ok(Op("-".to_string())));
    assert_eq!(word("dup?"), Ok(Ident("dup?".to_string())));
    assert_eq!(word("<=>"), Ok(Op("<=>".to_string())));
    assert!(word("dup@").is_err());
    assert!(word("99999999999").is_err());
}

#[test]
fn expression_whitespace_and_failures() {
    assert_eq!(
        parse_expression("\t3  abs\n-"),
        Ok(vec![Int(3), Ident("abs".to_string()), Op("-".to_string())])
    );
    assert!(parse_expression("").is_err());
    assert!(parse_expression("   ").is_err());
    assert!(parse_expression("1 2 3x").is_err());
}

#[test]
fn split_on_whitespace() {
    assert_eq!(split_tokens("  a  bc\td "), vec!["a".to_string(), "bc".to_string(), "d".to_string()]);
    assert!(split_tokens(" \t ").is_empty());
}
