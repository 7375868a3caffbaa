use xylo::token::{Token, TokenKind};
use xylo::tokenizer::{tokenize, valid_identifier_char};

fn expect_ok(src: &[u8]) -> Vec<Token> {
    match tokenize(src) {
        Ok(tokens) => tokens,
        Err(errors) => panic!(
            "expected a clean scan, got errors: {:?}",
            errors.iter().map(|e| e.message.clone()).collect::<Vec<_>>()
        ),
    }
}

fn expect_err(src: &[u8]) -> Vec<xylo::errors::Error> {
    match tokenize(src) {
        Ok(_) => panic!("expected errors"),
        Err(errors) => errors,
    }
}

fn children(t: &Token) -> &Vec<Token> {
    t.sexpr().expect("expected a group")
}

#[test]
fn single_group_mirrors_input() {
    let tokens = expect_ok(b"{let x 5}");
    assert_eq!(tokens.len(), 1);
    let c = children(&tokens[0]);
    assert_eq!(c.len(), 3);
    assert!(c[0].match_identifier("let"));
    assert!(c[1].match_identifier("x"));
    assert!(matches!(c[2].kind, TokenKind::UInt(5)));
    // positions: group at 1:1, `let` at 1:2, `x` at 1:6, `5` at 1:8
    assert_eq!((tokens[0].si.line, tokens[0].si.column, tokens[0].si.index), (1, 1, 0));
    assert_eq!((c[0].si.line, c[0].si.column, c[0].si.index), (1, 2, 1));
    assert_eq!((c[1].si.line, c[1].si.column, c[1].si.index), (1, 6, 5));
    assert_eq!((c[2].si.line, c[2].si.column, c[2].si.index), (1, 8, 7));
}

#[test]
fn nested_groups_mirror_input() {
    let tokens = expect_ok(b"{f {g 1} \"s\"}");
    assert_eq!(tokens.len(), 1);
    let c = children(&tokens[0]);
    assert_eq!(c.len(), 3);
    assert!(c[0].match_identifier("f"));
    let inner = children(&c[1]);
    assert_eq!(inner.len(), 2);
    assert!(inner[0].match_identifier("g"));
    assert!(matches!(inner[1].kind, TokenKind::UInt(1)));
    match &c[2].kind {
        TokenKind::String(bytes) => assert_eq!(bytes.as_slice(), b"s"),
        other => panic!("expected a string literal, got {:?}", other),
    }
}

#[test]
fn empty_group_is_legal() {
    let tokens = expect_ok(b"{}");
    assert_eq!(tokens.len(), 1);
    assert_eq!(children(&tokens[0]).len(), 0);
}

#[test]
fn integer_max_value_exact() {
    let tokens = expect_ok(b"{340282366920938463463374607431768211455}");
    let c = children(&tokens[0]);
    assert!(matches!(c[0].kind, TokenKind::UInt(u128::MAX)));
}

#[test]
fn integer_overflow_reported_at_literal_start() {
    let errors = expect_err(b"{340282366920938463463374607431768211456}");
    assert_eq!(errors[0].message, "Integer literal exceeds maximum integer size");
    assert_eq!((errors[0].si.line, errors[0].si.column, errors[0].si.index), (1, 2, 1));
}

#[test]
fn float_carries_exact_source_digits() {
    let tokens = expect_ok(b"{3.25}");
    let c = children(&tokens[0]);
    match &c[0].kind {
        TokenKind::Float(digits) => {
            assert_eq!(digits.as_slice(), b"3.25");
            let parsed: f64 = String::from_utf8(digits.clone()).unwrap().parse().unwrap();
            assert_eq!(parsed, 3.25);
        },
        other => panic!("expected a float literal, got {:?}", other),
    }
}

#[test]
fn float_missing_fraction_digit() {
    let errors = expect_err(b"{3.}");
    assert_eq!(errors[0].message, "Expected at least one digit after '.'");
}

#[test]
fn float_double_dot() {
    let errors = expect_err(b"{1..2}");
    assert_eq!(errors[0].message, "Expected at least one digit after '.'");
}

#[test]
fn float_duplicate_decimal_point() {
    let errors = expect_err(b"{1.2.3}");
    assert_eq!(errors[0].message, "Duplicate decimal point in float");
}

#[test]
fn base_prefixed_integers() {
    let tokens = expect_ok(b"{0x1F 0b101 0o17 0xab}");
    let c = children(&tokens[0]);
    assert!(matches!(c[0].kind, TokenKind::UInt(31)));
    assert!(matches!(c[1].kind, TokenKind::UInt(5)));
    assert!(matches!(c[2].kind, TokenKind::UInt(15)));
    assert!(matches!(c[3].kind, TokenKind::UInt(171)));
}

#[test]
fn base_prefix_without_digits() {
    let errors = expect_err(b"{0x}");
    assert_eq!(errors[0].message, "Expected at least one digit after integer base prefix");
}

#[test]
fn number_stops_at_identifier() {
    let tokens = expect_ok(b"{12ab}");
    let c = children(&tokens[0]);
    assert_eq!(c.len(), 2);
    assert!(matches!(c[0].kind, TokenKind::UInt(12)));
    assert!(c[1].match_identifier("ab"));
}

#[test]
fn line_comment_skipped() {
    let tokens = expect_ok(b"{a} # one comment\n{b}");
    assert_eq!(tokens.len(), 2);
    assert!(children(&tokens[1])[0].match_identifier("b"));
    // the line counter advances one step late: a token that begins right
    // after the newline still carries the old line number
    assert_eq!(tokens[1].si.line, 1);
    assert_eq!(tokens[1].si.index, 18);
}

#[test]
fn block_comment_skipped() {
    let tokens = expect_ok(b"{a}#- hidden {not a group} -#{b}");
    assert_eq!(tokens.len(), 2);
    assert!(children(&tokens[1])[0].match_identifier("b"));
}

#[test]
fn unterminated_block_comment_consumes_to_end() {
    let tokens = expect_ok(b"{a}#- never closed");
    assert_eq!(tokens.len(), 1);
}

#[test]
fn string_literal_raw_bytes() {
    let tokens = expect_ok(b"{\"a b\\c\"}");
    let c = children(&tokens[0]);
    match &c[0].kind {
        TokenKind::String(bytes) => assert_eq!(bytes.as_slice(), b"a b\\c"),
        other => panic!("expected a string literal, got {:?}", other),
    }
}

#[test]
fn unterminated_string_literal() {
    let errors = expect_err(b"{\"oops");
    assert_eq!(errors[0].message, "Unterminated string literal");
}

#[test]
fn missing_open_brace() {
    let errors = expect_err(b"x");
    assert_eq!(errors[0].message, "Expected '{' to start an s-expression");
}

#[test]
fn missing_close_brace() {
    let errors = expect_err(b"{x");
    assert_eq!(errors[0].message, "Expected '}' to end s-expression");
}

#[test]
fn unexpected_character() {
    let errors = expect_err(b"{'}");
    assert_eq!(errors[0].message, "Unexpected character");
}

#[test]
fn errors_accumulate_across_forms() {
    let errors = expect_err(b"{3.} {1.2.3} {ok}");
    assert!(errors.len() >= 2);
    assert_eq!(errors[0].message, "Expected at least one digit after '.'");
}

#[test]
fn newline_positions() {
    let tokens = expect_ok(b"\n\n  {a}");
    // the delayed update makes the column run one behind on a line that a
    // newline opened
    assert_eq!((tokens[0].si.line, tokens[0].si.column, tokens[0].si.index), (3, 2, 4));
}

#[test]
fn identifier_charset() {
    assert!(valid_identifier_char('a'));
    assert!(valid_identifier_char('Z'));
    assert!(valid_identifier_char('+'));
    assert!(valid_identifier_char('~'));
    assert!(valid_identifier_char('0'));
    assert!(!valid_identifier_char('{'));
    assert!(!valid_identifier_char('}'));
    assert!(!valid_identifier_char('"'));
    assert!(!valid_identifier_char(' '));
    assert!(!valid_identifier_char('#'));
}

#[test]
fn symbolic_identifiers() {
    let tokens = expect_ok(b"{<=> a->b}");
    let c = children(&tokens[0]);
    assert!(c[0].match_identifier("<=>"));
    assert!(c[1].match_identifier("a->b"));
}
