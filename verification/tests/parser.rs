use sexp_parser::{parse, Ast, Token, TokenValue};

fn leaf(v: TokenValue, ln: usize, cn: usize) -> Ast {
    Ast::Leaf(Token { v, ln, cn })
}

fn sym(s: &str) -> TokenValue {
    TokenValue::Sym(s.to_string())
}

fn string(s: &str) -> TokenValue {
    TokenValue::Str(s.to_string())
}

/// A float token: its decimal text, which must read as `value`.
fn float(text: &str, value: f64) -> TokenValue {
    assert_eq!(text.parse::<f64>().unwrap(), value);
    TokenValue::Float(text.to_string())
}

#[test]
fn parse_empty() {
    let input = "";
    let expected = vec![];

    assert_eq!(parse(input), Ok(expected));
}

#[test]
fn parse_whitespaces() {
    let input = "  \n\t\r \t\r\n\n";
    let expected = vec![];

    assert_eq!(parse(input), Ok(expected));
}

#[test]
fn parse_only_comment() {
    let input = "; this is comment";
    let expected = vec![];

    assert_eq!(parse(input), Ok(expected));
}

#[test]
fn parse_lists() {
    let input = r#"(340282366920938463463374607431768211455 
-170_141_183_460_469_231_731_687_303_715_884_105_728 (() ab "foo bar
 \n\"baz" c 1.23 -1.1_e1_0_) ()) ()"#;
    let expected = vec![
        Ast::Edge(vec![
            leaf(TokenValue::Int(340282366920938463463374607431768211455, false), 1, 2),
            leaf(TokenValue::Int(170141183460469231731687303715884105728, true), 2, 1),
            Ast::Edge(vec![
                Ast::Edge(vec![]),
                leaf(sym("ab"), 2, 58),
                leaf(string("foo bar\n \n\"baz"), 2, 61),
                leaf(sym("c"), 3, 11),
                leaf(float("1.23", 1.23), 3, 13),
                leaf(float("-1.1e10", -1.1e10), 3, 18),
            ]),
            Ast::Edge(vec![]),
        ]),
        Ast::Edge(vec![]),
    ];

    assert_eq!(parse(input), Ok(expected));
}

#[test]
fn parse_number() {
    let input = "(1 -1 340282366920938463463374607431768211455 -170_141_183_460_469_231_731_687_303_715_884_105_728)\n(1.0 -1.0 -1_.1_e1_0_)";
    let expected = vec![
        Ast::Edge(vec![
            leaf(TokenValue::Int(1, false), 1, 2),
            leaf(TokenValue::Int(1, true), 1, 4),
            leaf(TokenValue::Int(340282366920938463463374607431768211455, false), 1, 7),
            leaf(TokenValue::Int(170141183460469231731687303715884105728, true), 1, 47),
        ]),
        Ast::Edge(vec![
            leaf(float("1.0", 1.0), 2, 2),
            leaf(float("-1.0", -1.0), 2, 6),
            leaf(float("-1.1e10", -1.1e10), 2, 11),
        ]),
    ];

    assert_eq!(parse(input), Ok(expected));
}

#[test]
fn parse_string_literal() {
    let input = r#"("foo bar
 \n\"()\
    baz" "hoge")"#;
    let expected = vec![Ast::Edge(vec![
        leaf(string("foo bar\n \n\"()baz"), 1, 2),
        leaf(string("hoge"), 3, 10),
    ])];

    assert_eq!(parse(input), Ok(expected));
}

#[test]
fn parse_char_literal() {
    let input = "('a' ' ' '(' '\\'')";
    let expected = vec![Ast::Edge(vec![
        leaf(TokenValue::Char('a'), 1, 2),
        leaf(TokenValue::Char(' '), 1, 6),
        leaf(TokenValue::Char('('), 1, 10),
        leaf(TokenValue::Char('\''), 1, 14),
    ])];

    assert_eq!(parse(input), Ok(expected));
}

#[test]
fn error_unclosed_list() {
    let input = "(1 23";
    assert!(parse(input).is_err());
}

#[test]
fn error_invalid_char_on_toplevel() {
    let input = "foo";
    assert!(parse(input).is_err());
}

#[test]
fn error_too_big_integer() {
    let input = "(340282366920938463463374607431768211456)";
    assert!(parse(input).is_err());
}

#[test]
fn error_too_small_integer() {
    let input = "(-170141183460469231731687303715884105729)";
    assert!(parse(input).is_err());
}

#[test]
fn error_unclosed_string_literal() {
    let input = "(\"foo baz)";
    assert!(parse(input).is_err());
}

#[test]
fn error_invalid_escape_character() {
    let input = "(\"\\a\")";
    assert!(parse(input).is_err());
}

#[test]
fn error_unclosed_char_literal() {
    let input = "('a)";
    assert!(parse(input).is_err());
}

#[test]
fn error_empty_char_literal() {
    let input = "('')";
    assert!(parse(input).is_err());
}

#[test]
fn error_multiple_chars_char_literal() {
    let input = "('ab')";
    assert!(parse(input).is_err());
}

#[test]
fn error_newline_char_literal() {
    let input = "('\n')";
    assert!(parse(input).is_err());
}

#[test]
fn error_escaped_newline_char_literal() {
    let input = "('\\\n')";
    assert!(parse(input).is_err());
}
