use sexp_parser::{check_float, check_integer, parse, run, Ast, Context, ParseError, Token, TokenValue};

fn leaf(v: TokenValue, ln: usize, cn: usize) -> Ast {
    Ast::Leaf(Token { v, ln, cn })
}

fn sym(s: &str) -> TokenValue {
    TokenValue::Sym(s.to_string())
}

fn chars(s: &str) -> Vec<char> {
    s.chars().collect()
}

fn ctx(cur: usize, ln: usize, cn: usize) -> Context {
    Context { cur, ln, cn }
}

fn state(c: &Context) -> (usize, usize, usize) {
    (c.cur, c.ln, c.cn)
}

#[test]
fn crlf_cr_and_lf_each_end_one_line() {
    let expected = |ln: usize| {
        Ok(vec![Ast::Edge(vec![leaf(sym("a"), 1, 2), leaf(sym("b"), ln, 1)])])
    };
    assert_eq!(parse("(a\r\nb)"), expected(2));
    assert_eq!(parse("(a\rb)"), expected(2));
    assert_eq!(parse("(a\nb)"), expected(2));
    assert_eq!(parse("(a\n\rb)"), expected(3));
}

#[test]
fn columns_count_characters() {
    assert_eq!(
        parse("(\tx  \"é\" 'ü' y)"),
        Ok(vec![Ast::Edge(vec![
            leaf(sym("x"), 1, 3),
            leaf(TokenValue::Str("é".to_string()), 1, 6),
            leaf(TokenValue::Char('ü'), 1, 10),
            leaf(sym("y"), 1, 14),
        ])])
    );
}

#[test]
fn top_level_holds_only_lists() {
    let r = parse("; head\n(a) (b (c))\n; tail").unwrap();
    assert_eq!(r.len(), 2);
    assert!(r.iter().all(|a| matches!(a, Ast::Edge(_))));
}

#[test]
fn delimiters_end_bare_tokens() {
    assert_eq!(
        parse("(a(b)c;x\n d\"s\"e'f')"),
        Ok(vec![Ast::Edge(vec![
            leaf(sym("a"), 1, 2),
            Ast::Edge(vec![leaf(sym("b"), 1, 4)]),
            leaf(sym("c"), 1, 6),
            leaf(sym("d"), 2, 2),
            leaf(TokenValue::Str("s".to_string()), 2, 3),
            leaf(sym("e"), 2, 6),
            leaf(TokenValue::Char('f'), 2, 7),
        ])])
    );
}

#[test]
fn escapes_in_string_literal() {
    assert_eq!(
        parse("(\"\\n\\r\\t\\\\\\0\\'\\\"\")"),
        Ok(vec![Ast::Edge(vec![leaf(TokenValue::Str("\n\r\t\\\0'\"".to_string()), 1, 2)])])
    );
}

#[test]
fn line_break_in_string_reads_as_newline() {
    assert_eq!(
        parse("(\"a\r\nb\rc\")"),
        Ok(vec![Ast::Edge(vec![leaf(TokenValue::Str("a\nb\nc".to_string()), 1, 2)])])
    );
}

#[test]
fn error_positions() {
    assert_eq!(parse("foo"), Err(ParseError::TopLevel { ln: 1, cn: 1 }.message()));
    assert_eq!(parse("  x"), Err(ParseError::TopLevel { ln: 1, cn: 3 }.message()));
    assert_eq!(parse("(1 23"), Err(ParseError::UnclosedList { ln: 1, cn: 1 }.message()));
    assert_eq!(parse("()\n ( (a)"), Err(ParseError::UnclosedList { ln: 2, cn: 2 }.message()));
    assert_eq!(parse("(\"foo baz)"), Err(ParseError::UnclosedString { ln: 1, cn: 2 }.message()));
    assert_eq!(parse("(\"\\a\")"), Err(ParseError::InvalidEscape { c: 'a', ln: 1, cn: 3 }.message()));
    assert_eq!(parse("('a)"), Err(ParseError::UnclosedChar { ln: 1, cn: 2 }.message()));
    assert_eq!(parse("('"), Err(ParseError::UnclosedChar { ln: 1, cn: 2 }.message()));
    assert_eq!(parse("('')"), Err(ParseError::CharNotSingle { ln: 1, cn: 2 }.message()));
    assert_eq!(parse("('ab')"), Err(ParseError::UnclosedChar { ln: 1, cn: 2 }.message()));
    assert_eq!(parse("('\n')"), Err(ParseError::NewlineInChar { ln: 1, cn: 2 }.message()));
    assert_eq!(parse("('\\\n')"), Err(ParseError::CharNotSingle { ln: 1, cn: 2 }.message()));
    assert_eq!(parse("('\\q')"), Err(ParseError::InvalidEscape { c: 'q', ln: 1, cn: 3 }.message()));
}

#[test]
fn number_out_of_range_errors() {
    assert_eq!(
        parse("(\n 340282366920938463463374607431768211456)"),
        Err(ParseError::NumberOutOfRange {
            lexeme: "340282366920938463463374607431768211456".to_string(),
            reason: "too big",
            ln: 2,
            cn: 2,
        }.message())
    );
    assert_eq!(
        parse("(-170_141_183_460_469_231_731_687_303_715_884_105_729)"),
        Err(ParseError::NumberOutOfRange {
            lexeme: "-170_141_183_460_469_231_731_687_303_715_884_105_729".to_string(),
            reason: "too small",
            ln: 1,
            cn: 2,
        }.message())
    );
}

#[test]
fn first_error_wins() {
    assert_eq!(parse("(\"\\z\" (") , Err(ParseError::InvalidEscape { c: 'z', ln: 1, cn: 3 }.message()));
}

#[test]
fn check_integer_values() {
    assert_eq!(check_integer("12"), Ok(Some((12, false))));
    assert_eq!(check_integer("+1_0"), Ok(Some((10, false))));
    assert_eq!(check_integer("-0"), Ok(Some((0, true))));
    assert_eq!(check_integer("007"), Ok(Some((7, false))));
    assert_eq!(
        check_integer("-170141183460469231731687303715884105728"),
        Ok(Some((170141183460469231731687303715884105728, true)))
    );
    assert_eq!(check_integer("340282366920938463463374607431768211456"), Err("too big"));
    assert_eq!(check_integer("-170141183460469231731687303715884105729"), Err("too small"));
    for s in ["abc", "1.5", "_1", "1a", "-", "", "+-1", "1 "] {
        assert_eq!(check_integer(s), Ok(None), "{s}");
    }
}

#[test]
fn integer_underscores_do_not_count() {
    for (a, b) in [("1_000", "1000"), ("-9_9__", "-99"), ("+4_2", "+42")] {
        assert_eq!(check_integer(a), check_integer(b));
    }
}

#[test]
fn check_float_values() {
    assert_eq!(check_float("1.5"), Some("1.5".to_string()));
    assert_eq!(check_float("1_0.2_5e-1_0"), Some("10.25e-10".to_string()));
    assert_eq!(check_float("-1.5E+3"), Some("-1.5E+3".to_string()));
    for s in ["1.", ".5", "1e5", "1.5e", "1.5e+", "a.b", "1._5", "1.5.5", "12"] {
        assert_eq!(check_float(s), None, "{s}");
    }
}

#[test]
fn run_reports_outcome() {
    assert_eq!(run("(a b) ; c"), Ok(()));
    assert_eq!(run(")"), Err(ParseError::TopLevel { ln: 1, cn: 1 }.message()));
}

#[test]
fn context_starts_at_origin() {
    assert_eq!(state(&Context::default()), (0, 1, 1));
}

#[test]
fn context_advance_and_break_line() {
    let mut c = ctx(3, 2, 5);
    c.advance();
    assert_eq!(state(&c), (4, 2, 6));
    let code = chars("ab\r\ncd\re\nf");
    let mut c = ctx(2, 1, 3);
    c.break_line(&code);
    assert_eq!(state(&c), (4, 2, 1));
    let mut c = ctx(6, 2, 3);
    c.break_line(&code);
    assert_eq!(state(&c), (7, 3, 1));
    let mut c = ctx(8, 3, 2);
    c.break_line(&code);
    assert_eq!(state(&c), (9, 4, 1));
}

#[test]
fn context_skip_whitespaces() {
    let code = chars("a \t\r\n \nb");
    let mut c = ctx(1, 1, 2);
    c.skip_whitespaces(&code);
    assert_eq!(state(&c), (7, 3, 1));
    let mut c = ctx(0, 1, 1);
    c.skip_whitespaces(&code);
    assert_eq!(state(&c), (0, 1, 1));
    let mut c = ctx(20, 1, 1);
    c.skip_whitespaces(&code);
    assert_eq!(state(&c), (20, 1, 1));
}

#[test]
fn context_skip_comment() {
    let code = chars("; hi\r\n(a)");
    let mut c = ctx(0, 1, 1);
    c.skip_comment(&code);
    assert_eq!(state(&c), (6, 2, 1));
    let code = chars("(a) ; end");
    let mut c = ctx(4, 1, 5);
    c.skip_comment(&code);
    assert_eq!(state(&c), (9, 1, 10));
}

#[test]
fn context_parse_escape_character() {
    let code = chars("\\n\\q\\\n   x\\");
    let mut c = ctx(0, 1, 1);
    assert_eq!(c.parse_escape_character(&code), Ok(Some('\n')));
    assert_eq!(state(&c), (2, 1, 3));
    let mut c = ctx(2, 1, 3);
    assert_eq!(c.parse_escape_character(&code), Err(ParseError::InvalidEscape { c: 'q', ln: 1, cn: 3 }.message()));
    assert_eq!(state(&c), (3, 1, 4));
    let mut c = ctx(4, 1, 5);
    assert_eq!(c.parse_escape_character(&code), Ok(None));
    assert_eq!(state(&c), (9, 2, 4));
    let mut c = ctx(10, 2, 5);
    assert_eq!(c.parse_escape_character(&code), Ok(None));
    assert_eq!(state(&c), (11, 2, 6));
}

#[test]
fn backslash_at_end_of_input_leaves_literal_unclosed() {
    assert_eq!(parse("(\"abc\\"), Err(ParseError::UnclosedString { ln: 1, cn: 2 }.message()));
    assert_eq!(parse("('\\"), Err(ParseError::UnclosedChar { ln: 1, cn: 2 }.message()));
}

#[test]
fn line_continuation_in_string_drops_break_and_indent() {
    assert_eq!(
        parse("(\"a\\\r\n  \tb\" x)"),
        Ok(vec![Ast::Edge(vec![
            leaf(TokenValue::Str("ab".to_string()), 1, 2),
            leaf(sym("x"), 2, 7),
        ])])
    );
}

#[test]
fn error_messages() {
    let msg = |code: &str| parse(code).unwrap_err();
    assert_eq!(
        msg("foo"),
        "syntax error: anything other than whitespace, comment or list not allowed on the top level: 1 line, 1 char"
    );
    assert_eq!(
        msg("\n\n  (1 23"),
        "syntax error: list not closed, the left paren is at: 3 line, 3 char"
    );
    assert_eq!(
        msg("(\"foo baz)"),
        "syntax error: string literal not closed, the left double-quote is at: 1 line, 2 char"
    );
    assert_eq!(
        msg("('a)"),
        "syntax error: char literal not closed, the left single-quote is at: 1 line, 2 char"
    );
    assert_eq!(
        msg("('')"),
        "syntax error: char literal must have only a character: 1 line, 2 char"
    );
    assert_eq!(
        msg("('\n')"),
        "syntax error: newline not allowed in char literal: 1 line, 2 char"
    );
    assert_eq!(msg("(\"\\a\")"), "error: invalid escape character '\\a' found: 1 line, 3 char");
    assert_eq!(
        msg("(340282366920938463463374607431768211456)"),
        "error: 340282366920938463463374607431768211456 is too big as a number: 1 line, 2 char"
    );
    assert_eq!(
        msg(&format!("{}(-9_170141183460469231731687303715884105729)", "\n".repeat(120))),
        "error: -9_170141183460469231731687303715884105729 is too small as a number: 121 line, 2 char"
    );
}

#[test]
fn trailing_whitespace_and_comments_change_nothing() {
    for code in ["(a (b \"c\") 1.5)", "() ; end", "(x)\r", "(\n 'q')"] {
        let tail = format!("{code}\n; trailing comment\n \t\r\n");
        assert_eq!(parse(&tail), parse(code));
        assert!(parse(code).is_ok());
    }
}

#[test]
fn tokens_come_in_source_order() {
    fn flatten(asts: &[Ast], out: &mut Vec<(usize, usize)>) {
        for a in asts {
            match a {
                Ast::Edge(items) => flatten(items, out),
                Ast::Leaf(t) => out.push((t.ln, t.cn)),
            }
        }
    }
    let mut positions = vec![];
    flatten(&parse("(a (b\n c) \"d\"\r\n('e' f))").unwrap(), &mut positions);
    assert_eq!(positions, vec![(1, 2), (1, 5), (2, 2), (2, 5), (3, 2), (3, 6)]);
}
