//! What reading a text yields: the trees of its lists, or the first error met
//! when reading it from left to right.
use vstd::prelude::*;
use crate::ast::{SpecAst, SpecParseError, SpecToken, SpecTokenValue};
use crate::lexeme::{integer_check, is_float_lexeme, without_underscores};
use crate::position::{
    comment_end, is_delimiter, is_newline, is_whitespace, lemma_line_col_fits, lemma_line_col_step,
    lemma_track_concat, lemma_track_fits_suffix, lemma_track_push, lemma_ws_end, line_col,
    newline_len, not_inside_crlf, track, track_fits, ws_end,
};

verus! {

/// The line of position `p`, counted from 1.
pub open spec fn ln_at(s: Seq<char>, p: int) -> nat {
    line_col(s, p).0 as nat
}

/// The column of position `p`, counted from 1.
pub open spec fn cn_at(s: Seq<char>, p: int) -> nat {
    line_col(s, p).1 as nat
}

/// The character that a backslash followed by `c` stands for, if any.
pub open spec fn escaped_char(c: char) -> Option<char> {
    if c == 'n' {
        Some('\n')
    } else if c == 'r' {
        Some('\r')
    } else if c == 't' {
        Some('\t')
    } else if c == '\\' {
        Some('\\')
    } else if c == '0' {
        Some('\0')
    } else if c == '\'' {
        Some('\'')
    } else if c == '"' {
        Some('"')
    } else {
        None
    }
}

/// Where reading resumes after the escape whose backslash is at `j`: past the
/// escaped character; past a line break and the whitespace after it; or just
/// past the backslash when the input ends there or the escape is invalid.
pub open spec fn escape_end(s: Seq<char>, j: int) -> int {
    let k = j + 1;
    if k >= s.len() {
        k
    } else if is_newline(s[k]) {
        ws_end(s, k + newline_len(s, k))
    } else if escaped_char(s[k]) is Some {
        k + 1
    } else {
        k
    }
}

/// What the escape whose backslash is at `j` yields: no character when the
/// input ends after the backslash or a line break follows it (a line
/// continuation); the escaped character; or an error at (`ln`, `cn`).
pub open spec fn escape_result(s: Seq<char>, j: int, ln: nat, cn: nat) -> Result<
    Option<char>,
    SpecParseError,
> {
    let k = j + 1;
    if k >= s.len() || is_newline(s[k]) {
        Ok(None)
    } else {
        match escaped_char(s[k]) {
            Some(m) => Ok(Some(m)),
            None => Err(SpecParseError::InvalidEscape { c: s[k], ln, cn }),
        }
    }
}

pub open spec fn option_chars(o: Option<char>) -> Seq<char> {
    match o {
        Some(c) => seq![c],
        None => Seq::empty(),
    }
}

pub open spec fn prepend_chars(pre: Seq<char>, r: Result<(Seq<char>, int), SpecParseError>) -> Result<
    (Seq<char>, int),
    SpecParseError,
> {
    match r {
        Ok((rest, q)) => Ok((pre + rest, q)),
        Err(e) => Err(e),
    }
}

pub open spec fn prepend_trees(pre: Seq<SpecAst>, r: Result<(Seq<SpecAst>, int), SpecParseError>) -> Result<
    (Seq<SpecAst>, int),
    SpecParseError,
> {
    match r {
        Ok((rest, q)) => Ok((pre + rest, q)),
        Err(e) => Err(e),
    }
}

/// The contents of a string literal read from `j` up to its closing quote,
/// and the position after that quote. A line break (`\r\n` as one) reads as
/// `\n`; (`ln`, `cn`) is the position of the opening quote.
pub open spec fn string_body(s: Seq<char>, j: int, ln: nat, cn: nat) -> Result<
    (Seq<char>, int),
    SpecParseError,
>
    decreases s.len() - j,
{
    if j < 0 || j >= s.len() {
        Err(SpecParseError::UnclosedString { ln, cn })
    } else if s[j] == '"' {
        Ok((Seq::empty(), j + 1))
    } else if s[j] == '\\' {
        match escape_result(s, j, ln_at(s, j), cn_at(s, j)) {
            Err(e) => Err(e),
            Ok(o) => {
                let e = escape_end(s, j);
                if j < e <= s.len() {
                    prepend_chars(option_chars(o), string_body(s, e, ln, cn))
                } else {
                    Err(SpecParseError::UnclosedString { ln, cn })
                }
            },
        }
    } else if is_newline(s[j]) {
        prepend_chars(seq!['\n'], string_body(s, j + newline_len(s, j), ln, cn))
    } else {
        prepend_chars(seq![s[j]], string_body(s, j + 1, ln, cn))
    }
}

/// The character literal whose opening quote is at `p`, and the position
/// after its closing quote.
pub open spec fn char_literal(s: Seq<char>, p: int) -> Result<(char, int), SpecParseError> {
    let ln = ln_at(s, p);
    let cn = cn_at(s, p);
    let k = p + 1;
    if k >= s.len() {
        Err(SpecParseError::UnclosedChar { ln, cn })
    } else if is_newline(s[k]) {
        Err(SpecParseError::NewlineInChar { ln, cn })
    } else {
        let c: Result<Option<char>, SpecParseError> = if s[k] == '\'' {
            Ok(None)
        } else if s[k] == '\\' {
            escape_result(s, k, ln_at(s, k), cn_at(s, k))
        } else {
            Ok(Some(s[k]))
        };
        let k2 = if s[k] == '\'' {
            k
        } else if s[k] == '\\' {
            escape_end(s, k)
        } else {
            k + 1
        };
        match c {
            Err(e) => Err(e),
            Ok(o) => if k2 >= s.len() {
                Err(SpecParseError::UnclosedChar { ln, cn })
            } else {
                match o {
                    None => Err(SpecParseError::CharNotSingle { ln, cn }),
                    Some(ch) => if s[k2] != '\'' {
                        Err(SpecParseError::UnclosedChar { ln, cn })
                    } else {
                        Ok((ch, k2 + 1))
                    },
                }
            },
        }
    }
}

/// The end of the bare lexeme that starts at `i`: the first delimiter or the
/// end of the input.
pub open spec fn token_end(s: Seq<char>, i: int) -> int
    decreases s.len() - i,
{
    if 0 <= i < s.len() && !is_delimiter(s[i]) {
        token_end(s, i + 1)
    } else {
        i
    }
}

/// What a bare lexeme at (`ln`, `cn`) stands for: an integer, a float (its
/// text without underscores), or else a symbol.
pub open spec fn classify(lex: Seq<char>, ln: nat, cn: nat) -> Result<SpecTokenValue, SpecParseError> {
    match integer_check(lex) {
        Err(reason) => Err(SpecParseError::NumberOutOfRange { lexeme: lex, reason, ln, cn }),
        Ok(Some((v, negative))) => Ok(SpecTokenValue::Int(v, negative)),
        Ok(None) => if is_float_lexeme(lex) {
            Ok(SpecTokenValue::Float(without_underscores(lex)))
        } else {
            Ok(SpecTokenValue::Sym(lex))
        },
    }
}

pub open spec fn leaf(v: SpecTokenValue, ln: nat, cn: nat) -> SpecAst {
    SpecAst::Leaf(SpecToken { v, ln, cn })
}

/// The token that starts at `p` (a string literal, a character literal, or a
/// bare lexeme), and the position after it.
pub open spec fn token_at(s: Seq<char>, p: int) -> Result<(SpecAst, int), SpecParseError> {
    let ln = ln_at(s, p);
    let cn = cn_at(s, p);
    if s[p] == '"' {
        match string_body(s, p + 1, ln, cn) {
            Ok((b, q)) => Ok((leaf(SpecTokenValue::Str(b), ln, cn), q)),
            Err(e) => Err(e),
        }
    } else if s[p] == '\'' {
        match char_literal(s, p) {
            Ok((c, q)) => Ok((leaf(SpecTokenValue::Char(c), ln, cn), q)),
            Err(e) => Err(e),
        }
    } else {
        let e = token_end(s, p);
        match classify(s.subrange(p, e), ln, cn) {
            Ok(v) => Ok((leaf(v, ln, cn), e)),
            Err(x) => Err(x),
        }
    }
}

/// The items of the list whose left paren is at `start`, read from `p` up
/// to its right paren, and the position after that paren. Whitespace and
/// comments between items are skipped.
pub open spec fn list_items(s: Seq<char>, p: int, start: int) -> Result<
    (Seq<SpecAst>, int),
    SpecParseError,
>
    decreases s.len() - p, 1int,
{
    if p < 0 || p >= s.len() {
        Err(SpecParseError::UnclosedList { ln: ln_at(s, start), cn: cn_at(s, start) })
    } else if is_whitespace(s[p]) {
        let q = ws_end(s, p);
        if p < q <= s.len() {
            list_items(s, q, start)
        } else {
            Err(SpecParseError::UnclosedList { ln: ln_at(s, start), cn: cn_at(s, start) })
        }
    } else if s[p] == ';' {
        let q = comment_end(s, p);
        if p < q <= s.len() {
            list_items(s, q, start)
        } else {
            Err(SpecParseError::UnclosedList { ln: ln_at(s, start), cn: cn_at(s, start) })
        }
    } else if s[p] == ')' {
        Ok((Seq::empty(), p + 1))
    } else {
        let item = if s[p] == '(' {
            list_at(s, p)
        } else {
            token_at(s, p)
        };
        match item {
            Err(e) => Err(e),
            Ok((a, q)) => if p < q <= s.len() {
                prepend_trees(seq![a], list_items(s, q, start))
            } else {
                Err(SpecParseError::UnclosedList { ln: ln_at(s, start), cn: cn_at(s, start) })
            },
        }
    }
}

/// The list whose left paren is at `p`, and the position after its right paren.
pub open spec fn list_at(s: Seq<char>, p: int) -> Result<(SpecAst, int), SpecParseError>
    decreases s.len() - p, 0int,
{
    if p < 0 || p >= s.len() {
        Err(SpecParseError::UnclosedList { ln: ln_at(s, p), cn: cn_at(s, p) })
    } else {
        match list_items(s, p + 1, p) {
            Ok((items, q)) => Ok((SpecAst::Edge(items), q)),
            Err(e) => Err(e),
        }
    }
}

pub open spec fn prepend_roots(pre: Seq<SpecAst>, r: Result<Seq<SpecAst>, SpecParseError>) -> Result<
    Seq<SpecAst>,
    SpecParseError,
> {
    match r {
        Ok(rest) => Ok(pre + rest),
        Err(e) => Err(e),
    }
}

/// The lists of the top level read from `p` to the end of the input, where
/// only whitespace, comments and lists may stand.
pub open spec fn root_items(s: Seq<char>, p: int) -> Result<Seq<SpecAst>, SpecParseError>
    decreases s.len() - p,
{
    if p < 0 || p >= s.len() {
        Ok(Seq::empty())
    } else if is_whitespace(s[p]) {
        let q = ws_end(s, p);
        if p < q <= s.len() {
            root_items(s, q)
        } else {
            Ok(Seq::empty())
        }
    } else if s[p] == ';' {
        let q = comment_end(s, p);
        if p < q <= s.len() {
            root_items(s, q)
        } else {
            Ok(Seq::empty())
        }
    } else if s[p] == '(' {
        match list_at(s, p) {
            Err(e) => Err(e),
            Ok((a, q)) => if p < q <= s.len() {
                prepend_roots(seq![a], root_items(s, q))
            } else {
                Ok(Seq::empty())
            },
        }
    } else {
        Err(SpecParseError::TopLevel { ln: ln_at(s, p), cn: cn_at(s, p) })
    }
}

/// From `i` on, `t` holds only runs of whitespace and comments.
pub open spec fn blank_from(t: Seq<char>, i: int) -> bool
    decreases t.len() - i,
{
    if i < 0 || i >= t.len() {
        true
    } else if is_whitespace(t[i]) {
        let q = ws_end(t, i);
        if i < q <= t.len() {
            blank_from(t, q)
        } else {
            false
        }
    } else if t[i] == ';' {
        let q = comment_end(t, i);
        if i < q <= t.len() {
            blank_from(t, q)
        } else {
            false
        }
    } else {
        false
    }
}

/// What reading `code` yields: its top-level lists, or the first error.
pub open spec fn parse_result(code: Seq<char>) -> Result<Seq<SpecAst>, SpecParseError> {
    root_items(code, 0)
}

/// Reading an escape moves forward, stays in the input, and does not stop
/// inside a `\r\n` pair.
pub proof fn lemma_escape_end(s: Seq<char>, j: int)
    requires
        0 <= j < s.len(),
    ensures
        j < escape_end(s, j) <= s.len(),
        not_inside_crlf(s, escape_end(s, j)),
{
    let k = j + 1;
    if k < s.len() && is_newline(s[k]) {
        lemma_ws_end(s, k + newline_len(s, k));
    }
}

/// Reading an escape whose backslash is at `p`, from just past the
/// backslash, fits and ends at the line and column of where the escape ends.
pub proof fn lemma_escape_positions(s: Seq<char>, p: int)
    requires
        0 <= p < s.len() < usize::MAX,
        not_inside_crlf(s, p),
        s[p] == '\\',
    ensures
        line_col(s, p).1 < usize::MAX,
        track_fits(line_col(s, p).0, line_col(s, p).1 + 1, s.subrange(p + 1, escape_end(s, p))),
        line_col(s, escape_end(s, p)) == track(
            line_col(s, p).0,
            line_col(s, p).1 + 1,
            s.subrange(p + 1, escape_end(s, p)),
        ),
{
    let (l, c) = line_col(s, p);
    let e = escape_end(s, p);
    lemma_escape_end(s, p);
    lemma_line_col_fits(s, p, e);
    lemma_track_push(l, c, s.subrange(p, p), s[p]);
    assert(s.subrange(p, p).push(s[p]) =~= s.subrange(p, p + 1));
    assert(s.subrange(p, e) =~= s.subrange(p, p + 1) + s.subrange(p + 1, e));
    lemma_track_fits_suffix(l, c, s.subrange(p, p + 1), s.subrange(p + 1, e));
    lemma_track_concat(l, c, s.subrange(p, p + 1), s.subrange(p + 1, e));
    lemma_line_col_step(s, p, e);
}

pub proof fn lemma_token_end(s: Seq<char>, i: int)
    requires
        0 <= i <= s.len(),
    ensures
        i <= token_end(s, i) <= s.len(),
        forall|j: int| i <= j < token_end(s, i) ==> !is_delimiter(#[trigger] s[j]),
        token_end(s, i) == s.len() || is_delimiter(s[token_end(s, i)]),
    decreases s.len() - i,
{
    if i < s.len() && !is_delimiter(s[i]) {
        lemma_token_end(s, i + 1);
    }
}

pub proof fn lemma_prepend_trees_assoc(a: Seq<SpecAst>, b: Seq<SpecAst>, r: Result<(Seq<SpecAst>, int), SpecParseError>)
    ensures
        prepend_trees(a, prepend_trees(b, r)) == prepend_trees(a + b, r),
{
    if let Ok((rest, q)) = r {
        assert(a + (b + rest) =~= (a + b) + rest);
    }
}


} // verus!
