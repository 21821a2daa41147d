//! The reader: a cursor over the characters of the input that knows its line
//! and column.
use vstd::prelude::*;
use crate::ast::{
    lemma_view_asts_push, make_edge, view_asts, Ast, ParseError, SpecAst, SpecParseError, SpecToken,
    SpecTokenValue, Token, TokenValue,
};
use crate::grammar::{
    char_literal, classify, cn_at, escape_end, escape_result, escaped_char, leaf, lemma_escape_end,
    lemma_escape_positions,
    lemma_prepend_trees_assoc, lemma_token_end, list_at, list_items, ln_at, option_chars,
    parse_result, prepend_chars, prepend_roots, prepend_trees, root_items, string_body, token_at,
    token_end,
};
use crate::lexeme::{chars_of, check_float, check_integer};
use crate::message::error_text;
use crate::position::{
    comment_end, is_delimiter, is_newline, is_space, is_whitespace, lemma_comment_end,
    lemma_comment_end_boundary, lemma_line_col_fits, lemma_line_col_next, lemma_line_col_step, lemma_track_concat,
    lemma_track_fits_prefix, lemma_track_fits_suffix, lemma_track_plain, lemma_track_push,
    lemma_ws_end, line_col, newline_len, not_inside_crlf, track, track_fits, ws_end,
};

verus! {

/// A position in the input: the index of the next character, and its line
/// and column (both counted from 1).
pub struct Context {
    pub cur: usize,
    pub ln: usize,
    pub cn: usize,
}

impl Default for Context {
    fn default() -> (r: Self)
        ensures
            r.cur == 0,
            r.ln == 1,
            r.cn == 1,
    {
        Self { cur: 0, ln: 1, cn: 1 }
    }
}

impl Context {
    /// The line and column are those of `cur` in `code`, and `cur` does not
    /// fall inside a `\r\n` pair.
    pub open spec fn wf(&self, code: Seq<char>) -> bool {
        &&& code.len() < usize::MAX
        &&& self.cur <= code.len()
        &&& self.ln == line_col(code, self.cur as int).0
        &&& self.cn == line_col(code, self.cur as int).1
        &&& not_inside_crlf(code, self.cur as int)
    }

    /// Moves one character to the right on the same line.
    pub fn advance(&mut self)
        requires
            old(self).cur < usize::MAX,
            old(self).cn < usize::MAX,
        ensures
            final(self).cur == old(self).cur + 1,
            final(self).ln == old(self).ln,
            final(self).cn == old(self).cn + 1,
    {
        self.cur += 1;
        self.cn += 1;
    }

    /// Moves past the line break at `cur` (both characters of a `\r\n` pair) to
    /// column 1 of the next line.
    pub fn break_line(&mut self, code: &[char])
        requires
            old(self).cur < code@.len(),
            is_newline(code@[old(self).cur as int]),
            old(self).ln < usize::MAX,
        ensures
            final(self).cur == old(self).cur + newline_len(code@, old(self).cur as int),
            final(self).ln == old(self).ln + 1,
            final(self).cn == 1,
    {
        if code[self.cur] == '\r' {
            self.cur += 1;
            self.ln += 1;
            self.cn = 1;
            if self.cur < code.len() && code[self.cur] == '\n' {
                self.cur += 1;
            }
        } else {
            self.cur += 1;
            self.ln += 1;
            self.cn = 1;
        }
    }

    /// Moves past the run of whitespace at `cur`, following the line breaks in it.
    pub fn skip_whitespaces(&mut self, code: &[char])
        requires
            old(self).cur <= code@.len() ==> track_fits(
                old(self).ln as int,
                old(self).cn as int,
                code@.subrange(old(self).cur as int, ws_end(code@, old(self).cur as int)),
            ),
        ensures
            final(self).cur == ws_end(code@, old(self).cur as int),
            old(self).cur <= code@.len() ==> {
                &&& forall|j: int|
                    old(self).cur <= j < final(self).cur ==> is_whitespace(#[trigger] code@[j])
                &&& final(self).cur == code@.len() || !is_whitespace(code@[final(self).cur as int])
            },
            old(self).cur <= code@.len() ==> (final(self).ln as int, final(self).cn as int) == track(
                old(self).ln as int,
                old(self).cn as int,
                code@.subrange(old(self).cur as int, final(self).cur as int),
            ),
            old(self).cur > code@.len() ==> final(self).ln == old(self).ln && final(self).cn
                == old(self).cn,
    {
        let ghost s = code@;
        let ghost c0 = self.cur as int;
        let ghost l0 = self.ln as int;
        let ghost k0 = self.cn as int;
        let ghost e = ws_end(s, c0);
        if self.cur > code.len() {
            return;
        }
        proof {
            lemma_ws_end(s, c0);
        }
        while self.cur < code.len() && is_whitespace(code[self.cur])
            invariant
                s == code@,
                0 <= c0 <= self.cur <= e,
                e <= s.len(),
                ws_end(s, self.cur as int) == e,
                forall|j: int| c0 <= j < e ==> is_whitespace(#[trigger] s[j]),
                e == s.len() || !is_whitespace(s[e]),
                track_fits(l0, k0, s.subrange(c0, e)),
                (self.ln as int, self.cn as int) == track(l0, k0, s.subrange(c0, self.cur as int)),
                self.cur > c0 ==> not_inside_crlf(s, self.cur as int),
            decreases code.len() - self.cur,
        {
            let ghost p = self.cur as int;
            proof {
                lemma_track_push(l0, k0, s.subrange(c0, p), s[p]);
                assert(s.subrange(c0, p).push(s[p]) =~= s.subrange(c0, p + 1));
                assert(s.subrange(c0, e).take(p + 1 - c0) =~= s.subrange(c0, p + 1));
                lemma_track_fits_prefix(l0, k0, s.subrange(c0, e), p + 1 - c0);
            }
            if is_space(code[self.cur]) {
                self.advance();
            } else {
                self.break_line(code);
                proof {
                    if newline_len(s, p) == 2 {
                        lemma_track_push(l0, k0, s.subrange(c0, p + 1), s[p + 1]);
                        assert(s.subrange(c0, p + 1).push(s[p + 1]) =~= s.subrange(c0, p + 2));
                        assert(ws_end(s, p + 1) == ws_end(s, p + 2));
                    }
                }
            }
        }
    }

    /// Moves past the comment at `cur`: up to and past the first line break, or
    /// to the end of the input.
    pub fn skip_comment(&mut self, code: &[char])
        requires
            old(self).cur <= code@.len() ==> track_fits(
                old(self).ln as int,
                old(self).cn as int,
                code@.subrange(old(self).cur as int, comment_end(code@, old(self).cur as int)),
            ),
        ensures
            final(self).cur == comment_end(code@, old(self).cur as int),
            old(self).cur <= code@.len() ==> (final(self).ln as int, final(self).cn as int) == track(
                old(self).ln as int,
                old(self).cn as int,
                code@.subrange(old(self).cur as int, final(self).cur as int),
            ),
            old(self).cur > code@.len() ==> final(self).ln == old(self).ln && final(self).cn
                == old(self).cn,
            forall|j: int|
                old(self).cur <= j < code@.len() && is_newline(#[trigger] code@[j]) && (forall|k: int|
                    old(self).cur <= k < j ==> !is_newline(code@[k])) ==> {
                    &&& final(self).cur == j + newline_len(code@, j)
                    &&& final(self).ln == old(self).ln + 1
                    &&& final(self).cn == 1
                },
            old(self).cur <= code@.len() && (forall|k: int|
                old(self).cur <= k < code@.len() ==> !is_newline(#[trigger] code@[k])) ==> {
                &&& final(self).cur == code@.len()
                &&& final(self).ln == old(self).ln
                &&& final(self).cn == old(self).cn + (code@.len() - old(self).cur)
            },
    {
        let ghost s = code@;
        let ghost c0 = self.cur as int;
        let ghost l0 = self.ln as int;
        let ghost k0 = self.cn as int;
        let ghost e = comment_end(s, c0);
        if self.cur > code.len() {
            return;
        }
        proof {
            lemma_comment_end(s, c0);
        }
        while self.cur < code.len() && !is_newline(code[self.cur])
            invariant
                s == code@,
                0 <= c0 <= self.cur <= e,
                e <= s.len(),
                comment_end(s, self.cur as int) == e,
                forall|j: int| c0 <= j < self.cur ==> !is_newline(#[trigger] s[j]),
                track_fits(l0, k0, s.subrange(c0, e)),
                (self.ln as int, self.cn as int) == track(l0, k0, s.subrange(c0, self.cur as int)),
                self.ln == l0,
                self.cn == k0 + (self.cur - c0),
            decreases code.len() - self.cur,
        {
            let ghost p = self.cur as int;
            proof {
                lemma_comment_end(s, p);
                lemma_track_push(l0, k0, s.subrange(c0, p), s[p]);
                assert(s.subrange(c0, p).push(s[p]) =~= s.subrange(c0, p + 1));
                assert(s.subrange(c0, e).take(p + 1 - c0) =~= s.subrange(c0, p + 1));
                lemma_track_fits_prefix(l0, k0, s.subrange(c0, e), p + 1 - c0);
            }
            self.advance();
        }
        if self.cur < code.len() {
            let ghost p = self.cur as int;
            proof {
                lemma_track_push(l0, k0, s.subrange(c0, p), s[p]);
                assert(s.subrange(c0, p).push(s[p]) =~= s.subrange(c0, p + 1));
                assert(s.subrange(c0, e).take(p + 1 - c0) =~= s.subrange(c0, p + 1));
                lemma_track_fits_prefix(l0, k0, s.subrange(c0, e), p + 1 - c0);
            }
            self.break_line(code);
            proof {
                if newline_len(s, p) == 2 {
                    lemma_track_push(l0, k0, s.subrange(c0, p + 1), s[p + 1]);
                    assert(s.subrange(c0, p + 1).push(s[p + 1]) =~= s.subrange(c0, p + 2));
                }
                assert forall|j: int|
                    c0 <= j < s.len() && is_newline(#[trigger] s[j]) && (forall|k: int|
                        c0 <= k < j ==> !is_newline(s[k])) implies j == p by {
                    if j > p {
                        assert(!is_newline(s[p]));
                    }
                }
            }
        }
    }

    /// Reads the escape whose backslash is at `cur`: moves past the backslash
    /// and what follows it (a line break and the whitespace after it, or the
    /// escaped character), and returns the character it stands for, if any.
    /// An escape that stands for no character is an error at the backslash.
    pub fn parse_escape_character(&mut self, code: &[char]) -> (r: Result<Option<char>, String>)
        requires
            old(self).cur < usize::MAX,
            old(self).cn < usize::MAX,
            old(self).cur + 1 <= code@.len() ==> track_fits(
                old(self).ln as int,
                old(self).cn + 1,
                code@.subrange(old(self).cur + 1, escape_end(code@, old(self).cur as int)),
            ),
        ensures
            final(self).cur == escape_end(code@, old(self).cur as int),
            old(self).cur + 1 <= code@.len() ==> (final(self).ln as int, final(self).cn as int)
                == track(
                old(self).ln as int,
                old(self).cn + 1,
                code@.subrange(old(self).cur + 1, final(self).cur as int),
            ),
            old(self).cur + 1 >= code@.len() ==> final(self).ln == old(self).ln && final(self).cn
                == old(self).cn + 1,
            old(self).cur + 1 < code@.len() && escaped_char(code@[old(self).cur + 1]) is Some ==> {
                &&& final(self).cur == old(self).cur + 2
                &&& final(self).ln == old(self).ln
                &&& final(self).cn == old(self).cn + 2
            },
            match escape_result(code@, old(self).cur as int, old(self).ln as nat, old(self).cn as nat) {
                Ok(o) => r == Ok::<Option<char>, String>(o),
                Err(e) => r matches Err(x) && x@ == error_text(e),
            },
    {
        let ghost s = code@;
        let ghost l0 = self.ln as int;
        let ghost k0 = self.cn as int + 1;
        let ghost e = escape_end(s, self.cur as int);
        let start_ln = self.ln;
        let start_cn = self.cn;

        // skip backslash
        self.advance();

        if self.cur >= code.len() {
            return Ok(None);
        }
        let ghost k = self.cur as int;
        let c = code[self.cur];
        if is_newline(c) {
            proof {
                lemma_track_push(l0, k0, s.subrange(k, k), s[k]);
                assert(s.subrange(k, k).push(s[k]) =~= s.subrange(k, k + 1));
                lemma_ws_end(s, k + newline_len(s, k));
                assert(s.subrange(k, e).take(1) =~= s.subrange(k, k + 1));
                lemma_track_fits_prefix(l0, k0, s.subrange(k, e), 1);
            }
            self.break_line(code);
            let ghost b = self.cur as int;
            proof {
                if newline_len(s, k) == 2 {
                    lemma_track_push(l0, k0, s.subrange(k, k + 1), s[k + 1]);
                    assert(s.subrange(k, k + 1).push(s[k + 1]) =~= s.subrange(k, k + 2));
                }
                assert(s.subrange(k, e) =~= s.subrange(k, b) + s.subrange(b, e));
                lemma_track_fits_suffix(l0, k0, s.subrange(k, b), s.subrange(b, e));
            }
            self.skip_whitespaces(code);
            proof {
                lemma_track_concat(l0, k0, s.subrange(k, b), s.subrange(b, e));
            }
            return Ok(None);
        }
        let res = match escaped(c) {
            Some(m) => m,
            None => {
                return Err(ParseError::InvalidEscape { c, ln: start_ln, cn: start_cn }.message());
            },
        };
        proof {
            lemma_track_push(l0, k0, s.subrange(k, k), s[k]);
            assert(s.subrange(k, k).push(s[k]) =~= s.subrange(k, k + 1));
            assert(s.subrange(k, e).take(1) =~= s.subrange(k, k + 1));
            lemma_track_fits_prefix(l0, k0, s.subrange(k, e), 1);
        }
        self.advance();
        Ok(Some(res))
    }

    /// Reads the string literal whose opening quote is at `cur`.
    fn parse_string_literal(&mut self, code: &[char]) -> (r: Result<Ast, String>)
        requires
            old(self).wf(code@),
            old(self).cur < code@.len(),
            code@[old(self).cur as int] == '"',
        ensures
            match token_at(code@, old(self).cur as int) {
                Ok((a, q)) => r matches Ok(x) && x@ == a && final(self).cur == q && final(self).wf(
                    code@,
                ) && old(self).cur < q,
                Err(e) => r matches Err(x) && x@ == error_text(e),
            },
    {
        let ghost s = code@;
        let ghost p0 = self.cur as int;
        let start_ln = self.ln;
        let start_cn = self.cn;
        let mut buf = String::new();
        proof {
            lemma_line_col_next(s, p0);
            assert(buf@ + s.subrange(0, 0) =~= s.subrange(0, 0));
        }

        // skip left double-quote
        self.advance();

        while self.cur < code.len() && code[self.cur] != '"'
            invariant
                s == code@,
                self.wf(s),
                0 <= p0 < self.cur,
                p0 == old(self).cur,
                s[p0] == '"',
                start_ln as nat == ln_at(s, p0),
                start_cn as nat == cn_at(s, p0),
                string_body(s, p0 + 1, ln_at(s, p0), cn_at(s, p0)) == prepend_chars(
                    buf@,
                    string_body(s, self.cur as int, ln_at(s, p0), cn_at(s, p0)),
                ),
            decreases code.len() - self.cur,
        {
            let ghost p = self.cur as int;
            let ghost pre = buf@;
            let c = code[self.cur];
            if c == '\\' {
                let ghost e = escape_end(s, p);
                proof {
                    lemma_escape_end(s, p);
                    lemma_escape_positions(s, p);
                }
                match self.parse_escape_character(code) {
                    Ok(o) => {
                        if let Some(ch) = o {
                            buf.push(ch);
                        }
                        proof {
                            assert(forall|x: Seq<char>| pre + (option_chars(o) + x) =~= buf@ + x);
                        }
                    },
                    Err(x) => {
                        let ghost ee = escape_result(s, p, ln_at(s, p), cn_at(s, p))->Err_0;
                        assert(string_body(s, p, ln_at(s, p0), cn_at(s, p0)) == Err::<
                            (Seq<char>, int),
                            SpecParseError,
                        >(ee));
                        assert(string_body(s, p0 + 1, ln_at(s, p0), cn_at(s, p0)) == Err::<
                            (Seq<char>, int),
                            SpecParseError,
                        >(ee));
                        assert(token_at(s, p0) == Err::<(SpecAst, int), SpecParseError>(ee));
                        return Err(x);
                    },
                }
            } else if is_newline(c) {
                buf.push('\n');
                proof {
                    lemma_line_col_next(s, p);
                    assert(pre + (seq!['\n'] + Seq::empty()) =~= buf@ + Seq::empty());
                }
                self.break_line(code);
                proof {
                    assert(forall|x: Seq<char>| pre + (seq!['\n'] + x) =~= buf@ + x);
                }
            } else {
                buf.push(c);
                proof {
                    lemma_line_col_next(s, p);
                }
                self.advance();
                proof {
                    assert(forall|x: Seq<char>| pre + (seq![c] + x) =~= buf@ + x);
                }
            }
        }

        if self.cur >= code.len() {
            return Err(ParseError::UnclosedString { ln: start_ln, cn: start_cn }.message());
        }
        let ghost p = self.cur as int;
        proof {
            lemma_line_col_next(s, p);
            assert(buf@ + Seq::<char>::empty() =~= buf@);
        }

        // skip right double-quote
        self.advance();

        Ok(Ast::Leaf(Token { v: TokenValue::Str(buf), ln: start_ln, cn: start_cn }))
    }

    /// Reads the character literal whose opening quote is at `cur`.
    fn parse_char_literal(&mut self, code: &[char]) -> (r: Result<Ast, String>)
        requires
            old(self).wf(code@),
            old(self).cur < code@.len(),
            code@[old(self).cur as int] == '\'',
        ensures
            match token_at(code@, old(self).cur as int) {
                Ok((a, q)) => r matches Ok(x) && x@ == a && final(self).cur == q && final(self).wf(
                    code@,
                ) && old(self).cur < q,
                Err(e) => r matches Err(x) && x@ == error_text(e),
            },
    {
        let ghost s = code@;
        let ghost p0 = self.cur as int;
        let start_ln = self.ln;
        let start_cn = self.cn;
        proof {
            lemma_line_col_next(s, p0);
        }

        // skip left single-quote
        self.advance();

        if self.cur >= code.len() {
            return Err(ParseError::UnclosedChar { ln: start_ln, cn: start_cn }.message());
        }
        let ghost k = self.cur as int;
        let c = if is_newline(code[self.cur]) {
            return Err(ParseError::NewlineInChar { ln: start_ln, cn: start_cn }.message());
        } else if code[self.cur] == '\'' {
            None
        } else if code[self.cur] == '\\' {
            let ghost e = escape_end(s, k);
            proof {
                lemma_escape_end(s, k);
                lemma_escape_positions(s, k);
            }
            match self.parse_escape_character(code) {
                Ok(o) => o,
                Err(x) => {
                    let ghost ee = escape_result(s, k, ln_at(s, k), cn_at(s, k))->Err_0;
                    assert(char_literal(s, p0) == Err::<(char, int), SpecParseError>(ee));
                    return Err(x);
                },
            }
        } else {
            let ch = code[self.cur];
            proof {
                lemma_line_col_next(s, k);
            }
            self.advance();
            Some(ch)
        };

        if self.cur >= code.len() {
            assert(token_at(s, p0) == Err::<(SpecAst, int), SpecParseError>(SpecParseError::UnclosedChar { ln: start_ln as nat, cn: start_cn as nat }));
            return Err(ParseError::UnclosedChar { ln: start_ln, cn: start_cn }.message());
        }
        let c = match c {
            Some(c) => c,
            None => {
                assert(token_at(s, p0) == Err::<(SpecAst, int), SpecParseError>(SpecParseError::CharNotSingle { ln: start_ln as nat, cn: start_cn as nat }));
                return Err(ParseError::CharNotSingle { ln: start_ln, cn: start_cn }.message());
            },
        };
        if code[self.cur] != '\'' {
            assert(token_at(s, p0) == Err::<(SpecAst, int), SpecParseError>(SpecParseError::UnclosedChar { ln: start_ln as nat, cn: start_cn as nat }));
            return Err(ParseError::UnclosedChar { ln: start_ln, cn: start_cn }.message());
        }
        let ghost q = self.cur as int;
        assert(self.wf(s));
        proof {
            lemma_line_col_next(s, q);
        }

        // skip right single-quote
        self.advance();

        let tok = make_leaf(TokenValue::Char(c), start_ln, start_cn);
        assert(char_literal(s, p0) == Ok::<(char, int), SpecParseError>((c, q + 1)));
        assert(token_at(s, p0) == Ok::<(SpecAst, int), SpecParseError>((tok@, q + 1)));
        Ok(tok)
    }

    /// Reads the token at `cur`: a string literal, a character literal, or a
    /// bare lexeme up to the next delimiter.
    fn parse_token(&mut self, code: &[char]) -> (r: Result<Ast, String>)
        requires
            old(self).wf(code@),
            old(self).cur < code@.len(),
            !is_whitespace(code@[old(self).cur as int]),
            code@[old(self).cur as int] != '(',
            code@[old(self).cur as int] != ')',
            code@[old(self).cur as int] != ';',
        ensures
            match token_at(code@, old(self).cur as int) {
                Ok((a, q)) => r matches Ok(x) && x@ == a && final(self).cur == q && final(self).wf(
                    code@,
                ) && old(self).cur < q,
                Err(e) => r matches Err(x) && x@ == error_text(e),
            },
            r is Ok && code@[old(self).cur as int] != '"' && code@[old(self).cur as int] != '\'' ==> {
                &&& final(self).cur == token_end(code@, old(self).cur as int)
                &&& final(self).ln == old(self).ln
                &&& final(self).cn == old(self).cn + (final(self).cur - old(self).cur)
            },
    {
        let ghost s = code@;
        let start_cur = self.cur;
        let start_ln = self.ln;
        let start_cn = self.cn;

        // string literal
        if code[self.cur] == '"' {
            return self.parse_string_literal(code);
        }
        // char literal
        if code[self.cur] == '\'' {
            return self.parse_char_literal(code);
        }

        let ghost e = token_end(s, start_cur as int);
        proof {
            lemma_token_end(s, start_cur as int);
            lemma_line_col_fits(s, start_cur as int, e);
        }
        while self.cur < code.len() && !is_delimiter(code[self.cur])
            invariant
                s == code@,
                start_cur <= self.cur <= e,
                e <= s.len() < usize::MAX,
                token_end(s, self.cur as int) == e,
                forall|j: int| start_cur <= j < e ==> !is_delimiter(#[trigger] s[j]),
                e == s.len() || is_delimiter(s[e]),
                start_cn <= start_cur + 1,
                self.ln == start_ln,
                self.cn == start_cn + (self.cur - start_cur),
            decreases code.len() - self.cur,
        {
            self.advance();
        }
        let mut value = String::new();
        let mut i = start_cur;
        while i < self.cur
            invariant
                s == code@,
                start_cur <= i <= self.cur <= s.len(),
                value@ == s.subrange(start_cur as int, i as int),
            decreases self.cur - i,
        {
            value.push(code[i]);
            i += 1;
            assert(value@ =~= s.subrange(start_cur as int, i as int));
        }
        proof {
            let seg = s.subrange(start_cur as int, e);
            assert forall|j: int| 0 <= j < seg.len() implies !is_newline(#[trigger] seg[j]) by {
                assert(seg[j] == s[start_cur + j]);
            }
            lemma_track_plain(start_ln as int, start_cn as int, seg);
            lemma_line_col_step(s, start_cur as int, e);
        }
        assert(self.wf(s));
        match Token::try_to_number(&value, start_ln, start_cn) {
            Err(x) => Err(x),
            Ok(Some(t)) => Ok(Ast::Leaf(t)),
            Ok(None) => Ok(make_leaf(TokenValue::Sym(value), start_ln, start_cn)),
        }
    }

    /// Reads the list whose left paren is at `cur`, with the lists and tokens
    /// in it, up to and past its right paren.
    fn parse_list(&mut self, code: &[char]) -> (r: Result<Ast, String>)
        requires
            old(self).wf(code@),
            old(self).cur < code@.len(),
            code@[old(self).cur as int] == '(',
        ensures
            match list_at(code@, old(self).cur as int) {
                Ok((a, q)) => r matches Ok(x) && x@ == a && final(self).cur == q && final(self).wf(
                    code@,
                ) && old(self).cur < q,
                Err(e) => r matches Err(x) && x@ == error_text(e),
            },
        decreases code@.len() - old(self).cur,
    {
        let ghost s = code@;
        let ghost p0 = self.cur as int;
        let start_ln = self.ln;
        let start_cn = self.cn;
        let mut asts: Vec<Ast> = Vec::new();
        proof {
            lemma_line_col_next(s, p0);
            lemma_prepend_trees_assoc(Seq::empty(), Seq::empty(), list_items(s, p0 + 1, p0));
            assert(view_asts(asts@) =~= Seq::<SpecAst>::empty());
            assert(Seq::<SpecAst>::empty() + Seq::<SpecAst>::empty() =~= Seq::<SpecAst>::empty());
            if let Ok((rest, q)) = list_items(s, p0 + 1, p0) {
                assert(Seq::<SpecAst>::empty() + rest =~= rest);
            }
        }

        // skip left paren
        self.advance();

        while self.cur < code.len() && code[self.cur] != ')'
            invariant
                s == code@,
                self.wf(s),
                0 <= p0 < self.cur,
                p0 == old(self).cur,
                s[p0] == '(',
                start_ln as nat == ln_at(s, p0),
                start_cn as nat == cn_at(s, p0),
                list_items(s, p0 + 1, p0) == prepend_trees(view_asts(asts@), list_items(s, self.cur as int, p0)),
            decreases code.len() - self.cur,
        {
            let ghost p = self.cur as int;
            let c = code[self.cur];
            if is_whitespace(c) {
                proof {
                    lemma_ws_end(s, p);
                    lemma_line_col_fits(s, p, ws_end(s, p));
                    lemma_line_col_step(s, p, ws_end(s, p));
                }
                self.skip_whitespaces(code);
                assert(list_items(s, p, p0) == list_items(s, self.cur as int, p0));
            } else if c == ';' {
                proof {
                    lemma_comment_end(s, p);
                    lemma_comment_end_boundary(s, p);
                    lemma_line_col_fits(s, p, comment_end(s, p));
                    lemma_line_col_step(s, p, comment_end(s, p));
                }
                self.skip_comment(code);
                assert(list_items(s, p, p0) == list_items(s, self.cur as int, p0));
            } else {
                let item = if c == '(' {
                    self.parse_list(code)
                } else {
                    self.parse_token(code)
                };
                match item {
                    Ok(a) => {
                        assert(list_items(s, p, p0) == prepend_trees(seq![a@], list_items(s, self.cur as int, p0)));
                        let ghost before = asts@;
                        proof {
                            lemma_view_asts_push(asts@, a);
                            lemma_prepend_trees_assoc(view_asts(asts@), seq![a@], list_items(s, self.cur as int, p0));
                            assert(view_asts(asts@).push(a@) =~= view_asts(asts@) + seq![a@]);
                        }
                        asts.push(a);
                        assert(asts@ == before.push(a));
                    },
                    Err(x) => {
                        return Err(x);
                    },
                }
            }
        }

        if self.cur >= code.len() {
            return Err(ParseError::UnclosedList { ln: start_ln, cn: start_cn }.message());
        }
        let ghost q = self.cur as int;
        proof {
            lemma_line_col_next(s, q);
            assert(view_asts(asts@) + Seq::<SpecAst>::empty() =~= view_asts(asts@));
        }

        // skip right paren
        self.advance();

        Ok(make_edge(asts))
    }

    /// Reads the lists of the top level from `cur` to the end of the input.
    fn parse_root(&mut self, code: &[char]) -> (r: Result<Vec<Ast>, String>)
        requires
            old(self).wf(code@),
        ensures
            match root_items(code@, old(self).cur as int) {
                Ok(v) => r matches Ok(x) && view_asts(x@) == v && final(self).cur == code@.len()
                    && final(self).wf(code@),
                Err(e) => r matches Err(x) && x@ == error_text(e),
            },
    {
        let ghost s = code@;
        let ghost p0 = self.cur as int;
        let mut asts: Vec<Ast> = Vec::new();
        proof {
            assert(view_asts(asts@) =~= Seq::<SpecAst>::empty());
            if let Ok(rest) = root_items(s, p0) {
                assert(Seq::<SpecAst>::empty() + rest =~= rest);
            }
        }
        while self.cur < code.len()
            invariant
                s == code@,
                self.wf(s),
                p0 == old(self).cur,
                root_items(s, p0) == prepend_roots(view_asts(asts@), root_items(s, self.cur as int)),
            decreases code.len() - self.cur,
        {
            let ghost p = self.cur as int;
            let c = code[self.cur];
            if is_whitespace(c) {
                proof {
                    lemma_ws_end(s, p);
                    lemma_line_col_fits(s, p, ws_end(s, p));
                    lemma_line_col_step(s, p, ws_end(s, p));
                }
                self.skip_whitespaces(code);
                assert(root_items(s, p) == root_items(s, self.cur as int));
            } else if c == ';' {
                proof {
                    lemma_comment_end(s, p);
                    lemma_comment_end_boundary(s, p);
                    lemma_line_col_fits(s, p, comment_end(s, p));
                    lemma_line_col_step(s, p, comment_end(s, p));
                }
                self.skip_comment(code);
                assert(root_items(s, p) == root_items(s, self.cur as int));
            } else if c == '(' {
                match self.parse_list(code) {
                    Ok(a) => {
                        assert(root_items(s, p) == prepend_roots(seq![a@], root_items(s, self.cur as int)));
                        let ghost before = asts@;
                        proof {
                            lemma_view_asts_push(asts@, a);
                            assert(view_asts(asts@).push(a@) =~= view_asts(asts@) + seq![a@]);
                            if let Ok(rest) = root_items(s, self.cur as int) {
                                assert(view_asts(asts@) + (seq![a@] + rest) =~= (view_asts(asts@) + seq![a@]) + rest);
                            }
                        }
                        asts.push(a);
                        assert(asts@ == before.push(a));
                    },
                    Err(x) => {
                        return Err(x);
                    },
                }
            } else {
                assert(root_items(s, p) == Err::<Seq<SpecAst>, SpecParseError>(SpecParseError::TopLevel { ln: self.ln as nat, cn: self.cn as nat }));
                return Err(ParseError::TopLevel { ln: self.ln, cn: self.cn }.message());
            }
        }
        proof {
            assert(view_asts(asts@) + Seq::<SpecAst>::empty() =~= view_asts(asts@));
        }
        Ok(asts)
    }
}

/// The character that a backslash followed by `c` stands for, if any.
fn escaped(c: char) -> (r: Option<char>)
    ensures
        r == escaped_char(c),
{
    match c {
        'n' => Some('\n'),
        'r' => Some('\r'),
        't' => Some('\t'),
        '\\' => Some('\\'),
        '0' => Some('\0'),
        '\'' => Some('\''),
        '"' => Some('"'),
        _ => None,
    }
}

/// A tree of one token.
fn make_leaf(v: TokenValue, ln: usize, cn: usize) -> (a: Ast)
    ensures
        a@ == leaf(v@, ln as nat, cn as nat),
{
    Ast::Leaf(Token { v, ln, cn })
}

impl Token {
    /// The number token that a bare lexeme at (`ln`, `cn`) stands for, if it is
    /// written as a number; an error when it is an integer that does not fit.
    fn try_to_number(s: &str, ln: usize, cn: usize) -> (r: Result<Option<Self>, String>)
        ensures
            match classify(s@, ln as nat, cn as nat) {
                Err(e) => r matches Err(x) && x@ == error_text(e),
                Ok(SpecTokenValue::Sym(_)) => r == Ok::<Option<Token>, String>(None),
                Ok(v) => r matches Ok(Some(t)) && t@ == SpecToken { v, ln: ln as nat, cn: cn as nat },
            },
    {
        let v = match check_integer(s) {
            Err(reason) => {
                return Err(ParseError::NumberOutOfRange { lexeme: s.to_owned(), reason, ln, cn }.message());
            },
            Ok(Some((v, m))) => TokenValue::Int(v, m),
            Ok(None) => match check_float(s) {
                Some(t) => TokenValue::Float(t),
                None => {
                    return Ok(None);
                },
            },
        };
        Ok(Some(Self { v, ln, cn }))
    }
}

/// Reads `code`: its top-level lists, each a tree of the lists and tokens in
/// it, or the text that describes the first error met reading from left to
/// right.
pub fn parse(code: &str) -> (r: Result<Vec<Ast>, String>)
    requires
        code@.len() < usize::MAX,
    ensures
        match parse_result(code@) {
            Ok(v) => r matches Ok(x) && view_asts(x@) == v,
            Err(e) => r matches Err(x) && x@ == error_text(e),
        },
{
    let chars = chars_of(code);
    let mut ctx = Context::default();
    assert(chars@.take(0) =~= Seq::<char>::empty());
    ctx.parse_root(chars.as_slice())
}

/// Reads `code` and keeps only whether it could be read, and if not, why.
pub fn run(code: &str) -> (r: Result<(), String>)
    requires
        code@.len() < usize::MAX,
    ensures
        match parse_result(code@) {
            Ok(_) => r is Ok,
            Err(e) => r matches Err(x) && x@ == error_text(e),
        },
{
    match parse(code) {
        Ok(_) => Ok(()),
        Err(e) => Err(e),
    }
}

} // verus!
