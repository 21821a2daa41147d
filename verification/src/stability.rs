//! Reading a text and reading it with more text after it agree wherever the
//! first reading did not look past its end.
use vstd::prelude::*;
use crate::ast::SpecAst;
use crate::grammar::{
    blank_from, char_literal, escape_end, escape_result, lemma_escape_end, lemma_token_end,
    list_at, list_items, root_items, string_body, token_at, token_end,
};
use crate::position::{
    comment_end, is_newline, is_whitespace, lemma_comment_end, lemma_ws_end, line_col, newline_len,
    ws_end,
};

verus! {

pub proof fn lemma_line_col_prefix(code: Seq<char>, tail: Seq<char>, p: int)
    requires
        0 <= p <= code.len(),
    ensures
        line_col(code + tail, p) == line_col(code, p),
{
    assert((code + tail).take(p) =~= code.take(p));
}

/// A whitespace run that ends inside `code` ends at the same place with `tail` after it;
/// one that reaches the end of `code` goes on as the run at that end does.
pub proof fn lemma_ws_end_prefix(code: Seq<char>, tail: Seq<char>, p: int)
    requires
        0 <= p <= code.len(),
    ensures
        ws_end(code, p) < code.len() ==> ws_end(code + tail, p) == ws_end(code, p),
        ws_end(code, p) == code.len() ==> ws_end(code + tail, p) == ws_end(code + tail, code.len() as int),
    decreases code.len() - p,
{
    let s = code + tail;
    if p < code.len() {
        assert(s[p] == code[p]);
        if is_whitespace(code[p]) {
            lemma_ws_end_prefix(code, tail, p + 1);
        }
    }
}

pub proof fn lemma_comment_end_prefix(code: Seq<char>, tail: Seq<char>, p: int)
    requires
        0 <= p <= code.len(),
    ensures
        comment_end(code, p) < code.len() ==> comment_end(code + tail, p) == comment_end(code, p),
        comment_end(code, p) == code.len() ==> {
            ||| comment_end(code + tail, p) == code.len()
            ||| comment_end(code + tail, p) == comment_end(code + tail, code.len() as int)
            ||| (comment_end(code + tail, p) == code.len() + 1 && tail.len() > 0 && tail[0]
                == '\n')
        },
    decreases code.len() - p,
{
    let s = code + tail;
    if p < code.len() {
        assert(s[p] == code[p]);
        if is_newline(code[p]) {
            if p + 1 < code.len() {
                assert(s[p + 1] == code[p + 1]);
            } else if tail.len() > 0 {
                assert(s[p + 1] == tail[0]);
            }
        } else {
            lemma_comment_end_prefix(code, tail, p + 1);
        }
    }
}

pub proof fn lemma_token_end_prefix(code: Seq<char>, tail: Seq<char>, p: int)
    requires
        0 <= p <= code.len(),
        token_end(code, p) < code.len(),
    ensures
        token_end(code + tail, p) == token_end(code, p),
    decreases code.len() - p,
{
    let s = code + tail;
    assert(s[p] == code[p]);
    if !crate::position::is_delimiter(code[p]) {
        lemma_token_end_prefix(code, tail, p + 1);
    }
}

/// An escape that ends inside `code` reads the same with `tail` after it.
pub proof fn lemma_escape_prefix(code: Seq<char>, tail: Seq<char>, j: int, ln: nat, cn: nat)
    requires
        0 <= j < code.len(),
        escape_end(code, j) < code.len(),
    ensures
        escape_end(code + tail, j) == escape_end(code, j),
        escape_result(code + tail, j, ln, cn) == escape_result(code, j, ln, cn),
{
    let s = code + tail;
    let k = j + 1;
    lemma_escape_end(code, j);
    assert(k < code.len());
    assert(s[k] == code[k]);
    if is_newline(code[k]) {
        let b = k + newline_len(code, k);
        lemma_ws_end(code, b);
        if k + 1 < code.len() {
            assert(s[k + 1] == code[k + 1]);
        }
        assert(newline_len(s, k) == newline_len(code, k));
        lemma_ws_end_prefix(code, tail, b);
    }
}

pub proof fn lemma_string_body_prefix(code: Seq<char>, tail: Seq<char>, j: int, ln: nat, cn: nat)
    requires
        0 <= j <= code.len(),
        string_body(code, j, ln, cn) is Ok,
    ensures
        string_body(code + tail, j, ln, cn) == string_body(code, j, ln, cn),
    decreases code.len() - j,
{
    let s = code + tail;
    if j < code.len() {
        assert(s[j] == code[j]);
        lemma_line_col_prefix(code, tail, j);
        if code[j] == '"' {
        } else if code[j] == '\\' {
            let e = escape_end(code, j);
            lemma_escape_end(code, j);
            if e < code.len() {
                lemma_escape_prefix(code, tail, j, crate::grammar::ln_at(code, j), crate::grammar::cn_at(code, j));
                lemma_string_body_prefix(code, tail, e, ln, cn);
            }
        } else if is_newline(code[j]) {
            if j + 1 < code.len() {
                assert(s[j + 1] == code[j + 1]);
                assert(newline_len(s, j) == newline_len(code, j));
                lemma_string_body_prefix(code, tail, j + newline_len(code, j), ln, cn);
            }
        } else {
            lemma_string_body_prefix(code, tail, j + 1, ln, cn);
        }
    }
}

pub proof fn lemma_token_at_prefix(code: Seq<char>, tail: Seq<char>, p: int)
    requires
        0 <= p < code.len(),
        token_at(code, p) matches Ok((_, q)) && q < code.len(),
    ensures
        token_at(code + tail, p) == token_at(code, p),
{
    let s = code + tail;
    assert(s[p] == code[p]);
    lemma_line_col_prefix(code, tail, p);
    if code[p] == '"' {
        lemma_string_body_prefix(code, tail, p + 1, crate::grammar::ln_at(code, p), crate::grammar::cn_at(code, p));
    } else if code[p] == '\'' {
        let k = p + 1;
        assert(k < code.len());
        assert(s[k] == code[k]);
        lemma_line_col_prefix(code, tail, k);
        if code[k] == '\\' {
            lemma_escape_end(code, k);
            if escape_end(code, k) < code.len() {
                lemma_escape_prefix(code, tail, k, crate::grammar::ln_at(code, k), crate::grammar::cn_at(code, k));
                assert(s[escape_end(code, k)] == code[escape_end(code, k)]);
            }
        } else if code[k] != '\'' && k + 1 < code.len() {
            assert(s[k + 1] == code[k + 1]);
        }
        assert(char_literal(s, p) == char_literal(code, p));
    } else {
        lemma_token_end(code, p);
        lemma_token_end_prefix(code, tail, p);
        assert(s.subrange(p, token_end(code, p)) =~= code.subrange(p, token_end(code, p)));
    }
}

pub proof fn lemma_list_items_prefix(code: Seq<char>, tail: Seq<char>, p: int, start: int)
    requires
        0 <= p <= code.len(),
        0 <= start <= code.len(),
        list_items(code, p, start) is Ok,
    ensures
        list_items(code + tail, p, start) == list_items(code, p, start),
    decreases code.len() - p, 1int,
{
    let s = code + tail;
    if p < code.len() {
        let c = code[p];
        assert(s[p] == c);
        if is_whitespace(c) {
            let q = ws_end(code, p);
            lemma_ws_end(code, p);
            lemma_ws_end_prefix(code, tail, p);
            if q < code.len() {
                lemma_list_items_prefix(code, tail, q, start);
            }
        } else if c == ';' {
            let q = comment_end(code, p);
            lemma_comment_end(code, p);
            lemma_comment_end_prefix(code, tail, p);
            if q < code.len() {
                lemma_list_items_prefix(code, tail, q, start);
            }
        } else if c == ')' {
        } else {
            let item = if c == '(' {
                list_at(code, p)
            } else {
                token_at(code, p)
            };
            if let Ok((a, q)) = item {
                if p < q <= code.len() {
                    if q < code.len() {
                        if c == '(' {
                            lemma_list_at_prefix(code, tail, p);
                        } else {
                            lemma_token_at_prefix(code, tail, p);
                        }
                        lemma_list_items_prefix(code, tail, q, start);
                    }
                }
            }
        }
    }
}

pub proof fn lemma_list_at_prefix(code: Seq<char>, tail: Seq<char>, p: int)
    requires
        0 <= p < code.len(),
        list_at(code, p) is Ok,
    ensures
        list_at(code + tail, p) == list_at(code, p),
    decreases code.len() - p, 0int,
{
    lemma_list_items_prefix(code, tail, p + 1, p);
}

/// Where only whitespace and comments are left, the top level reads nothing more.
pub proof fn lemma_blank_reads_nothing(s: Seq<char>, r: int)
    requires
        0 <= r,
        blank_from(s, r),
    ensures
        root_items(s, r) == Ok::<Seq<SpecAst>, crate::ast::SpecParseError>(Seq::empty()),
    decreases s.len() - r,
{
    if r < s.len() {
        if is_whitespace(s[r]) {
            lemma_blank_reads_nothing(s, ws_end(s, r));
        } else if s[r] == ';' {
            lemma_blank_reads_nothing(s, comment_end(s, r));
        }
    }
}

pub proof fn lemma_ws_end_within(s: Seq<char>, i: int, j: int)
    requires
        0 <= i <= j <= ws_end(s, i),
    ensures
        ws_end(s, j) == ws_end(s, i),
    decreases j - i,
{
    if i < j {
        lemma_ws_end_within(s, i + 1, j);
    }
}

/// Stepping over one whitespace character keeps the rest blank.
pub proof fn lemma_blank_step(s: Seq<char>, i: int)
    requires
        0 <= i < s.len(),
        is_whitespace(s[i]),
        blank_from(s, i),
    ensures
        blank_from(s, i + 1),
{
    lemma_ws_end(s, i);
    lemma_ws_end_within(s, i, i + 1);
}

/// Skipping to the end of the line keeps the rest blank.
pub proof fn lemma_blank_comment_end(s: Seq<char>, i: int)
    requires
        0 <= i,
        blank_from(s, i),
    ensures
        blank_from(s, comment_end(s, i)),
    decreases s.len() - i,
{
    if i < s.len() {
        if is_newline(s[i]) {
            lemma_blank_step(s, i);
            if newline_len(s, i) == 2 {
                lemma_blank_step(s, i + 1);
            }
        } else if is_whitespace(s[i]) {
            lemma_blank_step(s, i);
            lemma_blank_comment_end(s, i + 1);
        }
    }
}

pub proof fn lemma_ws_end_shift(code: Seq<char>, tail: Seq<char>, i: int)
    requires
        0 <= i,
    ensures
        ws_end(code + tail, code.len() + i) == code.len() + ws_end(tail, i),
    decreases tail.len() - i,
{
    if i < tail.len() {
        assert((code + tail)[code.len() + i] == tail[i]);
        if is_whitespace(tail[i]) {
            lemma_ws_end_shift(code, tail, i + 1);
        }
    }
}

pub proof fn lemma_comment_end_shift(code: Seq<char>, tail: Seq<char>, i: int)
    requires
        0 <= i,
    ensures
        comment_end(code + tail, code.len() + i) == code.len() + comment_end(tail, i),
    decreases tail.len() - i,
{
    if i < tail.len() {
        assert((code + tail)[code.len() + i] == tail[i]);
        if i + 1 < tail.len() {
            assert((code + tail)[code.len() + i + 1] == tail[i + 1]);
        }
        if !is_newline(tail[i]) {
            lemma_comment_end_shift(code, tail, i + 1);
        }
    }
}

pub proof fn lemma_blank_shift(code: Seq<char>, tail: Seq<char>, i: int)
    requires
        0 <= i,
    ensures
        blank_from(code + tail, code.len() + i) == blank_from(tail, i),
    decreases tail.len() - i,
{
    if i < tail.len() {
        assert((code + tail)[code.len() + i] == tail[i]);
        if is_whitespace(tail[i]) {
            lemma_ws_end_shift(code, tail, i);
            lemma_ws_end(tail, i);
            lemma_blank_shift(code, tail, ws_end(tail, i));
        } else if tail[i] == ';' {
            lemma_comment_end_shift(code, tail, i);
            lemma_comment_end(tail, i);
            lemma_blank_shift(code, tail, comment_end(tail, i));
        }
    }
}

/// The top level reads nothing from where a whitespace run that ends `code` stops.
proof fn lemma_root_ws_tail(code: Seq<char>, tail: Seq<char>, p: int)
    requires
        0 <= p < code.len(),
        is_whitespace(code[p]),
        ws_end(code, p) == code.len(),
        blank_from(code + tail, code.len() as int),
    ensures
        root_items(code + tail, ws_end(code + tail, p)) == Ok::<Seq<SpecAst>, crate::ast::SpecParseError>(Seq::empty()),
        p < ws_end(code + tail, p) <= (code + tail).len(),
{
    let s = code + tail;
    let n = code.len() as int;
    assert(s[p] == code[p]);
    lemma_ws_end_prefix(code, tail, p);
    lemma_ws_end(s, n);
    lemma_ws_end(s, p);
    if !(n < s.len() && is_whitespace(s[n])) {
        assert(ws_end(s, n) == n);
    }
    lemma_blank_reads_nothing(s, ws_end(s, n));
}

/// The top level reads nothing from where a comment that ends `code` stops.
proof fn lemma_root_comment_tail(code: Seq<char>, tail: Seq<char>, p: int)
    requires
        0 <= p < code.len(),
        code[p] == ';',
        comment_end(code, p) == code.len(),
        blank_from(code + tail, code.len() as int),
    ensures
        root_items(code + tail, comment_end(code + tail, p)) == Ok::<Seq<SpecAst>, crate::ast::SpecParseError>(Seq::empty()),
        p < comment_end(code + tail, p) <= (code + tail).len(),
{
    let s = code + tail;
    let n = code.len() as int;
    assert(s[p] == code[p]);
    lemma_comment_end_prefix(code, tail, p);
    lemma_comment_end(s, p);
    let r = comment_end(s, p);
    if r == n + 1 && tail.len() > 0 && tail[0] == '\n' {
        assert(s[n] == tail[0]);
        lemma_blank_step(s, n);
    } else if r != n {
        lemma_blank_comment_end(s, n);
    }
    lemma_blank_reads_nothing(s, r);
}

proof fn lemma_root_step_space(code: Seq<char>, tail: Seq<char>, p: int)
    requires
        0 <= p < code.len(),
        is_whitespace(code[p]),
        ws_end(code, p) < code.len() ==> root_items(code + tail, ws_end(code, p)) == root_items(
            code,
            ws_end(code, p),
        ),
        blank_from(code + tail, code.len() as int),
    ensures
        root_items(code + tail, p) == root_items(code, p),
{
    let s = code + tail;
    assert(s[p] == code[p]);
    lemma_ws_end(code, p);
    if ws_end(code, p) < code.len() {
        lemma_ws_end_prefix(code, tail, p);
    } else {
        lemma_root_ws_tail(code, tail, p);
    }
}

proof fn lemma_root_step_comment(code: Seq<char>, tail: Seq<char>, p: int)
    requires
        0 <= p < code.len(),
        code[p] == ';',
        comment_end(code, p) < code.len() ==> root_items(code + tail, comment_end(code, p))
            == root_items(code, comment_end(code, p)),
        blank_from(code + tail, code.len() as int),
    ensures
        root_items(code + tail, p) == root_items(code, p),
{
    let s = code + tail;
    assert(s[p] == code[p]);
    lemma_comment_end(code, p);
    if comment_end(code, p) < code.len() {
        lemma_comment_end_prefix(code, tail, p);
    } else {
        lemma_root_comment_tail(code, tail, p);
    }
}

pub proof fn lemma_list_items_bounds(s: Seq<char>, p: int, start: int)
    ensures
        list_items(s, p, start) matches Ok((_, r)) ==> p < r <= s.len(),
    decreases s.len() - p, 1int,
{
    if 0 <= p < s.len() {
        let c = s[p];
        if is_whitespace(c) {
            let q = ws_end(s, p);
            if p < q <= s.len() {
                lemma_list_items_bounds(s, q, start);
            }
        } else if c == ';' {
            let q = comment_end(s, p);
            if p < q <= s.len() {
                lemma_list_items_bounds(s, q, start);
            }
        } else if c != ')' {
            let item = if c == '(' {
                list_at(s, p)
            } else {
                token_at(s, p)
            };
            if let Ok((a, q)) = item {
                if p < q <= s.len() {
                    lemma_list_items_bounds(s, q, start);
                }
            }
        }
    }
}

/// A list that reads ends past its left paren and inside the input.
pub proof fn lemma_list_at_bounds(s: Seq<char>, p: int)
    ensures
        list_at(s, p) matches Ok((_, q)) ==> p < q <= s.len(),
{
    lemma_list_items_bounds(s, p + 1, p);
}

proof fn lemma_root_step_list(code: Seq<char>, tail: Seq<char>, p: int)
    requires
        0 <= p < code.len(),
        code[p] == '(',
        list_at(code, p) is Ok,
        p < list_at(code, p)->Ok_0.1 <= code.len() ==> root_items(code + tail, list_at(code, p)->Ok_0.1)
            == root_items(code, list_at(code, p)->Ok_0.1),
    ensures
        root_items(code + tail, p) == root_items(code, p),
{
    let s = code + tail;
    assert(s[p] == code[p]);
    lemma_list_at_prefix(code, tail, p);
    lemma_list_at_bounds(code, p);
}

/// What the top level of `code` reads from `p`, it reads the same with
/// whitespace and comments after it.
pub proof fn lemma_root_items_blank_tail(code: Seq<char>, tail: Seq<char>, p: int)
    requires
        0 <= p <= code.len(),
        root_items(code, p) is Ok,
        blank_from(code + tail, code.len() as int),
    ensures
        root_items(code + tail, p) == root_items(code, p),
    decreases code.len() - p,
{
    let n = code.len() as int;
    if p == n {
        lemma_blank_reads_nothing(code + tail, n);
    } else {
        let c = code[p];
        if is_whitespace(c) {
            lemma_ws_end(code, p);
            if ws_end(code, p) < n {
                lemma_root_items_blank_tail(code, tail, ws_end(code, p));
            }
            lemma_root_step_space(code, tail, p);
        } else if c == ';' {
            lemma_comment_end(code, p);
            if comment_end(code, p) < n {
                lemma_root_items_blank_tail(code, tail, comment_end(code, p));
            }
            lemma_root_step_comment(code, tail, p);
        } else if c == '(' {
            if let Ok((a, q)) = list_at(code, p) {
                if p < q <= n {
                    lemma_root_items_blank_tail(code, tail, q);
                }
            }
            lemma_root_step_list(code, tail, p);
        }
    }
}

} // verus!
