//! Where the tokens of a reading start, and in which order.
use vstd::prelude::*;
use crate::ast::{SpecAst, SpecToken};
use crate::grammar::{
    char_literal, escape_end, escape_result, lemma_escape_end, lemma_token_end, list_at, list_items,
    root_items, string_body, token_at, token_end,
};
use crate::position::{
    comment_end, is_delimiter, is_newline, is_whitespace, lemma_comment_end, lemma_track_bounds,
    lemma_ws_end, line_col, newline_len, ws_end,
};
use crate::stability::lemma_list_items_bounds;

verus! {

/// The tokens of a sequence of trees, depth first and left to right.
pub open spec fn tokens_of(v: Seq<SpecAst>) -> Seq<SpecToken>
    decreases v,
{
    if v.len() == 0 {
        Seq::empty()
    } else {
        tokens_in(v[0]) + tokens_of(v.drop_first())
    }
}

/// The tokens of a tree, depth first and left to right.
pub open spec fn tokens_in(a: SpecAst) -> Seq<SpecToken>
    decreases a,
{
    match a {
        SpecAst::Leaf(t) => seq![t],
        SpecAst::Edge(items) => tokens_of(items),
    }
}

/// Token `t` is the one that reading `code` yields at `p`, whose text begins
/// at `p` (its opening quote, or a character right after a delimiter), and
/// it carries the line and column of `p`.
pub open spec fn token_starts_at(code: Seq<char>, t: SpecToken, p: int) -> bool {
    &&& 0 < p < code.len()
    &&& (token_at(code, p) matches Ok((SpecAst::Leaf(u), _)) && u == t)
    &&& (code[p] == '"' || code[p] == '\'' || is_delimiter(code[p - 1]))
    &&& t.ln == line_col(code, p).0
    &&& t.cn == line_col(code, p).1
}

/// `ps` holds, in increasing order, one position in [`lo`, `hi`) for each
/// token of `ts`, where that token starts.
pub open spec fn starts_of(code: Seq<char>, ts: Seq<SpecToken>, lo: int, hi: int, ps: Seq<int>) -> bool {
    &&& ps.len() == ts.len()
    &&& forall|i: int, j: int| 0 <= i < j < ps.len() ==> ps[i] < ps[j]
    &&& forall|i: int|
        0 <= i < ps.len() ==> lo <= #[trigger] ps[i] < hi && token_starts_at(code, ts[i], ps[i])
}

pub open spec fn has_starts(code: Seq<char>, ts: Seq<SpecToken>, lo: int, hi: int) -> bool {
    exists|ps: Seq<int>| #[trigger] starts_of(code, ts, lo, hi, ps)
}

proof fn lemma_has_starts_empty(code: Seq<char>, lo: int, hi: int)
    ensures
        has_starts(code, Seq::empty(), lo, hi),
{
    assert(starts_of(code, Seq::empty(), lo, hi, Seq::empty()));
}

proof fn lemma_has_starts_concat(code: Seq<char>, a: Seq<SpecToken>, b: Seq<SpecToken>, lo: int, m: int, hi: int)
    requires
        lo <= m <= hi,
        has_starts(code, a, lo, m),
        has_starts(code, b, m, hi),
    ensures
        has_starts(code, a + b, lo, hi),
{
    let pa = choose|ps: Seq<int>| #[trigger] starts_of(code, a, lo, m, ps);
    let pb = choose|ps: Seq<int>| #[trigger] starts_of(code, b, m, hi, ps);
    let ps = pa + pb;
    let ts = a + b;
    assert forall|i: int, j: int| 0 <= i < j < ps.len() implies ps[i] < ps[j] by {
        if j < pa.len() {
            assert(ps[i] == pa[i] && ps[j] == pa[j]);
        } else if i >= pa.len() {
            assert(ps[i] == pb[i - pa.len()] && ps[j] == pb[j - pa.len()]);
        } else {
            assert(ps[i] == pa[i] && ps[j] == pb[j - pa.len()]);
            assert(lo <= pa[i] < m);
            assert(m <= pb[j - pa.len()] < hi);
        }
    }
    assert forall|i: int| 0 <= i < ps.len() implies lo <= #[trigger] ps[i] < hi && token_starts_at(
        code,
        ts[i],
        ps[i],
    ) by {
        if i < pa.len() {
            assert(ps[i] == pa[i] && ts[i] == a[i]);
            assert(lo <= pa[i] < m && token_starts_at(code, a[i], pa[i]));
            assert(lo <= ps[i] < hi);
            assert(token_starts_at(code, ts[i], ps[i]));
        } else {
            let k = i - pa.len();
            assert(ps[i] == pb[k] && ts[i] == b[k]);
            assert(m <= pb[k] < hi && token_starts_at(code, b[k], pb[k]));
            assert(lo <= ps[i] < hi);
            assert(token_starts_at(code, ts[i], ps[i]));
        }
    }
    assert(starts_of(code, ts, lo, hi, ps));
}

proof fn lemma_tokens_of_prepend(a: SpecAst, rest: Seq<SpecAst>)
    ensures
        tokens_of(seq![a] + rest) == tokens_in(a) + tokens_of(rest),
{
    assert((seq![a] + rest).drop_first() =~= rest);
    assert((seq![a] + rest)[0] == a);
}

/// What precedes position `p`, or stands at it, ends a bare token.
pub open spec fn at_boundary(s: Seq<char>, p: int) -> bool {
    0 < p <= s.len() && (p < s.len() ==> is_delimiter(s[p - 1]) || is_delimiter(s[p]))
}

proof fn lemma_string_body_end(s: Seq<char>, j: int, ln: nat, cn: nat)
    ensures
        string_body(s, j, ln, cn) matches Ok((_, q)) ==> 0 < q <= s.len() && s[q - 1] == '"',
    decreases s.len() - j,
{
    if 0 <= j < s.len() && s[j] != '"' {
        if s[j] == '\\' {
            let e = escape_end(s, j);
            if j < e <= s.len() {
                lemma_string_body_end(s, e, ln, cn);
            }
        } else if is_newline(s[j]) {
            lemma_string_body_end(s, j + newline_len(s, j), ln, cn);
        } else {
            lemma_string_body_end(s, j + 1, ln, cn);
        }
    }
}

proof fn lemma_comment_end_last(s: Seq<char>, i: int)
    requires
        0 <= i <= s.len(),
    ensures
        comment_end(s, i) < s.len() ==> is_newline(s[comment_end(s, i) - 1]),
    decreases s.len() - i,
{
    if i < s.len() && !is_newline(s[i]) {
        lemma_comment_end_last(s, i + 1);
    }
}

proof fn lemma_list_items_end(s: Seq<char>, p: int, start: int)
    ensures
        list_items(s, p, start) matches Ok((_, r)) ==> 0 < r <= s.len() && s[r - 1] == ')',
    decreases s.len() - p, 1int,
{
    if 0 <= p < s.len() {
        let c = s[p];
        if is_whitespace(c) {
            let q = ws_end(s, p);
            if p < q <= s.len() {
                lemma_list_items_end(s, q, start);
            }
        } else if c == ';' {
            let q = comment_end(s, p);
            if p < q <= s.len() {
                lemma_list_items_end(s, q, start);
            }
        } else if c != ')' {
            let item = if c == '(' {
                list_at(s, p)
            } else {
                token_at(s, p)
            };
            if let Ok((a, q)) = item {
                if p < q <= s.len() {
                    lemma_list_items_end(s, q, start);
                }
            }
        }
    }
}

/// After a token, reading stands at a boundary.
proof fn lemma_token_at_shape(s: Seq<char>, p: int)
    requires
        0 < p < s.len(),
        s[p] == '"' || s[p] == '\'' || is_delimiter(s[p - 1]),
    ensures
        token_at(s, p) matches Ok((a, q)) ==> (p < q <= s.len() ==> {
            &&& a is Leaf
            &&& has_starts(s, tokens_in(a), p, q)
            &&& at_boundary(s, q)
        }),
{
    if let Ok((a, q)) = token_at(s, p) {
        if p < q <= s.len() {
            lemma_track_bounds(1, 1, s.take(p));
            let t = a->Leaf_0;
            assert(token_starts_at(s, t, p));
            assert(tokens_in(a) =~= seq![t]);
            assert(starts_of(s, seq![t], p, q, seq![p]));
            if s[p] == '"' {
                lemma_string_body_end(s, p + 1, crate::grammar::ln_at(s, p), crate::grammar::cn_at(s, p));
            } else if s[p] == '\'' {
            } else {
                lemma_token_end(s, p);
            }
        }
    }
}

pub proof fn lemma_list_items_starts(s: Seq<char>, p: int, start: int)
    requires
        at_boundary(s, p),
    ensures
        list_items(s, p, start) matches Ok((v, r)) ==> has_starts(s, tokens_of(v), p, r),
    decreases s.len() - p, 1int,
{
    if 0 <= p < s.len() {
        let c = s[p];
        if is_whitespace(c) {
            let q = ws_end(s, p);
            lemma_ws_end(s, p);
            if p < q <= s.len() {
                assert(is_whitespace(s[q - 1]));
                lemma_list_items_starts(s, q, start);
                lemma_list_items_bounds(s, q, start);
                if let Ok((v, r)) = list_items(s, q, start) {
                    assert(has_starts(s, tokens_of(v), q, r));
                    lemma_has_starts_empty(s, p, q);
                    assert(Seq::<SpecToken>::empty() + tokens_of(v) =~= tokens_of(v));
                    lemma_has_starts_concat(s, Seq::empty(), tokens_of(v), p, q, r);
                }
            }
        } else if c == ';' {
            let q = comment_end(s, p);
            lemma_comment_end(s, p);
            lemma_comment_end_last(s, p);
            if p < q <= s.len() {
                lemma_list_items_starts(s, q, start);
                lemma_list_items_bounds(s, q, start);
                if let Ok((v, r)) = list_items(s, q, start) {
                    lemma_has_starts_empty(s, p, q);
                    assert(Seq::<SpecToken>::empty() + tokens_of(v) =~= tokens_of(v));
                    lemma_has_starts_concat(s, Seq::empty(), tokens_of(v), p, q, r);
                }
            }
        } else if c == ')' {
            lemma_has_starts_empty(s, p, p + 1);
        } else {
            let item = if c == '(' {
                list_at(s, p)
            } else {
                token_at(s, p)
            };
            if let Ok((a, q)) = item {
                if p < q <= s.len() {
                    if c == '(' {
                        lemma_list_at_starts(s, p);
                        lemma_list_items_end(s, p + 1, p);
                    } else {
                        lemma_token_at_shape(s, p);
                    }
                    lemma_list_items_starts(s, q, start);
                    lemma_list_items_bounds(s, q, start);
                    if let Ok((rest, r)) = list_items(s, q, start) {
                        lemma_tokens_of_prepend(a, rest);
                        lemma_has_starts_concat(s, tokens_in(a), tokens_of(rest), p, q, r);
                    }
                }
            }
        }
    }
}

pub proof fn lemma_list_at_starts(s: Seq<char>, p: int)
    requires
        0 <= p < s.len(),
        s[p] == '(',
    ensures
        list_at(s, p) matches Ok((a, q)) ==> has_starts(s, tokens_in(a), p, q),
    decreases s.len() - p, 0int,
{
    lemma_list_items_starts(s, p + 1, p);
    if let Ok((items, r)) = list_items(s, p + 1, p) {
        lemma_list_items_bounds(s, p + 1, p);
        let pb = choose|ps: Seq<int>| #[trigger] starts_of(s, tokens_of(items), p + 1, r, ps);
        assert(starts_of(s, tokens_of(items), p, r, pb));
    }
}

pub proof fn lemma_root_items_starts(s: Seq<char>, p: int)
    requires
        0 <= p <= s.len(),
    ensures
        root_items(s, p) matches Ok(v) ==> has_starts(s, tokens_of(v), p, s.len() as int),
    decreases s.len() - p,
{
    if p == s.len() {
        lemma_has_starts_empty(s, p, p);
    } else {
        lemma_has_starts_empty(s, p, s.len() as int);
        let c = s[p];
        if is_whitespace(c) {
            let q = ws_end(s, p);
            if p < q <= s.len() {
                lemma_root_items_starts(s, q);
                if let Ok(v) = root_items(s, q) {
                    lemma_has_starts_empty(s, p, q);
                    assert(Seq::<SpecToken>::empty() + tokens_of(v) =~= tokens_of(v));
                    lemma_has_starts_concat(s, Seq::empty(), tokens_of(v), p, q, s.len() as int);
                }
            }
        } else if c == ';' {
            let q = comment_end(s, p);
            if p < q <= s.len() {
                lemma_root_items_starts(s, q);
                if let Ok(v) = root_items(s, q) {
                    lemma_has_starts_empty(s, p, q);
                    assert(Seq::<SpecToken>::empty() + tokens_of(v) =~= tokens_of(v));
                    lemma_has_starts_concat(s, Seq::empty(), tokens_of(v), p, q, s.len() as int);
                }
            }
        } else if c == '(' {
            lemma_list_at_starts(s, p);
            if let Ok((a, q)) = list_at(s, p) {
                if p < q <= s.len() {
                    lemma_root_items_starts(s, q);
                    if let Ok(rest) = root_items(s, q) {
                        lemma_tokens_of_prepend(a, rest);
                        lemma_has_starts_concat(s, tokens_in(a), tokens_of(rest), p, q, s.len() as int);
                    }
                }
            }
        }
    }
}

} // verus!
