//! Character classes of the surface syntax, and how a run of characters
//! moves a (line, column) position.
use vstd::prelude::*;

verus! {

/// A space inside a line.
#[verifier::allow_in_spec]
pub fn is_space(c: char) -> bool
    returns
        c == ' ' || c == '\t',
{
    c == ' ' || c == '\t'
}

/// A character that ends a line: `\r`, `\n` (a `\r\n` pair ends one line).
#[verifier::allow_in_spec]
pub fn is_newline(c: char) -> bool
    returns
        c == '\r' || c == '\n',
{
    c == '\r' || c == '\n'
}

#[verifier::allow_in_spec]
pub fn is_whitespace(c: char) -> bool
    returns
        is_space(c) || is_newline(c),
{
    is_space(c) || is_newline(c)
}

/// A character that ends a bare token.
#[verifier::allow_in_spec]
pub fn is_delimiter(c: char) -> bool
    returns
        c == '(' || c == ')' || c == ';' || c == '"' || c == '\'' || is_whitespace(c),
{
    c == '(' || c == ')' || c == ';' || c == '"' || c == '\'' || is_whitespace(c)
}

/// The (line, column) reached from (`ln`, `cn`) after reading `s`: a line
/// break (`\n`, `\r`, or a `\r\n` pair read as one) moves to column 1 of the
/// next line; any other character moves one column right.
pub open spec fn track(ln: int, cn: int, s: Seq<char>) -> (int, int)
    decreases s.len(),
{
    if s.len() == 0 {
        (ln, cn)
    } else {
        let (l, c) = track(ln, cn, s.drop_last());
        let last = s.last();
        if last == '\n' && s.len() >= 2 && s[s.len() - 2] == '\r' {
            (l, c)
        } else if is_newline(last) {
            (l + 1, 1)
        } else {
            (l, c + 1)
        }
    }
}

/// Reading `s` from (`ln`, `cn`) never takes the line or the column past `usize::MAX`.
pub open spec fn track_fits(ln: int, cn: int, s: Seq<char>) -> bool
    decreases s.len(),
{
    &&& track(ln, cn, s).0 <= usize::MAX
    &&& track(ln, cn, s).1 <= usize::MAX
    &&& (s.len() > 0 ==> track_fits(ln, cn, s.drop_last()))
}

/// The line and column (both counted from 1) of position `p` of `code`.
pub open spec fn line_col(code: Seq<char>, p: int) -> (int, int) {
    track(1, 1, code.take(p))
}

/// Position `p` does not fall between the two characters of a `\r\n` pair.
pub open spec fn not_inside_crlf(code: Seq<char>, p: int) -> bool {
    !(0 < p < code.len() && code[p - 1] == '\r' && code[p] == '\n')
}

/// How many characters the line break at `i` takes: two for `\r\n`, else one.
pub open spec fn newline_len(s: Seq<char>, i: int) -> int {
    if s[i] == '\r' && i + 1 < s.len() && s[i + 1] == '\n' {
        2
    } else {
        1
    }
}

/// The end of the run of whitespace that starts at `i`.
pub open spec fn ws_end(s: Seq<char>, i: int) -> int
    decreases s.len() - i,
{
    if 0 <= i < s.len() && is_whitespace(s[i]) {
        ws_end(s, i + 1)
    } else {
        i
    }
}

/// The end of a comment that starts at `i`: just past the first line break, or
/// the end of the input.
pub open spec fn comment_end(s: Seq<char>, i: int) -> int
    decreases s.len() - i,
{
    if i < 0 || i >= s.len() {
        i
    } else if is_newline(s[i]) {
        i + newline_len(s, i)
    } else {
        comment_end(s, i + 1)
    }
}

pub proof fn lemma_track_bounds(ln: int, cn: int, s: Seq<char>)
    requires
        cn >= 1,
    ensures
        ln <= track(ln, cn, s).0 <= ln + s.len(),
        1 <= track(ln, cn, s).1 <= cn + s.len(),
    decreases s.len(),
{
    if s.len() > 0 {
        lemma_track_bounds(ln, cn, s.drop_last());
    }
}

pub proof fn lemma_track_fits(ln: int, cn: int, s: Seq<char>)
    requires
        cn >= 1,
        ln + s.len() <= usize::MAX,
        cn + s.len() <= usize::MAX,
    ensures
        track_fits(ln, cn, s),
    decreases s.len(),
{
    lemma_track_bounds(ln, cn, s);
    if s.len() > 0 {
        lemma_track_fits(ln, cn, s.drop_last());
    }
}

/// Every prefix of a run that fits, fits.
pub proof fn lemma_track_fits_prefix(ln: int, cn: int, s: Seq<char>, k: int)
    requires
        track_fits(ln, cn, s),
        0 <= k <= s.len(),
    ensures
        track_fits(ln, cn, s.take(k)),
        track(ln, cn, s.take(k)).0 <= usize::MAX,
        track(ln, cn, s.take(k)).1 <= usize::MAX,
    decreases s.len(),
{
    if k == s.len() {
        assert(s.take(k) =~= s);
    } else {
        assert(s.drop_last().take(k) =~= s.take(k));
        lemma_track_fits_prefix(ln, cn, s.drop_last(), k);
    }
}

/// Reading `a` and then `b` is reading `a + b`, unless `a` ends inside a `\r\n` pair that `b` completes.
pub proof fn lemma_track_concat(ln: int, cn: int, a: Seq<char>, b: Seq<char>)
    requires
        !(a.len() > 0 && b.len() > 0 && a.last() == '\r' && b[0] == '\n'),
    ensures
        track(ln, cn, a + b) == track(track(ln, cn, a).0, track(ln, cn, a).1, b),
    decreases b.len(),
{
    if b.len() == 0 {
        assert(a + b =~= a);
    } else {
        lemma_track_concat(ln, cn, a, b.drop_last());
        assert((a + b).drop_last() =~= a + b.drop_last());
        if b.len() == 1 {
            assert((a + b).last() == b.last());
        } else {
            assert((a + b)[(a + b).len() - 2] == b[b.len() - 2]);
        }
    }
}

/// Extending a run by one character.
pub proof fn lemma_track_push(ln: int, cn: int, s: Seq<char>, c: char)
    ensures
        track(ln, cn, s.push(c)) == ({
            let (l, k) = track(ln, cn, s);
            if c == '\n' && s.len() >= 1 && s.last() == '\r' {
                (l, k)
            } else if is_newline(c) {
                (l + 1, 1)
            } else {
                (l, k + 1)
            }
        }),
{
    assert(s.push(c).drop_last() =~= s);
}

/// What fits when read in one go still fits when read from the middle.
pub proof fn lemma_track_fits_suffix(ln: int, cn: int, a: Seq<char>, b: Seq<char>)
    requires
        track_fits(ln, cn, a + b),
        !(a.len() > 0 && b.len() > 0 && a.last() == '\r' && b[0] == '\n'),
    ensures
        track_fits(track(ln, cn, a).0, track(ln, cn, a).1, b),
    decreases b.len(),
{
    lemma_track_concat(ln, cn, a, b);
    if b.len() > 0 {
        assert((a + b).drop_last() =~= a + b.drop_last());
        lemma_track_fits_suffix(ln, cn, a, b.drop_last());
    }
}

/// The line and column of `q` follow from those of an earlier `p` by reading what lies between.
pub proof fn lemma_line_col_step(s: Seq<char>, p: int, q: int)
    requires
        0 <= p <= q <= s.len(),
        not_inside_crlf(s, p),
    ensures
        line_col(s, q) == track(line_col(s, p).0, line_col(s, p).1, s.subrange(p, q)),
{
    assert(s.take(q) =~= s.take(p) + s.subrange(p, q));
    if p < q && p > 0 {
        assert(s.take(p).last() == s[p - 1]);
        assert(s.subrange(p, q)[0] == s[p]);
    }
    lemma_track_concat(1, 1, s.take(p), s.subrange(p, q));
}

/// In an input shorter than `usize::MAX`, reading from any position on never overflows.
pub proof fn lemma_line_col_fits(s: Seq<char>, p: int, q: int)
    requires
        0 <= p <= q <= s.len(),
        s.len() < usize::MAX,
    ensures
        track_fits(line_col(s, p).0, line_col(s, p).1, s.subrange(p, q)),
        1 <= line_col(s, p).0 <= p + 1,
        1 <= line_col(s, p).1 <= p + 1,
{
    lemma_track_bounds(1, 1, s.take(p));
    lemma_track_fits(line_col(s, p).0, line_col(s, p).1, s.subrange(p, q));
}

/// Reading characters that are no line breaks only moves the column.
pub proof fn lemma_track_plain(ln: int, cn: int, s: Seq<char>)
    requires
        forall|i: int| 0 <= i < s.len() ==> !is_newline(#[trigger] s[i]),
    ensures
        track(ln, cn, s) == (ln, cn + s.len()),
    decreases s.len(),
{
    if s.len() > 0 {
        lemma_track_plain(ln, cn, s.drop_last());
    }
}

/// Stepping over one character, or over one line break, from a position
/// that is not inside a `\r\n` pair.
pub proof fn lemma_line_col_next(s: Seq<char>, p: int)
    requires
        0 <= p < s.len() < usize::MAX,
        not_inside_crlf(s, p),
    ensures
        line_col(s, p).0 < usize::MAX,
        line_col(s, p).1 < usize::MAX,
        !is_newline(s[p]) ==> line_col(s, p + 1) == (line_col(s, p).0, line_col(s, p).1 + 1),
        is_newline(s[p]) ==> line_col(s, p + newline_len(s, p)) == (line_col(s, p).0 + 1, 1int),
{
    let (l, c) = line_col(s, p);
    lemma_line_col_fits(s, p, p + 1);
    lemma_track_push(l, c, s.subrange(p, p), s[p]);
    assert(s.subrange(p, p).push(s[p]) =~= s.subrange(p, p + 1));
    lemma_line_col_step(s, p, p + newline_len(s, p));
    if newline_len(s, p) == 2 {
        lemma_track_push(l, c, s.subrange(p, p + 1), s[p + 1]);
        assert(s.subrange(p, p + 1).push(s[p + 1]) =~= s.subrange(p, p + 2));
    }
}

pub proof fn lemma_ws_end(s: Seq<char>, i: int)
    requires
        0 <= i <= s.len(),
    ensures
        i <= ws_end(s, i) <= s.len(),
        forall|j: int| i <= j < ws_end(s, i) ==> is_whitespace(#[trigger] s[j]),
        ws_end(s, i) == s.len() || !is_whitespace(s[ws_end(s, i)]),
    decreases s.len() - i,
{
    if i < s.len() && is_whitespace(s[i]) {
        lemma_ws_end(s, i + 1);
    }
}

pub proof fn lemma_comment_end(s: Seq<char>, i: int)
    requires
        0 <= i <= s.len(),
    ensures
        i <= comment_end(s, i) <= s.len(),
        i < s.len() ==> i < comment_end(s, i),
    decreases s.len() - i,
{
    if i < s.len() && !is_newline(s[i]) {
        lemma_comment_end(s, i + 1);
    }
}

/// A comment never ends inside a `\r\n` pair.
pub proof fn lemma_comment_end_boundary(s: Seq<char>, i: int)
    requires
        0 <= i <= s.len(),
    ensures
        not_inside_crlf(s, comment_end(s, i)),
    decreases s.len() - i,
{
    if i < s.len() && !is_newline(s[i]) {
        lemma_comment_end_boundary(s, i + 1);
    }
}

} // verus!
