//! Bare lexemes that read as numbers.
use vstd::prelude::*;

verus! {

/// The pattern that a bare lexeme must match in full to read as an integer.
pub const INT_RE_RAW: &'static str = r"^[+-]?[0-9][0-9_]*$";

/// The pattern that a bare lexeme must match in full to read as a float.
pub const FLOAT_RE_RAW: &'static str = r"^[+-]?[0-9][0-9_]*\.[0-9][0-9_]*([eE][+-]?[0-9][0-9_]*)?$";

#[verifier::allow_in_spec]
pub fn is_digit(c: char) -> bool
    returns
        '0' <= c <= '9',
{
    '0' <= c && c <= '9'
}

/// A digit followed by any number of digits and underscores.
pub open spec fn digit_run(s: Seq<char>) -> bool {
    &&& s.len() >= 1
    &&& is_digit(s[0])
    &&& forall|i: int| 1 <= i < s.len() ==> is_digit(#[trigger] s[i]) || s[i] == '_'
}

pub open spec fn has_sign(s: Seq<char>) -> bool {
    s.len() > 0 && (s[0] == '+' || s[0] == '-')
}

/// `s` without its leading sign, if it has one.
pub open spec fn unsigned_part(s: Seq<char>) -> Seq<char> {
    if has_sign(s) {
        s.drop_first()
    } else {
        s
    }
}

/// The language of `INT_RE_RAW`: an optional sign, then a digit run.
pub open spec fn is_int_lexeme(s: Seq<char>) -> bool {
    digit_run(unsigned_part(s))
}

/// What follows the point of a float: a digit run, then optionally an
/// exponent mark and a signed digit run.
pub open spec fn is_fraction_and_exponent(t: Seq<char>) -> bool {
    ||| digit_run(t)
    ||| exists|j: int|
        0 < j < t.len() && (#[trigger] t[j] == 'e' || t[j] == 'E') && digit_run(t.take(j))
            && digit_run(unsigned_part(t.skip(j + 1)))
}

/// The language of `FLOAT_RE_RAW`: an optional sign, a digit run, a point,
/// and what `is_fraction_and_exponent` accepts.
pub open spec fn is_float_lexeme(s: Seq<char>) -> bool {
    let b = unsigned_part(s);
    exists|i: int|
        0 < i < b.len() && #[trigger] b[i] == '.' && digit_run(b.take(i))
            && is_fraction_and_exponent(b.skip(i + 1))
}

/// `s` with every underscore removed.
pub open spec fn without_underscores(s: Seq<char>) -> Seq<char>
    decreases s.len(),
{
    if s.len() == 0 {
        s
    } else if s.last() == '_' {
        without_underscores(s.drop_last())
    } else {
        without_underscores(s.drop_last()).push(s.last())
    }
}

/// The number that a string of decimal digits denotes.
pub open spec fn digits_value(s: Seq<char>) -> int
    decreases s.len(),
{
    if s.len() == 0 {
        0
    } else {
        10 * digits_value(s.drop_last()) + (s.last() as int - '0' as int)
    }
}

/// Whether `text` matches the regular expression `pattern`, by `regex::Regex::new`
/// then `regex::Regex::is_match`. Only the two patterns of this module are ever
/// compiled, and both are valid, so `Regex::new` does not fail. The contract
/// states, for each of them, the language that the regex crate's syntax gives
/// it: `^` and `$` anchor at the ends of the text (no multi-line flag), `[0-9]`
/// is the ten ASCII digits, `\.` a literal point.
#[verifier::external_body]
fn pattern_matches(pattern: &str, text: &str) -> (r: bool)
    requires
        pattern@ == INT_RE_RAW@ || pattern@ == FLOAT_RE_RAW@,
    ensures
        pattern@ == INT_RE_RAW@ ==> (r <==> is_int_lexeme(text@)),
        pattern@ == FLOAT_RE_RAW@ ==> (r <==> is_float_lexeme(text@)),
{
    regex::Regex::new(pattern).unwrap().is_match(text)
}

/// The characters of `s`, in order.
pub fn chars_of(s: &str) -> (v: Vec<char>)
    ensures
        v@ == s@,
{
    let mut v: Vec<char> = Vec::new();
    for c in it: s.chars()
        invariant
            v@ == it.seq().take(it.index() as int),
            it.seq() == s@,
    {
        v.push(c);
        assert(v@ =~= it.seq().take(it.index() + 1));
    }
    v
}

/// Every character of `s` is a decimal digit.
pub open spec fn all_digits(s: Seq<char>) -> bool {
    forall|i: int| 0 <= i < s.len() ==> is_digit(#[trigger] s[i])
}

/// What `check_integer` makes of a bare lexeme: nothing unless it is an
/// integer lexeme; else the magnitude (its digits read in base ten,
/// underscores ignored) and whether it is negative, as long as the value fits
/// an `i128` when negative and a `u128` otherwise.
pub open spec fn integer_check(s: Seq<char>) -> Result<Option<(u128, bool)>, Seq<char>> {
    if !is_int_lexeme(s) {
        Ok(None)
    } else {
        let v = digits_value(without_underscores(unsigned_part(s)));
        if s[0] == '-' {
            if v <= 0x8000_0000_0000_0000_0000_0000_0000_0000 {
                Ok(Some((v as u128, true)))
            } else {
                Err("too small"@)
            }
        } else {
            if v <= u128::MAX {
                Ok(Some((v as u128, false)))
            } else {
                Err("too big"@)
            }
        }
    }
}

pub proof fn lemma_without_underscores_digits(s: Seq<char>)
    requires
        forall|i: int| 0 <= i < s.len() ==> is_digit(#[trigger] s[i]) || s[i] == '_',
    ensures
        all_digits(without_underscores(s)),
    decreases s.len(),
{
    if s.len() > 0 {
        lemma_without_underscores_digits(s.drop_last());
    }
}

pub proof fn lemma_without_underscores_concat(a: Seq<char>, b: Seq<char>)
    ensures
        without_underscores(a + b) == without_underscores(a) + without_underscores(b),
    decreases b.len(),
{
    if b.len() == 0 {
        assert(a + b =~= a);
        assert(without_underscores(b) =~= b);
    } else {
        lemma_without_underscores_concat(a, b.drop_last());
        assert((a + b).drop_last() =~= a + b.drop_last());
        assert((a + b).last() == b.last());
        if b.last() != '_' {
            assert(without_underscores(a) + without_underscores(b.drop_last()).push(b.last())
                =~= (without_underscores(a) + without_underscores(b.drop_last())).push(b.last()));
        }
    }
}

pub proof fn lemma_digits_value_nonneg(s: Seq<char>)
    requires
        all_digits(s),
    ensures
        digits_value(s) >= 0,
    decreases s.len(),
{
    if s.len() > 0 {
        lemma_digits_value_nonneg(s.drop_last());
    }
}

/// Appending digits never makes a number smaller.
pub proof fn lemma_digits_value_grows(a: Seq<char>, b: Seq<char>)
    requires
        all_digits(a),
        all_digits(b),
    ensures
        digits_value(a + b) >= digits_value(a),
    decreases b.len(),
{
    lemma_digits_value_nonneg(a);
    if b.len() == 0 {
        assert(a + b =~= a);
    } else {
        lemma_digits_value_grows(a, b.drop_last());
        assert((a + b).drop_last() =~= a + b.drop_last());
        assert((a + b).last() == b.last());
        assert(is_digit(b[b.len() - 1]));
    }
}

/// Removing underscores from what has none changes nothing.
pub proof fn lemma_without_underscores_idempotent(s: Seq<char>)
    requires
        forall|i: int| 0 <= i < s.len() ==> #[trigger] s[i] != '_',
    ensures
        without_underscores(s) == s,
    decreases s.len(),
{
    if s.len() > 0 {
        lemma_without_underscores_idempotent(s.drop_last());
        assert(s.drop_last().push(s.last()) =~= s);
    }
}

/// Underscores in an integer lexeme do not count: without them it is still an
/// integer lexeme and reads as the same number.
pub proof fn law_integer_underscores_ignored(s: Seq<char>)
    requires
        is_int_lexeme(s),
    ensures
        is_int_lexeme(without_underscores(s)),
        integer_check(without_underscores(s)) == integer_check(s),
{
    let u = unsigned_part(s);
    let w = without_underscores(u);
    lemma_without_underscores_digits(u);
    lemma_without_underscores_concat(seq![u[0]], u.drop_first());
    assert(seq![u[0]] + u.drop_first() =~= u);
    assert(without_underscores(seq![u[0]]) =~= seq![u[0]]) by {
        let one = seq![u[0]];
        assert(one.drop_last() =~= Seq::<char>::empty());
        assert(one.last() == u[0] && u[0] != '_');
        assert(without_underscores(one.drop_last()) =~= Seq::<char>::empty());
        assert(Seq::<char>::empty().push(u[0]) =~= one);
    }
    assert(w[0] == u[0]);
    assert(forall|i: int| 0 <= i < w.len() ==> #[trigger] w[i] != '_');
    lemma_without_underscores_idempotent(w);
    if has_sign(s) {
        lemma_without_underscores_concat(seq![s[0]], u);
        assert(seq![s[0]] + u =~= s);
        assert(without_underscores(seq![s[0]]) =~= seq![s[0]]) by {
            let one = seq![s[0]];
            assert(one.drop_last() =~= Seq::<char>::empty());
            assert(one.last() == s[0] && s[0] != '_');
            assert(without_underscores(one.drop_last()) =~= Seq::<char>::empty());
            assert(Seq::<char>::empty().push(s[0]) =~= one);
        }
        assert(without_underscores(s) =~= seq![s[0]] + w);
        assert(unsigned_part(without_underscores(s)) =~= w);
    } else {
        assert(unsigned_part(without_underscores(s)) =~= w);
    }
    assert(digit_run(w));
}

/// The integer that a bare lexeme denotes, if it is written as an integer:
/// `Ok(None)` when it does not match `INT_RE_RAW`; `Ok(Some((magnitude, negative)))`
/// when the value fits; `Err("too small")` for a negative value below `i128::MIN`,
/// `Err("too big")` for a value above `u128::MAX`.
pub fn check_integer(s: &str) -> (r: Result<Option<(u128, bool)>, &'static str>)
    ensures
        match integer_check(s@) {
            Ok(x) => r == Ok::<Option<(u128, bool)>, &'static str>(x),
            Err(m) => r matches Err(e) && e@ == m,
        },
{
    if !pattern_matches(INT_RE_RAW, s) {
        return Ok(None);
    }
    let t = chars_of(s);
    let negative = t[0] == '-';
    let start: usize = if t[0] == '+' || t[0] == '-' { 1 } else { 0 };
    let limit: u128 = if negative { 0x8000_0000_0000_0000_0000_0000_0000_0000 } else { u128::MAX };
    let ghost digits = unsigned_part(s@);
    assert(digits =~= t@.subrange(start as int, t@.len() as int));
    proof {
        lemma_without_underscores_digits(digits);
    }
    let mut v: u128 = 0;
    let mut i: usize = start;
    while i < t.len()
        invariant
            t@ == s@,
            is_int_lexeme(s@),
            digits == t@.subrange(start as int, t@.len() as int),
            digits == unsigned_part(s@),
            start <= i <= t.len(),
            negative == (s@[0] == '-'),
            limit == if negative { 0x8000_0000_0000_0000_0000_0000_0000_0000u128 } else { u128::MAX },
            v as int == digits_value(without_underscores(t@.subrange(start as int, i as int))),
            v <= limit,
        decreases t.len() - i,
    {
        let c = t[i];
        let ghost before = t@.subrange(start as int, i as int);
        let ghost upto = t@.subrange(start as int, i + 1);
        assert(upto.drop_last() =~= before);
        assert(c == digits[i - start]);
        if c != '_' {
            assert(is_digit(c));
            let d: u128 = (c as u32 - '0' as u32) as u128;
            let next = match v.checked_mul(10) {
                Some(m) => m.checked_add(d),
                None => None,
            };
            let fits = match next {
                Some(n) => n <= limit,
                None => false,
            };
            assert(upto.last() == c);
            assert(without_underscores(upto) == without_underscores(before).push(c));
            assert(without_underscores(upto).drop_last() =~= without_underscores(before));
            assert(d as int == c as int - '0' as int);
            assert(digits_value(without_underscores(upto)) == 10 * v + d);
            if !fits {
                assert(10 * v + d > limit);
                proof {
                    let rest = t@.subrange(i + 1, t@.len() as int);
                    assert(digits =~= upto + rest);
                    lemma_without_underscores_concat(upto, rest);
                    lemma_without_underscores_digits(upto);
                    assert forall|k: int| 0 <= k < rest.len() implies is_digit(#[trigger] rest[k])
                        || rest[k] == '_' by {
                        assert(rest[k] == digits[k + i + 1 - start]);
                    }
                    lemma_without_underscores_digits(rest);
                    lemma_digits_value_grows(without_underscores(upto), without_underscores(rest));
                    assert(digits_value(without_underscores(digits)) > limit);
                }
                if negative {
                    return Err("too small");
                } else {
                    return Err("too big");
                }
            }
            v = match next {
                Some(n) => n,
                None => 0,
            };
        }
        i += 1;
    }
    assert(t@.subrange(start as int, i as int) =~= digits);
    Ok(Some((v, negative)))
}

/// The decimal text of a float lexeme with its underscores removed, or `None`
/// when the lexeme does not match `FLOAT_RE_RAW`.
pub fn check_float(s: &str) -> (r: Option<String>)
    ensures
        match r {
            Some(t) => is_float_lexeme(s@) && t@ == without_underscores(s@),
            None => !is_float_lexeme(s@),
        },
{
    if !pattern_matches(FLOAT_RE_RAW, s) {
        return None;
    }
    Some(strip_underscores(s))
}

/// `s` with its underscores removed.
pub fn strip_underscores(s: &str) -> (r: String)
    ensures
        r@ == without_underscores(s@),
{
    let t = chars_of(s);
    let mut out = String::new();
    let mut i: usize = 0;
    while i < t.len()
        invariant
            t@ == s@,
            i <= t.len(),
            out@ == without_underscores(t@.take(i as int)),
        decreases t.len() - i,
    {
        assert(t@.take(i + 1).drop_last() =~= t@.take(i as int));
        if t[i] != '_' {
            out.push(t[i]);
        }
        i += 1;
    }
    assert(t@.take(i as int) =~= s@);
    out
}

/// `String::push`: appends one character.
pub assume_specification[ String::push ](s: &mut String, ch: char)
    ensures
        final(s)@ == old(s)@.push(ch),
;

} // verus!
