//! What holds of every result that reading yields.
use vstd::prelude::*;
use crate::ast::{SpecAst, SpecParseError, SpecTokenValue};
use crate::grammar::{blank_from, string_body, list_at, list_items, parse_result, root_items, token_at};
use crate::stability::{lemma_blank_shift, lemma_root_items_blank_tail};
use crate::lexeme::{integer_check, is_float_lexeme, is_int_lexeme, without_underscores};
use crate::one_token::{
    in_list, is_bare, lemma_bare_in_list, lemma_first_position, lemma_in_list_index, lemma_one_item,
    lemma_plain_string_body, one_token,
};
use crate::token_order::{lemma_root_items_starts, starts_of, tokens_of};

verus! {

/// Every leaf of `a` is the token that reading `code` yields at some position
/// of it; so the leaf's line and column are those of that position.
pub open spec fn leaves_read_from(code: Seq<char>, a: SpecAst) -> bool
    decreases a,
{
    match a {
        SpecAst::Leaf(_) => exists|p: int|
            0 <= p < code.len() && (#[trigger] token_at(code, p) matches Ok((b, _)) && b == a),
        SpecAst::Edge(items) => forall|i: int|
            0 <= i < items.len() ==> leaves_read_from(code, #[trigger] items[i]),
    }
}

proof fn lemma_list_items_leaves(s: Seq<char>, p: int, start: int)
    ensures
        list_items(s, p, start) matches Ok((v, _)) ==> forall|i: int|
            0 <= i < v.len() ==> leaves_read_from(s, #[trigger] v[i]),
    decreases s.len() - p, 1int,
{
    if 0 <= p < s.len() {
        let c = s[p];
        if crate::position::is_whitespace(c) {
            let q = crate::position::ws_end(s, p);
            if p < q <= s.len() {
                lemma_list_items_leaves(s, q, start);
            }
        } else if c == ';' {
            let q = crate::position::comment_end(s, p);
            if p < q <= s.len() {
                lemma_list_items_leaves(s, q, start);
            }
        } else if c != ')' {
            let item = if c == '(' {
                list_at(s, p)
            } else {
                token_at(s, p)
            };
            if let Ok((a, q)) = item {
                if p < q <= s.len() {
                    if c == '(' {
                        lemma_list_at_leaves(s, p);
                    } else {
                        assert(leaves_read_from(s, a));
                    }
                    lemma_list_items_leaves(s, q, start);
                    if let Ok((rest, r)) = list_items(s, q, start) {
                        let v = seq![a] + rest;
                        assert forall|i: int| 0 <= i < v.len() implies leaves_read_from(s, #[trigger] v[i]) by {
                            if i > 0 {
                                assert(v[i] == rest[i - 1]);
                            }
                        }
                    }
                }
            }
        }
    }
}

proof fn lemma_list_at_leaves(s: Seq<char>, p: int)
    ensures
        list_at(s, p) matches Ok((a, _)) ==> leaves_read_from(s, a),
    decreases s.len() - p, 0int,
{
    if 0 <= p < s.len() {
        lemma_list_items_leaves(s, p + 1, p);
    }
}

proof fn lemma_root_items_shape(s: Seq<char>, p: int)
    ensures
        root_items(s, p) matches Ok(v) ==> forall|i: int|
            0 <= i < v.len() ==> (#[trigger] v[i] is Edge) && leaves_read_from(s, v[i]),
    decreases s.len() - p,
{
    if 0 <= p < s.len() {
        let c = s[p];
        if crate::position::is_whitespace(c) {
            let q = crate::position::ws_end(s, p);
            if p < q <= s.len() {
                lemma_root_items_shape(s, q);
            }
        } else if c == ';' {
            let q = crate::position::comment_end(s, p);
            if p < q <= s.len() {
                lemma_root_items_shape(s, q);
            }
        } else if c == '(' {
            lemma_list_at_leaves(s, p);
            if let Ok((a, q)) = list_at(s, p) {
                if p < q <= s.len() {
                    lemma_root_items_shape(s, q);
                    if let Ok(rest) = root_items(s, q) {
                        let v = seq![a] + rest;
                        assert forall|i: int| 0 <= i < v.len() implies (#[trigger] v[i] is Edge)
                            && leaves_read_from(s, v[i]) by {
                            if i > 0 {
                                assert(v[i] == rest[i - 1]);
                            }
                        }
                    }
                }
            }
        }
    }
}

/// Reading yields only lists on the top level, and every token in them is
/// the token read at a position of the input, with that position's line and
/// column.
pub proof fn law_parse_yields_lists_of_read_tokens(code: Seq<char>)
    ensures
        parse_result(code) matches Ok(v) ==> forall|i: int|
            0 <= i < v.len() ==> (#[trigger] v[i] is Edge) && leaves_read_from(code, v[i]),
{
    lemma_root_items_shape(code, 0);
}

/// `t` holds only whitespace and comments.
pub open spec fn is_blank(t: Seq<char>) -> bool {
    blank_from(t, 0)
}

/// Whitespace and comments appended after a text that reads change nothing
/// of what it reads, line and column of every token included.
pub proof fn law_trailing_blank_changes_nothing(code: Seq<char>, tail: Seq<char>)
    requires
        parse_result(code) is Ok,
        is_blank(tail),
    ensures
        parse_result(code + tail) == parse_result(code),
{
    lemma_blank_shift(code, tail, 0);
    lemma_root_items_blank_tail(code, tail, 0);
}

/// The tokens of what reading `code` yields, taken depth first and left to
/// right, start at increasing positions of `code`; each is the token read at
/// its position, that position is where the token's text begins (its opening
/// quote, or a character right after a delimiter), and the token carries that
/// position's line and column.
pub proof fn law_tokens_start_in_source_order(code: Seq<char>)
    ensures
        parse_result(code) matches Ok(v) ==> exists|ps: Seq<int>|
            #[trigger] starts_of(code, tokens_of(v), 0, code.len() as int, ps),
{
    lemma_root_items_starts(code, 0);
}

/// The character that a backslash followed by `c` stands for: `\n`, `\r`,
/// `\t`, `\\`, `\0`, `\'` and `\"`.
pub open spec fn escape_meaning(c: char) -> Option<char> {
    if c == 'n' {
        Some('\n')
    } else if c == 'r' {
        Some('\r')
    } else if c == 't' {
        Some('\t')
    } else if c == '\\' {
        Some('\\')
    } else if c == '0' {
        Some('\0')
    } else if c == '\'' {
        Some('\'')
    } else if c == '"' {
        Some('"')
    } else {
        None
    }
}

/// An escape stands for the same character in a character literal and in a
/// string literal: `('\c')` reads as the one character `m`, and `("\c")` as
/// the string of that one character.
pub proof fn law_escapes_read_alike(c: char, m: char)
    requires
        escape_meaning(c) == Some(m),
    ensures
        parse_result(in_list(seq!['\'', '\\', c, '\''])) == one_token(SpecTokenValue::Char(m)),
        parse_result(in_list(seq!['"', '\\', c, '"'])) == one_token(SpecTokenValue::Str(seq![m])),
{
    let b1 = seq!['\'', '\\', c, '\''];
    let s1 = in_list(b1);
    lemma_in_list_index(b1);
    lemma_first_position(b1);
    assert(s1[2] == '\\' && s1[3] == c && s1[4] == '\'');
    lemma_one_item(b1, crate::grammar::leaf(SpecTokenValue::Char(m), 1, 2));

    let b2 = seq!['"', '\\', c, '"'];
    let s2 = in_list(b2);
    lemma_in_list_index(b2);
    lemma_first_position(b2);
    assert(s2[2] == '\\' && s2[3] == c && s2[4] == '"');
    assert(string_body(s2, 4, 1, 2) == Ok::<(Seq<char>, int), SpecParseError>((Seq::empty(), 5)));
    assert(seq![m] + Seq::<char>::empty() =~= seq![m]);
    lemma_one_item(b2, crate::grammar::leaf(SpecTokenValue::Str(seq![m]), 1, 2));
}

/// A string literal carries its characters unchanged and in order, as long as
/// none of them is a quote, a backslash or a line break.
pub proof fn law_plain_string_kept(t: Seq<char>)
    requires
        forall|k: int|
            0 <= k < t.len() ==> #[trigger] t[k] != '"' && t[k] != '\\' && t[k] != '\r' && t[k] != '\n',
    ensures
        parse_result(in_list(seq!['"'] + t + seq!['"'])) == one_token(SpecTokenValue::Str(t)),
{
    let b = seq!['"'] + t + seq!['"'];
    lemma_in_list_index(b);
    lemma_first_position(b);
    lemma_plain_string_body(t, 0);
    assert(t.skip(0) =~= t);
    assert(b.len() == t.len() + 2);
    lemma_one_item(b, crate::grammar::leaf(SpecTokenValue::Str(t), 1, 2));
}

/// A bare lexeme that matches the integer pattern and fits reads as that
/// integer, whatever its sign: never as a symbol.
pub proof fn law_integer_lexeme_reads_as_int(x: Seq<char>, v: u128, negative: bool)
    requires
        is_bare(x),
        integer_check(x) == Ok::<Option<(u128, bool)>, Seq<char>>(Some((v, negative))),
    ensures
        parse_result(in_list(x)) == one_token(SpecTokenValue::Int(v, negative)),
{
    lemma_bare_in_list(x, SpecTokenValue::Int(v, negative));
}

/// A bare lexeme that is no integer and matches the float pattern reads as a
/// float carrying its text without underscores; the case of the exponent
/// mark does not matter.
pub proof fn law_float_lexeme_reads_as_float(x: Seq<char>)
    requires
        is_bare(x),
        !is_int_lexeme(x),
        is_float_lexeme(x),
    ensures
        parse_result(in_list(x)) == one_token(SpecTokenValue::Float(without_underscores(x))),
{
    lemma_bare_in_list(x, SpecTokenValue::Float(without_underscores(x)));
}

/// A bare lexeme that is neither an integer nor a float reads as a symbol
/// whose text is the lexeme, character for character.
pub proof fn law_other_lexeme_reads_as_symbol(x: Seq<char>)
    requires
        is_bare(x),
        !is_int_lexeme(x),
        !is_float_lexeme(x),
    ensures
        parse_result(in_list(x)) == one_token(SpecTokenValue::Sym(x)),
{
    lemma_bare_in_list(x, SpecTokenValue::Sym(x));
}

} // verus!
