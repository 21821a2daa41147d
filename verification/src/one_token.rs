//! How a list that holds one token reads.
use vstd::prelude::*;
use crate::ast::{SpecAst, SpecParseError, SpecToken, SpecTokenValue};
use crate::grammar::{
    classify, leaf, list_at, list_items, parse_result, root_items, string_body, token_at, token_end,
};
use crate::position::{is_delimiter, line_col, track};

verus! {

/// `body` in parentheses.
pub open spec fn in_list(body: Seq<char>) -> Seq<char> {
    seq!['('] + body + seq![')']
}

/// One list, holding one token with value `v` at line 1, column 2.
pub open spec fn one_token(v: SpecTokenValue) -> Result<Seq<SpecAst>, SpecParseError> {
    Ok(seq![SpecAst::Edge(seq![SpecAst::Leaf(SpecToken { v, ln: 1, cn: 2 })])])
}

/// A bare lexeme: some characters, none of them a delimiter.
pub open spec fn is_bare(x: Seq<char>) -> bool {
    x.len() > 0 && forall|i: int| 0 <= i < x.len() ==> !is_delimiter(#[trigger] x[i])
}

pub proof fn lemma_in_list_index(body: Seq<char>)
    ensures
        in_list(body).len() == body.len() + 2,
        in_list(body)[0] == '(',
        in_list(body)[body.len() as int + 1] == ')',
        forall|i: int| 0 <= i < body.len() ==> #[trigger] in_list(body)[i + 1] == body[i],
{
}

/// The token just inside the left paren stands at line 1, column 2.
pub proof fn lemma_first_position(body: Seq<char>)
    ensures
        line_col(in_list(body), 1) == (1int, 2int),
{
    let s = in_list(body);
    assert(s.take(1) =~= seq!['(']);
    assert(seq!['('].drop_last() =~= Seq::<char>::empty());
    assert(track(1, 1, Seq::<char>::empty()) == (1int, 1int));
}

/// A list whose only content is a token that reads up to the right paren
/// reads as one list holding that token.
pub proof fn lemma_one_item(body: Seq<char>, a: SpecAst)
    requires
        body.len() >= 1,
        body[0] != '(' && body[0] != ')' && body[0] != ';' && !crate::position::is_whitespace(body[0]),
        token_at(in_list(body), 1) == Ok::<(SpecAst, int), SpecParseError>((a, body.len() as int + 1)),
    ensures
        parse_result(in_list(body)) == Ok::<Seq<SpecAst>, SpecParseError>(seq![SpecAst::Edge(seq![a])]),
{
    let s = in_list(body);
    let n = body.len() as int;
    lemma_in_list_index(body);
    assert(s[1] == body[0]);
    assert(list_items(s, n + 1, 0) == Ok::<(Seq<SpecAst>, int), SpecParseError>((Seq::empty(), n + 2)));
    assert(seq![a] + Seq::<SpecAst>::empty() =~= seq![a]);
    assert(list_items(s, 1, 0) == Ok::<(Seq<SpecAst>, int), SpecParseError>((seq![a], n + 2)));
    assert(list_at(s, 0) == Ok::<(SpecAst, int), SpecParseError>((SpecAst::Edge(seq![a]), n + 2)));
    assert(root_items(s, n + 2) == Ok::<Seq<SpecAst>, SpecParseError>(Seq::empty()));
    assert(seq![SpecAst::Edge(seq![a])] + Seq::<SpecAst>::empty() =~= seq![SpecAst::Edge(seq![a])]);
}

proof fn lemma_bare_token_end(body: Seq<char>, i: int)
    requires
        is_bare(body),
        0 <= i <= body.len(),
    ensures
        token_end(in_list(body), i + 1) == body.len() + 1,
    decreases body.len() - i,
{
    lemma_in_list_index(body);
    if i < body.len() {
        assert(in_list(body)[i + 1] == body[i]);
        lemma_bare_token_end(body, i + 1);
    }
}

/// A bare lexeme in parentheses reads as the token that `classify` makes of it.
pub proof fn lemma_bare_in_list(x: Seq<char>, v: SpecTokenValue)
    requires
        is_bare(x),
        classify(x, 1, 2) == Ok::<SpecTokenValue, SpecParseError>(v),
    ensures
        parse_result(in_list(x)) == one_token(v),
{
    let s = in_list(x);
    lemma_in_list_index(x);
    lemma_first_position(x);
    lemma_bare_token_end(x, 0);
    assert(s[1] == x[0]);
    assert(!is_delimiter(x[0]));
    assert(s.subrange(1, x.len() as int + 1) =~= x);
    assert(token_at(s, 1) == Ok::<(SpecAst, int), SpecParseError>((leaf(v, 1, 2), x.len() as int + 1)));
    lemma_one_item(x, leaf(v, 1, 2));
}

/// A string literal whose characters need no reading carries them as they are.
pub proof fn lemma_plain_string_body(t: Seq<char>, i: int)
    requires
        0 <= i <= t.len(),
        forall|k: int|
            0 <= k < t.len() ==> #[trigger] t[k] != '"' && t[k] != '\\' && t[k] != '\r' && t[k] != '\n',
    ensures
        string_body(in_list(seq!['"'] + t + seq!['"']), i + 2, 1, 2) == Ok::<(Seq<char>, int), SpecParseError>(
            (t.skip(i), t.len() as int + 3),
        ),
    decreases t.len() - i,
{
    let body = seq!['"'] + t + seq!['"'];
    let s = in_list(body);
    lemma_in_list_index(body);
    if i == t.len() {
        assert(s[i + 2] == body[i + 1]);
        assert(t.skip(i) =~= Seq::<char>::empty());
    } else {
        assert(s[i + 2] == body[i + 1]);
        assert(body[i + 1] == t[i]);
        lemma_plain_string_body(t, i + 1);
        assert(seq![t[i]] + t.skip(i + 1) =~= t.skip(i));
    }
}

} // verus!
