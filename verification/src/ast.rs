//! The trees that reading yields, the errors it reports, and their views.
use vstd::prelude::*;

verus! {

/// The value a token carries.
#[derive(Debug, PartialEq)]
pub enum TokenValue {
    /// A bare lexeme that is no number.
    Sym(String),
    /// An integer: its magnitude, and whether it is negative.
    Int(u128, bool),
    /// A float: its decimal text with the underscores removed.
    Float(String),
    /// The contents of a string literal, escapes resolved.
    Str(String),
    /// The character of a character literal.
    Char(char),
}

/// A token and the line and column (both counted from 1) where it starts.
#[derive(Debug, PartialEq)]
pub struct Token {
    pub v: TokenValue,
    pub ln: usize,
    pub cn: usize,
}

/// A list (`Edge`) of trees, or a token (`Leaf`).
#[derive(Debug, PartialEq)]
pub enum Ast {
    Edge(Vec<Ast>),
    Leaf(Token),
}

pub enum SpecTokenValue {
    Sym(Seq<char>),
    Int(u128, bool),
    Float(Seq<char>),
    Str(Seq<char>),
    Char(char),
}

pub struct SpecToken {
    pub v: SpecTokenValue,
    pub ln: nat,
    pub cn: nat,
}

pub enum SpecAst {
    Edge(Seq<SpecAst>),
    Leaf(SpecToken),
}

impl View for TokenValue {
    type V = SpecTokenValue;

    open spec fn view(&self) -> SpecTokenValue {
        match self {
            TokenValue::Sym(s) => SpecTokenValue::Sym(s@),
            TokenValue::Int(v, n) => SpecTokenValue::Int(*v, *n),
            TokenValue::Float(s) => SpecTokenValue::Float(s@),
            TokenValue::Str(s) => SpecTokenValue::Str(s@),
            TokenValue::Char(c) => SpecTokenValue::Char(*c),
        }
    }
}

impl View for Token {
    type V = SpecToken;

    open spec fn view(&self) -> SpecToken {
        SpecToken { v: self.v@, ln: self.ln as nat, cn: self.cn as nat }
    }
}

impl View for Ast {
    type V = SpecAst;

    open spec fn view(&self) -> SpecAst
        decreases self,
    {
        match self {
            Ast::Edge(items) => SpecAst::Edge(view_asts(items@)),
            Ast::Leaf(t) => SpecAst::Leaf(t@),
        }
    }
}

/// The views of a sequence of trees, element by element.
pub open spec fn view_asts(items: Seq<Ast>) -> Seq<SpecAst>
    decreases items,
{
    if items.len() == 0 {
        Seq::empty()
    } else {
        view_asts(items.drop_last()).push(items.last().view())
    }
}

pub proof fn lemma_view_asts_push(v: Seq<Ast>, a: Ast)
    ensures
        view_asts(v.push(a)) == view_asts(v).push(a@),
{
    assert(v.push(a).drop_last() =~= v);
}

/// A tree of a list of trees.
pub fn make_edge(items: Vec<Ast>) -> (a: Ast)
    ensures
        a@ == SpecAst::Edge(view_asts(items@)),
{
    Ast::Edge(items)
}

/// Why the input could not be read, and the line and column where the
/// offending construct starts.
#[derive(Debug, PartialEq)]
pub enum ParseError {
    /// Something other than whitespace, a comment or a list on the top level.
    TopLevel { ln: usize, cn: usize },
    /// A list that the input ends inside of; the position is its left paren.
    UnclosedList { ln: usize, cn: usize },
    /// A string literal that the input ends inside of; the position is its left quote.
    UnclosedString { ln: usize, cn: usize },
    /// A character literal with no closing quote where one is due.
    UnclosedChar { ln: usize, cn: usize },
    /// A character literal that holds no character.
    CharNotSingle { ln: usize, cn: usize },
    /// A line break right after the opening quote of a character literal.
    NewlineInChar { ln: usize, cn: usize },
    /// A backslash followed by a character that is no escape; the position is the backslash.
    InvalidEscape { c: char, ln: usize, cn: usize },
    /// An integer lexeme whose value does not fit; `reason` is "too big" or "too small".
    NumberOutOfRange { lexeme: String, reason: &'static str, ln: usize, cn: usize },
}

pub enum SpecParseError {
    TopLevel { ln: nat, cn: nat },
    UnclosedList { ln: nat, cn: nat },
    UnclosedString { ln: nat, cn: nat },
    UnclosedChar { ln: nat, cn: nat },
    CharNotSingle { ln: nat, cn: nat },
    NewlineInChar { ln: nat, cn: nat },
    InvalidEscape { c: char, ln: nat, cn: nat },
    NumberOutOfRange { lexeme: Seq<char>, reason: Seq<char>, ln: nat, cn: nat },
}

impl View for ParseError {
    type V = SpecParseError;

    open spec fn view(&self) -> SpecParseError {
        match *self {
            ParseError::TopLevel { ln, cn } => SpecParseError::TopLevel { ln: ln as nat, cn: cn as nat },
            ParseError::UnclosedList { ln, cn } => SpecParseError::UnclosedList { ln: ln as nat, cn: cn as nat },
            ParseError::UnclosedString { ln, cn } => SpecParseError::UnclosedString { ln: ln as nat, cn: cn as nat },
            ParseError::UnclosedChar { ln, cn } => SpecParseError::UnclosedChar { ln: ln as nat, cn: cn as nat },
            ParseError::CharNotSingle { ln, cn } => SpecParseError::CharNotSingle { ln: ln as nat, cn: cn as nat },
            ParseError::NewlineInChar { ln, cn } => SpecParseError::NewlineInChar { ln: ln as nat, cn: cn as nat },
            ParseError::InvalidEscape { c, ln, cn } => SpecParseError::InvalidEscape { c, ln: ln as nat, cn: cn as nat },
            ParseError::NumberOutOfRange { lexeme, reason, ln, cn } => SpecParseError::NumberOutOfRange {
                lexeme: lexeme@,
                reason: reason@,
                ln: ln as nat,
                cn: cn as nat,
            },
        }
    }
}

} // verus!
