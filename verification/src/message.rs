//! The text that describes a reading error.
use vstd::prelude::*;
use crate::ast::{ParseError, SpecParseError};

verus! {

/// The decimal digits of `n`, most significant first, without leading zeros.
pub open spec fn decimal(n: nat) -> Seq<char>
    decreases n,
{
    if n < 10 {
        seq![digit_char(n)]
    } else {
        decimal(n / 10).push(digit_char(n % 10))
    }
}

pub open spec fn digit_char(d: nat) -> char {
    if d == 0 {
        '0'
    } else if d == 1 {
        '1'
    } else if d == 2 {
        '2'
    } else if d == 3 {
        '3'
    } else if d == 4 {
        '4'
    } else if d == 5 {
        '5'
    } else if d == 6 {
        '6'
    } else if d == 7 {
        '7'
    } else if d == 8 {
        '8'
    } else {
        '9'
    }
}

fn digit(d: usize) -> (c: char)
    requires
        d < 10,
    ensures
        c == digit_char(d as nat),
{
    if d == 0 {
        '0'
    } else if d == 1 {
        '1'
    } else if d == 2 {
        '2'
    } else if d == 3 {
        '3'
    } else if d == 4 {
        '4'
    } else if d == 5 {
        '5'
    } else if d == 6 {
        '6'
    } else if d == 7 {
        '7'
    } else if d == 8 {
        '8'
    } else {
        '9'
    }
}

/// Appends the decimal digits of `n` to `out`.
fn push_decimal(out: &mut String, n: usize)
    ensures
        final(out)@ == old(out)@ + decimal(n as nat),
    decreases n,
{
    if n >= 10 {
        push_decimal(out, n / 10);
    }
    out.push(digit(n % 10));
    proof {
        if n < 10 {
            assert(old(out)@.push(digit_char(n as nat)) =~= old(out)@ + seq![digit_char(n as nat)]);
        } else {
            assert((old(out)@ + decimal((n / 10) as nat)).push(digit_char((n % 10) as nat))
                =~= old(out)@ + decimal((n / 10) as nat).push(digit_char((n % 10) as nat)));
        }
    }
}

/// `head`, then the line and column: "{head}{ln} line, {cn} char".
pub open spec fn located(head: Seq<char>, ln: nat, cn: nat) -> Seq<char> {
    head + decimal(ln) + " line, "@ + decimal(cn) + " char"@
}

/// The text that describes a reading error.
pub open spec fn error_text(e: SpecParseError) -> Seq<char> {
    match e {
        SpecParseError::TopLevel { ln, cn } => located(
            "syntax error: anything other than whitespace, comment or list not allowed on the top level: "@,
            ln,
            cn,
        ),
        SpecParseError::UnclosedList { ln, cn } => located(
            "syntax error: list not closed, the left paren is at: "@,
            ln,
            cn,
        ),
        SpecParseError::UnclosedString { ln, cn } => located(
            "syntax error: string literal not closed, the left double-quote is at: "@,
            ln,
            cn,
        ),
        SpecParseError::UnclosedChar { ln, cn } => located(
            "syntax error: char literal not closed, the left single-quote is at: "@,
            ln,
            cn,
        ),
        SpecParseError::CharNotSingle { ln, cn } => located(
            "syntax error: char literal must have only a character: "@,
            ln,
            cn,
        ),
        SpecParseError::NewlineInChar { ln, cn } => located(
            "syntax error: newline not allowed in char literal: "@,
            ln,
            cn,
        ),
        SpecParseError::InvalidEscape { c, ln, cn } => located(
            "error: invalid escape character '\\"@ + seq![c] + "' found: "@,
            ln,
            cn,
        ),
        SpecParseError::NumberOutOfRange { lexeme, reason, ln, cn } => located(
            "error: "@ + lexeme + " is "@ + reason + " as a number: "@,
            ln,
            cn,
        ),
    }
}

/// Appends "{ln} line, {cn} char".
fn push_location(out: &mut String, ln: usize, cn: usize)
    ensures
        final(out)@ == old(out)@ + decimal(ln as nat) + " line, "@ + decimal(cn as nat) + " char"@,
{
    push_decimal(out, ln);
    out.append(" line, ");
    push_decimal(out, cn);
    out.append(" char");
}

impl ParseError {
    /// The text that describes this error.
    pub fn message(&self) -> (m: String)
        ensures
            m@ == error_text(self@),
    {
        let mut m = String::new();
        match self {
            ParseError::TopLevel { ln, cn } => {
                m.append(
                    "syntax error: anything other than whitespace, comment or list not allowed on the top level: ",
                );
                push_location(&mut m, *ln, *cn);
            },
            ParseError::UnclosedList { ln, cn } => {
                m.append("syntax error: list not closed, the left paren is at: ");
                push_location(&mut m, *ln, *cn);
            },
            ParseError::UnclosedString { ln, cn } => {
                m.append("syntax error: string literal not closed, the left double-quote is at: ");
                push_location(&mut m, *ln, *cn);
            },
            ParseError::UnclosedChar { ln, cn } => {
                m.append("syntax error: char literal not closed, the left single-quote is at: ");
                push_location(&mut m, *ln, *cn);
            },
            ParseError::CharNotSingle { ln, cn } => {
                m.append("syntax error: char literal must have only a character: ");
                push_location(&mut m, *ln, *cn);
            },
            ParseError::NewlineInChar { ln, cn } => {
                m.append("syntax error: newline not allowed in char literal: ");
                push_location(&mut m, *ln, *cn);
            },
            ParseError::InvalidEscape { c, ln, cn } => {
                m.append("error: invalid escape character '\\");
                m.push(*c);
                m.append("' found: ");
                push_location(&mut m, *ln, *cn);
            },
            ParseError::NumberOutOfRange { lexeme, reason, ln, cn } => {
                m.append("error: ");
                m.append(lexeme.as_str());
                m.append(" is ");
                m.append(reason);
                m.append(" as a number: ");
                push_location(&mut m, *ln, *cn);
            },
        }
        m
    }
}

} // verus!
