//! The human-readable messages of the errors.
use vstd::prelude::*;
use crate::types::{Error, ErrorView, ParseError, ParseErrorView};

verus! {

/// The character of a decimal digit.
pub open spec fn digit_char(d: int) -> char {
    seq!['0', '1', '2', '3', '4', '5', '6', '7', '8', '9'][d]
}

/// `n` written in decimal, without leading zeros.
pub open spec fn decimal(n: nat) -> Seq<char>
    decreases n,
{
    if n < 10 {
        seq![digit_char(n as int)]
    } else {
        decimal(n / 10).push(digit_char((n % 10) as int))
    }
}

/// The message of an engine error.
pub open spec fn error_message(e: ErrorView) -> Seq<char> {
    match e {
        ErrorView::NullInstance => "failed to create Jdepp instance (null)"@,
        ErrorView::Nul { position, .. } => "nul byte in string: nul byte found in provided data at position: "@
            + decimal(position as nat),
        ErrorView::SentenceNull => "jdepp returned null Sentence"@,
        ErrorView::SentenceStrNull => "sentence_str returned null"@,
    }
}

/// The message of a parse error.
pub open spec fn parse_error_message(e: ParseErrorView) -> Seq<char> {
    match e {
        ParseErrorView::Jdepp(inner) => "jdepp error: "@ + error_message(inner),
        ParseErrorView::NoChunks => "no chunks found"@,
        ParseErrorView::UnexpectedTokenLine { line } => "token line before any chunk: "@ + line,
        ParseErrorView::InvalidChunkHeader { line } => "invalid chunk header: "@ + line,
        ParseErrorView::InvalidHead { line } => "invalid head in chunk header: "@ + line,
    }
}

/// The one-character text of the digit `d`.
fn digit_str(d: usize) -> (s: &'static str)
    requires
        d < 10,
    ensures
        s@ == seq![digit_char(d as int)],
{
    proof {
        reveal_strlit("0");
        reveal_strlit("1");
        reveal_strlit("2");
        reveal_strlit("3");
        reveal_strlit("4");
        reveal_strlit("5");
        reveal_strlit("6");
        reveal_strlit("7");
        reveal_strlit("8");
        reveal_strlit("9");
    }
    let s = if d == 0 {
        "0"
    } else if d == 1 {
        "1"
    } else if d == 2 {
        "2"
    } else if d == 3 {
        "3"
    } else if d == 4 {
        "4"
    } else if d == 5 {
        "5"
    } else if d == 6 {
        "6"
    } else if d == 7 {
        "7"
    } else if d == 8 {
        "8"
    } else {
        "9"
    };
    assert(s@ =~= seq![digit_char(d as int)]);
    s
}

/// Appends `n` in decimal to `out`.
fn push_decimal(out: &mut String, n: usize)
    ensures
        final(out)@ == old(out)@ + decimal(n as nat),
    decreases n,
{
    if n >= 10 {
        push_decimal(out, n / 10);
    }
    out.append(digit_str(n % 10));
    proof {
        if n >= 10 {
            assert(old(out)@ + decimal(n as nat) =~= old(out)@ + decimal((n / 10) as nat) + seq![
                digit_char((n % 10) as int),
            ]);
        } else {
            assert(decimal(n as nat) =~= seq![digit_char((n % 10) as int)]);
        }
    }
}

impl Error {
    /// The message of this error, as its `Display` would print it.
    pub fn to_string(&self) -> (s: String)
        ensures
            s@ == error_message(self@),
    {
        match self {
            Error::NullInstance => "failed to create Jdepp instance (null)".to_owned(),
            Error::Nul(e) => {
                let mut s = "nul byte in string: nul byte found in provided data at position: ".to_owned();
                push_decimal(&mut s, e.position);
                s
            },
            Error::SentenceNull => "jdepp returned null Sentence".to_owned(),
            Error::SentenceStrNull => "sentence_str returned null".to_owned(),
        }
    }
}

impl ParseError {
    /// The message of this error, as its `Display` would print it.
    pub fn to_string(&self) -> (s: String)
        ensures
            s@ == parse_error_message(self@),
    {
        match self {
            ParseError::Jdepp(e) => {
                let mut s = "jdepp error: ".to_owned();
                let inner = e.to_string();
                s.append(inner.as_str());
                s
            },
            ParseError::NoChunks => "no chunks found".to_owned(),
            ParseError::UnexpectedTokenLine { line } => {
                let mut s = "token line before any chunk: ".to_owned();
                s.append(line.as_str());
                s
            },
            ParseError::InvalidChunkHeader { line } => {
                let mut s = "invalid chunk header: ".to_owned();
                s.append(line.as_str());
                s
            },
            ParseError::InvalidHead { line } => {
                let mut s = "invalid head in chunk header: ".to_owned();
                s.append(line.as_str());
                s
            },
        }
    }
}

} // verus!
