//! Diagnostics: what to tell the user about a program text that the parser
//! rejected, and where in the text.

use crate::target::texts;
use vstd::prelude::*;
use vstd::string::StringExecFns;

verus! {

/// Why a parser rejected a text. Positions are byte offsets into the text.
#[derive(Debug, PartialEq, Eq)]
pub enum ParseError {
    /// No token starts at `location`.
    InvalidToken { location: usize },
    /// The text ended at `location`, where one of `expected` had to come.
    UnrecognizedEof { location: usize, expected: Vec<String> },
    /// `token` stands from `start` to `end`, where one of `expected` had to
    /// come.
    UnrecognizedToken { start: usize, token: String, end: usize, expected: Vec<String> },
    /// `token` stands from `start` to `end`, behind a complete program.
    ExtraToken { start: usize, token: String, end: usize },
    /// The grammar's own actions rejected the text.
    User { error: String },
}

/// A diagnostic: what is wrong, and the span of the text that it is about.
#[derive(Debug, PartialEq, Eq)]
pub struct Report {
    pub reason: String,
    pub start: usize,
    pub end: usize,
}

/// The parts in order, with `sep` between each two.
pub open spec fn joined(parts: Seq<Seq<char>>, sep: Seq<char>) -> Seq<char>
    decreases parts.len(),
{
    if parts.len() == 0 {
        Seq::empty()
    } else if parts.len() == 1 {
        parts[0]
    } else {
        joined(parts.drop_last(), sep) + sep + parts.last()
    }
}

/// What is wrong with the text, in words.
pub open spec fn reason(error: ParseError) -> Seq<char> {
    match error {
        ParseError::InvalidToken { .. } => "unrecognized token"@,
        ParseError::UnrecognizedEof { expected, .. } => "unexpected eof. expected "@ + joined(
            texts(expected@),
            " or "@,
        ),
        ParseError::UnrecognizedToken { token, expected, .. } => "unrecognized token "@ + token@
            + ". expected "@ + joined(texts(expected@), " or "@),
        ParseError::ExtraToken { token, .. } => "unexpected extra token: "@ + token@,
        ParseError::User { error } => error@,
    }
}

/// Where the span that the error is about starts.
pub open spec fn span_start(error: ParseError) -> usize {
    match error {
        ParseError::InvalidToken { location } => location,
        ParseError::UnrecognizedEof { location, .. } => location,
        ParseError::UnrecognizedToken { start, .. } => start,
        ParseError::ExtraToken { start, .. } => start,
        ParseError::User { .. } => 0,
    }
}

/// Where the span that the error is about ends.
pub open spec fn span_end(error: ParseError) -> usize {
    match error {
        ParseError::InvalidToken { location } => location,
        ParseError::UnrecognizedEof { location, .. } => location,
        ParseError::UnrecognizedToken { end, .. } => end,
        ParseError::ExtraToken { end, .. } => end,
        ParseError::User { .. } => 0,
    }
}

/// The parts in order, with `sep` between each two.
pub fn join(parts: &Vec<String>, sep: &str) -> (text: String)
    ensures
        text@ == joined(texts(parts@), sep@),
{
    let mut text = String::new();
    let ghost all = texts(parts@);
    let mut i: usize = 0;
    assert(all.take(0) =~= Seq::empty());
    while i < parts.len()
        invariant
            i <= parts@.len(),
            all == texts(parts@),
            text@ == joined(all.take(i as int), sep@),
        decreases parts@.len() - i,
    {
        proof {
            assert(all.take(i + 1).drop_last() =~= all.take(i as int));
            assert(all.take(i + 1).last() == parts@[i as int]@);
            if i == 0 {
                assert(Seq::<char>::empty() + parts@[0]@ =~= parts@[0]@);
            }
        }
        if i > 0 {
            text.append(sep);
        }
        text.append(parts[i].as_str());
        i += 1;
    }
    assert(all.take(parts@.len() as int) =~= all);
    text
}

/// The diagnostic for `error`.
pub fn build_report(error: &ParseError) -> (report: Report)
    ensures
        report.reason@ == reason(*error),
        report.start == span_start(*error),
        report.end == span_end(*error),
{
    match error {
        ParseError::InvalidToken { location } => Report {
            reason: String::from_str("unrecognized token"),
            start: *location,
            end: *location,
        },
        ParseError::UnrecognizedEof { location, expected } => {
            let mut reason = String::from_str("unexpected eof. expected ");
            let expected = join(expected, " or ");
            reason.append(expected.as_str());
            Report { reason, start: *location, end: *location }
        },
        ParseError::UnrecognizedToken { start, token, end, expected } => {
            let mut reason = String::from_str("unrecognized token ");
            reason.append(token.as_str());
            reason.append(". expected ");
            let expected = join(expected, " or ");
            reason.append(expected.as_str());
            Report { reason, start: *start, end: *end }
        },
        ParseError::ExtraToken { start, token, end } => {
            let mut reason = String::from_str("unexpected extra token: ");
            reason.append(token.as_str());
            Report { reason, start: *start, end: *end }
        },
        ParseError::User { error } => Report { reason: error.clone(), start: 0, end: 0 },
    }
}

} // verus!
