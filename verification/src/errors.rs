//! A positioned parse error.
use vstd::prelude::*;
use crate::text::push_decimal;

verus! {

/// A parse error and the token position at which it occurred.
#[derive(Debug)]
pub struct ParseError {
    pub message: String,
    /// Which token position the error occurred at.
    pub line: usize,
}

/// The text that reports a parse error at token `pos`.
pub open spec fn parse_error_text(pos: usize, message: Seq<char>) -> Seq<char> {
    "Config parse error at token "@ + crate::text::decimal(pos as nat) + ": "@ + message
}

impl ParseError {
    /// A parse error with the given message at token `pos`.
    pub fn new(message: &str, pos: usize) -> (e: ParseError)
        ensures
            e.message@ == message@,
            e.line == pos,
    {
        ParseError { message: message.to_owned(), line: pos }
    }

    /// The text that reports this error.
    pub fn describe(&self) -> (s: String)
        ensures
            s@ == parse_error_text(self.line, self.message@),
    {
        let mut s = String::from_str("Config parse error at token ");
        push_decimal(&mut s, self.line);
        s.append(": ");
        s.append(self.message.as_str());
        s
    }
}

} // verus!
