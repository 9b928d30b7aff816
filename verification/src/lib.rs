//! A lightweight regular-expression engine: a lexer and parser for
//! traditional regex syntax, a compiler from the syntax tree to a
//! transition graph, and a backtracking matcher over UTF-8 text.

use vstd::prelude::*;

pub mod anre;
pub mod char_boundaries;
pub mod ast;
pub mod charwithposition;
pub mod compiler;
pub mod context;
pub mod lexer;
pub mod graph;
pub mod location;
pub mod match_bounds;
pub mod object_file;
pub mod printer;
pub mod process;
pub mod rulechecker;
pub mod text;
pub mod traditional;
pub mod transition;
pub mod transition_text;
pub mod utf8reader;

use crate::location::Location;
use crate::text::{append_decimal, append_str, decimal};

verus! {

/// The errors reported while reading or compiling a pattern.
#[derive(Debug, PartialEq, Clone)]
pub enum AnreError {
    SyntaxIncorrect(String),
    UnexpectedEndOfDocument(String),
    /// The "index" (and "index + length") may exceed the last index of
    /// the text, e.g. for a pattern that ends in the middle of a token.
    MessageWithLocation(String, Location),
}

/// The text that reports an error: the message, after a first line that
/// tells the end of the document, or the line and column (counted from 1)
/// where the error is.
pub open spec fn error_text(e: AnreError) -> Seq<char> {
    match e {
        AnreError::SyntaxIncorrect(message) => message@,
        AnreError::UnexpectedEndOfDocument(detail) => "Unexpected end of document.\n"@ + detail@,
        AnreError::MessageWithLocation(detail, location) => "Error at line: "@ + decimal(
            (location.line + 1) as nat,
        ) + ", column: "@ + decimal((location.column + 1) as nat) + "\n"@ + detail@,
    }
}

impl AnreError {
    /// The text that reports the error.
    pub fn to_string(&self) -> (r: String)
        requires
            self matches AnreError::MessageWithLocation(_, location) ==> location.line < usize::MAX
                && location.column < usize::MAX,
        ensures
            r@ == error_text(*self),
    {
        let mut text = String::new();
        match self {
            AnreError::SyntaxIncorrect(message) => {
                append_str(&mut text, message.as_str());
            },
            AnreError::UnexpectedEndOfDocument(detail) => {
                append_str(&mut text, "Unexpected end of document.\n");
                append_str(&mut text, detail.as_str());
            },
            AnreError::MessageWithLocation(detail, location) => {
                append_str(&mut text, "Error at line: ");
                append_decimal(&mut text, location.line + 1);
                append_str(&mut text, ", column: ");
                append_decimal(&mut text, location.column + 1);
                append_str(&mut text, "\n");
                append_str(&mut text, detail.as_str());
            },
        }
        proof {
            assert(text@ =~= error_text(*self));
        }
        text
    }
}

} // verus!
