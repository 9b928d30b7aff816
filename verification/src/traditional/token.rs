use vstd::prelude::*;

use crate::location::Location;

verus! {

/// The tokens of traditional regular expressions.
#[derive(Debug, PartialEq, Clone)]
pub enum Token {
    CharSetStart,  // [
    CharSetStartNegative,  // [^
    CharSetEnd,  // ]
    ZeroOrMore,  // *
    ZeroOrMoreLazy,  // *?
    OneOrMore,  // +
    OneOrMoreLazy,  // +?
    Optional,  // ?
    OptionalLazy,  // ??
    LogicOr,  // |
    StartAssertion,  // ^
    EndAssertion,  // $
    Dot,  // .
    Char(char),
    /// A range of chars in a charset, e.g. `a-z`.
    CharRange(char, char),
    PresetCharSet(char),
    BoundaryAssertion(char),
    /// `{m}`, `{m,}` or `{m,n}`, and whether it is lazy (followed by `?`).
    Repetition(Repetition, bool),
    GroupStart,  // (
    NonCapturing,  // (?:
    NamedCapture(String),  // (?<name>
    LookAhead,  // (?=
    LookAheadNegative,  // (?!
    LookBehind,  // (?<=
    LookBehindNegative,  // (?<!
    GroupEnd,  // )
    BackReferenceNumber(usize),  // \number
    BackReferenceIdentifier(String),  // \k<name>
}

#[derive(Debug, PartialEq, Eq, Clone, Copy)]
pub enum Repetition {
    Specified(usize),
    AtLeast(usize),
    Range(usize, usize),
}

/// A token as a mathematical value: names are character sequences.
pub enum SpecToken {
    CharSetStart,
    CharSetStartNegative,
    CharSetEnd,
    ZeroOrMore,
    ZeroOrMoreLazy,
    OneOrMore,
    OneOrMoreLazy,
    Optional,
    OptionalLazy,
    LogicOr,
    StartAssertion,
    EndAssertion,
    Dot,
    Char(char),
    CharRange(char, char),
    PresetCharSet(char),
    BoundaryAssertion(char),
    Repetition(Repetition, bool),
    GroupStart,
    NonCapturing,
    NamedCapture(Seq<char>),
    LookAhead,
    LookAheadNegative,
    LookBehind,
    LookBehindNegative,
    GroupEnd,
    BackReferenceNumber(usize),
    BackReferenceIdentifier(Seq<char>),
}

impl Token {
    pub open spec fn view(self) -> SpecToken {
        match self {
            Token::CharSetStart => SpecToken::CharSetStart,
            Token::CharSetStartNegative => SpecToken::CharSetStartNegative,
            Token::CharSetEnd => SpecToken::CharSetEnd,
            Token::ZeroOrMore => SpecToken::ZeroOrMore,
            Token::ZeroOrMoreLazy => SpecToken::ZeroOrMoreLazy,
            Token::OneOrMore => SpecToken::OneOrMore,
            Token::OneOrMoreLazy => SpecToken::OneOrMoreLazy,
            Token::Optional => SpecToken::Optional,
            Token::OptionalLazy => SpecToken::OptionalLazy,
            Token::LogicOr => SpecToken::LogicOr,
            Token::StartAssertion => SpecToken::StartAssertion,
            Token::EndAssertion => SpecToken::EndAssertion,
            Token::Dot => SpecToken::Dot,
            Token::Char(c) => SpecToken::Char(c),
            Token::CharRange(a, b) => SpecToken::CharRange(a, b),
            Token::PresetCharSet(c) => SpecToken::PresetCharSet(c),
            Token::BoundaryAssertion(c) => SpecToken::BoundaryAssertion(c),
            Token::Repetition(r, lazy) => SpecToken::Repetition(r, lazy),
            Token::GroupStart => SpecToken::GroupStart,
            Token::NonCapturing => SpecToken::NonCapturing,
            Token::NamedCapture(s) => SpecToken::NamedCapture(s@),
            Token::LookAhead => SpecToken::LookAhead,
            Token::LookAheadNegative => SpecToken::LookAheadNegative,
            Token::LookBehind => SpecToken::LookBehind,
            Token::LookBehindNegative => SpecToken::LookBehindNegative,
            Token::GroupEnd => SpecToken::GroupEnd,
            Token::BackReferenceNumber(n) => SpecToken::BackReferenceNumber(n),
            Token::BackReferenceIdentifier(s) => SpecToken::BackReferenceIdentifier(s@),
        }
    }
}

/// A token and the range of text that it was read from.
#[derive(Debug, PartialEq, Clone)]
pub struct TokenWithRange {
    pub token: Token,
    pub range: Location,
}

impl TokenWithRange {
    pub open spec fn view(self) -> (SpecToken, Location) {
        (self.token@, self.range)
    }

    pub fn new(token: Token, range: Location) -> (r: Self)
        ensures
            r.token == token,
            r.range == range,
    {
        Self { token, range }
    }

    pub fn from_position_and_length(token: Token, position: &Location, length: usize) -> (r: Self)
        ensures
            r.token == token,
            r.range == (Location { length, ..*position }),
    {
        Self { token, range: Location::from_position_and_length(position, length) }
    }
}

} // verus!
