use vstd::prelude::*;

use crate::location::Location;

verus! {

/// The tokens of the ANRE language.
#[derive(Debug, PartialEq, Clone)]
pub enum Token {
    /// `\n` or `\r\n`
    NewLine,
    /// `,`
    Comma,
    /// `!`
    Exclamation,
    /// `..`
    Range,
    /// `.`
    Dot,
    /// `||`
    LogicOr,
    /// `[`
    LeftBracket,
    /// `]`
    RightBracket,
    /// `(`
    LeftParen,
    /// `)`
    RightParen,
    /// A name: `[a-zA-Z0-9_]` and the code points from `\u{a0}` on.
    Identifier(String),
    /// A preset charset, e.g. `char_word`.
    PresetCharSet(String),
    /// A special char, e.g. `char_any`.
    Special(String),
    /// An anchor assertion, e.g. `start`, `end`.
    AnchorAssertion(String),
    /// A boundary assertion, e.g. `is_bound`, `is_not_bound`.
    BoundaryAssertion(String),
    Number(usize),
    Char(char),
    String(String),
    Comment(Comment),
    /// `?`
    Question,
    /// `??`
    QuestionLazy,
    /// `+`
    Plus,
    /// `+?`
    PlusLazy,
    /// `*`
    Asterisk,
    /// `*?`
    AsteriskLazy,
    /// `{`
    LeftBrace,
    /// `}`
    RightBrace,
}

#[derive(Debug, PartialEq, Clone)]
pub enum Comment {
    /// `//...`; the line break that ends it is not part of it.
    Line(String),
    /// `/*...*/`
    Block(String),
}

/// A token as a mathematical value: texts are character sequences.
pub enum SpecToken {
    NewLine,
    Comma,
    Exclamation,
    Range,
    Dot,
    LogicOr,
    LeftBracket,
    RightBracket,
    LeftParen,
    RightParen,
    Identifier(Seq<char>),
    PresetCharSet(Seq<char>),
    Special(Seq<char>),
    AnchorAssertion(Seq<char>),
    BoundaryAssertion(Seq<char>),
    Number(usize),
    Char(char),
    String(Seq<char>),
    LineComment(Seq<char>),
    BlockComment(Seq<char>),
    Question,
    QuestionLazy,
    Plus,
    PlusLazy,
    Asterisk,
    AsteriskLazy,
    LeftBrace,
    RightBrace,
}

impl Token {
    pub open spec fn view(self) -> SpecToken {
        match self {
            Token::NewLine => SpecToken::NewLine,
            Token::Comma => SpecToken::Comma,
            Token::Exclamation => SpecToken::Exclamation,
            Token::Range => SpecToken::Range,
            Token::Dot => SpecToken::Dot,
            Token::LogicOr => SpecToken::LogicOr,
            Token::LeftBracket => SpecToken::LeftBracket,
            Token::RightBracket => SpecToken::RightBracket,
            Token::LeftParen => SpecToken::LeftParen,
            Token::RightParen => SpecToken::RightParen,
            Token::Identifier(s) => SpecToken::Identifier(s@),
            Token::PresetCharSet(s) => SpecToken::PresetCharSet(s@),
            Token::Special(s) => SpecToken::Special(s@),
            Token::AnchorAssertion(s) => SpecToken::AnchorAssertion(s@),
            Token::BoundaryAssertion(s) => SpecToken::BoundaryAssertion(s@),
            Token::Number(n) => SpecToken::Number(n),
            Token::Char(c) => SpecToken::Char(c),
            Token::String(s) => SpecToken::String(s@),
            Token::Comment(Comment::Line(s)) => SpecToken::LineComment(s@),
            Token::Comment(Comment::Block(s)) => SpecToken::BlockComment(s@),
            Token::Question => SpecToken::Question,
            Token::QuestionLazy => SpecToken::QuestionLazy,
            Token::Plus => SpecToken::Plus,
            Token::PlusLazy => SpecToken::PlusLazy,
            Token::Asterisk => SpecToken::Asterisk,
            Token::AsteriskLazy => SpecToken::AsteriskLazy,
            Token::LeftBrace => SpecToken::LeftBrace,
            Token::RightBrace => SpecToken::RightBrace,
        }
    }

    /// A copy of the token.
    pub fn duplicate(&self) -> (r: Token)
        ensures
            r@ == self@,
    {
        match self {
            Token::NewLine => Token::NewLine,
            Token::Comma => Token::Comma,
            Token::Exclamation => Token::Exclamation,
            Token::Range => Token::Range,
            Token::Dot => Token::Dot,
            Token::LogicOr => Token::LogicOr,
            Token::LeftBracket => Token::LeftBracket,
            Token::RightBracket => Token::RightBracket,
            Token::LeftParen => Token::LeftParen,
            Token::RightParen => Token::RightParen,
            Token::Identifier(s) => Token::Identifier(s.clone()),
            Token::PresetCharSet(s) => Token::PresetCharSet(s.clone()),
            Token::Special(s) => Token::Special(s.clone()),
            Token::AnchorAssertion(s) => Token::AnchorAssertion(s.clone()),
            Token::BoundaryAssertion(s) => Token::BoundaryAssertion(s.clone()),
            Token::Number(n) => Token::Number(*n),
            Token::Char(c) => Token::Char(*c),
            Token::String(s) => Token::String(s.clone()),
            Token::Comment(Comment::Line(s)) => Token::Comment(Comment::Line(s.clone())),
            Token::Comment(Comment::Block(s)) => Token::Comment(Comment::Block(s.clone())),
            Token::Question => Token::Question,
            Token::QuestionLazy => Token::QuestionLazy,
            Token::Plus => Token::Plus,
            Token::PlusLazy => Token::PlusLazy,
            Token::Asterisk => Token::Asterisk,
            Token::AsteriskLazy => Token::AsteriskLazy,
            Token::LeftBrace => Token::LeftBrace,
            Token::RightBrace => Token::RightBrace,
        }
    }
}

/// A token and the range of text that it was read from.
#[derive(Debug, PartialEq, Clone)]
pub struct TokenWithRange {
    pub token: Token,
    pub range: Location,
}

impl TokenWithRange {
    pub open spec fn view(self) -> (SpecToken, Location) {
        (self.token@, self.range)
    }

    pub fn new(token: Token, range: Location) -> (r: Self)
        ensures
            r.token == token,
            r.range == range,
    {
        Self { token, range }
    }

    pub fn from_position_and_length(token: Token, position: &Location, length: usize) -> (r: Self)
        ensures
            r.token == token,
            r.range == (Location { length, ..*position }),
    {
        Self { token, range: Location::from_position_and_length(position, length) }
    }

    /// A copy of the token and its range.
    pub fn duplicate(&self) -> (r: Self)
        ensures
            r@ == self@,
    {
        Self { token: self.token.duplicate(), range: self.range }
    }
}

/// The views of a sequence of tokens.
pub open spec fn token_views(v: Seq<TokenWithRange>) -> Seq<(SpecToken, Location)> {
    v.map_values(|t: TokenWithRange| t@)
}

} // verus!
