use vstd::prelude::*;

use crate::location::Location;
use crate::text::{append_decimal, append_str, decimal, push_char};
use crate::traditional::lexer::{
    Failure, error_at, error_at_end, error_matches, incl, lemma_pos, lemma_unicode_scan_after,
    message_with_char, pos, span, spec_unescape_unicode, Lexer as TextReader,
};
use crate::AnreError;

verus! {

// Tokens of the ANRE language: punctuation `, ! .. . || [ ] ( )`, line
// breaks, numbers (digits with `_` separators), chars `'a'`, strings `"abc"`
// (both with the escapes `\\ \' \" \t \r \n \0 \u{hhhh}`), names, and line
// and block comments (block comments nest). Spaces and tabs separate tokens.

/// The tokens of the ANRE language.
#[derive(Debug, PartialEq, Clone)]
pub enum Token {
    /// `\n` or `\r\n`
    NewLine,
    /// `,`
    Comma,
    /// `!`
    Exclam,
    /// `..`
    Ellipsis,
    /// `.`
    Dot,
    /// `||`
    LogicOr,
    /// `[`
    LeftBracket,
    /// `]`
    RightBracket,
    /// `(`
    LeftParen,
    /// `)`
    RightParen,
    /// A name: `[a-zA-Z0-9_]` and the code points from `\u{a0}` on, not
    /// starting with a digit.
    Identifier(String),
    Number(u32),
    Char(char),
    String_(String),
    Comment(Comment),
}

#[derive(Debug, PartialEq, Clone)]
pub enum Comment {
    /// `//...`; the line break that ends it is not part of it.
    Line(String),
    /// `/*...*/`
    Block(String),
}

/// A token as a mathematical value: texts are character sequences.
pub enum SpecToken {
    NewLine,
    Comma,
    Exclam,
    Ellipsis,
    Dot,
    LogicOr,
    LeftBracket,
    RightBracket,
    LeftParen,
    RightParen,
    Identifier(Seq<char>),
    Number(u32),
    Char(char),
    String_(Seq<char>),
    LineComment(Seq<char>),
    BlockComment(Seq<char>),
}

impl Token {
    pub open spec fn view(self) -> SpecToken {
        match self {
            Token::NewLine => SpecToken::NewLine,
            Token::Comma => SpecToken::Comma,
            Token::Exclam => SpecToken::Exclam,
            Token::Ellipsis => SpecToken::Ellipsis,
            Token::Dot => SpecToken::Dot,
            Token::LogicOr => SpecToken::LogicOr,
            Token::LeftBracket => SpecToken::LeftBracket,
            Token::RightBracket => SpecToken::RightBracket,
            Token::LeftParen => SpecToken::LeftParen,
            Token::RightParen => SpecToken::RightParen,
            Token::Identifier(s) => SpecToken::Identifier(s@),
            Token::Number(n) => SpecToken::Number(n),
            Token::Char(c) => SpecToken::Char(c),
            Token::String_(s) => SpecToken::String_(s@),
            Token::Comment(Comment::Line(s)) => SpecToken::LineComment(s@),
            Token::Comment(Comment::Block(s)) => SpecToken::BlockComment(s@),
        }
    }
}

impl Token {
    /// The text that describes the token in messages.
    pub fn get_description(&self) -> (r: String)
        ensures
            r@ == description(self@),
    {
        let mut s = String::new();
        match self {
            Token::NewLine => append_str(&mut s, "new line"),
            Token::Comma => append_str(&mut s, "comma \",\""),
            Token::LeftBracket => append_str(&mut s, "left bracket \"[\""),
            Token::RightBracket => append_str(&mut s, "right bracket \"]\""),
            Token::LeftParen => append_str(&mut s, "left parenthese \"(\""),
            Token::RightParen => append_str(&mut s, "right parenthese \")\""),
            Token::Exclam => append_str(&mut s, "exclam \"!\""),
            Token::Ellipsis => append_str(&mut s, "ellipsis \"..\""),
            Token::Dot => append_str(&mut s, "dot \".\""),
            Token::LogicOr => append_str(&mut s, "logic or \"||\""),
            Token::Identifier(id) => {
                append_str(&mut s, "identifier \"");
                append_str(&mut s, id.as_str());
                append_str(&mut s, "\"");
            },
            Token::Number(n) => {
                append_str(&mut s, "number \"");
                append_decimal(&mut s, *n as usize);
                append_str(&mut s, "\"");
            },
            Token::Char(c) => {
                append_str(&mut s, "char \"");
                push_char(&mut s, *c);
                append_str(&mut s, "\"");
            },
            Token::String_(_) => append_str(&mut s, "string"),
            Token::Comment(_) => append_str(&mut s, "comment"),
        }
        proof {
            assert(s@ =~= description(self@));
        }
        s
    }
}

/// A token and the range of text that it was read from.
#[derive(Debug, PartialEq, Clone)]
pub struct TokenWithRange {
    pub token: Token,
    pub range: Location,
}

impl TokenWithRange {
    pub open spec fn view(self) -> (SpecToken, Location) {
        (self.token@, self.range)
    }

    pub fn new(token: Token, range: Location) -> (r: Self)
        ensures
            r.token == token,
            r.range == range,
    {
        Self { token, range }
    }

    pub fn from_position_and_length(token: Token, position: &Location, length: usize) -> (r: Self)
        ensures
            r.token == token,
            r.range == (Location { length, ..*position }),
    {
        Self { token, range: Location::from_position_and_length(position, length) }
    }
}

/// The views of a sequence of tokens.
pub open spec fn token_views(v: Seq<TokenWithRange>) -> Seq<(SpecToken, Location)> {
    v.map_values(|t: TokenWithRange| t@)
}

/// The chars that end a number or a name.
pub open spec fn is_terminator(c: char) -> bool {
    c == ' ' || c == '\t' || c == '\r' || c == '\n' || c == ',' || c == '|' || c == '!' || c == '['
        || c == ']' || c == '(' || c == ')' || c == '/' || c == '\'' || c == '"'
}

/// The chars that may start a name.
pub open spec fn is_name_start(c: char) -> bool {
    ('a' <= c <= 'z') || ('A' <= c <= 'Z') || c == '_' || ('\u{a0}' <= c <= '\u{d7ff}') || (
    '\u{e000}' <= c <= '\u{10ffff}')
}

/// The chars that may continue a name.
pub open spec fn is_name_char(c: char) -> bool {
    ('0' <= c <= '9') || is_name_start(c)
}

/// The index of the terminator (or the end) that ends a name whose chars
/// continue from `k`.
pub open spec fn name_end(cs: Seq<char>, k: int) -> Result<int, Failure>
    decreases cs.len() - k,
{
    if k < 0 || k >= cs.len() || is_terminator(cs[k]) {
        Ok(k)
    } else if is_name_char(cs[k]) {
        name_end(cs, k + 1)
    } else {
        Err(Failure::At(pos(cs, k)))
    }
}

/// The index of the terminator (or the end) that ends a number whose chars
/// continue from `k`: digits and `_`.
pub open spec fn number_end(cs: Seq<char>, k: int) -> Result<int, Failure>
    decreases cs.len() - k,
{
    if k < 0 || k >= cs.len() || is_terminator(cs[k]) {
        Ok(k)
    } else if ('0' <= cs[k] <= '9') || cs[k] == '_' {
        number_end(cs, k + 1)
    } else {
        Err(Failure::At(pos(cs, k)))
    }
}

/// The value of the digits of `cs[a..b]`, the `_` left out.
pub open spec fn number_value(cs: Seq<char>, a: int, b: int) -> int
    decreases b - a,
{
    if b <= a {
        0
    } else if cs[b - 1] == '_' {
        number_value(cs, a, b - 1)
    } else {
        number_value(cs, a, b - 1) * 10 + (cs[b - 1] as int - '0' as int)
    }
}

/// A number from the digit at index `i`: the token, its range and the
/// index after it.
pub open spec fn spec_lex_number(cs: Seq<char>, i: int) -> Result<(SpecToken, Location, int), Failure> {
    match number_end(cs, i) {
        Err(f) => Err(f),
        Ok(j) => if number_value(cs, i, j) > u32::MAX {
            Err(Failure::At(incl(cs, i, j - 1)))
        } else {
            Ok((SpecToken::Number(number_value(cs, i, j) as u32), incl(cs, i, j - 1), j))
        },
    }
}

/// A name from its first char at index `i`.
pub open spec fn spec_lex_name(cs: Seq<char>, i: int) -> Result<(SpecToken, Location, int), Failure> {
    match name_end(cs, i) {
        Err(f) => Err(f),
        Ok(j) => Ok((SpecToken::Identifier(cs.subrange(i, j)), incl(cs, i, j - 1), j)),
    }
}

/// The char that an escape `\c` stands for in a char or a string.
pub open spec fn escape_char(c: char) -> Option<char> {
    if c == '\\' {
        Some('\\')
    } else if c == '\'' {
        Some('\'')
    } else if c == '"' {
        Some('"')
    } else if c == 't' {
        Some('\t')
    } else if c == 'r' {
        Some('\r')
    } else if c == 'n' {
        Some('\n')
    } else if c == '0' {
        Some('\0')
    } else {
        None
    }
}

/// An escape from the `\` at index `k`: the char and the index after it.
pub open spec fn spec_escape(cs: Seq<char>, k: int) -> Result<(char, int), Failure> {
    if k + 1 >= cs.len() {
        Err(Failure::End)
    } else {
        let e = cs[k + 1];
        if escape_char(e) is Some {
            Ok((escape_char(e).unwrap(), k + 2))
        } else if e == 'u' {
            if k + 2 < cs.len() && cs[k + 2] == '{' {
                spec_unescape_unicode(cs, k + 2)
            } else {
                Err(Failure::At(pos(cs, k + 1).forward()))
            }
        } else {
            Err(Failure::At(pos(cs, k + 1)))
        }
    }
}

/// A char from its `'` at index `i`.
pub open spec fn spec_lex_char(cs: Seq<char>, i: int) -> Result<(SpecToken, Location, int), Failure> {
    let k = i + 1;
    if k >= cs.len() {
        Err(Failure::End)
    } else {
        let read = if cs[k] == '\\' {
            spec_escape(cs, k)
        } else if cs[k] == '\'' {
            Err(Failure::At(incl(cs, i, k)))
        } else {
            Ok((cs[k], k + 1))
        };
        match read {
            Err(f) => Err(f),
            Ok((c, next)) => if next >= cs.len() {
                Err(Failure::End)
            } else if cs[next] != '\'' {
                Err(Failure::At(pos(cs, next)))
            } else {
                Ok((SpecToken::Char(c), incl(cs, i, next), next + 1))
            },
        }
    }
}

/// The content of a string from index `k` on, after `acc`: the content and
/// the index of the closing `"`.
pub open spec fn string_body(cs: Seq<char>, k: int, acc: Seq<char>) -> Result<(Seq<char>, int), Failure>
    decreases cs.len() - k,
{
    if k < 0 || k >= cs.len() {
        Err(Failure::End)
    } else if cs[k] == '"' {
        Ok((acc, k))
    } else if cs[k] == '\\' {
        match spec_escape(cs, k) {
            Err(f) => Err(f),
            Ok((c, next)) => if k < next <= cs.len() {
                string_body(cs, next, acc.push(c))
            } else {
                Err(Failure::End)
            },
        }
    } else {
        string_body(cs, k + 1, acc.push(cs[k]))
    }
}

/// A string from its `"` at index `i`.
pub open spec fn spec_lex_string(cs: Seq<char>, i: int) -> Result<(SpecToken, Location, int), Failure> {
    match string_body(cs, i + 1, Seq::empty()) {
        Err(f) => Err(f),
        Ok((s, end)) => Ok((SpecToken::String_(s), incl(cs, i, end), end + 1)),
    }
}

/// The index of the `\n`, or of the `\r` of a `\r\n`, or the end, that ends a
/// line comment whose text continues from `k`: the line break is not part of
/// the comment.
pub open spec fn line_end(cs: Seq<char>, k: int) -> int
    decreases cs.len() - k,
{
    if k < 0 || k >= cs.len() || cs[k] == '\n' || (cs[k] == '\r' && k + 1 < cs.len() && cs[k + 1] == '\n') {
        k
    } else {
        line_end(cs, k + 1)
    }
}

/// A line comment from its `//` at index `i`.
pub open spec fn spec_lex_line_comment(cs: Seq<char>, i: int) -> (SpecToken, Location, int) {
    let j = line_end(cs, i + 2);
    (SpecToken::LineComment(cs.subrange(i + 2, j)), incl(cs, i, j - 1), j)
}

/// The content of a block comment from index `k` on, after `acc`, with
/// `depth` comments open: the content and the index of the `/` that closes
/// the outermost comment.
pub open spec fn block_body(cs: Seq<char>, k: int, depth: nat, acc: Seq<char>) -> Result<(Seq<char>, int), Failure>
    decreases cs.len() - k,
{
    if k < 0 || k >= cs.len() {
        Err(Failure::End)
    } else if cs[k] == '/' && k + 1 < cs.len() && cs[k + 1] == '*' {
        block_body(cs, k + 2, depth + 1, acc + "/*"@)
    } else if cs[k] == '*' && k + 1 < cs.len() && cs[k + 1] == '/' {
        if depth <= 1 {
            Ok((acc, k + 1))
        } else {
            block_body(cs, k + 2, (depth - 1) as nat, acc + "*/"@)
        }
    } else {
        block_body(cs, k + 1, depth, acc.push(cs[k]))
    }
}

/// A block comment from its `/*` at index `i`.
pub open spec fn spec_lex_block_comment(cs: Seq<char>, i: int) -> Result<(SpecToken, Location, int), Failure> {
    match block_body(cs, i + 2, 1, Seq::empty()) {
        Err(f) => Err(f),
        Ok((s, end)) => Ok((SpecToken::BlockComment(s), incl(cs, i, end), end + 1)),
    }
}

/// What the char at index `i` starts: a token (none for a space or a tab)
/// and the index after it.
pub open spec fn lex_step(cs: Seq<char>, i: int) -> Result<(Option<(SpecToken, Location)>, int), Failure> {
    let c = cs[i];
    let next = if i + 1 < cs.len() { Some(cs[i + 1]) } else { None };
    let one = |t: SpecToken| Some((t, span(cs, i, 1)));
    let with = |r: Result<(SpecToken, Location, int), Failure>|
        match r {
            Err(f) => Err(f),
            Ok((t, l, j)) => Ok((Some((t, l)), j)),
        };
    if c == ' ' || c == '\t' {
        Ok((None, i + 1))
    } else if c == '\r' && next == Some('\n') {
        Ok((Some((SpecToken::NewLine, span(cs, i, 2))), i + 2))
    } else if c == '\n' {
        Ok((one(SpecToken::NewLine), i + 1))
    } else if c == ',' {
        Ok((one(SpecToken::Comma), i + 1))
    } else if c == '|' && next == Some('|') {
        Ok((Some((SpecToken::LogicOr, span(cs, i, 2))), i + 2))
    } else if c == '!' {
        Ok((one(SpecToken::Exclam), i + 1))
    } else if c == '.' {
        if next == Some('.') {
            Ok((Some((SpecToken::Ellipsis, span(cs, i, 2))), i + 2))
        } else {
            Ok((one(SpecToken::Dot), i + 1))
        }
    } else if c == '[' {
        Ok((one(SpecToken::LeftBracket), i + 1))
    } else if c == ']' {
        Ok((one(SpecToken::RightBracket), i + 1))
    } else if c == '(' {
        Ok((one(SpecToken::LeftParen), i + 1))
    } else if c == ')' {
        Ok((one(SpecToken::RightParen), i + 1))
    } else if '0' <= c <= '9' {
        with(spec_lex_number(cs, i))
    } else if c == '"' {
        with(spec_lex_string(cs, i))
    } else if c == '\'' {
        with(spec_lex_char(cs, i))
    } else if c == '/' && next == Some('/') {
        with(Ok(spec_lex_line_comment(cs, i)))
    } else if c == '/' && next == Some('*') {
        with(spec_lex_block_comment(cs, i))
    } else if is_name_start(c) {
        with(spec_lex_name(cs, i))
    } else {
        Err(Failure::At(pos(cs, i)))
    }
}

/// The tokens of the text from index `i` on.
pub open spec fn lex_from(cs: Seq<char>, i: int) -> Result<Seq<(SpecToken, Location)>, Failure>
    decreases cs.len() - i,
{
    if i < 0 || i >= cs.len() {
        Ok(Seq::empty())
    } else {
        match lex_step(cs, i) {
            Err(f) => Err(f),
            Ok((t, j)) => if i < j <= cs.len() {
                match lex_from(cs, j) {
                    Err(f) => Err(f),
                    Ok(rest) => Ok(
                        match t {
                            Some(tok) => seq![tok] + rest,
                            None => rest,
                        },
                    ),
                }
            } else {
                Err(Failure::End)
            },
        }
    }
}

/// The text that describes a token in messages.
pub open spec fn description(t: SpecToken) -> Seq<char> {
    match t {
        SpecToken::NewLine => "new line"@,
        SpecToken::Comma => "comma \",\""@,
        SpecToken::LeftBracket => "left bracket \"[\""@,
        SpecToken::RightBracket => "right bracket \"]\""@,
        SpecToken::LeftParen => "left parenthese \"(\""@,
        SpecToken::RightParen => "right parenthese \")\""@,
        SpecToken::Exclam => "exclam \"!\""@,
        SpecToken::Ellipsis => "ellipsis \"..\""@,
        SpecToken::Dot => "dot \".\""@,
        SpecToken::LogicOr => "logic or \"||\""@,
        SpecToken::Identifier(id) => "identifier \""@ + id + "\""@,
        SpecToken::Number(n) => "number \""@ + decimal(n as nat) + "\""@,
        SpecToken::Char(c) => "char \""@ + seq![c] + "\""@,
        SpecToken::String_(_) => "string"@,
        SpecToken::LineComment(_) => "comment"@,
        SpecToken::BlockComment(_) => "comment"@,
    }
}


proof fn lemma_name_end_after(cs: Seq<char>, k: int)
    requires
        0 <= k <= cs.len(),
    ensures
        name_end(cs, k) matches Ok(j) ==> k <= j <= cs.len(),
    decreases cs.len() - k,
{
    if k < cs.len() && !is_terminator(cs[k]) && is_name_char(cs[k]) {
        lemma_name_end_after(cs, k + 1);
    }
}

proof fn lemma_number_end_after(cs: Seq<char>, k: int)
    requires
        0 <= k <= cs.len(),
    ensures
        number_end(cs, k) matches Ok(j) ==> k <= j <= cs.len(),
    decreases cs.len() - k,
{
    if k < cs.len() && !is_terminator(cs[k]) && (('0' <= cs[k] <= '9') || cs[k] == '_') {
        lemma_number_end_after(cs, k + 1);
    }
}

proof fn lemma_line_end_after(cs: Seq<char>, k: int)
    requires
        0 <= k <= cs.len(),
    ensures
        k <= line_end(cs, k) <= cs.len(),
    decreases cs.len() - k,
{
    if k < cs.len() && cs[k] != '\n' {
        lemma_line_end_after(cs, k + 1);
    }
}

proof fn lemma_number_value_nonnegative(cs: Seq<char>, a: int, b: int)
    requires
        forall|k: int| a <= k < b ==> ('0' <= #[trigger] cs[k] <= '9') || cs[k] == '_',
    ensures
        number_value(cs, a, b) >= 0,
    decreases b - a,
{
    if b > a {
        lemma_number_value_nonnegative(cs, a, b - 1);
    }
}

fn escape_char_exec(c: char) -> (r: Option<char>)
    ensures
        r == escape_char(c),
{
    if c == '\\' {
        Some('\\')
    } else if c == '\'' {
        Some('\'')
    } else if c == '"' {
        Some('"')
    } else if c == 't' {
        Some('\t')
    } else if c == 'r' {
        Some('\r')
    } else if c == 'n' {
        Some('\n')
    } else if c == '0' {
        Some('\0')
    } else {
        None
    }
}

fn is_terminator_exec(c: char) -> (r: bool)
    ensures
        r == is_terminator(c),
{
    c == ' ' || c == '\t' || c == '\r' || c == '\n' || c == ',' || c == '|' || c == '!' || c == '['
        || c == ']' || c == '(' || c == ')' || c == '/' || c == '\'' || c == '"'
}

fn is_name_start_exec(c: char) -> (r: bool)
    ensures
        r == is_name_start(c),
{
    ('a' <= c && c <= 'z') || ('A' <= c && c <= 'Z') || c == '_' || ('\u{a0}' <= c && c <= '\u{d7ff}')
        || ('\u{e000}' <= c && c <= '\u{10ffff}')
}

/// A lexer for the ANRE language.
pub struct Lexer {
    reader: TextReader,
}

impl Lexer {
    /// The text.
    pub closed spec fn text(self) -> Seq<char> {
        self.reader.text()
    }

    /// The index of the next char to read.
    pub closed spec fn position(self) -> int {
        self.reader.index as int
    }

    pub closed spec fn wf(self) -> bool {
        self.reader.wf()
    }

    /// A lexer at the start of the text.
    pub fn new(text: &str) -> (r: Self)
        ensures
            r.wf(),
            r.text() == text@,
            r.position() == 0,
    {
        Lexer { reader: TextReader::new(text) }
    }

    /// Reads an escape from its `\`, in a string or in a char.
    fn lex_escape(&mut self, in_string: bool) -> (r: Result<char, AnreError>)
        requires
            old(self).wf(),
            old(self).reader.index < old(self).text().len(),
            old(self).text()[old(self).reader.index as int] == '\\',
        ensures
            final(self).reader.kept(old(self).reader),
            match spec_escape(old(self).text(), old(self).reader.index as int) {
                Ok((c, j)) => r == Ok::<char, AnreError>(c) && final(self).reader.index == j && j
                    > old(self).reader.index,
                Err(f) => r matches Err(e) && error_matches(e, f),
            },
    {
        let ghost cs = self.text();
        let k = self.reader.index;
        proof {
            lemma_unicode_scan_after(cs, k + 3, 0);
        }
        self.reader.next_char(); // consume '\'
        let e = match self.reader.next_char() {
            Some(e) => e,
            None => {
                return Err(
                    error_at_end(
                        if in_string {
                            "Incomplete character escape sequence."
                        } else {
                            "Incomplete escape character sequence."
                        },
                    ),
                );
            },
        };
        match escape_char_exec(e) {
            Some(c) => Ok(c),
            None => {
                if e == 'u' {
                    if self.reader.peek_char(0) == Some('{') {
                        self.reader.unescape_unicode()
                    } else {
                        Err(error_at("Missing the brace for unicode escape sequence.", self.reader.last_position_forward()))
                    }
                } else {
                    let position = self.reader.last_position();
                    let prefix = if in_string {
                        "Unsupported escape char "
                    } else {
                        "Unexpected escape char "
                    };
                    Err(AnreError::MessageWithLocation(message_with_char(prefix, e, "."), position))
                }
            },
        }
    }

    /// Reads a name from its first char.
    fn lex_identifier(&mut self) -> (r: Result<TokenWithRange, AnreError>)
        requires
            old(self).wf(),
            old(self).reader.index < old(self).text().len(),
            is_name_start(old(self).text()[old(self).reader.index as int]),
        ensures
            final(self).reader.kept(old(self).reader),
            match spec_lex_name(old(self).text(), old(self).reader.index as int) {
                Ok((t, l, j)) => r matches Ok(tw) && tw@ == (t, l) && final(self).reader.index == j && j
                    > old(self).reader.index,
                Err(f) => r matches Err(e) && error_matches(e, f),
            },
    {
        let ghost cs = self.text();
        let start = self.reader.index;
        let mut name = String::new();
        loop
            invariant
                self.reader.kept(old(self).reader),
                cs == self.text(),
                start == old(self).reader.index,
                start <= self.reader.index <= cs.len(),
                name_end(cs, start as int) == name_end(cs, self.reader.index as int),
                name@ == cs.subrange(start as int, self.reader.index as int),
                start < cs.len(),
                self.reader.index == start ==> is_name_start(cs[start as int]),
            ensures
                self.reader.kept(old(self).reader),
                cs == self.text(),
                start < self.reader.index <= cs.len(),
                name_end(cs, start as int) == name_end(cs, self.reader.index as int),
                name@ == cs.subrange(start as int, self.reader.index as int),
                self.reader.index == cs.len() || is_terminator(cs[self.reader.index as int]),
            decreases cs.len() - self.reader.index,
        {
            let c = match self.reader.peek_char(0) {
                Some(c) => c,
                None => {
                    break;
                },
            };
            if is_terminator_exec(c) {
                break;
            }
            if ('0' <= c && c <= '9') || is_name_start_exec(c) {
                push_char(&mut name, c);
                self.reader.next_char();
                proof {
                    assert(name@ =~= cs.subrange(start as int, self.reader.index as int));
                }
            } else {
                let position = self.reader.peek_position();
                return Err(
                    AnreError::MessageWithLocation(message_with_char("Invalid char ", c, " for identifier."), position),
                );
            }
        }
        let range = self.reader.range_to_last(start);
        Ok(TokenWithRange::new(Token::Identifier(name), range))
    }
}


impl Lexer {
    /// Reads a number from its first digit.
    fn lex_number(&mut self) -> (r: Result<TokenWithRange, AnreError>)
        requires
            old(self).wf(),
            old(self).reader.index < old(self).text().len(),
            '0' <= old(self).text()[old(self).reader.index as int] <= '9',
        ensures
            final(self).reader.kept(old(self).reader),
            match spec_lex_number(old(self).text(), old(self).reader.index as int) {
                Ok((t, l, j)) => r matches Ok(tw) && tw@ == (t, l) && final(self).reader.index == j && j
                    > old(self).reader.index,
                Err(f) => r matches Err(e) && error_matches(e, f),
            },
    {
        let ghost cs = self.text();
        let start = self.reader.index;
        let mut value: u32 = 0;
        let mut overflow = false;
        let mut digits = String::new();
        loop
            invariant
                self.reader.kept(old(self).reader),
                cs == self.text(),
                start == old(self).reader.index,
                start < cs.len(),
                start <= self.reader.index <= cs.len(),
                self.reader.index == start ==> '0' <= cs[start as int] <= '9',
                number_end(cs, start as int) == number_end(cs, self.reader.index as int),
                forall|j: int| start <= j < self.reader.index ==> ('0' <= #[trigger] cs[j] <= '9') || cs[j] == '_',
                !overflow ==> value == number_value(cs, start as int, self.reader.index as int),
                overflow ==> number_value(cs, start as int, self.reader.index as int) > u32::MAX,
            ensures
                self.reader.kept(old(self).reader),
                start < self.reader.index <= cs.len(),
                number_end(cs, start as int) == number_end(cs, self.reader.index as int),
                self.reader.index == cs.len() || is_terminator(cs[self.reader.index as int]),
                !overflow ==> value == number_value(cs, start as int, self.reader.index as int),
                overflow ==> number_value(cs, start as int, self.reader.index as int) > u32::MAX,
            decreases cs.len() - self.reader.index,
        {
            let c = match self.reader.peek_char(0) {
                Some(c) => c,
                None => {
                    break;
                },
            };
            if is_terminator_exec(c) {
                break;
            }
            let ghost k = self.reader.index as int;
            if '0' <= c && c <= '9' {
                let d = c as u32 - '0' as u32;
                proof {
                    lemma_number_value_nonnegative(cs, start as int, k);
                    assert(number_value(cs, start as int, k + 1) == number_value(cs, start as int, k) * 10 + d);
                }
                if !overflow && value <= (u32::MAX - d) / 10 {
                    value = value * 10 + d;
                } else {
                    overflow = true;
                }
                push_char(&mut digits, c);
                self.reader.next_char();
            } else if c == '_' {
                proof {
                    assert(number_value(cs, start as int, k + 1) == number_value(cs, start as int, k));
                }
                self.reader.next_char();
            } else {
                let position = self.reader.peek_position();
                return Err(
                    AnreError::MessageWithLocation(
                        message_with_char("Invalid char ", c, " for decimal number."),
                        position,
                    ),
                );
            }
        }
        let range = self.reader.range_to_last(start);
        if overflow {
            let mut message = String::new();
            append_str(&mut message, "Can not convert \"");
            append_str(&mut message, digits.as_str());
            append_str(&mut message, "\" to integer number.");
            return Err(AnreError::MessageWithLocation(message, range));
        }
        Ok(TokenWithRange::new(Token::Number(value), range))
    }
}

impl Lexer {
    /// Reads a char from its `'`.
    fn lex_char(&mut self) -> (r: Result<TokenWithRange, AnreError>)
        requires
            old(self).wf(),
            old(self).reader.index < old(self).text().len(),
        ensures
            final(self).reader.kept(old(self).reader),
            match spec_lex_char(old(self).text(), old(self).reader.index as int) {
                Ok((t, l, j)) => r matches Ok(tw) && tw@ == (t, l) && final(self).reader.index == j && j
                    > old(self).reader.index,
                Err(f) => r matches Err(e) && error_matches(e, f),
            },
    {
        let ghost cs = self.text();
        let start = self.reader.index;
        self.reader.next_char(); // consume the opening quote
        let c = match self.reader.peek_char(0) {
            Some(c) => c,
            None => {
                return Err(error_at_end("Incomplete character."));
            },
        };
        let ch = if c == '\\' {
            self.lex_escape(false)?
        } else if c == '\'' {
            self.reader.next_char();
            let range = self.reader.range_to_last(start);
            return Err(error_at("Empty char.", range));
        } else {
            self.reader.next_char();
            c
        };
        match self.reader.next_char() {
            Some(q) => {
                if q != '\'' {
                    return Err(error_at("Expected a closing single quote for char", self.reader.last_position()));
                }
            },
            None => {
                return Err(error_at_end("Incomplete character."));
            },
        }
        let range = self.reader.range_to_last(start);
        Ok(TokenWithRange::new(Token::Char(ch), range))
    }

    /// Reads a string from its `"`.
    fn lex_string(&mut self) -> (r: Result<TokenWithRange, AnreError>)
        requires
            old(self).wf(),
            old(self).reader.index < old(self).text().len(),
        ensures
            final(self).reader.kept(old(self).reader),
            match spec_lex_string(old(self).text(), old(self).reader.index as int) {
                Ok((t, l, j)) => r matches Ok(tw) && tw@ == (t, l) && final(self).reader.index == j && j
                    > old(self).reader.index,
                Err(f) => r matches Err(e) && error_matches(e, f),
            },
    {
        let ghost cs = self.text();
        let start = self.reader.index;
        self.reader.next_char(); // consume the opening quote
        let mut content = String::new();
        loop
            invariant_except_break
                string_body(cs, start + 1, Seq::empty()) == string_body(cs, self.reader.index as int, content@),
            invariant
                self.reader.kept(old(self).reader),
                cs == self.text(),
                start == old(self).reader.index,
                start < self.reader.index <= cs.len(),
            ensures
                self.reader.kept(old(self).reader),
                start + 1 < self.reader.index <= cs.len(),
                string_body(cs, start + 1, Seq::empty()) == Ok::<(Seq<char>, int), Failure>(
                    (content@, self.reader.index - 1),
                ),
            decreases cs.len() - self.reader.index,
        {
            let c = match self.reader.peek_char(0) {
                Some(c) => c,
                None => {
                    return Err(error_at_end("Incomplete string."));
                },
            };
            if c == '"' {
                self.reader.next_char();
                break;
            } else if c == '\\' {
                let e = self.lex_escape(true)?;
                push_char(&mut content, e);
            } else {
                push_char(&mut content, c);
                self.reader.next_char();
            }
        }
        let range = self.reader.range_to_last(start);
        Ok(TokenWithRange::new(Token::String_(content), range))
    }

    /// Reads a line comment from its `//`; the line break is not part of it.
    fn lex_line_comment(&mut self) -> (r: TokenWithRange)
        requires
            old(self).wf(),
            old(self).reader.index + 1 < old(self).text().len(),
        ensures
            final(self).reader.kept(old(self).reader),
            ({
                let (t, l, j) = spec_lex_line_comment(old(self).text(), old(self).reader.index as int);
                r@ == (t, l) && final(self).reader.index == j && j > old(self).reader.index
            }),
    {
        let ghost cs = self.text();
        let start = self.reader.index;
        self.reader.next_char(); // consume the first '/'
        self.reader.next_char(); // consume the second '/'
        let mut content = String::new();
        loop
            invariant
                self.reader.kept(old(self).reader),
                cs == self.text(),
                start == old(self).reader.index,
                start + 2 <= self.reader.index <= cs.len(),
                line_end(cs, start + 2) == line_end(cs, self.reader.index as int),
                content@ == cs.subrange(start + 2, self.reader.index as int),
            ensures
                self.reader.kept(old(self).reader),
                start + 2 <= self.reader.index <= cs.len(),
                line_end(cs, start + 2) == self.reader.index,
                content@ == cs.subrange(start + 2, self.reader.index as int),
            decreases cs.len() - self.reader.index,
        {
            let c = match self.reader.peek_char(0) {
                Some(c) => c,
                None => {
                    break;
                },
            };
            if c == '\n' {
                break;
            }
            if c == '\r' {
                if let Some(following) = self.reader.peek_char(1) {
                    if following == '\n' {
                        break;
                    }
                }
            }
            push_char(&mut content, c);
            self.reader.next_char();
            proof {
                assert(content@ =~= cs.subrange(start + 2, self.reader.index as int));
            }
        }
        let range = self.reader.range_to_last(start);
        TokenWithRange::new(Token::Comment(Comment::Line(content)), range)
    }

    /// Reads a block comment from its `/*`; block comments nest.
    fn lex_block_comment(&mut self) -> (r: Result<TokenWithRange, AnreError>)
        requires
            old(self).wf(),
            old(self).reader.index + 1 < old(self).text().len(),
        ensures
            final(self).reader.kept(old(self).reader),
            match spec_lex_block_comment(old(self).text(), old(self).reader.index as int) {
                Ok((t, l, j)) => r matches Ok(tw) && tw@ == (t, l) && final(self).reader.index == j && j
                    > old(self).reader.index,
                Err(f) => r matches Err(e) && error_matches(e, f),
            },
    {
        let ghost cs = self.text();
        let start = self.reader.index;
        self.reader.next_char(); // consume '/'
        self.reader.next_char(); // consume '*'
        let mut content = String::new();
        let mut depth: usize = 1;
        loop
            invariant_except_break
                1 <= depth <= self.reader.index,
                block_body(cs, start + 2, 1, Seq::empty()) == block_body(
                    cs,
                    self.reader.index as int,
                    depth as nat,
                    content@,
                ),
            invariant
                self.reader.kept(old(self).reader),
                cs == self.text(),
                start == old(self).reader.index,
                start + 2 <= self.reader.index <= cs.len(),
            ensures
                self.reader.kept(old(self).reader),
                start + 2 < self.reader.index <= cs.len(),
                block_body(cs, start + 2, 1, Seq::empty()) == Ok::<(Seq<char>, int), Failure>(
                    (content@, self.reader.index - 1),
                ),
            decreases cs.len() - self.reader.index,
        {
            let c = match self.reader.next_char() {
                Some(c) => c,
                None => {
                    let message = if depth > 1 {
                        "Incomplete nested block comment."
                    } else {
                        "Incomplete block comment."
                    };
                    return Err(error_at_end(message));
                },
            };
            if c == '/' && self.reader.peek_char(0) == Some('*') {
                append_str(&mut content, "/*");
                self.reader.next_char();
                depth = depth + 1;
            } else if c == '*' && self.reader.peek_char(0) == Some('/') {
                self.reader.next_char();
                if depth == 1 {
                    break;
                }
                depth = depth - 1;
                append_str(&mut content, "*/");
            } else {
                push_char(&mut content, c);
            }
        }
        let range = self.reader.range_to_last(start);
        Ok(TokenWithRange::new(Token::Comment(Comment::Block(content)), range))
    }
}

/// The tokens read so far joined with the result of lexing the rest.
pub open spec fn joined(
    prefix: Seq<(SpecToken, Location)>,
    r: Result<Seq<(SpecToken, Location)>, Failure>,
) -> Result<Seq<(SpecToken, Location)>, Failure> {
    match r {
        Ok(rest) => Ok(prefix + rest),
        Err(f) => Err(f),
    }
}

proof fn lemma_token_views_push(v: Seq<TokenWithRange>, t: TokenWithRange)
    ensures
        token_views(v.push(t)) == token_views(v).push(t@),
{
    assert(token_views(v.push(t)) =~= token_views(v).push(t@));
}

impl Lexer {
    /// A token of `n` chars from the current one.
    fn take_token(&mut self, token: Token, n: usize) -> (r: TokenWithRange)
        requires
            old(self).wf(),
            1 <= n,
            old(self).reader.index + n <= old(self).text().len(),
        ensures
            final(self).reader.kept(old(self).reader),
            final(self).reader.index == old(self).reader.index + n,
            r@ == (token@, span(old(self).text(), old(self).reader.index as int, n)),
    {
        let range = self.reader.span_at(self.reader.index, n);
        self.reader.index = self.reader.index + n;
        TokenWithRange::new(token, range)
    }

    /// Reads what starts at the current char: a token, or nothing for a
    /// space or a tab.
    fn lex_one(&mut self) -> (r: Result<Option<TokenWithRange>, AnreError>)
        requires
            old(self).wf(),
            old(self).reader.index < old(self).text().len(),
        ensures
            final(self).reader.kept(old(self).reader),
            match lex_step(old(self).text(), old(self).reader.index as int) {
                Ok((t, j)) => r matches Ok(o) && final(self).reader.index == j && j > old(self).reader.index
                    && match o {
                    Some(tw) => t == Some(tw@),
                    None => t is None,
                },
                Err(f) => r matches Err(e) && error_matches(e, f),
            },
    {
        let ghost cs = self.text();
        let i = self.reader.index;
        let c = match self.reader.peek_char(0) {
            Some(c) => c,
            None => {
                return Ok(None);
            },
        };
        let next = self.reader.peek_char(1);
        if c == ' ' || c == '\t' {
            self.reader.next_char();
            Ok(None)
        } else if c == '\r' && next == Some('\n') {
            Ok(Some(self.take_token(Token::NewLine, 2)))
        } else if c == '\n' {
            Ok(Some(self.take_token(Token::NewLine, 1)))
        } else if c == ',' {
            Ok(Some(self.take_token(Token::Comma, 1)))
        } else if c == '|' && next == Some('|') {
            Ok(Some(self.take_token(Token::LogicOr, 2)))
        } else if c == '!' {
            Ok(Some(self.take_token(Token::Exclam, 1)))
        } else if c == '.' {
            if next == Some('.') {
                Ok(Some(self.take_token(Token::Ellipsis, 2)))
            } else {
                Ok(Some(self.take_token(Token::Dot, 1)))
            }
        } else if c == '[' {
            Ok(Some(self.take_token(Token::LeftBracket, 1)))
        } else if c == ']' {
            Ok(Some(self.take_token(Token::RightBracket, 1)))
        } else if c == '(' {
            Ok(Some(self.take_token(Token::LeftParen, 1)))
        } else if c == ')' {
            Ok(Some(self.take_token(Token::RightParen, 1)))
        } else if '0' <= c && c <= '9' {
            Ok(Some(self.lex_number()?))
        } else if c == '"' {
            Ok(Some(self.lex_string()?))
        } else if c == '\'' {
            Ok(Some(self.lex_char()?))
        } else if c == '/' && next == Some('/') {
            Ok(Some(self.lex_line_comment()))
        } else if c == '/' && next == Some('*') {
            Ok(Some(self.lex_block_comment()?))
        } else if is_name_start_exec(c) {
            Ok(Some(self.lex_identifier()?))
        } else {
            let position = self.reader.peek_position();
            Err(AnreError::MessageWithLocation(message_with_char("Unexpected char ", c, "."), position))
        }
    }

    /// Reads the tokens of the text from the current position to its end.
    pub fn lex(&mut self) -> (r: Result<Vec<TokenWithRange>, AnreError>)
        requires
            old(self).wf(),
        ensures
            final(self).wf(),
            final(self).text() == old(self).text(),
            match lex_from(old(self).text(), old(self).position()) {
                Ok(toks) => r matches Ok(v) && token_views(v@) == toks,
                Err(f) => r matches Err(e) && error_matches(e, f),
            },
    {
        let ghost cs = self.text();
        let ghost start = self.reader.index as int;
        let mut v: Vec<TokenWithRange> = Vec::new();
        proof {
            assert(token_views(v@) =~= Seq::empty());
            if let Ok(rest) = lex_from(cs, start) {
                assert(Seq::<(SpecToken, Location)>::empty() + rest =~= rest);
            }
        }
        while self.reader.index < self.reader.chars.len()
            invariant
                self.reader.kept(old(self).reader),
                cs == self.text(),
                cs == old(self).text(),
                start == old(self).position(),
                lex_from(cs, start) == joined(token_views(v@), lex_from(cs, self.reader.index as int)),
            decreases cs.len() - self.reader.index,
        {
            let ghost prefix = token_views(v@);
            match self.lex_one() {
                Ok(Some(tw)) => {
                    proof {
                        lemma_token_views_push(v@, tw);
                        if let Ok(rest) = lex_from(cs, self.reader.index as int) {
                            assert(prefix + (seq![tw@] + rest) =~= prefix.push(tw@) + rest);
                        }
                    }
                    v.push(tw);
                },
                Ok(None) => {},
                Err(e) => {
                    return Err(e);
                },
            }
        }
        proof {
            assert(token_views(v@) + Seq::empty() =~= token_views(v@));
        }
        Ok(v)
    }
}

/// The tokens come one after another within the text, from index `from`
/// on: each covers at least one char, begins at or after the end of the one
/// before, and ends within the text.
pub open spec fn ranges_in_order(toks: Seq<(SpecToken, Location)>, from: int, len: int) -> bool {
    &&& forall|k: int|
        0 <= k < toks.len() ==> from <= (#[trigger] toks[k]).1.index && toks[k].1.length >= 1
            && toks[k].1.index + toks[k].1.length <= len
    &&& forall|k: int|
        0 <= k < toks.len() - 1 ==> (#[trigger] toks[k]).1.index + toks[k].1.length <= toks[k
            + 1].1.index
}

/// A token read from index `i` up to index `j` has the range of the chars
/// `i..j`.
proof fn lemma_step_range(cs: Seq<char>, i: int)
    requires
        0 <= i < cs.len() <= usize::MAX,
    ensures
        lex_step(cs, i) matches Ok((Some((t, l)), j)) ==> (i < j <= cs.len() ==> l.index == i
            && l.length == j - i),
{
    lemma_pos(cs, i);
}

proof fn lemma_lex_from_ranges(cs: Seq<char>, i: int)
    requires
        0 <= i,
        cs.len() <= usize::MAX,
    ensures
        lex_from(cs, i) matches Ok(toks) ==> ranges_in_order(toks, i, cs.len() as int),
    decreases cs.len() - i,
{
    if i < cs.len() {
        lemma_step_range(cs, i);
        if let Ok((t, j)) = lex_step(cs, i) {
            if i < j <= cs.len() {
                lemma_lex_from_ranges(cs, j);
                if let Ok(rest) = lex_from(cs, j) {
                    if let Some(tok) = t {
                        let toks = seq![tok] + rest;
                        assert forall|k: int| 0 <= k < toks.len() implies i <= (#[trigger] toks[k]).1.index
                            && toks[k].1.length >= 1 && toks[k].1.index + toks[k].1.length <= cs.len() by {
                            if k > 0 {
                                assert(toks[k] == rest[k - 1]);
                            }
                        }
                        assert forall|k: int| 0 <= k < toks.len() - 1 implies (#[trigger] toks[k]).1.index
                            + toks[k].1.length <= toks[k + 1].1.index by {
                            assert(toks[k + 1] == rest[k]);
                            if k > 0 {
                                assert(toks[k] == rest[k - 1]);
                            }
                        }
                    }
                }
            }
        }
    }
}

/// The tokens of a text come in order: each covers at least one char of the
/// text, and begins at or after the end of the one before.
pub proof fn lemma_lex_ranges_in_order(cs: Seq<char>)
    requires
        cs.len() <= usize::MAX,
    ensures
        lex_from(cs, 0) matches Ok(toks) ==> ranges_in_order(toks, 0, cs.len() as int),
{
    lemma_lex_from_ranges(cs, 0);
}

} // verus!
