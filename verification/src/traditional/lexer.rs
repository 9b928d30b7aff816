use vstd::prelude::*;

use crate::charwithposition::{lemma_position_after_bounds, position_after, CharWithPosition, CharsWithPositionIter};
use crate::location::Location;
use crate::AnreError;

use super::token::{Repetition, SpecToken, Token, TokenWithRange};

verus! {

// Syntax of traditional regular expressions:
//
// - `[ ]` charset, `[^ ]` negative charset
// - `{m}`, `{m,}`, `{m,n}` repetitions, each may be followed by `?` (lazy)
// - `( )` capture group, `(?: )` non-capturing group, `(?<name> )` named group
// - `*`, `+`, `?` and their lazy forms `*?`, `+?`, `??`
// - `|` logic or, `^` start assertion, `$` end assertion, `.` any char
// - `\t`, `\r`, `\n`, `\\`, `\u{hhhh}` and escaped meta chars
// - `\w`, `\W`, `\d`, `\D`, `\s`, `\S` preset charsets
// - `\b`, `\B` boundary assertions
// - `\number` and `\k<name>` back references
// - `(?= )`, `(?! )`, `(?<= )`, `(?<! )` look-around assertions
//
// Meta chars `( ) { } [ ] + * ? . | ^ $ \` are escaped to stand for
// themselves; in a charset only `]` and `\` need to be.

/// Where lexing failed: at a location of the text, or at its end.
pub enum Failure {
    At(Location),
    End,
}

/// Whether an error reports the failure `f`: `MessageWithLocation` at the
/// same location, or `UnexpectedEndOfDocument`.
pub open spec fn error_matches(e: AnreError, f: Failure) -> bool {
    match f {
        Failure::At(l) => e matches AnreError::MessageWithLocation(_, loc) && loc == l,
        Failure::End => e is UnexpectedEndOfDocument,
    }
}

/// The position of the character at index `i`.
pub open spec fn pos(cs: Seq<char>, i: int) -> Location {
    position_after(cs.take(i))
}

/// The position of the last character read before index `j`, or the start
/// of the text when none was read.
pub open spec fn last_pos(cs: Seq<char>, j: int) -> Location {
    if j <= 0 {
        Location { index: 0, line: 0, column: 0, length: 0 }
    } else {
        pos(cs, j - 1)
    }
}

/// The range from the character at `a` to the character at `b`, both included.
pub open spec fn incl(cs: Seq<char>, a: int, b: int) -> Location {
    Location { length: (b - a + 1) as usize, ..pos(cs, a) }
}

/// The range of `n` characters from index `a`.
pub open spec fn span(cs: Seq<char>, a: int, n: usize) -> Location {
    Location { length: n, ..pos(cs, a) }
}

pub open spec fn is_digit(c: char) -> bool {
    '0' <= c <= '9'
}

pub open spec fn is_hex_digit(c: char) -> bool {
    ('0' <= c <= '9') || ('a' <= c <= 'f') || ('A' <= c <= 'F')
}

/// The characters that may form a name: `[0-9a-zA-Z_]` and the code points
/// from `\u{a0}` on (all but the surrogates, which are no chars).
pub open spec fn is_identifier_char(c: char) -> bool {
    ('0' <= c <= '9') || ('a' <= c <= 'z') || ('A' <= c <= 'Z') || c == '_' || ('\u{a0}' <= c
        <= '\u{d7ff}') || ('\u{e000}' <= c <= '\u{10ffff}')
}

/// The meta chars that an escape turns into themselves.
pub open spec fn is_meta_char(c: char) -> bool {
    c == '(' || c == ')' || c == '{' || c == '}' || c == '[' || c == ']' || c == '+' || c == '*'
        || c == '?' || c == '.' || c == '|' || c == '^' || c == '$'
}

/// The char that `\t`, `\r`, `\n` or `\\` stands for.
pub open spec fn general_escape(c: char) -> Option<char> {
    if c == '\\' {
        Some('\\')
    } else if c == 't' {
        Some('\t')
    } else if c == 'r' {
        Some('\r')
    } else if c == 'n' {
        Some('\n')
    } else {
        None
    }
}

/// The index of the first non-digit at or after `k`.
pub open spec fn digits_end(cs: Seq<char>, k: int) -> int
    decreases cs.len() - k,
{
    if k < 0 || k >= cs.len() || !is_digit(cs[k]) {
        k
    } else {
        digits_end(cs, k + 1)
    }
}

/// The value of the decimal digits `cs[a..b]`.
pub open spec fn digits_value(cs: Seq<char>, a: int, b: int) -> int
    decreases b - a,
{
    if b <= a {
        0
    } else {
        digits_value(cs, a, b - 1) * 10 + (cs[b - 1] as int - '0' as int)
    }
}

/// The value of a hexadecimal digit.
pub open spec fn hex_digit_value(c: char) -> int {
    if '0' <= c <= '9' {
        c as int - '0' as int
    } else if 'a' <= c <= 'f' {
        c as int - 'a' as int + 10
    } else {
        c as int - 'A' as int + 10
    }
}

/// A hexadecimal digit has its base-16 value, whatever its case: the `k`-th
/// character of `0123456789abcdef`, and of `0123456789ABCDEF`, is a digit
/// worth `k`.
pub proof fn lemma_hex_digit_values(k: int)
    requires
        0 <= k < 16,
    ensures
        is_hex_digit("0123456789abcdef"@[k]),
        is_hex_digit("0123456789ABCDEF"@[k]),
        hex_digit_value("0123456789abcdef"@[k]) == k,
        hex_digit_value("0123456789ABCDEF"@[k]) == k,
{
    reveal_strlit("0123456789abcdef");
    reveal_strlit("0123456789ABCDEF");
    assert(k == 0 || k == 1 || k == 2 || k == 3 || k == 4 || k == 5 || k == 6 || k == 7 || k == 8
        || k == 9 || k == 10 || k == 11 || k == 12 || k == 13 || k == 14 || k == 15);
}

/// The value of the hexadecimal digits `cs[a..b]`.
pub open spec fn hex_value(cs: Seq<char>, a: int, b: int) -> int
    decreases b - a,
{
    if b <= a {
        0
    } else {
        hex_value(cs, a, b - 1) * 16 + hex_digit_value(cs[b - 1])
    }
}

/// Whether a value is a Unicode scalar value: at most `0x10ffff` and not a surrogate.
pub open spec fn is_scalar_value(v: int) -> bool {
    0 <= v <= 0x10ffff && !(0xd800 <= v <= 0xdfff)
}

/// A decimal number from index `i`: its value and the index after it.
pub open spec fn spec_lex_number(cs: Seq<char>, i: int) -> Result<(usize, int), Failure> {
    let k = digits_end(cs, i);
    if k == i {
        Err(Failure::At(last_pos(cs, i).forward()))
    } else if digits_value(cs, i, k) > usize::MAX {
        Err(Failure::At(incl(cs, i, k - 1)))
    } else {
        Ok((digits_value(cs, i, k) as usize, k))
    }
}

/// The index of the `>` that ends a name whose chars start at `k`.
pub open spec fn identifier_end(cs: Seq<char>, k: int) -> Result<int, Failure>
    decreases cs.len() - k,
{
    if k < 0 || k >= cs.len() {
        Err(Failure::End)
    } else if is_identifier_char(cs[k]) {
        identifier_end(cs, k + 1)
    } else if cs[k] == '>' {
        Ok(k)
    } else {
        Err(Failure::At(pos(cs, k)))
    }
}

/// A name in angle brackets, `<name>`, from the `<` at index `i`: the name
/// and the index after the `>`.
pub open spec fn spec_lex_identifier(cs: Seq<char>, i: int) -> Result<(Seq<char>, int), Failure> {
    match identifier_end(cs, i + 1) {
        Err(e) => Err(e),
        Ok(k) => if k == i + 1 {
            Err(Failure::At(pos(cs, i).forward()))
        } else {
            Ok((cs.subrange(i + 1, k), k + 1))
        },
    }
}

/// Reads the chars of a unicode escape after its `{`, from index `k`, with
/// `count` hex digits read so far: the index of the `}` or of a seventh digit.
pub open spec fn unicode_scan(cs: Seq<char>, k: int, count: int) -> Result<int, Failure>
    decreases cs.len() - k,
{
    if k < 0 || k >= cs.len() {
        Err(Failure::End)
    } else if cs[k] == '}' {
        Ok(k)
    } else if is_hex_digit(cs[k]) {
        if count + 1 > 6 {
            Ok(k)
        } else {
            unicode_scan(cs, k + 1, count + 1)
        }
    } else {
        Err(Failure::At(pos(cs, k)))
    }
}

/// A unicode escape `{hhhh}` from the `{` at index `i`: the char and the
/// index after the `}`. One to six hex digits that make a scalar value.
pub open spec fn spec_unescape_unicode(cs: Seq<char>, i: int) -> Result<(char, int), Failure> {
    match unicode_scan(cs, i + 1, 0) {
        Err(e) => Err(e),
        Ok(last) => {
            let range = incl(cs, i, last);
            if cs[last] != '}' {
                Err(Failure::At(range))
            } else if last == i + 1 {
                Err(Failure::At(range))
            } else if !is_scalar_value(hex_value(cs, i + 1, last)) {
                Err(Failure::At(range))
            } else {
                Ok(((hex_value(cs, i + 1, last) as u32) as char, last + 1))
            }
        },
    }
}

/// An escape outside charsets, from the `\` at index `i`: the token, its
/// range and the index after it.
pub open spec fn spec_lex_main_escaping(cs: Seq<char>, i: int) -> Result<(SpecToken, Location, int), Failure> {
    let k = i + 1;
    if k >= cs.len() {
        Err(Failure::End)
    } else {
        let c = cs[k];
        if general_escape(c) is Some {
            Ok((SpecToken::Char(general_escape(c).unwrap()), incl(cs, i, k), k + 1))
        } else if c == 'u' {
            if k + 1 < cs.len() && cs[k + 1] == '{' {
                match spec_unescape_unicode(cs, k + 1) {
                    Err(e) => Err(e),
                    Ok((ch, j)) => Ok((SpecToken::Char(ch), incl(cs, i, j - 1), j)),
                }
            } else {
                Err(Failure::At(pos(cs, k).forward()))
            }
        } else if is_meta_char(c) {
            Ok((SpecToken::Char(c), incl(cs, i, k), k + 1))
        } else if c == 'w' || c == 'W' || c == 'd' || c == 'D' || c == 's' || c == 'S' {
            Ok((SpecToken::PresetCharSet(c), incl(cs, i, k), k + 1))
        } else if c == 'b' || c == 'B' {
            Ok((SpecToken::BoundaryAssertion(c), incl(cs, i, k), k + 1))
        } else if '1' <= c <= '9' {
            match spec_lex_number(cs, k) {
                Err(e) => Err(e),
                Ok((n, j)) => Ok((SpecToken::BackReferenceNumber(n), incl(cs, i, j - 1), j)),
            }
        } else if c == '0' {
            Err(Failure::At(pos(cs, i).forward()))
        } else if c == 'k' {
            if k + 1 < cs.len() && cs[k + 1] == '<' {
                match spec_lex_identifier(cs, k + 1) {
                    Err(e) => Err(e),
                    Ok((name, j)) => Ok((SpecToken::BackReferenceIdentifier(name), incl(cs, i, j - 1), j)),
                }
            } else {
                Err(Failure::At(pos(cs, k).forward()))
            }
        } else {
            Err(Failure::At(span(cs, i, 2)))
        }
    }
}

/// An escape inside a charset, from the `\` at index `i`: only general
/// escapes, unicode escapes, meta chars and the positive preset charsets.
pub open spec fn spec_lex_charset_escaping(cs: Seq<char>, i: int) -> Result<(SpecToken, Location, int), Failure> {
    let k = i + 1;
    if k >= cs.len() {
        Err(Failure::End)
    } else {
        let c = cs[k];
        if general_escape(c) is Some {
            Ok((SpecToken::Char(general_escape(c).unwrap()), incl(cs, i, k), k + 1))
        } else if c == 'u' {
            if k + 1 < cs.len() && cs[k + 1] == '{' {
                match spec_unescape_unicode(cs, k + 1) {
                    Err(e) => Err(e),
                    Ok((ch, j)) => Ok((SpecToken::Char(ch), incl(cs, i, j - 1), j)),
                }
            } else {
                Err(Failure::At(pos(cs, k).forward()))
            }
        } else if is_meta_char(c) {
            Ok((SpecToken::Char(c), incl(cs, i, k), k + 1))
        } else if c == 'w' || c == 'd' || c == 's' {
            Ok((SpecToken::PresetCharSet(c), incl(cs, i, k), k + 1))
        } else {
            Err(Failure::At(span(cs, i, 2)))
        }
    }
}

/// Expects the `}` of a repetition at index `k`; the index after it.
pub open spec fn expect_close_brace(cs: Seq<char>, k: int) -> Result<int, Failure> {
    if k >= cs.len() {
        Err(Failure::End)
    } else if cs[k] == '}' {
        Ok(k + 1)
    } else {
        Err(Failure::At(pos(cs, k)))
    }
}

/// The repetition bounds after `{` at index `i`, and the index after the `}`.
pub open spec fn repetition_bounds(cs: Seq<char>, i: int) -> Result<(Repetition, int), Failure> {
    match spec_lex_number(cs, i + 1) {
        Err(e) => Err(e),
        Ok((from, k)) => if k < cs.len() && cs[k] == ',' {
            if k + 1 < cs.len() && cs[k + 1] == '}' {
                Ok((Repetition::AtLeast(from), k + 2))
            } else {
                match spec_lex_number(cs, k + 1) {
                    Err(e) => Err(e),
                    Ok((to, k2)) => match expect_close_brace(cs, k2) {
                        Err(e) => Err(e),
                        Ok(j) => Ok((Repetition::Range(from, to), j)),
                    },
                }
            }
        } else {
            match expect_close_brace(cs, k) {
                Err(e) => Err(e),
                Ok(j) => Ok((Repetition::Specified(from), j)),
            }
        },
    }
}

/// A repetition `{...}` from the `{` at index `i`, with an optional `?`.
pub open spec fn spec_lex_repetition(cs: Seq<char>, i: int) -> Result<(SpecToken, Location, int), Failure> {
    match repetition_bounds(cs, i) {
        Err(e) => Err(e),
        Ok((rep, j)) => if j < cs.len() && cs[j] == '?' {
            Ok((SpecToken::Repetition(rep, true), incl(cs, i, j), j + 1))
        } else {
            Ok((SpecToken::Repetition(rep, false), incl(cs, i, j - 1), j))
        },
    }
}

/// The tokens of a charset's content from index `k` up to its `]`, and the
/// index of that `]`.
pub open spec fn charset_body(cs: Seq<char>, k: int) -> Result<(Seq<(SpecToken, Location)>, int), Failure>
    decreases cs.len() - k,
{
    if k < 0 || k >= cs.len() {
        Err(Failure::End)
    } else if cs[k] == ']' {
        Ok((Seq::empty(), k))
    } else if cs[k] == '\\' {
        match spec_lex_charset_escaping(cs, k) {
            Err(e) => Err(e),
            Ok((t, l, j)) => if k < j <= cs.len() {
                match charset_body(cs, j) {
                    Err(e) => Err(e),
                    Ok((rest, e)) => Ok((seq![(t, l)] + rest, e)),
                }
            } else {
                Err(Failure::End)
            },
        }
    } else {
        match charset_body(cs, k + 1) {
            Err(e) => Err(e),
            Ok((rest, e)) => Ok((seq![(SpecToken::Char(cs[k]), span(cs, k, 1))] + rest, e)),
        }
    }
}

/// The range from the start of range `p` to the start of range `q`, both included.
pub open spec fn pair_incl(p: Location, q: Location) -> Location {
    Location { length: (q.index - p.index + 1) as usize, ..p }
}

/// Merges `char '-' char` into char ranges, from index `idx` of the charset
/// tokens down to index 2.
pub open spec fn merge_ranges(toks: Seq<(SpecToken, Location)>, idx: int) -> Result<Seq<(SpecToken, Location)>, Failure>
    decreases idx,
{
    if idx <= 1 || idx + 1 >= toks.len() {
        Ok(toks)
    } else if toks[idx].0 == SpecToken::Char('-') {
        if !(toks[idx - 1].0 is Char) {
            Err(Failure::At(toks[idx - 1].1))
        } else if !(toks[idx + 1].0 is Char) {
            Err(Failure::At(toks[idx + 1].1))
        } else {
            let merged = (
                SpecToken::CharRange(toks[idx - 1].0->Char_0, toks[idx + 1].0->Char_0),
                pair_incl(toks[idx - 1].1, toks[idx + 1].1),
            );
            merge_ranges(
                toks.subrange(0, idx - 1) + seq![merged] + toks.subrange(idx + 2, toks.len() as int),
                idx - 2,
            )
        }
    } else {
        merge_ranges(toks, idx - 1)
    }
}

/// A charset `[...]` or `[^...]` from the `[` at index `i`: its tokens, with
/// `a-z` merged into ranges, and the index after its `]`.
pub open spec fn spec_lex_charset(cs: Seq<char>, i: int) -> Result<(Seq<(SpecToken, Location)>, int), Failure> {
    let negative = i + 1 < cs.len() && cs[i + 1] == '^';
    let head = if negative {
        (SpecToken::CharSetStartNegative, span(cs, i, 2))
    } else {
        (SpecToken::CharSetStart, span(cs, i, 1))
    };
    let k = if negative { i + 2 } else { i + 1 };
    match charset_body(cs, k) {
        Err(e) => Err(e),
        Ok((body, e)) => {
            let raw = seq![head] + body + seq![(SpecToken::CharSetEnd, span(cs, e, 1))];
            if raw.len() > 4 {
                match merge_ranges(raw, raw.len() - 3) {
                    Err(err) => Err(err),
                    Ok(toks) => Ok((toks, e + 1)),
                }
            } else {
                Ok((raw, e + 1))
            }
        },
    }
}

/// A token of `n` characters from index `i`.
pub open spec fn tok_n(cs: Seq<char>, i: int, t: SpecToken, n: usize) -> Result<
    (Seq<(SpecToken, Location)>, int),
    Failure,
> {
    Ok((seq![(t, span(cs, i, n))], i + n))
}

/// The tokens that start at index `i` (one token, or those of a charset)
/// and the index after them.
pub open spec fn lex_step(cs: Seq<char>, i: int) -> Result<(Seq<(SpecToken, Location)>, int), Failure> {
    let c = cs[i];
    let next = if i + 1 < cs.len() { Some(cs[i + 1]) } else { None };
    if c == '[' {
        spec_lex_charset(cs, i)
    } else if c == ']' {
        tok_n(cs, i, SpecToken::CharSetEnd, 1)
    } else if c == '{' {
        match spec_lex_repetition(cs, i) {
            Err(e) => Err(e),
            Ok((t, l, j)) => Ok((seq![(t, l)], j)),
        }
    } else if c == '(' && next == Some('?') {
        let third = if i + 2 < cs.len() { Some(cs[i + 2]) } else { None };
        if third == Some(':') {
            Ok((seq![(SpecToken::NonCapturing, span(cs, i, 3))], i + 3))
        } else if third == Some('=') {
            Ok((seq![(SpecToken::LookAhead, span(cs, i, 3))], i + 3))
        } else if third == Some('!') {
            Ok((seq![(SpecToken::LookAheadNegative, span(cs, i, 3))], i + 3))
        } else if third == Some('<') {
            let fourth = if i + 3 < cs.len() { Some(cs[i + 3]) } else { None };
            if fourth == Some('=') {
                Ok((seq![(SpecToken::LookBehind, span(cs, i, 4))], i + 4))
            } else if fourth == Some('!') {
                Ok((seq![(SpecToken::LookBehindNegative, span(cs, i, 4))], i + 4))
            } else {
                match spec_lex_identifier(cs, i + 2) {
                    Err(e) => Err(e),
                    Ok((name, j)) => Ok((seq![(SpecToken::NamedCapture(name), incl(cs, i, j - 1))], j)),
                }
            }
        } else {
            Err(Failure::At(Location { length: 2, ..last_pos(cs, i) }))
        }
    } else if c == '(' {
        tok_n(cs, i, SpecToken::GroupStart, 1)
    } else if c == ')' {
        tok_n(cs, i, SpecToken::GroupEnd, 1)
    } else if c == '?' {
        if next == Some('?') { tok_n(cs, i, SpecToken::OptionalLazy, 2) } else { tok_n(cs, i, SpecToken::Optional, 1) }
    } else if c == '+' {
        if next == Some('?') { tok_n(cs, i, SpecToken::OneOrMoreLazy, 2) } else { tok_n(cs, i, SpecToken::OneOrMore, 1) }
    } else if c == '*' {
        if next == Some('?') { tok_n(cs, i, SpecToken::ZeroOrMoreLazy, 2) } else { tok_n(cs, i, SpecToken::ZeroOrMore, 1) }
    } else if c == '^' {
        tok_n(cs, i, SpecToken::StartAssertion, 1)
    } else if c == '$' {
        tok_n(cs, i, SpecToken::EndAssertion, 1)
    } else if c == '.' {
        tok_n(cs, i, SpecToken::Dot, 1)
    } else if c == '|' {
        tok_n(cs, i, SpecToken::LogicOr, 1)
    } else if c == '\\' {
        match spec_lex_main_escaping(cs, i) {
            Err(e) => Err(e),
            Ok((t, l, j)) => Ok((seq![(t, l)], j)),
        }
    } else {
        tok_n(cs, i, SpecToken::Char(c), 1)
    }
}

/// The tokens of the text from index `i` on.
pub open spec fn lex_from(cs: Seq<char>, i: int) -> Result<Seq<(SpecToken, Location)>, Failure>
    decreases cs.len() - i,
{
    if i < 0 || i >= cs.len() {
        Ok(Seq::empty())
    } else {
        match lex_step(cs, i) {
            Err(e) => Err(e),
            Ok((toks, j)) => if i < j <= cs.len() {
                match lex_from(cs, j) {
                    Err(e) => Err(e),
                    Ok(rest) => Ok(toks + rest),
                }
            } else {
                Err(Failure::End)
            },
        }
    }
}

/// The tokens of a text.
pub open spec fn spec_lex(cs: Seq<char>) -> Result<Seq<(SpecToken, Location)>, Failure> {
    lex_from(cs, 0)
}

/// The views of a sequence of tokens.
pub open spec fn token_views(v: Seq<TokenWithRange>) -> Seq<(SpecToken, Location)> {
    v.map_values(|t: TokenWithRange| t@)
}


/// Joins the tokens read so far with the result of lexing the rest.
pub open spec fn combine(
    prefix: Seq<(SpecToken, Location)>,
    r: Result<Seq<(SpecToken, Location)>, Failure>,
) -> Result<Seq<(SpecToken, Location)>, Failure> {
    match r {
        Ok(rest) => Ok(prefix + rest),
        Err(e) => Err(e),
    }
}

/// The position of the character at index `k` counts the characters before it.
pub proof fn lemma_pos(cs: Seq<char>, k: int)
    requires
        0 <= k <= cs.len(),
        cs.len() <= usize::MAX,
    ensures
        pos(cs, k).index == k,
        pos(cs, k).line <= k,
        pos(cs, k).column <= k,
        pos(cs, k).length == 0,
{
    lemma_position_after_bounds(cs.take(k));
}

/// A lexer over the characters of a text and their positions.
pub(crate) struct Lexer {
    pub(crate) chars: Vec<CharWithPosition>,
    /// The index of the next character to read.
    pub(crate) index: usize,
}

/// Each character carries its own position in the text.
#[verifier::opaque]
pub(crate) closed spec fn positions_ok(chars: Seq<CharWithPosition>) -> bool {
    forall|k: int|
        0 <= k < chars.len() ==> (#[trigger] chars[k]).position == pos(
            chars.map_values(|c: CharWithPosition| c.character),
            k,
        )
}

impl Lexer {
    pub(crate) open spec fn text(self) -> Seq<char> {
        self.chars@.map_values(|c: CharWithPosition| c.character)
    }

    pub(crate) open spec fn wf(self) -> bool {
        &&& self.chars@.len() <= usize::MAX
        &&& self.index <= self.chars@.len()
        &&& positions_ok(self.chars@)
    }

    /// The lexer moved on and kept its text.
    pub(crate) open spec fn kept(self, old: Lexer) -> bool {
        &&& self.wf()
        &&& self.chars == old.chars
    }

    pub(crate) fn new(text: &str) -> (r: Lexer)
        ensures
            r.wf(),
            r.index == 0,
            r.text() == text@,
    {
        let mut iter = CharsWithPositionIter::new(text);
        let mut chars: Vec<CharWithPosition> = Vec::new();
        loop
            invariant
                iter.consumed() + iter.remaining() == text@,
                chars@.len() == iter.consumed().len(),
                forall|k: int|
                    0 <= k < chars@.len() ==> (#[trigger] chars@[k]).character == iter.consumed()[k]
                        && chars@[k].position == position_after(iter.consumed().take(k)),
            ensures
                iter.remaining().len() == 0,
                iter.consumed() + iter.remaining() == text@,
                chars@.len() == iter.consumed().len(),
                forall|k: int|
                    0 <= k < chars@.len() ==> (#[trigger] chars@[k]).character == iter.consumed()[k]
                        && chars@[k].position == position_after(iter.consumed().take(k)),
            decreases iter.remaining().len(),
        {
            let ghost before = iter.consumed();
            match iter.next() {
                Some(cwp) => {
                    proof {
                        assert(iter.consumed().take(chars@.len() as int) =~= before);
                        assert forall|k: int| 0 <= k < chars@.len() implies iter.consumed().take(k) =~= before.take(k) by {}
                    }
                    chars.push(cwp);
                },
                None => {
                    break;
                },
            }
        }
        let _ = chars.len();
        let r = Lexer { chars, index: 0 };
        proof {
            reveal(positions_ok);
            assert(iter.consumed() =~= text@);
            assert(r.text() =~= text@);
            assert forall|k: int| 0 <= k < r.chars@.len() implies (#[trigger] r.chars@[k]).position == pos(r.text(), k) by {
                assert(r.text().take(k) =~= iter.consumed().take(k));
            }
        }
        r
    }

    pub(crate) fn peek_char(&self, offset: usize) -> (r: Option<char>)
        requires
            self.wf(),
        ensures
            self.index + offset < self.text().len() ==> r == Some(self.text()[self.index + offset]),
            self.index + offset >= self.text().len() ==> r is None,
    {
        if offset < self.chars.len() - self.index {
            Some(self.chars[self.index + offset].character)
        } else {
            None
        }
    }

    pub(crate) fn next_char(&mut self) -> (r: Option<char>)
        requires
            old(self).wf(),
        ensures
            final(self).kept(*old(self)),
            old(self).index < old(self).text().len() ==> r == Some(old(self).text()[old(self).index as int])
                && final(self).index == old(self).index + 1,
            old(self).index >= old(self).text().len() ==> r is None && final(self).index == old(self).index,
    {
        if self.index < self.chars.len() {
            let c = self.chars[self.index].character;
            self.index = self.index + 1;
            Some(c)
        } else {
            None
        }
    }

    /// The position of the next character.
    pub(crate) fn peek_position(&self) -> (r: Location)
        requires
            self.wf(),
            self.index < self.text().len(),
        ensures
            r == pos(self.text(), self.index as int),
    {
        proof {
            reveal(positions_ok);
        }
        self.chars[self.index].position
    }

    /// The position of the last character read.
    pub(crate) fn last_position(&self) -> (r: Location)
        requires
            self.wf(),
        ensures
            r == last_pos(self.text(), self.index as int),
    {
        proof {
            reveal(positions_ok);
        }
        if self.index == 0 {
            Location::new_position(0, 0, 0)
        } else {
            self.chars[self.index - 1].position
        }
    }

    /// The range from the character at `a` to the last character read, both included.
    pub(crate) fn range_to_last(&self, a: usize) -> (r: Location)
        requires
            self.wf(),
            a < self.index,
        ensures
            r == incl(self.text(), a as int, self.index - 1),
    {
        proof {
            reveal(positions_ok);
            lemma_pos(self.text(), a as int);
            lemma_pos(self.text(), self.index - 1);
        }
        Location::from_position_pair_with_end_included(&self.chars[a].position, &self.chars[self.index - 1].position)
    }

    /// The range of `n` characters from index `a`.
    pub(crate) fn span_at(&self, a: usize, n: usize) -> (r: Location)
        requires
            self.wf(),
            a < self.text().len(),
        ensures
            r == span(self.text(), a as int, n),
    {
        proof {
            reveal(positions_ok);
        }
        Location::from_position_and_length(&self.chars[a].position, n)
    }

    /// The position one character past the last one read.
    pub(crate) fn last_position_forward(&self) -> (r: Location)
        requires
            self.wf(),
            self.index <= self.text().len(),
        ensures
            r == last_pos(self.text(), self.index as int).forward(),
    {
        let last = self.last_position();
        proof {
            if self.index > 0 {
                lemma_pos(self.text(), self.index - 1);
            }
        }
        last.move_position_forward()
    }
}

pub(crate) fn error_at(message: &str, location: Location) -> (r: AnreError)
    ensures
        error_matches(r, Failure::At(location)),
{
    AnreError::MessageWithLocation(message.to_owned(), location)
}

pub(crate) fn error_at_end(message: &str) -> (r: AnreError)
    ensures
        error_matches(r, Failure::End),
        r matches AnreError::UnexpectedEndOfDocument(m) && m@ == message@,
{
    AnreError::UnexpectedEndOfDocument(message.to_owned())
}

/// A message that quotes a char: `prefix 'c' suffix`.
pub(crate) fn message_with_char(prefix: &str, c: char, suffix: &str) -> (r: String)
    ensures
        r@ == prefix@ + seq!['\'', c, '\''] + suffix@,
{
    let mut s = String::new();
    crate::text::append_str(&mut s, prefix);
    crate::text::push_char(&mut s, '\'');
    crate::text::push_char(&mut s, c);
    crate::text::push_char(&mut s, '\'');
    crate::text::append_str(&mut s, suffix);
    proof {
        assert(s@ =~= prefix@ + seq!['\'', c, '\''] + suffix@);
    }
    s
}

proof fn lemma_digits_value_monotone(cs: Seq<char>, a: int, b: int)
    requires
        a <= b,
        forall|k: int| a <= k < b ==> is_digit(#[trigger] cs[k]),
    ensures
        digits_value(cs, a, b) >= 0,
    decreases b - a,
{
    if b > a {
        lemma_digits_value_monotone(cs, a, b - 1);
    }
}

proof fn lemma_digits_end(cs: Seq<char>, k: int, m: int)
    requires
        0 <= k <= m <= digits_end(cs, k),
        m <= cs.len(),
        digits_end(cs, k) <= cs.len(),
    ensures
        digits_end(cs, k) == digits_end(cs, m),
        forall|j: int| k <= j < m ==> is_digit(#[trigger] cs[j]),
    decreases m - k,
{
    if k < m {
        lemma_digits_end(cs, k + 1, m);
    }
}

proof fn lemma_digits_end_bounds(cs: Seq<char>, k: int)
    requires
        0 <= k <= cs.len(),
    ensures
        k <= digits_end(cs, k) <= cs.len(),
    decreases cs.len() - k,
{
    if k < cs.len() && is_digit(cs[k]) {
        lemma_digits_end_bounds(cs, k + 1);
    }
}

impl Lexer {
    /// Reads a decimal number.
    fn lex_number(&mut self) -> (r: Result<usize, AnreError>)
        requires
            old(self).wf(),
            old(self).text().len() <= usize::MAX,
        ensures
            final(self).kept(*old(self)),
            match spec_lex_number(old(self).text(), old(self).index as int) {
                Ok((n, j)) => r == Ok::<usize, AnreError>(n) && final(self).index == j,
                Err(f) => r matches Err(e) && error_matches(e, f),
            },
    {
        let ghost cs = self.text();
        let start = self.index;
        proof {
            lemma_digits_end_bounds(cs, start as int);
        }
        let mut value: usize = 0;
        let mut overflow = false;
        loop
            invariant
                self.kept(*old(self)),
                cs == self.text(),
                start == old(self).index,
                start <= self.index <= digits_end(cs, start as int) <= cs.len(),
                digits_end(cs, start as int) == digits_end(cs, self.index as int),
                forall|j: int| start <= j < self.index ==> is_digit(#[trigger] cs[j]),
                !overflow ==> value == digits_value(cs, start as int, self.index as int),
                overflow ==> digits_value(cs, start as int, self.index as int) > usize::MAX,
            ensures
                self.kept(*old(self)),
                self.index == digits_end(cs, start as int),
                forall|j: int| start <= j < self.index ==> is_digit(#[trigger] cs[j]),
                !overflow ==> value == digits_value(cs, start as int, self.index as int),
                overflow ==> digits_value(cs, start as int, self.index as int) > usize::MAX,
            decreases cs.len() - self.index,
        {
            match self.peek_char(0) {
                Some(c) => {
                    if '0' <= c && c <= '9' {
                        let d = (c as u32 - '0' as u32) as usize;
                        proof {
                            lemma_digits_value_monotone(cs, start as int, self.index as int);
                        }
                        if !overflow && value <= (usize::MAX - d) / 10 {
                            value = value * 10 + d;
                        } else {
                            overflow = true;
                        }
                        proof {
                            assert(digits_end(cs, self.index as int) == digits_end(cs, self.index + 1));
                            lemma_digits_end_bounds(cs, self.index + 1);
                            assert(digits_value(cs, start as int, self.index + 1) == digits_value(cs, start as int, self.index as int) * 10 + d);
                        }
                        self.next_char();
                    } else {
                        break;
                    }
                },
                None => {
                    break;
                },
            }
        }
        if self.index == start {
            return Err(error_at("Expect a number.", self.last_position_forward()));
        }
        if overflow {
            let range = self.range_to_last(start);
            return Err(error_at("Can not convert the digits to an integer number.", range));
        }
        Ok(value)
    }

    /// Reads a name in angle brackets, from the `<`.
    fn lex_identifier(&mut self) -> (r: Result<String, AnreError>)
        requires
            old(self).wf(),
            old(self).text().len() <= usize::MAX,
            old(self).index < old(self).text().len(),
            old(self).text()[old(self).index as int] == '<',
        ensures
            final(self).kept(*old(self)),
            match spec_lex_identifier(old(self).text(), old(self).index as int) {
                Ok((name, j)) => r matches Ok(s) && s@ == name && final(self).index == j,
                Err(f) => r matches Err(e) && error_matches(e, f),
            },
    {
        let ghost cs = self.text();
        let start = self.index;
        self.next_char(); // consume '<'
        let mut name_string = String::new();
        loop
            invariant
                self.kept(*old(self)),
                cs == self.text(),
                start == old(self).index,
                start + 1 <= self.index <= cs.len(),
                identifier_end(cs, start + 1) == identifier_end(cs, self.index as int),
                name_string@ == cs.subrange(start + 1, self.index as int),
            ensures
                self.kept(*old(self)),
                self.index < cs.len(),
                cs[self.index as int] == '>',
                identifier_end(cs, start + 1) == Ok::<int, Failure>(self.index as int),
                name_string@ == cs.subrange(start + 1, self.index as int),
            decreases cs.len() - self.index,
        {
            match self.peek_char(0) {
                Some(c) => {
                    if ('0' <= c && c <= '9') || ('a' <= c && c <= 'z') || ('A' <= c && c <= 'Z')
                        || c == '_' || ('\u{a0}' <= c && c <= '\u{d7ff}') || ('\u{e000}' <= c && c
                        <= '\u{10ffff}') {
                        crate::text::push_char(&mut name_string, c);
                        self.next_char();
                        proof {
                            assert(name_string@ =~= cs.subrange(start + 1, self.index as int));
                        }
                    } else if c == '>' {
                        break;
                    } else {
                        let position = self.peek_position();
                        return Err(
                            AnreError::MessageWithLocation(
                                message_with_char("Invalid char ", c, " for identifier."),
                                position,
                            ),
                        );
                    }
                },
                None => {
                    return Err(error_at_end("Incomplete identifier."));
                },
            }
        }
        if self.index == start + 1 {
            return Err(error_at("Expect an identifier.", self.last_position_forward()));
        }
        self.next_char(); // consume '>'
        Ok(name_string)
    }
}

/// The value of a hex digit.
fn hex_digit(c: char) -> (r: u32)
    requires
        is_hex_digit(c),
    ensures
        r as int == hex_digit_value(c),
        r < 16,
{
    if '0' <= c && c <= '9' {
        c as u32 - '0' as u32
    } else if 'a' <= c && c <= 'f' {
        c as u32 - 'a' as u32 + 10
    } else {
        c as u32 - 'A' as u32 + 10
    }
}

proof fn lemma_hex_value_bound(cs: Seq<char>, a: int, b: int)
    requires
        a <= b,
        forall|k: int| a <= k < b ==> is_hex_digit(#[trigger] cs[k]),
    ensures
        0 <= hex_value(cs, a, b) < pow16(b - a),
    decreases b - a,
{
    if b > a {
        lemma_hex_value_bound(cs, a, b - 1);
        assert(pow16(b - a) == pow16(b - 1 - a) * 16);
    }
}

spec fn pow16(n: int) -> int
    decreases n,
{
    if n <= 0 {
        1
    } else {
        pow16(n - 1) * 16
    }
}

impl Lexer {
    /// Reads a unicode escape from its `{`.
    pub(crate) fn unescape_unicode(&mut self) -> (r: Result<char, AnreError>)
        requires
            old(self).wf(),
            old(self).text().len() <= usize::MAX,
            old(self).index < old(self).text().len(),
            old(self).text()[old(self).index as int] == '{',
        ensures
            final(self).kept(*old(self)),
            match spec_unescape_unicode(old(self).text(), old(self).index as int) {
                Ok((c, j)) => r == Ok::<char, AnreError>(c) && final(self).index == j,
                Err(f) => r matches Err(e) && error_matches(e, f),
            },
    {
        let ghost cs = self.text();
        let start = self.index;
        self.next_char(); // consume '{'
        let mut count: usize = 0;
        let mut value: u32 = 0;
        let mut closed = false;
        loop
            invariant
                self.kept(*old(self)),
                cs == self.text(),
                start == old(self).index,
                start + 1 <= self.index <= cs.len(),
                !closed ==> {
                    &&& count == self.index - start - 1
                    &&& count <= 6
                    &&& unicode_scan(cs, start + 1, 0) == unicode_scan(cs, self.index as int, count as int)
                    &&& forall|k: int| start + 1 <= k < self.index ==> is_hex_digit(#[trigger] cs[k])
                    &&& value as int == hex_value(cs, start + 1, self.index as int)
                },
                closed ==> {
                    &&& self.index >= start + 2
                    &&& unicode_scan(cs, start + 1, 0) == Ok::<int, Failure>(self.index - 1)
                    &&& (cs[self.index - 1] == '}' ==> {
                        &&& count == self.index - start - 2
                        &&& count <= 6
                        &&& value as int == hex_value(cs, start + 1, self.index - 1)
                    })
                    &&& (cs[self.index - 1] != '}' ==> count == 7)
                },
            ensures
                self.kept(*old(self)),
                self.index >= start + 2,
                self.index <= cs.len(),
                unicode_scan(cs, start + 1, 0) == Ok::<int, Failure>(self.index - 1),
                cs[self.index - 1] == '}' ==> {
                    &&& count == self.index - start - 2
                    &&& count <= 6
                    &&& value as int == hex_value(cs, start + 1, self.index - 1)
                },
                cs[self.index - 1] != '}' ==> count == 7,
            decreases cs.len() - self.index, if closed { 0int } else { 1int },
        {
            if closed {
                break;
            }
            let ghost k = self.index as int;
            match self.next_char() {
                Some(c) => {
                    if c == '}' {
                        closed = true;
                    } else if ('0' <= c && c <= '9') || ('a' <= c && c <= 'f') || ('A' <= c && c <= 'F') {
                        count = count + 1;
                        if count <= 6 {
                            proof {
                                lemma_hex_value_bound(cs, start + 1, k);
                                lemma_pow16_monotone(k - start - 1, 5);
                                assert(pow16(5) == 1048576) by {
                                    reveal_with_fuel(pow16, 6);
                                }
                                assert(hex_value(cs, start + 1, k + 1) == hex_value(cs, start + 1, k) * 16 + hex_digit_value(cs[k]));
                            }
                            value = value * 16 + hex_digit(c);
                        } else {
                            closed = true;
                        }
                    } else {
                        let position = self.last_position();
                        return Err(
                            AnreError::MessageWithLocation(
                                message_with_char("Invalid character ", c, " for unicode escape sequence."),
                                position,
                            ),
                        );
                    }
                },
                None => {
                    return Err(error_at_end("Incomplete unicode escape sequence."));
                },
            }
        }
        let codepoint_range = self.range_to_last(start);
        if count > 6 {
            return Err(error_at("Unicode point code exceeds six digits.", codepoint_range));
        }
        if count == 0 {
            return Err(error_at("Empty unicode code point.", codepoint_range));
        }
        match crate::text::char_from_u32(value) {
            Some(c) => {
                proof {
                    vstd::utf8::char_u32_cast(c, value);
                }
                Ok(c)
            },
            None => Err(error_at("Invalid unicode code point.", codepoint_range)),
        }
    }
}

proof fn lemma_pow16_monotone(a: int, b: int)
    requires
        0 <= a <= b,
    ensures
        pow16(a) <= pow16(b),
    decreases b - a,
{
    if a < b {
        lemma_pow16_monotone(a, b - 1);
        lemma_pow16_positive(b - 1);
    }
}

proof fn lemma_pow16_positive(a: int)
    ensures
        pow16(a) >= 1,
    decreases a,
{
    if a > 0 {
        lemma_pow16_positive(a - 1);
    }
}


pub(crate) proof fn lemma_unicode_scan_after(cs: Seq<char>, k: int, count: int)
    ensures
        unicode_scan(cs, k, count) matches Ok(j) ==> k <= j < cs.len(),
    decreases cs.len() - k,
{
    if 0 <= k < cs.len() && cs[k] != '}' && is_hex_digit(cs[k]) && count + 1 <= 6 {
        lemma_unicode_scan_after(cs, k + 1, count + 1);
    }
}

proof fn lemma_identifier_end_after(cs: Seq<char>, k: int)
    ensures
        identifier_end(cs, k) matches Ok(j) ==> k <= j < cs.len(),
    decreases cs.len() - k,
{
    if 0 <= k < cs.len() && is_identifier_char(cs[k]) {
        lemma_identifier_end_after(cs, k + 1);
    }
}

/// The char that `\t`, `\r`, `\n` or `\\` stands for.
fn general_escape_char(c: char) -> (r: Option<char>)
    ensures
        r == general_escape(c),
{
    if c == '\\' {
        Some('\\')
    } else if c == 't' {
        Some('\t')
    } else if c == 'r' {
        Some('\r')
    } else if c == 'n' {
        Some('\n')
    } else {
        None
    }
}

fn is_meta(c: char) -> (r: bool)
    ensures
        r == is_meta_char(c),
{
    c == '(' || c == ')' || c == '{' || c == '}' || c == '[' || c == ']' || c == '+' || c == '*'
        || c == '?' || c == '.' || c == '|' || c == '^' || c == '$'
}

impl Lexer {
    /// Reads an escape outside charsets, from its `\`.
    fn lex_main_escaping(&mut self) -> (r: Result<TokenWithRange, AnreError>)
        requires
            old(self).wf(),
            old(self).index < old(self).text().len(),
            old(self).text()[old(self).index as int] == '\\',
        ensures
            final(self).kept(*old(self)),
            match spec_lex_main_escaping(old(self).text(), old(self).index as int) {
                Ok((t, l, j)) => r matches Ok(tw) && tw@ == (t, l) && final(self).index == j && j
                    > old(self).index,
                Err(f) => r matches Err(e) && error_matches(e, f),
            },
    {
        let ghost cs = self.text();
        let start = self.index;
        proof {
            lemma_unicode_scan_after(cs, start + 3, 0);
            lemma_identifier_end_after(cs, start + 3);
            if start + 1 <= cs.len() {
                lemma_digits_end_bounds(cs, start + 1);
            }
        }
        self.next_char(); // consume '\'
        let c = match self.peek_char(0) {
            Some(c) => c,
            None => {
                return Err(error_at_end("Incomplete escape character sequence."));
            },
        };
        let token = match general_escape_char(c) {
            Some(e) => {
                self.next_char();
                Token::Char(e)
            },
            None => {
                if c == 'u' {
                    self.next_char(); // consume 'u'
                    if self.peek_char(0) == Some('{') {
                        match self.unescape_unicode() {
                            Ok(u) => {
                                    Token::Char(u)
                            },
                            Err(e) => {
                                return Err(e);
                            },
                        }
                    } else {
                        return Err(
                            error_at(
                                "Missing the brace \"{\" for unicode escape sequence.",
                                self.last_position_forward(),
                            ),
                        );
                    }
                } else if is_meta(c) {
                    self.next_char();
                    Token::Char(c)
                } else if c == 'w' || c == 'W' || c == 'd' || c == 'D' || c == 's' || c == 'S' {
                    self.next_char();
                    Token::PresetCharSet(c)
                } else if c == 'b' || c == 'B' {
                    self.next_char();
                    Token::BoundaryAssertion(c)
                } else if '1' <= c && c <= '9' {
                    match self.lex_number() {
                        Ok(n) => {
                            Token::BackReferenceNumber(n)
                        },
                        Err(e) => {
                            return Err(e);
                        },
                    }
                } else if c == '0' {
                    return Err(error_at("Cannot back-reference group 0.", self.last_position_forward()));
                } else if c == 'k' {
                    self.next_char(); // consume 'k'
                    if self.peek_char(0) == Some('<') {
                        match self.lex_identifier() {
                            Ok(name) => {
                                    Token::BackReferenceIdentifier(name)
                            },
                            Err(e) => {
                                return Err(e);
                            },
                        }
                    } else {
                        return Err(
                            error_at(
                                "Missing the angle bracket \"<\" for group name.",
                                self.last_position_forward(),
                            ),
                        );
                    }
                } else {
                    let range = self.span_at(start, 2);
                    return Err(
                        AnreError::MessageWithLocation(
                            message_with_char("Unsupported escape char ", c, "."),
                            range,
                        ),
                    );
                }
            },
        };
        let range = self.range_to_last(start);
        Ok(TokenWithRange::new(token, range))
    }
}


impl Lexer {
    /// Reads an escape inside a charset, from its `\`.
    fn lex_charset_escaping(&mut self) -> (r: Result<TokenWithRange, AnreError>)
        requires
            old(self).wf(),
            old(self).index < old(self).text().len(),
            old(self).text()[old(self).index as int] == '\\',
        ensures
            final(self).kept(*old(self)),
            match spec_lex_charset_escaping(old(self).text(), old(self).index as int) {
                Ok((t, l, j)) => r matches Ok(tw) && tw@ == (t, l) && final(self).index == j && j
                    > old(self).index,
                Err(f) => r matches Err(e) && error_matches(e, f),
            },
    {
        let ghost cs = self.text();
        let start = self.index;
        proof {
            lemma_unicode_scan_after(cs, start + 3, 0);
        }
        self.next_char(); // consume '\'
        let c = match self.next_char() {
            Some(c) => c,
            None => {
                return Err(error_at_end("Incomplete escape character sequence."));
            },
        };
        let token = match general_escape_char(c) {
            Some(e) => Token::Char(e),
            None => {
                if c == 'u' {
                    if self.peek_char(0) == Some('{') {
                        match self.unescape_unicode() {
                            Ok(u) => Token::Char(u),
                            Err(e) => {
                                return Err(e);
                            },
                        }
                    } else {
                        return Err(
                            error_at(
                                "Missing the brace \"{\" for unicode escape sequence.",
                                self.last_position_forward(),
                            ),
                        );
                    }
                } else if is_meta(c) {
                    Token::Char(c)
                } else if c == 'w' || c == 'd' || c == 's' {
                    Token::PresetCharSet(c)
                } else {
                    let range = self.span_at(start, 2);
                    let message = if c == 'W' || c == 'D' || c == 'S' {
                        message_with_char("Negative char class ", c, " is not supported in charset.")
                    } else if c == 'b' || c == 'B' {
                        "Boundary assertions are not supported in charset.".to_owned()
                    } else if ('0' <= c && c <= '9') || c == 'k' {
                        "Back references are not supported in charset.".to_owned()
                    } else {
                        message_with_char("Unsupported escape char ", c, " in charset.")
                    };
                    return Err(AnreError::MessageWithLocation(message, range));
                }
            },
        };
        let range = self.range_to_last(start);
        Ok(TokenWithRange::new(token, range))
    }

    /// Reads a repetition `{m}`, `{m,}` or `{m,n}`, with an optional `?`, from its `{`.
    fn lex_repetition(&mut self) -> (r: Result<TokenWithRange, AnreError>)
        requires
            old(self).wf(),
            old(self).index < old(self).text().len(),
            old(self).text()[old(self).index as int] == '{',
        ensures
            final(self).kept(*old(self)),
            match spec_lex_repetition(old(self).text(), old(self).index as int) {
                Ok((t, l, j)) => r matches Ok(tw) && tw@ == (t, l) && final(self).index == j && j
                    > old(self).index,
                Err(f) => r matches Err(e) && error_matches(e, f),
            },
    {
        let ghost cs = self.text();
        let start = self.index;
        proof {
            lemma_digits_end_bounds(cs, start + 1);
        }
        self.next_char(); // consume '{'
        let from = match self.lex_number() {
            Ok(n) => n,
            Err(e) => {
                return Err(e);
            },
        };
        let repetition = if self.peek_char(0) == Some(',') {
            self.next_char(); // consume ','
            if self.peek_char(0) == Some('}') {
                self.next_char(); // consume '}'
                Repetition::AtLeast(from)
            } else {
                proof {
                    lemma_digits_end_bounds(cs, self.index as int);
                }
                let to = match self.lex_number() {
                    Ok(n) => n,
                    Err(e) => {
                        return Err(e);
                    },
                };
                match self.expect_close_brace() {
                    Ok(()) => {},
                    Err(e) => {
                        return Err(e);
                    },
                }
                Repetition::Range(from, to)
            }
        } else {
            match self.expect_close_brace() {
                Ok(()) => {},
                Err(e) => {
                    return Err(e);
                },
            }
            Repetition::Specified(from)
        };
        let lazy = if self.peek_char(0) == Some('?') {
            self.next_char(); // consume '?'
            true
        } else {
            false
        };
        let range = self.range_to_last(start);
        Ok(TokenWithRange::new(Token::Repetition(repetition, lazy), range))
    }

    /// Consumes the `}` that closes a repetition.
    fn expect_close_brace(&mut self) -> (r: Result<(), AnreError>)
        requires
            old(self).wf(),
        ensures
            final(self).kept(*old(self)),
            match expect_close_brace(old(self).text(), old(self).index as int) {
                Ok(j) => r is Ok && final(self).index == j,
                Err(f) => r matches Err(e) && error_matches(e, f),
            },
    {
        match self.next_char() {
            Some(c) => {
                if c == '}' {
                    Ok(())
                } else {
                    Err(error_at("Expect char: right brace \"}\".", self.last_position()))
                }
            },
            None => Err(error_at_end("Expect char: right brace \"}\".")),
        }
    }
}


/// Joins the charset tokens read so far with those of the rest of the body.
pub open spec fn prepend_body(
    prefix: Seq<(SpecToken, Location)>,
    r: Result<(Seq<(SpecToken, Location)>, int), Failure>,
) -> Result<(Seq<(SpecToken, Location)>, int), Failure> {
    match r {
        Ok((rest, e)) => Ok((prefix + rest, e)),
        Err(e) => Err(e),
    }
}

/// The tokens' ranges start in text order, each at an index in `lo..hi`.
spec fn ranges_ordered(toks: Seq<(SpecToken, Location)>, lo: int, hi: int) -> bool {
    &&& forall|a: int, b: int| 0 <= a < b < toks.len() ==> toks[a].1.index < toks[b].1.index
    &&& forall|a: int| 0 <= a < toks.len() ==> lo <= #[trigger] toks[a].1.index < hi
}

proof fn lemma_prepend_step(
    prefix: Seq<(SpecToken, Location)>,
    x: (SpecToken, Location),
    r: Result<(Seq<(SpecToken, Location)>, int), Failure>,
)
    ensures
        prepend_body(prefix, prepend_body(seq![x], r)) == prepend_body(prefix.push(x), r),
{
    if let Ok((rest, e)) = r {
        assert(prefix + (seq![x] + rest) =~= prefix.push(x) + rest);
    }
}

proof fn lemma_token_views_push(v: Seq<TokenWithRange>, t: TokenWithRange)
    ensures
        token_views(v.push(t)) == token_views(v).push(t@),
{
    assert(token_views(v.push(t)) =~= token_views(v).push(t@));
}

impl Lexer {
    /// Reads a charset `[...]` or `[^...]` from its `[`, with `a-z` merged into ranges.
    fn lex_charset(&mut self) -> (r: Result<Vec<TokenWithRange>, AnreError>)
        requires
            old(self).wf(),
            old(self).index < old(self).text().len(),
            old(self).text()[old(self).index as int] == '[',
        ensures
            final(self).kept(*old(self)),
            match spec_lex_charset(old(self).text(), old(self).index as int) {
                Ok((toks, j)) => r matches Ok(v) && token_views(v@) == toks && final(self).index == j
                    && j > old(self).index,
                Err(f) => r matches Err(e) && error_matches(e, f),
            },
    {
        let ghost cs = self.text();
        let start = self.index;
        proof {
            lemma_pos(cs, start as int);
        }
        let mut v: Vec<TokenWithRange> = Vec::new();
        self.next_char(); // consume '['
        if self.peek_char(0) == Some('^') {
            let range = self.span_at(start, 2);
            self.next_char(); // consume '^'
            v.push(TokenWithRange::new(Token::CharSetStartNegative, range));
        } else {
            let range = self.span_at(start, 1);
            v.push(TokenWithRange::new(Token::CharSetStart, range));
        }
        let ghost k0 = self.index as int;
        let ghost head = token_views(v@)[0];
        proof {
            assert(token_views(v@).drop_first() =~= Seq::empty());
            assert(Seq::<(SpecToken, Location)>::empty() + Seq::empty() =~= Seq::<(SpecToken, Location)>::empty());
            assert(prepend_body(Seq::empty(), charset_body(cs, k0)) == charset_body(cs, k0)) by {
                if let Ok((rest, e)) = charset_body(cs, k0) {
                    assert(Seq::<(SpecToken, Location)>::empty() + rest =~= rest);
                }
            }
        }
        loop
            invariant
                self.kept(*old(self)),
                cs == self.text(),
                start == old(self).index,
                cs == old(self).text(),
                start + 1 <= k0 <= start + 2,
                k0 == (if start + 1 < cs.len() && cs[start + 1] == '^' { start + 2 } else { start + 1 }),
                k0 <= self.index <= cs.len(),
                v@.len() >= 1,
                token_views(v@)[0] == head,
                head == (if start + 1 < cs.len() && cs[start + 1] == '^' {
                    (SpecToken::CharSetStartNegative, span(cs, start as int, 2))
                } else {
                    (SpecToken::CharSetStart, span(cs, start as int, 1))
                }),
                charset_body(cs, k0) == prepend_body(
                    token_views(v@).drop_first(),
                    charset_body(cs, self.index as int),
                ),
                ranges_ordered(token_views(v@), start as int, self.index as int),
            ensures
                self.kept(*old(self)),
                self.index < cs.len(),
                cs[self.index as int] == ']',
                v@.len() >= 1,
                token_views(v@)[0] == head,
                charset_body(cs, k0) == Ok::<(Seq<(SpecToken, Location)>, int), Failure>(
                    (token_views(v@).drop_first(), self.index as int),
                ),
                ranges_ordered(token_views(v@), start as int, self.index as int),
            decreases cs.len() - self.index,
        {
            let ghost idx = self.index as int;
            let ghost prefix = token_views(v@).drop_first();
            match self.peek_char(0) {
                Some(c) => {
                    if c == '\\' {
                        match self.lex_charset_escaping() {
                            Ok(tw) => {
                                proof {
                                    lemma_pos(cs, idx);
                                    lemma_prepend_step(prefix, tw@, charset_body(cs, self.index as int));
                                    lemma_token_views_push(v@, tw);
                                }
                                v.push(tw);
                                proof {
                                    assert(token_views(v@).drop_first() =~= prefix.push(token_views(v@).last()));
                                }
                            },
                            Err(e) => {
                                return Err(e);
                            },
                        }
                    } else if c == ']' {
                        proof {
                            assert(prefix + Seq::empty() =~= prefix);
                        }
                        break;
                    } else {
                        let range = self.span_at(self.index, 1);
                        self.next_char();
                        let tw = TokenWithRange::new(Token::Char(c), range);
                        proof {
                            lemma_pos(cs, idx);
                            lemma_prepend_step(prefix, tw@, charset_body(cs, self.index as int));
                            lemma_token_views_push(v@, tw);
                        }
                        v.push(tw);
                        proof {
                            assert(token_views(v@).drop_first() =~= prefix.push(token_views(v@).last()));
                        }
                    }
                },
                None => {
                    return Err(error_at_end("Incomplete charset."));
                },
            }
        }
        let ghost e = self.index as int;
        let end_range = self.span_at(self.index, 1);
        self.next_char(); // consume ']'
        let end = TokenWithRange::new(Token::CharSetEnd, end_range);
        proof {
            lemma_pos(cs, e);
            lemma_token_views_push(v@, end);
        }
        let ghost body = token_views(v@).drop_first();
        v.push(end);
        let ghost raw = token_views(v@);
        proof {
            assert(raw =~= seq![head] + body + seq![(SpecToken::CharSetEnd, span(cs, e, 1))]);
        }
        if v.len() > 4 {
            let mut idx: usize = v.len() - 3;
            while idx > 1
                invariant
                    self.kept(*old(self)),
                    cs == self.text(),
                    start == old(self).index,
                    cs == old(self).text(),
                    k0 == (if start + 1 < cs.len() && cs[start + 1] == '^' { start + 2 } else { start + 1 }),
                    charset_body(cs, k0) == Ok::<(Seq<(SpecToken, Location)>, int), Failure>((body, e)),
                    raw == seq![head] + body + seq![(SpecToken::CharSetEnd, span(cs, e, 1))],
                    head == (if start + 1 < cs.len() && cs[start + 1] == '^' {
                        (SpecToken::CharSetStartNegative, span(cs, start as int, 2))
                    } else {
                        (SpecToken::CharSetStart, span(cs, start as int, 1))
                    }),
                    self.index == e + 1,
                    e < cs.len(),
                    idx + 1 < v@.len(),
                    merge_ranges(raw, raw.len() - 3) == merge_ranges(token_views(v@), idx as int),
                    ranges_ordered(token_views(v@), start as int, cs.len() as int),
                decreases idx,
            {
                let n = v.len();
                let is_dash = match &v[idx].token {
                    Token::Char(c) => *c == '-',
                    _ => false,
                };
                if is_dash {
                    let char_start = match &v[idx - 1].token {
                        Token::Char(c) => *c,
                        _ => {
                            return Err(error_at("Expect a char for char range, e.g. \"A-Z\".", v[idx - 1].range));
                        },
                    };
                    let char_end = match &v[idx + 1].token {
                        Token::Char(c) => *c,
                        _ => {
                            return Err(error_at("Expect a char for char range, e.g. \"a-z\".", v[idx + 1].range));
                        },
                    };
                    let ghost tv = token_views(v@);
                    let range = Location::from_position_pair_with_end_included(&v[idx - 1].range, &v[idx + 1].range);
                    let twr = TokenWithRange::new(Token::CharRange(char_start, char_end), range);
                    v.set(idx - 1, twr);
                    v.remove(idx);
                    v.remove(idx);
                    proof {
                        let merged = (
                            SpecToken::CharRange(tv[idx - 1].0->Char_0, tv[idx + 1].0->Char_0),
                            pair_incl(tv[idx - 1].1, tv[idx + 1].1),
                        );
                        assert(token_views(v@) =~= tv.subrange(0, idx - 1) + seq![merged] + tv.subrange(
                            idx + 2,
                            tv.len() as int,
                        ));
                    }
                    idx = idx - 2;
                } else {
                    idx = idx - 1;
                }
            }
        }
        Ok(v)
    }
}


proof fn lemma_combine_step(
    prefix: Seq<(SpecToken, Location)>,
    toks: Seq<(SpecToken, Location)>,
    r: Result<Seq<(SpecToken, Location)>, Failure>,
)
    ensures
        combine(prefix, combine(toks, r)) == combine(prefix + toks, r),
{
    if let Ok(rest) = r {
        assert(prefix + (toks + rest) =~= prefix + toks + rest);
    }
}

proof fn lemma_token_views_append(a: Seq<TokenWithRange>, b: Seq<TokenWithRange>)
    ensures
        token_views(a + b) == token_views(a) + token_views(b),
{
    assert(token_views(a + b) =~= token_views(a) + token_views(b));
}

impl Lexer {
    /// Reads a token of `n` characters from the current one.
    fn take_token(&mut self, token: Token, n: usize) -> (r: Vec<TokenWithRange>)
        requires
            old(self).wf(),
            1 <= n,
            old(self).index + n <= old(self).text().len(),
        ensures
            final(self).kept(*old(self)),
            final(self).index == old(self).index + n,
            token_views(r@) == seq![(token@, span(old(self).text(), old(self).index as int, n))],
    {
        let range = self.span_at(self.index, n);
        self.index = self.index + n;
        let mut v: Vec<TokenWithRange> = Vec::new();
        v.push(TokenWithRange::new(token, range));
        proof {
            assert(token_views(v@) =~= seq![(token@, range)]);
        }
        v
    }

    /// Reads the tokens that start at the current character: one token, or
    /// those of a charset.
    fn lex_one(&mut self) -> (r: Result<Vec<TokenWithRange>, AnreError>)
        requires
            old(self).wf(),
            old(self).index < old(self).text().len(),
        ensures
            final(self).kept(*old(self)),
            match lex_step(old(self).text(), old(self).index as int) {
                Ok((toks, j)) => r matches Ok(v) && token_views(v@) == toks && final(self).index == j
                    && j > old(self).index,
                Err(f) => r matches Err(e) && error_matches(e, f),
            },
    {
        let ghost cs = self.text();
        let i = self.index;
        proof {
            lemma_pos(cs, i as int);
            lemma_identifier_end_after(cs, i + 3);
        }
        let c = match self.peek_char(0) {
            Some(c) => c,
            None => {
                return Ok(Vec::new());
            },
        };
        let next = self.peek_char(1);
        if c == '[' {
            self.lex_charset()
        } else if c == ']' {
            Ok(self.take_token(Token::CharSetEnd, 1))
        } else if c == '{' {
            match self.lex_repetition() {
                Ok(tw) => {
                    let mut v: Vec<TokenWithRange> = Vec::new();
                    v.push(tw);
                    proof {
                        assert(token_views(v@) =~= seq![tw@]);
                    }
                    Ok(v)
                },
                Err(e) => Err(e),
            }
        } else if c == '(' && next == Some('?') {
            let third = self.peek_char(2);
            if third == Some(':') {
                Ok(self.take_token(Token::NonCapturing, 3))
            } else if third == Some('=') {
                Ok(self.take_token(Token::LookAhead, 3))
            } else if third == Some('!') {
                Ok(self.take_token(Token::LookAheadNegative, 3))
            } else if third == Some('<') {
                let fourth = self.peek_char(3);
                if fourth == Some('=') {
                    Ok(self.take_token(Token::LookBehind, 4))
                } else if fourth == Some('!') {
                    Ok(self.take_token(Token::LookBehindNegative, 4))
                } else {
                    self.index = self.index + 2; // consume '(' and '?'
                    match self.lex_identifier() {
                        Ok(name) => {
                            let range = self.range_to_last(i);
                            let tw = TokenWithRange::new(Token::NamedCapture(name), range);
                            let mut v: Vec<TokenWithRange> = Vec::new();
                            v.push(tw);
                            proof {
                                assert(token_views(v@) =~= seq![tw@]);
                            }
                            Ok(v)
                        },
                        Err(e) => Err(e),
                    }
                }
            } else {
                let last = self.last_position();
                Err(error_at("Incomplete group.", Location::from_position_and_length(&last, 2)))
            }
        } else if c == '(' {
            Ok(self.take_token(Token::GroupStart, 1))
        } else if c == ')' {
            Ok(self.take_token(Token::GroupEnd, 1))
        } else if c == '?' {
            if next == Some('?') {
                Ok(self.take_token(Token::OptionalLazy, 2))
            } else {
                Ok(self.take_token(Token::Optional, 1))
            }
        } else if c == '+' {
            if next == Some('?') {
                Ok(self.take_token(Token::OneOrMoreLazy, 2))
            } else {
                Ok(self.take_token(Token::OneOrMore, 1))
            }
        } else if c == '*' {
            if next == Some('?') {
                Ok(self.take_token(Token::ZeroOrMoreLazy, 2))
            } else {
                Ok(self.take_token(Token::ZeroOrMore, 1))
            }
        } else if c == '^' {
            Ok(self.take_token(Token::StartAssertion, 1))
        } else if c == '$' {
            Ok(self.take_token(Token::EndAssertion, 1))
        } else if c == '.' {
            Ok(self.take_token(Token::Dot, 1))
        } else if c == '|' {
            Ok(self.take_token(Token::LogicOr, 1))
        } else if c == '\\' {
            match self.lex_main_escaping() {
                Ok(tw) => {
                    let mut v: Vec<TokenWithRange> = Vec::new();
                    v.push(tw);
                    proof {
                        assert(token_views(v@) =~= seq![tw@]);
                    }
                    Ok(v)
                },
                Err(e) => Err(e),
            }
        } else {
            Ok(self.take_token(Token::Char(c), 1))
        }
    }

    /// Reads all tokens of the text.
    fn lex(&mut self) -> (r: Result<Vec<TokenWithRange>, AnreError>)
        requires
            old(self).wf(),
            old(self).index == 0,
        ensures
            match spec_lex(old(self).text()) {
                Ok(toks) => r matches Ok(v) && token_views(v@) == toks,
                Err(f) => r matches Err(e) && error_matches(e, f),
            },
    {
        let ghost cs = self.text();
        let mut v: Vec<TokenWithRange> = Vec::new();
        proof {
            assert(token_views(v@) =~= Seq::empty());
            if let Ok(rest) = lex_from(cs, 0) {
                assert(Seq::<(SpecToken, Location)>::empty() + rest =~= rest);
            }
        }
        while self.index < self.chars.len()
            invariant
                self.kept(*old(self)),
                cs == self.text(),
                cs == old(self).text(),
                spec_lex(cs) == combine(token_views(v@), lex_from(cs, self.index as int)),
            decreases cs.len() - self.index,
        {
            let ghost i = self.index as int;
            let ghost prefix = token_views(v@);
            match self.lex_one() {
                Ok(mut toks) => {
                    proof {
                        lemma_combine_step(prefix, token_views(toks@), lex_from(cs, self.index as int));
                        lemma_token_views_append(v@, toks@);
                    }
                    v.append(&mut toks);
                },
                Err(e) => {
                    return Err(e);
                },
            }
        }
        proof {
            assert(token_views(v@) + Seq::empty() =~= token_views(v@));
        }
        Ok(v)
    }
}

/// Splits a traditional regular expression into tokens, each with the range
/// of text that it was read from.
pub fn lex_from_str(s: &str) -> (r: Result<Vec<TokenWithRange>, AnreError>)
    ensures
        match spec_lex(s@) {
            Ok(toks) => r matches Ok(v) && token_views(v@) == toks,
            Err(f) => r matches Err(e) && error_matches(e, f),
        },
{
    let mut lexer = Lexer::new(s);
    lexer.lex()
}


/// A preset charset token names one of `w W d D s S`, a boundary assertion
/// one of `b B`.
pub open spec fn token_ok(t: SpecToken) -> bool {
    match t {
        SpecToken::PresetCharSet(c) => c == 'w' || c == 'W' || c == 'd' || c == 'D' || c == 's' || c == 'S',
        SpecToken::BoundaryAssertion(c) => c == 'b' || c == 'B',
        _ => true,
    }
}

pub open spec fn tokens_ok(toks: Seq<(SpecToken, Location)>) -> bool {
    forall|k: int| 0 <= k < toks.len() ==> token_ok(#[trigger] toks[k].0)
}

proof fn lemma_prepend_ok(x: (SpecToken, Location), rest: Seq<(SpecToken, Location)>)
    requires
        token_ok(x.0),
        tokens_ok(rest),
    ensures
        tokens_ok(seq![x] + rest),
{
    let all = seq![x] + rest;
    assert forall|m: int| 0 <= m < all.len() implies token_ok(#[trigger] all[m].0) by {
        if m > 0 {
            assert(all[m] == rest[m - 1]);
        }
    }
}

proof fn lemma_charset_body_ok(cs: Seq<char>, k: int)
    ensures
        charset_body(cs, k) matches Ok((toks, _)) ==> tokens_ok(toks),
    decreases cs.len() - k,
{
    if 0 <= k < cs.len() && cs[k] != ']' {
        if cs[k] == '\\' {
            if let Ok((t, l, j)) = spec_lex_charset_escaping(cs, k) {
                if k < j <= cs.len() {
                    lemma_charset_body_ok(cs, j);
                    if let Ok((rest, e)) = charset_body(cs, j) {
                        lemma_prepend_ok((t, l), rest);
                    }
                }
            }
        } else {
            lemma_charset_body_ok(cs, k + 1);
            if let Ok((rest, e)) = charset_body(cs, k + 1) {
                lemma_prepend_ok((SpecToken::Char(cs[k]), span(cs, k, 1)), rest);
            }
        }
    }
}

proof fn lemma_merge_ranges_ok(toks: Seq<(SpecToken, Location)>, idx: int)
    requires
        tokens_ok(toks),
    ensures
        merge_ranges(toks, idx) matches Ok(r) ==> tokens_ok(r),
    decreases idx,
{
    if idx <= 1 || idx + 1 >= toks.len() {
    } else if toks[idx].0 == SpecToken::Char('-') {
        if toks[idx - 1].0 is Char && toks[idx + 1].0 is Char {
            let merged = (
                SpecToken::CharRange(toks[idx - 1].0->Char_0, toks[idx + 1].0->Char_0),
                pair_incl(toks[idx - 1].1, toks[idx + 1].1),
            );
            let next = toks.subrange(0, idx - 1) + seq![merged] + toks.subrange(idx + 2, toks.len() as int);
            assert forall|m: int| 0 <= m < next.len() implies token_ok(#[trigger] next[m].0) by {
                if m < idx - 1 {
                    assert(next[m] == toks[m]);
                } else if m > idx - 1 {
                    assert(next[m] == toks[m + 2]);
                }
            }
            lemma_merge_ranges_ok(next, idx - 2);
        }
    } else {
        lemma_merge_ranges_ok(toks, idx - 1);
    }
}

proof fn lemma_tok_n_ok(cs: Seq<char>, i: int, t: SpecToken, n: usize)
    requires
        token_ok(t),
    ensures
        tok_n(cs, i, t, n) matches Ok((toks, _)) ==> tokens_ok(toks),
{
    lemma_prepend_ok((t, span(cs, i, n)), Seq::empty());
    assert(seq![(t, span(cs, i, n))] + Seq::<(SpecToken, Location)>::empty() =~= seq![(t, span(cs, i, n))]);
}

proof fn lemma_lex_step_ok(cs: Seq<char>, i: int)
    requires
        0 <= i < cs.len(),
    ensures
        lex_step(cs, i) matches Ok((toks, _)) ==> tokens_ok(toks),
{
    if cs[i] == '[' {
        let negative = i + 1 < cs.len() && cs[i + 1] == '^';
        let k = if negative { i + 2 } else { i + 1 };
        lemma_charset_body_ok(cs, k);
        if let Ok((body, e)) = charset_body(cs, k) {
            let head = if negative {
                (SpecToken::CharSetStartNegative, span(cs, i, 2))
            } else {
                (SpecToken::CharSetStart, span(cs, i, 1))
            };
            let raw = seq![head] + body + seq![(SpecToken::CharSetEnd, span(cs, e, 1))];
            assert forall|m: int| 0 <= m < raw.len() implies token_ok(#[trigger] raw[m].0) by {
                if 0 < m < raw.len() - 1 {
                    assert(raw[m] == body[m - 1]);
                }
            }
            if raw.len() > 4 {
                lemma_merge_ranges_ok(raw, raw.len() - 3);
            }
        }
    } else if cs[i] == '\\' {
        if let Ok((t, l, j)) = spec_lex_main_escaping(cs, i) {
            lemma_prepend_ok((t, l), Seq::empty());
            assert(seq![(t, l)] + Seq::<(SpecToken, Location)>::empty() =~= seq![(t, l)]);
        }
    } else if cs[i] == '{' {
        if let Ok((t, l, j)) = spec_lex_repetition(cs, i) {
            lemma_prepend_ok((t, l), Seq::empty());
            assert(seq![(t, l)] + Seq::<(SpecToken, Location)>::empty() =~= seq![(t, l)]);
        }
    } else if cs[i] == '(' && i + 1 < cs.len() && cs[i + 1] == '?' {
        if let Ok((toks, j)) = lex_step(cs, i) {
            assert(toks.len() == 1);
            assert(!(toks[0].0 is PresetCharSet) && !(toks[0].0 is BoundaryAssertion));
        }
    } else {
        let next = if i + 1 < cs.len() { Some(cs[i + 1]) } else { None };
        let c = cs[i];
        if c == ']' {
            lemma_tok_n_ok(cs, i, SpecToken::CharSetEnd, 1);
        } else if c == '(' {
            lemma_tok_n_ok(cs, i, SpecToken::GroupStart, 1);
        } else if c == ')' {
            lemma_tok_n_ok(cs, i, SpecToken::GroupEnd, 1);
        } else if c == '^' {
            lemma_tok_n_ok(cs, i, SpecToken::StartAssertion, 1);
        } else if c == '$' {
            lemma_tok_n_ok(cs, i, SpecToken::EndAssertion, 1);
        } else if c == '.' {
            lemma_tok_n_ok(cs, i, SpecToken::Dot, 1);
        } else if c == '|' {
            lemma_tok_n_ok(cs, i, SpecToken::LogicOr, 1);
        } else if c == '?' {
            if next == Some('?') {
                lemma_tok_n_ok(cs, i, SpecToken::OptionalLazy, 2);
            } else {
                lemma_tok_n_ok(cs, i, SpecToken::Optional, 1);
            }
        } else if c == '+' {
            if next == Some('?') {
                lemma_tok_n_ok(cs, i, SpecToken::OneOrMoreLazy, 2);
            } else {
                lemma_tok_n_ok(cs, i, SpecToken::OneOrMore, 1);
            }
        } else if c == '*' {
            if next == Some('?') {
                lemma_tok_n_ok(cs, i, SpecToken::ZeroOrMoreLazy, 2);
            } else {
                lemma_tok_n_ok(cs, i, SpecToken::ZeroOrMore, 1);
            }
        } else {
            lemma_tok_n_ok(cs, i, SpecToken::Char(c), 1);
        }
    }
}

proof fn lemma_lex_from_ok(cs: Seq<char>, i: int)
    ensures
        lex_from(cs, i) matches Ok(toks) ==> tokens_ok(toks),
    decreases cs.len() - i,
{
    if 0 <= i < cs.len() {
        lemma_lex_step_ok(cs, i);
        if let Ok((toks, j)) = lex_step(cs, i) {
            if i < j <= cs.len() {
                lemma_lex_from_ok(cs, j);
                if let Ok(rest) = lex_from(cs, j) {
                    let all = toks + rest;
                    assert forall|m: int| 0 <= m < all.len() implies token_ok(#[trigger] all[m].0) by {
                        if m >= toks.len() {
                            assert(all[m] == rest[m - toks.len()]);
                        }
                    }
                }
            }
        }
    }
}

/// Every preset charset and boundary assertion that lexing yields is one
/// that the syntax defines.
pub proof fn lemma_lex_tokens_ok(cs: Seq<char>)
    ensures
        spec_lex(cs) matches Ok(toks) ==> tokens_ok(toks),
{
    lemma_lex_from_ok(cs, 0);
}

/// The tokens come one after another within the text from `from` to `to`:
/// each covers at least one char, and each begins at or after the end of the
/// one before.
pub open spec fn tokens_in_order(toks: Seq<(SpecToken, Location)>, from: int, to: int) -> bool {
    &&& forall|k: int|
        0 <= k < toks.len() ==> {
            &&& from <= (#[trigger] toks[k]).1.index
            &&& toks[k].1.length >= 1
            &&& toks[k].1.index + toks[k].1.length <= to
        }
    &&& forall|k: int|
        0 <= k < toks.len() - 1 ==> (#[trigger] toks[k]).1.index + toks[k].1.length <= toks[k
            + 1].1.index
}

proof fn lemma_concat_in_order(
    a: Seq<(SpecToken, Location)>,
    b: Seq<(SpecToken, Location)>,
    i: int,
    j: int,
    l: int,
)
    requires
        tokens_in_order(a, i, j),
        tokens_in_order(b, j, l),
        i <= j <= l,
    ensures
        tokens_in_order(a + b, i, l),
{
    let ab = a + b;
    assert forall|k: int| 0 <= k < ab.len() implies {
        &&& i <= (#[trigger] ab[k]).1.index
        &&& ab[k].1.length >= 1
        &&& ab[k].1.index + ab[k].1.length <= l
    } by {
        if k < a.len() {
            assert(ab[k] == a[k]);
            if b.len() > 0 {
                assert(b[0].1.index + b[0].1.length <= l);
            }
        } else {
            assert(ab[k] == b[k - a.len()]);
        }
    }
    assert forall|k: int| 0 <= k < ab.len() - 1 implies (#[trigger] ab[k]).1.index + ab[k].1.length
        <= ab[k + 1].1.index by {
        if k < a.len() - 1 {
            assert(ab[k] == a[k] && ab[k + 1] == a[k + 1]);
        } else if k == a.len() - 1 {
            assert(ab[k] == a[k] && ab[k + 1] == b[0]);
        } else {
            assert(ab[k] == b[k - a.len()] && ab[k + 1] == b[k + 1 - a.len()]);
        }
    }
}

/// A single token whose range is the chars `i..j`.
proof fn lemma_single_in_order(t: SpecToken, l: Location, i: int, j: int)
    requires
        l.index == i,
        l.length == j - i,
        i < j,
    ensures
        tokens_in_order(seq![(t, l)], i, j),
{
}

/// A token of `n` chars from index `i`.
proof fn lemma_tok_in_order(cs: Seq<char>, i: int, t: SpecToken, n: usize)
    requires
        0 <= i,
        1 <= n,
        i + n <= cs.len() <= usize::MAX,
    ensures
        tokens_in_order(seq![(t, span(cs, i, n))], i, i + n),
{
    lemma_pos(cs, i);
    lemma_single_in_order(t, span(cs, i, n), i, i + n);
}

/// A token whose range is the chars `i..j`, before tokens in order from `j`.
proof fn lemma_prepend_in_order(
    t: SpecToken,
    l: Location,
    rest: Seq<(SpecToken, Location)>,
    i: int,
    j: int,
    e: int,
)
    requires
        l.index == i,
        l.length == j - i,
        i < j <= e,
        tokens_in_order(rest, j, e),
    ensures
        tokens_in_order(seq![(t, l)] + rest, i, e),
{
    lemma_single_in_order(t, l, i, j);
    lemma_concat_in_order(seq![(t, l)], rest, i, j, e);
}

/// An escape in a charset read from `i` up to `j` has the range of the
/// chars `i..j`.
proof fn lemma_charset_escaping_range(cs: Seq<char>, i: int)
    requires
        0 <= i < cs.len() <= usize::MAX,
    ensures
        spec_lex_charset_escaping(cs, i) matches Ok((t, l, j)) ==> (i < j <= cs.len() ==> l.index == i
            && l.length == j - i),
{
    lemma_pos(cs, i);
}

/// An escape outside charsets, or a repetition, read from `i` up to `j`
/// has the range of the chars `i..j`.
proof fn lemma_escaping_and_repetition_range(cs: Seq<char>, i: int)
    requires
        0 <= i < cs.len() <= usize::MAX,
    ensures
        spec_lex_main_escaping(cs, i) matches Ok((t, l, j)) ==> (i < j <= cs.len() ==> l.index == i
            && l.length == j - i),
        spec_lex_repetition(cs, i) matches Ok((t, l, j)) ==> (i < j <= cs.len() ==> l.index == i
            && l.length == j - i),
        spec_lex_identifier(cs, i + 2) matches Ok((name, j)) ==> (i < j <= cs.len() ==> incl(cs, i, j
            - 1).index == i && incl(cs, i, j - 1).length == j - i),
{
    lemma_pos(cs, i);
}

/// The tokens of a charset's content lie between its start and its `]`.
proof fn lemma_charset_body_in_order(cs: Seq<char>, k: int)
    requires
        0 <= k,
        cs.len() <= usize::MAX,
    ensures
        charset_body(cs, k) matches Ok((body, e)) ==> k <= e < cs.len() && tokens_in_order(body, k, e),
    decreases cs.len() - k,
{
    if k < cs.len() && cs[k] != ']' {
        lemma_pos(cs, k);
        if cs[k] == '\\' {
            lemma_charset_escaping_range(cs, k);
            if let Ok((t, l, j)) = spec_lex_charset_escaping(cs, k) {
                if k < j <= cs.len() {
                    lemma_charset_body_in_order(cs, j);
                    if let Ok((rest, e)) = charset_body(cs, j) {
                        lemma_prepend_in_order(t, l, rest, k, j, e);
                    }
                }
            }
        } else {
            lemma_charset_body_in_order(cs, k + 1);
            if let Ok((rest, e)) = charset_body(cs, k + 1) {
                lemma_prepend_in_order(SpecToken::Char(cs[k]), span(cs, k, 1), rest, k, k + 1, e);
            }
        }
    }
}

/// Merging `char '-' char` into ranges keeps the tokens in order.
proof fn lemma_merge_in_order(toks: Seq<(SpecToken, Location)>, idx: int, a: int, b: int)
    requires
        tokens_in_order(toks, a, b),
        0 <= a,
        b <= usize::MAX,
    ensures
        merge_ranges(toks, idx) matches Ok(m) ==> tokens_in_order(m, a, b),
    decreases idx,
{
    if idx <= 1 || idx + 1 >= toks.len() {
    } else if toks[idx].0 == SpecToken::Char('-') {
        if toks[idx - 1].0 is Char && toks[idx + 1].0 is Char {
            let p = toks[idx - 1].1;
            let q = toks[idx + 1].1;
            let merged = (
                SpecToken::CharRange(toks[idx - 1].0->Char_0, toks[idx + 1].0->Char_0),
                pair_incl(p, q),
            );
            let next = toks.subrange(0, idx - 1) + seq![merged] + toks.subrange(idx + 2, toks.len() as int);
            assert(toks[idx - 1].1.index + toks[idx - 1].1.length <= toks[idx].1.index);
            assert(toks[idx].1.index + toks[idx].1.length <= toks[idx + 1].1.index);
            assert(q.index + q.length <= b);
            assert(merged.1.index == p.index && merged.1.length == q.index - p.index + 1);
            assert forall|k: int| 0 <= k < next.len() implies {
                &&& a <= (#[trigger] next[k]).1.index
                &&& next[k].1.length >= 1
                &&& next[k].1.index + next[k].1.length <= b
            } by {
                if k < idx - 1 {
                    assert(next[k] == toks[k]);
                } else if k == idx - 1 {
                    assert(next[k] == merged);
                } else {
                    assert(next[k] == toks[k + 2]);
                }
            }
            assert forall|k: int| 0 <= k < next.len() - 1 implies (#[trigger] next[k]).1.index
                + next[k].1.length <= next[k + 1].1.index by {
                if k < idx - 2 {
                    assert(next[k] == toks[k] && next[k + 1] == toks[k + 1]);
                } else if k == idx - 2 {
                    assert(next[k] == toks[k] && next[k + 1] == merged);
                } else if k == idx - 1 {
                    assert(next[k] == merged && next[k + 1] == toks[idx + 2]);
                    assert(toks[idx + 1].1.index + toks[idx + 1].1.length <= toks[idx + 2].1.index);
                } else {
                    assert(next[k] == toks[k + 2] && next[k + 1] == toks[k + 3]);
                }
            }
            lemma_merge_in_order(next, idx - 2, a, b);
        }
    } else {
        lemma_merge_in_order(toks, idx - 1, a, b);
    }
}

/// The tokens that a step reads from `i` up to `j` lie in order between them.
proof fn lemma_step_in_order(cs: Seq<char>, i: int)
    requires
        0 <= i < cs.len() <= usize::MAX,
    ensures
        lex_step(cs, i) matches Ok((toks, j)) ==> (i < j <= cs.len() ==> tokens_in_order(toks, i, j)),
{
    lemma_pos(cs, i);
    lemma_escaping_and_repetition_range(cs, i);
    if let Ok((toks, j)) = lex_step(cs, i) {
        if i < j <= cs.len() {
            if cs[i] == '[' {
                let negative = i + 1 < cs.len() && cs[i + 1] == '^';
                let k = if negative { i + 2 } else { i + 1 };
                lemma_charset_body_in_order(cs, k);
                if let Ok((body, e)) = charset_body(cs, k) {
                    let head = if negative {
                        (SpecToken::CharSetStartNegative, span(cs, i, 2))
                    } else {
                        (SpecToken::CharSetStart, span(cs, i, 1))
                    };
                    let end = (SpecToken::CharSetEnd, span(cs, e, 1));
                    lemma_pos(cs, e);
                    lemma_single_in_order(head.0, head.1, i, k);
                    lemma_single_in_order(end.0, end.1, e, e + 1);
                    lemma_concat_in_order(seq![head], body, i, k, e);
                    lemma_concat_in_order(seq![head] + body, seq![end], i, e, e + 1);
                    let raw = seq![head] + body + seq![end];
                    if raw.len() > 4 {
                        lemma_merge_in_order(raw, raw.len() - 3, i, e + 1);
                    }
                }
            } else if cs[i] == '{' {
                if let Ok((t, l, j2)) = spec_lex_repetition(cs, i) {
                    lemma_single_in_order(t, l, i, j2);
                }
            } else if cs[i] == '\\' {
                if let Ok((t, l, j2)) = spec_lex_main_escaping(cs, i) {
                    lemma_single_in_order(t, l, i, j2);
                }
            } else if cs[i] == '(' && i + 1 < cs.len() && cs[i + 1] == '?' && i + 2 < cs.len() && cs[i
                + 2] == '<' && !(i + 3 < cs.len() && (cs[i + 3] == '=' || cs[i + 3] == '!')) {
                if let Ok((name, j2)) = spec_lex_identifier(cs, i + 2) {
                    lemma_single_in_order(SpecToken::NamedCapture(name), incl(cs, i, j2 - 1), i, j2);
                }
            } else if cs[i] == '(' && i + 1 < cs.len() && cs[i + 1] == '?' {
                assert(toks.len() == 1);
                assert(toks[0].1 == span(cs, i, (j - i) as usize));
            } else {
                let c = cs[i];
                let lazy = i + 1 < cs.len() && cs[i + 1] == '?';
                if c == ']' {
                    lemma_tok_in_order(cs, i, SpecToken::CharSetEnd, 1);
                } else if c == '(' {
                    lemma_tok_in_order(cs, i, SpecToken::GroupStart, 1);
                } else if c == ')' {
                    lemma_tok_in_order(cs, i, SpecToken::GroupEnd, 1);
                } else if c == '?' {
                    if lazy {
                        lemma_tok_in_order(cs, i, SpecToken::OptionalLazy, 2);
                    } else {
                        lemma_tok_in_order(cs, i, SpecToken::Optional, 1);
                    }
                } else if c == '+' {
                    if lazy {
                        lemma_tok_in_order(cs, i, SpecToken::OneOrMoreLazy, 2);
                    } else {
                        lemma_tok_in_order(cs, i, SpecToken::OneOrMore, 1);
                    }
                } else if c == '*' {
                    if lazy {
                        lemma_tok_in_order(cs, i, SpecToken::ZeroOrMoreLazy, 2);
                    } else {
                        lemma_tok_in_order(cs, i, SpecToken::ZeroOrMore, 1);
                    }
                } else if c == '^' {
                    lemma_tok_in_order(cs, i, SpecToken::StartAssertion, 1);
                } else if c == '$' {
                    lemma_tok_in_order(cs, i, SpecToken::EndAssertion, 1);
                } else if c == '.' {
                    lemma_tok_in_order(cs, i, SpecToken::Dot, 1);
                } else if c == '|' {
                    lemma_tok_in_order(cs, i, SpecToken::LogicOr, 1);
                } else {
                    lemma_tok_in_order(cs, i, SpecToken::Char(c), 1);
                }
            }
        }
    }
}

proof fn lemma_lex_from_in_order(cs: Seq<char>, i: int)
    requires
        0 <= i,
        cs.len() <= usize::MAX,
    ensures
        lex_from(cs, i) matches Ok(toks) ==> tokens_in_order(toks, i, cs.len() as int),
    decreases cs.len() - i,
{
    if i < cs.len() {
        lemma_step_in_order(cs, i);
        if let Ok((toks, j)) = lex_step(cs, i) {
            if i < j <= cs.len() {
                lemma_lex_from_in_order(cs, j);
                if let Ok(rest) = lex_from(cs, j) {
                    lemma_concat_in_order(toks, rest, i, j, cs.len() as int);
                }
            }
        }
    }
}

/// The tokens of a traditional regular expression come in order: each
/// covers at least one char of the text, and begins at or after the end of
/// the one before.
pub proof fn lemma_lex_tokens_in_order(cs: Seq<char>)
    requires
        cs.len() <= usize::MAX,
    ensures
        spec_lex(cs) matches Ok(toks) ==> tokens_in_order(toks, 0, cs.len() as int),
{
    lemma_lex_from_in_order(cs, 0);
}

} // verus!
