use vstd::prelude::*;

use crate::ast::{AnchorAssertionName, BoundaryAssertionName};
use vstd::string::StringSliceAdditionalSpecFns;
use crate::context::{Context, MatchRange};
use crate::object_file::{transition_wf, ObjectFile};
use crate::process::{start_routine, state_of, transition_outcome};
use crate::utf8reader::{char_at, previous_char_length, read_char, read_previous_char_length};

verus! {

/// A transition of the matching graph. Executed at a position of the text,
/// it either fails or succeeds, telling how many bytes to move forward and
/// what the repetition count becomes.
#[derive(Debug)]
pub enum Transition {
    Jump(JumpTransition),
    Char(CharTransition),
    SpecialChar(SpecialCharTransition),
    String(StringTransition),
    CharSet(CharSetTransition),
    BackReference(BackReferenceTransition),
    AnchorAssertion(AnchorAssertionTransition),
    BoundaryAssertion(BoundaryAssertionTransition),
    // Capture group transitions
    CaptureStart(CaptureStartTransition),
    CaptureEnd(CaptureEndTransition),
    // Counter transitions
    CounterReset(CounterResetTransition),
    CounterSave(CounterSaveTransition),
    CounterInc(CounterIncTransition),
    CounterCheck(CounterCheckTransition),
    Repetition(RepetitionTransition),
    // Look-around assertions
    LookAheadAssertion(LookAheadAssertionTransition),
    LookBehindAssertion(LookBehindAssertionTransition),
}

/// An unconditional jump.
#[derive(Debug)]
pub struct JumpTransition;

/// Matches one character.
#[derive(Debug)]
pub struct CharTransition {
    /// The code point of the character.
    pub codepoint: u32,
    /// The length of the character in UTF-8 bytes.
    pub byte_length: usize,
}

/// Matches any character but a line break (`char_any`).
#[derive(Debug)]
pub struct SpecialCharTransition;

/// Matches a string.
#[derive(Debug)]
pub struct StringTransition {
    /// The code points of the string.
    pub codepoints: Vec<u32>,
    /// The length of the string in UTF-8 bytes.
    pub byte_length: usize,
}

/// Matches one character of a set, or, when negative, one character outside it.
#[derive(Debug)]
pub struct CharSetTransition {
    pub items: Vec<CharSetItem>,
    pub negative: bool,
}

#[derive(Debug, PartialEq, Eq, Clone, Copy)]
pub enum CharSetItem {
    Char(u32),
    Range(CharRange),
}

/// A range of code points; both ends included.
#[derive(Debug, PartialEq, Eq, Clone, Copy)]
pub struct CharRange {
    pub start: u32,
    pub end_included: u32,
}

/// Matches the text that a capture group has matched.
#[derive(Debug)]
pub struct BackReferenceTransition {
    pub capture_group_index: usize,
}

/// Asserts the start or the end of the text.
#[derive(Debug)]
pub struct AnchorAssertionTransition {
    pub name: AnchorAssertionName,
}

/// Asserts a word boundary, or its absence.
#[derive(Debug)]
pub struct BoundaryAssertionTransition {
    pub name: BoundaryAssertionName,
}

/// Records where a capture group starts.
#[derive(Debug)]
pub struct CaptureStartTransition {
    pub capture_group_index: usize,
}

/// Records where a capture group ends.
#[derive(Debug)]
pub struct CaptureEndTransition {
    pub capture_group_index: usize,
}

/// Resets the repetition count.
#[derive(Debug)]
pub struct CounterResetTransition;

/// Saves the repetition count on the counter stack.
#[derive(Debug)]
pub struct CounterSaveTransition;

/// Restores the saved repetition count and adds one to it.
#[derive(Debug)]
pub struct CounterIncTransition;

/// Lets the match go on when the repetition count is within the bounds.
#[derive(Debug)]
pub struct CounterCheckTransition {
    pub repetition_type: RepetitionType,
}

/// Lets the match repeat once more while the count is below the upper bound.
#[derive(Debug)]
pub struct RepetitionTransition {
    pub repetition_type: RepetitionType,
}

/// Asserts that the text from the current position matches a sub-route.
#[derive(Debug)]
pub struct LookAheadAssertionTransition {
    pub route_index: usize,
    pub negative: bool,
}

/// Asserts that the text before the current position matches a sub-route of
/// a fixed length.
#[derive(Debug)]
pub struct LookBehindAssertionTransition {
    pub route_index: usize,
    pub negative: bool,
    /// The length of the sub-route's match, in characters.
    pub match_length_in_char: usize,
}

#[derive(Debug, PartialEq, Eq, Clone, Copy)]
pub enum RepetitionType {
    Specified(usize),
    Range(usize, usize),
}

/// The result of executing a transition.
#[derive(Debug, PartialEq, Eq, Clone, Copy)]
pub enum ExecuteResult {
    /// Success: the number of bytes to move forward, and the new repetition count.
    Success(usize, usize),
    Failure,
}

/// The length in UTF-8 bytes of the character with code point `cp`.
pub open spec fn utf8_length(cp: u32) -> usize {
    if cp < 0x80 {
        1
    } else if cp < 0x800 {
        2
    } else if cp < 0x10000 {
        3
    } else {
        4
    }
}

/// The length in UTF-8 bytes of a sequence of code points.
pub open spec fn utf8_total(cps: Seq<u32>) -> int
    decreases cps.len(),
{
    if cps.len() == 0 {
        0
    } else {
        utf8_length(cps[0]) + utf8_total(cps.drop_first())
    }
}

/// The UTF-8 encoding of a character is as long as `utf8_length` says.
pub proof fn lemma_encode_scalar_length(c: char)
    ensures
        vstd::utf8::encode_scalar(c as u32).len() == utf8_length(c as u32),
{
    vstd::utf8::char_is_scalar(c);
}

/// The UTF-8 encoding of a text is as long as the lengths of its
/// characters together.
pub proof fn lemma_encode_length(cs: Seq<char>, cps: Seq<u32>)
    requires
        cps.len() == cs.len(),
        forall|i: int| 0 <= i < cs.len() ==> cps[i] == #[trigger] cs[i] as u32,
    ensures
        vstd::utf8::encode_utf8(cs).len() == utf8_total(cps),
    decreases cs.len(),
{
    if cs.len() > 0 {
        lemma_encode_scalar_length(cs[0]);
        let rest = cs.drop_first();
        assert forall|i: int| 0 <= i < rest.len() implies cps.drop_first()[i] == #[trigger] rest[i] as u32 by {
            assert(rest[i] == cs[i + 1]);
        }
        lemma_encode_length(rest, cps.drop_first());
    }
}

/// The length in UTF-8 bytes of a character.
fn char_utf8_length(c: char) -> (r: usize)
    ensures
        r == utf8_length(c as u32),
{
    let cp = c as u32;
    if cp < 0x80 {
        1
    } else if cp < 0x800 {
        2
    } else if cp < 0x10000 {
        3
    } else {
        4
    }
}

impl CharTransition {
    pub fn new(c: char) -> (r: Self)
        ensures
            r.codepoint == c as u32,
            r.byte_length == utf8_length(c as u32),
    {
        let byte_length = char_utf8_length(c);
        CharTransition { codepoint: c as u32, byte_length }
    }
}

impl StringTransition {
    pub fn new(s: &str) -> (r: Self)
        ensures
            r.codepoints@ == s@.map_values(|c: char| c as u32),
            r.byte_length == s.len(),
            r.byte_length == utf8_total(r.codepoints@),
    {
        let mut codepoints: Vec<u32> = Vec::new();
        for c in it: s.chars()
            invariant
                codepoints@ == it.seq().take(it.index()).map_values(|c: char| c as u32),
        {
            proof {
                assert(it.seq().take(it.index() + 1) =~= it.seq().take(it.index()).push(c));
            }
            codepoints.push(c as u32);
            proof {
                assert(codepoints@ =~= it.seq().take(it.index() + 1).map_values(|c: char| c as u32));
            }
        }
        let byte_length = s.as_bytes().len();
        proof {
            assert forall|i: int| 0 <= i < s@.len() implies codepoints@[i] == #[trigger] s@[i] as u32 by {
                assert(codepoints@ == s@.map_values(|c: char| c as u32));
            }
            lemma_encode_length(s@, codepoints@);
        }
        StringTransition { codepoints, byte_length }
    }
}

impl CharSetItem {
    pub fn new_char(character: char) -> (r: Self)
        ensures
            r == CharSetItem::Char(character as u32),
    {
        CharSetItem::Char(character as u32)
    }

    pub fn new_range(start: char, end_included: char) -> (r: Self)
        ensures
            r == CharSetItem::Range(CharRange { start: start as u32, end_included: end_included as u32 }),
    {
        CharSetItem::Range(CharRange { start: start as u32, end_included: end_included as u32 })
    }
}

/// The items of the preset charset `char_word`: `[A-Za-z0-9_]`.
pub open spec fn word_items() -> Seq<CharSetItem> {
    seq![
        CharSetItem::Range(CharRange { start: 'A' as u32, end_included: 'Z' as u32 }),
        CharSetItem::Range(CharRange { start: 'a' as u32, end_included: 'z' as u32 }),
        CharSetItem::Range(CharRange { start: '0' as u32, end_included: '9' as u32 }),
        CharSetItem::Char('_' as u32),
    ]
}

/// The items of the preset charset `char_space`: space, tab, carriage return, line feed.
pub open spec fn space_items() -> Seq<CharSetItem> {
    seq![
        CharSetItem::Char(' ' as u32),
        CharSetItem::Char('\t' as u32),
        CharSetItem::Char('\r' as u32),
        CharSetItem::Char('\n' as u32),
    ]
}

/// The items of the preset charset `char_digit`: `[0-9]`.
pub open spec fn digit_items() -> Seq<CharSetItem> {
    seq![CharSetItem::Range(CharRange { start: '0' as u32, end_included: '9' as u32 })]
}

/// The items of the preset charset `char_hex`: `[A-Fa-f0-9]`.
pub open spec fn hex_items() -> Seq<CharSetItem> {
    seq![
        CharSetItem::Range(CharRange { start: 'A' as u32, end_included: 'F' as u32 }),
        CharSetItem::Range(CharRange { start: 'a' as u32, end_included: 'f' as u32 }),
        CharSetItem::Range(CharRange { start: '0' as u32, end_included: '9' as u32 }),
    ]
}

impl CharSetTransition {
    pub fn new(items: Vec<CharSetItem>, negative: bool) -> (r: Self)
        ensures
            r.items@ == items@,
            r.negative == negative,
    {
        CharSetTransition { items, negative }
    }

    pub fn new_preset_word() -> (r: Self)
        ensures
            r.items@ == word_items(),
            !r.negative,
    {
        let mut items: Vec<CharSetItem> = Vec::new();
        add_preset_word(&mut items);
        CharSetTransition::new(items, false)
    }

    pub fn new_preset_not_word() -> (r: Self)
        ensures
            r.items@ == word_items(),
            r.negative,
    {
        let mut items: Vec<CharSetItem> = Vec::new();
        add_preset_word(&mut items);
        CharSetTransition::new(items, true)
    }

    pub fn new_preset_space() -> (r: Self)
        ensures
            r.items@ == space_items(),
            !r.negative,
    {
        let mut items: Vec<CharSetItem> = Vec::new();
        add_preset_space(&mut items);
        CharSetTransition::new(items, false)
    }

    pub fn new_preset_not_space() -> (r: Self)
        ensures
            r.items@ == space_items(),
            r.negative,
    {
        let mut items: Vec<CharSetItem> = Vec::new();
        add_preset_space(&mut items);
        CharSetTransition::new(items, true)
    }

    pub fn new_preset_digit() -> (r: Self)
        ensures
            r.items@ == digit_items(),
            !r.negative,
    {
        let mut items: Vec<CharSetItem> = Vec::new();
        add_preset_digit(&mut items);
        CharSetTransition::new(items, false)
    }

    pub fn new_preset_not_digit() -> (r: Self)
        ensures
            r.items@ == digit_items(),
            r.negative,
    {
        let mut items: Vec<CharSetItem> = Vec::new();
        add_preset_digit(&mut items);
        CharSetTransition::new(items, true)
    }

    pub fn new_preset_hex() -> (r: Self)
        ensures
            r.items@ == hex_items(),
            !r.negative,
    {
        let mut items: Vec<CharSetItem> = Vec::new();
        add_preset_hex(&mut items);
        CharSetTransition::new(items, false)
    }
}

pub fn add_char(items: &mut Vec<CharSetItem>, c: char)
    ensures
        final(items)@ == old(items)@.push(CharSetItem::Char(c as u32)),
{
    items.push(CharSetItem::new_char(c));
}

pub fn add_range(items: &mut Vec<CharSetItem>, start: char, end_included: char)
    ensures
        final(items)@ == old(items)@.push(
            CharSetItem::Range(CharRange { start: start as u32, end_included: end_included as u32 }),
        ),
{
    items.push(CharSetItem::new_range(start, end_included));
}

pub fn add_preset_space(items: &mut Vec<CharSetItem>)
    ensures
        final(items)@ == old(items)@ + space_items(),
{
    add_char(items, ' ');
    add_char(items, '\t');
    add_char(items, '\r');
    add_char(items, '\n');
    assert(items@ =~= old(items)@ + space_items());
}

pub fn add_preset_word(items: &mut Vec<CharSetItem>)
    ensures
        final(items)@ == old(items)@ + word_items(),
{
    add_range(items, 'A', 'Z');
    add_range(items, 'a', 'z');
    add_range(items, '0', '9');
    add_char(items, '_');
    assert(items@ =~= old(items)@ + word_items());
}

pub fn add_preset_digit(items: &mut Vec<CharSetItem>)
    ensures
        final(items)@ == old(items)@ + digit_items(),
{
    add_range(items, '0', '9');
    assert(items@ =~= old(items)@ + digit_items());
}

pub fn add_preset_hex(items: &mut Vec<CharSetItem>)
    ensures
        final(items)@ == old(items)@ + hex_items(),
{
    add_range(items, 'A', 'F');
    add_range(items, 'a', 'f');
    add_range(items, '0', '9');
    assert(items@ =~= old(items)@ + hex_items());
}

impl BackReferenceTransition {
    pub fn new(capture_group_index: usize) -> (r: Self)
        ensures
            r.capture_group_index == capture_group_index,
    {
        BackReferenceTransition { capture_group_index }
    }
}

impl AnchorAssertionTransition {
    pub fn new(name: AnchorAssertionName) -> (r: Self)
        ensures
            r.name == name,
    {
        AnchorAssertionTransition { name }
    }
}

impl BoundaryAssertionTransition {
    pub fn new(name: BoundaryAssertionName) -> (r: Self)
        ensures
            r.name == name,
    {
        BoundaryAssertionTransition { name }
    }
}

impl CaptureStartTransition {
    pub fn new(capture_group_index: usize) -> (r: Self)
        ensures
            r.capture_group_index == capture_group_index,
    {
        CaptureStartTransition { capture_group_index }
    }
}

impl CaptureEndTransition {
    pub fn new(capture_group_index: usize) -> (r: Self)
        ensures
            r.capture_group_index == capture_group_index,
    {
        CaptureEndTransition { capture_group_index }
    }
}

impl CounterCheckTransition {
    pub fn new(repetition_type: RepetitionType) -> (r: Self)
        ensures
            r.repetition_type == repetition_type,
    {
        CounterCheckTransition { repetition_type }
    }
}

impl RepetitionTransition {
    pub fn new(repetition_type: RepetitionType) -> (r: Self)
        ensures
            r.repetition_type == repetition_type,
    {
        RepetitionTransition { repetition_type }
    }
}

impl LookAheadAssertionTransition {
    pub fn new(route_index: usize, negative: bool) -> (r: Self)
        ensures
            r.route_index == route_index,
            r.negative == negative,
    {
        LookAheadAssertionTransition { route_index, negative }
    }
}

impl LookBehindAssertionTransition {
    pub fn new(route_index: usize, negative: bool, match_length_in_char: usize) -> (r: Self)
        ensures
            r.route_index == route_index,
            r.negative == negative,
            r.match_length_in_char == match_length_in_char,
    {
        LookBehindAssertionTransition { route_index, negative, match_length_in_char }
    }
}


/// Whether the code points `codepoints` are the characters read one after
/// another from byte `position` on, within the text.
pub open spec fn string_matches_at(bytes: Seq<u8>, position: int, codepoints: Seq<u32>) -> bool
    decreases codepoints.len(),
{
    if codepoints.len() == 0 {
        true
    } else {
        &&& 0 <= position < bytes.len()
        &&& char_at(bytes, position).0 == codepoints[0]
        &&& string_matches_at(bytes, position + char_at(bytes, position).1, codepoints.drop_first())
    }
}

/// Whether a charset item contains the code point `cp`.
pub open spec fn item_contains(item: CharSetItem, cp: u32) -> bool {
    match item {
        CharSetItem::Char(c) => cp == c,
        CharSetItem::Range(r) => r.start <= cp <= r.end_included,
    }
}

/// Whether one of the items contains the code point `cp`.
pub open spec fn items_contain(items: Seq<CharSetItem>, cp: u32) -> bool {
    exists|i: int| 0 <= i < items.len() && item_contains(#[trigger] items[i], cp)
}

/// `[A-Za-z0-9_]`
pub open spec fn is_word_codepoint(c: u32) -> bool {
    ('a' as u32 <= c <= 'z' as u32) || ('A' as u32 <= c <= 'Z' as u32) || ('0' as u32 <= c
        <= '9' as u32) || c == '_' as u32
}

/// The word characters are exactly the characters of the preset charset
/// `char_word` (`\w`): ASCII letters, ASCII digits and the underscore.
pub proof fn lemma_word_chars_are_char_word(c: u32)
    ensures
        is_word_codepoint(c) <==> items_contain(word_items(), c),
        '0' as u32 <= c <= '9' as u32 ==> is_word_codepoint(c),
{
    let items = word_items();
    if is_word_codepoint(c) {
        if 'A' as u32 <= c <= 'Z' as u32 {
            assert(item_contains(items[0], c));
        } else if 'a' as u32 <= c <= 'z' as u32 {
            assert(item_contains(items[1], c));
        } else if '0' as u32 <= c <= '9' as u32 {
            assert(item_contains(items[2], c));
        } else {
            assert(item_contains(items[3], c));
        }
    }
    if items_contain(items, c) {
        let i = choose|i: int| 0 <= i < items.len() && item_contains(#[trigger] items[i], c);
        assert(i == 0 || i == 1 || i == 2 || i == 3);
    }
}

/// A word boundary lies between two characters of a text exactly when one
/// of them is in `char_word` and the other is not; at the start of the text
/// exactly when the first character is in it, and at the end exactly when
/// the last one is.
pub proof fn lemma_word_boundary_is_char_word_change(bytes: Seq<u8>, position: int)
    requires
        bytes.len() > 0,
        0 <= position,
    ensures
        0 < position < bytes.len() ==> (word_bound_at(bytes, position) <==> items_contain(
            word_items(),
            char_at(bytes, position).0,
        ) != items_contain(word_items(), char_at(bytes, position - 1).0)),
        position == 0 ==> (word_bound_at(bytes, position) <==> items_contain(
            word_items(),
            char_at(bytes, 0).0,
        )),
        position >= bytes.len() ==> (word_bound_at(bytes, position) <==> items_contain(
            word_items(),
            char_at(bytes, position - 1).0,
        )),
{
    lemma_word_chars_are_char_word(char_at(bytes, 0).0);
    lemma_word_chars_are_char_word(char_at(bytes, position).0);
    lemma_word_chars_are_char_word(char_at(bytes, position - 1).0);
}

/// Whether there is a word boundary at byte `position`: a word character on
/// exactly one side of it. The character before is read at the byte just
/// before the position.
pub open spec fn word_bound_at(bytes: Seq<u8>, position: int) -> bool {
    if bytes.len() == 0 {
        false
    } else if position == 0 {
        is_word_codepoint(char_at(bytes, 0).0)
    } else if position >= bytes.len() {
        is_word_codepoint(char_at(bytes, position - 1).0)
    } else {
        let current = is_word_codepoint(char_at(bytes, position).0);
        let previous = is_word_codepoint(char_at(bytes, position - 1).0);
        if current {
            !previous
        } else {
            previous
        }
    }
}

/// The byte position `n` characters before `position`, or `None` when the
/// start of the text comes first.
pub open spec fn position_back(bytes: Seq<u8>, position: int, n: nat) -> Option<int>
    decreases n,
{
    if n == 0 {
        Some(position)
    } else if position <= 0 {
        None
    } else {
        position_back(bytes, position - previous_char_length(bytes, position), (n - 1) as nat)
    }
}

/// The outcome of a back reference at `position`: the text of the group
/// must follow, and must end no later than `end_position`, so a back
/// reference may match up to the very end of the text.
pub open spec fn back_reference_outcome(
    bytes: Seq<u8>,
    range: MatchRange,
    position: int,
    end_position: int,
) -> ExecuteResult {
    if range.start > range.end || range.end > bytes.len() {
        ExecuteResult::Failure
    } else {
        let length = range.end - range.start;
        if position + length > end_position {
            ExecuteResult::Failure
        } else if bytes.subrange(position, position + length) == bytes.subrange(
            range.start as int,
            range.end as int,
        ) {
            ExecuteResult::Success(length as usize, 0)
        } else {
            ExecuteResult::Failure
        }
    }
}

/// The outcome of a transition that reads the text at `position` without
/// starting a sub-route, given the text, the capture ranges, the counter
/// stack, the end of the text for the current routine and the repetition count.
pub open spec fn basic_outcome(
    t: Transition,
    bytes: Seq<u8>,
    ranges: Seq<MatchRange>,
    counters: Seq<usize>,
    end_position: int,
    position: int,
    count: usize,
) -> ExecuteResult {
    match t {
        Transition::Jump(_) => ExecuteResult::Success(0, 0),
        Transition::Char(c) => if position >= end_position || c.byte_length > end_position
            - position {
            ExecuteResult::Failure
        } else if char_at(bytes, position).0 == c.codepoint {
            ExecuteResult::Success(c.byte_length, 0)
        } else {
            ExecuteResult::Failure
        },
        Transition::SpecialChar(_) => if position >= end_position {
            ExecuteResult::Failure
        } else if char_at(bytes, position).0 != '\n' as u32 && char_at(bytes, position).0
            != '\r' as u32 && char_at(bytes, position).1 <= end_position - position {
            ExecuteResult::Success(char_at(bytes, position).1 as usize, 0)
        } else {
            ExecuteResult::Failure
        },
        Transition::String(st) => if position + st.byte_length > end_position {
            ExecuteResult::Failure
        } else if string_matches_at(bytes, position, st.codepoints@) {
            ExecuteResult::Success(st.byte_length, 0)
        } else {
            ExecuteResult::Failure
        },
        Transition::CharSet(cs) => if position >= end_position || char_at(bytes, position).1
            > end_position - position {
            ExecuteResult::Failure
        } else if items_contain(cs.items@, char_at(bytes, position).0) != cs.negative {
            ExecuteResult::Success(char_at(bytes, position).1 as usize, 0)
        } else {
            ExecuteResult::Failure
        },
        Transition::BackReference(b) => back_reference_outcome(
            bytes,
            ranges[b.capture_group_index as int],
            position,
            end_position,
        ),
        Transition::AnchorAssertion(a) => if (match a.name {
            AnchorAssertionName::Start => position == 0,
            AnchorAssertionName::End => position >= bytes.len(),
        }) {
            ExecuteResult::Success(0, 0)
        } else {
            ExecuteResult::Failure
        },
        Transition::BoundaryAssertion(b) => if (match b.name {
            BoundaryAssertionName::IsBound => word_bound_at(bytes, position),
            BoundaryAssertionName::IsNotBound => !word_bound_at(bytes, position),
        }) {
            ExecuteResult::Success(0, 0)
        } else {
            ExecuteResult::Failure
        },
        Transition::CaptureStart(_) => ExecuteResult::Success(0, 0),
        Transition::CaptureEnd(_) => ExecuteResult::Success(0, 0),
        Transition::CounterReset(_) => ExecuteResult::Success(0, 0),
        Transition::CounterSave(_) => ExecuteResult::Success(0, 0),
        Transition::CounterInc(_) => if counters.len() == 0 || counters.last() == usize::MAX {
            ExecuteResult::Failure
        } else {
            ExecuteResult::Success(0, (counters.last() + 1) as usize)
        },
        Transition::CounterCheck(c) => if (match c.repetition_type {
            RepetitionType::Specified(m) => count == m,
            RepetitionType::Range(from, to) => from <= count <= to,
        }) {
            ExecuteResult::Success(0, count)
        } else {
            ExecuteResult::Failure
        },
        Transition::Repetition(r) => if (match r.repetition_type {
            RepetitionType::Specified(times) => count < times,
            RepetitionType::Range(_, to) => count < to,
        }) {
            ExecuteResult::Success(0, count)
        } else {
            ExecuteResult::Failure
        },
        _ => ExecuteResult::Failure,
    }
}

/// The capture ranges after a transition that starts no sub-route.
pub open spec fn basic_ranges_after(t: Transition, ranges: Seq<MatchRange>, position: int) -> Seq<
    MatchRange,
> {
    match t {
        Transition::CaptureStart(c) => ranges.update(
            c.capture_group_index as int,
            MatchRange { start: position as usize, ..ranges[c.capture_group_index as int] },
        ),
        Transition::CaptureEnd(c) => ranges.update(
            c.capture_group_index as int,
            MatchRange { end: position as usize, ..ranges[c.capture_group_index as int] },
        ),
        _ => ranges,
    }
}

/// The counter stack after a transition that starts no sub-route.
pub open spec fn basic_counters_after(t: Transition, counters: Seq<usize>, count: usize) -> Seq<
    usize,
> {
    match t {
        Transition::CounterSave(_) => counters.push(count),
        Transition::CounterInc(_) => if counters.len() == 0 {
            counters
        } else {
            counters.drop_last()
        },
        _ => counters,
    }
}

/// Whether a transition starts a sub-route (a look-around assertion).
pub open spec fn is_look_around(t: Transition) -> bool {
    t is LookAheadAssertion || t is LookBehindAssertion
}

/// The requirements for executing a transition: the object file is well
/// formed, the context has one range per capture group, the current routine
/// runs a route of the object file over the text, the transition belongs to
/// that route, and the position lies within the text.
pub open spec fn execute_requires(
    t: Transition,
    context: Context,
    object_file: ObjectFile,
    position: int,
) -> bool {
    &&& object_file.wf()
    &&& context.match_ranges@.len() == object_file.capture_group_names@.len()
    &&& context.routines@.len() > 0
    &&& context.current_routine().route_index < object_file.routes@.len()
    &&& context.current_routine().end_position == context.bytes@.len()
    &&& transition_wf(
        t,
        context.current_routine().route_index as int,
        object_file.routes@.len() as int,
        object_file.capture_group_names@.len() as int,
    )
    &&& 0 <= position <= context.bytes@.len()
}

impl Transition {
    /// Executes the transition at byte `position` of the text, with the
    /// current repetition count.
    ///
    /// A look-around assertion runs its sub-route from the position (ahead)
    /// or from the position the given number of characters back (behind), and
    /// succeeds without moving when the sub-route's result differs from its
    /// `negative` flag. The sub-route may change the capture ranges and the
    /// counter stack.
    pub fn execute(
        &self,
        context: &mut Context,
        object_file: &ObjectFile,
        position: usize,
        repetition_count: usize,
    ) -> (r: ExecuteResult)
        requires
            execute_requires(*self, *old(context), *object_file, position as int),
        ensures
            final(context).bytes@ == old(context).bytes@,
            final(context).routines@ == old(context).routines@,
            final(context).match_ranges@.len() == old(context).match_ranges@.len(),
            !is_look_around(*self) ==> {
                &&& r == basic_outcome(
                    *self,
                    old(context).bytes@,
                    old(context).match_ranges@,
                    old(context).counter_stack@,
                    old(context).current_routine().end_position as int,
                    position as int,
                    repetition_count,
                )
                &&& final(context).match_ranges@ == basic_ranges_after(
                    *self,
                    old(context).match_ranges@,
                    position as int,
                )
                &&& final(context).counter_stack@ == basic_counters_after(
                    *self,
                    old(context).counter_stack@,
                    repetition_count,
                )
            },
            is_look_around(*self) ==> r is Failure || r == ExecuteResult::Success(0, 0),
            (r, state_of(*final(context))) == transition_outcome(
                *object_file,
                old(context).bytes@,
                old(context).current_routine().route_index as int,
                *self,
                position as int,
                repetition_count,
                state_of(*old(context)),
            ),
            r matches ExecuteResult::Success(forward, _) ==> position + forward <= old(
                context,
            ).bytes@.len(),
        decreases object_file.routes@.len() - old(context).current_routine().route_index, 0nat,
    {
        let end_position = context.get_current_routine_ref().end_position;
        match self {
            Transition::Jump(_) => ExecuteResult::Success(0, 0),
            Transition::Char(transition) => {
                if position >= end_position || transition.byte_length > end_position - position {
                    ExecuteResult::Failure
                } else {
                    let (cp, _) = read_char(context.bytes, position);
                    if cp == transition.codepoint {
                        ExecuteResult::Success(transition.byte_length, 0)
                    } else {
                        ExecuteResult::Failure
                    }
                }
            },
            Transition::SpecialChar(_) => {
                // `char_any` does not include line breaks.
                if position >= end_position {
                    ExecuteResult::Failure
                } else {
                    let (current_char, byte_length) = read_char(context.bytes, position);
                    if current_char != '\n' as u32 && current_char != '\r' as u32 && byte_length
                        <= end_position - position {
                        ExecuteResult::Success(byte_length, 0)
                    } else {
                        ExecuteResult::Failure
                    }
                }
            },
            Transition::String(transition) => {
                if transition.byte_length > end_position - position {
                    ExecuteResult::Failure
                } else {
                    let bytes = context.bytes;
                    let mut is_same = true;
                    let mut current_position: usize = position;
                    let mut i: usize = 0;
                    proof {
                        assert(transition.codepoints@.skip(0) =~= transition.codepoints@);
                    }
                    while i < transition.codepoints.len()
                        invariant
                            i <= transition.codepoints@.len(),
                            current_position <= bytes@.len(),
                            is_same ==> (string_matches_at(
                                bytes@,
                                position as int,
                                transition.codepoints@,
                            ) == string_matches_at(
                                bytes@,
                                current_position as int,
                                transition.codepoints@.skip(i as int),
                            )),
                            !is_same ==> !string_matches_at(
                                bytes@,
                                position as int,
                                transition.codepoints@,
                            ),
                        ensures
                            is_same ==> i == transition.codepoints@.len(),
                        decreases transition.codepoints@.len() - i,
                    {
                        let ghost rest = transition.codepoints@.skip(i as int);
                        proof {
                            assert(rest.drop_first() =~= transition.codepoints@.skip(i + 1));
                        }
                        if current_position >= bytes.len() {
                            is_same = false;
                            break;
                        }
                        let (cp, length) = read_char(bytes, current_position);
                        if transition.codepoints[i] != cp {
                            is_same = false;
                            break;
                        }
                        current_position = current_position + length;
                        i = i + 1;
                    }
                    proof {
                        if is_same {
                            assert(transition.codepoints@.skip(i as int).len() == 0);
                        }
                    }
                    if is_same {
                        ExecuteResult::Success(transition.byte_length, 0)
                    } else {
                        ExecuteResult::Failure
                    }
                }
            },
            Transition::CharSet(transition) => {
                if position >= end_position {
                    return ExecuteResult::Failure;
                }
                let (current_char, byte_length) = read_char(context.bytes, position);
                if byte_length > end_position - position {
                    return ExecuteResult::Failure;
                }
                let mut found: bool = false;
                let mut i: usize = 0;
                while i < transition.items.len()
                    invariant_except_break
                        !found,
                        forall|k: int|
                            0 <= k < i ==> !item_contains(#[trigger] transition.items@[k], current_char),
                    invariant
                        i <= transition.items@.len(),
                        found ==> items_contain(transition.items@, current_char),
                    ensures
                        !found ==> forall|k: int|
                            0 <= k < transition.items@.len() ==> !item_contains(#[trigger] transition.items@[k], current_char),
                        found ==> items_contain(transition.items@, current_char),
                    decreases transition.items@.len() - i,
                {
                    let item = &transition.items[i];
                    found = match item {
                        CharSetItem::Char(c) => current_char == *c,
                        CharSetItem::Range(r) => current_char >= r.start && current_char
                            <= r.end_included,
                    };
                    proof {
                        assert(found == item_contains(transition.items@[i as int], current_char));
                    }
                    if found {
                        break;
                    }
                    proof {
                        assert(!item_contains(transition.items@[i as int], current_char));
                        assert(forall|k: int|
                            0 <= k < i + 1 ==> !item_contains(#[trigger] transition.items@[k], current_char));
                    }
                    i = i + 1;
                }
                if found != transition.negative {
                    ExecuteResult::Success(byte_length, 0)
                } else {
                    ExecuteResult::Failure
                }
            },
            Transition::BackReference(transition) => {
                let range = context.match_ranges[transition.capture_group_index];
                let bytes = context.bytes;
                if range.start > range.end || range.end > bytes.len() {
                    return ExecuteResult::Failure;
                }
                let byte_length = range.end - range.start;
                if byte_length > end_position - position {
                    ExecuteResult::Failure
                } else {
                    let mut is_same = true;
                    let mut idx: usize = 0;
                    while idx < byte_length
                        invariant
                            idx <= byte_length,
                            byte_length == range.end - range.start,
                            range.end <= bytes@.len(),
                            position + byte_length <= bytes@.len(),
                            bytes@.subrange(range.start as int, range.start + idx) == bytes@.subrange(
                                position as int,
                                position + idx,
                            ),
                            !is_same ==> bytes@.subrange(
                                position as int,
                                position + byte_length,
                            ) != bytes@.subrange(range.start as int, range.end as int),
                        ensures
                            is_same ==> idx == byte_length,
                            bytes@.subrange(range.start as int, range.start + idx) == bytes@.subrange(
                                position as int,
                                position + idx,
                            ),
                            !is_same ==> bytes@.subrange(
                                position as int,
                                position + byte_length,
                            ) != bytes@.subrange(range.start as int, range.end as int),
                        decreases byte_length - idx,
                    {
                        if bytes[range.start + idx] != bytes[position + idx] {
                            is_same = false;
                            proof {
                                assert(bytes@.subrange(position as int, position + byte_length)[idx as int]
                                    != bytes@.subrange(range.start as int, range.end as int)[idx as int]);
                            }
                            break;
                        }
                        proof {
                            assert(bytes@.subrange(range.start as int, range.start + idx + 1)
                                =~= bytes@.subrange(range.start as int, range.start + idx).push(bytes@[range.start + idx]));
                            assert(bytes@.subrange(position as int, position + idx + 1)
                                =~= bytes@.subrange(position as int, position + idx).push(bytes@[position + idx]));
                        }
                        idx = idx + 1;
                    }
                    if is_same {
                        proof {
                            assert(bytes@.subrange(position as int, position + byte_length)
                                =~= bytes@.subrange(range.start as int, range.end as int));
                        }
                        ExecuteResult::Success(byte_length, 0)
                    } else {
                        ExecuteResult::Failure
                    }
                }
            },
            Transition::AnchorAssertion(transition) => {
                let success = match transition.name {
                    AnchorAssertionName::Start => is_first_char(position),
                    AnchorAssertionName::End => is_end(context.bytes, position),
                };
                if success {
                    ExecuteResult::Success(0, 0)
                } else {
                    ExecuteResult::Failure
                }
            },
            Transition::BoundaryAssertion(transition) => {
                let success = match transition.name {
                    BoundaryAssertionName::IsBound => is_word_bound(context.bytes, position),
                    BoundaryAssertionName::IsNotBound => !is_word_bound(context.bytes, position),
                };
                if success {
                    ExecuteResult::Success(0, 0)
                } else {
                    ExecuteResult::Failure
                }
            },
            Transition::CaptureStart(transition) => {
                let index = transition.capture_group_index;
                let range = context.match_ranges[index];
                context.match_ranges.set(index, MatchRange { start: position, ..range });
                ExecuteResult::Success(0, 0)
            },
            Transition::CaptureEnd(transition) => {
                let index = transition.capture_group_index;
                let range = context.match_ranges[index];
                context.match_ranges.set(index, MatchRange { end: position, ..range });
                ExecuteResult::Success(0, 0)
            },
            Transition::CounterReset(_) => ExecuteResult::Success(0, 0),
            Transition::CounterSave(_) => {
                context.counter_stack.push(repetition_count);
                ExecuteResult::Success(0, 0)
            },
            Transition::CounterInc(_) => {
                match context.counter_stack.pop() {
                    Some(last_count) => {
                        if last_count == usize::MAX {
                            ExecuteResult::Failure
                        } else {
                            ExecuteResult::Success(0, last_count + 1)
                        }
                    },
                    None => ExecuteResult::Failure,
                }
            },
            Transition::CounterCheck(transition) => {
                let can_forward = match transition.repetition_type {
                    RepetitionType::Specified(m) => repetition_count == m,
                    RepetitionType::Range(from, to) => repetition_count >= from
                        && repetition_count <= to,
                };
                if can_forward {
                    ExecuteResult::Success(0, repetition_count)
                } else {
                    ExecuteResult::Failure
                }
            },
            Transition::Repetition(transition) => {
                let can_backward = match transition.repetition_type {
                    RepetitionType::Specified(times) => repetition_count < times,
                    RepetitionType::Range(_, to) => repetition_count < to,
                };
                if can_backward {
                    ExecuteResult::Success(0, repetition_count)
                } else {
                    ExecuteResult::Failure
                }
            },
            Transition::LookAheadAssertion(transition) => {
                let length = context.bytes.len();
                let thread_result = start_routine(
                    context,
                    object_file,
                    transition.route_index,
                    position,
                    length,
                );
                // An assertion does not move the position of the routine that runs it.
                if thread_result != transition.negative {
                    ExecuteResult::Success(0, 0)
                } else {
                    ExecuteResult::Failure
                }
            },
            Transition::LookBehindAssertion(transition) => {
                let length = context.bytes.len();
                let thread_result = match get_position_by_chars_backward(
                    context.bytes,
                    position,
                    transition.match_length_in_char,
                ) {
                    Some(start) => start_routine(
                        context,
                        object_file,
                        transition.route_index,
                        start,
                        length,
                    ),
                    None => false,
                };
                if thread_result != transition.negative {
                    ExecuteResult::Success(0, 0)
                } else {
                    ExecuteResult::Failure
                }
            },
        }
    }
}

/// The byte position `backward_chars` characters before `current_position`,
/// or `None` when the start of the text comes first.
pub fn get_position_by_chars_backward(
    bytes: &[u8],
    current_position: usize,
    backward_chars: usize,
) -> (r: Option<usize>)
    requires
        current_position <= bytes@.len(),
    ensures
        r == (match position_back(bytes@, current_position as int, backward_chars as nat) {
            Some(p) => Some(p as usize),
            None => None::<usize>,
        }),
        r matches Some(p) ==> p <= current_position,
{
    let mut position = current_position;
    let mut n: usize = 0;
    while n < backward_chars
        invariant
            n <= backward_chars,
            position <= current_position <= bytes@.len(),
            position_back(bytes@, current_position as int, backward_chars as nat) == position_back(
                bytes@,
                position as int,
                (backward_chars - n) as nat,
            ),
        decreases backward_chars - n,
    {
        if position == 0 {
            return None;
        }
        let length = read_previous_char_length(bytes, position);
        position = position - length;
        n = n + 1;
    }
    Some(position)
}

fn is_first_char(position: usize) -> (r: bool)
    ensures
        r == (position == 0),
{
    position == 0
}

fn is_end(bytes: &[u8], position: usize) -> (r: bool)
    ensures
        r == (position >= bytes@.len()),
{
    position >= bytes.len()
}

/// Whether there is a word boundary at byte `position` of the text.
pub fn is_word_bound(bytes: &[u8], position: usize) -> (r: bool)
    requires
        position <= bytes@.len(),
    ensures
        r == word_bound_at(bytes@, position as int),
{
    if bytes.len() == 0 {
        false
    } else if position == 0 {
        let (current_char, _) = read_char(bytes, position);
        is_word_char(current_char)
    } else if position >= bytes.len() {
        let (previous_char, _) = read_char(bytes, position - 1);
        is_word_char(previous_char)
    } else {
        let (current_char, _) = read_char(bytes, position);
        let (previous_char, _) = read_char(bytes, position - 1);
        if is_word_char(current_char) {
            !is_word_char(previous_char)
        } else {
            is_word_char(previous_char)
        }
    }
}

/// Whether a code point is a word character: `[A-Za-z0-9_]`.
pub fn is_word_char(c: u32) -> (r: bool)
    ensures
        r == is_word_codepoint(c),
{
    (c >= 'a' as u32 && c <= 'z' as u32) || (c >= 'A' as u32 && c <= 'Z' as u32) || (c >= '0' as u32
        && c <= '9' as u32) || (c == '_' as u32)
}

} // verus!
