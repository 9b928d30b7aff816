use vstd::prelude::*;
use vstd::std_specs::iter::IteratorSpec;

use crate::location::Location;


verus! {

/// A character together with its position in the text.
#[derive(Debug, PartialEq, Eq)]
pub struct CharWithPosition {
    pub character: char,
    pub position: Location,
}

impl CharWithPosition {
    /// Creates a `CharWithPosition` from a character and its position.
    pub fn new(character: char, position: Location) -> (r: Self)
        ensures
            r.character == character,
            r.position == position,
    {
        Self { character, position }
    }
}

/// The position that follows `p` once the character `c` has been read:
/// a line break starts a new line, any other character moves one column on.
pub open spec fn advance(p: Location, c: char) -> Location {
    if c == '\n' {
        Location { index: (p.index + 1) as usize, line: (p.line + 1) as usize, column: 0, length: 0 }
    } else {
        Location { index: (p.index + 1) as usize, line: p.line, column: (p.column + 1) as usize, length: 0 }
    }
}

/// The position reached after reading the characters `s` from the start of a text.
pub open spec fn position_after(s: Seq<char>) -> Location
    decreases s.len(),
{
    if s.len() == 0 {
        Location { index: 0, line: 0, column: 0, length: 0 }
    } else {
        advance(position_after(s.drop_last()), s.last())
    }
}

/// The index of the position after `s` is the length of `s`, and its line
/// and column never exceed that length.
pub proof fn lemma_position_after_bounds(s: Seq<char>)
    requires
        s.len() <= usize::MAX,
    ensures
        position_after(s).index == s.len(),
        position_after(s).line <= s.len(),
        position_after(s).column <= s.len(),
        position_after(s).length == 0,
    decreases s.len(),
{
    if s.len() > 0 {
        lemma_position_after_bounds(s.drop_last());
    }
}

/// An iterator over the characters of a text that also yields the position
/// (index, line and column) of each character.
pub struct CharsWithPositionIter {
    chars: Vec<char>,
    /// The index of the next character, and the position at which it stands.
    cursor: (usize, Location),
}

impl CharsWithPositionIter {
    #[verifier::type_invariant]
    spec fn inv(self) -> bool {
        &&& self.cursor.0 <= self.chars@.len()
        &&& self.cursor.1 == position_after(self.chars@.take(self.cursor.0 as int))
    }

    /// The characters that the iterator has not yielded yet.
    pub closed spec fn remaining(self) -> Seq<char> {
        self.chars@.skip(self.cursor.0 as int)
    }

    /// The characters that the iterator has yielded so far.
    pub closed spec fn consumed(self) -> Seq<char> {
        self.chars@.take(self.cursor.0 as int)
    }

    /// Creates an iterator over the characters of `text`; the first of them
    /// is at index 0, line 0, column 0.
    pub fn new(text: &str) -> (r: Self)
        ensures
            r.remaining() == text@,
            r.consumed() == Seq::<char>::empty(),
    {
        let mut chars: Vec<char> = Vec::new();
        let mut upstream = text.chars();
        for c in it: upstream
            invariant
                chars@ == it.seq().take(it.index()),
        {
            chars.push(c);
        }
        proof {
            assert(chars@.take(0) =~= Seq::<char>::empty());
        }
        let r = CharsWithPositionIter {
            chars,
            cursor: (0, Location::new_position(0, 0, 0)),
        };
        proof {
            assert(r.chars@.skip(0) =~= r.chars@);
        }
        r
    }

    /// Yields the next character with the position at which it stands,
    /// or `None` when all characters have been yielded.
    pub fn next(&mut self) -> (r: Option<CharWithPosition>)
        ensures
            old(self).remaining().len() == 0 ==> r is None && final(self).remaining() == old(
                self,
            ).remaining() && final(self).consumed() == old(self).consumed(),
            old(self).remaining().len() > 0 ==> {
                &&& r matches Some(cwp)
                &&& cwp.character == old(self).remaining()[0]
                &&& cwp.position == position_after(old(self).consumed())
                &&& final(self).remaining() == old(self).remaining().drop_first()
                &&& final(self).consumed() == old(self).consumed().push(cwp.character)
            },
    {
        proof {
            use_type_invariant(&*self);
        }
        if self.cursor.0 < self.chars.len() {
            let c = self.chars[self.cursor.0];
            let last_position = self.cursor.1;
            proof {
                lemma_position_after_bounds(self.chars@.take(self.cursor.0 as int));
            }
            let next_position = if c == '\n' {
                Location::new_position(last_position.index + 1, last_position.line + 1, 0)
            } else {
                Location::new_position(last_position.index + 1, last_position.line, last_position.column + 1)
            };
            let ghost old_consumed = self.chars@.take(self.cursor.0 as int);
            proof {
                let new_consumed = self.chars@.take(self.cursor.0 + 1);
                assert(new_consumed.drop_last() =~= old_consumed);
                assert(new_consumed =~= old_consumed.push(c));
                assert(self.chars@.skip(self.cursor.0 + 1) =~= self.chars@.skip(self.cursor.0 as int).drop_first());
            }
            self.cursor = (self.cursor.0 + 1, next_position);
            Some(CharWithPosition::new(c, last_position))
        } else {
            None
        }
    }
}

/// The positions that the iterator yields count characters: the n-th
/// character of a text stands at index n, on the line given by the number of
/// line breaks before it.
pub proof fn lemma_position_counts_chars(s: Seq<char>, c: char)
    requires
        s.len() < usize::MAX,
    ensures
        position_after(s.push(c)).index == s.len() + 1,
        position_after(s.push(c)).line == position_after(s).line + (if c == '\n' { 1int } else { 0int }),
        c == '\n' ==> position_after(s.push(c)).column == 0,
{
    assert(s.push(c).drop_last() =~= s);
    lemma_position_after_bounds(s);
}

} // verus!
