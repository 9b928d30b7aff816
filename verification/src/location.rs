use vstd::prelude::*;

verus! {

/// A position (`length == 0`) or a range of characters in a text.
#[derive(Debug, PartialEq, Eq, Clone, Copy)]
pub struct Location {
    /// The character index in the text.
    pub index: usize,
    /// The line number (0-based).
    pub line: usize,
    /// The column number (0-based).
    pub column: usize,
    /// The length of the range; 0 for a single position.
    pub length: usize,
}

impl Location {
    /// The position one character further on the same line.
    pub open spec fn forward(self) -> Location {
        Location { index: (self.index + 1) as usize, column: (self.column + 1) as usize, ..self }
    }

    /// The position one character back on the same line.
    pub open spec fn backward(self) -> Location {
        Location { index: (self.index - 1) as usize, column: (self.column - 1) as usize, ..self }
    }

    /// Creates a `Location` that stands for a single position.
    pub fn new_position(index: usize, line: usize, column: usize) -> (r: Self)
        ensures
            r == (Location { index, line, column, length: 0 }),
    {
        Self { index, line, column, length: 0 }
    }

    /// Creates a `Location` that stands for a range of text.
    pub fn new_range(index: usize, line: usize, column: usize, length: usize) -> (r: Self)
        ensures
            r == (Location { index, line, column, length }),
    {
        Self { index, line, column, length }
    }

    /// Creates a range that starts at `position` and spans `length` characters.
    pub fn from_position_and_length(position: &Location, length: usize) -> (r: Self)
        ensures
            r == (Location { index: position.index, line: position.line, column: position.column, length }),
    {
        Self::new_range(position.index, position.line, position.column, length)
    }

    /// Creates a range from a start position to an end position (excluded).
    pub fn from_position_pair(position_start: &Location, position_end: &Location) -> (r: Self)
        requires
            position_start.index <= position_end.index,
        ensures
            r == (Location {
                index: position_start.index,
                line: position_start.line,
                column: position_start.column,
                length: (position_end.index - position_start.index) as usize,
            }),
    {
        Self::new_range(
            position_start.index,
            position_start.line,
            position_start.column,
            position_end.index - position_start.index,
        )
    }

    /// Creates a range from a start position to an end position (included).
    pub fn from_position_pair_with_end_included(
        position_start: &Location,
        position_end_included: &Location,
    ) -> (r: Self)
        requires
            position_start.index <= position_end_included.index,
            position_end_included.index - position_start.index + 1 <= usize::MAX,
        ensures
            r == (Location {
                index: position_start.index,
                line: position_start.line,
                column: position_start.column,
                length: (position_end_included.index - position_start.index + 1) as usize,
            }),
    {
        Self::new_range(
            position_start.index,
            position_start.line,
            position_start.column,
            position_end_included.index - position_start.index + 1,
        )
    }

    /// Combines two ranges into one that spans from the start of the first
    /// to the end of the second.
    pub fn from_range_pair(range_start: &Location, range_end: &Location) -> (r: Self)
        requires
            range_start.index <= range_end.index + range_end.length,
            range_end.index + range_end.length <= usize::MAX,
        ensures
            r == (Location {
                index: range_start.index,
                line: range_start.line,
                column: range_start.column,
                length: (range_end.index - range_start.index + range_end.length) as usize,
            }),
    {
        Self::new_range(
            range_start.index,
            range_start.line,
            range_start.column,
            range_end.index + range_end.length - range_start.index,
        )
    }

    /// The starting position of a range.
    pub fn get_position_by_range_start(&self) -> (r: Self)
        ensures
            r == (Location { length: 0, ..*self }),
    {
        Self::new_position(self.index, self.line, self.column)
    }

    /// Moves the position forward by one character on the same line.
    pub fn move_position_forward(&self) -> (r: Self)
        requires
            self.index < usize::MAX,
            self.column < usize::MAX,
        ensures
            r == self.forward(),
    {
        Self { index: self.index + 1, column: self.column + 1, ..*self }
    }

    /// Moves the position backward by one character on the same line.
    pub fn move_position_backward(&self) -> (r: Self)
        requires
            self.index > 0,
            self.column > 0,
        ensures
            r == self.backward(),
    {
        Self { index: self.index - 1, column: self.column - 1, ..*self }
    }
}

/// Moving a position forward and then backward gives the position back,
/// and so does moving it backward and then forward.
pub proof fn lemma_move_forward_backward(p: Location)
    ensures
        p.index < usize::MAX && p.column < usize::MAX ==> p.forward().backward() == p,
        p.index > 0 && p.column > 0 ==> p.backward().forward() == p,
{
}

} // verus!
