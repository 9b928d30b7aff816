use vstd::prelude::*;

verus! {

/// The byte range that a capture group matched: `start` included, `end` excluded.
#[derive(Debug, PartialEq, Eq, Clone, Copy)]
pub struct MatchRange {
    pub start: usize,
    pub end: usize,
}

/// A routine in progress: the route that it runs and the position at which
/// the text ends for it.
#[derive(Debug, PartialEq, Eq, Clone, Copy)]
pub struct Routine {
    pub route_index: usize,
    pub end_position: usize,
}

/// The state of a match in progress over a text.
pub struct Context<'a> {
    /// The text, as UTF-8 bytes.
    pub bytes: &'a [u8],
    /// The range matched by each capture group so far.
    pub match_ranges: Vec<MatchRange>,
    /// The saved repetition counts of the repetitions that are in progress.
    pub counter_stack: Vec<usize>,
    /// The routines in progress; the last one is the current routine.
    pub routines: Vec<Routine>,
}

impl<'a> Context<'a> {
    /// Creates the state for matching `bytes` with `number_of_capture_groups`
    /// groups, all of them at the empty range `0..0`.
    pub fn new(bytes: &'a [u8], number_of_capture_groups: usize) -> (r: Self)
        ensures
            r.bytes@ == bytes@,
            r.match_ranges@ == Seq::new(
                number_of_capture_groups as nat,
                |i: int| MatchRange { start: 0, end: 0 },
            ),
            r.counter_stack@.len() == 0,
            r.routines@.len() == 0,
    {
        let mut match_ranges: Vec<MatchRange> = Vec::new();
        let mut i: usize = 0;
        while i < number_of_capture_groups
            invariant
                i <= number_of_capture_groups,
                match_ranges@ == Seq::new(i as nat, |k: int| MatchRange { start: 0, end: 0 }),
            decreases number_of_capture_groups - i,
        {
            match_ranges.push(MatchRange { start: 0, end: 0 });
            i = i + 1;
            proof {
                assert(match_ranges@ =~= Seq::new(i as nat, |k: int| MatchRange { start: 0, end: 0 }));
            }
        }
        Context { bytes, match_ranges, counter_stack: Vec::new(), routines: Vec::new() }
    }

    /// The current routine.
    pub open spec fn current_routine(self) -> Routine {
        self.routines@.last()
    }

    /// The current routine.
    pub fn get_current_routine_ref(&self) -> (r: &Routine)
        requires
            self.routines@.len() > 0,
        ensures
            *r == self.current_routine(),
    {
        let last = self.routines.len() - 1;
        &self.routines[last]
    }
}

} // verus!
