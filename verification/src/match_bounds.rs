use vstd::prelude::*;
use vstd::string::StringSliceAdditionalSpecFns;

use crate::char_boundaries::{
    lemma_groups_on_char_boundaries, lemma_step_over_char, lemma_valid_from_is_boundary, valid_from,
};
use crate::compiler::compiled;
use crate::context::MatchRange;
use crate::object_file::{group_zero_frames_main, transition_wf, writes_group_zero, ObjectFile, Route};
use crate::process::{
    frames_for, initial_state, iteration_step, lemma_routine_failure_keeps_state, main_search,
    match_from, object_file_of, regex_compiled, resume_position, routine_loop, routine_outcome,
    transition_outcome, ranges_are_slices, are_group_matches, is_group_match, value_bytes, Captures, FrameView, Match,
    MatchState, Regex, MAX_ROUTINE_STEPS,
};
use crate::transition::{basic_outcome, is_look_around, ExecuteResult, Transition};
use crate::utf8reader::char_at;

verus! {

// Where a match lies. Capture group 0 frames the main route of a compiled
// pattern: the route opens it once, at the position where it starts, and
// closes it on the way to its exit; nothing else touches it. So the first
// match that a search finds begins where one run of the main route began,
// which is at or after the position the search started from, and ends
// where that run reached the exit, which is no earlier and within the text.

/// The frames name transitions of the route.
spec fn frames_name_transitions(stack: Seq<FrameView>, route: Route) -> bool {
    forall|k: int|
        0 <= k < stack.len() ==> {
            &&& (#[trigger] stack[k]).node_index < route.nodes@.len()
            &&& stack[k].transition_index < route.nodes@[stack[k].node_index as int].transition_items@.len()
        }
}

/// The frames of the main route after its first transition: none is at the
/// entry, all lie between `q` and the end of the text, and each is tried
/// from a state with one range per group in which group 0 starts at `q`.
spec fn main_frames_ok(stack: Seq<FrameView>, route: Route, q: int, text_len: int, groups: int) -> bool {
    &&& frames_name_transitions(stack, route)
    &&& forall|k: int|
        0 <= k < stack.len() ==> {
            &&& (#[trigger] stack[k]).node_index != route.start_node_index
            &&& q <= stack[k].position <= text_len
            &&& stack[k].state.ranges.len() == groups
            &&& stack[k].state.ranges[0].start == q
        }
}

/// Each frame is tried from a state with `groups` ranges whose group 0 is `r0`.
spec fn frames_keep_zero(stack: Seq<FrameView>, groups: int, r0: MatchRange) -> bool {
    forall|k: int|
        0 <= k < stack.len() ==> (#[trigger] stack[k]).state.ranges.len() == groups && stack[k].state.ranges[0]
            == r0
}

proof fn lemma_frames_for_name_transitions(
    route: Route,
    node_index: usize,
    position: usize,
    count: usize,
    s: MatchState,
)
    requires
        node_index < route.nodes@.len(),
    ensures
        frames_name_transitions(frames_for(route, node_index as int, position, count, s), route),
        forall|k: int|
            0 <= k < frames_for(route, node_index as int, position, count, s).len() ==> {
                &&& (#[trigger] frames_for(route, node_index as int, position, count, s)[k]).node_index
                    == node_index
                &&& frames_for(route, node_index as int, position, count, s)[k].position == position
                &&& frames_for(route, node_index as int, position, count, s)[k].state == s
            },
{
    let items = route.nodes@[node_index as int].transition_items;
    assert(items.len() == items@.len());
}

/// A transition that does not touch capture group 0 leaves it as it was,
/// and keeps one range per capture group.
proof fn lemma_transition_keeps_group_zero(
    object_file: ObjectFile,
    bytes: Seq<u8>,
    route_index: int,
    t: Transition,
    position: int,
    count: usize,
    s: MatchState,
)
    requires
        object_file.wf(),
        group_zero_frames_main(object_file),
        0 <= route_index < object_file.routes@.len(),
        transition_wf(
            t,
            route_index,
            object_file.routes@.len() as int,
            object_file.capture_group_names@.len() as int,
        ),
        !writes_group_zero(t),
        s.ranges.len() == object_file.capture_group_names@.len(),
    ensures
        ({
            let s2 = transition_outcome(object_file, bytes, route_index, t, position, count, s).1;
            s2.ranges.len() == s.ranges.len() && s2.ranges[0] == s.ranges[0]
        }),
    decreases object_file.routes@.len() - route_index, 0nat, 0nat,
{
    match t {
        Transition::LookAheadAssertion(la) => {
            lemma_routine_keeps_group_zero(object_file, bytes, la.route_index as int, position, s);
        },
        Transition::LookBehindAssertion(lb) => {
            if let Some(start) = crate::transition::position_back(bytes, position, lb.match_length_in_char as nat) {
                lemma_routine_keeps_group_zero(object_file, bytes, lb.route_index as int, start, s);
            }
        },
        _ => {},
    }
}

/// A sub-route leaves capture group 0 as it found it.
proof fn lemma_routine_keeps_group_zero(
    object_file: ObjectFile,
    bytes: Seq<u8>,
    route_index: int,
    start: int,
    s: MatchState,
)
    requires
        object_file.wf(),
        group_zero_frames_main(object_file),
        0 < route_index,
        s.ranges.len() == object_file.capture_group_names@.len(),
    ensures
        ({
            let s2 = routine_outcome(object_file, bytes, route_index, start, s).1;
            s2.ranges.len() == s.ranges.len() && s2.ranges[0] == s.ranges[0]
        }),
    decreases object_file.routes@.len() - route_index, 2nat, 0nat,
{
    if route_index < object_file.routes@.len() {
        let route = object_file.routes@[route_index];
        lemma_frames_for_name_transitions(route, route.start_node_index, start as usize, 0, s);
        let stack = frames_for(route, route.start_node_index as int, start as usize, 0, s);
        assert forall|k: int| 0 <= k < stack.len() implies (#[trigger] stack[k]).state.ranges.len()
            == s.ranges.len() && stack[k].state.ranges[0] == s.ranges[0] by {
            assert(stack[k].state == s);
        }
        lemma_loop_keeps_group_zero(object_file, bytes, route_index, stack, s, MAX_ROUTINE_STEPS as nat);
    }
}

/// The search of a sub-route leaves capture group 0 as it found it.
proof fn lemma_loop_keeps_group_zero(
    object_file: ObjectFile,
    bytes: Seq<u8>,
    route_index: int,
    stack: Seq<FrameView>,
    fail: MatchState,
    steps: nat,
)
    requires
        object_file.wf(),
        group_zero_frames_main(object_file),
        0 < route_index < object_file.routes@.len(),
        fail.ranges.len() == object_file.capture_group_names@.len(),
        frames_name_transitions(stack, object_file.routes@[route_index]),
        frames_keep_zero(stack, fail.ranges.len() as int, fail.ranges[0]),
    ensures
        ({
            let s2 = routine_loop(object_file, bytes, route_index, stack, fail, steps).1;
            s2.ranges.len() == fail.ranges.len() && s2.ranges[0] == fail.ranges[0]
        }),
    decreases object_file.routes@.len() - route_index, 1nat, steps,
{
    if steps > 0 && stack.len() > 0 {
        let route = object_file.routes@[route_index];
        let l = object_file.routes@.len() as int;
        let g = object_file.capture_group_names@.len() as int;
        let frame = stack.last();
        let i = frame.node_index as int;
        let j = frame.transition_index as int;
        assert(stack[stack.len() - 1] == frame);
        let item = route.nodes@[i].transition_items@[j];
        assert(route.wf(route_index, l, g));
        assert(route.edges_wf(route_index, l, g));
        assert(route.leaves_group_zero());
        assert(item.target_node_index < route.nodes@.len() && transition_wf(item.transition, route_index, l, g));
        assert(!writes_group_zero(item.transition));
        lemma_transition_keeps_group_zero(
            object_file,
            bytes,
            route_index,
            item.transition,
            frame.position as int,
            frame.repetition_count,
            frame.state,
        );
        let (r, s2) = transition_outcome(
            object_file,
            bytes,
            route_index,
            item.transition,
            frame.position as int,
            frame.repetition_count,
            frame.state,
        );
        match r {
            ExecuteResult::Success(forward, count) => {
                if item.target_node_index != route.end_node_index {
                    let p = (frame.position + forward) as usize;
                    let next = frames_for(route, item.target_node_index as int, p, count, s2);
                    lemma_frames_for_name_transitions(route, item.target_node_index, p, count, s2);
                    let rest = stack.drop_last() + next;
                    assert forall|k: int| 0 <= k < rest.len() implies {
                        &&& (#[trigger] rest[k]).node_index < route.nodes@.len()
                        &&& rest[k].transition_index < route.nodes@[rest[k].node_index as int].transition_items@.len()
                        &&& rest[k].state.ranges.len() == fail.ranges.len()
                        &&& rest[k].state.ranges[0] == fail.ranges[0]
                    } by {
                        if k < stack.len() - 1 {
                            assert(rest[k] == stack[k]);
                        } else {
                            assert(rest[k] == next[k - (stack.len() - 1)]);
                        }
                    }
                    lemma_loop_keeps_group_zero(object_file, bytes, route_index, rest, fail, (steps - 1) as nat);
                }
            },
            ExecuteResult::Failure => {
                let rest = stack.drop_last();
                assert forall|k: int| 0 <= k < rest.len() implies {
                    &&& (#[trigger] rest[k]).node_index < route.nodes@.len()
                    &&& rest[k].transition_index < route.nodes@[rest[k].node_index as int].transition_items@.len()
                    &&& rest[k].state.ranges.len() == fail.ranges.len()
                    &&& rest[k].state.ranges[0] == fail.ranges[0]
                } by {
                    assert(rest[k] == stack[k]);
                }
                lemma_loop_keeps_group_zero(object_file, bytes, route_index, rest, fail, (steps - 1) as nat);
            },
        }
    }
}

/// A transition that succeeds at a position within the text moves to a
/// position within the text.
proof fn lemma_transition_stays_in_text(
    object_file: ObjectFile,
    bytes: Seq<u8>,
    route_index: int,
    t: Transition,
    position: int,
    count: usize,
    s: MatchState,
)
    requires
        0 <= position <= bytes.len(),
    ensures
        transition_outcome(object_file, bytes, route_index, t, position, count, s).0 matches ExecuteResult::Success(
            forward,
            _,
        ) ==> position + forward <= bytes.len(),
{
    if !is_look_around(t) {
        let r = basic_outcome(t, bytes, s.ranges, s.counters, bytes.len() as int, position, count);
        assert(transition_outcome(object_file, bytes, route_index, t, position, count, s).0 == r);
    }
}

/// The search of the main route after its first transition: group 0 keeps
/// the start `q` that the first transition gave it, and a search that
/// reaches the exit closes group 0 at a position from `q` to the end of
/// the text.
proof fn lemma_main_loop(
    object_file: ObjectFile,
    bytes: Seq<u8>,
    stack: Seq<FrameView>,
    fail: MatchState,
    steps: nat,
    q: int,
)
    requires
        object_file.wf(),
        group_zero_frames_main(object_file),
        bytes.len() <= usize::MAX,
        fail.ranges.len() == object_file.capture_group_names@.len(),
        main_frames_ok(
            stack,
            object_file.routes@[0],
            q,
            bytes.len() as int,
            object_file.capture_group_names@.len() as int,
        ),
    ensures
        ({
            let (found, s2) = routine_loop(object_file, bytes, 0, stack, fail, steps);
            &&& s2.ranges.len() == fail.ranges.len()
            &&& found ==> s2.ranges[0].start == q && q <= s2.ranges[0].end <= bytes.len()
        }),
    decreases steps,
{
    if steps > 0 && stack.len() > 0 {
        let route = object_file.routes@[0];
        let l = object_file.routes@.len() as int;
        let g = object_file.capture_group_names@.len() as int;
        let frame = stack.last();
        assert(stack[stack.len() - 1] == frame);
        let s = frame.state;
        let i = frame.node_index as int;
        let j = frame.transition_index as int;
        let item = route.nodes@[i].transition_items@[j];
        assert(route.wf(0, l, g));
        assert(route.edges_wf(0, l, g));
        assert(item.target_node_index < route.nodes@.len() && transition_wf(item.transition, 0, l, g));
        let (r, s2) = transition_outcome(
            object_file,
            bytes,
            0,
            item.transition,
            frame.position as int,
            frame.repetition_count,
            s,
        );
        if item.transition matches Transition::CaptureEnd(c) && c.capture_group_index == 0 {
            assert(item.target_node_index == route.end_node_index);
            assert(r == ExecuteResult::Success(0, 0));
            assert(s2.ranges[0].end == frame.position);
        } else {
            assert(!writes_group_zero(item.transition));
            lemma_transition_keeps_group_zero(
                object_file,
                bytes,
                0,
                item.transition,
                frame.position as int,
                frame.repetition_count,
                s,
            );
            lemma_transition_stays_in_text(
                object_file,
                bytes,
                0,
                item.transition,
                frame.position as int,
                frame.repetition_count,
                s,
            );
            match r {
                ExecuteResult::Success(forward, count) => {
                    assert(item.target_node_index != route.end_node_index);
                    let p = (frame.position + forward) as usize;
                    let next = frames_for(route, item.target_node_index as int, p, count, s2);
                    lemma_frames_for_name_transitions(route, item.target_node_index, p, count, s2);
                    let rest = stack.drop_last() + next;
                    assert forall|k: int| 0 <= k < rest.len() implies {
                        &&& (#[trigger] rest[k]).node_index < route.nodes@.len()
                        &&& rest[k].transition_index < route.nodes@[rest[k].node_index as int].transition_items@.len()
                        &&& rest[k].node_index != route.start_node_index
                        &&& q <= rest[k].position <= bytes.len()
                        &&& rest[k].state.ranges.len() == g
                        &&& rest[k].state.ranges[0].start == q
                    } by {
                        if k < stack.len() - 1 {
                            assert(rest[k] == stack[k]);
                        } else {
                            assert(rest[k] == next[k - (stack.len() - 1)]);
                        }
                    }
                    lemma_main_loop(object_file, bytes, rest, fail, (steps - 1) as nat, q);
                },
                ExecuteResult::Failure => {
                    let rest = stack.drop_last();
                    assert forall|k: int| 0 <= k < rest.len() implies {
                        &&& (#[trigger] rest[k]).node_index < route.nodes@.len()
                        &&& rest[k].transition_index < route.nodes@[rest[k].node_index as int].transition_items@.len()
                        &&& rest[k].node_index != route.start_node_index
                        &&& q <= rest[k].position <= bytes.len()
                        &&& rest[k].state.ranges.len() == g
                        &&& rest[k].state.ranges[0].start == q
                    } by {
                        assert(rest[k] == stack[k]);
                    }
                    lemma_main_loop(object_file, bytes, rest, fail, (steps - 1) as nat, q);
                },
            }
        }
    }
}

/// A run of the main route from `q`: a run that reaches the exit has group
/// 0 start at `q` and end at a position from `q` to the end of the text.
proof fn lemma_main_routine(object_file: ObjectFile, bytes: Seq<u8>, q: int, s: MatchState)
    requires
        object_file.wf(),
        group_zero_frames_main(object_file),
        bytes.len() <= usize::MAX,
        0 <= q <= bytes.len(),
        s.ranges.len() == object_file.capture_group_names@.len(),
    ensures
        ({
            let (found, s2) = routine_outcome(object_file, bytes, 0, q, s);
            &&& s2.ranges.len() == s.ranges.len()
            &&& found ==> s2.ranges[0].start == q && q <= s2.ranges[0].end <= bytes.len()
        }),
{
    let route = object_file.routes@[0];
    let l = object_file.routes@.len() as int;
    let g = object_file.capture_group_names@.len() as int;
    assert(route.wf(0, l, g));
    let st = route.start_node_index;
    let stack = frames_for(route, st as int, q as usize, 0, s);
    lemma_frames_for_name_transitions(route, st, q as usize, 0, s);
    assert(stack.len() == 1);
    let frame = stack.last();
    assert(stack[0] == frame);
    assert(frame.transition_index == 0);
    assert(frame.state == s);
    let item = route.nodes@[st as int].transition_items@[0];
    assert(route.edges_wf(0, l, g));
    assert(item.target_node_index < route.nodes@.len());
    let (r, s2) = transition_outcome(object_file, bytes, 0, item.transition, q, 0, s);
    assert(r == ExecuteResult::Success(0, 0));
    assert(s2.ranges[0].start == q);
    assert(item.target_node_index != route.end_node_index);
    let next = frames_for(route, item.target_node_index as int, q as usize, 0, s2);
    lemma_frames_for_name_transitions(route, item.target_node_index, q as usize, 0, s2);
    assert(item.target_node_index != st);
    let rest = stack.drop_last() + next;
    assert(rest =~= next);
    assert forall|k: int| 0 <= k < rest.len() implies {
        &&& (#[trigger] rest[k]).node_index != route.start_node_index
        &&& q <= rest[k].position <= bytes.len()
        &&& rest[k].state.ranges.len() == g
        &&& rest[k].state.ranges[0].start == q
    } by {
        assert(rest[k] == next[k]);
    }
    lemma_main_loop(object_file, bytes, rest, s, (MAX_ROUTINE_STEPS - 1) as nat, q);
    assert(routine_outcome(object_file, bytes, 0, q, s) == routine_loop(
        object_file,
        bytes,
        0,
        rest,
        s,
        (MAX_ROUTINE_STEPS - 1) as nat,
    ));
}

/// Whether byte `q` is reached from byte `from` by stepping over whole
/// characters: the positions that a search from `from` tries.
pub open spec fn reached(bytes: Seq<u8>, from: int, q: int) -> bool
    decreases q - from,
{
    if from == q {
        true
    } else if from < q && from < bytes.len() && char_at(bytes, from).1 > 0 && from + char_at(bytes, from).1
        <= q {
        reached(bytes, from + char_at(bytes, from).1, q)
    } else {
        false
    }
}

proof fn lemma_reached_after(bytes: Seq<u8>, from: int, q: int)
    requires
        reached(bytes, from, q),
    ensures
        from <= q,
    decreases q - from,
{
    if from != q {
        lemma_reached_after(bytes, from + char_at(bytes, from).1, q);
    }
}

/// Whether the main route, run from byte `q` with the match state `s`,
/// reaches its exit.
pub open spec fn matches_at(object_file: ObjectFile, bytes: Seq<u8>, q: int, s: MatchState) -> bool {
    routine_outcome(object_file, bytes, 0, q, s).0
}

/// What a search from `start` finds: the run of the main route from the
/// first position it tries, stepping over whole characters, at which the
/// route matches.
proof fn lemma_main_search(object_file: ObjectFile, bytes: Seq<u8>, start: int, s: MatchState)
    requires
        object_file.wf(),
        group_zero_frames_main(object_file),
        bytes.len() <= usize::MAX,
        0 <= start,
        s.ranges.len() == object_file.capture_group_names@.len(),
    ensures
        ({
            let (found, s2) = main_search(object_file, bytes, start, s);
            found ==> {
                let p = s2.ranges[0].start as int;
                &&& start <= p <= s2.ranges[0].end <= bytes.len()
                &&& reached(bytes, start, p)
                &&& routine_outcome(object_file, bytes, 0, p, s) == (true, s2)
                &&& forall|q: int| #![trigger reached(bytes, start, q)]
                    reached(bytes, start, q) && q < p ==> !matches_at(object_file, bytes, q, s)
            }
        }),
    decreases bytes.len() - start,
{
    if start <= bytes.len() {
        lemma_main_routine(object_file, bytes, start, s);
        lemma_routine_failure_keeps_state(object_file, bytes, 0, start, s);
        let (found, s2) = routine_outcome(object_file, bytes, 0, start, s);
        if found {
            assert forall|q: int| #![trigger reached(bytes, start, q)]
                reached(bytes, start, q) && q < start implies !matches_at(object_file, bytes, q, s) by {
                lemma_reached_after(bytes, start, q);
            }
        } else if !object_file.routes@[0].is_fixed_start_position && start < bytes.len() {
            let length = char_at(bytes, start).1;
            if length > 0 {
                let next = start + length;
                lemma_main_search(object_file, bytes, next, s2);
                let (found2, s3) = main_search(object_file, bytes, next, s2);
                if found2 {
                    let p = s3.ranges[0].start as int;
                    assert(reached(bytes, start, p));
                    assert forall|q: int| #![trigger reached(bytes, start, q)]
                        reached(bytes, start, q) && q < p implies !matches_at(object_file, bytes, q, s) by {
                        if q != start {
                            assert(reached(bytes, next, q));
                        }
                    }
                }
            }
        }
    }
}

/// A match that a search from byte `start` finds begins at or after
/// `start`, and ends no earlier than it begins and within the text: so
/// searching again from the end of a match finds the next match after it.
/// This holds of every object file in which capture group 0 frames the main
/// route, as it does in every one that `compile` makes.
pub proof fn lemma_match_within_text(object_file: ObjectFile, bytes: Seq<u8>, start: int)
    requires
        object_file.wf(),
        group_zero_frames_main(object_file),
        bytes.len() <= usize::MAX,
        0 <= start,
    ensures
        match_from(object_file, bytes, start) matches Some(ranges) ==> start <= ranges[0].start
            <= ranges[0].end <= bytes.len(),
{
    lemma_main_search(object_file, bytes, start, initial_state(object_file.capture_group_names@.len()));
}

/// The match that a search from byte `start` finds is the leftmost one: it
/// is what the main route gives when run from where the match begins, that
/// position is one the search reaches by whole characters, and the route
/// matches at none of the positions it reaches before it.
pub proof fn lemma_leftmost_match(object_file: ObjectFile, bytes: Seq<u8>, start: int)
    requires
        object_file.wf(),
        group_zero_frames_main(object_file),
        bytes.len() <= usize::MAX,
        0 <= start,
    ensures
        match_from(object_file, bytes, start) matches Some(ranges) ==> {
            let s = initial_state(object_file.capture_group_names@.len());
            let p = ranges[0].start as int;
            &&& reached(bytes, start, p)
            &&& routine_outcome(object_file, bytes, 0, p, s).0
            &&& routine_outcome(object_file, bytes, 0, p, s).1.ranges == ranges
            &&& forall|q: int| #![trigger reached(bytes, start, q)]
                reached(bytes, start, q) && q < p ==> !matches_at(object_file, bytes, q, s)
        },
{
    lemma_main_search(object_file, bytes, start, initial_state(object_file.capture_group_names@.len()));
}

/// The matches of a regex that `Regex::new` compiled lie in the text, each
/// at or after the position its search started from.
pub proof fn lemma_regex_match_within_text(pattern: Seq<char>, regex: Regex, bytes: Seq<u8>, start: int)
    requires
        regex_compiled(pattern, Ok(regex)),
        bytes.len() <= usize::MAX,
        0 <= start,
    ensures
        regex.object_file.wf(),
        match_from(regex.object_file, bytes, start) matches Some(ranges) ==> start <= ranges[0].start
            <= ranges[0].end <= bytes.len(),
{
    if let Ok(exps) = crate::traditional::parser::spec_parse(pattern) {
        let program = choose|program: crate::ast::Program|
            program@ == exps && #[trigger] compiled(
                program,
                object_file_of(Ok::<Regex, crate::AnreError>(regex)),
            );
        assert(compiled(program, Ok(regex.object_file)));
    }
    lemma_match_within_text(regex.object_file, bytes, start);
}

/// A character that begins within the text is one to four bytes long and
/// ends within the text.
proof fn lemma_char_length(bytes: Seq<u8>, q: int)
    requires
        0 <= q < bytes.len(),
    ensures
        1 <= char_at(bytes, q).1 <= 4,
        q + char_at(bytes, q).1 <= bytes.len(),
{
    let rest = bytes.skip(q);
    assert(rest.len() == bytes.len() - q);
}

/// An iteration over the matches starts with what a search from the start
/// of the text finds: the first match of `find_iter` and `captures_iter` is
/// the match of `find` and `captures`.
pub proof fn lemma_iteration_starts_with_first_match(object_file: ObjectFile, bytes: Seq<u8>)
    ensures
        iteration_step(object_file, bytes, 0, false).0 == match_from(object_file, bytes, 0),
{
}

/// Each step of an iteration over the matches of a compiled pattern moves
/// forward: the match it finds begins at or after where the step searched
/// from and does not overlap the next search, which starts later than this
/// one; after an empty match the next search starts past it, so no empty
/// match is found twice; and the iteration is over only after an empty match
/// at the end of the text. So an iteration yields finitely many matches, in
/// order, none overlapping the next.
pub proof fn lemma_iteration_moves_forward(object_file: ObjectFile, bytes: Seq<u8>, position: usize)
    requires
        object_file.wf(),
        group_zero_frames_main(object_file),
        bytes.len() <= usize::MAX,
        position <= bytes.len(),
    ensures
        ({
            let (found, p, f) = iteration_step(object_file, bytes, position, false);
            found matches Some(ranges) ==> {
                &&& position <= ranges[0].start <= ranges[0].end <= bytes.len()
                &&& !f ==> ranges[0].end <= p <= bytes.len() && position < p
                &&& !f && ranges[0].start == ranges[0].end ==> ranges[0].end < p
                &&& f ==> ranges[0].start == ranges[0].end && ranges[0].end == bytes.len()
            }
        }),
{
    lemma_match_within_text(object_file, bytes, position as int);
    if let Some(ranges) = match_from(object_file, bytes, position as int) {
        let r0 = ranges[0];
        if r0.start == r0.end && r0.end < bytes.len() {
            lemma_char_length(bytes, r0.end as int);
        }
        assert(resume_position(bytes, r0) matches Some(p) ==> p <= bytes.len());
    }
}

/// The capture groups of a regex that `Regex::new` compiled are those that
/// compiling its pattern names, group 0 first: so `captures` reports one
/// match per group, group 0 without a name, and each other group under the
/// name that `name` gave it, or none for `index`.
pub proof fn lemma_regex_capture_groups(pattern: Seq<char>, regex: Regex)
    requires
        regex_compiled(pattern, Ok(regex)),
    ensures
        exists|program: crate::ast::Program|
            #![trigger crate::compiler::compile_program(program)]
            crate::traditional::parser::spec_parse(pattern) == Ok::<_, crate::traditional::lexer::Failure>(program@)
                && crate::compiler::compile_program(program) == Some(
                crate::compiler::names_view(regex.object_file.capture_group_names@),
            ),
        regex.object_file.capture_group_names@.len() >= 1,
        regex.object_file.capture_group_names@[0] is None,
{
    if let Ok(exps) = crate::traditional::parser::spec_parse(pattern) {
        let program = choose|program: crate::ast::Program|
            program@ == exps && #[trigger] compiled(
                program,
                object_file_of(Ok::<Regex, crate::AnreError>(regex)),
            );
        assert(compiled(program, Ok(regex.object_file)));
        crate::compiler::lemma_group_zero_has_no_name(program);
        let names = crate::compiler::names_view(regex.object_file.capture_group_names@);
        assert(names[0] is None);
    }
}

/// In a valid UTF-8 text, a search with a regex that `Regex::new` compiled,
/// started at a character boundary, finds capture groups that start and end
/// at character boundaries within the text; group 0, the whole match, does
/// not end before it starts, so its text is exactly the bytes of its range,
/// and so is the text of every other group that does not end before it
/// starts.
pub proof fn lemma_regex_groups_are_slices(pattern: Seq<char>, regex: Regex, bytes: Seq<u8>, start: int)
    requires
        regex_compiled(pattern, Ok(regex)),
        vstd::utf8::valid_utf8(bytes),
        bytes.len() <= usize::MAX,
        0 <= start <= bytes.len(),
        vstd::utf8::is_char_boundary(bytes, start),
    ensures
        regex.object_file.wf(),
        match_from(regex.object_file, bytes, start) matches Some(ranges) ==> {
            &&& ranges.len() == regex.object_file.capture_group_names@.len()
            &&& start <= ranges[0].start <= ranges[0].end <= bytes.len()
            &&& value_bytes(bytes, ranges[0].start as int, ranges[0].end as int) == bytes.subrange(
                ranges[0].start as int,
                ranges[0].end as int,
            )
            &&& forall|g: int|
                0 <= g < ranges.len() ==> {
                    &&& (#[trigger] ranges[g]).start <= bytes.len()
                    &&& ranges[g].end <= bytes.len()
                    &&& vstd::utf8::is_char_boundary(bytes, ranges[g].start as int)
                    &&& vstd::utf8::is_char_boundary(bytes, ranges[g].end as int)
                    &&& ranges[g].start <= ranges[g].end ==> value_bytes(
                        bytes,
                        ranges[g].start as int,
                        ranges[g].end as int,
                    ) == bytes.subrange(ranges[g].start as int, ranges[g].end as int)
                }
        },
{
    lemma_regex_match_within_text(pattern, regex, bytes, start);
    lemma_groups_on_char_boundaries(regex.object_file, bytes, start);
    if let Some(ranges) = match_from(regex.object_file, bytes, start) {
        assert(ranges[0].start <= bytes.len());
    }
}

/// The match that `find` or the first step of `find_iter` reports for a
/// text: group 0, without a name, its range ordered and within the text,
/// and its text exactly the slice of the text that the range covers.
pub proof fn lemma_found_text_is_slice(pattern: Seq<char>, regex: Regex, text: &str, m: Match)
    requires
        regex_compiled(pattern, Ok(regex)),
        text.spec_bytes().len() <= usize::MAX,
        match_from(regex.object_file, text.spec_bytes(), 0) matches Some(ranges) && is_group_match(
            m,
            regex.object_file,
            text.spec_bytes(),
            ranges,
            0,
        ),
    ensures
        m.name is None,
        m.start <= m.end <= text.spec_bytes().len(),
        m.value.spec_bytes() == text.spec_bytes().subrange(m.start as int, m.end as int),
{
    let bytes = text.spec_bytes();
    vstd::utf8::encode_utf8_valid_utf8(text@);
    vstd::utf8::is_char_boundary_start_end_of_seq(bytes);
    lemma_regex_groups_are_slices(pattern, regex, bytes, 0);
    lemma_regex_capture_groups(pattern, regex);
}

/// The capture groups that `captures` or `captures_bytes` report for a
/// valid UTF-8 text: one per group of the regex, each starting and ending
/// at character boundaries within the text; group 0 has no name, an ordered
/// range and the slice of the text as its text, and so has the text of
/// every group whose range is ordered.
pub proof fn lemma_captured_texts_are_slices(pattern: Seq<char>, regex: Regex, bytes: Seq<u8>, c: Captures)
    requires
        regex_compiled(pattern, Ok(regex)),
        vstd::utf8::valid_utf8(bytes),
        bytes.len() <= usize::MAX,
        match_from(regex.object_file, bytes, 0) matches Some(ranges) && are_group_matches(
            c,
            regex.object_file,
            bytes,
            ranges,
        ),
    ensures
        c.matches@.len() == regex.object_file.capture_group_names@.len(),
        c.matches@[0].name is None,
        c.matches@[0].start <= c.matches@[0].end <= bytes.len(),
        forall|i: int|
            0 <= i < c.matches@.len() ==> {
                &&& (#[trigger] c.matches@[i]).start <= bytes.len()
                &&& c.matches@[i].end <= bytes.len()
                &&& vstd::utf8::is_char_boundary(bytes, c.matches@[i].start as int)
                &&& vstd::utf8::is_char_boundary(bytes, c.matches@[i].end as int)
                &&& c.matches@[i].start <= c.matches@[i].end ==> c.matches@[i].value.spec_bytes()
                    == bytes.subrange(c.matches@[i].start as int, c.matches@[i].end as int)
            },
{
    vstd::utf8::is_char_boundary_start_end_of_seq(bytes);
    lemma_regex_groups_are_slices(pattern, regex, bytes, 0);
    lemma_regex_capture_groups(pattern, regex);
    let ranges = match_from(regex.object_file, bytes, 0).unwrap();
    assert(is_group_match(c.matches@[0], regex.object_file, bytes, ranges, 0));
    assert forall|i: int| 0 <= i < c.matches@.len() implies {
        &&& (#[trigger] c.matches@[i]).start <= bytes.len()
        &&& c.matches@[i].end <= bytes.len()
        &&& vstd::utf8::is_char_boundary(bytes, c.matches@[i].start as int)
        &&& vstd::utf8::is_char_boundary(bytes, c.matches@[i].end as int)
        &&& c.matches@[i].start <= c.matches@[i].end ==> c.matches@[i].value.spec_bytes() == bytes.subrange(
            c.matches@[i].start as int,
            c.matches@[i].end as int,
        )
    } by {
        assert(is_group_match(c.matches@[i], regex.object_file, bytes, ranges, i));
        assert(ranges[i].start <= bytes.len());
    }
}

/// In a valid UTF-8 text, an iteration over the matches of a compiled
/// pattern that searches from a character boundary finds a match whose text
/// is the slice of the text it covers, and goes on from a character boundary.
pub proof fn lemma_iteration_on_char_boundaries(
    pattern: Seq<char>,
    regex: Regex,
    bytes: Seq<u8>,
    position: usize,
)
    requires
        regex_compiled(pattern, Ok(regex)),
        vstd::utf8::valid_utf8(bytes),
        bytes.len() <= usize::MAX,
        position <= bytes.len(),
        vstd::utf8::is_char_boundary(bytes, position as int),
    ensures
        ({
            let (found, p, f) = iteration_step(regex.object_file, bytes, position, false);
            found matches Some(ranges) ==> {
                &&& value_bytes(bytes, ranges[0].start as int, ranges[0].end as int) == bytes.subrange(
                    ranges[0].start as int,
                    ranges[0].end as int,
                )
                &&& !f ==> vstd::utf8::is_char_boundary(bytes, p as int)
            }
        }),
{
    lemma_regex_groups_are_slices(pattern, regex, bytes, position as int);
    lemma_regex_match_within_text(pattern, regex, bytes, position as int);
    if let Some(ranges) = match_from(regex.object_file, bytes, position as int) {
        let r0 = ranges[0];
        assert(vstd::utf8::is_char_boundary(bytes, r0.end as int));
        lemma_valid_from_is_boundary(bytes, r0.end as int);
        if r0.start == r0.end && r0.end < bytes.len() {
            lemma_step_over_char(bytes, r0.end as int);
            let q = r0.end + char_at(bytes, r0.end as int).1;
            lemma_valid_from_is_boundary(bytes, q);
        }
    }
}

/// In a valid UTF-8 text, the match that a search from the start of the
/// text finds, with an object file in which capture group 0 frames the main
/// route, lies in the text as slices of it.
pub proof fn lemma_search_gives_slices(object_file: ObjectFile, bytes: Seq<u8>)
    requires
        object_file.wf(),
        group_zero_frames_main(object_file),
        vstd::utf8::valid_utf8(bytes),
        bytes.len() <= usize::MAX,
    ensures
        match_from(object_file, bytes, 0) matches Some(ranges) ==> ranges_are_slices(bytes, ranges),
{
    vstd::utf8::is_char_boundary_start_end_of_seq(bytes);
    lemma_match_within_text(object_file, bytes, 0);
    lemma_groups_on_char_boundaries(object_file, bytes, 0);
}

} // verus!
