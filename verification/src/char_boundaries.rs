use vstd::prelude::*;
use vstd::utf8::*;

use crate::context::MatchRange;
use crate::object_file::{transition_wf, ObjectFile, Route};
use crate::process::{
    frames_for, initial_state, main_search, match_from, routine_loop, routine_outcome,
    transition_outcome, value_bytes, FrameView, MatchState, MAX_ROUTINE_STEPS,
};
use crate::transition::{
    back_reference_outcome, basic_outcome, basic_ranges_after, position_back, string_matches_at,
    utf8_length, utf8_total, ExecuteResult, Transition,
};
use crate::utf8reader::{char_at, previous_char_length};

verus! {

// Character boundaries of a valid UTF-8 text. A position is taken to be a
// boundary when what follows it is valid UTF-8; in a valid text these are
// exactly the positions where a character begins, and the end.

/// What follows byte `q` of the text is valid UTF-8.
pub open spec fn valid_from(bytes: Seq<u8>, q: int) -> bool {
    0 <= q <= bytes.len() && valid_utf8(bytes.subrange(q, bytes.len() as int))
}

/// Taking a valid prefix off a valid sequence leaves a valid sequence.
pub proof fn lemma_strip_valid_prefix(a: Seq<u8>, b: Seq<u8>)
    requires
        valid_utf8(a + b),
        valid_utf8(a),
    ensures
        valid_utf8(b),
    decreases a.len(),
{
    if a.len() == 0 {
        assert(a + b =~= b);
    } else {
        let ab = a + b;
        let n = length_of_first_scalar(a);
        assert(n <= a.len());
        assert forall|k: int| 0 <= k < a.len() implies ab[k] == a[k] by {}
        assert(ab[0] == a[0]);
        if a.len() >= 2 {
            assert(ab[1] == a[1]);
        }
        if a.len() >= 3 {
            assert(ab[2] == a[2]);
        }
        if a.len() >= 4 {
            assert(ab[3] == a[3]);
        }
        assert(valid_first_scalar(ab));
        assert(length_of_first_scalar(ab) == n);
        assert(pop_first_scalar(ab) =~= pop_first_scalar(a) + b);
        lemma_strip_valid_prefix(pop_first_scalar(a), b);
    }
}

/// A valid first scalar is as long as `utf8_length` says of its code point.
proof fn lemma_first_scalar_length(bytes: Seq<u8>)
    requires
        valid_first_scalar(bytes),
    ensures
        length_of_first_scalar(bytes) == utf8_length(decode_first_scalar(bytes)),
{
    let b0 = bytes[0];
    if is_leading_byte_width_1(b0) {
        assert((b0 & 0x7f) <= 0x7f) by (bit_vector);
    } else if is_leading_byte_width_2(b0) {
        let b1 = bytes[1];
        let x: u32 = (b0 & 0x1f) as u32;
        let y: u32 = (b1 & 0x3f) as u32;
        assert(x <= 0x1f) by (bit_vector)
            requires x == (b0 & 0x1f) as u32;
        assert(y <= 0x3f) by (bit_vector)
            requires y == (b1 & 0x3f) as u32;
        assert((x << 6) | y <= 0x7ff) by (bit_vector)
            requires x <= 0x1f, y <= 0x3f;
    } else if is_leading_byte_width_3(b0) {
        let b1 = bytes[1];
        let b2 = bytes[2];
        let x: u32 = (b0 & 0x0f) as u32;
        let y: u32 = (b1 & 0x3f) as u32;
        let z: u32 = (b2 & 0x3f) as u32;
        assert(x <= 0x0f) by (bit_vector)
            requires x == (b0 & 0x0f) as u32;
        assert(y <= 0x3f) by (bit_vector)
            requires y == (b1 & 0x3f) as u32;
        assert(z <= 0x3f) by (bit_vector)
            requires z == (b2 & 0x3f) as u32;
        assert((x << 12) | (y << 6) | z <= 0xffff) by (bit_vector)
            requires x <= 0x0f, y <= 0x3f, z <= 0x3f;
    }
}

/// At a boundary within the text a whole character begins: `char_at` reads
/// it, its length is that of the UTF-8 encoding of its code point, and the
/// position after it is a boundary.
pub proof fn lemma_step_over_char(bytes: Seq<u8>, q: int)
    requires
        valid_from(bytes, q),
        q < bytes.len(),
    ensures
        ({
            let rest = bytes.subrange(q, bytes.len() as int);
            &&& valid_first_scalar(rest)
            &&& char_at(bytes, q) == (decode_first_scalar(rest), length_of_first_scalar(rest))
        }),
        1 <= char_at(bytes, q).1 <= 4,
        char_at(bytes, q).1 == utf8_length(char_at(bytes, q).0),
        valid_from(bytes, q + char_at(bytes, q).1),
{
    let rest = bytes.subrange(q, bytes.len() as int);
    assert(bytes.skip(q) =~= rest);
    assert(valid_first_scalar(rest));
    lemma_first_scalar_length(rest);
    let n = length_of_first_scalar(rest);
    assert(pop_first_scalar(rest) =~= bytes.subrange(q + n, bytes.len() as int));
}

/// After a boundary, bytes that spell a valid UTF-8 sequence end at a
/// boundary.
pub proof fn lemma_step_over_valid(bytes: Seq<u8>, q: int, t: Seq<u8>)
    requires
        valid_from(bytes, q),
        q + t.len() <= bytes.len(),
        bytes.subrange(q, q + t.len()) == t,
        valid_utf8(t),
    ensures
        valid_from(bytes, q + t.len()),
{
    let len = bytes.len() as int;
    assert(bytes.subrange(q, len) =~= t + bytes.subrange(q + t.len(), len));
    lemma_strip_valid_prefix(t, bytes.subrange(q + t.len(), len));
}

/// In a valid text, a position after which the text is valid is a
/// character boundary, and the other way round.
pub proof fn lemma_valid_from_is_boundary(bytes: Seq<u8>, q: int)
    requires
        valid_utf8(bytes),
        0 <= q <= bytes.len(),
    ensures
        valid_from(bytes, q) <==> is_char_boundary(bytes, q),
{
    is_char_boundary_start_end_of_seq(bytes);
    if is_char_boundary(bytes, q) {
        valid_utf8_split(bytes, q);
    }
    if valid_from(bytes, q) && q < bytes.len() {
        let rest = bytes.subrange(q, bytes.len() as int);
        assert(rest[0] == bytes[q]);
        assert(valid_first_scalar(rest));
        is_char_boundary_iff_not_is_continuation_byte(bytes, q);
    }
}

/// Between two boundaries of a valid text lies valid UTF-8.
pub proof fn lemma_valid_between(bytes: Seq<u8>, i: int, j: int)
    requires
        valid_utf8(bytes),
        valid_from(bytes, i),
        valid_from(bytes, j),
        i <= j,
    ensures
        valid_utf8(bytes.subrange(i, j)),
{
    lemma_valid_from_is_boundary(bytes, i);
    lemma_valid_from_is_boundary(bytes, j);
    valid_utf8_split(bytes, i);
    valid_utf8_split(bytes, j);
    assert(bytes.subrange(0, j) =~= bytes.subrange(0, i) + bytes.subrange(i, j));
    lemma_strip_valid_prefix(bytes.subrange(0, i), bytes.subrange(i, j));
}

/// Before a boundary other than the start, a boundary lies at most four
/// bytes back.
proof fn lemma_boundary_before(bytes: Seq<u8>, q: int)
    requires
        valid_utf8(bytes),
        is_char_boundary(bytes, q),
        0 < q <= bytes.len(),
    ensures
        exists|p: int| q - 4 <= p < q && 0 <= p && #[trigger] is_char_boundary(bytes, p),
    decreases bytes.len(),
{
    let n = length_of_first_scalar(bytes);
    let tail = pop_first_scalar(bytes);
    assert(is_char_boundary(bytes, 0));
    assert(is_char_boundary(tail, q - n));
    if q - n <= 0 {
        assert(q - 4 <= 0 < q);
    } else {
        assert(valid_utf8(tail));
        assert(tail.len() == bytes.len() - n);
        lemma_boundary_before(tail, q - n);
        let p = choose|p: int| (q - n) - 4 <= p < q - n && 0 <= p && #[trigger] is_char_boundary(tail, p);
        assert(is_char_boundary(bytes, p + n));
    }
}

/// Stepping back over one character from a boundary of a valid text lands
/// on a boundary.
pub proof fn lemma_step_back(bytes: Seq<u8>, q: int)
    requires
        valid_utf8(bytes),
        valid_from(bytes, q),
        q > 0,
    ensures
        valid_from(bytes, q - previous_char_length(bytes, q)),
{
    lemma_valid_from_is_boundary(bytes, q);
    lemma_boundary_before(bytes, q);
    let p = choose|p: int| q - 4 <= p < q && 0 <= p && #[trigger] is_char_boundary(bytes, p);
    is_char_boundary_iff_not_is_continuation_byte(bytes, p);
    let back = q - previous_char_length(bytes, q);
    if q - 1 >= 0 {
        is_char_boundary_iff_not_is_continuation_byte(bytes, q - 1);
    }
    if q - 2 >= 0 {
        is_char_boundary_iff_not_is_continuation_byte(bytes, q - 2);
    }
    if q - 3 >= 0 {
        is_char_boundary_iff_not_is_continuation_byte(bytes, q - 3);
    }
    is_char_boundary_start_end_of_seq(bytes);
    assert(is_char_boundary(bytes, back));
    lemma_valid_from_is_boundary(bytes, back);
}

/// A string that matches at a boundary ends at a boundary, as many bytes on
/// as its UTF-8 encoding is long.
pub proof fn lemma_step_over_string(bytes: Seq<u8>, q: int, cps: Seq<u32>)
    requires
        valid_from(bytes, q),
        string_matches_at(bytes, q, cps),
    ensures
        valid_from(bytes, q + utf8_total(cps)),
    decreases cps.len(),
{
    if cps.len() > 0 {
        lemma_step_over_char(bytes, q);
        lemma_step_over_string(bytes, q + char_at(bytes, q).1, cps.drop_first());
    }
}

/// Stepping back over whole characters from a boundary of a valid text
/// lands on a boundary.
proof fn lemma_position_back(bytes: Seq<u8>, q: int, n: nat)
    requires
        valid_utf8(bytes),
        valid_from(bytes, q),
    ensures
        position_back(bytes, q, n) matches Some(p) ==> valid_from(bytes, p),
    decreases n,
{
    if n > 0 && q > 0 {
        lemma_step_back(bytes, q);
        lemma_position_back(bytes, q - previous_char_length(bytes, q), (n - 1) as nat);
    }
}

/// Every capture range starts and ends at a boundary of the text.
pub open spec fn ranges_on_boundaries(bytes: Seq<u8>, ranges: Seq<MatchRange>) -> bool {
    forall|g: int|
        0 <= g < ranges.len() ==> valid_from(bytes, (#[trigger] ranges[g]).start as int) && valid_from(
            bytes,
            ranges[g].end as int,
        )
}

/// The frames name transitions of the route, lie at boundaries, and are
/// tried from states whose ranges lie at boundaries.
spec fn frames_on_boundaries(bytes: Seq<u8>, stack: Seq<FrameView>, route: Route, groups: int) -> bool {
    forall|k: int|
        0 <= k < stack.len() ==> {
            &&& (#[trigger] stack[k]).node_index < route.nodes@.len()
            &&& stack[k].transition_index < route.nodes@[stack[k].node_index as int].transition_items@.len()
            &&& valid_from(bytes, stack[k].position as int)
            &&& ranges_on_boundaries(bytes, stack[k].state.ranges)
            &&& stack[k].state.ranges.len() == groups
        }
}

/// A transition tried at a boundary of a valid text, from ranges at
/// boundaries, leaves its ranges at boundaries and, when it succeeds, moves
/// to a boundary.
proof fn lemma_transition_on_boundaries(
    object_file: ObjectFile,
    bytes: Seq<u8>,
    route_index: int,
    t: Transition,
    position: int,
    count: usize,
    s: MatchState,
)
    requires
        valid_utf8(bytes),
        bytes.len() <= usize::MAX,
        object_file.wf(),
        0 <= route_index < object_file.routes@.len(),
        transition_wf(
            t,
            route_index,
            object_file.routes@.len() as int,
            object_file.capture_group_names@.len() as int,
        ),
        valid_from(bytes, position),
        ranges_on_boundaries(bytes, s.ranges),
        s.ranges.len() == object_file.capture_group_names@.len(),
    ensures
        ({
            let (r, s2) = transition_outcome(object_file, bytes, route_index, t, position, count, s);
            &&& ranges_on_boundaries(bytes, s2.ranges)
            &&& s2.ranges.len() == s.ranges.len()
            &&& r matches ExecuteResult::Success(forward, _) ==> valid_from(bytes, position + forward)
        }),
    decreases object_file.routes@.len() - route_index, 0nat, 0nat,
{
    let len = bytes.len() as int;
    match t {
        Transition::LookAheadAssertion(la) => {
            if route_index < la.route_index < object_file.routes@.len() {
                lemma_routine_on_boundaries(object_file, bytes, la.route_index as int, position, s);
            }
        },
        Transition::LookBehindAssertion(lb) => {
            if route_index < lb.route_index < object_file.routes@.len() {
                lemma_position_back(bytes, position, lb.match_length_in_char as nat);
                if let Some(start) = position_back(bytes, position, lb.match_length_in_char as nat) {
                    lemma_routine_on_boundaries(object_file, bytes, lb.route_index as int, start, s);
                }
            }
        },
        _ => {
            let r = basic_outcome(t, bytes, s.ranges, s.counters, len, position, count);
            let ranges2 = basic_ranges_after(t, s.ranges, position);
            match t {
                Transition::Char(_) | Transition::SpecialChar(_) | Transition::CharSet(_) => {
                    if position < len {
                        lemma_step_over_char(bytes, position);
                    }
                },
                Transition::String(st) => {
                    if string_matches_at(bytes, position, st.codepoints@) {
                        lemma_step_over_string(bytes, position, st.codepoints@);
                    }
                },
                Transition::BackReference(b) => {
                    let range = s.ranges[b.capture_group_index as int];
                    assert(valid_from(bytes, range.start as int) && valid_from(bytes, range.end as int));
                    if range.start <= range.end {
                        lemma_valid_between(bytes, range.start as int, range.end as int);
                        let k = range.end - range.start;
                        if position + k <= len {
                            let piece = bytes.subrange(range.start as int, range.end as int);
                            if bytes.subrange(position, position + k) == piece {
                                lemma_step_over_valid(bytes, position, piece);
                            }
                        }
                    }
                    assert(r == back_reference_outcome(bytes, range, position, len));
                },
                _ => {},
            }
            assert forall|g: int| 0 <= g < ranges2.len() implies valid_from(
                bytes,
                (#[trigger] ranges2[g]).start as int,
            ) && valid_from(bytes, ranges2[g].end as int) by {
                assert(valid_from(bytes, s.ranges[g].start as int) && valid_from(bytes, s.ranges[g].end as int));
            }
        },
    }
}

/// A sub-route run from a boundary of a valid text, from ranges at
/// boundaries, leaves its ranges at boundaries.
proof fn lemma_routine_on_boundaries(
    object_file: ObjectFile,
    bytes: Seq<u8>,
    route_index: int,
    start: int,
    s: MatchState,
)
    requires
        valid_utf8(bytes),
        bytes.len() <= usize::MAX,
        object_file.wf(),
        valid_from(bytes, start),
        ranges_on_boundaries(bytes, s.ranges),
        s.ranges.len() == object_file.capture_group_names@.len(),
    ensures
        ranges_on_boundaries(bytes, routine_outcome(object_file, bytes, route_index, start, s).1.ranges),
        routine_outcome(object_file, bytes, route_index, start, s).1.ranges.len() == s.ranges.len(),
    decreases object_file.routes@.len() - route_index, 2nat, 0nat,
{
    if 0 <= route_index < object_file.routes@.len() {
        let route = object_file.routes@[route_index];
        let l = object_file.routes@.len() as int;
        let g = object_file.capture_group_names@.len() as int;
        assert(route.wf(route_index, l, g));
        let stack = frames_for(route, route.start_node_index as int, start as usize, 0, s);
        assert forall|k: int| 0 <= k < stack.len() implies {
            &&& (#[trigger] stack[k]).node_index < route.nodes@.len()
            &&& stack[k].transition_index < route.nodes@[stack[k].node_index as int].transition_items@.len()
            &&& valid_from(bytes, stack[k].position as int)
            &&& ranges_on_boundaries(bytes, stack[k].state.ranges)
            &&& stack[k].state.ranges.len() == g
        } by {
            assert(stack[k].node_index == route.start_node_index);
            assert(stack[k].position == start);
        }
        lemma_loop_on_boundaries(object_file, bytes, route_index, stack, s, MAX_ROUTINE_STEPS as nat);
    }
}

/// The search of a route from frames at boundaries, tried from ranges at
/// boundaries, leaves its ranges at boundaries.
proof fn lemma_loop_on_boundaries(
    object_file: ObjectFile,
    bytes: Seq<u8>,
    route_index: int,
    stack: Seq<FrameView>,
    fail: MatchState,
    steps: nat,
)
    requires
        valid_utf8(bytes),
        bytes.len() <= usize::MAX,
        object_file.wf(),
        0 <= route_index < object_file.routes@.len(),
        frames_on_boundaries(
            bytes,
            stack,
            object_file.routes@[route_index],
            object_file.capture_group_names@.len() as int,
        ),
        ranges_on_boundaries(bytes, fail.ranges),
        fail.ranges.len() == object_file.capture_group_names@.len(),
    ensures
        ranges_on_boundaries(bytes, routine_loop(object_file, bytes, route_index, stack, fail, steps).1.ranges),
        routine_loop(object_file, bytes, route_index, stack, fail, steps).1.ranges.len() == fail.ranges.len(),
    decreases object_file.routes@.len() - route_index, 1nat, steps,
{
    if steps > 0 && stack.len() > 0 {
        let route = object_file.routes@[route_index];
        let l = object_file.routes@.len() as int;
        let g = object_file.capture_group_names@.len() as int;
        let frame = stack.last();
        assert(stack[stack.len() - 1] == frame);
        let i = frame.node_index as int;
        let j = frame.transition_index as int;
        let item = route.nodes@[i].transition_items@[j];
        assert(route.wf(route_index, l, g));
        assert(route.edges_wf(route_index, l, g));
        assert(item.target_node_index < route.nodes@.len() && transition_wf(item.transition, route_index, l, g));
        lemma_transition_on_boundaries(
            object_file,
            bytes,
            route_index,
            item.transition,
            frame.position as int,
            frame.repetition_count,
            frame.state,
        );
        let (r, s2) = transition_outcome(
            object_file,
            bytes,
            route_index,
            item.transition,
            frame.position as int,
            frame.repetition_count,
            frame.state,
        );
        match r {
            ExecuteResult::Success(forward, count) => {
                if item.target_node_index != route.end_node_index {
                    let p = (frame.position + forward) as usize;
                    assert(valid_from(bytes, p as int));
                    let next = frames_for(route, item.target_node_index as int, p, count, s2);
                    let rest = stack.drop_last() + next;
                    assert forall|k: int| 0 <= k < rest.len() implies {
                        &&& (#[trigger] rest[k]).node_index < route.nodes@.len()
                        &&& rest[k].transition_index < route.nodes@[rest[k].node_index as int].transition_items@.len()
                        &&& valid_from(bytes, rest[k].position as int)
                        &&& ranges_on_boundaries(bytes, rest[k].state.ranges)
                        &&& rest[k].state.ranges.len() == g
                    } by {
                        if k < stack.len() - 1 {
                            assert(rest[k] == stack[k]);
                        } else {
                            assert(rest[k] == next[k - (stack.len() - 1)]);
                        }
                    }
                    lemma_loop_on_boundaries(object_file, bytes, route_index, rest, fail, (steps - 1) as nat);
                }
            },
            ExecuteResult::Failure => {
                let rest = stack.drop_last();
                assert forall|k: int| 0 <= k < rest.len() implies {
                    &&& (#[trigger] rest[k]).node_index < route.nodes@.len()
                    &&& rest[k].transition_index < route.nodes@[rest[k].node_index as int].transition_items@.len()
                    &&& valid_from(bytes, rest[k].position as int)
                    &&& ranges_on_boundaries(bytes, rest[k].state.ranges)
                    &&& rest[k].state.ranges.len() == g
                } by {
                    assert(rest[k] == stack[k]);
                }
                lemma_loop_on_boundaries(object_file, bytes, route_index, rest, fail, (steps - 1) as nat);
            },
        }
    }
}

/// A search from a boundary of a valid text, from ranges at boundaries,
/// leaves its ranges at boundaries.
proof fn lemma_search_on_boundaries(object_file: ObjectFile, bytes: Seq<u8>, start: int, s: MatchState)
    requires
        valid_utf8(bytes),
        bytes.len() <= usize::MAX,
        object_file.wf(),
        valid_from(bytes, start),
        ranges_on_boundaries(bytes, s.ranges),
        s.ranges.len() == object_file.capture_group_names@.len(),
    ensures
        ranges_on_boundaries(bytes, main_search(object_file, bytes, start, s).1.ranges),
        main_search(object_file, bytes, start, s).1.ranges.len() == s.ranges.len(),
    decreases bytes.len() - start,
{
    lemma_routine_on_boundaries(object_file, bytes, 0, start, s);
    let (found, s2) = routine_outcome(object_file, bytes, 0, start, s);
    if !found && !object_file.routes@[0].is_fixed_start_position && start < bytes.len() {
        lemma_step_over_char(bytes, start);
        lemma_search_on_boundaries(object_file, bytes, start + char_at(bytes, start).1, s2);
    }
}

/// In a valid UTF-8 text, a search from a character boundary finds capture
/// ranges that start and end at character boundaries within the text; the
/// text of a range that does not end before it starts is exactly the bytes
/// of the range.
pub proof fn lemma_groups_on_char_boundaries(object_file: ObjectFile, bytes: Seq<u8>, start: int)
    requires
        object_file.wf(),
        valid_utf8(bytes),
        bytes.len() <= usize::MAX,
        0 <= start <= bytes.len(),
        is_char_boundary(bytes, start),
    ensures
        match_from(object_file, bytes, start) matches Some(ranges) ==> ranges.len()
            == object_file.capture_group_names@.len(),
        match_from(object_file, bytes, start) matches Some(ranges) ==> forall|g: int|
            0 <= g < ranges.len() ==> {
                &&& (#[trigger] ranges[g]).start <= bytes.len()
                &&& ranges[g].end <= bytes.len()
                &&& is_char_boundary(bytes, ranges[g].start as int)
                &&& is_char_boundary(bytes, ranges[g].end as int)
                &&& ranges[g].start <= ranges[g].end ==> value_bytes(
                    bytes,
                    ranges[g].start as int,
                    ranges[g].end as int,
                ) == bytes.subrange(ranges[g].start as int, ranges[g].end as int)
            },
{
    let s = initial_state(object_file.capture_group_names@.len());
    lemma_valid_from_is_boundary(bytes, start);
    assert(bytes.subrange(0, bytes.len() as int) =~= bytes);
    assert(valid_from(bytes, 0));
    assert forall|g: int| 0 <= g < s.ranges.len() implies valid_from(bytes, (#[trigger] s.ranges[g]).start as int)
        && valid_from(bytes, s.ranges[g].end as int) by {}
    lemma_search_on_boundaries(object_file, bytes, start, s);
    if let Some(ranges) = match_from(object_file, bytes, start) {
        assert forall|g: int| 0 <= g < ranges.len() implies {
            &&& (#[trigger] ranges[g]).start <= bytes.len()
            &&& ranges[g].end <= bytes.len()
            &&& is_char_boundary(bytes, ranges[g].start as int)
            &&& is_char_boundary(bytes, ranges[g].end as int)
            &&& ranges[g].start <= ranges[g].end ==> value_bytes(
                bytes,
                ranges[g].start as int,
                ranges[g].end as int,
            ) == bytes.subrange(ranges[g].start as int, ranges[g].end as int)
        } by {
            let a = ranges[g].start as int;
            let b = ranges[g].end as int;
            lemma_valid_from_is_boundary(bytes, a);
            lemma_valid_from_is_boundary(bytes, b);
            if a <= b {
                lemma_valid_between(bytes, a, b);
            }
        }
    }
}

} // verus!
