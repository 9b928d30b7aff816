use vstd::prelude::*;
use vstd::string::StringSliceAdditionalSpecFns;

use crate::compiler::{compile_from_regex, compiled};
use crate::context::{Context, MatchRange, Routine};
use crate::object_file::{group_zero_frames_main, ObjectFile, Route, MAIN_ROUTE_INDEX};
use crate::traditional::lexer::error_matches;
use crate::traditional::parser::spec_parse;
use crate::utf8reader::{char_at, read_char};
use crate::AnreError;
use crate::transition::{
    basic_counters_after, basic_outcome, basic_ranges_after, execute_requires, position_back,
    ExecuteResult, Transition,
};

verus! {

/// The number of transitions that one routine may try before it gives up.
/// No text that a machine can hold needs as many.
pub const MAX_ROUTINE_STEPS: u64 = 0xffff_ffff_ffff_ffff;

/// A transition waiting to be tried: the node it leaves, its index among the
/// node's transitions, the position, the repetition count, and the capture
/// ranges and counter stack as they stood when the frame was pushed. Trying
/// the frame starts from that state, so that what an abandoned path wrote is
/// undone on backtracking.
pub struct Frame {
    pub node_index: usize,
    pub transition_index: usize,
    pub position: usize,
    pub repetition_count: usize,
    pub match_ranges: Vec<MatchRange>,
    pub counters: Vec<usize>,
}

/// What a match in progress writes: the capture ranges and the counter stack.
pub struct MatchState {
    pub ranges: Seq<MatchRange>,
    pub counters: Seq<usize>,
}

/// A frame as a value: its transition, position and count, and the match
/// state that it is tried from.
pub struct FrameView {
    pub node_index: usize,
    pub transition_index: usize,
    pub position: usize,
    pub repetition_count: usize,
    pub state: MatchState,
}

impl View for Frame {
    type V = FrameView;

    open spec fn view(&self) -> FrameView {
        FrameView {
            node_index: self.node_index,
            transition_index: self.transition_index,
            position: self.position,
            repetition_count: self.repetition_count,
            state: MatchState { ranges: self.match_ranges@, counters: self.counters@ },
        }
    }
}

/// The frames of a stack, as values.
pub open spec fn frames_view(stack: Seq<Frame>) -> Seq<FrameView> {
    stack.map_values(|f: Frame| f@)
}

/// The match state of a context.
pub open spec fn state_of(context: Context) -> MatchState {
    MatchState { ranges: context.match_ranges@, counters: context.counter_stack@ }
}

/// The frames for the transitions that leave node `node_index`, each to be
/// tried from state `s`, the last transition first, so that the first one is
/// tried first.
pub open spec fn frames_for(
    route: Route,
    node_index: int,
    position: usize,
    count: usize,
    s: MatchState,
) -> Seq<FrameView> {
    let n = route.nodes@[node_index].transition_items@.len();
    Seq::new(
        n,
        |k: int|
            FrameView {
                node_index: node_index as usize,
                transition_index: (n - 1 - k) as usize,
                position,
                repetition_count: count,
                state: s,
            },
    )
}

/// What executing transition `t` of route `route_index` at `position` gives:
/// its result and the match state after it. A look-around assertion runs its
/// sub-route and succeeds, without moving, when the sub-route's result
/// differs from its `negative` flag; a look-behind that finds fewer
/// characters before the position than its length runs nothing and counts
/// as not found.
pub open spec fn transition_outcome(
    object_file: ObjectFile,
    bytes: Seq<u8>,
    route_index: int,
    t: Transition,
    position: int,
    count: usize,
    s: MatchState,
) -> (ExecuteResult, MatchState)
    decreases object_file.routes@.len() - route_index, 0nat, 0nat,
{
    match t {
        Transition::LookAheadAssertion(la) => if route_index < la.route_index < object_file.routes@.len() {
            let (found, s2) = routine_outcome(object_file, bytes, la.route_index as int, position, s);
            (if found != la.negative { ExecuteResult::Success(0, 0) } else { ExecuteResult::Failure }, s2)
        } else {
            (ExecuteResult::Failure, s)
        },
        Transition::LookBehindAssertion(lb) => if route_index < lb.route_index < object_file.routes@.len() {
            match position_back(bytes, position, lb.match_length_in_char as nat) {
                Some(start) => {
                    let (found, s2) = routine_outcome(object_file, bytes, lb.route_index as int, start, s);
                    (if found != lb.negative { ExecuteResult::Success(0, 0) } else { ExecuteResult::Failure }, s2)
                },
                None => (if lb.negative { ExecuteResult::Success(0, 0) } else { ExecuteResult::Failure }, s),
            }
        } else {
            (ExecuteResult::Failure, s)
        },
        _ => (
            basic_outcome(t, bytes, s.ranges, s.counters, bytes.len() as int, position, count),
            MatchState {
                ranges: basic_ranges_after(t, s.ranges, position),
                counters: basic_counters_after(t, s.counters, count),
            },
        ),
    }
}

/// Whether route `route_index`, run from byte `start` of the text with
/// match state `s`, reaches its exit node, and the match state that it
/// leaves: that of the path that reached the exit, or `s` when none did.
/// The search tries transitions depth first, in their order at each node,
/// backtracking on failure to the state that the abandoned frame was pushed
/// with, and gives up after `MAX_ROUTINE_STEPS` transitions.
pub open spec fn routine_outcome(
    object_file: ObjectFile,
    bytes: Seq<u8>,
    route_index: int,
    start: int,
    s: MatchState,
) -> (bool, MatchState)
    decreases object_file.routes@.len() - route_index, 2nat, 0nat,
{
    if route_index < 0 || route_index >= object_file.routes@.len() {
        (false, s)
    } else {
        let route = object_file.routes@[route_index];
        routine_loop(
            object_file,
            bytes,
            route_index,
            frames_for(route, route.start_node_index as int, start as usize, 0, s),
            s,
            MAX_ROUTINE_STEPS as nat,
        )
    }
}

/// The search of route `route_index` with the frames `stack` waiting, the
/// last one first, and `steps` transitions left to try; `fail` is the state
/// that a search that finds nothing leaves.
pub open spec fn routine_loop(
    object_file: ObjectFile,
    bytes: Seq<u8>,
    route_index: int,
    stack: Seq<FrameView>,
    fail: MatchState,
    steps: nat,
) -> (bool, MatchState)
    decreases object_file.routes@.len() - route_index, 1nat, steps,
{
    if steps == 0 || stack.len() == 0 || route_index < 0 || route_index >= object_file.routes@.len() {
        (false, fail)
    } else {
        let route = object_file.routes@[route_index];
        let frame = stack.last();
        let item = route.nodes@[frame.node_index as int].transition_items@[frame.transition_index as int];
        let (r, s2) = transition_outcome(
            object_file,
            bytes,
            route_index,
            item.transition,
            frame.position as int,
            frame.repetition_count,
            frame.state,
        );
        match r {
            ExecuteResult::Success(forward, count) => if item.target_node_index == route.end_node_index {
                (true, s2)
            } else {
                routine_loop(
                    object_file,
                    bytes,
                    route_index,
                    stack.drop_last() + frames_for(
                        route,
                        item.target_node_index as int,
                        (frame.position + forward) as usize,
                        count,
                        s2,
                    ),
                    fail,
                    (steps - 1) as nat,
                )
            },
            ExecuteResult::Failure => routine_loop(
                object_file,
                bytes,
                route_index,
                stack.drop_last(),
                fail,
                (steps - 1) as nat,
            ),
        }
    }
}

/// A search that finds nothing leaves the state it was given.
pub proof fn lemma_routine_failure_keeps_state(
    object_file: ObjectFile,
    bytes: Seq<u8>,
    route_index: int,
    start: int,
    s: MatchState,
)
    ensures
        !routine_outcome(object_file, bytes, route_index, start, s).0 ==> routine_outcome(
            object_file,
            bytes,
            route_index,
            start,
            s,
        ).1 == s,
{
    if 0 <= route_index < object_file.routes@.len() {
        let route = object_file.routes@[route_index];
        lemma_loop_failure_keeps_state(
            object_file,
            bytes,
            route_index,
            frames_for(route, route.start_node_index as int, start as usize, 0, s),
            s,
            MAX_ROUTINE_STEPS as nat,
        );
    }
}

proof fn lemma_loop_failure_keeps_state(
    object_file: ObjectFile,
    bytes: Seq<u8>,
    route_index: int,
    stack: Seq<FrameView>,
    fail: MatchState,
    steps: nat,
)
    ensures
        !routine_loop(object_file, bytes, route_index, stack, fail, steps).0 ==> routine_loop(
            object_file,
            bytes,
            route_index,
            stack,
            fail,
            steps,
        ).1 == fail,
    decreases steps,
{
    if steps == 0 || stack.len() == 0 || route_index < 0 || route_index >= object_file.routes@.len() {
    } else {
        let route = object_file.routes@[route_index];
        let frame = stack.last();
        let item = route.nodes@[frame.node_index as int].transition_items@[frame.transition_index as int];
        let (r, s2) = transition_outcome(
            object_file,
            bytes,
            route_index,
            item.transition,
            frame.position as int,
            frame.repetition_count,
            frame.state,
        );
        match r {
            ExecuteResult::Success(forward, count) => if item.target_node_index != route.end_node_index {
                lemma_loop_failure_keeps_state(
                    object_file,
                    bytes,
                    route_index,
                    stack.drop_last() + frames_for(
                        route,
                        item.target_node_index as int,
                        (frame.position + forward) as usize,
                        count,
                        s2,
                    ),
                    fail,
                    (steps - 1) as nat,
                );
            },
            ExecuteResult::Failure => {
                lemma_loop_failure_keeps_state(
                    object_file,
                    bytes,
                    route_index,
                    stack.drop_last(),
                    fail,
                    (steps - 1) as nat,
                );
            },
        }
    }
}

/// The frames are valid for the route: they name existing transitions and
/// positions within the text, and hold one capture range per group.
spec fn frames_valid(stack: Seq<FrameView>, route: Route, end_position: int, groups: int) -> bool {
    forall|k: int|
        0 <= k < stack.len() ==> {
            &&& (#[trigger] stack[k]).node_index < route.nodes@.len()
            &&& stack[k].transition_index < route.nodes@[stack[k].node_index as int].transition_items@.len()
            &&& stack[k].position <= end_position
            &&& stack[k].state.ranges.len() == groups
        }
}

/// A copy of a vector of plain values.
fn copy_vec<T: Copy>(v: &Vec<T>) -> (r: Vec<T>)
    ensures
        r@ == v@,
{
    let mut r: Vec<T> = Vec::new();
    let mut i: usize = 0;
    while i < v.len()
        invariant
            i <= v@.len(),
            r@ == v@.subrange(0, i as int),
        decreases v@.len() - i,
    {
        r.push(v[i]);
        i = i + 1;
        proof {
            assert(r@ =~= v@.subrange(0, i as int));
        }
    }
    proof {
        assert(r@ =~= v@);
    }
    r
}

/// Pushes one frame for each transition that leaves the node, each with a
/// copy of the capture ranges and the counter stack, the last transition
/// first, so that the first transition is tried first.
fn push_frames(
    stack: &mut Vec<Frame>,
    route: &Route,
    node_index: usize,
    position: usize,
    repetition_count: usize,
    match_ranges: &Vec<MatchRange>,
    counters: &Vec<usize>,
)
    requires
        node_index < route.nodes@.len(),
    ensures
        frames_view(final(stack)@) == frames_view(old(stack)@) + frames_for(
            *route,
            node_index as int,
            position,
            repetition_count,
            MatchState { ranges: match_ranges@, counters: counters@ },
        ),
{
    let ghost s = MatchState { ranges: match_ranges@, counters: counters@ };
    let count = route.nodes[node_index].transition_items.len();
    let mut i: usize = count;
    while i > 0
        invariant
            i <= count,
            count == route.nodes@[node_index as int].transition_items@.len(),
            s == (MatchState { ranges: match_ranges@, counters: counters@ }),
            stack@.len() == old(stack)@.len() + (count - i),
            forall|k: int| 0 <= k < old(stack)@.len() ==> stack@[k] == old(stack)@[k],
            forall|k: int|
                old(stack)@.len() <= k < stack@.len() ==> {
                    &&& (#[trigger] stack@[k])@.node_index == node_index
                    &&& stack@[k]@.transition_index == count - 1 - (k - old(stack)@.len())
                    &&& stack@[k]@.position == position
                    &&& stack@[k]@.repetition_count == repetition_count
                    &&& stack@[k]@.state == s
                },
        decreases i,
    {
        i = i - 1;
        stack.push(
            Frame {
                node_index,
                transition_index: i,
                position,
                repetition_count,
                match_ranges: copy_vec(match_ranges),
                counters: copy_vec(counters),
            },
        );
    }
    proof {
        assert(frames_view(stack@) =~= frames_view(old(stack)@) + frames_for(
            *route,
            node_index as int,
            position,
            repetition_count,
            s,
        ));
    }
}

/// Runs the route `route_index` from byte `start_position` of the text and
/// tells whether it reaches the route's exit node. Transitions are tried
/// depth first, in their order at each node, backtracking on failure; each
/// transition is tried from the capture ranges and counter stack of the path
/// that led to it. The context ends with the state of the path that reached
/// the exit, or with the state it started with when none did.
pub fn start_routine(
    context: &mut Context,
    object_file: &ObjectFile,
    route_index: usize,
    start_position: usize,
    end_position: usize,
) -> (r: bool)
    requires
        object_file.wf(),
        route_index < object_file.routes@.len(),
        old(context).match_ranges@.len() == object_file.capture_group_names@.len(),
        start_position <= end_position,
        end_position == old(context).bytes@.len(),
    ensures
        final(context).bytes@ == old(context).bytes@,
        final(context).routines@ == old(context).routines@,
        final(context).match_ranges@.len() == old(context).match_ranges@.len(),
        (r, state_of(*final(context))) == routine_outcome(
            *object_file,
            old(context).bytes@,
            route_index as int,
            start_position as int,
            state_of(*old(context)),
        ),
    decreases object_file.routes@.len() - route_index, 1nat,
{
    let ghost old_routines = context.routines@;
    let ghost initial = state_of(*context);
    let groups = context.match_ranges.len();
    let saved_ranges = copy_vec(&context.match_ranges);
    let saved_counters = copy_vec(&context.counter_stack);
    context.routines.push(Routine { route_index, end_position });
    let route = &object_file.routes[route_index];
    proof {
        assert(object_file.routes@[route_index as int].wf(
            route_index as int,
            object_file.routes@.len() as int,
            object_file.capture_group_names@.len() as int,
        ));
    }
    let exit_node_index = route.end_node_index;
    let mut stack: Vec<Frame> = Vec::new();
    push_frames(
        &mut stack,
        route,
        route.start_node_index,
        start_position,
        0,
        &context.match_ranges,
        &context.counter_stack,
    );
    proof {
        assert(frames_view(Seq::<Frame>::empty()) =~= Seq::<FrameView>::empty());
        assert(frames_view(stack@) =~= frames_for(
            *route,
            route.start_node_index as int,
            start_position,
            0,
            initial,
        ));
    }
    let mut steps_left: u64 = MAX_ROUTINE_STEPS;
    let mut result = false;
    while steps_left > 0
        invariant_except_break
            routine_outcome(*object_file, context.bytes@, route_index as int, start_position as int, initial)
                == routine_loop(
                *object_file,
                context.bytes@,
                route_index as int,
                frames_view(stack@),
                initial,
                steps_left as nat,
            ),
            !result,
        invariant
            object_file.wf(),
            route == object_file.routes@[route_index as int],
            exit_node_index == route.end_node_index,
            route.wf(
                route_index as int,
                object_file.routes@.len() as int,
                object_file.capture_group_names@.len() as int,
            ),
            route_index < object_file.routes@.len(),
            context.bytes@ == old(context).bytes@,
            context.routines@ == old_routines.push(Routine { route_index, end_position }),
            context.match_ranges@.len() == object_file.capture_group_names@.len(),
            groups == object_file.capture_group_names@.len(),
            end_position == context.bytes@.len(),
            frames_valid(frames_view(stack@), *route, end_position as int, groups as int),
        ensures
            object_file.wf(),
            context.bytes@ == old(context).bytes@,
            context.routines@ == old_routines.push(Routine { route_index, end_position }),
            context.match_ranges@.len() == object_file.capture_group_names@.len(),
            result ==> (result, state_of(*context)) == routine_outcome(
                *object_file,
                context.bytes@,
                route_index as int,
                start_position as int,
                initial,
            ),
            !result ==> routine_outcome(
                *object_file,
                context.bytes@,
                route_index as int,
                start_position as int,
                initial,
            ) == (false, initial),
        decreases steps_left,
    {
        let ghost steps = steps_left as nat;
        let ghost before = frames_view(stack@);
        steps_left = steps_left - 1;
        let frame = match stack.pop() {
            Some(f) => f,
            None => {
                proof {
                    assert(before.len() == 0);
                }
                break;
            },
        };
        proof {
            assert(frames_view(stack@) =~= before.drop_last());
            assert(frame@ == before.last());
            assert(before[before.len() - 1] == frame@);
        }
        let Frame { node_index, transition_index, position, repetition_count, match_ranges, counters } = frame;
        context.match_ranges = match_ranges;
        context.counter_stack = counters;
        let ghost state = state_of(*context);
        let node = &route.nodes[node_index];
        let item = &node.transition_items[transition_index];
        proof {
            let i = node_index as int;
            let j = transition_index as int;
            assert(route.nodes@[i].transition_items@[j] == *item);
            assert(execute_requires(item.transition, *context, *object_file, position as int));
        }
        let outcome = item.transition.execute(context, object_file, position, repetition_count);
        proof {
            assert((outcome, state_of(*context)) == transition_outcome(
                *object_file,
                context.bytes@,
                route_index as int,
                item.transition,
                position as int,
                repetition_count,
                state,
            ));
        }
        match outcome {
            ExecuteResult::Success(forward, count) => {
                if item.target_node_index == exit_node_index {
                    result = true;
                    proof {
                        assert(routine_loop(*object_file, context.bytes@, route_index as int, before, initial, steps)
                            == (true, state_of(*context)));
                    }
                    break;
                }
                let ghost stack_before = frames_view(stack@);
                push_frames(
                    &mut stack,
                    route,
                    item.target_node_index,
                    position + forward,
                    count,
                    &context.match_ranges,
                    &context.counter_stack,
                );
                proof {
                    let added = frames_for(
                        *route,
                        item.target_node_index as int,
                        (position + forward) as usize,
                        count,
                        state_of(*context),
                    );
                    assert(state_of(*context) == (MatchState {
                        ranges: context.match_ranges@,
                        counters: context.counter_stack@,
                    }));
                    assert(frames_view(stack@) == stack_before + added);
                    assert forall|k: int| 0 <= k < frames_view(stack@).len() implies {
                        &&& (#[trigger] frames_view(stack@)[k]).node_index < route.nodes@.len()
                        &&& frames_view(stack@)[k].transition_index < route.nodes@[frames_view(
                            stack@,
                        )[k].node_index as int].transition_items@.len()
                        &&& frames_view(stack@)[k].position <= end_position
                        &&& frames_view(stack@)[k].state.ranges.len() == groups
                    } by {
                        if k < stack_before.len() {
                            assert(frames_view(stack@)[k] == stack_before[k]);
                        } else {
                            assert(frames_view(stack@)[k] == added[k - stack_before.len()]);
                        }
                    }
                    assert(routine_loop(*object_file, context.bytes@, route_index as int, before, initial, steps)
                        == routine_loop(
                        *object_file,
                        context.bytes@,
                        route_index as int,
                        frames_view(stack@),
                        initial,
                        steps_left as nat,
                    ));
                }
            },
            ExecuteResult::Failure => {
                proof {
                    assert(routine_loop(*object_file, context.bytes@, route_index as int, before, initial, steps)
                        == routine_loop(
                        *object_file,
                        context.bytes@,
                        route_index as int,
                        frames_view(stack@),
                        initial,
                        steps_left as nat,
                    ));
                }
            },
        }
    }
    if !result {
        context.match_ranges = saved_ranges;
        context.counter_stack = saved_counters;
    }
    context.routines.pop();
    proof {
        assert(context.routines@ =~= old_routines);
    }
    result
}

/// The match state at the start of a search: every capture group at the
/// empty range `0..0` and no saved counters.
pub open spec fn initial_state(groups: nat) -> MatchState {
    MatchState {
        ranges: Seq::new(groups, |i: int| MatchRange { start: 0, end: 0 }),
        counters: Seq::empty(),
    }
}

/// The search for a match from byte `start` on: the main route is run from
/// each start position in turn, one character further each time, up to and
/// including the end of the text, until it matches, or once only when the
/// pattern must match at the start of the text.
pub open spec fn main_search(object_file: ObjectFile, bytes: Seq<u8>, start: int, s: MatchState) -> (
    bool,
    MatchState,
)
    decreases bytes.len() - start,
{
    if start < 0 || start > bytes.len() {
        (false, s)
    } else {
        let (found, s2) = routine_outcome(object_file, bytes, MAIN_ROUTE_INDEX as int, start, s);
        if found {
            (true, s2)
        } else if object_file.routes@[MAIN_ROUTE_INDEX as int].is_fixed_start_position || start
            == bytes.len() {
            (false, s2)
        } else {
            let length = char_at(bytes, start).1;
            if length > 0 {
                main_search(object_file, bytes, start + length, s2)
            } else {
                (false, s2)
            }
        }
    }
}

/// The capture ranges of the first match found from byte `start` on, or
/// `None` when there is none.
pub open spec fn match_from(object_file: ObjectFile, bytes: Seq<u8>, start: int) -> Option<Seq<MatchRange>> {
    let (found, s) = main_search(object_file, bytes, start, initial_state(object_file.capture_group_names@.len()));
    if found {
        Some(s.ranges)
    } else {
        None
    }
}

impl<'a> Context<'a> {
    /// Searches the text for a match from byte `start` on, with every capture
    /// range and the counter stack cleared first; tells whether one was found.
    pub fn exec(&mut self, object_file: &ObjectFile, start: usize) -> (r: bool)
        requires
            object_file.wf(),
        ensures
            final(self).bytes@ == old(self).bytes@,
            final(self).match_ranges@.len() == object_file.capture_group_names@.len(),
            (r, state_of(*final(self))) == main_search(
                *object_file,
                old(self).bytes@,
                start as int,
                initial_state(object_file.capture_group_names@.len()),
            ),
    {
        let fresh = Context::new(self.bytes, object_file.capture_group_names.len());
        *self = fresh;
        proof {
            assert(self.counter_stack@ =~= Seq::<usize>::empty());
            assert(self.match_ranges@ =~= initial_state(object_file.capture_group_names@.len()).ranges);
        }
        start_main_routine(self, object_file, start)
    }
}

/// Runs the main route from each start position from `start` on, up to and
/// including the end of the text, one character further each time unless the
/// route must match at the start of the text, until it matches.
fn start_main_routine(context: &mut Context, object_file: &ObjectFile, start: usize) -> (r: bool)
    requires
        object_file.wf(),
        old(context).match_ranges@.len() == object_file.capture_group_names@.len(),
    ensures
        final(context).bytes@ == old(context).bytes@,
        final(context).match_ranges@.len() == old(context).match_ranges@.len(),
        (r, state_of(*final(context))) == main_search(
            *object_file,
            old(context).bytes@,
            start as int,
            state_of(*old(context)),
        ),
{
    let end = context.bytes.len();
    if start > end {
        return false;
    }
    let mut position = start;
    loop
        invariant
            object_file.wf(),
            context.bytes@ == old(context).bytes@,
            end == context.bytes@.len(),
            position <= end,
            context.match_ranges@.len() == object_file.capture_group_names@.len(),
            old(context).match_ranges@.len() == object_file.capture_group_names@.len(),
            main_search(*object_file, context.bytes@, start as int, state_of(*old(context))) == main_search(
                *object_file,
                context.bytes@,
                position as int,
                state_of(*context),
            ),
        decreases end - position,
    {
        if start_routine(context, object_file, MAIN_ROUTE_INDEX, position, end) {
            return true;
        }
        if object_file.routes[MAIN_ROUTE_INDEX].is_fixed_start_position || position == end {
            return false;
        }
        let (_, length) = read_char(context.bytes, position);
        position = position + length;
    }
}

/// The bytes of a capture value: those of the range when it is valid
/// UTF-8 within the text, else none.
pub open spec fn value_bytes(bytes: Seq<u8>, start: int, end: int) -> Seq<u8> {
    if 0 <= start <= end <= bytes.len() && vstd::utf8::valid_utf8(bytes.subrange(start, end)) {
        bytes.subrange(start, end)
    } else {
        Seq::empty()
    }
}

/// The capture ranges of a match lie in the text as slices of it: each
/// starts and ends at a character boundary within the text, the range of
/// group 0 is ordered, and the text of each ordered range is exactly the
/// bytes it covers.
pub open spec fn ranges_are_slices(bytes: Seq<u8>, ranges: Seq<MatchRange>) -> bool {
    &&& ranges.len() > 0
    &&& ranges[0].start <= ranges[0].end
    &&& forall|g: int|
        0 <= g < ranges.len() ==> {
            &&& (#[trigger] ranges[g]).start <= bytes.len()
            &&& ranges[g].end <= bytes.len()
            &&& vstd::utf8::is_char_boundary(bytes, ranges[g].start as int)
            &&& vstd::utf8::is_char_boundary(bytes, ranges[g].end as int)
            &&& ranges[g].start <= ranges[g].end ==> value_bytes(
                bytes,
                ranges[g].start as int,
                ranges[g].end as int,
            ) == bytes.subrange(ranges[g].start as int, ranges[g].end as int)
        }
}

/// The text of bytes `start..end`; empty when that range is not valid UTF-8
/// within the text.
fn sub_string(bytes: &[u8], start: usize, end: usize) -> (r: &str)
    ensures
        r.spec_bytes() == value_bytes(bytes@, start as int, end as int),
{
    let empty = "";
    proof {
        reveal_strlit("");
        assert(vstd::utf8::encode_utf8(empty@) =~= Seq::<u8>::empty());
    }
    if start <= end && end <= bytes.len() {
        let slice = vstd::slice::slice_subrange(bytes, start, end);
        match crate::text::str_from_utf8(slice) {
            Some(s) => s,
            None => empty,
        }
    } else {
        empty
    }
}


/// A compiled regular expression.
pub struct Regex {
    pub object_file: ObjectFile,
}

/// The object file of a regex, or the error in its place.
pub open spec fn object_file_of(r: Result<Regex, AnreError>) -> Result<ObjectFile, AnreError> {
    match r {
        Ok(re) => Ok(re.object_file),
        Err(e) => Err(e),
    }
}

/// What compiling a pattern into a `Regex` gives: the parse error, or what
/// compiling the parsed program gives.
pub open spec fn regex_compiled(pattern: Seq<char>, r: Result<Regex, AnreError>) -> bool {
    match spec_parse(pattern) {
        Err(f) => r matches Err(e) && error_matches(e, f),
        Ok(exps) => exists|program: crate::ast::Program|
            program@ == exps && #[trigger] compiled(program, object_file_of(r)),
    }
}

/// A match of a capture group: its byte range in the text, the group's
/// name, and the text it matched.
#[derive(Debug, PartialEq, Clone)]
pub struct Match<'a, 'b> {
    /// The first byte, included.
    pub start: usize,
    /// The end, excluded.
    pub end: usize,
    pub name: Option<&'a str>,
    pub value: &'b str,
}

/// Whether `m` is the match of capture group `index`, whose range is
/// `ranges[index]`, in a text of bytes `bytes`.
pub open spec fn is_group_match(
    m: Match,
    object_file: ObjectFile,
    bytes: Seq<u8>,
    ranges: Seq<MatchRange>,
    index: int,
) -> bool {
    &&& m.start == ranges[index].start
    &&& m.end == ranges[index].end
    &&& match object_file.capture_group_names@[index] {
        Some(n) => m.name matches Some(s) && s@ == n@,
        None => m.name is None,
    }
    &&& m.value.spec_bytes() == value_bytes(bytes, ranges[index].start as int, ranges[index].end as int)
}

/// The matches of all capture groups, group 0 (the whole match) first. A
/// group that took no part in the match is reported at the empty range
/// `0..0` with an empty text: what an attempt that was given up wrote is
/// undone when the search backtracks.
#[derive(Debug, PartialEq, Clone)]
pub struct Captures<'a, 'b> {
    pub matches: Vec<Match<'a, 'b>>,
}

/// Whether `c` holds the match of each capture group whose ranges are `ranges`.
pub open spec fn are_group_matches(c: Captures, object_file: ObjectFile, bytes: Seq<u8>, ranges: Seq<MatchRange>) -> bool {
    &&& c.matches@.len() == ranges.len()
    &&& forall|i: int| 0 <= i < ranges.len() ==> is_group_match(#[trigger] c.matches@[i], object_file, bytes, ranges, i)
}

/// The first capture group is the whole match: for one search, group 0 of
/// what `captures` reports is what `find` reports.
pub proof fn lemma_group_zero_is_the_match(
    m: Match,
    c: Captures,
    object_file: ObjectFile,
    bytes: Seq<u8>,
    ranges: Seq<MatchRange>,
)
    requires
        0 < ranges.len(),
        is_group_match(m, object_file, bytes, ranges, 0),
        are_group_matches(c, object_file, bytes, ranges),
    ensures
        c.matches@[0].start == m.start,
        c.matches@[0].end == m.end,
        c.matches@[0].value.spec_bytes() == m.value.spec_bytes(),
        c.matches@[0].name is Some <==> m.name is Some,
        c.matches@[0].name is Some ==> c.matches@[0].name.unwrap()@ == m.name.unwrap()@,
{
    assert(is_group_match(c.matches@[0], object_file, bytes, ranges, 0));
}

impl<'a, 'b> Match<'a, 'b> {
    pub fn new(start: usize, end: usize, name: Option<&'a str>, value: &'b str) -> (r: Self)
        ensures
            r.start == start,
            r.end == end,
            r.name == name,
            r.value == value,
    {
        Match { start, end, name, value }
    }

    pub fn start(&self) -> (r: usize)
        ensures
            r == self.start,
    {
        self.start
    }

    pub fn end(&self) -> (r: usize)
        ensures
            r == self.end,
    {
        self.end
    }

    /// Whether the match is empty.
    pub fn is_empty(&self) -> (r: bool)
        requires
            self.start <= self.end,
        ensures
            r == (self.start == self.end),
    {
        self.len() == 0
    }

    /// The length of the match in bytes.
    pub fn len(&self) -> (r: usize)
        requires
            self.start <= self.end,
        ensures
            r == self.end - self.start,
    {
        self.end - self.start
    }

    /// The byte range of the match.
    pub fn range(&self) -> (r: std::ops::Range<usize>)
        ensures
            r.start == self.start,
            r.end == self.end,
    {
        std::ops::Range { start: self.start, end: self.end }
    }

    /// The text of the match.
    pub fn as_str(&self) -> (r: &'b str)
        ensures
            r == self.value,
    {
        self.value
    }
}

/// The match of capture group `index`.
fn group_match<'a, 'b>(
    object_file: &'a ObjectFile,
    bytes: &'b [u8],
    ranges: &Vec<MatchRange>,
    index: usize,
) -> (r: Match<'a, 'b>)
    requires
        index < ranges@.len(),
        index < object_file.capture_group_names@.len(),
    ensures
        is_group_match(r, *object_file, bytes@, ranges@, index as int),
{
    let range = ranges[index];
    Match::new(
        range.start,
        range.end,
        object_file.get_capture_group_name_by_index(index),
        sub_string(bytes, range.start, range.end),
    )
}

/// The matches of all capture groups.
fn group_matches<'a, 'b>(object_file: &'a ObjectFile, bytes: &'b [u8], ranges: &Vec<MatchRange>) -> (r: Captures<
    'a,
    'b,
>)
    requires
        ranges@.len() == object_file.capture_group_names@.len(),
    ensures
        are_group_matches(r, *object_file, bytes@, ranges@),
{
    let mut matches: Vec<Match<'a, 'b>> = Vec::new();
    let mut i: usize = 0;
    while i < ranges.len()
        invariant
            i <= ranges@.len(),
            ranges@.len() == object_file.capture_group_names@.len(),
            matches@.len() == i,
            forall|k: int| 0 <= k < i ==> is_group_match(#[trigger] matches@[k], *object_file, bytes@, ranges@, k),
        decreases ranges@.len() - i,
    {
        matches.push(group_match(object_file, bytes, ranges, i));
        i = i + 1;
    }
    Captures { matches }
}

impl<'a, 'b> Captures<'a, 'b> {
    /// The match of group 0: the whole match.
    pub fn first(&self) -> (r: Option<&Match<'a, 'b>>)
        ensures
            r == (if self.matches@.len() > 0 { Some(&self.matches@[0]) } else { None }),
    {
        self.get(0)
    }

    /// The match of capture group `index`, if there is such a group.
    pub fn get(&self, index: usize) -> (r: Option<&Match<'a, 'b>>)
        ensures
            r == (if index < self.matches@.len() { Some(&self.matches@[index as int]) } else { None }),
    {
        if index < self.matches.len() {
            Some(&self.matches[index])
        } else {
            None
        }
    }

    /// The match of the first capture group named `name`, if any.
    pub fn name(&self, name: &str) -> (r: Option<&Match<'a, 'b>>)
        ensures
            r is None ==> forall|i: int|
                0 <= i < self.matches@.len() ==> !(#[trigger] self.matches@[i].name matches Some(s) && s@ == name@),
            r matches Some(m) ==> exists|i: int|
                0 <= i < self.matches@.len() && m == &self.matches@[i] && (m.name matches Some(s) && s@ == name@)
                    && forall|k: int| 0 <= k < i ==> !(#[trigger] self.matches@[k].name matches Some(s) && s@ == name@),
    {
        let target = name.to_owned();
        let mut i: usize = 0;
        while i < self.matches.len()
            invariant
                i <= self.matches@.len(),
                target@ == name@,
                forall|k: int| 0 <= k < i ==> !(#[trigger] self.matches@[k].name matches Some(s) && s@ == name@),
            decreases self.matches@.len() - i,
        {
            if let Some(s) = self.matches[i].name {
                if s.to_owned() == target {
                    return Some(&self.matches[i]);
                }
            }
            i = i + 1;
        }
        None
    }

    /// The text of the whole match and those of the next `n` groups.
    pub fn extract(&self, n: usize) -> (r: (&'b str, Vec<&'b str>))
        requires
            n < self.matches@.len(),
        ensures
            r.0 == self.matches@[0].value,
            r.1@.len() == n,
            forall|i: int| 0 <= i < n ==> r.1@[i] == #[trigger] self.matches@[i + 1].value,
    {
        let mut values: Vec<&'b str> = Vec::new();
        let mut i: usize = 0;
        while i < n
            invariant
                i <= n,
                n < self.matches@.len(),
                values@.len() == i,
                forall|k: int| 0 <= k < i ==> values@[k] == #[trigger] self.matches@[k + 1].value,
            decreases n - i,
        {
            values.push(self.matches[i + 1].value);
            i = i + 1;
        }
        (self.matches[0].value, values)
    }

    /// The number of capture groups, group 0 included.
    pub fn len(&self) -> (r: usize)
        ensures
            r == self.matches@.len(),
    {
        self.matches.len()
    }
}

impl Regex {
    /// Compiles a traditional regular expression.
    pub fn new(pattern: &str) -> (r: Result<Regex, AnreError>)
        ensures
            regex_compiled(pattern@, r),
    {
        let compiled_result = compile_from_regex(pattern);
        let r = match compiled_result {
            Ok(object_file) => Ok(Regex { object_file }),
            Err(e) => Err(e),
        };
        proof {
            if let Ok(exps) = spec_parse(pattern@) {
                let program = choose|program: crate::ast::Program| program@ == exps && #[trigger] compiled(
                    program,
                    compiled_result,
                );
                assert(object_file_of(r) == compiled_result);
                assert(compiled(program, object_file_of(r)));
            }
        }
        r
    }

    /// Whether the text holds a match.
    pub fn is_match(&self, text: &str) -> (r: bool)
        requires
            self.object_file.wf(),
        ensures
            r == match_from(self.object_file, text.spec_bytes(), 0) is Some,
    {
        let bytes = text.as_bytes();
        let mut context = Context::new(bytes, self.object_file.capture_group_names.len());
        context.exec(&self.object_file, 0)
    }

    /// The first match in the text.
    pub fn find<'a, 'b>(&'a self, text: &'b str) -> (r: Option<Match<'a, 'b>>)
        requires
            self.object_file.wf(),
        ensures
            match match_from(self.object_file, text.spec_bytes(), 0) {
                None => r is None,
                Some(ranges) => r matches Some(m) && is_group_match(m, self.object_file, text.spec_bytes(), ranges, 0),
            },
            match_from(self.object_file, text.spec_bytes(), 0) matches Some(ranges) ==> (group_zero_frames_main(
                self.object_file,
            ) ==> ranges_are_slices(text.spec_bytes(), ranges)),
    {
        let bytes = text.as_bytes();
        proof {
            assert(bytes@.len() == bytes.len());
            vstd::utf8::encode_utf8_valid_utf8(text@);
            if group_zero_frames_main(self.object_file) {
                crate::match_bounds::lemma_search_gives_slices(self.object_file, bytes@);
            }
        }
        let mut context = Context::new(bytes, self.object_file.capture_group_names.len());
        if !context.exec(&self.object_file, 0) {
            return None;
        }
        Some(group_match(&self.object_file, bytes, &context.match_ranges, 0))
    }

    /// The matches in the text, one after another.
    pub fn find_iter<'a, 'b>(&'a self, text: &'b str) -> (r: Matches<'a, 'b>)
        ensures
            r.regex == self,
            r.bytes@ == text.spec_bytes(),
            r.last_position == 0,
            !r.finished,
    {
        Matches { regex: self, bytes: text.as_bytes(), last_position: 0, finished: false }
    }

    /// The capture groups of the first match in the text.
    pub fn captures<'a, 'b>(&'a self, text: &'b str) -> (r: Option<Captures<'a, 'b>>)
        requires
            self.object_file.wf(),
        ensures
            match match_from(self.object_file, text.spec_bytes(), 0) {
                None => r is None,
                Some(ranges) => r matches Some(c) && are_group_matches(c, self.object_file, text.spec_bytes(), ranges),
            },
            match_from(self.object_file, text.spec_bytes(), 0) matches Some(ranges) ==> (group_zero_frames_main(
                self.object_file,
            ) ==> ranges_are_slices(text.spec_bytes(), ranges)),
    {
        proof {
            vstd::utf8::encode_utf8_valid_utf8(text@);
        }
        self.captures_bytes(text.as_bytes())
    }

    /// The capture groups of the matches in the text, one after another.
    pub fn captures_iter<'a, 'b>(&'a self, text: &'b str) -> (r: CaptureMatches<'a, 'b>)
        ensures
            r.regex == self,
            r.bytes@ == text.spec_bytes(),
            r.last_position == 0,
            !r.finished,
    {
        self.captures_bytes_iter(text.as_bytes())
    }

    /// The capture groups of the first match in UTF-8 bytes.
    pub fn captures_bytes<'a, 'b>(&'a self, bytes: &'b [u8]) -> (r: Option<Captures<'a, 'b>>)
        requires
            self.object_file.wf(),
        ensures
            match match_from(self.object_file, bytes@, 0) {
                None => r is None,
                Some(ranges) => r matches Some(c) && are_group_matches(c, self.object_file, bytes@, ranges),
            },
            match_from(self.object_file, bytes@, 0) matches Some(ranges) ==> (group_zero_frames_main(
                self.object_file,
            ) && vstd::utf8::valid_utf8(bytes@) ==> ranges_are_slices(bytes@, ranges)),
    {
        proof {
            assert(bytes@.len() == bytes.len());
            if group_zero_frames_main(self.object_file) && vstd::utf8::valid_utf8(bytes@) {
                crate::match_bounds::lemma_search_gives_slices(self.object_file, bytes@);
            }
        }
        let mut context = Context::new(bytes, self.object_file.capture_group_names.len());
        if !context.exec(&self.object_file, 0) {
            return None;
        }
        Some(group_matches(&self.object_file, bytes, &context.match_ranges))
    }

    /// The capture groups of the matches in UTF-8 bytes, one after another.
    pub fn captures_bytes_iter<'a, 'b>(&'a self, bytes: &'b [u8]) -> (r: CaptureMatches<'a, 'b>)
        ensures
            r.regex == self,
            r.bytes@ == bytes@,
            r.last_position == 0,
            !r.finished,
    {
        CaptureMatches { regex: self, bytes, last_position: 0, finished: false }
    }
}

/// Where the search that follows a match whose group 0 is `range` starts: at
/// the end of the match, or, after an empty match, one character further, so
/// that no empty match is found twice; `None` after an empty match at the end
/// of the text, where nothing is left to search.
pub open spec fn resume_position(bytes: Seq<u8>, range: MatchRange) -> Option<int> {
    if range.start != range.end {
        Some(range.end as int)
    } else if range.end < bytes.len() {
        Some(range.end + char_at(bytes, range.end as int).1)
    } else {
        None
    }
}

/// One step of an iteration over the matches, searching from byte
/// `position` unless the iteration has `finished`: the capture ranges of the
/// match found, if any, and where the iteration stands after it.
pub open spec fn iteration_step(object_file: ObjectFile, bytes: Seq<u8>, position: usize, finished: bool) -> (
    Option<Seq<MatchRange>>,
    usize,
    bool,
) {
    if finished {
        (None, position, true)
    } else {
        match match_from(object_file, bytes, position as int) {
            None => (None, position, false),
            Some(ranges) => match resume_position(bytes, ranges[0]) {
                Some(p) => (Some(ranges), p as usize, false),
                None => (Some(ranges), position, true),
            },
        }
    }
}

/// Where the search that follows a match of byte range `range` starts (see
/// `resume_position`).
fn resume_after(bytes: &[u8], range: MatchRange) -> (r: Option<usize>)
    ensures
        match resume_position(bytes@, range) {
            Some(p) => r == Some(p as usize) && p <= usize::MAX,
            None => r is None,
        },
{
    if range.start != range.end {
        Some(range.end)
    } else if range.end < bytes.len() {
        let (_, length) = read_char(bytes, range.end);
        Some(range.end + length)
    } else {
        None
    }
}

/// The matches of a regex in a text, one after another; an empty match is
/// never found twice.
pub struct Matches<'a, 'b> {
    pub regex: &'a Regex,
    pub bytes: &'b [u8],
    /// Where the next search starts.
    pub last_position: usize,
    /// Whether the iteration is over: an empty match ended the text.
    pub finished: bool,
}

impl<'a, 'b> Matches<'a, 'b> {
    /// The next match: searched for from the end of the last one, or one
    /// character after it when it was empty.
    pub fn next(&mut self) -> (r: Option<Match<'a, 'b>>)
        requires
            old(self).regex.object_file.wf(),
        ensures
            final(self).regex == old(self).regex,
            final(self).bytes == old(self).bytes,
            ({
                let (found, p, f) = iteration_step(
                    old(self).regex.object_file,
                    old(self).bytes@,
                    old(self).last_position,
                    old(self).finished,
                );
                &&& final(self).last_position == p
                &&& final(self).finished == f
                &&& match found {
                    None => r is None,
                    Some(ranges) => r matches Some(m) && is_group_match(
                        m,
                        old(self).regex.object_file,
                        old(self).bytes@,
                        ranges,
                        0,
                    ),
                }
            }),
    {
        if self.finished {
            return None;
        }
        let object_file = &self.regex.object_file;
        let mut context = Context::new(self.bytes, object_file.capture_group_names.len());
        if !context.exec(object_file, self.last_position) {
            return None;
        }
        let m = group_match(object_file, self.bytes, &context.match_ranges, 0);
        match resume_after(self.bytes, context.match_ranges[0]) {
            Some(p) => {
                self.last_position = p;
            },
            None => {
                self.finished = true;
            },
        }
        Some(m)
    }
}

/// The capture groups of the matches of a regex in a text, one after
/// another; an empty match is never found twice.
pub struct CaptureMatches<'a, 'b> {
    pub regex: &'a Regex,
    pub bytes: &'b [u8],
    /// Where the next search starts.
    pub last_position: usize,
    /// Whether the iteration is over: an empty match ended the text.
    pub finished: bool,
}

impl<'a, 'b> CaptureMatches<'a, 'b> {
    /// The capture groups of the next match: searched for from the end of
    /// the last one, or one character after it when it was empty.
    pub fn next(&mut self) -> (r: Option<Captures<'a, 'b>>)
        requires
            old(self).regex.object_file.wf(),
        ensures
            final(self).regex == old(self).regex,
            final(self).bytes == old(self).bytes,
            ({
                let (found, p, f) = iteration_step(
                    old(self).regex.object_file,
                    old(self).bytes@,
                    old(self).last_position,
                    old(self).finished,
                );
                &&& final(self).last_position == p
                &&& final(self).finished == f
                &&& match found {
                    None => r is None,
                    Some(ranges) => r matches Some(c) && are_group_matches(
                        c,
                        old(self).regex.object_file,
                        old(self).bytes@,
                        ranges,
                    ),
                }
            }),
    {
        if self.finished {
            return None;
        }
        let object_file = &self.regex.object_file;
        let mut context = Context::new(self.bytes, object_file.capture_group_names.len());
        if !context.exec(object_file, self.last_position) {
            return None;
        }
        let c = group_matches(object_file, self.bytes, &context.match_ranges);
        match resume_after(self.bytes, context.match_ranges[0]) {
            Some(p) => {
                self.last_position = p;
            },
            None => {
                self.finished = true;
            },
        }
        Some(c)
    }
}

} // verus!
