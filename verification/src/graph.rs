use vstd::prelude::*;

use crate::ast::{
    AnchorAssertionName, BackReference, CharSet, Expression, FunctionCall, FunctionName, Literal,
    PresetCharSetName, Program,
};
use crate::compiler::{charset_items, number_value};
use crate::object_file::{RouteView, TransitionView};
use crate::rulechecker::match_length;
use crate::transition::{
    digit_items, hex_items, space_items, utf8_length, word_items, CharSetItem, RepetitionType,
};

verus! {

// The object file that compiling a program builds, described as the graph
// that grows while the program is compiled: each step adds nodes to the
// current route (numbered in the order they are added), transitions to the
// end of a node's list, capture groups, or a sub-route. A compiled
// expression is a pair of nodes, where it is entered and where it is left.

/// The graph being built: the routes, the capture group names, and the
/// route that nodes and transitions go to.
pub struct Build {
    pub routes: Seq<RouteView>,
    pub names: Seq<Option<Seq<char>>>,
    pub current: int,
}

/// Where a compiled expression is entered and where it is left.
pub type Ports = (int, int);

/// The number of nodes of the current route.
pub open spec fn node_count(b: Build) -> int {
    b.routes[b.current].nodes.len() as int
}

/// A node without transitions added to the current route.
pub open spec fn node_added(b: Build) -> Build {
    let r = b.routes[b.current];
    Build { routes: b.routes.update(b.current, RouteView { nodes: r.nodes.push(Seq::empty()), ..r }), ..b }
}

/// Two nodes added to the current route.
pub open spec fn two_nodes_added(b: Build) -> Build {
    node_added(node_added(b))
}

/// A transition from node `source` to node `target` added to the current
/// route, after those that the source already has.
pub open spec fn item_added(b: Build, source: int, target: int, t: TransitionView) -> Build {
    let r = b.routes[b.current];
    Build {
        routes: b.routes.update(
            b.current,
            RouteView { nodes: r.nodes.update(source, r.nodes[source].push((t, target as usize))), ..r },
        ),
        ..b
    }
}

/// A capture group added.
pub open spec fn group_added(b: Build, name: Option<Seq<char>>) -> Build {
    Build { names: b.names.push(name), ..b }
}

/// An empty route added, and made the current route.
pub open spec fn route_opened(b: Build) -> Build {
    Build {
        routes: b.routes.push(RouteView { nodes: Seq::empty(), start: 0, end: 0, fixed: false }),
        current: b.routes.len() as int,
        ..b
    }
}

/// The current route given the entry and exit `ports`, marked as fixed at
/// its start, and route `saved` made current again.
pub open spec fn route_closed(b: Build, saved: int, ports: Ports) -> Build {
    let r = b.routes[b.current];
    Build {
        routes: b.routes.update(
            b.current,
            RouteView { start: ports.0 as usize, end: ports.1 as usize, fixed: true, ..r },
        ),
        current: saved,
        ..b
    }
}

/// Two new nodes joined by one transition.
pub open spec fn single(b: Build, t: TransitionView) -> (Ports, Build) {
    let n = node_count(b);
    ((n, n + 1), item_added(two_nodes_added(b), n, n + 1, t))
}

/// Jumps around the component `c` so that it may be skipped: two new
/// nodes, the in node jumping into `c` and past it (past it first when
/// lazy), and `c` jumping to the out node.
pub open spec fn optional(b: Build, c: Ports, lazy: bool) -> (Ports, Build) {
    let n = node_count(b);
    let b1 = two_nodes_added(b);
    let b2 = if lazy { item_added(b1, n, n + 1, TransitionView::Jump) } else { b1 };
    let b3 = item_added(b2, n, c.0, TransitionView::Jump);
    let b4 = item_added(b3, c.1, n + 1, TransitionView::Jump);
    let b5 = if lazy { b4 } else { item_added(b4, n, n + 1, TransitionView::Jump) };
    ((n, n + 1), b5)
}

/// The counter transitions around the component `c`: in, left, right and
/// out nodes; in resets the counter on to left, left saves it into `c`,
/// `c` increments it on to right, and right repeats back to left or checks
/// the count on to out (checks first when lazy).
pub open spec fn repetition(b: Build, c: Ports, rt: RepetitionType, lazy: bool) -> (Ports, Build) {
    let n = node_count(b);
    let b1 = node_added(two_nodes_added(b));
    let b2 = item_added(b1, n, n + 1, TransitionView::CounterReset);
    let b3 = item_added(b2, n + 1, c.0, TransitionView::CounterSave);
    let b4 = item_added(b3, c.1, n + 2, TransitionView::CounterInc);
    let b5 = node_added(b4);
    let b7 = if lazy {
        item_added(
            item_added(b5, n + 2, n + 3, TransitionView::CounterCheck(rt)),
            n + 2,
            n + 1,
            TransitionView::Repetition(rt),
        )
    } else {
        item_added(
            item_added(b5, n + 2, n + 1, TransitionView::Repetition(rt)),
            n + 2,
            n + 3,
            TransitionView::CounterCheck(rt),
        )
    };
    ((n, n + 3), b7)
}

/// Capture group `g` around the component `c`.
pub open spec fn captured(b: Build, c: Ports, g: int) -> (Ports, Build) {
    let n = node_count(b);
    let b1 = two_nodes_added(b);
    let b2 = item_added(b1, n, c.0, TransitionView::CaptureStart(g as usize));
    ((n, n + 1), item_added(b2, c.1, n + 1, TransitionView::CaptureEnd(g as usize)))
}

/// The jumps that join the first `k + 1` components one after another.
pub open spec fn joined_jumps(b: Build, cs: Seq<Ports>, k: int) -> Build
    decreases k,
{
    if k <= 0 {
        b
    } else {
        item_added(joined_jumps(b, cs, k - 1), cs[k - 1].1, cs[k].0, TransitionView::Jump)
    }
}

/// The components joined one after another.
pub open spec fn joined(b: Build, cs: Seq<Ports>) -> (Ports, Build) {
    ((cs[0].0, cs[cs.len() - 1].1), joined_jumps(b, cs, cs.len() - 1))
}

/// The components of a sequence of expressions: nothing for none, the
/// expression itself for one, else the expressions joined.
pub open spec fn sequence(b: Build, cs: Seq<Ports>) -> (Ports, Build) {
    if cs.len() == 0 {
        single(b, TransitionView::Jump)
    } else if cs.len() == 1 {
        (cs[0], b)
    } else {
        joined(b, cs)
    }
}

/// The transition of a preset charset.
pub open spec fn preset_transition(name: PresetCharSetName) -> TransitionView {
    match name {
        PresetCharSetName::CharWord => TransitionView::CharSet(word_items(), false),
        PresetCharSetName::CharNotWord => TransitionView::CharSet(word_items(), true),
        PresetCharSetName::CharSpace => TransitionView::CharSet(space_items(), false),
        PresetCharSetName::CharNotSpace => TransitionView::CharSet(space_items(), true),
        PresetCharSetName::CharDigit => TransitionView::CharSet(digit_items(), false),
        PresetCharSetName::CharNotDigit => TransitionView::CharSet(digit_items(), true),
        PresetCharSetName::CharHex => TransitionView::CharSet(hex_items(), false),
    }
}

/// The first capture group with the given name.
pub open spec fn named_group(names: Seq<Option<Seq<char>>>, name: Seq<char>) -> int {
    choose|i: int|
        0 <= i < names.len() && names[i] == Some(name) && forall|j: int|
            0 <= j < i ==> names[j] != Some(name)
}

/// The graph after compiling `exp` into the current route, and the ports
/// of its component; where compiling fails, what it gives means nothing.
pub open spec fn emitted(exp: Expression, b: Build) -> (Ports, Build)
    decreases exp, 1nat,
{
    match exp {
        Expression::Literal(literal) => match literal {
            Literal::Char(c) => single(b, TransitionView::Char(c as u32, utf8_length(c as u32))),
            Literal::String(s) => single(
                b,
                TransitionView::String(
                    s@.map_values(|c: char| c as u32),
                    vstd::utf8::encode_utf8(s@).len() as usize,
                ),
            ),
            Literal::Special(_) => single(b, TransitionView::SpecialChar),
            Literal::PresetCharSet(name) => single(b, preset_transition(name)),
            Literal::CharSet(cs) => single(b, TransitionView::CharSet(charset_items(cs), cs.negative)),
            Literal::Number(_) => ((0, 0), b),
        },
        Expression::BackReference(BackReference::Index(i)) => single(b, TransitionView::BackReference(i)),
        Expression::BackReference(BackReference::Name(n)) => single(
            b,
            TransitionView::BackReference(named_group(b.names, n@) as usize),
        ),
        Expression::AnchorAssertion(_) => ((0, 0), b),
        Expression::BoundaryAssertion(name) => single(b, TransitionView::BoundaryAssertion(name)),
        Expression::Group(exps) => {
            let (cs, b1) = emitted_items(exps@, exps@.len() as int, b);
            sequence(b1, cs)
        },
        Expression::Or(left, right) => {
            let (lc, b1) = emitted(*left, b);
            let (rc, b2) = emitted(*right, b1);
            let n = node_count(b2);
            let b3 = item_added(two_nodes_added(b2), n, lc.0, TransitionView::Jump);
            let b4 = item_added(b3, n, rc.0, TransitionView::Jump);
            let b5 = item_added(b4, lc.1, n + 1, TransitionView::Jump);
            ((n, n + 1), item_added(b5, rc.1, n + 1, TransitionView::Jump))
        },
        Expression::FunctionCall(call) => emitted_call(*call, b),
    }
}

/// The first `n` expressions compiled one after another: their ports, and
/// the graph after them.
pub open spec fn emitted_items(exps: Seq<Expression>, n: int, b: Build) -> (Seq<Ports>, Build)
    decreases exps, n,
{
    if n <= 0 || n > exps.len() {
        (Seq::empty(), b)
    } else {
        let (cs, b1) = emitted_items(exps, n - 1, b);
        let (c, b2) = emitted(exps[n - 1], b1);
        (cs.push(c), b2)
    }
}

/// Whether a function is the lazy form of a quantifier.
pub open spec fn is_lazy(name: FunctionName) -> bool {
    name == FunctionName::OptionalLazy || name == FunctionName::OneOrMoreLazy || name
        == FunctionName::ZeroOrMoreLazy || name == FunctionName::RepeatRangeLazy || name
        == FunctionName::AtLeastLazy
}

/// The graph after compiling a function call (see `emitted`).
pub open spec fn emitted_call(call: FunctionCall, b: Build) -> (Ports, Build)
    decreases call, 1nat,
{
    if call.args@.len() == 0 {
        ((0, 0), b)
    } else {
        let base = call.args@[0];
        let lazy = is_lazy(call.name);
        match call.name {
            FunctionName::Optional | FunctionName::OptionalLazy => {
                let (c, b1) = emitted(base, b);
                optional(b1, c, lazy)
            },
            FunctionName::OneOrMore | FunctionName::OneOrMoreLazy => {
                let (c, b1) = emitted(base, b);
                repetition(b1, c, RepetitionType::Range(1, usize::MAX), lazy)
            },
            FunctionName::ZeroOrMore | FunctionName::ZeroOrMoreLazy => {
                let (c, b1) = emitted(base, b);
                let (c2, b2) = repetition(b1, c, RepetitionType::Range(1, usize::MAX), lazy);
                optional(b2, c2, lazy)
            },
            FunctionName::Repeat => {
                let times = number_value(call.args@[1]);
                if times == 0 {
                    single(b, TransitionView::Jump)
                } else if times == 1 {
                    emitted(base, b)
                } else {
                    let (c, b1) = emitted(base, b);
                    repetition(b1, c, RepetitionType::Specified(times as usize), true)
                }
            },
            FunctionName::RepeatRange | FunctionName::RepeatRangeLazy => {
                let from = number_value(call.args@[1]);
                let to = number_value(call.args@[2]);
                if from == 0 {
                    if to == 0 {
                        single(b, TransitionView::Jump)
                    } else if to == 1 {
                        let (c, b1) = emitted(base, b);
                        optional(b1, c, lazy)
                    } else {
                        let (c, b1) = emitted(base, b);
                        let (c2, b2) = repetition(b1, c, RepetitionType::Range(1, to as usize), lazy);
                        optional(b2, c2, lazy)
                    }
                } else if to == 1 {
                    emitted(base, b)
                } else {
                    let (c, b1) = emitted(base, b);
                    if from == to {
                        repetition(b1, c, RepetitionType::Specified(from as usize), true)
                    } else {
                        repetition(b1, c, RepetitionType::Range(from as usize, to as usize), lazy)
                    }
                }
            },
            FunctionName::AtLeast | FunctionName::AtLeastLazy => {
                let from = number_value(call.args@[1]);
                let (c, b1) = emitted(base, b);
                if from == 0 {
                    let (c2, b2) = repetition(b1, c, RepetitionType::Range(1, usize::MAX), lazy);
                    optional(b2, c2, lazy)
                } else {
                    repetition(b1, c, RepetitionType::Range(from as usize, usize::MAX), lazy)
                }
            },
            FunctionName::IsBefore | FunctionName::IsNotBefore => if call.args@.len() != 2 {
                ((0, 0), b)
            } else {
                let negative = call.name == FunctionName::IsNotBefore;
                let (c, b1) = emitted(base, b);
                let b2 = route_opened(b1);
                let (sc, b3) = emitted(call.args@[1], b2);
                let b4 = route_closed(b3, b1.current, sc);
                let n = node_count(b4);
                let b5 = item_added(two_nodes_added(b4), n, c.0, TransitionView::Jump);
                (
                    (n, n + 1),
                    item_added(
                        b5,
                        c.1,
                        n + 1,
                        TransitionView::LookAheadAssertion(b2.current as usize, negative),
                    ),
                )
            },
            FunctionName::IsAfter | FunctionName::IsNotAfter => if call.args@.len() != 2 {
                ((0, 0), b)
            } else {
                let negative = call.name == FunctionName::IsNotAfter;
                let length = match_length(call.args@[1]).unwrap();
                let b2 = route_opened(b);
                let (sc, b3) = emitted(call.args@[1], b2);
                let b4 = route_closed(b3, b.current, sc);
                let (c, b5) = emitted(base, b4);
                let n = node_count(b5);
                let b6 = item_added(
                    two_nodes_added(b5),
                    n,
                    c.0,
                    TransitionView::LookBehindAssertion(b2.current as usize, negative, length as usize),
                );
                ((n, n + 1), item_added(b6, c.1, n + 1, TransitionView::Jump))
            },
            FunctionName::Name => {
                let g = b.names.len() as int;
                let name = match call.args@[1] {
                    Expression::Literal(Literal::String(s)) => s@,
                    _ => Seq::empty(),
                };
                let (c, b1) = emitted(base, group_added(b, Some(name)));
                captured(b1, c, g)
            },
            FunctionName::Index => {
                let g = b.names.len() as int;
                let (c, b1) = emitted(base, group_added(b, None));
                captured(b1, c, g)
            },
        }
    }
}

/// The components of the first `n` expressions of a program; the `start`
/// and `end` anchors compile to their assertions.
pub open spec fn program_items(exps: Seq<Expression>, n: int, b: Build) -> (Seq<Ports>, Build)
    decreases n,
{
    if n <= 0 || n > exps.len() {
        (Seq::empty(), b)
    } else {
        let (cs, b1) = program_items(exps, n - 1, b);
        let (c, b2) = match exps[n - 1] {
            Expression::AnchorAssertion(name) => single(b1, TransitionView::AnchorAssertion(name)),
            e => emitted(e, b1),
        };
        (cs.push(c), b2)
    }
}

/// The graph before compiling: the main route, empty, and capture group 0.
pub open spec fn initial_build() -> Build {
    Build {
        routes: seq![RouteView { nodes: Seq::empty(), start: 0, end: 0, fixed: false }],
        names: seq![None],
        current: 0,
    }
}

/// The routes of the object file that compiling `program` makes: its
/// expressions one after another in the main route, between a transition
/// that opens capture group 0 at the entry and one that closes it at the
/// exit; the sub-routes of look-around assertions follow the main route in
/// the order they are compiled.
pub open spec fn program_routes(program: Program) -> Seq<RouteView> {
    let exps = program.expressions@;
    let (cs, b1) = program_items(exps, exps.len() as int, initial_build());
    let (pc, b2) = sequence(b1, cs);
    let n = node_count(b2);
    let b3 = item_added(two_nodes_added(b2), n, pc.0, TransitionView::CaptureStart(0));
    let b4 = item_added(b3, pc.1, n + 1, TransitionView::CaptureEnd(0));
    let fixed = exps.len() > 0 && exps[0] == Expression::AnchorAssertion(AnchorAssertionName::Start);
    b4.routes.update(0, RouteView { start: n as usize, end: (n + 1) as usize, fixed, ..b4.routes[0] })
}

/// A repetition of at least zero times compiles exactly as `zero_or_more`
/// does, and so it may repeat nothing: when its base leaves a current route
/// and exits at one of its nodes, the component's in node jumps straight to
/// its out node.
pub proof fn lemma_at_least_zero_is_zero_or_more(call: FunctionCall, other: FunctionCall, b: Build)
    requires
        call.name == FunctionName::AtLeast || call.name == FunctionName::AtLeastLazy,
        call.args@.len() >= 2,
        number_value(call.args@[1]) == 0,
        other.name == (if call.name == FunctionName::AtLeast {
            FunctionName::ZeroOrMore
        } else {
            FunctionName::ZeroOrMoreLazy
        }),
        other.args@.len() >= 1,
        other.args@[0] == call.args@[0],
    ensures
        emitted_call(call, b) == emitted_call(other, b),
        ({
            let (c, b1) = emitted(call.args@[0], b);
            let (ports, b2) = emitted_call(call, b);
            0 <= b1.current < b1.routes.len() && 0 <= c.1 < node_count(b1) ==> b2.routes[b2.current].nodes[ports.0].contains(
                (TransitionView::Jump, ports.1 as usize),
            )
        }),
{
    let base = call.args@[0];
    let lazy = is_lazy(call.name);
    let (c, b1) = emitted(base, b);
    if 0 <= b1.current < b1.routes.len() && 0 <= c.1 < node_count(b1) {
        let m = node_count(b1);
        let rt = RepetitionType::Range(1, usize::MAX);
        let r1 = node_added(two_nodes_added(b1));
        assert(r1.current == b1.current && node_count(r1) == m + 3);
        let r2 = item_added(r1, m, m + 1, TransitionView::CounterReset);
        assert(node_count(r2) == m + 3);
        let r3 = item_added(r2, m + 1, c.0, TransitionView::CounterSave);
        assert(node_count(r3) == m + 3);
        let r4 = item_added(r3, c.1, m + 2, TransitionView::CounterInc);
        assert(node_count(r4) == m + 3);
        let r5 = node_added(r4);
        assert(node_count(r5) == m + 4);
        let r6 = if lazy {
            item_added(item_added(r5, m + 2, m + 3, TransitionView::CounterCheck(rt)), m + 2, m + 1, TransitionView::Repetition(rt))
        } else {
            item_added(item_added(r5, m + 2, m + 1, TransitionView::Repetition(rt)), m + 2, m + 3, TransitionView::CounterCheck(rt))
        };
        assert(repetition(b1, c, rt, lazy) == ((m, m + 3), r6));
        let (c2, b2) = repetition(b1, c, rt, lazy);
        assert(c2 == (m, m + 3));
        assert(b2.current == b1.current && b2.routes.len() == b1.routes.len());
        assert(node_count(b2) == m + 4);
        let n = m + 4;
        let a1 = two_nodes_added(b2);
        assert(a1.current == b1.current && node_count(a1) == n + 2);
        let a2 = if lazy { item_added(a1, n, n + 1, TransitionView::Jump) } else { a1 };
        let a3 = item_added(a2, n, c2.0, TransitionView::Jump);
        let a4 = item_added(a3, c2.1, n + 1, TransitionView::Jump);
        let a5 = if lazy { a4 } else { item_added(a4, n, n + 1, TransitionView::Jump) };
        assert(optional(b2, c2, lazy) == ((n, n + 1), a5));
        let cur = b1.current;
        let jump = (TransitionView::Jump, (n + 1) as usize);
        if lazy {
            assert(a2.routes[cur].nodes[n].last() == jump);
            assert(a3.routes[cur].nodes[n][0] == jump);
            assert(a4.routes[cur].nodes[n] == a3.routes[cur].nodes[n]);
            assert(a5.routes[cur].nodes[n][0] == jump);
        } else {
            assert(a5.routes[cur].nodes[n].last() == jump);
        }
    }
}

} // verus!
