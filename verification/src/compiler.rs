use vstd::prelude::*;

use crate::ast::{
    AnchorAssertionName, BackReference, BoundaryAssertionName, CharRange, CharSet,
    CharSetElement, Expression, FunctionCall, FunctionName, Literal, PresetCharSetName, Program,
};
use crate::graph::{
    captured, emitted, emitted_call, emitted_items, group_added, initial_build, item_added, joined,
    joined_jumps, named_group, node_added, node_count, optional, preset_transition, program_items,
    program_routes, repetition, route_closed, route_opened, sequence, single, two_nodes_added,
    Build, Ports,
};
use crate::object_file::{
    group_zero_frames_main, items_view, route_view, routes_view, transition_view, transition_wf,
    writes_group_zero, ObjectFile, Route, RouteView, TransitionItem, TransitionView,
};
use crate::rulechecker::{length_computable, match_length, try_get_match_length, MatchLength};
use crate::transition::{
    add_char, add_preset_digit, add_preset_space, add_preset_word, add_range,
    AnchorAssertionTransition, BackReferenceTransition, BoundaryAssertionTransition,
    CaptureEndTransition, CaptureStartTransition, CharSetItem, CharSetTransition, CharTransition,
    CounterCheckTransition, CounterIncTransition, CounterResetTransition, CounterSaveTransition,
    JumpTransition, LookAheadAssertionTransition, LookBehindAssertionTransition,
    RepetitionTransition, RepetitionType, SpecialCharTransition, StringTransition, Transition,
};
use crate::traditional::lexer::error_matches;
use crate::traditional::parser::{parse_from_str, spec_parse};
use crate::AnreError;

verus! {

/// An optional name as a character sequence.
pub open spec fn name_view(o: Option<String>) -> Option<Seq<char>> {
    match o {
        Some(s) => Some(s@),
        None => None,
    }
}

/// The names of the capture groups of an object file, as character sequences.
pub open spec fn names_view(names: Seq<Option<String>>) -> Seq<Option<Seq<char>>> {
    names.map_values(|o: Option<String>| name_view(o))
}

/// Whether a group with the name `n` has been defined.
pub open spec fn name_defined(names: Seq<Option<Seq<char>>>, n: Seq<char>) -> bool {
    exists|j: int| 0 <= j < names.len() && names[j] == Some(n)
}

/// Whether a preset charset may stand inside a charset: only the positive
/// `char_word`, `char_space` and `char_digit` may.
pub open spec fn preset_allowed_in_charset(name: PresetCharSetName) -> bool {
    name == PresetCharSetName::CharWord || name == PresetCharSetName::CharSpace || name
        == PresetCharSetName::CharDigit
}

/// Whether a charset compiles: its preset charsets are positive, and its
/// nested charsets are positive and compile too.
pub open spec fn charset_ok(cs: CharSet) -> bool
    decreases cs, 0nat,
{
    charset_elements_ok(cs.elements@, cs.elements@.len() as int)
}

/// Whether the first `n` elements of a charset compile.
pub open spec fn charset_elements_ok(els: Seq<CharSetElement>, n: int) -> bool
    decreases els, n,
{
    if n <= 0 || n > els.len() {
        true
    } else {
        &&& charset_elements_ok(els, n - 1)
        &&& match els[n - 1] {
            CharSetElement::PresetCharSet(name) => preset_allowed_in_charset(name),
            CharSetElement::CharSet(nested) => !nested.negative && charset_ok(*nested),
            _ => true,
        }
    }
}

/// Whether an argument is a number literal.
pub open spec fn is_number(exp: Expression) -> bool {
    exp matches Expression::Literal(Literal::Number(_))
}

/// The value of a number literal.
pub open spec fn number_value(exp: Expression) -> int {
    match exp {
        Expression::Literal(Literal::Number(n)) => n as int,
        _ => 0,
    }
}

/// Compiles `exp` after the capture groups `names`: `None` when compiling
/// fails, else the capture group names after it. Expressions are compiled
/// from left to right, except that a look-behind compiles the pattern it
/// looks for before its base expression, and a capture group is created
/// before its content is compiled.
pub open spec fn compile_exp(exp: Expression, names: Seq<Option<Seq<char>>>) -> Option<
    Seq<Option<Seq<char>>>,
>
    decreases exp, 0nat,
{
    match exp {
        Expression::Literal(literal) => match literal {
            Literal::Number(_) => None,
            Literal::CharSet(cs) => if charset_ok(cs) {
                Some(names)
            } else {
                None
            },
            _ => Some(names),
        },
        Expression::BackReference(BackReference::Index(i)) => if i < names.len() {
            Some(names)
        } else {
            None
        },
        Expression::BackReference(BackReference::Name(n)) => if name_defined(names, n@) {
            Some(names)
        } else {
            None
        },
        Expression::AnchorAssertion(_) => None,
        Expression::BoundaryAssertion(_) => Some(names),
        Expression::Group(exps) => compile_seq(exps@, exps@.len() as int, names),
        Expression::Or(left, right) => match compile_exp(*left, names) {
            Some(n1) => compile_exp(*right, n1),
            None => None,
        },
        Expression::FunctionCall(call) => compile_call(*call, names),
    }
}

/// Compiles a function call after the capture groups `names` (see `compile_exp`).
pub open spec fn compile_call(call: FunctionCall, names: Seq<Option<Seq<char>>>) -> Option<
    Seq<Option<Seq<char>>>,
>
    decreases call, 0nat,
{
    if call.args@.len() == 0 {
        None
    } else {
        let base = call.args@[0];
        match call.name {
            FunctionName::Optional | FunctionName::OptionalLazy | FunctionName::OneOrMore
            | FunctionName::OneOrMoreLazy | FunctionName::ZeroOrMore
            | FunctionName::ZeroOrMoreLazy => compile_exp(base, names),
            FunctionName::Repeat => if call.args@.len() < 2 || !is_number(call.args@[1]) {
                None
            } else if number_value(call.args@[1]) == 0 {
                Some(names)
            } else {
                compile_exp(base, names)
            },
            FunctionName::RepeatRange | FunctionName::RepeatRangeLazy => if call.args@.len()
                < 3 || !is_number(call.args@[1]) || !is_number(call.args@[2]) {
                None
            } else if number_value(call.args@[1]) > number_value(call.args@[2]) {
                None
            } else if number_value(call.args@[1]) == 0 && number_value(call.args@[2]) == 0 {
                Some(names)
            } else {
                compile_exp(base, names)
            },
            FunctionName::AtLeast | FunctionName::AtLeastLazy => if call.args@.len() < 2
                || !is_number(call.args@[1]) {
                None
            } else {
                compile_exp(base, names)
            },
            FunctionName::IsBefore | FunctionName::IsNotBefore => if call.args@.len() != 2 {
                None
            } else {
                match compile_exp(base, names) {
                    Some(n1) => compile_exp(call.args@[1], n1),
                    None => None,
                }
            },
            FunctionName::IsAfter | FunctionName::IsNotAfter => if call.args@.len() != 2 {
                None
            } else if !length_computable(call.args@[1]) || match_length(call.args@[1]) is None {
                None
            } else {
                match compile_exp(call.args@[1], names) {
                    Some(n1) => compile_exp(base, n1),
                    None => None,
                }
            },
            FunctionName::Name => if call.args@.len() < 2 || !(call.args@[1] matches Expression::Literal(Literal::String(_))) {
                None
            } else {
                match call.args@[1] {
                    Expression::Literal(Literal::String(s)) => compile_exp(base, names.push(Some(s@))),
                    _ => None,
                }
            },
            FunctionName::Index => compile_exp(base, names.push(None)),
        }
    }
}

/// Compiles the first `n` expressions of a sequence, one after another.
pub open spec fn compile_seq(exps: Seq<Expression>, n: int, names: Seq<Option<Seq<char>>>) -> Option<
    Seq<Option<Seq<char>>>,
>
    decreases exps, n,
{
    if n <= 0 || n > exps.len() {
        Some(names)
    } else {
        match compile_seq(exps, n - 1, names) {
            Some(n1) => compile_exp(exps[n - 1], n1),
            None => None,
        }
    }
}

/// Compiles the first `n` top-level expressions of a program of `total`
/// expressions: `start` may only stand first and `end` only last.
pub open spec fn compile_program_seq(
    exps: Seq<Expression>,
    n: int,
    names: Seq<Option<Seq<char>>>,
) -> Option<Seq<Option<Seq<char>>>>
    decreases n,
{
    if n <= 0 || n > exps.len() {
        Some(names)
    } else {
        match compile_program_seq(exps, n - 1, names) {
            Some(n1) => match exps[n - 1] {
                Expression::AnchorAssertion(AnchorAssertionName::Start) => if n - 1 == 0 {
                    Some(n1)
                } else {
                    None
                },
                Expression::AnchorAssertion(AnchorAssertionName::End) => if n - 1 == exps.len() - 1 {
                    Some(n1)
                } else {
                    None
                },
                e => compile_exp(e, n1),
            },
            None => None,
        }
    }
}

/// Compiles a program: `None` when it does not compile, else the names of
/// its capture groups, group 0 (the whole match) first and without a name.
pub open spec fn compile_program(program: Program) -> Option<Seq<Option<Seq<char>>>> {
    compile_program_seq(
        program.expressions@,
        program.expressions@.len() as int,
        seq![None::<Seq<char>>],
    )
}


/// The items that a charset adds to a charset transition.
pub open spec fn charset_items(cs: CharSet) -> Seq<CharSetItem>
    decreases cs, 0nat,
{
    charset_elements_items(cs.elements@, cs.elements@.len() as int)
}

/// The items added by the first `n` elements of a charset.
pub open spec fn charset_elements_items(els: Seq<CharSetElement>, n: int) -> Seq<CharSetItem>
    decreases els, n,
{
    if n <= 0 || n > els.len() {
        Seq::empty()
    } else {
        charset_elements_items(els, n - 1) + match els[n - 1] {
            CharSetElement::Char(c) => seq![CharSetItem::Char(c as u32)],
            CharSetElement::CharRange(r) => seq![
                CharSetItem::Range(
                    crate::transition::CharRange {
                        start: r.start as u32,
                        end_included: r.end_included as u32,
                    },
                ),
            ],
            CharSetElement::PresetCharSet(name) => preset_items(name),
            CharSetElement::CharSet(nested) => charset_items(*nested),
        }
    }
}

/// The items of a positive preset charset.
pub open spec fn preset_items(name: PresetCharSetName) -> Seq<CharSetItem> {
    match name {
        PresetCharSetName::CharWord => crate::transition::word_items(),
        PresetCharSetName::CharSpace => crate::transition::space_items(),
        PresetCharSetName::CharDigit => crate::transition::digit_items(),
        _ => Seq::empty(),
    }
}

/// A pair of nodes of the current route: where a compiled expression is
/// entered and where it is left.
struct Component {
    in_node_index: usize,
    out_node_index: usize,
}

spec fn ports(c: Component) -> Ports {
    (c.in_node_index as int, c.out_node_index as int)
}

spec fn ports_of(cs: Seq<Component>) -> Seq<Ports> {
    cs.map_values(|c: Component| ports(c))
}

/// Compiles a syntax tree into an object file.
pub struct Compiler {
    object_file: ObjectFile,
    /// The route that nodes and transitions are added to.
    current_route_index: usize,
}

impl Compiler {
    /// Every route has well-formed edges and leaves capture group 0 (the
    /// whole match) alone, group 0 exists, and every route after the current
    /// one is complete (its entry and exit are set).
    pub closed spec fn inv(self) -> bool {
        let routes = self.object_file.routes@;
        let l = routes.len() as int;
        let g = self.object_file.capture_group_names@.len() as int;
        &&& l > 0
        &&& g > 0
        &&& self.current_route_index < l
        &&& forall|i: int| #![trigger routes[i]] 0 <= i < l ==> routes[i].edges_wf(i, l, g)
        &&& forall|i: int| #![trigger routes[i]] 0 <= i < l ==> routes[i].leaves_group_zero()
        &&& forall|i: int|
            #![trigger routes[i]]
            self.current_route_index < i < l ==> routes[i].ports_wf()
    }

    /// The names of the capture groups created so far.
    pub closed spec fn names(self) -> Seq<Option<Seq<char>>> {
        names_view(self.object_file.capture_group_names@)
    }

    /// The graph built so far.
    pub closed spec fn build(self) -> Build {
        Build {
            routes: routes_view(self.object_file.routes@),
            names: self.names(),
            current: self.current_route_index as int,
        }
    }

    spec fn current_route(self) -> Route {
        self.object_file.routes@[self.current_route_index as int]
    }

    spec fn node_count(self) -> int {
        self.object_file.routes@[self.current_route_index as int].nodes@.len() as int
    }

    spec fn component_valid(self, c: Component) -> bool {
        &&& c.in_node_index < self.node_count()
        &&& c.out_node_index < self.node_count()
    }

    /// What every step of the compilation keeps: the invariant, the current
    /// route, the routes that exist (growing), the nodes of the current route
    /// (growing), and the other routes that existed, unchanged.
    spec fn extends(self, old: Compiler) -> bool {
        &&& self.inv()
        &&& self.current_route_index == old.current_route_index
        &&& self.object_file.routes@.len() >= old.object_file.routes@.len()
        &&& self.object_file.capture_group_names@.len() >= old.object_file.capture_group_names@.len()
        &&& self.node_count() >= old.node_count()
        &&& forall|i: int|
            #![trigger self.object_file.routes@[i]]
            0 <= i < old.object_file.routes@.len() && i != old.current_route_index
                ==> self.object_file.routes@[i] == old.object_file.routes@[i]
    }

    proof fn lemma_extends_trans(a: Compiler, b: Compiler, c: Compiler)
        requires
            b.extends(a),
            c.extends(b),
        ensures
            c.extends(a),
    {
    }

    proof fn lemma_extends_refl(a: Compiler)
        requires
            a.inv(),
        ensures
            a.extends(a),
    {
    }

    /// A compiler with the main route, empty, and capture group 0, which
    /// stands for the whole match.
    fn new() -> (r: Compiler)
        ensures
            r.inv(),
            r.current_route_index == 0,
            r.names() == seq![None::<Seq<char>>],
            r.object_file.routes@.len() == 1,
            r.node_count() == 0,
            r.build() == initial_build(),
    {
        let mut object_file = ObjectFile::new();
        let current_route_index = object_file.create_route();
        object_file.create_capture_group(None);
        let r = Compiler { object_file, current_route_index };
        proof {
            assert(r.names() =~= seq![None::<Seq<char>>]);
            assert(r.object_file.routes@[0].nodes@.len() == 0);
            assert(route_view(r.object_file.routes@[0]).nodes =~= Seq::empty());
            assert(routes_view(r.object_file.routes@) =~= initial_build().routes);
        }
        r
    }

    /// Adds a node to the current route.
    fn new_node(&mut self) -> (r: usize)
        requires
            old(self).inv(),
        ensures
            final(self).extends(*old(self)),
            final(self).names() == old(self).names(),
            final(self).object_file.routes@.len() == old(self).object_file.routes@.len(),
            final(self).object_file.capture_group_names@ == old(self).object_file.capture_group_names@,
            r == old(self).node_count(),
            final(self).node_count() == old(self).node_count() + 1,
            final(self).current_route().nodes@[r as int].transition_items@.len() == 0,
            forall|i: int| 0 <= i < r ==> final(self).current_route().nodes@[i] == old(self).current_route().nodes@[i],
            final(self).build() == node_added(old(self).build()),
            r as int == node_count(old(self).build()),
    {
        let r = self.object_file.create_node_in_route(self.current_route_index);
        proof {
            let c = self.current_route_index as int;
            let ob = old(self).build();
            let o_route = old(self).object_file.routes@[c];
            let n_route = self.object_file.routes@[c];
            assert(route_view(n_route).nodes =~= route_view(o_route).nodes.push(Seq::empty())) by {
                assert forall|i: int| 0 <= i < route_view(n_route).nodes.len() implies #[trigger] route_view(
                    n_route,
                ).nodes[i] == route_view(o_route).nodes.push(Seq::empty())[i] by {
                    if i < r {
                        assert(n_route.nodes@[i] == o_route.nodes@[i]);
                    } else {
                        assert(items_view(n_route.nodes@[i].transition_items@) =~= Seq::empty());
                    }
                }
            }
            assert(routes_view(self.object_file.routes@) =~= ob.routes.update(
                c,
                RouteView { nodes: ob.routes[c].nodes.push(Seq::empty()), ..ob.routes[c] },
            )) by {
                assert forall|i: int| 0 <= i < self.object_file.routes@.len() && i != c implies
                    #[trigger] self.object_file.routes@[i] == old(self).object_file.routes@[i] by {}
            }
            assert(self.names() == old(self).names());
        }
        proof {
            let routes = self.object_file.routes@;
            let l = routes.len() as int;
            let g = self.object_file.capture_group_names@.len() as int;
            assert(old(self).object_file.routes@[old(self).current_route_index as int].edges_wf(
                old(self).current_route_index as int, l, g));
            assert forall|i: int| #![trigger routes[i]] 0 <= i < l implies routes[i].edges_wf(i, l, g) by {
                if i != self.current_route_index {
                    assert(routes[i] == old(self).object_file.routes@[i]);
                }
            }
            assert forall|i: int| #![trigger routes[i]] 0 <= i < l implies routes[i].leaves_group_zero() by {
                if i != self.current_route_index {
                    assert(routes[i] == old(self).object_file.routes@[i]);
                } else {
                    let old_route = old(self).object_file.routes@[i];
                    assert(old_route.leaves_group_zero());
                    assert forall|a: int, b: int|
                        #![trigger routes[i].nodes@[a].transition_items@[b]]
                        0 <= a < routes[i].nodes@.len() && 0 <= b
                            < routes[i].nodes@[a].transition_items@.len() implies !writes_group_zero(
                        routes[i].nodes@[a].transition_items@[b].transition,
                    ) by {
                        assert(a < r);
                        assert(routes[i].nodes@[a] == old_route.nodes@[a]);
                    }
                }
            }
            assert forall|i: int|
                #![trigger routes[i]]
                self.current_route_index < i < l implies routes[i].ports_wf() by {
                assert(routes[i] == old(self).object_file.routes@[i]);
            }
        }
        r
    }

    /// Adds a transition to the current route.
    fn add_transition(&mut self, source: usize, target: usize, transition: Transition)
        requires
            old(self).inv(),
            source < old(self).node_count(),
            target < old(self).node_count(),
            transition_wf(
                transition,
                old(self).current_route_index as int,
                old(self).object_file.routes@.len() as int,
                old(self).object_file.capture_group_names@.len() as int,
            ),
            !writes_group_zero(transition),
        ensures
            final(self).extends(*old(self)),
            final(self).names() == old(self).names(),
            final(self).object_file.routes@.len() == old(self).object_file.routes@.len(),
            final(self).object_file.capture_group_names@ == old(self).object_file.capture_group_names@,
            final(self).node_count() == old(self).node_count(),
            final(self).build() == item_added(old(self).build(), source as int, target as int, transition_view(transition)),
    {
        let ghost tv = transition_view(transition);
        let ghost t = transition;
        self.object_file.create_transition_item_in_route(
            self.current_route_index,
            source,
            target,
            transition,
        );
        proof {
            let c = self.current_route_index as int;
            let ob = old(self).build();
            let o_route = old(self).object_file.routes@[c];
            let n_route = self.object_file.routes@[c];
            let s = source as int;
            assert(items_view(n_route.nodes@[s].transition_items@) =~= items_view(
                o_route.nodes@[s].transition_items@,
            ).push((tv, target)));
            assert(route_view(n_route).nodes =~= route_view(o_route).nodes.update(
                s,
                route_view(o_route).nodes[s].push((tv, target)),
            )) by {
                assert forall|i: int| 0 <= i < route_view(n_route).nodes.len() && i != s implies
                    #[trigger] n_route.nodes@[i] == o_route.nodes@[i] by {}
            }
            assert(routes_view(self.object_file.routes@) =~= ob.routes.update(
                c,
                RouteView {
                    nodes: ob.routes[c].nodes.update(s, ob.routes[c].nodes[s].push((tv, target as int as usize))),
                    ..ob.routes[c]
                },
            )) by {
                assert forall|i: int| 0 <= i < self.object_file.routes@.len() && i != c implies
                    #[trigger] self.object_file.routes@[i] == old(self).object_file.routes@[i] by {}
            }
            assert(self.names() == old(self).names());
        }
        proof {
            let routes = self.object_file.routes@;
            let l = routes.len() as int;
            let g = self.object_file.capture_group_names@.len() as int;
            assert(old(self).object_file.routes@[old(self).current_route_index as int].edges_wf(
                old(self).current_route_index as int, l, g));
            assert forall|i: int| #![trigger routes[i]] 0 <= i < l implies routes[i].edges_wf(i, l, g) by {
                if i != self.current_route_index {
                    assert(routes[i] == old(self).object_file.routes@[i]);
                }
            }
            assert forall|i: int| #![trigger routes[i]] 0 <= i < l implies routes[i].leaves_group_zero() by {
                if i != self.current_route_index {
                    assert(routes[i] == old(self).object_file.routes@[i]);
                } else {
                    let old_route = old(self).object_file.routes@[i];
                    assert(old_route.leaves_group_zero());
                    assert forall|a: int, b: int|
                        #![trigger routes[i].nodes@[a].transition_items@[b]]
                        0 <= a < routes[i].nodes@.len() && 0 <= b
                            < routes[i].nodes@[a].transition_items@.len() implies !writes_group_zero(
                        routes[i].nodes@[a].transition_items@[b].transition,
                    ) by {
                        if a != source {
                            assert(routes[i].nodes@[a] == old_route.nodes@[a]);
                        } else if b < old_route.nodes@[a].transition_items@.len() {
                            assert(routes[i].nodes@[a].transition_items@[b]
                                == old_route.nodes@[a].transition_items@[b]);
                        }
                    }
                }
            }
            assert forall|i: int|
                #![trigger routes[i]]
                self.current_route_index < i < l implies routes[i].ports_wf() by {
                assert(routes[i] == old(self).object_file.routes@[i]);
            }
        }
    }

    /// Adds a capture group, with an optional name.
    fn new_capture_group(&mut self, name: Option<String>) -> (r: usize)
        requires
            old(self).inv(),
        ensures
            final(self).extends(*old(self)),
            final(self).names() == old(self).names().push(name_view(name)),
            final(self).object_file.routes@ == old(self).object_file.routes@,
            final(self).node_count() == old(self).node_count(),
            r == old(self).object_file.capture_group_names@.len(),
            final(self).object_file.capture_group_names@.len() == r + 1,
            final(self).build() == group_added(old(self).build(), name_view(name)),
            r as int == old(self).build().names.len(),
    {
        let ghost view_of_name = name_view(name);
        let r = self.object_file.create_capture_group(name);
        proof {
            let routes = self.object_file.routes@;
            let l = routes.len() as int;
            let g = self.object_file.capture_group_names@.len() as int;
            assert forall|i: int| #![trigger routes[i]] 0 <= i < l implies routes[i].edges_wf(i, l, g) by {
                crate::object_file::lemma_edges_wf_grow(routes[i], i, l, g - 1, l, g);
            }
            assert forall|i: int| #![trigger routes[i]] 0 <= i < l implies routes[i].leaves_group_zero() by {
                assert(routes[i] == old(self).object_file.routes@[i]);
            }
            assert(self.names() =~= old(self).names().push(view_of_name));
        }
        r
    }

    /// A component made of two new nodes joined by one transition.
    fn emit_single(&mut self, transition: Transition) -> (r: Component)
        requires
            old(self).inv(),
            transition_wf(
                transition,
                old(self).current_route_index as int,
                old(self).object_file.routes@.len() as int,
                old(self).object_file.capture_group_names@.len() as int,
            ),
            !writes_group_zero(transition),
        ensures
            final(self).extends(*old(self)),
            final(self).names() == old(self).names(),
            final(self).component_valid(r),
            (ports(r), final(self).build()) == single(old(self).build(), transition_view(transition)),
    {
        let in_node_index = self.new_node();
        let out_node_index = self.new_node();
        self.add_transition(in_node_index, out_node_index, transition);
        Component { in_node_index, out_node_index }
    }

    /// A component that matches the empty text.
    fn emit_empty(&mut self) -> (r: Component)
        requires
            old(self).inv(),
        ensures
            final(self).extends(*old(self)),
            final(self).names() == old(self).names(),
            final(self).component_valid(r),
            (ports(r), final(self).build()) == single(old(self).build(), TransitionView::Jump),
    {
        self.emit_single(Transition::Jump(JumpTransition))
    }
}

fn syntax_error(message: &str) -> (r: AnreError)
    ensures
        r is SyntaxIncorrect,
        r matches AnreError::SyntaxIncorrect(m) && m@ == message@,
{
    AnreError::SyntaxIncorrect(message.to_owned())
}

/// Appends the items of a charset's elements to `items`; fails on a negative
/// preset charset or a negative nested charset.
fn append_charset(charset: &CharSet, items: &mut Vec<CharSetItem>) -> (r: Result<(), AnreError>)
    ensures
        r is Ok <==> charset_ok(*charset),
        r is Ok ==> final(items)@ == old(items)@ + charset_items(*charset),
        r matches Err(e) ==> e is SyntaxIncorrect,
    decreases charset,
{
    let mut i: usize = 0;
    while i < charset.elements.len()
        invariant
            i <= charset.elements@.len(),
            charset_elements_ok(charset.elements@, i as int),
            items@ == old(items)@ + charset_elements_items(charset.elements@, i as int),
        decreases charset.elements@.len() - i,
    {
        let ghost before = items@;
        match &charset.elements[i] {
            CharSetElement::Char(c) => add_char(items, *c),
            CharSetElement::CharRange(range) => add_range(items, range.start, range.end_included),
            CharSetElement::PresetCharSet(name) => {
                match name {
                    PresetCharSetName::CharWord => add_preset_word(items),
                    PresetCharSetName::CharSpace => add_preset_space(items),
                    PresetCharSetName::CharDigit => add_preset_digit(items),
                    _ => {
                        proof {
                            if charset_elements_ok(charset.elements@, charset.elements@.len() as int) {
                                lemma_charset_elements_prefix(charset.elements@, charset.elements@.len() as int, i + 1);
                            }
                        }
                        return Err(
                            syntax_error("Can not append negative preset charset into charset."),
                        );
                    },
                }
            },
            CharSetElement::CharSet(custom_charset) => {
                if custom_charset.negative {
                    proof {
                        if charset_elements_ok(charset.elements@, charset.elements@.len() as int) {
                                lemma_charset_elements_prefix(charset.elements@, charset.elements@.len() as int, i + 1);
                            }
                    }
                    return Err(syntax_error("Only positive charsets can be nested."));
                }
                match append_charset(custom_charset, items) {
                    Ok(()) => {},
                    Err(e) => {
                        proof {
                            if charset_elements_ok(charset.elements@, charset.elements@.len() as int) {
                                lemma_charset_elements_prefix(charset.elements@, charset.elements@.len() as int, i + 1);
                            }
                        }
                        return Err(e);
                    },
                }
            },
        }
        proof {
            assert(items@ =~= old(items)@ + charset_elements_items(charset.elements@, i + 1));
        }
        i = i + 1;
    }
    Ok(())
}

/// A charset whose elements all compile has prefixes that compile.
proof fn lemma_charset_elements_prefix(els: Seq<CharSetElement>, n: int, m: int)
    requires
        charset_elements_ok(els, n),
        0 <= m <= n <= els.len(),
    ensures
        charset_elements_ok(els, m),
    decreases n - m,
{
    if m < n {
        lemma_charset_elements_prefix(els, n - 1, m);
    }
}


impl Compiler {
    /// Whether a step that compiled `spec_result` ended as it should: the
    /// compiler extended, `Ok` exactly when the specification succeeds, with
    /// its capture groups and a component of the current route.
    spec fn emit_post(
        self,
        old: Compiler,
        r: Result<Component, AnreError>,
        spec_result: Option<Seq<Option<Seq<char>>>>,
    ) -> bool {
        &&& (r is Ok ==> self.extends(old))
        &&& (r is Ok <==> spec_result is Some)
        &&& (r matches Ok(c) ==> self.names() == spec_result.unwrap() && self.component_valid(c))
        &&& (r matches Err(e) ==> e is SyntaxIncorrect)
    }

    /// Adds jumps around a component so that it may be skipped: first into
    /// the component and then past it when greedy, the other way round when lazy.
    fn continue_emit_optional(&mut self, component: Component, is_lazy: bool) -> (r: Component)
        requires
            old(self).inv(),
            old(self).component_valid(component),
        ensures
            final(self).extends(*old(self)),
            final(self).names() == old(self).names(),
            final(self).component_valid(r),
            (ports(r), final(self).build()) == optional(old(self).build(), ports(component), is_lazy),
    {
        let in_node_index = self.new_node();
        let out_node_index = self.new_node();
        if is_lazy {
            self.add_transition(in_node_index, out_node_index, Transition::Jump(JumpTransition));
        }
        self.add_transition(
            in_node_index,
            component.in_node_index,
            Transition::Jump(JumpTransition),
        );
        self.add_transition(
            component.out_node_index,
            out_node_index,
            Transition::Jump(JumpTransition),
        );
        if !is_lazy {
            self.add_transition(in_node_index, out_node_index, Transition::Jump(JumpTransition));
        }
        Component { in_node_index, out_node_index }
    }

    /// Adds the counter and repetition transitions around a component:
    ///
    /// in --reset--> left --save--> component --inc--> right, and from right
    /// a repetition back to left and a count check on to the exit; a greedy
    /// repetition tries going back first, a lazy one going on first.
    fn continue_emit_repetition(
        &mut self,
        component: Component,
        repetition_type: RepetitionType,
        is_lazy: bool,
    ) -> (r: Component)
        requires
            old(self).inv(),
            old(self).component_valid(component),
        ensures
            final(self).extends(*old(self)),
            final(self).names() == old(self).names(),
            final(self).component_valid(r),
            (ports(r), final(self).build()) == repetition(
                old(self).build(),
                ports(component),
                repetition_type,
                is_lazy,
            ),
    {
        let in_node_index = self.new_node();
        let left_node_index = self.new_node();
        let right_node_index = self.new_node();
        self.add_transition(
            in_node_index,
            left_node_index,
            Transition::CounterReset(CounterResetTransition),
        );
        self.add_transition(
            left_node_index,
            component.in_node_index,
            Transition::CounterSave(CounterSaveTransition),
        );
        self.add_transition(
            component.out_node_index,
            right_node_index,
            Transition::CounterInc(CounterIncTransition),
        );
        let out_node_index = self.new_node();
        if is_lazy {
            self.add_transition(
                right_node_index,
                out_node_index,
                Transition::CounterCheck(CounterCheckTransition::new(repetition_type)),
            );
            self.add_transition(
                right_node_index,
                left_node_index,
                Transition::Repetition(RepetitionTransition::new(repetition_type)),
            );
        } else {
            self.add_transition(
                right_node_index,
                left_node_index,
                Transition::Repetition(RepetitionTransition::new(repetition_type)),
            );
            self.add_transition(
                right_node_index,
                out_node_index,
                Transition::CounterCheck(CounterCheckTransition::new(repetition_type)),
            );
        }
        Component { in_node_index, out_node_index }
    }

    /// Adds the capture start and capture end transitions of a group around a component.
    fn wrap_capture(&mut self, component: Component, capture_group_index: usize) -> (r: Component)
        requires
            old(self).inv(),
            old(self).component_valid(component),
            0 < capture_group_index < old(self).object_file.capture_group_names@.len(),
        ensures
            final(self).extends(*old(self)),
            final(self).names() == old(self).names(),
            final(self).component_valid(r),
            (ports(r), final(self).build()) == captured(
                old(self).build(),
                ports(component),
                capture_group_index as int,
            ),
    {
        let in_node_index = self.new_node();
        let out_node_index = self.new_node();
        self.add_transition(
            in_node_index,
            component.in_node_index,
            Transition::CaptureStart(CaptureStartTransition::new(capture_group_index)),
        );
        self.add_transition(
            component.out_node_index,
            out_node_index,
            Transition::CaptureEnd(CaptureEndTransition::new(capture_group_index)),
        );
        Component { in_node_index, out_node_index }
    }

    /// Joins components one after another with jumps.
    fn join_components(&mut self, components: &Vec<Component>) -> (r: Component)
        requires
            old(self).inv(),
            components@.len() > 0,
            forall|k: int| 0 <= k < components@.len() ==> old(self).component_valid(#[trigger] components@[k]),
        ensures
            final(self).extends(*old(self)),
            final(self).names() == old(self).names(),
            final(self).component_valid(r),
            (ports(r), final(self).build()) == joined(old(self).build(), ports_of(components@)),
    {
        let ghost start = *self;
        let mut idx: usize = 0;
        while idx < components.len() - 1
            invariant
                idx < components@.len(),
                start == *old(self),
                self.extends(start),
                self.names() == start.names(),
                forall|k: int| 0 <= k < components@.len() ==> self.component_valid(#[trigger] components@[k]),
                self.build() == joined_jumps(start.build(), ports_of(components@), idx as int),
            decreases components@.len() - idx,
        {
            let ghost before = *self;
            let previous_out_node_index = components[idx].out_node_index;
            let next_in_node_index = components[idx + 1].in_node_index;
            self.add_transition(previous_out_node_index, next_in_node_index, Transition::Jump(JumpTransition));
            proof {
                Compiler::lemma_extends_trans(start, before, *self);
            }
            idx = idx + 1;
        }
        let last = components.len() - 1;
        Component {
            in_node_index: components[0].in_node_index,
            out_node_index: components[last].out_node_index,
        }
    }

    /// Creates a sub-route and makes it the current route; returns the
    /// index of the route that was current.
    fn begin_sub_route(&mut self) -> (saved: usize)
        requires
            old(self).inv(),
        ensures
            final(self).inv(),
            saved == old(self).current_route_index,
            final(self).current_route_index == old(self).object_file.routes@.len(),
            final(self).object_file.routes@.len() == old(self).object_file.routes@.len() + 1,
            final(self).object_file.capture_group_names@ == old(self).object_file.capture_group_names@,
            forall|i: int|
                #![trigger final(self).object_file.routes@[i]]
                0 <= i < old(self).object_file.routes@.len() ==> final(self).object_file.routes@[i]
                    == old(self).object_file.routes@[i],
            final(self).node_count() == 0,
            final(self).build() == route_opened(old(self).build()),
    {
        let saved = self.current_route_index;
        let sub_route_index = self.object_file.create_route();
        self.current_route_index = sub_route_index;
        proof {
            let routes = self.object_file.routes@;
            let l = routes.len() as int;
            let g = self.object_file.capture_group_names@.len() as int;
            assert forall|i: int| #![trigger routes[i]] 0 <= i < l implies routes[i].edges_wf(i, l, g) by {
                if i < l - 1 {
                    assert(routes[i] == old(self).object_file.routes@[i]);
                    crate::object_file::lemma_edges_wf_grow(routes[i], i, l - 1, g, l, g);
                }
            }
            assert forall|i: int| #![trigger routes[i]] 0 <= i < l implies routes[i].leaves_group_zero() by {
                if i < l - 1 {
                    assert(routes[i] == old(self).object_file.routes@[i]);
                }
            }
            assert forall|i: int| 0 <= i < l - 1 implies routes[i] == old(self).object_file.routes@[i] by {
                assert(routes[i] == old(self).object_file.routes@[i]);
            }
            assert(route_view(routes[l - 1]).nodes =~= Seq::empty());
            assert(routes_view(routes) =~= routes_view(old(self).object_file.routes@).push(
                RouteView { nodes: Seq::empty(), start: 0, end: 0, fixed: false },
            ));
        }
        saved
    }

    /// Sets the entry and exit of the current sub-route to those of its
    /// component, marks it as fixed at its start, and makes route `saved`
    /// current again.
    fn end_sub_route(&mut self, saved: usize, component: Component)
        requires
            old(self).inv(),
            old(self).component_valid(component),
            saved < old(self).current_route_index,
            forall|i: int|
                #![trigger old(self).object_file.routes@[i]]
                saved < i < old(self).current_route_index ==> old(self).object_file.routes@[i].ports_wf(),
        ensures
            final(self).inv(),
            final(self).current_route_index == saved,
            final(self).object_file.routes@.len() == old(self).object_file.routes@.len(),
            final(self).object_file.capture_group_names@ == old(self).object_file.capture_group_names@,
            forall|i: int|
                #![trigger final(self).object_file.routes@[i]]
                0 <= i < old(self).object_file.routes@.len() && i != old(self).current_route_index
                    ==> final(self).object_file.routes@[i] == old(self).object_file.routes@[i],
            final(self).build() == route_closed(
                old(self).build(),
                saved as int,
                (component.in_node_index as int, component.out_node_index as int),
            ),
    {
        let sub = self.current_route_index;
        self.object_file.set_route_ports(sub, component.in_node_index, component.out_node_index, true);
        self.current_route_index = saved;
        proof {
            let routes = self.object_file.routes@;
            let l = routes.len() as int;
            let g = self.object_file.capture_group_names@.len() as int;
            assert forall|i: int| #![trigger routes[i]] 0 <= i < l implies routes[i].edges_wf(i, l, g) by {
                if i != sub {
                    assert(routes[i] == old(self).object_file.routes@[i]);
                } else {
                    assert(routes[i].nodes@ == old(self).object_file.routes@[i].nodes@);
                    assert(old(self).object_file.routes@[i].edges_wf(i, l, g));
                }
            }
            assert forall|i: int| #![trigger routes[i]] 0 <= i < l implies routes[i].leaves_group_zero() by {
                if i != sub {
                    assert(routes[i] == old(self).object_file.routes@[i]);
                } else {
                    assert(routes[i].nodes@ == old(self).object_file.routes@[i].nodes@);
                    assert(old(self).object_file.routes@[i].leaves_group_zero());
                }
            }
            assert forall|i: int| #![trigger routes[i]] saved < i < l implies routes[i].ports_wf() by {
                if i != sub {
                    assert(routes[i] == old(self).object_file.routes@[i]);
                }
            }
            let ob = old(self).build();
            assert(route_view(routes[sub as int]).nodes == ob.routes[sub as int].nodes);
            assert(routes_view(routes) =~= ob.routes.update(
                sub as int,
                RouteView {
                    start: component.in_node_index as int as usize,
                    end: component.out_node_index as int as usize,
                    fixed: true,
                    ..ob.routes[sub as int]
                },
            )) by {
                assert forall|i: int| 0 <= i < l && i != sub implies #[trigger] routes[i]
                    == old(self).object_file.routes@[i] by {}
            }
        }
    }
}


/// Appends `prefix`, the decimal value of `n`, and `suffix`.
fn message_with_number(prefix: &str, n: usize, suffix: &str) -> (r: String)
    ensures
        r@ == prefix@ + crate::text::decimal(n as nat) + suffix@,
{
    let mut s = String::new();
    crate::text::append_str(&mut s, prefix);
    crate::text::append_decimal(&mut s, n);
    crate::text::append_str(&mut s, suffix);
    s
}

impl Compiler {
    /// Compiles an expression into a component of the current route.
    fn emit_expression(&mut self, expression: &Expression) -> (r: Result<Component, AnreError>)
        requires
            old(self).inv(),
        ensures
            final(self).emit_post(*old(self), r, compile_exp(*expression, old(self).names())),
            r matches Ok(c) ==> (ports(c), final(self).build()) == emitted(*expression, old(self).build()),
        decreases expression, 1nat,
    {
        match expression {
            Expression::Literal(literal) => match literal {
                Literal::Number(_) => Err(
                    syntax_error("Number literal is only allowed in repetition."),
                ),
                Literal::Char(character) => Ok(
                    self.emit_single(Transition::Char(CharTransition::new(*character))),
                ),
                Literal::String(s) => Ok(
                    self.emit_single(Transition::String(StringTransition::new(s.as_str()))),
                ),
                Literal::Special(_) => Ok(
                    self.emit_single(Transition::SpecialChar(SpecialCharTransition)),
                ),
                Literal::PresetCharSet(name) => {
                    let charset_transition = match name {
                        PresetCharSetName::CharWord => CharSetTransition::new_preset_word(),
                        PresetCharSetName::CharNotWord => CharSetTransition::new_preset_not_word(),
                        PresetCharSetName::CharSpace => CharSetTransition::new_preset_space(),
                        PresetCharSetName::CharNotSpace => CharSetTransition::new_preset_not_space(),
                        PresetCharSetName::CharDigit => CharSetTransition::new_preset_digit(),
                        PresetCharSetName::CharNotDigit => CharSetTransition::new_preset_not_digit(),
                        PresetCharSetName::CharHex => CharSetTransition::new_preset_hex(),
                    };
                    Ok(self.emit_single(Transition::CharSet(charset_transition)))
                },
                Literal::CharSet(charset) => {
                    let mut items: Vec<CharSetItem> = Vec::new();
                    match append_charset(charset, &mut items) {
                        Ok(()) => {},
                        Err(e) => {
                            proof {
                                Compiler::lemma_extends_refl(*self);
                            }
                            return Err(e);
                        },
                    }
                    Ok(
                        self.emit_single(
                            Transition::CharSet(CharSetTransition::new(items, charset.negative)),
                        ),
                    )
                },
            },
            Expression::BackReference(back_reference) => {
                let capture_group_index = match back_reference {
                    BackReference::Index(index) => {
                        if *index >= self.object_file.capture_group_names.len() {
                            proof {
                                Compiler::lemma_extends_refl(*self);
                            }
                            return Err(
                                AnreError::SyntaxIncorrect(
                                    message_with_number(
                                        "The group index (",
                                        *index,
                                        ") of back-reference is out of range.",
                                    ),
                                ),
                            );
                        }
                        *index
                    },
                    BackReference::Name(name) => {
                        match self.object_file.get_capture_group_index_by_name(name.as_str()) {
                            Some(i) => {
                                proof {
                                    assert(self.names()[i as int] == Some(name@));
                                }
                                i
                            },
                            None => {
                                proof {
                                    Compiler::lemma_extends_refl(*self);
                                    if name_defined(self.names(), name@) {
                                        let j = choose|j: int|
                                            0 <= j < self.names().len() && self.names()[j] == Some(name@);
                                        assert(self.object_file.capture_group_names@[j] matches Some(n) && n@ == name@);
                                    }
                                }
                                return Err(syntax_error("Cannot find the match with the given name."));
                            },
                        }
                    },
                };
                Ok(
                    self.emit_single(
                        Transition::BackReference(BackReferenceTransition::new(capture_group_index)),
                    ),
                )
            },
            Expression::AnchorAssertion(name) => {
                proof {
                    Compiler::lemma_extends_refl(*self);
                }
                match name {
                    AnchorAssertionName::Start => Err(
                        syntax_error(
                            "The assertion \"start\" can only exist at the beginning of an expression.",
                        ),
                    ),
                    AnchorAssertionName::End => Err(
                        syntax_error("The assertion \"end\" can only exist at the end of an expression."),
                    ),
                }
            },
            Expression::BoundaryAssertion(name) => Ok(
                self.emit_single(
                    Transition::BoundaryAssertion(BoundaryAssertionTransition::new(*name)),
                ),
            ),
            Expression::Group(expressions) => {
                let ghost start = *self;
                let mut components: Vec<Component> = Vec::new();
                let mut i: usize = 0;
                while i < expressions.len()
                    invariant
                        i <= expressions@.len(),
                        *expression == Expression::Group(*expressions),
                        start == *old(self),
                        self.extends(start),
                        compile_seq(expressions@, i as int, start.names()) == Some(self.names()),
                        (ports_of(components@), self.build()) == emitted_items(expressions@, i as int, start.build()),
                        components@.len() == i,
                        forall|k: int| 0 <= k < i ==> self.component_valid(#[trigger] components@[k]),
                    decreases expressions@.len() - i,
                {
                    let ghost before = *self;
                    match self.emit_expression(&expressions[i]) {
                        Ok(component) => {
                            proof {
                                Compiler::lemma_extends_trans(start, before, *self);
                            }
                            components.push(component);
                        },
                        Err(e) => {
                            proof {
                                lemma_compile_seq_fails_after(expressions@, i + 1, expressions@.len() as int, start.names());
                            }
                            return Err(e);
                        },
                    }
                    i = i + 1;
                }
                if components.len() == 0 {
                    let ghost before = *self;
                    let c = self.emit_empty();
                    proof {
                        Compiler::lemma_extends_trans(start, before, *self);
                    }
                    Ok(c)
                } else if components.len() == 1 {
                    // A single expression; nested groups such as `(((...)))` need no joining.
                    Ok(components.pop().unwrap())
                } else {
                    let ghost before = *self;
                    let c = self.join_components(&components);
                    proof {
                        Compiler::lemma_extends_trans(start, before, *self);
                    }
                    Ok(c)
                }
            },
            Expression::FunctionCall(function_call) => self.emit_function_call(&**function_call),
            Expression::Or(left, right) => {
                let ghost start = *self;
                let left_component = match self.emit_expression(left) {
                    Ok(c) => c,
                    Err(e) => {
                        return Err(e);
                    },
                };
                let ghost middle = *self;
                let right_component = match self.emit_expression(right) {
                    Ok(c) => c,
                    Err(e) => {
                        return Err(e);
                    },
                };
                let ghost after = *self;
                proof {
                    Compiler::lemma_extends_trans(start, middle, after);
                }
                let in_node_index = self.new_node();
                let out_node_index = self.new_node();
                self.add_transition(
                    in_node_index,
                    left_component.in_node_index,
                    Transition::Jump(JumpTransition),
                );
                self.add_transition(
                    in_node_index,
                    right_component.in_node_index,
                    Transition::Jump(JumpTransition),
                );
                self.add_transition(
                    left_component.out_node_index,
                    out_node_index,
                    Transition::Jump(JumpTransition),
                );
                self.add_transition(
                    right_component.out_node_index,
                    out_node_index,
                    Transition::Jump(JumpTransition),
                );
                Ok(Component { in_node_index, out_node_index })
            },
        }
    }
}

/// Once a prefix of a sequence fails to compile, the whole sequence fails.
proof fn lemma_compile_seq_fails_after(
    exps: Seq<Expression>,
    m: int,
    n: int,
    names: Seq<Option<Seq<char>>>,
)
    requires
        1 <= m <= n <= exps.len(),
        compile_seq(exps, m, names) is None,
    ensures
        compile_seq(exps, n, names) is None,
    decreases n - m,
{
    if m < n {
        lemma_compile_seq_fails_after(exps, m, n - 1, names);
    }
}


/// The value of a number literal argument.
fn number_argument(exp: &Expression) -> (r: Option<usize>)
    ensures
        r is Some <==> is_number(*exp),
        r matches Some(n) ==> n == number_value(*exp),
{
    match exp {
        Expression::Literal(Literal::Number(n)) => Some(*n),
        _ => None,
    }
}

impl Compiler {
    /// After a sub-route has been compiled between `begin_sub_route` (from
    /// `a` to `b`) and its end (`c`), the routes between the saved route and
    /// the sub-route are still complete.
    proof fn lemma_sub_route_ports(a: Compiler, b: Compiler, c: Compiler)
        requires
            a.inv(),
            b.current_route_index == a.object_file.routes@.len(),
            b.object_file.routes@.len() == a.object_file.routes@.len() + 1,
            forall|i: int|
                #![trigger b.object_file.routes@[i]]
                0 <= i < a.object_file.routes@.len() ==> b.object_file.routes@[i] == a.object_file.routes@[i],
            c.extends(b),
        ensures
            forall|i: int|
                #![trigger c.object_file.routes@[i]]
                a.current_route_index < i < c.current_route_index ==> c.object_file.routes@[i].ports_wf(),
    {
        assert forall|i: int|
            #![trigger c.object_file.routes@[i]]
            a.current_route_index < i < c.current_route_index implies c.object_file.routes@[i].ports_wf() by {
            assert(c.object_file.routes@[i] == b.object_file.routes@[i]);
            assert(b.object_file.routes@[i] == a.object_file.routes@[i]);
        }
    }

    /// A sub-route compiled from `a` (through `b` and `c`) and closed in `d`
    /// leaves the compiler extended from `a`.
    proof fn lemma_sub_route_extends(a: Compiler, b: Compiler, c: Compiler, d: Compiler)
        requires
            a.inv(),
            b.current_route_index == a.object_file.routes@.len(),
            b.object_file.routes@.len() == a.object_file.routes@.len() + 1,
            b.object_file.capture_group_names@ == a.object_file.capture_group_names@,
            forall|i: int|
                #![trigger b.object_file.routes@[i]]
                0 <= i < a.object_file.routes@.len() ==> b.object_file.routes@[i] == a.object_file.routes@[i],
            c.extends(b),
            d.inv(),
            d.current_route_index == a.current_route_index,
            d.object_file.routes@.len() == c.object_file.routes@.len(),
            d.object_file.capture_group_names@ == c.object_file.capture_group_names@,
            forall|i: int|
                #![trigger d.object_file.routes@[i]]
                0 <= i < c.object_file.routes@.len() && i != c.current_route_index
                    ==> d.object_file.routes@[i] == c.object_file.routes@[i],
        ensures
            d.extends(a),
            d.names() == c.names(),
    {
        let saved = a.current_route_index as int;
        assert(d.object_file.routes@[saved] == c.object_file.routes@[saved]);
        assert(c.object_file.routes@[saved] == b.object_file.routes@[saved]);
        assert forall|i: int|
            #![trigger d.object_file.routes@[i]]
            0 <= i < a.object_file.routes@.len() && i != a.current_route_index
                implies d.object_file.routes@[i] == a.object_file.routes@[i] by {
            assert(d.object_file.routes@[i] == c.object_file.routes@[i]);
            assert(c.object_file.routes@[i] == b.object_file.routes@[i]);
        }
    }

    /// Compiles a function call into a component of the current route.
    fn emit_function_call(&mut self, function_call: &FunctionCall) -> (r: Result<Component, AnreError>)
        requires
            old(self).inv(),
        ensures
            final(self).emit_post(*old(self), r, compile_call(*function_call, old(self).names())),
            r matches Ok(c) ==> (ports(c), final(self).build()) == emitted_call(
                *function_call,
                old(self).build(),
            ),
        decreases function_call, 1nat,
    {
        if function_call.args.len() == 0 {
            return Err(syntax_error("Expect an expression for the function call."));
        }
        let ghost start = *self;
        let expression = &function_call.args[0];
        let is_lazy = match function_call.name {
            FunctionName::OptionalLazy | FunctionName::OneOrMoreLazy
            | FunctionName::ZeroOrMoreLazy | FunctionName::RepeatRangeLazy
            | FunctionName::AtLeastLazy => true,
            _ => false,
        };
        match function_call.name {
            FunctionName::Optional | FunctionName::OptionalLazy => {
                let component = self.emit_expression(expression)?;
                let ghost middle = *self;
                let r = self.continue_emit_optional(component, is_lazy);
                proof {
                    Compiler::lemma_extends_trans(start, middle, *self);
                }
                Ok(r)
            },
            FunctionName::OneOrMore | FunctionName::OneOrMoreLazy => {
                // {1,MAX}
                let component = self.emit_expression(expression)?;
                let ghost middle = *self;
                let r = self.continue_emit_repetition(
                    component,
                    RepetitionType::Range(1, usize::MAX),
                    is_lazy,
                );
                proof {
                    Compiler::lemma_extends_trans(start, middle, *self);
                }
                Ok(r)
            },
            FunctionName::ZeroOrMore | FunctionName::ZeroOrMoreLazy => {
                // {0,MAX} == optional + one_or_more
                let component = self.emit_expression(expression)?;
                let ghost middle = *self;
                let repeated = self.continue_emit_repetition(
                    component,
                    RepetitionType::Range(1, usize::MAX),
                    is_lazy,
                );
                let ghost middle2 = *self;
                let r = self.continue_emit_optional(repeated, is_lazy);
                proof {
                    Compiler::lemma_extends_trans(start, middle, middle2);
                    Compiler::lemma_extends_trans(start, middle2, *self);
                }
                Ok(r)
            },
            FunctionName::Repeat => {
                if function_call.args.len() < 2 {
                    return Err(syntax_error("Expect the number of repetitions."));
                }
                let times = match number_argument(&function_call.args[1]) {
                    Some(n) => n,
                    None => {
                        return Err(syntax_error("Expect the number of repetitions."));
                    },
                };
                if times == 0 {
                    // {0}
                    Ok(self.emit_empty())
                } else if times == 1 {
                    // {1}
                    self.emit_expression(expression)
                } else {
                    // {m}
                    let component = self.emit_expression(expression)?;
                    let ghost middle = *self;
                    let r = self.continue_emit_repetition(
                        component,
                        RepetitionType::Specified(times),
                        true,
                    );
                    proof {
                        Compiler::lemma_extends_trans(start, middle, *self);
                    }
                    Ok(r)
                }
            },
            FunctionName::RepeatRange | FunctionName::RepeatRangeLazy => {
                if function_call.args.len() < 3 {
                    return Err(syntax_error("Expect the range of repetitions."));
                }
                let from = match number_argument(&function_call.args[1]) {
                    Some(n) => n,
                    None => {
                        return Err(syntax_error("Expect the range of repetitions."));
                    },
                };
                let to = match number_argument(&function_call.args[2]) {
                    Some(n) => n,
                    None => {
                        return Err(syntax_error("Expect the range of repetitions."));
                    },
                };
                if from > to {
                    return Err(
                        syntax_error("Repeated range values should be from small to large."),
                    );
                }
                if from == 0 {
                    if to == 0 {
                        // {0,0}
                        Ok(self.emit_empty())
                    } else if to == 1 {
                        // {0,1}
                        let component = self.emit_expression(expression)?;
                        let ghost middle = *self;
                        let r = self.continue_emit_optional(component, is_lazy);
                        proof {
                            Compiler::lemma_extends_trans(start, middle, *self);
                        }
                        Ok(r)
                    } else {
                        // {0,m}
                        let component = self.emit_expression(expression)?;
                        let ghost middle = *self;
                        let repeated = self.continue_emit_repetition(
                            component,
                            RepetitionType::Range(1, to),
                            is_lazy,
                        );
                        let ghost middle2 = *self;
                        let r = self.continue_emit_optional(repeated, is_lazy);
                        proof {
                            Compiler::lemma_extends_trans(start, middle, middle2);
                            Compiler::lemma_extends_trans(start, middle2, *self);
                        }
                        Ok(r)
                    }
                } else if to == 1 {
                    // {1,1}
                    self.emit_expression(expression)
                } else {
                    let component = self.emit_expression(expression)?;
                    let ghost middle = *self;
                    let r = if from == to {
                        // {m,m}
                        self.continue_emit_repetition(component, RepetitionType::Specified(from), true)
                    } else {
                        // {m,n}
                        self.continue_emit_repetition(
                            component,
                            RepetitionType::Range(from, to),
                            is_lazy,
                        )
                    };
                    proof {
                        Compiler::lemma_extends_trans(start, middle, *self);
                    }
                    Ok(r)
                }
            },
            FunctionName::AtLeast | FunctionName::AtLeastLazy => {
                if function_call.args.len() < 2 {
                    return Err(syntax_error("Expect the least number of repetitions."));
                }
                let from = match number_argument(&function_call.args[1]) {
                    Some(n) => n,
                    None => {
                        return Err(syntax_error("Expect the least number of repetitions."));
                    },
                };
                let component = self.emit_expression(expression)?;
                let ghost middle = *self;
                if from == 0 {
                    // {0,MAX} == optional + one_or_more
                    let repeated = self.continue_emit_repetition(
                        component,
                        RepetitionType::Range(1, usize::MAX),
                        is_lazy,
                    );
                    let ghost middle2 = *self;
                    let r = self.continue_emit_optional(repeated, is_lazy);
                    proof {
                        Compiler::lemma_extends_trans(start, middle, middle2);
                        Compiler::lemma_extends_trans(start, middle2, *self);
                    }
                    Ok(r)
                } else {
                    // {m,MAX}
                    let r = self.continue_emit_repetition(
                        component,
                        RepetitionType::Range(from, usize::MAX),
                        is_lazy,
                    );
                    proof {
                        Compiler::lemma_extends_trans(start, middle, *self);
                    }
                    Ok(r)
                }
            },
            FunctionName::IsBefore | FunctionName::IsNotBefore => {
                // Look-ahead assertion:
                //
                //  in       /-----------\      | look-ahead
                // ==o==----==o in  out o==----------==o==
                //      jump \-----------/            out
                if function_call.args.len() != 2 {
                    return Err(
                        syntax_error(
                            "Expect an expression for the argument of lookahead assertion.",
                        ),
                    );
                }
                let negative = match function_call.name {
                    FunctionName::IsNotBefore => true,
                    _ => false,
                };
                let component = self.emit_expression(expression)?;
                let ghost a = *self;
                let saved_route_index = self.begin_sub_route();
                let sub_route_index = self.current_route_index;
                let ghost b = *self;
                let sub_component = self.emit_expression(&function_call.args[1])?;
                let ghost c = *self;
                proof {
                    Compiler::lemma_sub_route_ports(a, b, c);
                }
                self.end_sub_route(saved_route_index, sub_component);
                proof {
                    Compiler::lemma_sub_route_extends(a, b, c, *self);
                    Compiler::lemma_extends_trans(start, a, *self);
                }
                let ghost d = *self;
                let in_node_index = self.new_node();
                let out_node_index = self.new_node();
                self.add_transition(
                    in_node_index,
                    component.in_node_index,
                    Transition::Jump(JumpTransition),
                );
                self.add_transition(
                    component.out_node_index,
                    out_node_index,
                    Transition::LookAheadAssertion(
                        LookAheadAssertionTransition::new(sub_route_index, negative),
                    ),
                );
                proof {
                    Compiler::lemma_extends_trans(start, d, *self);
                }
                Ok(Component { in_node_index, out_node_index })
            },
            FunctionName::IsAfter | FunctionName::IsNotAfter => {
                // Look-behind assertion:
                //
                //       | look-behind
                //       v           /-----------\        out
                // ==o==------------==o in  out o==-----==o==
                //  in               \-----------/  jump
                if function_call.args.len() != 2 {
                    return Err(
                        syntax_error(
                            "Expect an expression for the argument of lookbehind assertion.",
                        ),
                    );
                }
                let negative = match function_call.name {
                    FunctionName::IsNotAfter => true,
                    _ => false,
                };
                let previous_expression = &function_call.args[1];
                let match_length_in_char = match try_get_match_length(previous_expression) {
                    Some(MatchLength::Fixed(length)) => length,
                    _ => {
                        return Err(
                            syntax_error(
                                "Look behind assertion (is_after, is_not_after) requires a fixed length pattern.",
                            ),
                        );
                    },
                };
                let saved_route_index = self.begin_sub_route();
                let sub_route_index = self.current_route_index;
                let ghost b = *self;
                let sub_component = self.emit_expression(previous_expression)?;
                let ghost c = *self;
                proof {
                    Compiler::lemma_sub_route_ports(start, b, c);
                }
                self.end_sub_route(saved_route_index, sub_component);
                proof {
                    Compiler::lemma_sub_route_extends(start, b, c, *self);
                }
                let ghost d = *self;
                let component = self.emit_expression(expression)?;
                let ghost e = *self;
                proof {
                    Compiler::lemma_extends_trans(start, d, e);
                }
                let in_node_index = self.new_node();
                let out_node_index = self.new_node();
                self.add_transition(
                    in_node_index,
                    component.in_node_index,
                    Transition::LookBehindAssertion(
                        LookBehindAssertionTransition::new(
                            sub_route_index,
                            negative,
                            match_length_in_char,
                        ),
                    ),
                );
                self.add_transition(
                    component.out_node_index,
                    out_node_index,
                    Transition::Jump(JumpTransition),
                );
                proof {
                    Compiler::lemma_extends_trans(start, e, *self);
                }
                Ok(Component { in_node_index, out_node_index })
            },
            FunctionName::Name => {
                if function_call.args.len() < 2 {
                    return Err(syntax_error("Expect a name for the capture group."));
                }
                let name = match &function_call.args[1] {
                    Expression::Literal(Literal::String(s)) => s.clone(),
                    _ => {
                        return Err(syntax_error("Expect a name for the capture group."));
                    },
                };
                let capture_group_index = self.new_capture_group(Some(name));
                let ghost a = *self;
                let component = self.emit_expression(expression)?;
                let ghost b = *self;
                let r = self.wrap_capture(component, capture_group_index);
                proof {
                    Compiler::lemma_extends_trans(start, a, b);
                    Compiler::lemma_extends_trans(start, b, *self);
                }
                Ok(r)
            },
            FunctionName::Index => {
                let capture_group_index = self.new_capture_group(None);
                let ghost a = *self;
                let component = self.emit_expression(expression)?;
                let ghost b = *self;
                let r = self.wrap_capture(component, capture_group_index);
                proof {
                    Compiler::lemma_extends_trans(start, a, b);
                    Compiler::lemma_extends_trans(start, b, *self);
                }
                Ok(r)
            },
        }
    }
}


impl Compiler {
    /// Compiles a program into the main route: its expressions one after
    /// another, wrapped in the capture group 0 of the whole match.
    fn emit_program(&mut self, program: &Program) -> (r: Result<(), AnreError>)
        requires
            old(self).inv(),
            old(self).current_route_index == 0,
            old(self).names() == seq![None::<Seq<char>>],
            old(self).build() == initial_build(),
        ensures
            r is Ok <==> compile_program(*program) is Some,
            r is Ok ==> {
                &&& final(self).object_file.wf()
                &&& routes_view(final(self).object_file.routes@) == program_routes(*program)
                &&& group_zero_frames_main(final(self).object_file)
                &&& final(self).names() == compile_program(*program).unwrap()
                &&& final(self).object_file.routes@[0].is_fixed_start_position == (program.expressions@.len() > 0
                    && program.expressions@[0] == Expression::AnchorAssertion(AnchorAssertionName::Start))
            },
            r matches Err(e) ==> e is SyntaxIncorrect,
    {
        // The capture group 0, which the compiler made first, stands for the
        // whole match.
        let capture_group_index: usize = 0;
        proof {
            assert(self.object_file.capture_group_names@.len() == self.names().len());
            Compiler::lemma_extends_refl(*self);
        }
        let ghost start = *self;
        let expressions = &program.expressions;
        let mut is_fixed_start_position = false;
        let mut components: Vec<Component> = Vec::new();
        let mut i: usize = 0;
        while i < expressions.len()
            invariant
                i <= expressions@.len(),
                *expressions == program.expressions,
                self.extends(start),
                start.current_route_index == 0,
                capture_group_index == 0,
                start.object_file.capture_group_names@.len() == 1,
                compile_program_seq(expressions@, i as int, seq![None::<Seq<char>>]) == Some(self.names()),
                start.build() == initial_build(),
                (ports_of(components@), self.build()) == program_items(expressions@, i as int, start.build()),
                components@.len() == i,
                forall|k: int| 0 <= k < i ==> self.component_valid(#[trigger] components@[k]),
                is_fixed_start_position == (i > 0 && expressions@[0] == Expression::AnchorAssertion(AnchorAssertionName::Start)),
            decreases expressions@.len() - i,
        {
            let ghost before = *self;
            let expression = &expressions[i];
            let is_start = match expression {
                Expression::AnchorAssertion(AnchorAssertionName::Start) => true,
                _ => false,
            };
            let is_end = match expression {
                Expression::AnchorAssertion(AnchorAssertionName::End) => true,
                _ => false,
            };
            if is_start {
                if i != 0 {
                    proof {
                        lemma_compile_program_seq_fails_after(expressions@, i + 1, expressions@.len() as int, seq![None::<Seq<char>>]);
                    }
                    return Err(
                        syntax_error(
                            "The assertion \"start\" can only be present at the beginning of expression.",
                        ),
                    );
                }
                is_fixed_start_position = true;
                let c = self.emit_single(
                    Transition::AnchorAssertion(AnchorAssertionTransition::new(AnchorAssertionName::Start)),
                );
                components.push(c);
            } else if is_end {
                if i != expressions.len() - 1 {
                    proof {
                        lemma_compile_program_seq_fails_after(expressions@, i + 1, expressions@.len() as int, seq![None::<Seq<char>>]);
                    }
                    return Err(
                        syntax_error("The assertion \"end\" can only be present at the end of expression."),
                    );
                }
                let c = self.emit_single(
                    Transition::AnchorAssertion(AnchorAssertionTransition::new(AnchorAssertionName::End)),
                );
                components.push(c);
            } else {
                match self.emit_expression(expression) {
                    Ok(c) => {
                        components.push(c);
                    },
                    Err(e) => {
                        proof {
                            lemma_compile_program_seq_fails_after(expressions@, i + 1, expressions@.len() as int, seq![None::<Seq<char>>]);
                        }
                        return Err(e);
                    },
                }
            }
            proof {
                Compiler::lemma_extends_trans(start, before, *self);
            }
            i = i + 1;
        }
        let ghost before_join = *self;
        let program_component = if components.len() == 0 {
            self.emit_empty()
        } else if components.len() == 1 {
            components.pop().unwrap()
        } else {
            self.join_components(&components)
        };
        let ghost after_join = *self;
        let in_node_index = self.new_node();
        let out_node_index = self.new_node();
        let ghost with_ports = *self;
        let ghost n = after_join.node_count();
        let ghost pc = program_component;
        // Group 0 opens at the entry and closes at the exit; these are the
        // only transitions that touch it.
        self.object_file.create_transition_item_in_route(
            0,
            in_node_index,
            program_component.in_node_index,
            Transition::CaptureStart(CaptureStartTransition::new(capture_group_index)),
        );
        let ghost after_first = self.object_file.routes;
        self.object_file.create_transition_item_in_route(
            0,
            program_component.out_node_index,
            out_node_index,
            Transition::CaptureEnd(CaptureEndTransition::new(capture_group_index)),
        );
        let ghost before_ports = *self;
        self.object_file.set_route_ports(0, in_node_index, out_node_index, is_fixed_start_position);
        proof {
            let b2 = after_join.build();
            let b3 = item_added(two_nodes_added(b2), n, pc.in_node_index as int, TransitionView::CaptureStart(0));
            let b4 = item_added(b3, pc.out_node_index as int, n + 1, TransitionView::CaptureEnd(0));
            assert(with_ports.build() == two_nodes_added(b2));
            assert(routes_view(after_first@) == b3.routes) by {
                lemma_item_added_view(
                    with_ports.object_file.routes@,
                    after_first@,
                    n,
                    pc.in_node_index,
                    Transition::CaptureStart(CaptureStartTransition { capture_group_index: 0 }),
                    with_ports.build(),
                );
            }
            assert(routes_view(before_ports.object_file.routes@) == b4.routes) by {
                lemma_item_added_view(
                    after_first@,
                    before_ports.object_file.routes@,
                    pc.out_node_index as int,
                    out_node_index,
                    Transition::CaptureEnd(CaptureEndTransition { capture_group_index: 0 }),
                    b3,
                );
            }
            assert(routes_view(self.object_file.routes@) =~= b4.routes.update(
                0,
                RouteView {
                    start: n as usize,
                    end: (n + 1) as usize,
                    fixed: is_fixed_start_position,
                    ..b4.routes[0]
                },
            )) by {
                assert forall|k: int| 0 < k < self.object_file.routes@.len() implies #[trigger] self.object_file.routes@[k]
                    == before_ports.object_file.routes@[k] by {}
                assert(self.object_file.routes@[0].nodes@ == before_ports.object_file.routes@[0].nodes@);
            }
            assert(routes_view(self.object_file.routes@) == program_routes(*program));
        }
        proof {
            let routes = self.object_file.routes@;
            let l = routes.len() as int;
            let g = self.object_file.capture_group_names@.len() as int;
            let main = routes[0];
            let old_main = with_ports.object_file.routes@[0];
            assert(after_join.component_valid(pc));
            assert(in_node_index == n && out_node_index == n + 1);
            assert(old_main.nodes@.len() == n + 2);
            assert(main.nodes@.len() == n + 2);
            assert(main.nodes@ == before_ports.object_file.routes@[0].nodes@);
            assert(with_ports.inv());
            assert(after_join.inv());
            assert(after_join.current_route().edges_wf(0, after_join.object_file.routes@.len() as int,
                after_join.object_file.capture_group_names@.len() as int));
            assert(old_main.leaves_group_zero());
            assert forall|k: int| #![trigger routes[k]] 0 <= k < l implies routes[k].wf(k, l, g) by {
                if k != 0 {
                    assert(routes[k] == with_ports.object_file.routes@[k]);
                } else {
                    assert(old_main.edges_wf(k, l, g));
                    assert(before_ports.object_file.routes@[k].edges_wf(k, l, g));
                }
            }
            assert(main.nodes@[n].transition_items@ =~= seq![
                TransitionItem {
                    transition: Transition::CaptureStart(CaptureStartTransition { capture_group_index: 0 }),
                    target_node_index: pc.in_node_index,
                },
            ]);
            assert(main.nodes@[n + 1].transition_items@.len() == 0);
            assert forall|i: int, j: int|
                #![trigger main.nodes@[i].transition_items@[j]]
                0 <= i < main.nodes@.len() && 0 <= j < main.nodes@[i].transition_items@.len() implies {
                    let item = main.nodes@[i].transition_items@[j];
                    &&& item.target_node_index != n
                    &&& (item.target_node_index == n + 1 <==> (item.transition matches Transition::CaptureEnd(c)
                        && c.capture_group_index == 0))
                    &&& ((item.transition matches Transition::CaptureStart(c) && c.capture_group_index == 0)
                        ==> i == n)
                } by {
                let item = main.nodes@[i].transition_items@[j];
                if i < n {
                    assert(old_main.nodes@[i] == after_join.current_route().nodes@[i]);
                    if i == pc.out_node_index && j == old_main.nodes@[i].transition_items@.len() {
                        assert(item == TransitionItem {
                            transition: Transition::CaptureEnd(CaptureEndTransition { capture_group_index: 0 }),
                            target_node_index: out_node_index,
                        });
                    } else {
                        assert(j < old_main.nodes@[i].transition_items@.len());
                        assert(item == old_main.nodes@[i].transition_items@[j]);
                        assert(item == after_join.current_route().nodes@[i].transition_items@[j]);
                        assert(item.target_node_index < n);
                        assert(!writes_group_zero(old_main.nodes@[i].transition_items@[j].transition));
                    }
                }
            }
            assert forall|k: int| #![trigger routes[k]] 0 < k < l implies routes[k].leaves_group_zero() by {
                assert(routes[k] == with_ports.object_file.routes@[k]);
            }
            assert(self.names() == before_join.names());
        }
        Ok(())
    }
}

/// Adding a transition to route 0 of an object file adds it to the view of
/// its routes.
proof fn lemma_item_added_view(
    before: Seq<Route>,
    after: Seq<Route>,
    source: int,
    target: usize,
    t: Transition,
    b: Build,
)
    requires
        0 < before.len(),
        after.len() == before.len(),
        forall|i: int| 0 < i < before.len() ==> after[i] == before[i],
        0 <= source < before[0].nodes@.len(),
        after[0].nodes@.len() == before[0].nodes@.len(),
        after[0].nodes@[source].transition_items@ == before[0].nodes@[source].transition_items@.push(
            TransitionItem { transition: t, target_node_index: target },
        ),
        forall|i: int| 0 <= i < before[0].nodes@.len() && i != source ==> after[0].nodes@[i] == before[0].nodes@[i],
        after[0].start_node_index == before[0].start_node_index,
        after[0].end_node_index == before[0].end_node_index,
        after[0].is_fixed_start_position == before[0].is_fixed_start_position,
        b.routes == routes_view(before),
        b.current == 0,
    ensures
        routes_view(after) == item_added(b, source, target as int, transition_view(t)).routes,
{
    let tv = transition_view(t);
    assert(items_view(after[0].nodes@[source].transition_items@) =~= items_view(
        before[0].nodes@[source].transition_items@,
    ).push((tv, target)));
    assert(route_view(after[0]).nodes =~= route_view(before[0]).nodes.update(
        source,
        route_view(before[0]).nodes[source].push((tv, target)),
    )) by {
        assert forall|i: int| 0 <= i < route_view(after[0]).nodes.len() && i != source implies
            #[trigger] after[0].nodes@[i] == before[0].nodes@[i] by {}
    }
    assert(routes_view(after) =~= item_added(b, source, target as int, tv).routes) by {
        assert forall|i: int| 0 < i < after.len() implies #[trigger] after[i] == before[i] by {}
    }
}

/// Once a prefix of a program fails to compile, the whole program fails.
proof fn lemma_compile_program_seq_fails_after(
    exps: Seq<Expression>,
    m: int,
    n: int,
    names: Seq<Option<Seq<char>>>,
)
    requires
        1 <= m <= n <= exps.len(),
        compile_program_seq(exps, m, names) is None,
    ensures
        compile_program_seq(exps, n, names) is None,
    decreases n - m,
{
    if m < n {
        lemma_compile_program_seq_fails_after(exps, m, n - 1, names);
    }
}

/// What compiling `program` gives: an object file exactly when
/// `compile_program` accepts the program, else a `SyntaxIncorrect` error.
/// The object file is well formed, its routes are those of
/// `program_routes`, capture group 0 frames its main route,
/// its capture groups are those that `compile_program` names, and its main
/// route is fixed at the start of the text exactly when the program begins
/// with the `start` anchor.
pub open spec fn compiled(program: Program, r: Result<ObjectFile, AnreError>) -> bool {
    &&& r is Ok <==> compile_program(program) is Some
    &&& r matches Ok(object_file) ==> {
        &&& object_file.wf()
        &&& routes_view(object_file.routes@) == program_routes(program)
        &&& group_zero_frames_main(object_file)
        &&& names_view(object_file.capture_group_names@) == compile_program(program).unwrap()
        &&& object_file.routes@[0].is_fixed_start_position == (program.expressions@.len() > 0
            && program.expressions@[0] == Expression::AnchorAssertion(AnchorAssertionName::Start))
    }
    &&& r matches Err(e) ==> e is SyntaxIncorrect
}

/// Compiles a program into an object file. The error is `SyntaxIncorrect`,
/// exactly when `compile_program` says so: an anchor out of place, a number
/// where a pattern is expected, a back reference to a group that does not
/// exist yet, a repetition range from large to small, a look-around without
/// its pattern, a look-behind pattern without a fixed length, or a negative
/// preset charset inside a charset.
pub fn compile(program: &Program) -> (r: Result<ObjectFile, AnreError>)
    ensures
        compiled(*program, r),
{
    let mut compiler = Compiler::new();
    compiler.emit_program(program)?;
    Ok(compiler.object_file)
}

/// Compiles a traditional regular expression: the parse error, or what
/// compiling the parsed program gives.
pub fn compile_from_regex(s: &str) -> (r: Result<ObjectFile, AnreError>)
    ensures
        match spec_parse(s@) {
            Err(f) => r matches Err(e) && error_matches(e, f),
            Ok(exps) => exists|program: Program| program@ == exps && #[trigger] compiled(program, r),
        },
{
    let program = match parse_from_str(s) {
        Ok(program) => program,
        Err(e) => {
            return Err(e);
        },
    };
    let r = compile(&program);
    proof {
        assert(compiled(program, r));
    }
    r
}


/// Compiling an expression only adds capture groups: the groups known
/// before it stay, in their order, at the front.
pub proof fn lemma_compile_exp_extends(exp: Expression, names: Seq<Option<Seq<char>>>)
    ensures
        compile_exp(exp, names) matches Some(after) ==> names.len() <= after.len() && after.subrange(
            0,
            names.len() as int,
        ) == names,
    decreases exp, 1nat,
{
    match exp {
        Expression::Group(exps) => {
            lemma_compile_seq_extends(exps@, exps@.len() as int, names);
        },
        Expression::Or(left, right) => {
            lemma_compile_exp_extends(*left, names);
            if let Some(n1) = compile_exp(*left, names) {
                lemma_compile_exp_extends(*right, n1);
                lemma_prefix_transitive(names, n1, compile_exp(*right, n1));
            }
        },
        Expression::FunctionCall(call) => {
            lemma_compile_call_extends(*call, names);
        },
        _ => {
            if let Some(after) = compile_exp(exp, names) {
                assert(after.subrange(0, names.len() as int) =~= names);
            }
        },
    }
}

proof fn lemma_prefix_transitive(
    a: Seq<Option<Seq<char>>>,
    b: Seq<Option<Seq<char>>>,
    c: Option<Seq<Option<Seq<char>>>>,
)
    requires
        a.len() <= b.len() && b.subrange(0, a.len() as int) == a,
        c matches Some(cc) ==> b.len() <= cc.len() && cc.subrange(0, b.len() as int) == b,
    ensures
        c matches Some(cc) ==> a.len() <= cc.len() && cc.subrange(0, a.len() as int) == a,
{
    if let Some(cc) = c {
        assert(cc.subrange(0, a.len() as int) =~= b.subrange(0, a.len() as int));
    }
}

proof fn lemma_compile_call_extends(call: FunctionCall, names: Seq<Option<Seq<char>>>)
    ensures
        compile_call(call, names) matches Some(after) ==> names.len() <= after.len() && after.subrange(
            0,
            names.len() as int,
        ) == names,
    decreases call, 0nat,
{
    if call.args@.len() > 0 {
        let base = call.args@[0];
        assert(call.args@.contains(base));
        match call.name {
            FunctionName::IsBefore | FunctionName::IsNotBefore => {
                if call.args@.len() == 2 {
                    assert(call.args@.contains(call.args@[1]));
                    lemma_compile_exp_extends(base, names);
                    if let Some(n1) = compile_exp(base, names) {
                        lemma_compile_exp_extends(call.args@[1], n1);
                        lemma_prefix_transitive(names, n1, compile_exp(call.args@[1], n1));
                    }
                }
            },
            FunctionName::IsAfter | FunctionName::IsNotAfter => {
                if call.args@.len() == 2 {
                    assert(call.args@.contains(call.args@[1]));
                    lemma_compile_exp_extends(call.args@[1], names);
                    if let Some(n1) = compile_exp(call.args@[1], names) {
                        lemma_compile_exp_extends(base, n1);
                        lemma_prefix_transitive(names, n1, compile_exp(base, n1));
                    }
                }
            },
            FunctionName::Name => {
                if call.args@.len() >= 2 {
                    if let Expression::Literal(Literal::String(s)) = call.args@[1] {
                        let pushed = names.push(Some(s@));
                        lemma_compile_exp_extends(base, pushed);
                        assert(pushed.subrange(0, names.len() as int) =~= names);
                        lemma_prefix_transitive(names, pushed, compile_exp(base, pushed));
                    }
                }
            },
            FunctionName::Index => {
                let pushed = names.push(None);
                lemma_compile_exp_extends(base, pushed);
                assert(pushed.subrange(0, names.len() as int) =~= names);
                lemma_prefix_transitive(names, pushed, compile_exp(base, pushed));
            },
            _ => {
                lemma_compile_exp_extends(base, names);
                assert(names.subrange(0, names.len() as int) =~= names);
            },
        }
    }
}

proof fn lemma_compile_seq_extends(exps: Seq<Expression>, n: int, names: Seq<Option<Seq<char>>>)
    ensures
        compile_seq(exps, n, names) matches Some(after) ==> names.len() <= after.len() && after.subrange(
            0,
            names.len() as int,
        ) == names,
    decreases exps, n,
{
    if n <= 0 || n > exps.len() {
        assert(names.subrange(0, names.len() as int) =~= names);
    } else {
        lemma_compile_seq_extends(exps, n - 1, names);
        if let Some(n1) = compile_seq(exps, n - 1, names) {
            assert(exps.contains(exps[n - 1]));
            lemma_compile_exp_extends(exps[n - 1], n1);
            lemma_prefix_transitive(names, n1, compile_exp(exps[n - 1], n1));
        }
    }
}

proof fn lemma_compile_program_seq_extends(exps: Seq<Expression>, n: int, names: Seq<Option<Seq<char>>>)
    ensures
        compile_program_seq(exps, n, names) matches Some(after) ==> names.len() <= after.len()
            && after.subrange(0, names.len() as int) == names,
    decreases n,
{
    if n <= 0 || n > exps.len() {
        assert(names.subrange(0, names.len() as int) =~= names);
    } else {
        lemma_compile_program_seq_extends(exps, n - 1, names);
        if let Some(n1) = compile_program_seq(exps, n - 1, names) {
            lemma_compile_exp_extends(exps[n - 1], n1);
            lemma_prefix_transitive(names, n1, compile_exp(exps[n - 1], n1));
            assert(n1.subrange(0, names.len() as int) == names);
        }
    }
}

/// The capture groups of a compiled program begin with group 0, the whole
/// match, which has no name; the groups that `name` and `index` create
/// follow it.
pub proof fn lemma_group_zero_has_no_name(program: Program)
    ensures
        compile_program(program) matches Some(names) ==> names.len() >= 1 && names[0] is None,
{
    let start = seq![None::<Seq<char>>];
    lemma_compile_program_seq_extends(program.expressions@, program.expressions@.len() as int, start);
    if let Some(names) = compile_program(program) {
        assert(names.subrange(0, 1)[0] == start[0]);
    }
}

} // verus!
