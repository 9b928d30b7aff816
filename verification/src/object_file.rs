use vstd::prelude::*;

use crate::ast::{AnchorAssertionName, BoundaryAssertionName};
use crate::transition::{utf8_length, utf8_total, CharSetItem, RepetitionType, Transition};

verus! {

/// The index of the main route of an object file.
pub const MAIN_ROUTE_INDEX: usize = 0;

/// A compiled pattern: the main route, the sub-routes of look-around
/// assertions, and the names of the capture groups (group 0 is the whole match).
pub struct ObjectFile {
    pub routes: Vec<Route>,
    pub capture_group_names: Vec<Option<String>>,
}

/// A graph of nodes joined by transitions, with an entry and an exit node.
pub struct Route {
    pub nodes: Vec<Node>,
    pub start_node_index: usize,
    pub end_node_index: usize,
    /// Whether the route may match only at the position where it starts.
    pub is_fixed_start_position: bool,
}

/// A node and the transitions that leave it, in the order they are tried.
pub struct Node {
    pub transition_items: Vec<TransitionItem>,
}

pub struct TransitionItem {
    pub transition: Transition,
    pub target_node_index: usize,
}

/// A transition of route `route_index` refers only to capture groups that
/// exist and to routes that come after its own, and the byte length of a
/// char or string transition is that of the UTF-8 encoding of its code points.
pub open spec fn transition_wf(
    t: Transition,
    route_index: int,
    routes_len: int,
    groups_len: int,
) -> bool {
    match t {
        Transition::CaptureStart(c) => c.capture_group_index < groups_len,
        Transition::CaptureEnd(c) => c.capture_group_index < groups_len,
        Transition::BackReference(b) => b.capture_group_index < groups_len,
        Transition::LookAheadAssertion(l) => route_index < l.route_index < routes_len,
        Transition::LookBehindAssertion(l) => route_index < l.route_index < routes_len,
        Transition::Char(c) => c.byte_length == utf8_length(c.codepoint),
        Transition::String(s) => s.byte_length == utf8_total(s.codepoints@),
        _ => true,
    }
}

/// A transition as a value.
pub enum TransitionView {
    Jump,
    /// The code point and its length in bytes.
    Char(u32, usize),
    SpecialChar,
    /// The code points and their length in bytes.
    String(Seq<u32>, usize),
    /// The items and whether the charset is negative.
    CharSet(Seq<CharSetItem>, bool),
    BackReference(usize),
    AnchorAssertion(AnchorAssertionName),
    BoundaryAssertion(BoundaryAssertionName),
    CaptureStart(usize),
    CaptureEnd(usize),
    CounterReset,
    CounterSave,
    CounterInc,
    CounterCheck(RepetitionType),
    Repetition(RepetitionType),
    /// The sub-route and whether the assertion is negative.
    LookAheadAssertion(usize, bool),
    /// The sub-route, whether the assertion is negative, and the length of
    /// the text that it looks at, in chars.
    LookBehindAssertion(usize, bool, usize),
}

pub open spec fn transition_view(t: Transition) -> TransitionView {
    match t {
        Transition::Jump(_) => TransitionView::Jump,
        Transition::Char(c) => TransitionView::Char(c.codepoint, c.byte_length),
        Transition::SpecialChar(_) => TransitionView::SpecialChar,
        Transition::String(s) => TransitionView::String(s.codepoints@, s.byte_length),
        Transition::CharSet(c) => TransitionView::CharSet(c.items@, c.negative),
        Transition::BackReference(b) => TransitionView::BackReference(b.capture_group_index),
        Transition::AnchorAssertion(a) => TransitionView::AnchorAssertion(a.name),
        Transition::BoundaryAssertion(b) => TransitionView::BoundaryAssertion(b.name),
        Transition::CaptureStart(c) => TransitionView::CaptureStart(c.capture_group_index),
        Transition::CaptureEnd(c) => TransitionView::CaptureEnd(c.capture_group_index),
        Transition::CounterReset(_) => TransitionView::CounterReset,
        Transition::CounterSave(_) => TransitionView::CounterSave,
        Transition::CounterInc(_) => TransitionView::CounterInc,
        Transition::CounterCheck(c) => TransitionView::CounterCheck(c.repetition_type),
        Transition::Repetition(r) => TransitionView::Repetition(r.repetition_type),
        Transition::LookAheadAssertion(l) => TransitionView::LookAheadAssertion(l.route_index, l.negative),
        Transition::LookBehindAssertion(l) => TransitionView::LookBehindAssertion(
            l.route_index,
            l.negative,
            l.match_length_in_char,
        ),
    }
}

/// A route as a value: for each node, its transitions and their targets in
/// the order they are tried; the entry, the exit, and whether the route is
/// fixed at its start.
pub struct RouteView {
    pub nodes: Seq<Seq<(TransitionView, usize)>>,
    pub start: usize,
    pub end: usize,
    pub fixed: bool,
}

pub open spec fn items_view(items: Seq<TransitionItem>) -> Seq<(TransitionView, usize)> {
    items.map_values(|item: TransitionItem| (transition_view(item.transition), item.target_node_index))
}

pub open spec fn route_view(route: Route) -> RouteView {
    RouteView {
        nodes: route.nodes@.map_values(|node: Node| items_view(node.transition_items@)),
        start: route.start_node_index,
        end: route.end_node_index,
        fixed: route.is_fixed_start_position,
    }
}

/// The routes of an object file as values.
pub open spec fn routes_view(routes: Seq<Route>) -> Seq<RouteView> {
    routes.map_values(|route: Route| route_view(route))
}

/// Whether a transition opens or closes capture group 0, the whole match.
pub open spec fn writes_group_zero(t: Transition) -> bool {
    ||| (t matches Transition::CaptureStart(c) && c.capture_group_index == 0)
    ||| (t matches Transition::CaptureEnd(c) && c.capture_group_index == 0)
}

/// Capture group 0 frames the main route: its entry node has a single
/// transition, which opens group 0; no transition leads back to the entry;
/// the transitions that lead to the exit are exactly those that close
/// group 0; and no other transition, in any route, opens or closes it.
pub open spec fn group_zero_frames_main(object_file: ObjectFile) -> bool {
    let main = object_file.routes@[0];
    let s = main.start_node_index as int;
    let e = main.end_node_index as int;
    &&& s != e
    &&& main.nodes@[s].transition_items@.len() == 1
    &&& main.nodes@[s].transition_items@[0].transition matches Transition::CaptureStart(c)
        && c.capture_group_index == 0
    &&& forall|i: int, j: int|
        #![trigger main.nodes@[i].transition_items@[j]]
        0 <= i < main.nodes@.len() && 0 <= j < main.nodes@[i].transition_items@.len() ==> {
            let item = main.nodes@[i].transition_items@[j];
            &&& item.target_node_index != s
            &&& (item.target_node_index == e <==> (item.transition matches Transition::CaptureEnd(c)
                && c.capture_group_index == 0))
            &&& ((item.transition matches Transition::CaptureStart(c) && c.capture_group_index == 0)
                ==> i == s)
        }
    &&& forall|k: int|
        #![trigger object_file.routes@[k]]
        0 < k < object_file.routes@.len() ==> object_file.routes@[k].leaves_group_zero()
}

impl Route {
    /// No transition of the route opens or closes capture group 0.
    pub open spec fn leaves_group_zero(self) -> bool {
        forall|i: int, j: int|
            #![trigger self.nodes@[i].transition_items@[j]]
            0 <= i < self.nodes@.len() && 0 <= j < self.nodes@[i].transition_items@.len()
                ==> !writes_group_zero(self.nodes@[i].transition_items@[j].transition)
    }

    /// Every transition of the route leads to a node of the route and is well formed.
    pub open spec fn edges_wf(self, route_index: int, routes_len: int, groups_len: int) -> bool {
        forall|i: int, j: int|
            #![trigger self.nodes@[i].transition_items@[j]]
            0 <= i < self.nodes@.len() && 0 <= j < self.nodes@[i].transition_items@.len() ==> {
                &&& self.nodes@[i].transition_items@[j].target_node_index < self.nodes@.len()
                &&& transition_wf(
                    self.nodes@[i].transition_items@[j].transition,
                    route_index,
                    routes_len,
                    groups_len,
                )
            }
    }

    /// The entry and the exit are nodes of the route.
    pub open spec fn ports_wf(self) -> bool {
        &&& self.start_node_index < self.nodes@.len()
        &&& self.end_node_index < self.nodes@.len()
    }

    /// The entry and the exit are nodes of the route, and all its edges are well formed.
    pub open spec fn wf(self, route_index: int, routes_len: int, groups_len: int) -> bool {
        &&& self.ports_wf()
        &&& self.edges_wf(route_index, routes_len, groups_len)
    }

    /// Creates a route without nodes.
    pub fn new() -> (r: Self)
        ensures
            r.nodes@.len() == 0,
            r.start_node_index == 0,
            r.end_node_index == 0,
            !r.is_fixed_start_position,
    {
        Route {
            nodes: Vec::new(),
            start_node_index: 0,
            end_node_index: 0,
            is_fixed_start_position: false,
        }
    }

    /// Adds a node without transitions and returns its index.
    pub fn create_node(&mut self) -> (r: usize)
        ensures
            r == old(self).nodes@.len(),
            final(self).nodes@.len() == old(self).nodes@.len() + 1,
            final(self).nodes@[r as int].transition_items@.len() == 0,
            forall|i: int| 0 <= i < r ==> final(self).nodes@[i] == old(self).nodes@[i],
            final(self).start_node_index == old(self).start_node_index,
            final(self).end_node_index == old(self).end_node_index,
            final(self).is_fixed_start_position == old(self).is_fixed_start_position,
    {
        let index = self.nodes.len();
        self.nodes.push(Node { transition_items: Vec::new() });
        index
    }

    /// Adds a transition from node `source_node_index` to node
    /// `target_node_index`, after the transitions that the node already has.
    pub fn create_transition_item(
        &mut self,
        source_node_index: usize,
        target_node_index: usize,
        transition: Transition,
    )
        requires
            source_node_index < old(self).nodes@.len(),
        ensures
            final(self).nodes@.len() == old(self).nodes@.len(),
            final(self).nodes@[source_node_index as int].transition_items@ == old(
                self,
            ).nodes@[source_node_index as int].transition_items@.push(
                TransitionItem { transition, target_node_index },
            ),
            forall|i: int|
                0 <= i < old(self).nodes@.len() && i != source_node_index ==> final(self).nodes@[i]
                    == old(self).nodes@[i],
            final(self).start_node_index == old(self).start_node_index,
            final(self).end_node_index == old(self).end_node_index,
            final(self).is_fixed_start_position == old(self).is_fixed_start_position,
    {
        let mut node = self.nodes.remove(source_node_index);
        node.transition_items.push(TransitionItem { transition, target_node_index });
        self.nodes.insert(source_node_index, node);
        proof {
            assert(forall|i: int|
                0 <= i < old(self).nodes@.len() && i != source_node_index ==> self.nodes@[i]
                    == old(self).nodes@[i]);
        }
    }
}

impl ObjectFile {
    /// Every route is well formed and only refers to routes that come after it.
    pub open spec fn wf(self) -> bool {
        &&& self.routes@.len() > 0
        &&& self.capture_group_names@.len() > 0
        &&& forall|i: int|
            #![trigger self.routes@[i]]
            0 <= i < self.routes@.len() ==> self.routes@[i].wf(
                i,
                self.routes@.len() as int,
                self.capture_group_names@.len() as int,
            )
    }

    /// Creates an object file without routes and without capture groups.
    pub fn new() -> (r: Self)
        ensures
            r.routes@.len() == 0,
            r.capture_group_names@.len() == 0,
    {
        ObjectFile { routes: Vec::new(), capture_group_names: Vec::new() }
    }

    /// Adds an empty route and returns its index.
    pub fn create_route(&mut self) -> (r: usize)
        ensures
            r == old(self).routes@.len(),
            final(self).routes@ == old(self).routes@.push(final(self).routes@[r as int]),
            final(self).routes@[r as int].nodes@.len() == 0,
            final(self).routes@[r as int].start_node_index == 0,
            final(self).routes@[r as int].end_node_index == 0,
            !final(self).routes@[r as int].is_fixed_start_position,
            final(self).capture_group_names@ == old(self).capture_group_names@,
    {
        let index = self.routes.len();
        self.routes.push(Route::new());
        index
    }

    /// Adds a capture group with an optional name and returns its index.
    pub fn create_capture_group(&mut self, name: Option<String>) -> (r: usize)
        ensures
            r == old(self).capture_group_names@.len(),
            final(self).capture_group_names@ == old(self).capture_group_names@.push(name),
            final(self).routes@ == old(self).routes@,
    {
        let index = self.capture_group_names.len();
        self.capture_group_names.push(name);
        index
    }

    /// The index of the first capture group with the given name.
    pub fn get_capture_group_index_by_name(&self, name: &str) -> (r: Option<usize>)
        ensures
            r is None ==> forall|i: int|
                0 <= i < self.capture_group_names@.len() ==> !(#[trigger] self.capture_group_names@[i] matches Some(n) && n@ == name@),
            r matches Some(idx) ==> {
                &&& idx < self.capture_group_names@.len()
                &&& self.capture_group_names@[idx as int] matches Some(n) && n@ == name@
                &&& forall|i: int|
                    0 <= i < idx ==> !(#[trigger] self.capture_group_names@[i] matches Some(n) && n@ == name@)
            },
    {
        let target = name.to_owned();
        let mut i: usize = 0;
        while i < self.capture_group_names.len()
            invariant
                i <= self.capture_group_names@.len(),
                target@ == name@,
                forall|k: int|
                    0 <= k < i ==> !(#[trigger] self.capture_group_names@[k] matches Some(n) && n@ == name@),
            decreases self.capture_group_names@.len() - i,
        {
            if let Some(n) = &self.capture_group_names[i] {
                if *n == target {
                    return Some(i);
                }
            }
            i = i + 1;
        }
        None
    }

    /// The name of a capture group, if it has one.
    pub fn get_capture_group_name_by_index(&self, index: usize) -> (r: Option<&str>)
        requires
            index < self.capture_group_names@.len(),
        ensures
            self.capture_group_names@[index as int] is None ==> r is None,
            self.capture_group_names@[index as int] matches Some(n) ==> r matches Some(s) && s@ == n@,
    {
        match &self.capture_group_names[index] {
            Some(n) => Some(n.as_str()),
            None => None,
        }
    }
}


/// Edges that are well formed stay so when more routes and more capture
/// groups come to exist.
pub proof fn lemma_edges_wf_grow(route: Route, route_index: int, l1: int, g1: int, l2: int, g2: int)
    requires
        route.edges_wf(route_index, l1, g1),
        l1 <= l2,
        g1 <= g2,
    ensures
        route.edges_wf(route_index, l2, g2),
{
    assert forall|i: int, j: int|
        #![trigger route.nodes@[i].transition_items@[j]]
        0 <= i < route.nodes@.len() && 0 <= j < route.nodes@[i].transition_items@.len() implies {
            &&& route.nodes@[i].transition_items@[j].target_node_index < route.nodes@.len()
            &&& transition_wf(route.nodes@[i].transition_items@[j].transition, route_index, l2, g2)
        } by {
        assert(transition_wf(route.nodes@[i].transition_items@[j].transition, route_index, l1, g1));
    }
}

impl ObjectFile {
    /// Adds a node to route `route_index` and returns its index.
    pub fn create_node_in_route(&mut self, route_index: usize) -> (r: usize)
        requires
            route_index < old(self).routes@.len(),
        ensures
            final(self).routes@.len() == old(self).routes@.len(),
            final(self).capture_group_names@ == old(self).capture_group_names@,
            forall|i: int|
                0 <= i < old(self).routes@.len() && i != route_index ==> final(self).routes@[i]
                    == old(self).routes@[i],
            r == old(self).routes@[route_index as int].nodes@.len(),
            final(self).routes@[route_index as int].nodes@.len() == r + 1,
            final(self).routes@[route_index as int].nodes@[r as int].transition_items@.len() == 0,
            forall|i: int|
                0 <= i < r ==> final(self).routes@[route_index as int].nodes@[i] == old(
                    self,
                ).routes@[route_index as int].nodes@[i],
            final(self).routes@[route_index as int].start_node_index == old(self).routes@[route_index as int].start_node_index,
            final(self).routes@[route_index as int].end_node_index == old(self).routes@[route_index as int].end_node_index,
            final(self).routes@[route_index as int].is_fixed_start_position == old(self).routes@[route_index as int].is_fixed_start_position,
            old(self).routes@[route_index as int].edges_wf(
                route_index as int,
                old(self).routes@.len() as int,
                old(self).capture_group_names@.len() as int,
            ) ==> final(self).routes@[route_index as int].edges_wf(
                route_index as int,
                old(self).routes@.len() as int,
                old(self).capture_group_names@.len() as int,
            ),
    {
        let mut route = self.routes.remove(route_index);
        let ghost old_route = route;
        let index = route.create_node();
        proof {
            let l = old(self).routes@.len() as int;
            let g = old(self).capture_group_names@.len() as int;
            if old_route.edges_wf(route_index as int, l, g) {
                assert forall|i: int, j: int|
                    #![trigger route.nodes@[i].transition_items@[j]]
                    0 <= i < route.nodes@.len() && 0 <= j < route.nodes@[i].transition_items@.len() implies {
                        &&& route.nodes@[i].transition_items@[j].target_node_index < route.nodes@.len()
                        &&& transition_wf(route.nodes@[i].transition_items@[j].transition, route_index as int, l, g)
                    } by {
                    assert(i < old_route.nodes@.len());
                    assert(route.nodes@[i] == old_route.nodes@[i]);
                }
            }
        }
        self.routes.insert(route_index, route);
        proof {
            assert(forall|i: int|
                0 <= i < old(self).routes@.len() && i != route_index ==> self.routes@[i]
                    == old(self).routes@[i]);
        }
        index
    }

    /// Adds a transition to route `route_index`, from node `source_node_index`
    /// to node `target_node_index`, after the transitions the node already has.
    pub fn create_transition_item_in_route(
        &mut self,
        route_index: usize,
        source_node_index: usize,
        target_node_index: usize,
        transition: Transition,
    )
        requires
            route_index < old(self).routes@.len(),
            source_node_index < old(self).routes@[route_index as int].nodes@.len(),
            target_node_index < old(self).routes@[route_index as int].nodes@.len(),
            transition_wf(
                transition,
                route_index as int,
                old(self).routes@.len() as int,
                old(self).capture_group_names@.len() as int,
            ),
        ensures
            final(self).routes@.len() == old(self).routes@.len(),
            final(self).capture_group_names@ == old(self).capture_group_names@,
            forall|i: int|
                0 <= i < old(self).routes@.len() && i != route_index ==> final(self).routes@[i]
                    == old(self).routes@[i],
            final(self).routes@[route_index as int].nodes@.len() == old(self).routes@[route_index as int].nodes@.len(),
            final(self).routes@[route_index as int].nodes@[source_node_index as int].transition_items@
                == old(self).routes@[route_index as int].nodes@[source_node_index as int].transition_items@.push(
                TransitionItem { transition, target_node_index },
            ),
            forall|i: int|
                0 <= i < old(self).routes@[route_index as int].nodes@.len() && i != source_node_index
                    ==> final(self).routes@[route_index as int].nodes@[i] == old(self).routes@[route_index as int].nodes@[i],
            final(self).routes@[route_index as int].start_node_index == old(self).routes@[route_index as int].start_node_index,
            final(self).routes@[route_index as int].end_node_index == old(self).routes@[route_index as int].end_node_index,
            final(self).routes@[route_index as int].is_fixed_start_position == old(self).routes@[route_index as int].is_fixed_start_position,
            old(self).routes@[route_index as int].edges_wf(
                route_index as int,
                old(self).routes@.len() as int,
                old(self).capture_group_names@.len() as int,
            ) ==> final(self).routes@[route_index as int].edges_wf(
                route_index as int,
                old(self).routes@.len() as int,
                old(self).capture_group_names@.len() as int,
            ),
    {
        let mut route = self.routes.remove(route_index);
        let ghost old_route = route;
        route.create_transition_item(source_node_index, target_node_index, transition);
        proof {
            let l = old(self).routes@.len() as int;
            let g = old(self).capture_group_names@.len() as int;
            if old_route.edges_wf(route_index as int, l, g) {
                assert forall|i: int, j: int|
                    #![trigger route.nodes@[i].transition_items@[j]]
                    0 <= i < route.nodes@.len() && 0 <= j < route.nodes@[i].transition_items@.len() implies {
                        &&& route.nodes@[i].transition_items@[j].target_node_index < route.nodes@.len()
                        &&& transition_wf(route.nodes@[i].transition_items@[j].transition, route_index as int, l, g)
                    } by {
                    if i != source_node_index {
                        assert(route.nodes@[i] == old_route.nodes@[i]);
                    } else if j < old_route.nodes@[i].transition_items@.len() {
                        assert(route.nodes@[i].transition_items@[j] == old_route.nodes@[i].transition_items@[j]);
                    }
                }
            }
        }
        self.routes.insert(route_index, route);
        proof {
            assert(forall|i: int|
                0 <= i < old(self).routes@.len() && i != route_index ==> self.routes@[i]
                    == old(self).routes@[i]);
        }
    }

    /// Sets the entry node, the exit node and the fixed-start flag of route `route_index`.
    pub fn set_route_ports(
        &mut self,
        route_index: usize,
        start_node_index: usize,
        end_node_index: usize,
        is_fixed_start_position: bool,
    )
        requires
            route_index < old(self).routes@.len(),
        ensures
            final(self).routes@.len() == old(self).routes@.len(),
            final(self).capture_group_names@ == old(self).capture_group_names@,
            forall|i: int|
                0 <= i < old(self).routes@.len() && i != route_index ==> final(self).routes@[i]
                    == old(self).routes@[i],
            final(self).routes@[route_index as int].nodes@ == old(self).routes@[route_index as int].nodes@,
            final(self).routes@[route_index as int].start_node_index == start_node_index,
            final(self).routes@[route_index as int].end_node_index == end_node_index,
            final(self).routes@[route_index as int].is_fixed_start_position == is_fixed_start_position,
    {
        let mut route = self.routes.remove(route_index);
        route.start_node_index = start_node_index;
        route.end_node_index = end_node_index;
        route.is_fixed_start_position = is_fixed_start_position;
        self.routes.insert(route_index, route);
        proof {
            assert(forall|i: int|
                0 <= i < old(self).routes@.len() && i != route_index ==> self.routes@[i]
                    == old(self).routes@[i]);
        }
    }
}

} // verus!
