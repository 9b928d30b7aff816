use vstd::prelude::*;

use crate::ast::{AnchorAssertionName, BoundaryAssertionName};
use crate::object_file::{ObjectFile, Route, TransitionItem};
use crate::text::{append_decimal, append_str, char_from_u32, decimal, push_char};
use crate::transition::{CharSetItem, RepetitionType, Transition};

verus! {

// The text forms of transitions and of object files, as the debug output
// writes them: one line per node (`>` marks the entry, `<` the exit), one
// line per transition, then one line per capture group.

/// The char of a code point; U+FFFD for a value that is no char.
pub open spec fn codepoint_char(cp: u32) -> char {
    if cp <= 0x10ffff && !(0xd800 <= cp <= 0xdfff) {
        cp as char
    } else {
        '\u{fffd}'
    }
}

pub open spec fn quoted(c: char) -> Seq<char> {
    seq!['\''].push(c).push('\'')
}

/// A charset char in quotes; a tab, a carriage return and a line feed are
/// escaped.
pub open spec fn charset_char_text(c: char) -> Seq<char> {
    if c == '\t' {
        "'\\t'"@
    } else if c == '\r' {
        "'\\r'"@
    } else if c == '\n' {
        "'\\n'"@
    } else {
        quoted(c)
    }
}

pub open spec fn item_text(item: CharSetItem) -> Seq<char> {
    match item {
        CharSetItem::Char(cp) => charset_char_text(codepoint_char(cp)),
        CharSetItem::Range(r) => quoted(codepoint_char(r.start)) + ".."@ + quoted(codepoint_char(r.end_included)),
    }
}

/// The first `n` items, separated by `, `.
pub open spec fn items_text(items: Seq<CharSetItem>, n: int) -> Seq<char>
    decreases n,
{
    if n <= 0 || n > items.len() {
        Seq::empty()
    } else if n == 1 {
        item_text(items[0])
    } else {
        items_text(items, n - 1) + ", "@ + item_text(items[n - 1])
    }
}

pub open spec fn repetition_type_text(r: RepetitionType) -> Seq<char> {
    match r {
        RepetitionType::Specified(n) => "times "@ + decimal(n as nat),
        RepetitionType::Range(m, n) => if n == usize::MAX {
            "from "@ + decimal(m as nat) + " to MAX"@
        } else {
            "from "@ + decimal(m as nat) + " to "@ + decimal(n as nat)
        },
    }
}

/// `{index}`
pub open spec fn braced(index: usize) -> Seq<char> {
    seq!['{'] + decimal(index as nat) + seq!['}']
}

/// `"text"`
pub open spec fn double_quoted(s: Seq<char>) -> Seq<char> {
    seq!['"'] + s + seq!['"']
}

pub open spec fn transition_text(t: Transition) -> Seq<char> {
    match t {
        Transition::Jump(_) => "Jump"@,
        Transition::Char(c) => "Char "@ + quoted(codepoint_char(c.codepoint)),
        Transition::SpecialChar(_) => "Any char"@,
        Transition::String(s) => "String "@ + double_quoted(
            s.codepoints@.map_values(|cp: u32| codepoint_char(cp)),
        ),
        Transition::CharSet(cs) => "Charset "@ + (if cs.negative { "!["@ } else { "["@ }) + items_text(
            cs.items@,
            cs.items@.len() as int,
        ) + "]"@,
        Transition::BackReference(b) => "Back reference "@ + braced(b.capture_group_index),
        Transition::AnchorAssertion(a) => "Anchor assertion "@ + double_quoted(
            match a.name {
                AnchorAssertionName::Start => "start"@,
                AnchorAssertionName::End => "end"@,
            },
        ),
        Transition::BoundaryAssertion(b) => "Boundary assertion "@ + double_quoted(
            match b.name {
                BoundaryAssertionName::IsBound => "is_bound"@,
                BoundaryAssertionName::IsNotBound => "is_not_bound"@,
            },
        ),
        Transition::CaptureStart(c) => "Capture start "@ + braced(c.capture_group_index),
        Transition::CaptureEnd(c) => "Capture end "@ + braced(c.capture_group_index),
        Transition::CounterReset(_) => "Counter reset"@,
        Transition::CounterSave(_) => "Counter save"@,
        Transition::CounterInc(_) => "Counter inc"@,
        Transition::CounterCheck(c) => "Counter check "@ + repetition_type_text(c.repetition_type),
        Transition::Repetition(r) => "Repetition "@ + repetition_type_text(r.repetition_type),
        Transition::LookAheadAssertion(l) => (if l.negative {
            "Look ahead negative $"@
        } else {
            "Look ahead $"@
        }) + decimal(l.route_index as nat),
        Transition::LookBehindAssertion(l) => (if l.negative {
            "Look behind negative $"@
        } else {
            "Look behind $"@
        }) + decimal(l.route_index as nat) + ", match length "@ + decimal(l.match_length_in_char as nat),
    }
}

/// The lines joined with line breaks.
pub open spec fn join_lines(lines: Seq<Seq<char>>) -> Seq<char>
    decreases lines.len(),
{
    if lines.len() == 0 {
        Seq::empty()
    } else if lines.len() == 1 {
        lines[0]
    } else {
        join_lines(lines.drop_last()) + seq!['\n'] + lines.last()
    }
}

pub open spec fn item_line(item: TransitionItem) -> Seq<char> {
    "  -> "@ + decimal(item.target_node_index as nat) + ", "@ + transition_text(item.transition)
}

/// The line of node `i` and the lines of its transitions.
pub open spec fn node_lines(route: Route, i: int) -> Seq<Seq<char>> {
    let mark = if i == route.start_node_index {
        "> "@
    } else if i == route.end_node_index {
        "< "@
    } else {
        "- "@
    };
    seq![mark + decimal(i as nat)] + route.nodes@[i].transition_items@.map_values(
        |item: TransitionItem| item_line(item),
    )
}

/// The lines of the first `n` nodes of a route.
pub open spec fn nodes_lines(route: Route, n: int) -> Seq<Seq<char>>
    decreases n,
{
    if n <= 0 {
        Seq::empty()
    } else {
        nodes_lines(route, n - 1) + node_lines(route, n - 1)
    }
}

/// The lines of the first `n` routes; each has a `= $index` line when there
/// is more than one route.
pub open spec fn routes_lines(object_file: ObjectFile, n: int) -> Seq<Seq<char>>
    decreases n,
{
    if n <= 0 {
        Seq::empty()
    } else {
        let route = object_file.routes@[n - 1];
        let head = if object_file.routes@.len() > 1 {
            seq!["= $"@ + decimal((n - 1) as nat)]
        } else {
            Seq::empty()
        };
        routes_lines(object_file, n - 1) + head + nodes_lines(route, route.nodes@.len() as int)
    }
}

pub open spec fn group_line(index: int, name: Option<String>) -> Seq<char> {
    "# "@ + braced(index as usize) + match name {
        Some(s) => ", "@ + s@,
        None => Seq::empty(),
    }
}

/// The lines of the capture groups.
pub open spec fn groups_lines(object_file: ObjectFile) -> Seq<Seq<char>> {
    Seq::new(
        object_file.capture_group_names@.len(),
        |i: int| group_line(i, object_file.capture_group_names@[i]),
    )
}

/// The debug text of an object file.
pub open spec fn debug_text(object_file: ObjectFile) -> Seq<char> {
    join_lines(routes_lines(object_file, object_file.routes@.len() as int) + groups_lines(object_file))
}


fn codepoint_to_char(cp: u32) -> (c: char)
    ensures
        c == codepoint_char(cp),
{
    match char_from_u32(cp) {
        Some(c) => {
            proof {
                vstd::utf8::char_u32_cast(c, cp);
            }
            c
        },
        None => '\u{fffd}',
    }
}

fn append_quoted(s: &mut String, c: char)
    ensures
        final(s)@ == old(s)@ + quoted(c),
{
    push_char(s, '\'');
    push_char(s, c);
    push_char(s, '\'');
    proof {
        assert(s@ =~= old(s)@ + quoted(c));
    }
}

fn append_item(s: &mut String, item: &CharSetItem)
    ensures
        final(s)@ == old(s)@ + item_text(*item),
{
    match item {
        CharSetItem::Char(cp) => {
            let c = codepoint_to_char(*cp);
            if c == '\t' {
                append_str(s, "'\\t'");
            } else if c == '\r' {
                append_str(s, "'\\r'");
            } else if c == '\n' {
                append_str(s, "'\\n'");
            } else {
                append_quoted(s, c);
            }
        },
        CharSetItem::Range(r) => {
            append_quoted(s, codepoint_to_char(r.start));
            append_str(s, "..");
            append_quoted(s, codepoint_to_char(r.end_included));
        },
    }
    proof {
        assert(s@ =~= old(s)@ + item_text(*item));
    }
}

fn append_repetition_type(s: &mut String, r: &RepetitionType)
    ensures
        final(s)@ == old(s)@ + repetition_type_text(*r),
{
    match r {
        RepetitionType::Specified(n) => {
            append_str(s, "times ");
            append_decimal(s, *n);
        },
        RepetitionType::Range(m, n) => {
            append_str(s, "from ");
            append_decimal(s, *m);
            if *n == usize::MAX {
                append_str(s, " to MAX");
            } else {
                append_str(s, " to ");
                append_decimal(s, *n);
            }
        },
    }
    proof {
        assert(s@ =~= old(s)@ + repetition_type_text(*r));
    }
}

fn append_braced(s: &mut String, index: usize)
    ensures
        final(s)@ == old(s)@ + braced(index),
{
    push_char(s, '{');
    append_decimal(s, index);
    push_char(s, '}');
    proof {
        assert(s@ =~= old(s)@ + braced(index));
    }
}

fn append_double_quoted(s: &mut String, t: &str)
    ensures
        final(s)@ == old(s)@ + double_quoted(t@),
{
    push_char(s, '"');
    append_str(s, t);
    push_char(s, '"');
    proof {
        assert(s@ =~= old(s)@ + double_quoted(t@));
    }
}

impl Transition {
    /// The transition as text.
    pub fn to_string(&self) -> (r: String)
        ensures
            r@ == transition_text(*self),
    {
        let mut s = String::new();
        match self {
            Transition::Jump(_) => append_str(&mut s, "Jump"),
            Transition::Char(c) => {
                append_str(&mut s, "Char ");
                append_quoted(&mut s, codepoint_to_char(c.codepoint));
            },
            Transition::SpecialChar(_) => append_str(&mut s, "Any char"),
            Transition::String(st) => {
                append_str(&mut s, "String ");
                let mut text = String::new();
                let mut i: usize = 0;
                while i < st.codepoints.len()
                    invariant
                        i <= st.codepoints@.len(),
                        text@ == st.codepoints@.take(i as int).map_values(|cp: u32| codepoint_char(cp)),
                    decreases st.codepoints@.len() - i,
                {
                    push_char(&mut text, codepoint_to_char(st.codepoints[i]));
                    proof {
                        assert(text@ =~= st.codepoints@.take(i + 1).map_values(|cp: u32| codepoint_char(cp)));
                    }
                    i = i + 1;
                }
                proof {
                    assert(st.codepoints@.take(i as int) =~= st.codepoints@);
                }
                append_double_quoted(&mut s, text.as_str());
            },
            Transition::CharSet(cs) => {
                if cs.negative {
                    append_str(&mut s, "Charset ![");
                } else {
                    append_str(&mut s, "Charset [");
                }
                let ghost start = s@;
                let mut i: usize = 0;
                while i < cs.items.len()
                    invariant
                        i <= cs.items@.len(),
                        s@ == start + items_text(cs.items@, i as int),
                    decreases cs.items@.len() - i,
                {
                    if i > 0 {
                        append_str(&mut s, ", ");
                    }
                    append_item(&mut s, &cs.items[i]);
                    proof {
                        if i > 0 {
                            assert(s@ =~= start + (items_text(cs.items@, i as int) + ", "@ + item_text(
                                cs.items@[i as int],
                            )));
                        } else {
                            assert(s@ =~= start + item_text(cs.items@[0]));
                        }
                    }
                    i = i + 1;
                }
                append_str(&mut s, "]");
                proof {
                    reveal_strlit("Charset ![");
                    reveal_strlit("Charset [");
                    reveal_strlit("Charset ");
                    reveal_strlit("![");
                    reveal_strlit("[");
                }
            },
            Transition::BackReference(b) => {
                append_str(&mut s, "Back reference ");
                append_braced(&mut s, b.capture_group_index);
            },
            Transition::AnchorAssertion(a) => {
                append_str(&mut s, "Anchor assertion ");
                match a.name {
                    AnchorAssertionName::Start => append_double_quoted(&mut s, "start"),
                    AnchorAssertionName::End => append_double_quoted(&mut s, "end"),
                }
            },
            Transition::BoundaryAssertion(b) => {
                append_str(&mut s, "Boundary assertion ");
                match b.name {
                    BoundaryAssertionName::IsBound => append_double_quoted(&mut s, "is_bound"),
                    BoundaryAssertionName::IsNotBound => append_double_quoted(&mut s, "is_not_bound"),
                }
            },
            Transition::CaptureStart(c) => {
                append_str(&mut s, "Capture start ");
                append_braced(&mut s, c.capture_group_index);
            },
            Transition::CaptureEnd(c) => {
                append_str(&mut s, "Capture end ");
                append_braced(&mut s, c.capture_group_index);
            },
            Transition::CounterReset(_) => append_str(&mut s, "Counter reset"),
            Transition::CounterSave(_) => append_str(&mut s, "Counter save"),
            Transition::CounterInc(_) => append_str(&mut s, "Counter inc"),
            Transition::CounterCheck(c) => {
                append_str(&mut s, "Counter check ");
                append_repetition_type(&mut s, &c.repetition_type);
            },
            Transition::Repetition(r) => {
                append_str(&mut s, "Repetition ");
                append_repetition_type(&mut s, &r.repetition_type);
            },
            Transition::LookAheadAssertion(l) => {
                if l.negative {
                    append_str(&mut s, "Look ahead negative $");
                } else {
                    append_str(&mut s, "Look ahead $");
                }
                append_decimal(&mut s, l.route_index);
            },
            Transition::LookBehindAssertion(l) => {
                if l.negative {
                    append_str(&mut s, "Look behind negative $");
                } else {
                    append_str(&mut s, "Look behind $");
                }
                append_decimal(&mut s, l.route_index);
                append_str(&mut s, ", match length ");
                append_decimal(&mut s, l.match_length_in_char);
            },
        }
        proof {
            assert(s@ =~= transition_text(*self));
        }
        s
    }
}


/// Appends a line: a line break first unless it is the first line.
fn push_line(s: &mut String, first: &mut bool, line: &str, Ghost(lines): Ghost<Seq<Seq<char>>>)
    requires
        old(s)@ == join_lines(lines),
        *old(first) == (lines.len() == 0),
    ensures
        final(s)@ == join_lines(lines.push(line@)),
        !*final(first),
{
    if !*first {
        push_char(s, '\n');
    }
    append_str(s, line);
    *first = false;
    proof {
        let l2 = lines.push(line@);
        assert(l2.drop_last() =~= lines);
        if lines.len() == 0 {
            assert(s@ =~= join_lines(l2));
        } else {
            assert(s@ =~= join_lines(l2));
        }
    }
}

impl ObjectFile {
    /// The object file as text: for each route its nodes and transitions,
    /// then the capture groups.
    pub fn get_debug_text(&self) -> (r: String)
        ensures
            r@ == debug_text(*self),
    {
        let mut s = String::new();
        let mut first = true;
        let ghost mut lines: Seq<Seq<char>> = Seq::empty();
        let route_count = self.routes.len();
        let mut k: usize = 0;
        while k < route_count
            invariant
                k <= route_count,
                route_count == self.routes@.len(),
                s@ == join_lines(lines),
                first == (lines.len() == 0),
                lines == routes_lines(*self, k as int),
            decreases route_count - k,
        {
            let route = &self.routes[k];
            let ghost before_route = lines;
            if route_count > 1 {
                let mut head = String::new();
                append_str(&mut head, "= $");
                append_decimal(&mut head, k);
                push_line(&mut s, &mut first, head.as_str(), Ghost(lines));
                proof {
                    lines = lines.push(head@);
                }
            }
            let ghost after_head = lines;
            let mut i: usize = 0;
            while i < route.nodes.len()
                invariant
                    i <= route.nodes@.len(),
                    s@ == join_lines(lines),
                    first == (lines.len() == 0),
                    lines == after_head + nodes_lines(*route, i as int),
                decreases route.nodes@.len() - i,
            {
                let mut node_line = String::new();
                if i == route.start_node_index {
                    append_str(&mut node_line, "> ");
                } else if i == route.end_node_index {
                    append_str(&mut node_line, "< ");
                } else {
                    append_str(&mut node_line, "- ");
                }
                append_decimal(&mut node_line, i);
                let ghost before_node = lines;
                push_line(&mut s, &mut first, node_line.as_str(), Ghost(lines));
                proof {
                    lines = lines.push(node_line@);
                }
                let items = &route.nodes[i].transition_items;
                let mut j: usize = 0;
                while j < items.len()
                    invariant
                        j <= items@.len(),
                        s@ == join_lines(lines),
                        first == (lines.len() == 0),
                        lines == before_node.push(node_line@) + items@.take(j as int).map_values(
                            |item: TransitionItem| item_line(item),
                        ),
                    decreases items@.len() - j,
                {
                    let item = &items[j];
                    let mut line = String::new();
                    append_str(&mut line, "  -> ");
                    append_decimal(&mut line, item.target_node_index);
                    append_str(&mut line, ", ");
                    let text = item.transition.to_string();
                    append_str(&mut line, text.as_str());
                    push_line(&mut s, &mut first, line.as_str(), Ghost(lines));
                    proof {
                        assert(line@ =~= item_line(*item));
                        lines = lines.push(line@);
                        assert(items@.take(j + 1).map_values(|item: TransitionItem| item_line(item))
                            =~= items@.take(j as int).map_values(|item: TransitionItem| item_line(item)).push(
                            item_line(*item),
                        ));
                    }
                    j = j + 1;
                }
                proof {
                    assert(items@.take(j as int) =~= items@);
                    assert(node_line@ =~= node_lines(*route, i as int)[0]);
                    assert(lines =~= after_head + nodes_lines(*route, i + 1));
                }
                i = i + 1;
            }
            proof {
                assert(lines =~= routes_lines(*self, k + 1));
            }
            k = k + 1;
        }
        let group_count = self.capture_group_names.len();
        let ghost routes_part = lines;
        let mut g: usize = 0;
        while g < group_count
            invariant
                g <= group_count,
                group_count == self.capture_group_names@.len(),
                s@ == join_lines(lines),
                first == (lines.len() == 0),
                lines == routes_part + groups_lines(*self).take(g as int),
            decreases group_count - g,
        {
            let mut line = String::new();
            append_str(&mut line, "# ");
            append_braced(&mut line, g);
            match &self.capture_group_names[g] {
                Some(name) => {
                    append_str(&mut line, ", ");
                    append_str(&mut line, name.as_str());
                },
                None => {},
            }
            push_line(&mut s, &mut first, line.as_str(), Ghost(lines));
            proof {
                assert(line@ =~= group_line(g as int, self.capture_group_names@[g as int]));
                lines = lines.push(line@);
                assert(lines =~= routes_part + groups_lines(*self).take(g + 1));
            }
            g = g + 1;
        }
        proof {
            assert(groups_lines(*self).take(g as int) =~= groups_lines(*self));
        }
        s
    }
}

} // verus!
