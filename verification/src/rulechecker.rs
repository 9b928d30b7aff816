use vstd::prelude::*;

use crate::ast::{Expression, FunctionName, Literal};

verus! {

/// The number of characters that an expression matches: either always the
/// same number, or a number that depends on the text.
#[derive(Debug, PartialEq, Eq, Clone, Copy)]
pub enum MatchLength {
    Variable,
    /// Length in characters (Unicode scalar values).
    Fixed(usize),
}

impl MatchLength {
    /// The length as a mathematical value: `None` for a variable length.
    pub open spec fn view(self) -> Option<int> {
        match self {
            MatchLength::Variable => None,
            MatchLength::Fixed(v) => Some(v as int),
        }
    }

    /// The length of two expressions that match one after the other.
    pub fn add(self, rhs: MatchLength) -> (r: MatchLength)
        requires
            spec_add(self@, rhs@) matches Some(v) ==> v <= usize::MAX,
        ensures
            r@ == spec_add(self@, rhs@),
    {
        match self {
            MatchLength::Variable => MatchLength::Variable,
            MatchLength::Fixed(v0) => match rhs {
                MatchLength::Variable => MatchLength::Variable,
                MatchLength::Fixed(v1) => MatchLength::Fixed(v0 + v1),
            },
        }
    }

    /// The length of an expression that is repeated `rhs` times.
    pub fn mul(self, rhs: usize) -> (r: MatchLength)
        requires
            spec_mul(self@, rhs as int) matches Some(v) ==> v <= usize::MAX,
        ensures
            r@ == spec_mul(self@, rhs as int),
    {
        match self {
            MatchLength::Variable => MatchLength::Variable,
            MatchLength::Fixed(v) => {
                proof {
                    assert(v * rhs <= usize::MAX);
                }
                MatchLength::Fixed(v * rhs)
            },
        }
    }

    /// The length of an expression that matches either of two expressions:
    /// fixed only when both are fixed and equal.
    pub fn bitor(self, rhs: MatchLength) -> (r: MatchLength)
        ensures
            r@ == spec_or(self@, rhs@),
    {
        match self {
            MatchLength::Variable => MatchLength::Variable,
            MatchLength::Fixed(v0) => match rhs {
                MatchLength::Variable => MatchLength::Variable,
                MatchLength::Fixed(v1) => {
                    if v0 == v1 {
                        MatchLength::Fixed(v0)
                    } else {
                        MatchLength::Variable
                    }
                },
            },
        }
    }
}

pub open spec fn spec_add(a: Option<int>, b: Option<int>) -> Option<int> {
    match (a, b) {
        (Some(x), Some(y)) => Some(x + y),
        _ => None,
    }
}

pub open spec fn spec_mul(a: Option<int>, k: int) -> Option<int> {
    match a {
        Some(x) => Some(x * k),
        None => None,
    }
}

pub open spec fn spec_or(a: Option<int>, b: Option<int>) -> Option<int> {
    match (a, b) {
        (Some(x), Some(y)) => if x == y { Some(x) } else { None },
        _ => None,
    }
}

/// The match length of an expression, in characters; `None` when it varies.
pub open spec fn match_length(exp: Expression) -> Option<int>
    decreases exp, 0nat,
{
    match exp {
        Expression::Literal(literal) => match literal {
            Literal::Number(_) => None,
            Literal::String(s) => Some(s@.len() as int),
            _ => Some(1),
        },
        Expression::BackReference(_) => None,
        Expression::AnchorAssertion(_) => Some(0),
        Expression::BoundaryAssertion(_) => Some(0),
        Expression::Group(exps) => group_match_length(exps@, exps@.len() as int),
        Expression::FunctionCall(call) => match call.name {
            FunctionName::Repeat => if call.args@.len() >= 2 {
                match (call.args@[1]) {
                    Expression::Literal(Literal::Number(f)) => spec_mul(
                        match_length(call.args@[0]),
                        f as int,
                    ),
                    _ => None,
                }
            } else {
                None
            },
            FunctionName::IsBefore | FunctionName::IsNotBefore | FunctionName::IsAfter
            | FunctionName::IsNotAfter | FunctionName::Name | FunctionName::Index => if call.args@.len() >= 1 {
                match_length(call.args@[0])
            } else {
                None
            },
            _ => None,
        },
        Expression::Or(left, right) => spec_or(match_length(*left), match_length(*right)),
    }
}

/// The match length of the first `n` expressions of a group, one after another.
pub open spec fn group_match_length(exps: Seq<Expression>, n: int) -> Option<int>
    decreases exps, n,
{
    if n <= 0 || n > exps.len() {
        Some(0)
    } else if n == 1 {
        match_length(exps[0])
    } else {
        spec_add(group_match_length(exps, n - 1), match_length(exps[n - 1]))
    }
}

/// The expressions on which the length can be computed: the arguments that
/// are read exist, no number literal stands where a pattern is expected, no
/// group is empty, and no length that is computed on the way exceeds `usize::MAX`.
pub open spec fn length_computable(exp: Expression) -> bool
    decreases exp, 0nat,
{
    match exp {
        Expression::Literal(literal) => match literal {
            Literal::Number(_) => false,
            Literal::String(s) => s@.len() <= usize::MAX,
            _ => true,
        },
        Expression::Group(exps) => exps@.len() > 0 && group_computable(exps@, exps@.len() as int),
        Expression::FunctionCall(call) => match call.name {
            FunctionName::Repeat => {
                &&& call.args@.len() >= 2
                &&& length_computable(call.args@[0])
                &&& call.args@[1] is Literal && call.args@[1]->Literal_0 is Number
                &&& (match (call.args@[1]) {
                    Expression::Literal(Literal::Number(f)) => match match_length(call.args@[0]) {
                        Some(v) => v * f <= usize::MAX,
                        None => true,
                    },
                    _ => false,
                })
            },
            FunctionName::IsBefore | FunctionName::IsNotBefore | FunctionName::IsAfter
            | FunctionName::IsNotAfter | FunctionName::Name | FunctionName::Index => call.args@.len() >= 1
                && length_computable(call.args@[0]),
            _ => true,
        },
        Expression::Or(left, right) => length_computable(*left) && length_computable(*right),
        _ => true,
    }
}

/// The first `n` expressions of a group are computable, and so are the sums
/// of their lengths.
pub open spec fn group_computable(exps: Seq<Expression>, n: int) -> bool
    decreases exps, n,
{
    if n <= 0 || n > exps.len() {
        true
    } else if n == 1 {
        length_computable(exps[0])
    } else {
        &&& group_computable(exps, n - 1)
        &&& length_computable(exps[n - 1])
        &&& (group_match_length(exps, n) matches Some(v) ==> v <= usize::MAX)
    }
}

proof fn lemma_length_fits(exp: Expression)
    requires
        length_computable(exp),
    ensures
        match_length(exp) matches Some(v) ==> 0 <= v <= usize::MAX,
    decreases exp,
{
    match exp {
        Expression::Group(exps) => {
            lemma_group_length_fits(exps@, exps@.len() as int);
        },
        Expression::FunctionCall(call) => {
            match call.name {
                FunctionName::Repeat => {
                    lemma_length_fits(call.args@[0]);
                    if let Expression::Literal(Literal::Number(f)) = call.args@[1] {
                        if let Some(v) = match_length(call.args@[0]) {
                            assert(v * f >= 0) by (nonlinear_arith)
                                requires v >= 0, f >= 0;
                        }
                    }
                },
                FunctionName::IsBefore | FunctionName::IsNotBefore | FunctionName::IsAfter
                | FunctionName::IsNotAfter | FunctionName::Name | FunctionName::Index => {
                    lemma_length_fits(call.args@[0]);
                },
                _ => {},
            }
        },
        Expression::Or(left, right) => {
            lemma_length_fits(*left);
            lemma_length_fits(*right);
        },
        _ => {},
    }
}

proof fn lemma_group_length_fits(exps: Seq<Expression>, n: int)
    requires
        group_computable(exps, n),
    ensures
        group_match_length(exps, n) matches Some(v) ==> 0 <= v <= usize::MAX,
    decreases exps, n,
{
    if n <= 0 || n > exps.len() {
    } else if n == 1 {
        lemma_length_fits(exps[0]);
    } else {
        lemma_group_length_fits(exps, n - 1);
        lemma_length_fits(exps[n - 1]);
    }
}

/// The match length of an expression: the number of characters that it
/// matches, when that number does not depend on the text. A look-behind
/// assertion needs a pattern of fixed length.
pub fn get_match_length(exp: &Expression) -> (r: MatchLength)
    requires
        length_computable(*exp),
    ensures
        r@ == match_length(*exp),
    decreases exp,
{
    proof {
        lemma_length_fits(*exp);
    }
    match exp {
        Expression::Literal(literal) => match literal {
            Literal::Char(_) => MatchLength::Fixed(1),
            Literal::String(s) => MatchLength::Fixed(s.unicode_len()),
            Literal::Special(_) => MatchLength::Fixed(1),
            Literal::CharSet(_) => MatchLength::Fixed(1),
            Literal::PresetCharSet(_) => MatchLength::Fixed(1),
            Literal::Number(_) => MatchLength::Variable,
        },
        Expression::BackReference(_) => MatchLength::Variable,
        Expression::AnchorAssertion(_) => MatchLength::Fixed(0),
        Expression::BoundaryAssertion(_) => MatchLength::Fixed(0),
        Expression::Group(exps) => {
            proof {
                lemma_group_prefix_computable(exps@, exps@.len() as int, 1);
            }
            let mut acc = get_match_length(&exps[0]);
            let mut i: usize = 1;
            while i < exps.len()
                invariant
                    1 <= i <= exps@.len(),
                    length_computable(*exp),
                    *exp == Expression::Group(*exps),
                    acc@ == group_match_length(exps@, i as int),
                decreases exps@.len() - i,
            {
                proof {
                    assert(group_computable(exps@, i + 1)) by {
                        lemma_group_prefix_computable(exps@, exps@.len() as int, i + 1);
                    }
                    lemma_group_length_fits(exps@, i + 1);
                }
                let item = get_match_length(&exps[i]);
                acc = acc.add(item);
                i = i + 1;
            }
            acc
        },
        Expression::FunctionCall(function_call) => match function_call.name {
            FunctionName::Repeat => {
                let base_exp = &function_call.args[0];
                let factor = match &function_call.args[1] {
                    Expression::Literal(Literal::Number(f)) => *f,
                    _ => 0,
                };
                get_match_length(base_exp).mul(factor)
            },
            FunctionName::IsBefore | FunctionName::IsNotBefore | FunctionName::IsAfter
            | FunctionName::IsNotAfter | FunctionName::Name | FunctionName::Index => get_match_length(
                &function_call.args[0],
            ),
            _ => MatchLength::Variable,
        },
        Expression::Or(left_exp, right_exp) => {
            let left = get_match_length(left_exp);
            let right = get_match_length(right_exp);
            left.bitor(right)
        },
    }
}

proof fn lemma_group_prefix_computable(exps: Seq<Expression>, n: int, m: int)
    requires
        group_computable(exps, n),
        1 <= m <= n <= exps.len(),
    ensures
        group_computable(exps, m),
    decreases n - m,
{
    if m < n {
        lemma_group_prefix_computable(exps, n - 1, m);
    }
}

/// Joining lengths one after another is associative and commutative, and a
/// variable length absorbs any other.
pub proof fn lemma_add_laws(a: Option<int>, b: Option<int>, c: Option<int>)
    ensures
        spec_add(a, b) == spec_add(b, a),
        spec_add(spec_add(a, b), c) == spec_add(a, spec_add(b, c)),
        spec_add(None, a) == None::<int>,
        spec_add(a, Some(0)) == a,
{
}

/// Alternation is commutative and idempotent; it keeps a fixed length only
/// when both sides have it.
pub proof fn lemma_or_laws(a: Option<int>, b: Option<int>)
    ensures
        spec_or(a, b) == spec_or(b, a),
        spec_or(a, a) == a,
        spec_or(a, b) is Some ==> a == b && a is Some,
{
}


/// The match length of an expression, or `None` when it cannot be computed
/// (see `length_computable`): checks the conditions that `get_match_length`
/// requires, and computes the length where they hold.
pub fn try_get_match_length(exp: &Expression) -> (r: Option<MatchLength>)
    ensures
        r is Some <==> length_computable(*exp),
        r matches Some(m) ==> m@ == match_length(*exp),
    decreases exp,
{
    match exp {
        Expression::Literal(literal) => match literal {
            Literal::Number(_) => None,
            Literal::String(s) => {
                let _ = s.unicode_len();
                Some(get_match_length(exp))
            },
            _ => Some(get_match_length(exp)),
        },
        Expression::Group(exps) => {
            if exps.len() == 0 {
                return None;
            }
            let mut acc = match try_get_match_length(&exps[0]) {
                Some(m) => m,
                None => {
                    proof {
                        if group_computable(exps@, exps@.len() as int) {
                            lemma_group_computable_needs_all(exps@, exps@.len() as int, 1);
                        }
                    }
                    return None;
                },
            };
            let mut i: usize = 1;
            while i < exps.len()
                invariant
                    1 <= i <= exps@.len(),
                    *exp == Expression::Group(*exps),
                    group_computable(exps@, i as int),
                    acc@ == group_match_length(exps@, i as int),
                decreases exps@.len() - i,
            {
                proof {
                    lemma_group_length_fits(exps@, i as int);
                }
                let item = match try_get_match_length(&exps[i]) {
                    Some(m) => m,
                    None => {
                        proof {
                            if group_computable(exps@, exps@.len() as int) {
                                lemma_group_computable_needs_all(exps@, exps@.len() as int, i + 1);
                            }
                        }
                        return None;
                    },
                };
                proof {
                    lemma_length_fits(exps[i as int]);
                }
                acc = match (acc, item) {
                    (MatchLength::Fixed(a), MatchLength::Fixed(b)) => {
                        if a > usize::MAX - b {
                            proof {
                                if group_computable(exps@, exps@.len() as int) {
                                    lemma_group_computable_needs_all(exps@, exps@.len() as int, i + 1);
                                }
                            }
                            return None;
                        }
                        MatchLength::Fixed(a + b)
                    },
                    _ => MatchLength::Variable,
                };
                i = i + 1;
            }
            Some(acc)
        },
        Expression::FunctionCall(function_call) => match function_call.name {
            FunctionName::Repeat => {
                if function_call.args.len() < 2 {
                    return None;
                }
                let factor = match &function_call.args[1] {
                    Expression::Literal(Literal::Number(f)) => *f,
                    _ => {
                        return None;
                    },
                };
                match try_get_match_length(&function_call.args[0]) {
                    Some(MatchLength::Fixed(v)) => {
                        if factor != 0 && v > usize::MAX / factor {
                            proof {
                                assert(v * factor > usize::MAX) by (nonlinear_arith)
                                    requires factor > 0, v > usize::MAX / factor;
                            }
                            None
                        } else {
                            proof {
                                assert(v * factor <= usize::MAX) by (nonlinear_arith)
                                    requires factor == 0 || v <= usize::MAX / factor;
                            }
                            Some(MatchLength::Fixed(v * factor))
                        }
                    },
                    Some(MatchLength::Variable) => Some(MatchLength::Variable),
                    None => None,
                }
            },
            FunctionName::IsBefore | FunctionName::IsNotBefore | FunctionName::IsAfter
            | FunctionName::IsNotAfter | FunctionName::Name | FunctionName::Index => {
                if function_call.args.len() < 1 {
                    return None;
                }
                try_get_match_length(&function_call.args[0])
            },
            _ => Some(MatchLength::Variable),
        },
        Expression::Or(left_exp, right_exp) => {
            let left = match try_get_match_length(left_exp) {
                Some(m) => m,
                None => {
                    return None;
                },
            };
            let right = match try_get_match_length(right_exp) {
                Some(m) => m,
                None => {
                    return None;
                },
            };
            Some(left.bitor(right))
        },
        _ => Some(get_match_length(exp)),
    }
}

/// A group is computable only when each of its first `m` expressions is,
/// and when the sum of their lengths, if fixed, fits.
proof fn lemma_group_computable_needs_all(exps: Seq<Expression>, n: int, m: int)
    requires
        group_computable(exps, n),
        1 <= m <= n <= exps.len(),
    ensures
        length_computable(exps[m - 1]),
        group_match_length(exps, m) matches Some(v) ==> v <= usize::MAX,
    decreases n - m,
{
    if m < n {
        lemma_group_computable_needs_all(exps, n - 1, m);
    } else if m == 1 {
        lemma_length_fits(exps[0]);
    }
}

/// The byte position `n` whole characters after byte `p`.
pub open spec fn chars_ahead(bytes: Seq<u8>, p: int, n: nat) -> int
    decreases n,
{
    if n == 0 {
        p
    } else {
        chars_ahead(bytes, p + crate::utf8reader::char_at(bytes, p).1, (n - 1) as nat)
    }
}

/// A string that matches at a character boundary of the text ends, as many
/// bytes on as its UTF-8 encoding is long, after as many characters as it has.
proof fn lemma_string_covers_its_chars(bytes: Seq<u8>, p: int, cps: Seq<u32>)
    requires
        crate::char_boundaries::valid_from(bytes, p),
        crate::transition::string_matches_at(bytes, p, cps),
    ensures
        p + crate::transition::utf8_total(cps) == chars_ahead(bytes, p, cps.len()),
    decreases cps.len(),
{
    if cps.len() > 0 {
        crate::char_boundaries::lemma_step_over_char(bytes, p);
        let next = p + crate::utf8reader::char_at(bytes, p).1;
        lemma_string_covers_its_chars(bytes, next, cps.drop_first());
    }
}

/// Two single-transition components built on the same graph are the same
/// only when their transitions are.
proof fn lemma_single_view_unique(
    b: crate::graph::Build,
    v1: crate::object_file::TransitionView,
    v2: crate::object_file::TransitionView,
)
    requires
        0 <= b.current < b.routes.len(),
        crate::graph::single(b, v1) == crate::graph::single(b, v2),
    ensures
        v1 == v2,
{
    let n = crate::graph::node_count(b);
    let l1 = crate::graph::single(b, v1).1.routes[b.current].nodes[n];
    let l2 = crate::graph::single(b, v2).1.routes[b.current].nodes[n];
    assert(l1.last() == (v1, (n + 1) as usize));
    assert(l2.last() == (v2, (n + 1) as usize));
}

/// The match length of a literal is the number of characters that its
/// compiled transition consumes: wherever at a character boundary of a
/// text the transition succeeds, it moves over exactly that many whole
/// characters.
pub proof fn lemma_literal_length_is_chars_consumed(
    literal: Literal,
    b: crate::graph::Build,
    t: crate::transition::Transition,
    route_index: int,
    routes_len: int,
    groups_len: int,
    bytes: Seq<u8>,
    ranges: Seq<crate::context::MatchRange>,
    counters: Seq<usize>,
    p: int,
    count: usize,
)
    requires
        0 <= b.current < b.routes.len(),
        crate::graph::emitted(Expression::Literal(literal), b) == crate::graph::single(
            b,
            crate::object_file::transition_view(t),
        ),
        crate::object_file::transition_wf(t, route_index, routes_len, groups_len),
        crate::char_boundaries::valid_from(bytes, p),
        crate::transition::basic_outcome(t, bytes, ranges, counters, bytes.len() as int, p, count) is Success,
    ensures
        match_length(Expression::Literal(literal)) is Some,
        match_length(Expression::Literal(literal)).unwrap() >= 0,
        crate::transition::basic_outcome(t, bytes, ranges, counters, bytes.len() as int, p, count) matches crate::transition::ExecuteResult::Success(
            forward,
            _,
        ) ==> p + forward == chars_ahead(bytes, p, match_length(Expression::Literal(literal)).unwrap() as nat),
{
    let view = crate::object_file::transition_view(t);
    reveal_with_fuel(chars_ahead, 2);
    match literal {
        Literal::Number(_) => {
            assert(crate::graph::emitted(Expression::Literal(literal), b).1 == b);
            let n = crate::graph::node_count(b);
            assert(crate::graph::single(b, view).1.routes[b.current].nodes.len() == n + 2);
        },
        _ => {
            let emitted_view = match literal {
                Literal::Char(c) => crate::object_file::TransitionView::Char(
                    c as u32,
                    crate::transition::utf8_length(c as u32),
                ),
                Literal::String(s) => crate::object_file::TransitionView::String(
                    s@.map_values(|c: char| c as u32),
                    vstd::utf8::encode_utf8(s@).len() as usize,
                ),
                Literal::Special(_) => crate::object_file::TransitionView::SpecialChar,
                Literal::PresetCharSet(name) => crate::graph::preset_transition(name),
                Literal::CharSet(cs) => crate::object_file::TransitionView::CharSet(
                    crate::compiler::charset_items(cs),
                    cs.negative,
                ),
                Literal::Number(_) => crate::object_file::TransitionView::Jump,
            };
            assert(crate::graph::emitted(Expression::Literal(literal), b) == crate::graph::single(
                b,
                emitted_view,
            ));
            lemma_single_view_unique(b, view, emitted_view);
        },
    }
    match t {
        crate::transition::Transition::Char(c) => {
            crate::char_boundaries::lemma_step_over_char(bytes, p);
        },
        crate::transition::Transition::SpecialChar(_) => {
            crate::char_boundaries::lemma_step_over_char(bytes, p);
        },
        crate::transition::Transition::CharSet(_) => {
            crate::char_boundaries::lemma_step_over_char(bytes, p);
        },
        crate::transition::Transition::String(st) => {
            lemma_string_covers_its_chars(bytes, p, st.codepoints@);
        },
        _ => {},
    }
    match literal {
        Literal::String(s) => {
            assert(view matches crate::object_file::TransitionView::String(cps, _) && cps.len()
                == s@.len());
        },
        Literal::PresetCharSet(name) => {
            assert(crate::graph::preset_transition(name) is CharSet);
            assert(t is CharSet);
        },
        Literal::Char(_) => {
            assert(t is Char);
        },
        Literal::Special(_) => {
            assert(t is SpecialChar);
        },
        Literal::CharSet(_) => {
            assert(t is CharSet);
        },
        Literal::Number(_) => {
            assert(false);
        },
    }
}

} // verus!
