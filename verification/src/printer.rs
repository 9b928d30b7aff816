use vstd::prelude::*;

use crate::ast::{
    AnchorAssertionName, BackReference, BoundaryAssertionName, CharRange, CharSet, CharSetElement,
    Expression, FunctionCall, FunctionName, Literal, PresetCharSetName, Program, SpecBackReference,
    SpecCharSet, SpecCharSetElement, SpecExpr, SpecLiteral, SpecialCharName, element_view,
    exprs_views, lemma_charset_elements_view, lemma_exprs_view_all,
};
use crate::text::{append_decimal, append_str, decimal, push_char};

verus! {

// The text form of a syntax tree, as the ANRE language writes it: function
// calls `name(arg, ...)`, chars in single quotes, strings in double quotes,
// groups in parentheses, alternatives joined by `||`.

pub open spec fn function_name_text(name: FunctionName) -> Seq<char> {
    match name {
        FunctionName::Optional => "optional"@,
        FunctionName::OneOrMore => "one_or_more"@,
        FunctionName::ZeroOrMore => "zero_or_more"@,
        FunctionName::Repeat => "repeat"@,
        FunctionName::RepeatRange => "repeat_range"@,
        FunctionName::AtLeast => "at_least"@,
        FunctionName::OptionalLazy => "optional_lazy"@,
        FunctionName::OneOrMoreLazy => "one_or_more_lazy"@,
        FunctionName::ZeroOrMoreLazy => "zero_or_more_lazy"@,
        FunctionName::RepeatRangeLazy => "repeat_range_lazy"@,
        FunctionName::AtLeastLazy => "at_least_lazy"@,
        FunctionName::IsBefore => "is_before"@,
        FunctionName::IsAfter => "is_after"@,
        FunctionName::IsNotBefore => "is_not_before"@,
        FunctionName::IsNotAfter => "is_not_after"@,
        FunctionName::Name => "name"@,
        FunctionName::Index => "index"@,
    }
}

pub open spec fn preset_name_text(name: PresetCharSetName) -> Seq<char> {
    match name {
        PresetCharSetName::CharWord => "char_word"@,
        PresetCharSetName::CharNotWord => "char_not_word"@,
        PresetCharSetName::CharDigit => "char_digit"@,
        PresetCharSetName::CharNotDigit => "char_not_digit"@,
        PresetCharSetName::CharSpace => "char_space"@,
        PresetCharSetName::CharNotSpace => "char_not_space"@,
        PresetCharSetName::CharHex => "char_hex"@,
    }
}

/// Each preset charset has an ANRE name of its own, and the name tells
/// whether the charset matches the characters outside a set: it begins
/// with `char_not_` exactly for the negative presets.
pub proof fn lemma_preset_names_are_distinct(a: PresetCharSetName, b: PresetCharSetName)
    ensures
        preset_name_text(a) == preset_name_text(b) ==> a == b,
        (preset_name_text(a).len() >= 9 && preset_name_text(a).subrange(0, 9) == "char_not_"@)
            <==> (crate::graph::preset_transition(a) matches crate::object_file::TransitionView::CharSet(
            _,
            true,
        )),
{
    reveal_strlit("char_word");
    reveal_strlit("char_not_word");
    reveal_strlit("char_digit");
    reveal_strlit("char_not_digit");
    reveal_strlit("char_space");
    reveal_strlit("char_not_space");
    reveal_strlit("char_hex");
    reveal_strlit("char_not_");
    if preset_name_text(a) == preset_name_text(b) {
        let ta = preset_name_text(a);
        let tb = preset_name_text(b);
        assert(ta.len() == tb.len());
        assert(ta[5] == tb[5] && ta[6] == tb[6] && ta[7] == tb[7] && ta[9] == tb[9]);
    }
    let ta = preset_name_text(a);
    if ta.len() >= 9 {
        assert(ta.subrange(0, 9)[5] == ta[5] && ta.subrange(0, 9)[6] == ta[6]);
        if ta.subrange(0, 9) == "char_not_"@ {
            assert(ta[5] == 'n' && ta[6] == 'o');
        }
    }
    match a {
        PresetCharSetName::CharNotWord => {
            assert(ta.subrange(0, 9) =~= "char_not_"@);
        },
        PresetCharSetName::CharNotDigit => {
            assert(ta.subrange(0, 9) =~= "char_not_"@);
        },
        PresetCharSetName::CharNotSpace => {
            assert(ta.subrange(0, 9) =~= "char_not_"@);
        },
        _ => {},
    }
}

pub open spec fn anchor_text(name: AnchorAssertionName) -> Seq<char> {
    match name {
        AnchorAssertionName::Start => "start"@,
        AnchorAssertionName::End => "end"@,
    }
}

pub open spec fn boundary_text(name: BoundaryAssertionName) -> Seq<char> {
    match name {
        BoundaryAssertionName::IsBound => "is_bound"@,
        BoundaryAssertionName::IsNotBound => "is_not_bound"@,
    }
}

/// A char in single quotes.
pub open spec fn quoted_char(c: char) -> Seq<char> {
    seq!['\''].push(c).push('\'')
}

pub open spec fn char_range_text(r: CharRange) -> Seq<char> {
    quoted_char(r.start) + ".."@ + quoted_char(r.end_included)
}

/// A charset: its elements, separated by `, `, in brackets, which a `!`
/// precedes when the charset is negative.
pub open spec fn charset_text(cs: SpecCharSet) -> Seq<char>
    decreases cs, 1nat,
{
    let inner = elements_text(cs.elements, cs.elements.len() as int);
    if cs.negative {
        "!["@ + inner + "]"@
    } else {
        "["@ + inner + "]"@
    }
}

/// The first `n` elements of a charset, separated by `, `.
pub open spec fn elements_text(els: Seq<SpecCharSetElement>, n: int) -> Seq<char>
    decreases els, n,
{
    if n <= 0 || n > els.len() {
        Seq::empty()
    } else if n == 1 {
        element_text(els[0])
    } else {
        elements_text(els, n - 1) + ", "@ + element_text(els[n - 1])
    }
}

pub open spec fn element_text(e: SpecCharSetElement) -> Seq<char>
    decreases e,
{
    match e {
        SpecCharSetElement::Char(c) => quoted_char(c),
        SpecCharSetElement::CharRange(r) => char_range_text(r),
        SpecCharSetElement::PresetCharSet(p) => preset_name_text(p),
        SpecCharSetElement::CharSet(nested) => charset_text(*nested),
    }
}

pub open spec fn literal_text(l: SpecLiteral) -> Seq<char> {
    match l {
        SpecLiteral::Number(n) => decimal(n as nat),
        SpecLiteral::Char(c) => quoted_char(c),
        SpecLiteral::String(s) => seq!['"'] + s + seq!['"'],
        SpecLiteral::Special(_) => "char_any"@,
        SpecLiteral::CharSet(cs) => charset_text(cs),
        SpecLiteral::PresetCharSet(p) => preset_name_text(p),
    }
}

/// An expression in parentheses when it is an alternative.
pub open spec fn or_operand_text(e: SpecExpr) -> Seq<char>
    decreases e, 2nat,
{
    if e is Or {
        "("@ + expr_text(e) + ")"@
    } else {
        expr_text(e)
    }
}

pub open spec fn expr_text(e: SpecExpr) -> Seq<char>
    decreases e, 1nat,
{
    match e {
        SpecExpr::Literal(l) => literal_text(l),
        SpecExpr::BackReference(SpecBackReference::Index(i)) => seq!['^'] + decimal(i as nat),
        SpecExpr::BackReference(SpecBackReference::Name(n)) => n,
        SpecExpr::AnchorAssertion(a) => anchor_text(a),
        SpecExpr::BoundaryAssertion(b) => boundary_text(b),
        SpecExpr::Group(exps) => "("@ + list_text(exps, exps.len() as int) + ")"@,
        SpecExpr::FunctionCall(name, args) => function_name_text(name) + "("@ + list_text(args, args.len() as int)
            + ")"@,
        SpecExpr::Or(left, right) => or_operand_text(*left) + " || "@ + or_operand_text(*right),
    }
}

/// The first `n` expressions, separated by `, `.
pub open spec fn list_text(exps: Seq<SpecExpr>, n: int) -> Seq<char>
    decreases exps, n,
{
    if n <= 0 || n > exps.len() {
        Seq::empty()
    } else if n == 1 {
        expr_text(exps[0])
    } else {
        list_text(exps, n - 1) + ", "@ + expr_text(exps[n - 1])
    }
}

/// The first `n` expressions of a program: a function call stands on a line
/// of its own, the other expressions are separated by `, `.
pub open spec fn program_text(exps: Seq<SpecExpr>, n: int) -> Seq<char>
    decreases n,
{
    if n <= 0 || n > exps.len() {
        Seq::empty()
    } else if n == 1 {
        expr_text(exps[0])
    } else {
        let sep = if exps[n - 2] is FunctionCall || exps[n - 1] is FunctionCall {
            "\n"@
        } else {
            ", "@
        };
        program_text(exps, n - 1) + sep + expr_text(exps[n - 1])
    }
}


fn append_quoted_char(s: &mut String, c: char)
    ensures
        final(s)@ == old(s)@ + quoted_char(c),
{
    push_char(s, '\'');
    push_char(s, c);
    push_char(s, '\'');
    proof {
        assert(s@ =~= old(s)@ + quoted_char(c));
    }
}

impl FunctionName {
    /// The name of the function.
    pub fn to_string(&self) -> (r: String)
        ensures
            r@ == function_name_text(*self),
    {
        match self {
            FunctionName::Optional => "optional".to_owned(),
            FunctionName::OneOrMore => "one_or_more".to_owned(),
            FunctionName::ZeroOrMore => "zero_or_more".to_owned(),
            FunctionName::Repeat => "repeat".to_owned(),
            FunctionName::RepeatRange => "repeat_range".to_owned(),
            FunctionName::AtLeast => "at_least".to_owned(),
            FunctionName::OptionalLazy => "optional_lazy".to_owned(),
            FunctionName::OneOrMoreLazy => "one_or_more_lazy".to_owned(),
            FunctionName::ZeroOrMoreLazy => "zero_or_more_lazy".to_owned(),
            FunctionName::RepeatRangeLazy => "repeat_range_lazy".to_owned(),
            FunctionName::AtLeastLazy => "at_least_lazy".to_owned(),
            FunctionName::IsBefore => "is_before".to_owned(),
            FunctionName::IsAfter => "is_after".to_owned(),
            FunctionName::IsNotBefore => "is_not_before".to_owned(),
            FunctionName::IsNotAfter => "is_not_after".to_owned(),
            FunctionName::Name => "name".to_owned(),
            FunctionName::Index => "index".to_owned(),
        }
    }
}

impl PresetCharSetName {
    /// The name of the preset charset.
    pub fn to_string(&self) -> (r: String)
        ensures
            r@ == preset_name_text(*self),
    {
        match self {
            PresetCharSetName::CharWord => "char_word".to_owned(),
            PresetCharSetName::CharNotWord => "char_not_word".to_owned(),
            PresetCharSetName::CharDigit => "char_digit".to_owned(),
            PresetCharSetName::CharNotDigit => "char_not_digit".to_owned(),
            PresetCharSetName::CharSpace => "char_space".to_owned(),
            PresetCharSetName::CharNotSpace => "char_not_space".to_owned(),
            PresetCharSetName::CharHex => "char_hex".to_owned(),
        }
    }
}

impl AnchorAssertionName {
    /// The name of the anchor assertion.
    pub fn to_string(&self) -> (r: String)
        ensures
            r@ == anchor_text(*self),
    {
        match self {
            AnchorAssertionName::Start => "start".to_owned(),
            AnchorAssertionName::End => "end".to_owned(),
        }
    }
}

impl BoundaryAssertionName {
    /// The name of the boundary assertion.
    pub fn to_string(&self) -> (r: String)
        ensures
            r@ == boundary_text(*self),
    {
        match self {
            BoundaryAssertionName::IsBound => "is_bound".to_owned(),
            BoundaryAssertionName::IsNotBound => "is_not_bound".to_owned(),
        }
    }
}

impl SpecialCharName {
    /// The name of the special char.
    pub fn to_string(&self) -> (r: String)
        ensures
            r@ == "char_any"@,
    {
        "char_any".to_owned()
    }
}

impl BackReference {
    /// The text of a back reference: `^` and the group index, or the group name.
    pub fn to_string(&self) -> (r: String)
        ensures
            r@ == expr_text(SpecExpr::BackReference(
                match *self {
                    BackReference::Index(i) => SpecBackReference::Index(i),
                    BackReference::Name(n) => SpecBackReference::Name(n@),
                },
            )),
    {
        let mut s = String::new();
        match self {
            BackReference::Index(index) => {
                push_char(&mut s, '^');
                append_decimal(&mut s, *index);
            },
            BackReference::Name(name) => {
                append_str(&mut s, name.as_str());
            },
        }
        proof {
            assert(s@ =~= expr_text(SpecExpr::BackReference(
                match *self {
                    BackReference::Index(i) => SpecBackReference::Index(i),
                    BackReference::Name(n) => SpecBackReference::Name(n@),
                },
            )));
        }
        s
    }
}

impl CharRange {
    /// The range as `'start'..'end'`.
    pub fn to_string(&self) -> (r: String)
        ensures
            r@ == char_range_text(*self),
    {
        let mut s = String::new();
        append_quoted_char(&mut s, self.start);
        append_str(&mut s, "..");
        append_quoted_char(&mut s, self.end_included);
        proof {
            assert(s@ =~= char_range_text(*self));
        }
        s
    }
}

fn append_charset(s: &mut String, cs: &CharSet)
    ensures
        final(s)@ == old(s)@ + charset_text(cs@),
    decreases cs,
{
    let ghost els = cs.elements@.map_values(|e: CharSetElement| element_view(e));
    proof {
        lemma_charset_elements_view(cs.elements@, cs.elements@.len() as int);
        assert(cs.elements@.take(cs.elements@.len() as int) =~= cs.elements@);
        assert(cs@.elements == els);
    }
    if cs.negative {
        append_str(s, "![");
    } else {
        append_str(s, "[");
    }
    let ghost start = s@;
    let mut i: usize = 0;
    while i < cs.elements.len()
        invariant
            i <= cs.elements@.len(),
            els == cs.elements@.map_values(|e: CharSetElement| element_view(e)),
            s@ == start + elements_text(els, i as int),
        decreases cs.elements@.len() - i,
    {
        if i > 0 {
            append_str(s, ", ");
        }
        let element = &cs.elements[i];
        match element {
            CharSetElement::Char(c) => append_quoted_char(s, *c),
            CharSetElement::CharRange(r) => {
                let text = r.to_string();
                append_str(s, text.as_str());
            },
            CharSetElement::PresetCharSet(p) => {
                let text = p.to_string();
                append_str(s, text.as_str());
            },
            CharSetElement::CharSet(nested) => {
                append_charset(s, nested);
            },
        }
        proof {
            assert(els[i as int] == element_view(*element));
            if i > 0 {
                assert(s@ =~= start + (elements_text(els, i as int) + ", "@ + element_text(els[i as int])));
            } else {
                assert(s@ =~= start + element_text(els[0]));
            }
        }
        i = i + 1;
    }
    append_str(s, "]");
    proof {
        assert(s@ =~= old(s)@ + charset_text(cs@));
    }
}

impl CharSet {
    /// The charset as `[element, ...]`, or `![element, ...]` when negative.
    pub fn to_string(&self) -> (r: String)
        ensures
            r@ == charset_text(self@),
    {
        let mut s = String::new();
        append_charset(&mut s, self);
        proof {
            assert(s@ =~= charset_text(self@));
        }
        s
    }
}

impl CharSetElement {
    pub fn to_string(&self) -> (r: String)
        ensures
            r@ == element_text(element_view(*self)),
    {
        let mut s = String::new();
        match self {
            CharSetElement::Char(c) => append_quoted_char(&mut s, *c),
            CharSetElement::CharRange(r) => {
                let text = r.to_string();
                append_str(&mut s, text.as_str());
            },
            CharSetElement::PresetCharSet(p) => {
                let text = p.to_string();
                append_str(&mut s, text.as_str());
            },
            CharSetElement::CharSet(nested) => append_charset(&mut s, nested),
        }
        proof {
            assert(s@ =~= element_text(element_view(*self)));
        }
        s
    }
}

fn append_literal(s: &mut String, l: &Literal)
    ensures
        final(s)@ == old(s)@ + literal_text(l@),
{
    match l {
        Literal::Number(n) => append_decimal(s, *n),
        Literal::Char(c) => append_quoted_char(s, *c),
        Literal::String(text) => {
            push_char(s, '"');
            append_str(s, text.as_str());
            push_char(s, '"');
        },
        Literal::Special(_) => append_str(s, "char_any"),
        Literal::CharSet(cs) => append_charset(s, cs),
        Literal::PresetCharSet(p) => {
            let text = p.to_string();
            append_str(s, text.as_str());
        },
    }
    proof {
        assert(s@ =~= old(s)@ + literal_text(l@));
    }
}

impl Literal {
    pub fn to_string(&self) -> (r: String)
        ensures
            r@ == literal_text(self@),
    {
        let mut s = String::new();
        append_literal(&mut s, self);
        proof {
            assert(s@ =~= literal_text(self@));
        }
        s
    }
}

/// Appends the expressions, separated by `, `.
fn append_list(s: &mut String, exps: &Vec<Expression>)
    ensures
        final(s)@ == old(s)@ + list_text(exprs_views(exps@), exps@.len() as int),
    decreases exps@, 0nat,
{
    let ghost views = exprs_views(exps@);
    let mut i: usize = 0;
    while i < exps.len()
        invariant
            i <= exps@.len(),
            views == exprs_views(exps@),
            s@ == old(s)@ + list_text(views, i as int),
        decreases exps@.len() - i,
    {
        if i > 0 {
            append_str(s, ", ");
        }
        let ghost before = s@;
        append_expression(s, &exps[i]);
        proof {
            assert(views[i as int] == exps@[i as int]@);
            if i > 0 {
                assert(s@ =~= old(s)@ + (list_text(views, i as int) + ", "@ + expr_text(views[i as int])));
            } else {
                assert(s@ =~= old(s)@ + expr_text(views[0]));
            }
        }
        i = i + 1;
    }
}

/// Appends an expression, in parentheses when it is an alternative.
fn append_or_operand(s: &mut String, e: &Expression)
    ensures
        final(s)@ == old(s)@ + or_operand_text(e@),
    decreases e, 2nat,
{
    let is_or = match e {
        Expression::Or(_, _) => true,
        _ => false,
    };
    if is_or {
        push_char(s, '(');
        append_expression(s, e);
        push_char(s, ')');
    } else {
        append_expression(s, e);
    }
    proof {
        reveal_strlit("(");
        reveal_strlit(")");
        assert(s@ =~= old(s)@ + or_operand_text(e@));
    }
}

fn append_expression(s: &mut String, e: &Expression)
    ensures
        final(s)@ == old(s)@ + expr_text(e@),
    decreases e, 1nat,
{
    match e {
        Expression::Literal(l) => append_literal(s, l),
        Expression::BackReference(BackReference::Index(i)) => {
            push_char(s, '^');
            append_decimal(s, *i);
        },
        Expression::BackReference(BackReference::Name(n)) => append_str(s, n.as_str()),
        Expression::AnchorAssertion(a) => match a {
            AnchorAssertionName::Start => append_str(s, "start"),
            AnchorAssertionName::End => append_str(s, "end"),
        },
        Expression::BoundaryAssertion(b) => match b {
            BoundaryAssertionName::IsBound => append_str(s, "is_bound"),
            BoundaryAssertionName::IsNotBound => append_str(s, "is_not_bound"),
        },
        Expression::Group(exps) => {
            proof {
                lemma_exprs_view_all(exps@);
            }
            push_char(s, '(');
            append_list(s, exps);
            push_char(s, ')');
        },
        Expression::FunctionCall(call) => {
            proof {
                lemma_exprs_view_all(call.args@);
            }
            append_function_call(s, call);
        },
        Expression::Or(left, right) => {
            append_or_operand(s, left);
            append_str(s, " || ");
            append_or_operand(s, right);
        },
    }
    proof {
        reveal_strlit("(");
        reveal_strlit(")");
        assert(s@ =~= old(s)@ + expr_text(e@));
    }
}

fn append_function_call(s: &mut String, call: &FunctionCall)
    ensures
        final(s)@ == old(s)@ + function_name_text(call.name) + "("@ + list_text(
            exprs_views(call.args@),
            call.args@.len() as int,
        ) + ")"@,
    decreases call, 0nat,
{
    let name = call.name.to_string();
    append_str(s, name.as_str());
    push_char(s, '(');
    append_list(s, &call.args);
    push_char(s, ')');
    proof {
        reveal_strlit("(");
        reveal_strlit(")");
        assert(s@ =~= old(s)@ + function_name_text(call.name) + "("@ + list_text(
            exprs_views(call.args@),
            call.args@.len() as int,
        ) + ")"@);
    }
}

impl FunctionCall {
    /// The call as `name(arg, ...)`.
    pub fn to_string(&self) -> (r: String)
        ensures
            r@ == function_name_text(self.name) + "("@ + list_text(
                exprs_views(self.args@),
                self.args@.len() as int,
            ) + ")"@,
    {
        let mut s = String::new();
        append_function_call(&mut s, self);
        proof {
            assert(s@ =~= function_name_text(self.name) + "("@ + list_text(
                exprs_views(self.args@),
                self.args@.len() as int,
            ) + ")"@);
        }
        s
    }
}

impl Expression {
    pub fn to_string(&self) -> (r: String)
        ensures
            r@ == expr_text(self@),
    {
        let mut s = String::new();
        append_expression(&mut s, self);
        proof {
            assert(s@ =~= expr_text(self@));
        }
        s
    }
}

impl Program {
    /// The program as text: a function call on a line of its own, the other
    /// expressions separated by `, `.
    pub fn to_string(&self) -> (r: String)
        ensures
            r@ == program_text(self@, self@.len() as int),
    {
        proof {
            lemma_exprs_view_all(self.expressions@);
        }
        let ghost views = self@;
        let mut s = String::new();
        let mut i: usize = 0;
        while i < self.expressions.len()
            invariant
                i <= self.expressions@.len(),
                views == exprs_views(self.expressions@),
                views == self@,
                s@ == program_text(views, i as int),
            decreases self.expressions@.len() - i,
        {
            let e = &self.expressions[i];
            proof {
                assert(views[i as int] == e@);
            }
            if i > 0 {
                let previous_is_call = match &self.expressions[i - 1] {
                    Expression::FunctionCall(_) => true,
                    _ => false,
                };
                let current_is_call = match e {
                    Expression::FunctionCall(_) => true,
                    _ => false,
                };
                proof {
                    assert(views[i - 1] == self.expressions@[i - 1]@);
                }
                if previous_is_call || current_is_call {
                    push_char(&mut s, '\n');
                    proof {
                        assert(seq!['\n'] =~= "\n"@) by {
                            reveal_strlit("\n");
                        }
                    }
                } else {
                    append_str(&mut s, ", ");
                }
            }
            let ghost before = s@;
            append_expression(&mut s, e);
            proof {
                if i > 0 {
                    let sep = if views[i - 1] is FunctionCall || views[i as int] is FunctionCall {
                        "\n"@
                    } else {
                        ", "@
                    };
                    assert(s@ =~= program_text(views, i as int) + sep + expr_text(views[i as int]));
                } else {
                    assert(s@ =~= expr_text(views[0]));
                }
            }
            i = i + 1;
        }
        s
    }
}

} // verus!
