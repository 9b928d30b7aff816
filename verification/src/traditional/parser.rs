use vstd::prelude::*;

use crate::ast::{
    AnchorAssertionName, BackReference, BoundaryAssertionName, CharRange, CharSet, CharSetElement,
    Expression, FunctionCall, FunctionName, Literal, PresetCharSetName, Program, SpecBackReference,
    SpecCharSet, SpecCharSetElement, SpecExpr, SpecLiteral, SpecialCharName, element_view,
    exprs_views, lemma_charset_elements_view, lemma_exprs_view_all,
};
use crate::location::Location;
use crate::AnreError;

use super::lexer::{
    Failure, error_at, error_at_end, error_matches, lemma_lex_tokens_ok, lex_from_str, spec_lex,
    token_ok, token_views, tokens_ok,
};
use super::token::{Repetition, SpecToken, Token, TokenWithRange};

verus! {

// Grammar of traditional regular expressions, over the tokens of the lexer:
//
//   expression   := consecutive ( '|' expression )*
//   consecutive  := notations+            (up to ')' or '|'; a blank one is an error)
//   notations    := primary ( quantifier | repetition | look-ahead expression ')' )*
//   primary      := '^' | '$' | boundary | look-behind expression ')' expression
//                 | group | back reference | literal
//   group        := ( '(' | '(?:' | '(?<name>' ) expression ')'
//   literal      := char | charset | preset charset | '.'
//
// Consecutive chars are merged into a string, a consecutive sequence of more
// than one expression is an implied group, and a program whose only
// expression is a group is the group's expressions.

/// The outcome of parsing from a token index: the expression and the index
/// of the token after it.
pub type Parsed = Result<(SpecExpr, int), Failure>;

/// The range of the last token consumed before index `p`.
pub open spec fn last_range(ts: Seq<(SpecToken, Location)>, p: int) -> Location {
    if p <= 0 || p > ts.len() {
        Location { index: 0, line: 0, column: 0, length: 0 }
    } else {
        ts[p - 1].1
    }
}

/// The preset charset that `\w`, `\W`, `\d`, `\D`, `\s` or `\S` names.
pub open spec fn preset_name(c: char) -> PresetCharSetName {
    if c == 'w' {
        PresetCharSetName::CharWord
    } else if c == 'W' {
        PresetCharSetName::CharNotWord
    } else if c == 's' {
        PresetCharSetName::CharSpace
    } else if c == 'S' {
        PresetCharSetName::CharNotSpace
    } else if c == 'd' {
        PresetCharSetName::CharDigit
    } else {
        PresetCharSetName::CharNotDigit
    }
}

pub open spec fn is_char_literal(e: SpecExpr) -> bool {
    e matches SpecExpr::Literal(SpecLiteral::Char(_))
}

/// The number of char literals that end a sequence.
pub open spec fn char_run(s: Seq<SpecExpr>) -> nat
    decreases s.len(),
{
    if s.len() > 0 && is_char_literal(s.last()) {
        char_run(s.drop_last()) + 1
    } else {
        0
    }
}

/// The chars of a sequence of char literals.
pub open spec fn run_chars(s: Seq<SpecExpr>) -> Seq<char> {
    s.map_values(
        |e: SpecExpr|
            match e {
                SpecExpr::Literal(SpecLiteral::Char(c)) => c,
                _ => ' ',
            },
    )
}

/// Merges each run of two or more consecutive char literals into a string.
pub open spec fn merge_chars(s: Seq<SpecExpr>) -> Seq<SpecExpr>
    decreases s.len(),
{
    if s.len() == 0 {
        Seq::empty()
    } else {
        let r = char_run(s) as int;
        if 2 <= r <= s.len() {
            merge_chars(s.subrange(0, s.len() - r)).push(
                SpecExpr::Literal(SpecLiteral::String(run_chars(s.subrange(s.len() - r, s.len() as int)))),
            )
        } else {
            merge_chars(s.drop_last()).push(s.last())
        }
    }
}

/// The expression of a consecutive sequence that ends at token `q`.
pub open spec fn finish_consecutive(ts: Seq<(SpecToken, Location)>, q: int, acc: Seq<SpecExpr>) -> Parsed {
    if acc.len() == 0 {
        Err(Failure::At(last_range(ts, q)))
    } else {
        let m = merge_chars(acc);
        if m.len() == 1 {
            Ok((m[0], q))
        } else {
            Ok((SpecExpr::Group(m), q))
        }
    }
}

/// A call of `name` with the arguments `args`.
pub open spec fn call(name: FunctionName, args: Seq<SpecExpr>) -> SpecExpr {
    SpecExpr::FunctionCall(name, args)
}

pub open spec fn number(n: usize) -> SpecExpr {
    SpecExpr::Literal(SpecLiteral::Number(n))
}

/// An expression from token `p`: alternatives separated by `|`.
pub open spec fn p_expr(ts: Seq<(SpecToken, Location)>, p: int) -> Parsed
    decreases ts.len() - p, 7nat,
{
    match p_consecutive(ts, p) {
        Err(f) => Err(f),
        Ok((left, j)) => if p <= j <= ts.len() {
            p_or_loop(ts, left, j)
        } else {
            Err(Failure::End)
        },
    }
}

/// Joins `left` with the alternatives from token `j` on.
pub open spec fn p_or_loop(ts: Seq<(SpecToken, Location)>, left: SpecExpr, j: int) -> Parsed
    decreases ts.len() - j, 6nat,
{
    if 0 <= j < ts.len() && ts[j].0 is LogicOr {
        match p_expr(ts, j + 1) {
            Err(f) => Err(f),
            Ok((right, k)) => if j < k <= ts.len() {
                p_or_loop(ts, SpecExpr::Or(Box::new(left), Box::new(right)), k)
            } else {
                Err(Failure::End)
            },
        }
    } else {
        Ok((left, j))
    }
}

/// A consecutive sequence of expressions from token `p`.
pub open spec fn p_consecutive(ts: Seq<(SpecToken, Location)>, p: int) -> Parsed
    decreases ts.len() - p, 5nat,
{
    p_consecutive_loop(ts, p, Seq::empty())
}

/// The consecutive sequence that continues `acc` from token `q`.
pub open spec fn p_consecutive_loop(ts: Seq<(SpecToken, Location)>, q: int, acc: Seq<SpecExpr>) -> Parsed
    decreases ts.len() - q, 4nat,
{
    if 0 <= q < ts.len() && !(ts[q].0 is GroupEnd) && !(ts[q].0 is LogicOr) {
        match p_notations(ts, q) {
            Err(f) => Err(f),
            Ok((e, j)) => if q < j <= ts.len() {
                p_consecutive_loop(ts, j, acc.push(e))
            } else {
                Err(Failure::End)
            },
        }
    } else {
        finish_consecutive(ts, q, acc)
    }
}

/// A primary expression from token `p` with the notations that follow it.
pub open spec fn p_notations(ts: Seq<(SpecToken, Location)>, p: int) -> Parsed
    decreases ts.len() - p, 3nat,
{
    match p_primary(ts, p) {
        Err(f) => Err(f),
        Ok((e, j)) => if p < j <= ts.len() {
            p_notation_loop(ts, e, j)
        } else {
            Err(Failure::End)
        },
    }
}

/// Applies to `e` the notations from token `j` on.
pub open spec fn p_notation_loop(ts: Seq<(SpecToken, Location)>, e: SpecExpr, j: int) -> Parsed
    decreases ts.len() - j, 3nat,
{
    if j < 0 || j >= ts.len() {
        Ok((e, j))
    } else {
        match notation_step(ts, e, j) {
            None => Ok((e, j)),
            Some(Err(f)) => Err(f),
            Some(Ok((e2, k))) => if j < k <= ts.len() {
                p_notation_loop(ts, e2, k)
            } else {
                Err(Failure::End)
            },
        }
    }
}

/// Applies to `e` the notation at token `j`: `None` when that token is no
/// notation.
pub open spec fn notation_step(ts: Seq<(SpecToken, Location)>, e: SpecExpr, j: int) -> Option<Parsed>
    decreases ts.len() - j, 2nat,
{
    if j < 0 || j >= ts.len() {
        None
    } else {
        match ts[j].0 {
            SpecToken::Optional => Some(Ok((call(FunctionName::Optional, seq![e]), j + 1))),
            SpecToken::OptionalLazy => Some(Ok((call(FunctionName::OptionalLazy, seq![e]), j + 1))),
            SpecToken::OneOrMore => Some(Ok((call(FunctionName::OneOrMore, seq![e]), j + 1))),
            SpecToken::OneOrMoreLazy => Some(Ok((call(FunctionName::OneOrMoreLazy, seq![e]), j + 1))),
            SpecToken::ZeroOrMore => Some(Ok((call(FunctionName::ZeroOrMore, seq![e]), j + 1))),
            SpecToken::ZeroOrMoreLazy => Some(Ok((call(FunctionName::ZeroOrMoreLazy, seq![e]), j + 1))),
            SpecToken::Repetition(rep, lazy) => Some(
                match rep {
                    Repetition::Specified(n) => if lazy {
                        Err(Failure::At(last_range(ts, j)))
                    } else {
                        Ok((call(FunctionName::Repeat, seq![e, number(n)]), j + 1))
                    },
                    Repetition::AtLeast(n) => Ok(
                        (
                            call(
                                if lazy { FunctionName::AtLeastLazy } else { FunctionName::AtLeast },
                                seq![e, number(n)],
                            ),
                            j + 1,
                        ),
                    ),
                    Repetition::Range(m, n) => if lazy && m == n {
                        Err(Failure::At(last_range(ts, j)))
                    } else {
                        Ok(
                            (
                                call(
                                    if lazy { FunctionName::RepeatRangeLazy } else { FunctionName::RepeatRange },
                                    seq![e, number(m), number(n)],
                                ),
                                j + 1,
                            ),
                        )
                    },
                },
            ),
            SpecToken::LookAhead | SpecToken::LookAheadNegative => Some(
                match p_expr(ts, j + 1) {
                    Err(f) => Err(f),
                    Ok((a, k)) => {
                        let name = if ts[j].0 is LookAhead {
                            FunctionName::IsBefore
                        } else {
                            FunctionName::IsNotBefore
                        };
                        Ok((call(name, seq![e, a]), if k < ts.len() { k + 1 } else { k }))
                    },
                },
            ),
            _ => None,
        }
    }
}

/// A primary expression from token `p`.
pub open spec fn p_primary(ts: Seq<(SpecToken, Location)>, p: int) -> Parsed
    decreases ts.len() - p, 2nat,
{
    if p < 0 || p >= ts.len() {
        Err(Failure::End)
    } else {
        match ts[p].0 {
            SpecToken::StartAssertion => Ok((SpecExpr::AnchorAssertion(AnchorAssertionName::Start), p + 1)),
            SpecToken::EndAssertion => Ok((SpecExpr::AnchorAssertion(AnchorAssertionName::End), p + 1)),
            SpecToken::BoundaryAssertion(c) => Ok(
                (
                    SpecExpr::BoundaryAssertion(
                        if c == 'b' { BoundaryAssertionName::IsBound } else { BoundaryAssertionName::IsNotBound },
                    ),
                    p + 1,
                ),
            ),
            SpecToken::LookBehind | SpecToken::LookBehindNegative => match p_expr(ts, p + 1) {
                Err(f) => Err(f),
                Ok((a, k)) => {
                    let k2 = if k < ts.len() { k + 1 } else { k };
                    let name = if ts[p].0 is LookBehind { FunctionName::IsAfter } else { FunctionName::IsNotAfter };
                    if p < k2 <= ts.len() {
                        match p_expr(ts, k2) {
                            Err(f) => Err(f),
                            Ok((b, m)) => Ok((call(name, seq![b, a]), m)),
                        }
                    } else {
                        Err(Failure::End)
                    }
                },
            },
            SpecToken::GroupStart | SpecToken::NonCapturing | SpecToken::NamedCapture(_) => p_group(ts, p),
            SpecToken::BackReferenceNumber(n) => Ok((SpecExpr::BackReference(SpecBackReference::Index(n)), p + 1)),
            SpecToken::BackReferenceIdentifier(name) => Ok(
                (SpecExpr::BackReference(SpecBackReference::Name(name)), p + 1),
            ),
            _ => match p_literal(ts, p) {
                Err(f) => Err(f),
                Ok((l, j)) => Ok((SpecExpr::Literal(l), j)),
            },
        }
    }
}

/// A group from its opening token at `p` to its `)`.
pub open spec fn p_group(ts: Seq<(SpecToken, Location)>, p: int) -> Parsed
    decreases ts.len() - p, 1nat,
{
    if p < 0 || p >= ts.len() {
        Err(Failure::End)
    } else {
        match p_expr(ts, p + 1) {
        Err(f) => Err(f),
        Ok((x, k)) => if k < 0 || k >= ts.len() {
            Err(Failure::End)
        } else if !(ts[k].0 is GroupEnd) {
            Err(Failure::At(Location { length: 0, ..ts[k].1 }))
        } else {
            match ts[p].0 {
                SpecToken::GroupStart => Ok((call(FunctionName::Index, seq![x]), k + 1)),
                SpecToken::NamedCapture(name) => Ok(
                    (call(FunctionName::Name, seq![x, SpecExpr::Literal(SpecLiteral::String(name))]), k + 1),
                ),
                _ => Ok((x, k + 1)),
            }
        }
        }
    }
}

/// A literal from token `p`.
pub open spec fn p_literal(ts: Seq<(SpecToken, Location)>, p: int) -> Result<(SpecLiteral, int), Failure> {
    if p < 0 || p >= ts.len() {
        Err(Failure::End)
    } else {
        match ts[p].0 {
            SpecToken::Char(c) => Ok((SpecLiteral::Char(c), p + 1)),
            SpecToken::CharSetStart | SpecToken::CharSetStartNegative => match p_charset_loop(
                ts,
                ts[p].0 is CharSetStartNegative,
                p + 1,
                Seq::empty(),
            ) {
                Err(f) => Err(f),
                Ok((cs, j)) => Ok((SpecLiteral::CharSet(cs), j)),
            },
            SpecToken::PresetCharSet(c) => Ok((SpecLiteral::PresetCharSet(preset_name(c)), p + 1)),
            SpecToken::Dot => Ok((SpecLiteral::Special(SpecialCharName::CharAny), p + 1)),
            _ => Err(Failure::At(last_range(ts, p))),
        }
    }
}

/// The elements of a charset from token `q` to its `]`, after `acc`.
pub open spec fn p_charset_loop(
    ts: Seq<(SpecToken, Location)>,
    negative: bool,
    q: int,
    acc: Seq<SpecCharSetElement>,
) -> Result<(SpecCharSet, int), Failure>
    decreases ts.len() - q,
{
    if q < 0 || q >= ts.len() {
        Err(Failure::End)
    } else {
        match ts[q].0 {
            SpecToken::CharSetEnd => Ok((SpecCharSet { negative, elements: acc }, q + 1)),
            SpecToken::Char(c) => p_charset_loop(ts, negative, q + 1, acc.push(SpecCharSetElement::Char(c))),
            SpecToken::CharRange(a, b) => p_charset_loop(
                ts,
                negative,
                q + 1,
                acc.push(SpecCharSetElement::CharRange(CharRange { start: a, end_included: b })),
            ),
            SpecToken::PresetCharSet(c) => p_charset_loop(
                ts,
                negative,
                q + 1,
                acc.push(SpecCharSetElement::PresetCharSet(preset_name(c))),
            ),
            _ => Err(Failure::At(last_range(ts, q))),
        }
    }
}

/// The expressions of a program: those of its only expression when that is
/// a group. Tokens after the first expression are left unread.
pub open spec fn p_program(ts: Seq<(SpecToken, Location)>) -> Result<Seq<SpecExpr>, Failure> {
    if ts.len() == 0 {
        Ok(Seq::empty())
    } else {
        match p_expr(ts, 0) {
            Err(f) => Err(f),
            Ok((e, _)) => match e {
                SpecExpr::Group(exps) => Ok(exps),
                _ => Ok(seq![e]),
            },
        }
    }
}

/// The program that a text parses to, as the expressions' views.
pub open spec fn spec_parse(cs: Seq<char>) -> Result<Seq<SpecExpr>, Failure> {
    match spec_lex(cs) {
        Err(f) => Err(f),
        Ok(ts) => p_program(ts),
    }
}


proof fn lemma_char_run(s: Seq<SpecExpr>, n: int)
    requires
        0 <= n <= s.len(),
        forall|k: int| s.len() - n <= k < s.len() ==> is_char_literal(#[trigger] s[k]),
        n == s.len() || !is_char_literal(s[s.len() - n - 1]),
    ensures
        char_run(s) == n,
    decreases n,
{
    if n > 0 {
        let t = s.drop_last();
        assert forall|k: int| t.len() - (n - 1) <= k < t.len() implies is_char_literal(#[trigger] t[k]) by {
            assert(t[k] == s[k]);
        }
        if n - 1 != t.len() {
            assert(t[t.len() - (n - 1) - 1] == s[s.len() - n - 1]);
        }
        lemma_char_run(t, n - 1);
    }
}

/// The preset charset that a preset token names.
fn preset_charset_name_from_char(c: char) -> (r: PresetCharSetName)
    requires
        c == 'w' || c == 'W' || c == 'd' || c == 'D' || c == 's' || c == 'S',
    ensures
        r == preset_name(c),
{
    if c == 'w' {
        PresetCharSetName::CharWord
    } else if c == 'W' {
        PresetCharSetName::CharNotWord
    } else if c == 's' {
        PresetCharSetName::CharSpace
    } else if c == 'S' {
        PresetCharSetName::CharNotSpace
    } else if c == 'd' {
        PresetCharSetName::CharDigit
    } else {
        PresetCharSetName::CharNotDigit
    }
}

/// A call of `name` on its arguments.
fn make_call(name: FunctionName, args: Vec<Expression>) -> (r: Expression)
    ensures
        r@ == call(name, exprs_views(args@)),
{
    proof {
        lemma_exprs_view_all(args@);
    }
    Expression::FunctionCall(Box::new(FunctionCall { name, args }))
}

fn call1(name: FunctionName, a: Expression) -> (r: Expression)
    ensures
        r@ == call(name, seq![a@]),
{
    let mut args: Vec<Expression> = Vec::new();
    args.push(a);
    proof {
        assert(exprs_views(args@) =~= seq![a@]);
    }
    make_call(name, args)
}

fn call2(name: FunctionName, a: Expression, b: Expression) -> (r: Expression)
    ensures
        r@ == call(name, seq![a@, b@]),
{
    let mut args: Vec<Expression> = Vec::new();
    args.push(a);
    args.push(b);
    proof {
        assert(exprs_views(args@) =~= seq![a@, b@]);
    }
    make_call(name, args)
}

fn call3(name: FunctionName, a: Expression, b: Expression, c: Expression) -> (r: Expression)
    ensures
        r@ == call(name, seq![a@, b@, c@]),
{
    let mut args: Vec<Expression> = Vec::new();
    args.push(a);
    args.push(b);
    args.push(c);
    proof {
        assert(exprs_views(args@) =~= seq![a@, b@, c@]);
    }
    make_call(name, args)
}

fn number_expression(n: usize) -> (r: Expression)
    ensures
        r@ == number(n),
{
    Expression::Literal(Literal::Number(n))
}

fn is_char_expression(e: &Expression) -> (r: bool)
    ensures
        r == is_char_literal(e@),
{
    match e {
        Expression::Literal(Literal::Char(_)) => true,
        _ => false,
    }
}

/// Merges each run of two or more consecutive chars into a string.
fn merge_continuous_chars(v: &mut Vec<Expression>)
    requires
        old(v)@.len() > 0,
    ensures
        exprs_views(final(v)@) == merge_chars(exprs_views(old(v)@)),
        final(v)@.len() > 0,
{
    let ghost orig = exprs_views(v@);
    let mut index: usize = v.len() - 1;
    proof {
        assert(exprs_views(v@).take(index + 1) =~= orig);
        assert(orig.skip(index + 1) =~= Seq::<SpecExpr>::empty());
        assert(merge_chars(orig) + Seq::<SpecExpr>::empty() =~= merge_chars(orig));
    }
    while index > 0
        invariant
            index < v@.len(),
            merge_chars(orig) == merge_chars(exprs_views(v@).take(index + 1)) + exprs_views(v@).skip(index + 1),
        decreases index,
    {
        let ghost cur = exprs_views(v@);
        let ghost head = cur.take(index + 1);
        if is_char_expression(&v[index]) {
            let mut pre: usize = index;
            while pre > 0 && is_char_expression(&v[pre - 1])
                invariant
                    pre <= index < v@.len(),
                    cur == exprs_views(v@),
                    forall|k: int| pre <= k <= index ==> is_char_literal(#[trigger] cur[k]),
                decreases pre,
            {
                pre = pre - 1;
            }
            proof {
                assert forall|k: int| head.len() - (index + 1 - pre) <= k < head.len() implies is_char_literal(
                    #[trigger] head[k],
                ) by {
                    assert(head[k] == cur[k]);
                }
                if pre > 0 {
                    assert(head[head.len() - (index + 1 - pre) - 1] == cur[pre - 1]);
                }
                lemma_char_run(head, index + 1 - pre);
            }
            if index - pre > 0 {
                let ghost before = v@;
                let vlen = v.len();
                let count = index - pre + 1;
                let mut text = String::new();
                let mut n: usize = 0;
                while n < count
                    invariant
                        pre + count == index + 1,
                        index < before.len(),
                        n <= count,
                        v@ == before.take(pre as int) + before.skip(pre + n),
                        cur == exprs_views(before),
                        forall|k: int| pre <= k <= index ==> is_char_literal(#[trigger] cur[k]),
                        text@ == run_chars(cur.subrange(pre as int, pre + n)),
                    decreases count - n,
                {
                    proof {
                        assert(v@[pre as int] == before[pre + n]);
                        assert(cur[pre + n] == before[pre + n]@);
                    }
                    let e = v.remove(pre);
                    match e {
                        Expression::Literal(Literal::Char(c)) => {
                            crate::text::push_char(&mut text, c);
                        },
                        _ => {},
                    }
                    proof {
                        assert(is_char_literal(cur[pre + n]));
                        assert(run_chars(cur.subrange(pre as int, pre + n + 1)) =~= run_chars(
                            cur.subrange(pre as int, pre + n),
                        ).push(text@.last()));
                        assert(v@ =~= before.take(pre as int) + before.skip(pre + n + 1));
                    }
                    n = n + 1;
                }
                let ghost merged = SpecExpr::Literal(SpecLiteral::String(text@));
                v.insert(pre, Expression::Literal(Literal::String(text)));
                proof {
                    assert(head.subrange(0, head.len() - (index + 1 - pre)) =~= cur.take(pre as int));
                    assert(head.subrange(head.len() - (index + 1 - pre), head.len() as int) =~= cur.subrange(
                        pre as int,
                        index + 1,
                    ));
                    assert(exprs_views(v@).take(pre as int) =~= cur.take(pre as int));
                    assert(exprs_views(v@).take(pre + 1) =~= cur.take(pre as int).push(merged));
                    assert(exprs_views(v@).skip(pre + 1) =~= cur.skip(index + 1));
                    assert(merge_chars(exprs_views(v@).take(pre + 1)) =~= merge_chars(cur.take(pre as int)).push(
                        merged,
                    )) by {
                        let t = exprs_views(v@).take(pre + 1);
                        lemma_char_run(t, 0);
                        assert(t.drop_last() =~= cur.take(pre as int));
                    }
                    assert(merge_chars(head) =~= merge_chars(cur.take(pre as int)).push(merged));
                    assert(merge_chars(orig) =~= merge_chars(exprs_views(v@).take(pre as int)) + exprs_views(v@).skip(
                        pre as int,
                    )) by {
                        assert(exprs_views(v@).skip(pre as int) =~= seq![merged] + cur.skip(index + 1));
                    }
                }
                if pre == 0 {
                    index = 0;
                    proof {
                        assert(merge_chars(exprs_views(v@).take(1)) =~= seq![merged]) by {
                            let t = exprs_views(v@).take(1);
                            lemma_char_run(t, 0);
                            assert(t.drop_last() =~= Seq::<SpecExpr>::empty());
                        }
                        assert(merge_chars(exprs_views(v@).take(0)) =~= Seq::<SpecExpr>::empty());
                        assert(exprs_views(v@).skip(0) =~= seq![merged] + exprs_views(v@).skip(1));
                    }
                } else {
                    index = pre - 1;
                    proof {
                        assert(exprs_views(v@).take(index + 1) =~= exprs_views(v@).take(pre as int));
                    }
                }
            } else {
                proof {
                    assert(head.drop_last() =~= cur.take(index as int));
                    assert(cur.skip(index as int) =~= seq![cur[index as int]] + cur.skip(index + 1));
                }
                index = index - 1;
            }
        } else {
            proof {
                lemma_char_run(head, 0);
                assert(head.drop_last() =~= cur.take(index as int));
                assert(cur.skip(index as int) =~= seq![cur[index as int]] + cur.skip(index + 1));
            }
            index = index - 1;
        }
    }
    proof {
        let cur = exprs_views(v@);
        assert(merge_chars(cur.take(1)) =~= cur.take(1)) by {
            let t = cur.take(1);
            assert(t.drop_last() =~= Seq::<SpecExpr>::empty());
            assert(merge_chars(t.drop_last()) =~= Seq::<SpecExpr>::empty());
            assert(Seq::<SpecExpr>::empty().push(t.last()) =~= t);
        }
        assert(cur.take(1) + cur.skip(1) =~= cur);
    }
}


/// A parser over the tokens of a traditional regular expression.
pub struct Parser {
    tokens: Vec<TokenWithRange>,
    /// The index of the next token to read.
    index: usize,
}

impl Parser {
    /// The tokens, as views.
    pub closed spec fn toks(self) -> Seq<(SpecToken, Location)> {
        token_views(self.tokens@)
    }

    /// The index of the next token to read.
    pub closed spec fn position(self) -> int {
        self.index as int
    }

    spec fn wf(self) -> bool {
        &&& self.index <= self.tokens@.len()
        &&& self.tokens@.len() <= usize::MAX
        &&& tokens_ok(self.toks())
    }

    /// The parser moved on and kept its tokens.
    spec fn kept(self, old: Parser) -> bool {
        &&& self.wf()
        &&& self.tokens == old.tokens
        &&& self.index >= old.index
    }

    fn new(tokens: Vec<TokenWithRange>) -> (r: Parser)
        ensures
            r.toks() == token_views(tokens@),
            r.position() == 0,
    {
        Parser { tokens, index: 0 }
    }

    /// The range of the last token read.
    fn last_range(&self) -> (r: Location)
        requires
            self.wf(),
        ensures
            r == last_range(self.toks(), self.index as int),
    {
        if self.index == 0 {
            Location::new_range(0, 0, 0, 0)
        } else {
            self.tokens[self.index - 1].range
        }
    }

    /// Whether the next token is one that ends a consecutive sequence.
    fn at_terminator(&self) -> (r: bool)
        requires
            self.wf(),
            self.index < self.tokens@.len(),
        ensures
            r == (self.toks()[self.index as int].0 is GroupEnd || self.toks()[self.index as int].0 is LogicOr),
    {
        match &self.tokens[self.index].token {
            Token::GroupEnd | Token::LogicOr => true,
            _ => false,
        }
    }

    /// Parses the program: the first expression, or the expressions of that
    /// expression when it is a group.
    pub fn parse_program(&mut self) -> (r: Result<Program, AnreError>)
        requires
            old(self).position() == 0,
            tokens_ok(old(self).toks()),
        ensures
            match p_program(old(self).toks()) {
                Ok(exps) => r matches Ok(program) && program@ == exps,
                Err(f) => r matches Err(e) && error_matches(e, f),
            },
    {
        let n = self.tokens.len();
        if self.index < n {
            match self.parse_expression() {
                Ok(expression) => {
                    match expression {
                        Expression::Group(expressions) => {
                            proof {
                                lemma_exprs_view_all(expressions@);
                            }
                            Ok(Program { expressions })
                        },
                        e => {
                            let mut expressions: Vec<Expression> = Vec::new();
                            expressions.push(e);
                            proof {
                                lemma_exprs_view_all(expressions@);
                                assert(exprs_views(expressions@) =~= seq![e@]);
                            }
                            Ok(Program { expressions })
                        },
                    }
                },
                Err(e) => Err(e),
            }
        } else {
            let expressions: Vec<Expression> = Vec::new();
            proof {
                lemma_exprs_view_all(expressions@);
                assert(exprs_views(expressions@) =~= Seq::<SpecExpr>::empty());
            }
            Ok(Program { expressions })
        }
    }

    /// Parses alternatives separated by `|`.
    fn parse_expression(&mut self) -> (r: Result<Expression, AnreError>)
        requires
            old(self).wf(),
        ensures
            final(self).kept(*old(self)),
            match p_expr(old(self).toks(), old(self).index as int) {
                Ok((e, j)) => r matches Ok(x) && x@ == e && final(self).index == j,
                Err(f) => r matches Err(err) && error_matches(err, f),
            },
        decreases old(self).tokens@.len() - old(self).index, 7nat,
    {
        let ghost ts = self.toks();
        let p = self.index;
        let mut left = match self.parse_consecutive() {
            Ok(e) => e,
            Err(e) => {
                return Err(e);
            },
        };
        loop
            invariant
                self.kept(*old(self)),
                ts == self.toks(),
                ts == old(self).toks(),
                p == old(self).index,
                p_expr(ts, p as int) == p_or_loop(ts, left@, self.index as int),
            ensures
                self.kept(*old(self)),
                p_expr(ts, p as int) == p_or_loop(ts, left@, self.index as int),
                !(self.index < ts.len() && ts[self.index as int].0 is LogicOr),
            decreases self.tokens@.len() - self.index,
        {
            let is_or = self.index < self.tokens.len() && match &self.tokens[self.index].token {
                Token::LogicOr => true,
                _ => false,
            };
            if !is_or {
                break;
            }
            self.index = self.index + 1; // consume '|'
            let right = match self.parse_expression() {
                Ok(e) => e,
                Err(e) => {
                    return Err(e);
                },
            };
            left = Expression::Or(Box::new(left), Box::new(right));
        }
        Ok(left)
    }

    /// Parses the expressions up to a `)` or `|`.
    fn parse_consecutive(&mut self) -> (r: Result<Expression, AnreError>)
        requires
            old(self).wf(),
        ensures
            final(self).kept(*old(self)),
            match p_consecutive(old(self).toks(), old(self).index as int) {
                Ok((e, j)) => r matches Ok(x) && x@ == e && final(self).index == j,
                Err(f) => r matches Err(err) && error_matches(err, f),
            },
        decreases old(self).tokens@.len() - old(self).index, 5nat,
    {
        let ghost ts = self.toks();
        let p = self.index;
        let mut expressions: Vec<Expression> = Vec::new();
        proof {
            assert(exprs_views(expressions@) =~= Seq::<SpecExpr>::empty());
        }
        loop
            invariant
                self.kept(*old(self)),
                ts == self.toks(),
                ts == old(self).toks(),
                p == old(self).index,
                p_consecutive(ts, p as int) == p_consecutive_loop(ts, self.index as int, exprs_views(expressions@)),
            ensures
                self.kept(*old(self)),
                p_consecutive(ts, p as int) == finish_consecutive(ts, self.index as int, exprs_views(expressions@)),
            decreases self.tokens@.len() - self.index,
        {
            if self.index >= self.tokens.len() || self.at_terminator() {
                break;
            }
            let ghost q = self.index as int;
            let e = match self.parse_notations() {
                Ok(e) => e,
                Err(e) => {
                    return Err(e);
                },
            };
            proof {
                assert(exprs_views(expressions@.push(e)) =~= exprs_views(expressions@).push(e@));
            }
            expressions.push(e);
        }
        if expressions.len() == 0 {
            return Err(error_at("Encountered a blank expression.", self.last_range()));
        }
        merge_continuous_chars(&mut expressions);
        if expressions.len() == 1 {
            let first = expressions.remove(0);
            Ok(first)
        } else {
            proof {
                lemma_exprs_view_all(expressions@);
            }
            Ok(Expression::Group(expressions))
        }
    }

    /// Parses a primary expression and the notations that follow it.
    fn parse_notations(&mut self) -> (r: Result<Expression, AnreError>)
        requires
            old(self).wf(),
            old(self).index < old(self).tokens@.len(),
        ensures
            final(self).kept(*old(self)),
            match p_notations(old(self).toks(), old(self).index as int) {
                Ok((e, j)) => r matches Ok(x) && x@ == e && final(self).index == j && j > old(self).index,
                Err(f) => r matches Err(err) && error_matches(err, f),
            },
        decreases old(self).tokens@.len() - old(self).index, 3nat,
    {
        let ghost ts = self.toks();
        let p = self.index;
        let mut expression = match self.parse_primary() {
            Ok(e) => e,
            Err(e) => {
                return Err(e);
            },
        };
        loop
            invariant
                self.kept(*old(self)),
                ts == self.toks(),
                ts == old(self).toks(),
                p == old(self).index,
                self.index > p,
                p_notations(ts, p as int) == p_notation_loop(ts, expression@, self.index as int),
            ensures
                self.kept(*old(self)),
                p_notations(ts, p as int) == Ok::<(SpecExpr, int), Failure>((expression@, self.index as int)),
                self.index > p,
            decreases self.tokens@.len() - self.index,
        {
            if self.index >= self.tokens.len() {
                break;
            }
            let ghost j = self.index as int;
            let ghost e = expression@;
            match self.parse_notation(expression) {
                Ok((next, applied)) => {
                    expression = next;
                    if !applied {
                        break;
                    }
                },
                Err(err) => {
                    return Err(err);
                },
            }
        }
        Ok(expression)
    }

    /// Applies the notation at the next token to `expression`, and says
    /// whether there was one.
    fn parse_notation(&mut self, expression: Expression) -> (r: Result<(Expression, bool), AnreError>)
        requires
            old(self).wf(),
            old(self).index < old(self).tokens@.len(),
        ensures
            final(self).kept(*old(self)),
            match notation_step(old(self).toks(), expression@, old(self).index as int) {
                None => r matches Ok((x, applied)) && !applied && x@ == expression@ && final(self).index
                    == old(self).index,
                Some(Ok((e, k))) => r matches Ok((x, applied)) && applied && x@ == e && final(self).index
                    == k && k > old(self).index,
                Some(Err(f)) => r matches Err(err) && error_matches(err, f),
            },
        decreases old(self).tokens@.len() - old(self).index, 2nat,
    {
        let j = self.index;
        let simple = match &self.tokens[j].token {
            Token::Optional => Some(FunctionName::Optional),
            Token::OptionalLazy => Some(FunctionName::OptionalLazy),
            Token::OneOrMore => Some(FunctionName::OneOrMore),
            Token::OneOrMoreLazy => Some(FunctionName::OneOrMoreLazy),
            Token::ZeroOrMore => Some(FunctionName::ZeroOrMore),
            Token::ZeroOrMoreLazy => Some(FunctionName::ZeroOrMoreLazy),
            _ => None,
        };
        if let Some(name) = simple {
            self.index = j + 1; // consume notation
            return Ok((call1(name, expression), true));
        }
        let repetition = match &self.tokens[j].token {
            Token::Repetition(rep, lazy) => Some((*rep, *lazy)),
            _ => None,
        };
        if let Some((rep, lazy)) = repetition {
            let result = match rep {
                Repetition::Specified(n) => {
                    if lazy {
                        return Err(
                            error_at(
                                "Specified number of repetitions does not support lazy mode, i.e. '{m}?' is not allowed.",
                                self.last_range(),
                            ),
                        );
                    }
                    call2(FunctionName::Repeat, expression, number_expression(n))
                },
                Repetition::AtLeast(n) => {
                    let name = if lazy {
                        FunctionName::AtLeastLazy
                    } else {
                        FunctionName::AtLeast
                    };
                    call2(name, expression, number_expression(n))
                },
                Repetition::Range(m, n) => {
                    if lazy && m == n {
                        return Err(
                            error_at(
                                "Specified number of repetitions does not support lazy mode, i.e. '{m,m}?' is not allowed.",
                                self.last_range(),
                            ),
                        );
                    }
                    let name = if lazy {
                        FunctionName::RepeatRangeLazy
                    } else {
                        FunctionName::RepeatRange
                    };
                    call3(name, expression, number_expression(m), number_expression(n))
                },
            };
            self.index = j + 1; // consume notation
            return Ok((result, true));
        }
        let look_ahead = match &self.tokens[j].token {
            Token::LookAhead => Some(FunctionName::IsBefore),
            Token::LookAheadNegative => Some(FunctionName::IsNotBefore),
            _ => None,
        };
        match look_ahead {
            Some(name) => {
                self.index = j + 1; // consume "(?=" or "(?!"
                let arg = match self.parse_expression() {
                    Ok(e) => e,
                    Err(e) => {
                        return Err(e);
                    },
                };
                if self.index < self.tokens.len() {
                    self.index = self.index + 1; // consume ")"
                }
                Ok((call2(name, expression, arg), true))
            },
            None => Ok((expression, false)),
        }
    }

    /// Parses a primary expression.
    fn parse_primary(&mut self) -> (r: Result<Expression, AnreError>)
        requires
            old(self).wf(),
            old(self).index < old(self).tokens@.len(),
        ensures
            final(self).kept(*old(self)),
            match p_primary(old(self).toks(), old(self).index as int) {
                Ok((e, j)) => r matches Ok(x) && x@ == e && final(self).index == j && j > old(self).index,
                Err(f) => r matches Err(err) && error_matches(err, f),
            },
        decreases old(self).tokens@.len() - old(self).index, 2nat,
    {
        let ghost ts = self.toks();
        let p = self.index;
        proof {
            assert(token_ok(ts[p as int].0));
        }
        match &self.tokens[p].token {
            Token::StartAssertion => {
                self.index = p + 1;
                Ok(Expression::AnchorAssertion(AnchorAssertionName::Start))
            },
            Token::EndAssertion => {
                self.index = p + 1;
                Ok(Expression::AnchorAssertion(AnchorAssertionName::End))
            },
            Token::BoundaryAssertion(c) => {
                let name = if *c == 'b' {
                    BoundaryAssertionName::IsBound
                } else {
                    BoundaryAssertionName::IsNotBound
                };
                self.index = p + 1;
                Ok(Expression::BoundaryAssertion(name))
            },
            Token::LookBehind | Token::LookBehindNegative => {
                let name = match &self.tokens[p].token {
                    Token::LookBehind => FunctionName::IsAfter,
                    _ => FunctionName::IsNotAfter,
                };
                self.index = p + 1; // consume "(?<=" or "(?<!"
                let arg = match self.parse_expression() {
                    Ok(e) => e,
                    Err(e) => {
                        return Err(e);
                    },
                };
                if self.index < self.tokens.len() {
                    self.index = self.index + 1; // consume ")"
                }
                let base = match self.parse_expression() {
                    Ok(e) => e,
                    Err(e) => {
                        return Err(e);
                    },
                };
                Ok(call2(name, base, arg))
            },
            Token::GroupStart | Token::NonCapturing | Token::NamedCapture(_) => self.parse_group(),
            Token::BackReferenceNumber(n) => {
                let n = *n;
                self.index = p + 1;
                Ok(Expression::BackReference(BackReference::Index(n)))
            },
            Token::BackReferenceIdentifier(name) => {
                let name = name.clone();
                self.index = p + 1;
                Ok(Expression::BackReference(BackReference::Name(name)))
            },
            _ => match self.parse_literal() {
                Ok(l) => Ok(Expression::Literal(l)),
                Err(e) => Err(e),
            },
        }
    }

    /// Parses a group, from its opening token to its `)`.
    fn parse_group(&mut self) -> (r: Result<Expression, AnreError>)
        requires
            old(self).wf(),
            old(self).index < old(self).tokens@.len(),
        ensures
            final(self).kept(*old(self)),
            match p_group(old(self).toks(), old(self).index as int) {
                Ok((e, j)) => r matches Ok(x) && x@ == e && final(self).index == j && j > old(self).index,
                Err(f) => r matches Err(err) && error_matches(err, f),
            },
        decreases old(self).tokens@.len() - old(self).index, 1nat,
    {
        let ghost ts = self.toks();
        let p = self.index;
        let name: Option<String> = match &self.tokens[p].token {
            Token::NamedCapture(name) => Some(name.clone()),
            _ => None,
        };
        let capture = match &self.tokens[p].token {
            Token::GroupStart => true,
            _ => false,
        };
        self.index = p + 1; // consume "(", "(?:" or "(?<name>"
        let expression = match self.parse_expression() {
            Ok(e) => e,
            Err(e) => {
                return Err(e);
            },
        };
        if self.index >= self.tokens.len() {
            return Err(error_at_end("Expect token: right parenthese \")\"."));
        }
        let k = self.index;
        let closed = match &self.tokens[k].token {
            Token::GroupEnd => true,
            _ => false,
        };
        self.index = k + 1; // consume ")"
        if !closed {
            return Err(
                error_at(
                    "Expect token: right parenthese \")\".",
                    self.tokens[k].range.get_position_by_range_start(),
                ),
            );
        }
        match name {
            Some(name) => {
                let label = Expression::Literal(Literal::String(name));
                Ok(call2(FunctionName::Name, expression, label))
            },
            None => {
                if capture {
                    Ok(call1(FunctionName::Index, expression))
                } else {
                    Ok(expression)
                }
            },
        }
    }

    /// Parses a literal: a char, a charset, a preset charset or `.`.
    fn parse_literal(&mut self) -> (r: Result<Literal, AnreError>)
        requires
            old(self).wf(),
            old(self).index < old(self).tokens@.len(),
        ensures
            final(self).kept(*old(self)),
            match p_literal(old(self).toks(), old(self).index as int) {
                Ok((l, j)) => r matches Ok(x) && x@ == l && final(self).index == j && j > old(self).index,
                Err(f) => r matches Err(err) && error_matches(err, f),
            },
    {
        let ghost ts = self.toks();
        let p = self.index;
        proof {
            assert(token_ok(ts[p as int].0));
        }
        match &self.tokens[p].token {
            Token::Char(c) => {
                let c = *c;
                self.index = p + 1;
                Ok(Literal::Char(c))
            },
            Token::CharSetStart | Token::CharSetStartNegative => match self.parse_charset() {
                Ok(cs) => Ok(Literal::CharSet(cs)),
                Err(e) => Err(e),
            },
            Token::PresetCharSet(c) => {
                let name = preset_charset_name_from_char(*c);
                self.index = p + 1;
                Ok(Literal::PresetCharSet(name))
            },
            Token::Dot => {
                self.index = p + 1;
                Ok(Literal::Special(SpecialCharName::CharAny))
            },
            _ => Err(error_at("Expect a literal.", self.last_range())),
        }
    }

    /// Parses a charset, from its `[` or `[^` to its `]`.
    fn parse_charset(&mut self) -> (r: Result<CharSet, AnreError>)
        requires
            old(self).wf(),
            old(self).index < old(self).tokens@.len(),
        ensures
            final(self).kept(*old(self)),
            match p_charset_loop(
                old(self).toks(),
                old(self).toks()[old(self).index as int].0 is CharSetStartNegative,
                old(self).index + 1,
                Seq::empty(),
            ) {
                Ok((cs, j)) => r matches Ok(x) && x@ == cs && final(self).index == j && j > old(self).index,
                Err(f) => r matches Err(err) && error_matches(err, f),
            },
    {
        let ghost ts = self.toks();
        let p = self.index;
        let negative = match &self.tokens[p].token {
            Token::CharSetStartNegative => true,
            _ => false,
        };
        self.index = p + 1; // consume '[' or '[^'
        let mut elements: Vec<CharSetElement> = Vec::new();
        proof {
            assert(elements@.map_values(|e: CharSetElement| element_view(e)) =~= Seq::<SpecCharSetElement>::empty());
        }
        loop
            invariant
                self.kept(*old(self)),
                ts == self.toks(),
                ts == old(self).toks(),
                p == old(self).index,
                self.index > p,
                negative == (ts[p as int].0 is CharSetStartNegative),
                p_charset_loop(ts, negative, p + 1, Seq::empty()) == p_charset_loop(
                    ts,
                    negative,
                    self.index as int,
                    elements@.map_values(|e: CharSetElement| element_view(e)),
                ),
            decreases self.tokens@.len() - self.index,
        {
            let q = self.index;
            if q >= self.tokens.len() {
                return Err(error_at_end("Expect token: right bracket \"]\"."));
            }
            proof {
                assert(token_ok(ts[q as int].0));
            }
            let element = match &self.tokens[q].token {
                Token::CharSetEnd => None,
                Token::Char(c) => Some(CharSetElement::Char(*c)),
                Token::CharRange(a, b) => Some(CharSetElement::CharRange(CharRange { start: *a, end_included: *b })),
                Token::PresetCharSet(c) => Some(CharSetElement::PresetCharSet(preset_charset_name_from_char(*c))),
                _ => {
                    return Err(error_at("Unsupported char set element.", self.last_range()));
                },
            };
            self.index = q + 1;
            match element {
                Some(e) => {
                    proof {
                        assert(elements@.push(e).map_values(|e: CharSetElement| element_view(e)) =~= elements@.map_values(
                            |e: CharSetElement| element_view(e),
                        ).push(element_view(e)));
                    }
                    elements.push(e);
                },
                None => {
                    proof {
                        lemma_charset_elements_view(elements@, elements@.len() as int);
                        assert(elements@.take(elements@.len() as int) =~= elements@);
                    }
                    return Ok(CharSet { negative, elements });
                },
            }
        }
    }
}

/// Parses a traditional regular expression into a program.
pub fn parse_from_str(s: &str) -> (r: Result<Program, AnreError>)
    ensures
        match spec_parse(s@) {
            Ok(exps) => r matches Ok(program) && program@ == exps,
            Err(f) => r matches Err(e) && error_matches(e, f),
        },
{
    let tokens = match lex_from_str(s) {
        Ok(tokens) => tokens,
        Err(e) => {
            return Err(e);
        },
    };
    proof {
        lemma_lex_tokens_ok(s@);
    }
    let mut parser = Parser::new(tokens);
    parser.parse_program()
}

} // verus!
