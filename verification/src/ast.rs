use vstd::prelude::*;

verus! {

/// A whole pattern: a sequence of expressions that match one after another.
#[derive(Debug, PartialEq)]
pub struct Program {
    pub expressions: Vec<Expression>,
}

#[derive(Debug, PartialEq)]
pub enum Expression {
    Literal(Literal),
    BackReference(BackReference),
    AnchorAssertion(AnchorAssertionName),
    /// A boundary assertion checks the characters on both sides of a position.
    BoundaryAssertion(BoundaryAssertionName),
    /// A series of expressions that match one after another; a group is not
    /// captured unless the `name` or `index` function is applied to it.
    Group(Vec<Expression>),
    FunctionCall(Box<FunctionCall>),
    /// Either of two expressions.
    Or(Box<Expression>, Box<Expression>),
}

#[derive(Debug, PartialEq)]
pub struct FunctionCall {
    pub name: FunctionName,
    pub args: Vec<Expression>,
}

#[derive(Debug, PartialEq)]
pub enum Literal {
    Number(usize),
    Char(char),
    String(String),
    Special(SpecialCharName),
    CharSet(CharSet),
    PresetCharSet(PresetCharSetName),
}

#[derive(Debug, PartialEq)]
pub struct CharSet {
    pub negative: bool,
    pub elements: Vec<CharSetElement>,
}

#[derive(Debug, PartialEq)]
pub enum CharSetElement {
    Char(char),
    CharRange(CharRange),
    PresetCharSet(PresetCharSetName),
    /// A nested charset; only positive charsets may be nested.
    CharSet(Box<CharSet>),
}

#[derive(Debug, PartialEq, Eq, Clone, Copy)]
pub struct CharRange {
    pub start: char,
    pub end_included: char,
}

#[derive(Debug, PartialEq)]
pub enum BackReference {
    Index(usize),
    Name(String),
}

#[derive(Debug, PartialEq, Eq, Clone, Copy)]
pub enum AnchorAssertionName {
    Start,
    End,
}

#[derive(Debug, PartialEq, Eq, Clone, Copy)]
pub enum BoundaryAssertionName {
    IsBound,
    IsNotBound,
}

#[derive(Debug, PartialEq, Eq, Clone, Copy)]
pub enum PresetCharSetName {
    CharWord,
    CharNotWord,
    CharDigit,
    CharNotDigit,
    CharSpace,
    CharNotSpace,
    CharHex,
}

/// Only `char_any` at present.
#[derive(Debug, PartialEq, Eq, Clone, Copy)]
pub enum SpecialCharName {
    CharAny,
}

#[derive(Debug, PartialEq, Eq, Clone, Copy)]
pub enum FunctionName {
    // Greedy quantifiers
    Optional,
    OneOrMore,
    ZeroOrMore,
    Repeat,
    RepeatRange,
    AtLeast,
    // Lazy quantifiers
    OptionalLazy,
    OneOrMoreLazy,
    ZeroOrMoreLazy,
    RepeatRangeLazy,
    AtLeastLazy,
    // Assertions
    IsBefore,
    IsAfter,
    IsNotBefore,
    IsNotAfter,
    // Captures
    Name,
    Index,
}


/// An expression as a mathematical value: sequences in place of vectors
/// and strings.
pub enum SpecExpr {
    Literal(SpecLiteral),
    BackReference(SpecBackReference),
    AnchorAssertion(AnchorAssertionName),
    BoundaryAssertion(BoundaryAssertionName),
    Group(Seq<SpecExpr>),
    FunctionCall(FunctionName, Seq<SpecExpr>),
    Or(Box<SpecExpr>, Box<SpecExpr>),
}

pub enum SpecLiteral {
    Number(usize),
    Char(char),
    String(Seq<char>),
    Special(SpecialCharName),
    CharSet(SpecCharSet),
    PresetCharSet(PresetCharSetName),
}

pub struct SpecCharSet {
    pub negative: bool,
    pub elements: Seq<SpecCharSetElement>,
}

pub enum SpecCharSetElement {
    Char(char),
    CharRange(CharRange),
    PresetCharSet(PresetCharSetName),
    CharSet(Box<SpecCharSet>),
}

pub enum SpecBackReference {
    Index(usize),
    Name(Seq<char>),
}

impl Program {
    pub open spec fn view(self) -> Seq<SpecExpr> {
        exprs_view(self.expressions@, self.expressions@.len() as int)
    }
}

impl Expression {
    pub open spec fn view(self) -> SpecExpr
        decreases self, 1nat,
    {
        match self {
            Expression::Literal(l) => SpecExpr::Literal(l@),
            Expression::BackReference(b) => SpecExpr::BackReference(
                match b {
                    BackReference::Index(i) => SpecBackReference::Index(i),
                    BackReference::Name(n) => SpecBackReference::Name(n@),
                },
            ),
            Expression::AnchorAssertion(a) => SpecExpr::AnchorAssertion(a),
            Expression::BoundaryAssertion(b) => SpecExpr::BoundaryAssertion(b),
            Expression::Group(exps) => SpecExpr::Group(exprs_view(exps@, exps@.len() as int)),
            Expression::FunctionCall(call) => SpecExpr::FunctionCall(
                call.name,
                exprs_view(call.args@, call.args@.len() as int),
            ),
            Expression::Or(left, right) => SpecExpr::Or(Box::new(left.view()), Box::new(right.view())),
        }
    }
}

/// The views of the first `n` expressions of a sequence.
pub open spec fn exprs_view(exps: Seq<Expression>, n: int) -> Seq<SpecExpr>
    decreases exps, n,
{
    if n <= 0 || n > exps.len() {
        Seq::empty()
    } else {
        exprs_view(exps, n - 1).push(exps[n - 1].view())
    }
}

impl Literal {
    pub open spec fn view(self) -> SpecLiteral {
        match self {
            Literal::Number(n) => SpecLiteral::Number(n),
            Literal::Char(c) => SpecLiteral::Char(c),
            Literal::String(s) => SpecLiteral::String(s@),
            Literal::Special(s) => SpecLiteral::Special(s),
            Literal::CharSet(cs) => SpecLiteral::CharSet(cs@),
            Literal::PresetCharSet(p) => SpecLiteral::PresetCharSet(p),
        }
    }
}

impl CharSet {
    pub open spec fn view(self) -> SpecCharSet
        decreases self, 1nat,
    {
        SpecCharSet {
            negative: self.negative,
            elements: charset_elements_view(self.elements@, self.elements@.len() as int),
        }
    }
}

/// The views of the first `n` elements of a charset.
pub open spec fn charset_elements_view(els: Seq<CharSetElement>, n: int) -> Seq<SpecCharSetElement>
    decreases els, n,
{
    if n <= 0 || n > els.len() {
        Seq::empty()
    } else {
        charset_elements_view(els, n - 1).push(element_view(els[n - 1]))
    }
}

/// The view of a charset element.
pub open spec fn element_view(e: CharSetElement) -> SpecCharSetElement
    decreases e,
{
    match e {
        CharSetElement::Char(c) => SpecCharSetElement::Char(c),
        CharSetElement::CharRange(r) => SpecCharSetElement::CharRange(r),
        CharSetElement::PresetCharSet(p) => SpecCharSetElement::PresetCharSet(p),
        CharSetElement::CharSet(nested) => SpecCharSetElement::CharSet(Box::new(nested.view())),
    }
}

/// The views of the first `n` expressions are those of the expressions
/// themselves.
pub proof fn lemma_exprs_view(s: Seq<Expression>, n: int)
    requires
        0 <= n <= s.len(),
    ensures
        exprs_view(s, n) == s.take(n).map_values(|e: Expression| e@),
    decreases n,
{
    if n > 0 {
        lemma_exprs_view(s, n - 1);
        assert(s.take(n).map_values(|e: Expression| e@) =~= s.take(n - 1).map_values(|e: Expression| e@).push(
            s[n - 1]@,
        ));
    } else {
        assert(s.take(0).map_values(|e: Expression| e@) =~= Seq::<SpecExpr>::empty());
    }
}

/// The views of a sequence of expressions.
pub open spec fn exprs_views(s: Seq<Expression>) -> Seq<SpecExpr> {
    s.map_values(|e: Expression| e@)
}

pub proof fn lemma_exprs_view_all(s: Seq<Expression>)
    ensures
        exprs_view(s, s.len() as int) == exprs_views(s),
{
    lemma_exprs_view(s, s.len() as int);
    assert(s.take(s.len() as int) =~= s);
}

pub proof fn lemma_charset_elements_view(s: Seq<CharSetElement>, n: int)
    requires
        0 <= n <= s.len(),
    ensures
        charset_elements_view(s, n) == s.take(n).map_values(|e: CharSetElement| element_view(e)),
    decreases n,
{
    if n > 0 {
        lemma_charset_elements_view(s, n - 1);
        assert(s.take(n).map_values(|e: CharSetElement| element_view(e)) =~= s.take(n - 1).map_values(
            |e: CharSetElement| element_view(e),
        ).push(element_view(s[n - 1])));
    } else {
        assert(s.take(0).map_values(|e: CharSetElement| element_view(e)) =~= Seq::<SpecCharSetElement>::empty());
    }
}

} // verus!
