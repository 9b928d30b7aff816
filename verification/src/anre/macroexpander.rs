use vstd::prelude::*;

use super::token::{SpecToken, Token, TokenWithRange, token_views};
use crate::location::Location;
use crate::traditional::lexer::{Failure, error_matches};
use crate::AnreError;

verus! {

// A macro is defined by `define(name, tokens...)` and used by its name:
// each identifier `name` in the program, and in the definitions that come
// after it, stands for its tokens.

/// A token viewed as a value.
pub type TokenView = (SpecToken, Location);

/// A definition viewed as a value: the name and the tokens it stands for.
pub type DefinitionView = (Seq<char>, Seq<TokenView>);

pub open spec fn is_identifier(t: TokenView, name: Seq<char>) -> bool {
    t.0 == SpecToken::Identifier(name)
}

/// The index of the first `define` identifier from index `k` on.
pub open spec fn find_define(ts: Seq<TokenView>, k: int) -> Option<int>
    decreases ts.len() - k,
{
    if k < 0 || k >= ts.len() {
        None
    } else if is_identifier(ts[k], "define"@) {
        Some(k)
    } else {
        find_define(ts, k + 1)
    }
}

/// Where the parentheses that follow a `define` close.
pub enum Closing {
    /// At the `)` at this index.
    Found(int),
    /// The tokens end first.
    Missing,
    /// A `)` comes before any `(`.
    Unbalanced,
}

/// Looks for the `)` that closes the first `(`, from index `idx` with
/// `depth` parentheses open.
pub open spec fn closing(ts: Seq<TokenView>, idx: int, depth: nat) -> Closing
    decreases ts.len() - idx,
{
    if idx < 0 || idx >= ts.len() {
        Closing::Missing
    } else {
        match ts[idx].0 {
            SpecToken::LeftParen => closing(ts, idx + 1, depth + 1),
            SpecToken::RightParen => if depth == 1 {
                Closing::Found(idx)
            } else if depth == 0 {
                Closing::Unbalanced
            } else {
                closing(ts, idx + 1, (depth - 1) as nat)
            },
            _ => closing(ts, idx + 1, depth),
        }
    }
}

/// The index after a new-line at `p`, if there is one.
pub open spec fn skip_new_line(ds: Seq<TokenView>, p: int) -> int {
    if 0 <= p < ds.len() && ds[p].0 is NewLine {
        p + 1
    } else {
        p
    }
}

/// The definition that the tokens `ds` of `define(...)` make: the
/// `define`, an optional new-line, the `(`, an optional new-line, the
/// name, a comma or a new-line, and the tokens up to the last one, `)`.
pub open spec fn definition_of(ds: Seq<TokenView>) -> Result<DefinitionView, Failure> {
    let p1 = skip_new_line(ds, 1);
    let p2 = if p1 < ds.len() { p1 + 1 } else { p1 };
    let p3 = skip_new_line(ds, p2);
    if p3 >= ds.len() {
        Err(Failure::End)
    } else {
        match ds[p3].0 {
            SpecToken::Identifier(name) => {
                let p4 = p3 + 1;
                if p4 >= ds.len() {
                    Err(Failure::End)
                } else if ds[p4].0 is NewLine || ds[p4].0 is Comma {
                    let p5 = p4 + 1;
                    Ok((name, if p5 < ds.len() { ds.subrange(p5, ds.len() - 1) } else { Seq::empty() }))
                } else {
                    Err(Failure::At(Location { length: 0, ..ds[p4].1 }))
                }
            },
            _ => Err(Failure::At(Location { length: 0, ..ds[p3].1 })),
        }
    }
}

/// What extracting the definitions gives.
pub enum Extraction {
    /// The program tokens without the definitions, and the definitions in
    /// their order.
    Done(Seq<TokenView>, Seq<DefinitionView>),
    Failed(Failure),
    /// A `)` closes no `(` after a `define`.
    Unbalanced,
}

/// Takes each `define(...)` out of the tokens, the first one first.
pub open spec fn extraction(ts: Seq<TokenView>) -> Extraction
    decreases ts.len(),
{
    match find_define(ts, 0) {
        None => Extraction::Done(ts, Seq::empty()),
        Some(start) => match closing(ts, start + 1, 0) {
            Closing::Missing => Extraction::Failed(Failure::End),
            Closing::Unbalanced => Extraction::Unbalanced,
            Closing::Found(end) => if 0 <= start < end < ts.len() {
                match definition_of(ts.subrange(start, end + 1)) {
                    Err(f) => Extraction::Failed(f),
                    Ok(d) => match extraction(ts.subrange(0, start) + ts.subrange(end + 1, ts.len() as int)) {
                        Extraction::Done(program, defs) => Extraction::Done(program, seq![d] + defs),
                        other => other,
                    },
                }
            } else {
                Extraction::Unbalanced
            },
        },
    }
}

proof fn lemma_find_define_none(ts: Seq<TokenView>, k: int)
    requires
        0 <= k,
        find_define(ts, k) is None,
    ensures
        forall|i: int| k <= i < ts.len() ==> !is_identifier(#[trigger] ts[i], "define"@),
    decreases ts.len() - k,
{
    if k < ts.len() {
        lemma_find_define_none(ts, k + 1);
    }
}

/// Taking the definitions out leaves no `define` in the program: every
/// `define` of the tokens belongs to a definition.
pub proof fn lemma_extraction_leaves_no_define(ts: Seq<TokenView>)
    ensures
        extraction(ts) matches Extraction::Done(program, _) ==> forall|i: int|
            0 <= i < program.len() ==> !is_identifier(#[trigger] program[i], "define"@),
    decreases ts.len(),
{
    match find_define(ts, 0) {
        None => {
            lemma_find_define_none(ts, 0);
        },
        Some(start) => {
            if let Closing::Found(end) = closing(ts, start + 1, 0) {
                if 0 <= start < end < ts.len() {
                    lemma_extraction_leaves_no_define(
                        ts.subrange(0, start) + ts.subrange(end + 1, ts.len() as int),
                    );
                }
            }
        },
    }
}

/// The tokens with each identifier `name` replaced by the tokens `with`.
pub open spec fn replace_ids(s: Seq<TokenView>, name: Seq<char>, with: Seq<TokenView>) -> Seq<TokenView>
    decreases s.len(),
{
    if s.len() == 0 {
        Seq::empty()
    } else {
        replace_ids(s.drop_last(), name, with) + if is_identifier(s.last(), name) {
            with
        } else {
            seq![s.last()]
        }
    }
}

/// The definitions with `d` applied to each of them.
pub open spec fn apply_to_definitions(defs: Seq<DefinitionView>, d: DefinitionView) -> Seq<DefinitionView> {
    defs.map_values(|e: DefinitionView| (e.0, replace_ids(e.1, d.0, d.1)))
}

/// The program with the definitions applied, the first one first: each
/// definition applies to the program and to the definitions after it.
pub open spec fn apply_definitions(program: Seq<TokenView>, defs: Seq<DefinitionView>) -> Seq<TokenView>
    decreases defs.len(),
{
    if defs.len() == 0 {
        program
    } else {
        let d = defs[0];
        apply_definitions(
            replace_ids(program, d.0, d.1),
            apply_to_definitions(defs.drop_first(), d),
        )
    }
}


/// A macro definition: its name and the tokens that it stands for.
#[derive(Debug, PartialEq)]
struct Definition {
    name: String,
    tokens: Vec<TokenWithRange>,
}

impl Definition {
    spec fn view(self) -> DefinitionView {
        (self.name@, token_views(self.tokens@))
    }
}

spec fn definitions_view(defs: Seq<Definition>) -> Seq<DefinitionView> {
    defs.map_values(|d: Definition| d@)
}

fn is_define(t: &TokenWithRange) -> (r: bool)
    ensures
        r == is_identifier(t@, "define"@),
{
    match &t.token {
        Token::Identifier(id) => *id == "define".to_owned(),
        _ => false,
    }
}

/// The index of the first `define`.
fn find_define_index(tokens: &Vec<TokenWithRange>) -> (r: Option<usize>)
    ensures
        match r {
            Some(i) => find_define(token_views(tokens@), 0) == Some(i as int) && i < tokens@.len(),
            None => find_define(token_views(tokens@), 0) is None,
        },
{
    let ghost ts = token_views(tokens@);
    let mut i: usize = 0;
    while i < tokens.len()
        invariant
            i <= tokens@.len(),
            ts == token_views(tokens@),
            find_define(ts, 0) == find_define(ts, i as int),
        decreases tokens@.len() - i,
    {
        if is_define(&tokens[i]) {
            return Some(i);
        }
        i = i + 1;
    }
    None
}

/// The index of the `)` that closes the first `(` after index `start`:
/// `Ok(None)` when the tokens end first, `Err(())` when a `)` comes first.
fn find_closing(tokens: &Vec<TokenWithRange>, start: usize) -> (r: Result<Option<usize>, ()>)
    requires
        start < tokens@.len(),
    ensures
        r matches Ok(Some(end)) ==> closing(token_views(tokens@), start + 1, 0) == Closing::Found(end as int)
            && start < end < tokens@.len(),
        r matches Ok(None) ==> closing(token_views(tokens@), start + 1, 0) is Missing,
        r is Err ==> closing(token_views(tokens@), start + 1, 0) is Unbalanced,
{
    let ghost ts = token_views(tokens@);
    let _ = tokens.len();
    let mut depth: usize = 0;
    let mut idx = start + 1;
    while idx < tokens.len()
        invariant
            start < idx <= tokens@.len(),
            depth <= idx - start - 1,
            ts == token_views(tokens@),
            closing(ts, start + 1, 0) == closing(ts, idx as int, depth as nat),
        decreases tokens@.len() - idx,
    {
        match &tokens[idx].token {
            Token::LeftParen => {
                depth = depth + 1;
            },
            Token::RightParen => {
                if depth == 1 {
                    return Ok(Some(idx));
                } else if depth == 0 {
                    return Err(());
                } else {
                    depth = depth - 1;
                }
            },
            _ => {},
        }
        idx = idx + 1;
    }
    Ok(None)
}

/// Takes the tokens `start..=end` out of `tokens`.
fn take_tokens(tokens: &mut Vec<TokenWithRange>, start: usize, end: usize) -> (r: Vec<TokenWithRange>)
    requires
        start <= end < old(tokens)@.len(),
    ensures
        r@ == old(tokens)@.subrange(start as int, end + 1),
        final(tokens)@ == old(tokens)@.subrange(0, start as int) + old(tokens)@.subrange(
            end + 1,
            old(tokens)@.len() as int,
        ),
{
    let ghost all = tokens@;
    let _ = tokens.len();
    let mut taken: Vec<TokenWithRange> = Vec::new();
    let count = end - start + 1;
    let mut n: usize = 0;
    while n < count
        invariant
            start <= end < all.len(),
            count == end - start + 1,
            n <= count,
            taken@ == all.subrange(start as int, start + n),
            tokens@ == all.subrange(0, start as int) + all.subrange(start + n, all.len() as int),
        decreases count - n,
    {
        proof {
            assert(tokens@[start as int] == all[start + n]);
        }
        let t = tokens.remove(start);
        taken.push(t);
        proof {
            assert(taken@ =~= all.subrange(start as int, start + n + 1));
            assert(tokens@ =~= all.subrange(0, start as int) + all.subrange(start + n + 1, all.len() as int));
        }
        n = n + 1;
    }
    taken
}

/// Reads a definition from the tokens of `define(...)`.
pub struct DefinitionExtractor {
    tokens: Vec<TokenWithRange>,
    /// The index of the next token to read.
    index: usize,
    last_range: Location,
}

impl DefinitionExtractor {
    spec fn toks(self) -> Seq<TokenView> {
        token_views(self.tokens@)
    }

    spec fn wf(self) -> bool {
        self.index <= self.tokens@.len()
    }

    fn new(tokens: Vec<TokenWithRange>) -> (r: Self)
        ensures
            r.wf(),
            r.index == 0,
            r.tokens == tokens,
    {
        DefinitionExtractor { tokens, index: 0, last_range: Location::new_range(0, 0, 0, 0) }
    }

    /// Moves past the next token, if there is one.
    fn next_token(&mut self)
        requires
            old(self).wf(),
        ensures
            final(self).wf(),
            final(self).tokens == old(self).tokens,
            final(self).index == if old(self).index < old(self).tokens@.len() {
                old(self).index + 1
            } else {
                old(self).index as int
            },
    {
        if self.index < self.tokens.len() {
            self.last_range = self.tokens[self.index].range;
            self.index = self.index + 1;
        }
    }

    /// The token `offset` places ahead, if there is one.
    fn peek_token(&self, offset: usize) -> (r: Option<&Token>)
        requires
            self.wf(),
        ensures
            self.index + offset < self.tokens@.len() ==> r == Some(&self.tokens@[self.index + offset].token),
            self.index + offset >= self.tokens@.len() ==> r is None,
    {
        if offset < self.tokens.len() - self.index {
            Some(&self.tokens[self.index + offset].token)
        } else {
            None
        }
    }

    /// The range of the token `offset` places ahead, if there is one.
    fn peek_range(&self, offset: usize) -> (r: Option<&Location>)
        requires
            self.wf(),
        ensures
            self.index + offset < self.tokens@.len() ==> r == Some(&self.tokens@[self.index + offset].range),
            self.index + offset >= self.tokens@.len() ==> r is None,
    {
        if offset < self.tokens.len() - self.index {
            Some(&self.tokens[self.index + offset].range)
        } else {
            None
        }
    }

    /// Moves past a new-line, if the next token is one.
    fn consume_new_line_if_exist(&mut self) -> (r: bool)
        requires
            old(self).wf(),
        ensures
            final(self).wf(),
            final(self).tokens == old(self).tokens,
            final(self).index == skip_new_line(old(self).toks(), old(self).index as int),
            r == (final(self).index != old(self).index),
    {
        let is_new_line = match self.peek_token(0) {
            Some(Token::NewLine) => true,
            _ => false,
        };
        if is_new_line {
            self.next_token();
            true
        } else {
            false
        }
    }

    /// Moves past a comma or a new-line, which must come next.
    fn consume_new_line_or_comma(&mut self) -> (r: Result<(), AnreError>)
        requires
            old(self).wf(),
        ensures
            final(self).wf(),
            final(self).tokens == old(self).tokens,
            old(self).index >= old(self).tokens@.len() ==> (r matches Err(e) && error_matches(e, Failure::End)),
            old(self).index < old(self).tokens@.len() ==> {
                let t = old(self).toks()[old(self).index as int];
                if t.0 is NewLine || t.0 is Comma {
                    r is Ok && final(self).index == old(self).index + 1
                } else {
                    r matches Err(e) && error_matches(e, Failure::At(Location { length: 0, ..t.1 }))
                }
            },
    {
        match self.peek_token(0) {
            Some(Token::NewLine) | Some(Token::Comma) => {
                self.next_token();
                Ok(())
            },
            Some(_) => {
                let range = self.peek_range(0).unwrap();
                Err(
                    AnreError::MessageWithLocation(
                        "Expect a comma or new-line.".to_owned(),
                        range.get_position_by_range_start(),
                    ),
                )
            },
            None => Err(AnreError::UnexpectedEndOfDocument("Expect a comma or new-line.".to_owned())),
        }
    }

    /// Reads the identifier that must come next.
    fn consume_identifier(&mut self) -> (r: Result<String, AnreError>)
        requires
            old(self).wf(),
        ensures
            final(self).wf(),
            final(self).tokens == old(self).tokens,
            old(self).index >= old(self).tokens@.len() ==> (r matches Err(e) && error_matches(e, Failure::End)),
            old(self).index < old(self).tokens@.len() ==> {
                let t = old(self).toks()[old(self).index as int];
                match t.0 {
                    SpecToken::Identifier(name) => r matches Ok(s) && s@ == name && final(self).index
                        == old(self).index + 1,
                    _ => r matches Err(e) && error_matches(e, Failure::At(Location { length: 0, ..t.1 })),
                }
            },
    {
        if self.index >= self.tokens.len() {
            return Err(AnreError::UnexpectedEndOfDocument("Expect an identifier.".to_owned()));
        }
        let name = match &self.tokens[self.index].token {
            Token::Identifier(s) => Some(s.clone()),
            _ => None,
        };
        match name {
            Some(id) => {
                self.next_token();
                Ok(id)
            },
            None => {
                let range = self.peek_range(0).unwrap();
                Err(
                    AnreError::MessageWithLocation(
                        "Expect an identifier.".to_owned(),
                        range.get_position_by_range_start(),
                    ),
                )
            },
        }
    }

    /// Reads the definition: `define`, `(`, the name, a separator, and the
    /// tokens up to the last one.
    fn extract(&mut self) -> (r: Result<Definition, AnreError>)
        requires
            old(self).wf(),
            old(self).index == 0,
            old(self).tokens@.len() >= 1,
        ensures
            match definition_of(old(self).toks()) {
                Ok(d) => r matches Ok(def) && def@ == d,
                Err(f) => r matches Err(e) && error_matches(e, f),
            },
    {
        let ghost ds = self.toks();
        self.next_token(); // consume "define"
        self.consume_new_line_if_exist();
        self.next_token(); // consume '('
        self.consume_new_line_if_exist();
        let name = match self.consume_identifier() {
            Ok(name) => name,
            Err(e) => {
                return Err(e);
            },
        };
        match self.consume_new_line_or_comma() {
            Ok(()) => {},
            Err(e) => {
                return Err(e);
            },
        }
        // the tokens that follow, but the last one
        let ghost p5 = self.index as int;
        let mut tokens: Vec<TokenWithRange> = Vec::new();
        while self.tokens.len() - self.index > 1
            invariant
                self.wf(),
                ds == self.toks(),
                0 <= p5 <= self.index,
                p5 < ds.len() ==> self.index <= ds.len() - 1,
                p5 >= ds.len() ==> self.index == p5,
                token_views(tokens@) == ds.subrange(p5, self.index as int),
            decreases self.tokens@.len() - self.index,
        {
            let t = self.tokens[self.index].duplicate();
            let ghost before = token_views(tokens@);
            tokens.push(t);
            proof {
                assert(ds.subrange(p5, self.index + 1) =~= ds.subrange(p5, self.index as int).push(ds[self.index as int]));
                assert(token_views(tokens@) =~= before.push(t@));
            }
            self.index = self.index + 1;
        }
        proof {
            if p5 < ds.len() {
                assert(self.index == ds.len() - 1);
            } else {
                assert(token_views(tokens@) =~= Seq::<TokenView>::empty());
            }
        }
        Ok(Definition { name, tokens })
    }
}

/// Whether `r` is what extracting the definitions from the tokens `ts` gives.
spec fn extracted(ts: Seq<TokenView>, r: Result<(Vec<TokenWithRange>, Vec<Definition>), AnreError>) -> bool {
    match extraction(ts) {
        Extraction::Done(program, defs) => r matches Ok((p, d)) && token_views(p@) == program
            && definitions_view(d@) == defs,
        Extraction::Failed(f) => r matches Err(e) && error_matches(e, f),
        Extraction::Unbalanced => false,
    }
}

/// Takes the definitions out of the tokens.
fn extract_definitions(tokens: Vec<TokenWithRange>) -> (r: Result<(Vec<TokenWithRange>, Vec<Definition>), AnreError>)
    requires
        !(extraction(token_views(tokens@)) is Unbalanced),
    ensures
        extracted(token_views(tokens@), r),
{
    let ghost all = token_views(tokens@);
    let mut remaining = tokens;
    let mut definitions: Vec<Definition> = Vec::new();
    proof {
        assert(definitions_view(definitions@) =~= Seq::<DefinitionView>::empty());
    }
    loop
        invariant
            all == token_views(tokens@),
            !(extraction(token_views(remaining@)) is Unbalanced),
            match extraction(all) {
                Extraction::Done(program, defs) => extraction(token_views(remaining@)) matches Extraction::Done(
                    p2,
                    d2,
                ) && p2 == program && definitions_view(definitions@) + d2 == defs,
                Extraction::Failed(f) => extraction(token_views(remaining@)) == Extraction::Failed(f),
                Extraction::Unbalanced => false,
            },
        decreases remaining@.len(),
    {
        let ghost ts = token_views(remaining@);
        let start = match find_define_index(&remaining) {
            Some(start) => start,
            None => {
                proof {
                    assert(extraction(ts) == Extraction::Done(ts, Seq::empty()));
                    assert(definitions_view(definitions@) + Seq::<DefinitionView>::empty() =~= definitions_view(
                        definitions@,
                    ));
                    assert(extraction(all) matches Extraction::Done(program, defs) && program == ts && defs
                        == definitions_view(definitions@));
                }
                let result = Ok((remaining, definitions));
                proof {
                    assert(extracted(all, result));
                }
                return result;
            },
        };
        let end = match find_closing(&remaining, start) {
            Ok(Some(end)) => end,
            Ok(None) => {
                return Err(AnreError::UnexpectedEndOfDocument("Incomplete definition statement.".to_owned()));
            },
            Err(()) => {
                proof {
                    assert(false);
                }
                return Err(AnreError::UnexpectedEndOfDocument("Incomplete definition statement.".to_owned()));
            },
        };
        let definition_tokens = take_tokens(&mut remaining, start, end);
        proof {
            assert(token_views(definition_tokens@) =~= ts.subrange(start as int, end + 1));
            assert(token_views(remaining@) =~= ts.subrange(0, start as int) + ts.subrange(end + 1, ts.len() as int));
        }
        let mut extractor = DefinitionExtractor::new(definition_tokens);
        let definition = match extractor.extract() {
            Ok(d) => d,
            Err(e) => {
                return Err(e);
            },
        };
        proof {
            let d = definition@;
            assert(definitions_view(definitions@.push(definition)) =~= definitions_view(definitions@).push(d));
            if let Extraction::Done(p2, d2) = extraction(token_views(remaining@)) {
                assert(definitions_view(definitions@).push(d) + d2 =~= definitions_view(definitions@) + (seq![d]
                    + d2));
            }
        }
        definitions.push(definition);
    }
}

/// Replaces each identifier `find_id` with the tokens `replace_with`.
fn find_and_replace_identifiers(
    source_tokens: &mut Vec<TokenWithRange>,
    find_id: &str,
    replace_with: &[TokenWithRange],
)
    ensures
        token_views(final(source_tokens)@) == replace_ids(
            token_views(old(source_tokens)@),
            find_id@,
            token_views(replace_with@),
        ),
{
    let ghost all = token_views(source_tokens@);
    let ghost with = token_views(replace_with@);
    let target = find_id.to_owned();
    // the tokens not yet read, the last one first
    let mut reversed: Vec<TokenWithRange> = Vec::new();
    while source_tokens.len() > 0
        invariant
            all == token_views(source_tokens@ + reversed@.reverse()),
        decreases source_tokens@.len(),
    {
        let t = source_tokens.pop().unwrap();
        reversed.push(t);
        proof {
            assert(source_tokens@ + reversed@.reverse() =~= old(source_tokens)@.take(0) + (source_tokens@
                + reversed@.reverse()).skip(0));
        }
    }
    proof {
        assert(all =~= token_views(reversed@.reverse()));
        assert(all.take(0) =~= Seq::<TokenView>::empty());
    }
    while reversed.len() > 0
        invariant
            reversed@.len() <= all.len(),
            all == all.take(all.len() - reversed@.len()) + token_views(reversed@.reverse()),
            token_views(source_tokens@) == replace_ids(all.take(all.len() - reversed@.len()), find_id@, with),
            target@ == find_id@,
            with == token_views(replace_with@),
        decreases reversed@.len(),
    {
        let ghost k = all.len() - reversed@.len();
        let ghost before = token_views(source_tokens@);
        let t = reversed.pop().unwrap();
        proof {
            assert(token_views(reversed@.push(t).reverse()) =~= seq![t@] + token_views(reversed@.reverse()));
            assert(all[k] == t@);
            assert(all.take(k + 1).drop_last() =~= all.take(k));
            assert(all =~= all.take(k + 1) + token_views(reversed@.reverse()));
        }
        let matched = match &t.token {
            Token::Identifier(id) => *id == target,
            _ => false,
        };
        if matched {
            let mut j: usize = 0;
            while j < replace_with.len()
                invariant
                    j <= replace_with@.len(),
                    with == token_views(replace_with@),
                    token_views(source_tokens@) == before + with.take(j as int),
                decreases replace_with@.len() - j,
            {
                let ghost so_far = token_views(source_tokens@);
                let copy = replace_with[j].duplicate();
                source_tokens.push(copy);
                proof {
                    assert(copy@ == with[j as int]);
                    assert(token_views(source_tokens@) =~= so_far.push(copy@));
                    assert(token_views(source_tokens@) =~= before + with.take(j + 1));
                }
                j = j + 1;
            }
            proof {
                assert(with.take(with.len() as int) =~= with);
            }
        } else {
            source_tokens.push(t);
            proof {
                assert(token_views(source_tokens@) =~= before + seq![all[k]]);
            }
        }
    }
    proof {
        assert(all.take(all.len() as int) =~= all);
    }
}

/// Applies the definitions to the program, the first one first.
fn replace_identifiers(program_tokens: Vec<TokenWithRange>, definitions: Vec<Definition>) -> (r: Vec<
    TokenWithRange,
>)
    ensures
        token_views(r@) == apply_definitions(token_views(program_tokens@), definitions_view(definitions@)),
{
    let ghost defs = definitions_view(definitions@);
    let mut program = program_tokens;
    let mut pending = definitions;
    // `waiting` holds the definitions not yet applied, the first one last
    let mut waiting: Vec<Definition> = Vec::new();
    while pending.len() > 0
        invariant
            defs == definitions_view(pending@) + definitions_view(waiting@).reverse(),
        decreases pending@.len(),
    {
        let d = pending.pop().unwrap();
        waiting.push(d);
        proof {
            assert(definitions_view(pending@) + definitions_view(waiting@).reverse() =~= defs);
        }
    }
    proof {
        assert(defs =~= definitions_view(waiting@).reverse());
    }
    while waiting.len() > 0
        invariant
            apply_definitions(token_views(program_tokens@), defs) == apply_definitions(
                token_views(program@),
                definitions_view(waiting@).reverse(),
            ),
        decreases waiting@.len(),
    {
        let ghost all_view = definitions_view(waiting@).reverse();
        let definition = waiting.pop().unwrap();
        let ghost d = definition@;
        let ghost rest = definitions_view(waiting@);
        proof {
            assert(all_view[0] == d);
            assert(all_view.drop_first() =~= rest.reverse());
        }
        find_and_replace_identifiers(&mut program, definition.name.as_str(), definition.tokens.as_slice());
        // apply the definition to the later ones, which come out the last one first
        let mut updated: Vec<Definition> = Vec::new();
        while waiting.len() > 0
            invariant
                waiting@.len() <= rest.len(),
                definitions_view(waiting@) == rest.take(waiting@.len() as int),
                definitions_view(updated@) == apply_to_definitions(
                    rest.skip(waiting@.len() as int).reverse(),
                    d,
                ),
                d == definition@,
            decreases waiting@.len(),
        {
            let ghost k = waiting@.len() - 1;
            let ghost old_waiting = waiting@;
            let other = waiting.pop().unwrap();
            let ghost other_view = other@;
            proof {
                assert(definitions_view(old_waiting)[k] == old_waiting[k]@);
                assert(other == old_waiting[k]);
            }
            let mut other_tokens = other.tokens;
            find_and_replace_identifiers(&mut other_tokens, definition.name.as_str(), definition.tokens.as_slice());
            let ghost before = definitions_view(updated@);
            updated.push(Definition { name: other.name, tokens: other_tokens });
            proof {
                assert(rest[k] == other_view);
                assert(rest.skip(k).reverse() =~= rest.skip(k + 1).reverse().push(rest[k]));
                assert(definitions_view(updated@) =~= before.push(
                    (other_view.0, replace_ids(other_view.1, d.0, d.1)),
                ));
                assert(definitions_view(updated@) =~= apply_to_definitions(rest.skip(k).reverse(), d));
                assert(definitions_view(waiting@) =~= rest.take(k));
            }
        }
        // put them back, the first one last
        proof {
            assert(rest.skip(0) =~= rest);
        }
        let ghost applied = definitions_view(updated@);
        while updated.len() > 0
            invariant
                updated@.len() <= applied.len(),
                definitions_view(updated@) == applied.take(updated@.len() as int),
                definitions_view(waiting@) == applied.skip(updated@.len() as int).reverse(),
            decreases updated@.len(),
        {
            let ghost k = updated@.len() - 1;
            let ghost old_updated = updated@;
            let ghost old_waiting_view = definitions_view(waiting@);
            let e = updated.pop().unwrap();
            waiting.push(e);
            proof {
                assert(definitions_view(old_updated)[k] == old_updated[k]@);
                assert(e == old_updated[k]);
                assert(definitions_view(waiting@) =~= old_waiting_view.push(e@));
                assert(definitions_view(waiting@) =~= applied.skip(k).reverse());
                assert(definitions_view(updated@) =~= applied.take(k));
            }
        }
        proof {
            assert(applied.skip(0) =~= applied);
            assert(definitions_view(waiting@).reverse() =~= apply_to_definitions(rest.reverse(), d));
        }
    }
    proof {
        assert(definitions_view(waiting@).reverse() =~= Seq::<DefinitionView>::empty());
    }
    program
}

/// Expands the macros: takes out the definitions and applies them to the
/// program. The tokens must be free of comments.
pub fn expand(tokens: Vec<TokenWithRange>) -> (r: Result<Vec<TokenWithRange>, AnreError>)
    requires
        !(extraction(token_views(tokens@)) is Unbalanced),
    ensures
        match extraction(token_views(tokens@)) {
            Extraction::Done(program, defs) => r matches Ok(v) && token_views(v@) == apply_definitions(program, defs),
            Extraction::Failed(f) => r matches Err(e) && error_matches(e, f),
            Extraction::Unbalanced => false,
        },
{
    let (program_tokens, definitions) = match extract_definitions(tokens) {
        Ok(pair) => pair,
        Err(e) => {
            return Err(e);
        },
    };
    Ok(replace_identifiers(program_tokens, definitions))
}

} // verus!
