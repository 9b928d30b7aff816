use vstd::prelude::*;

use super::token::{SpecToken, Token, TokenWithRange, token_views};
use crate::location::Location;

verus! {

/// Whether a token is no comment.
pub open spec fn is_not_comment(t: (SpecToken, Location)) -> bool {
    !(t.0 is LineComment) && !(t.0 is BlockComment)
}

/// Removes all comments, keeping the other tokens in their order.
pub fn clean(tokens: Vec<TokenWithRange>) -> (r: Vec<TokenWithRange>)
    ensures
        token_views(r@) == token_views(tokens@).filter(|t: (SpecToken, Location)| is_not_comment(t)),
{
    let ghost all = tokens@;
    let mut rest = tokens;
    // `rest` holds the tokens not yet read, the last one first.
    let mut reversed: Vec<TokenWithRange> = Vec::new();
    while rest.len() > 0
        invariant
            all == rest@ + reversed@.reverse(),
        decreases rest@.len(),
    {
        let ghost before = rest@;
        let t = rest.pop().unwrap();
        reversed.push(t);
        proof {
            assert(all =~= rest@ + reversed@.reverse());
        }
    }
    let mut kept: Vec<TokenWithRange> = Vec::new();
    let ghost pred = |t: (SpecToken, Location)| is_not_comment(t);
    proof {
        assert(all =~= reversed@.reverse());
        reveal(Seq::filter);
        assert(token_views(all).take(0) =~= Seq::<(SpecToken, Location)>::empty());
        assert(token_views(kept@) =~= token_views(all).take(0).filter(pred));
    }
    while reversed.len() > 0
        invariant
            reversed@.len() <= all.len(),
            pred == (|t: (SpecToken, Location)| is_not_comment(t)),
            all == all.take(all.len() - reversed@.len()) + reversed@.reverse(),
            token_views(kept@) == token_views(all).take(all.len() - reversed@.len()).filter(pred),
        decreases reversed@.len(),
    {
        let ghost k = all.len() - reversed@.len();
        let t = reversed.pop().unwrap();
        proof {
            assert(t == all[k]);
            assert(token_views(all).take(k + 1).drop_last() =~= token_views(all).take(k));
            assert(token_views(all).take(k + 1).last() == t@);
            assert(all =~= all.take(k + 1) + reversed@.reverse());
            let s = token_views(all).take(k + 1);
            reveal(Seq::filter);
            assert(s.len() > 0);
            assert(s.filter(pred) == (if pred(s.last()) {
                s.drop_last().filter(pred).push(s.last())
            } else {
                s.drop_last().filter(pred)
            }));
        }
        let is_comment = match &t.token {
            Token::Comment(_) => true,
            _ => false,
        };
        let ghost old_kept = token_views(kept@);
        proof {
            assert(pred(t@) == !is_comment);
            assert(token_views(all).take(k) =~= token_views(all).take(k + 1).drop_last());
        }
        if !is_comment {
            kept.push(t);
            proof {
                assert(token_views(kept@) =~= old_kept.push(t@));
                assert(token_views(kept@) =~= token_views(all).take(k + 1).filter(pred));
            }
        } else {
            proof {
                assert(token_views(kept@) =~= token_views(all).take(k + 1).filter(pred));
            }
        }
    }
    proof {
        assert(token_views(all).take(all.len() as int) =~= token_views(all));
    }
    kept
}

/// What `clean` returns holds no comment, and cleaning it again changes
/// nothing.
pub proof fn lemma_clean_idempotent(tokens: Seq<(SpecToken, Location)>)
    ensures
        ({
            let cleaned = tokens.filter(|t: (SpecToken, Location)| is_not_comment(t));
            &&& forall|i: int| 0 <= i < cleaned.len() ==> is_not_comment(#[trigger] cleaned[i])
            &&& cleaned.filter(|t: (SpecToken, Location)| is_not_comment(t)) == cleaned
        }),
    decreases tokens.len(),
{
    let pred = |t: (SpecToken, Location)| is_not_comment(t);
    let cleaned = tokens.filter(pred);
    reveal(Seq::filter);
    if tokens.len() > 0 {
        lemma_clean_idempotent(tokens.drop_last());
        let rest = tokens.drop_last().filter(pred);
        if pred(tokens.last()) {
            assert(cleaned == rest.push(tokens.last()));
            assert(cleaned.drop_last() =~= rest);
        } else {
            assert(cleaned == rest);
        }
    } else {
        assert(cleaned =~= Seq::<(SpecToken, Location)>::empty());
        assert(cleaned.filter(pred) =~= Seq::<(SpecToken, Location)>::empty());
    }
}

} // verus!
