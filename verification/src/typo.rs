//! Typo criterion: the sum of edit distances over all of a document's
//! matches; fewer errors rank better, so the order is ascending.

use vstd::prelude::*;

use crate::arena::{DocIndex, PostingsArena};
use crate::criterion::{Criterion, Order};
use crate::document::{BareMatch, RawDocument};

verus! {

/// The sum of the `distance` fields of a sequence of matches.
pub open spec fn typo_score(ms: Seq<BareMatch>) -> nat
    decreases ms.len(),
{
    if ms.len() == 0 {
        0
    } else {
        typo_score(ms.drop_last()) + ms.last().distance as nat
    }
}

/// A prefix never sums to more than the whole sequence.
pub proof fn lemma_typo_score_take_le(ms: Seq<BareMatch>, i: int)
    requires
        0 <= i <= ms.len(),
    ensures
        typo_score(ms.take(i)) <= typo_score(ms),
    decreases ms.len(),
{
    if i == ms.len() {
        assert(ms.take(i) =~= ms);
    } else {
        let t = ms.drop_last();
        assert(ms.take(i) =~= t.take(i));
        lemma_typo_score_take_le(t, i);
    }
}

/// Ranks documents by how many edit-distance errors their matches carry.
pub struct Typo;

impl Criterion for Typo {
    open spec fn spec_score(&self, arena: Seq<Seq<DocIndex>>, doc: RawDocument) -> nat {
        typo_score(doc.bare_matches@)
    }

    open spec fn spec_order(&self) -> Order {
        Order::Asc
    }

    open spec fn spec_name(&self) -> Seq<char> {
        "typo"@
    }

    fn name(&self) -> (r: &'static str) {
        "typo"
    }

    fn order(&self) -> (r: Order) {
        Order::Asc
    }

    fn evaluate(&self, arena: &PostingsArena, document: &RawDocument) -> (r: usize) {
        let ms = &document.bare_matches;
        let mut sum: usize = 0;
        let mut i: usize = 0;
        while i < ms.len()
            invariant
                i <= ms.len(),
                ms@ == document.bare_matches@,
                sum == typo_score(ms@.take(i as int)),
                typo_score(ms@) <= usize::MAX,
            decreases ms.len() - i,
        {
            proof {
                lemma_typo_score_take_le(ms@, i + 1);
                assert(ms@.take(i + 1).drop_last() =~= ms@.take(i as int));
                assert(ms@.take(i + 1).last() == ms@[i as int]);
            }
            sum = sum + ms[i].distance as usize;
            i += 1;
        }
        proof {
            assert(ms@.take(ms@.len() as int) =~= ms@);
        }
        sum
    }
}

} // verus!
