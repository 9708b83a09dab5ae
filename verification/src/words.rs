//! Words criterion: the number of query terms a document matched; more
//! matched terms rank better, so the order is descending.

use vstd::prelude::*;

use crate::arena::{DocIndex, PostingsArena};
use crate::criterion::{Criterion, Order};
use crate::document::{BareMatch, RawDocument};

verus! {

/// The number of matches of a document: one per matched query term.
pub open spec fn words_score(ms: Seq<BareMatch>) -> nat {
    ms.len()
}

/// Ranks documents by how many query terms they matched.
pub struct Words;

impl Criterion for Words {
    open spec fn spec_score(&self, arena: Seq<Seq<DocIndex>>, doc: RawDocument) -> nat {
        words_score(doc.bare_matches@)
    }

    open spec fn spec_order(&self) -> Order {
        Order::Dsc
    }

    open spec fn spec_name(&self) -> Seq<char> {
        "words"@
    }

    fn name(&self) -> (r: &'static str) {
        "words"
    }

    fn order(&self) -> (r: Order) {
        Order::Dsc
    }

    fn evaluate(&self, arena: &PostingsArena, document: &RawDocument) -> (r: usize) {
        document.bare_matches.len()
    }
}

} // verus!
