//! The criterion interface: a pure scoring function over the frozen arena
//! and one document, together with a declared sort direction.

use vstd::prelude::*;

use crate::arena::{DocIndex, PostingsArena};
use crate::document::RawDocument;

verus! {

/// The sort direction a criterion declares for its scores.
#[derive(Clone, Copy, PartialEq, Eq, Structural, Debug)]
pub enum Order {
    /// Lower is better.
    Asc,
    /// Bigger is better.
    Dsc,
}

/// A pluggable ranking criterion. Its score is a mathematical function of
/// the arena's frozen contents and one document, so evaluation is pure:
/// two calls on the same arena and document return the same score.
pub trait Criterion: Sized {
    /// The score of one document, as a function of the arena contents and
    /// the document's matches alone.
    spec fn spec_score(&self, arena: Seq<Seq<DocIndex>>, doc: RawDocument) -> nat;

    /// The declared sort direction.
    spec fn spec_order(&self) -> Order;

    /// The diagnostic name.
    spec fn spec_name(&self) -> Seq<char>;

    /// Identifier for diagnostics and ordering configuration.
    fn name(&self) -> (r: &'static str)
        ensures
            r@ == self.spec_name(),
    ;

    /// The declared sort direction.
    fn order(&self) -> (r: Order)
        ensures
            r == self.spec_order(),
    ;

    /// Computes the document's score against the arena. Deterministic and
    /// side-effect free: the result is exactly `spec_score`.
    fn evaluate(&self, arena: &PostingsArena, document: &RawDocument) -> (r: usize)
        requires
            arena.wf(),
            document.wf(),
            document.handles_valid(arena@),
            self.spec_score(arena@, *document) <= usize::MAX,
        ensures
            r == self.spec_score(arena@, *document),
    ;
}

} // verus!
