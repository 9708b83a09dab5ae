//! Attribute criterion: the smallest field index among all position entries
//! referenced by a document's matches; earlier fields rank better, so the
//! order is ascending.

use vstd::prelude::*;

use crate::arena::{DocIndex, PostingsArena};
use crate::criterion::{Criterion, Order};
use crate::document::{BareMatch, RawDocument};

verus! {

/// The smaller of two integers.
pub open spec fn min_int(a: int, b: int) -> int {
    if a <= b {
        a
    } else {
        b
    }
}

/// The minimum attribute among a list's entries; the worst attribute value
/// when the list is empty.
pub open spec fn entries_min_attr(s: Seq<DocIndex>) -> int
    decreases s.len(),
{
    if s.len() == 0 {
        0xffff
    } else {
        min_int(entries_min_attr(s.drop_last()), s.last().attribute as int)
    }
}

/// The minimum attribute among all entries of all lists the matches refer
/// to; the worst attribute value when there is none.
pub open spec fn doc_min_attr(arena: Seq<Seq<DocIndex>>, ms: Seq<BareMatch>) -> int
    decreases ms.len(),
{
    if ms.len() == 0 {
        0xffff
    } else {
        min_int(
            doc_min_attr(arena, ms.drop_last()),
            entries_min_attr(arena[ms.last().postings_list.idx as int]),
        )
    }
}

/// The minimum attribute of a list lies between zero and the worst value.
pub proof fn lemma_entries_min_attr_bounds(s: Seq<DocIndex>)
    ensures
        0 <= entries_min_attr(s) <= 0xffff,
    decreases s.len(),
{
    if s.len() > 0 {
        lemma_entries_min_attr_bounds(s.drop_last());
    }
}

/// The minimum attribute of a document lies between zero and the worst value.
pub proof fn lemma_doc_min_attr_bounds(arena: Seq<Seq<DocIndex>>, ms: Seq<BareMatch>)
    ensures
        0 <= doc_min_attr(arena, ms) <= 0xffff,
    decreases ms.len(),
{
    if ms.len() > 0 {
        lemma_doc_min_attr_bounds(arena, ms.drop_last());
        lemma_entries_min_attr_bounds(arena[ms.last().postings_list.idx as int]);
    }
}

/// The minimum over a whole list is at most the minimum over a prefix.
pub proof fn lemma_entries_min_attr_take(s: Seq<DocIndex>, j: int)
    requires
        0 <= j <= s.len(),
    ensures
        entries_min_attr(s) <= entries_min_attr(s.take(j)),
    decreases s.len(),
{
    if j == s.len() {
        assert(s.take(j) =~= s);
    } else {
        let t = s.drop_last();
        assert(s.take(j) =~= t.take(j));
        lemma_entries_min_attr_take(t, j);
    }
}

/// The minimum over all matches is at most the minimum over a prefix.
pub proof fn lemma_doc_min_attr_take(arena: Seq<Seq<DocIndex>>, ms: Seq<BareMatch>, i: int)
    requires
        0 <= i <= ms.len(),
    ensures
        doc_min_attr(arena, ms) <= doc_min_attr(arena, ms.take(i)),
    decreases ms.len(),
{
    if i == ms.len() {
        assert(ms.take(i) =~= ms);
    } else {
        let t = ms.drop_last();
        assert(ms.take(i) =~= t.take(i));
        lemma_doc_min_attr_take(arena, t, i);
    }
}

/// Ranks documents by the earliest field any of their matches occurs in.
pub struct Attribute;

impl Criterion for Attribute {
    open spec fn spec_score(&self, arena: Seq<Seq<DocIndex>>, doc: RawDocument) -> nat {
        doc_min_attr(arena, doc.bare_matches@) as nat
    }

    open spec fn spec_order(&self) -> Order {
        Order::Asc
    }

    open spec fn spec_name(&self) -> Seq<char> {
        "attribute"@
    }

    fn name(&self) -> (r: &'static str) {
        "attribute"
    }

    fn order(&self) -> (r: Order) {
        Order::Asc
    }

    fn evaluate(&self, arena: &PostingsArena, document: &RawDocument) -> (r: usize) {
        let ms = &document.bare_matches;
        let mut attr: u16 = 0xffff;
        let mut i: usize = 0;
        proof {
            lemma_doc_min_attr_bounds(arena@, ms@);
        }
        while i < ms.len()
            invariant
                i <= ms.len(),
                ms@ == document.bare_matches@,
                document.handles_valid(arena@),
                attr as int == doc_min_attr(arena@, ms@.take(i as int)),
            decreases ms.len() - i,
        {
            let list = arena.resolve(ms[i].postings_list);
            let ghost entries = arena@[ms@[i as int].postings_list.idx as int];
            let mut j: usize = 0;
            proof {
                lemma_doc_min_attr_bounds(arena@, ms@.take(i as int));
            }
            while j < list.len()
                invariant
                    j <= list.len(),
                    ms@ == document.bare_matches@,
                    document.handles_valid(arena@),
                    i < ms.len(),
                    list@ == entries,
                    entries == arena@[ms@[i as int].postings_list.idx as int],
                    attr as int == min_int(
                        doc_min_attr(arena@, ms@.take(i as int)),
                        entries_min_attr(entries.take(j as int)),
                    ),
                decreases list.len() - j,
            {
                proof {
                    assert(entries.take(j + 1).drop_last() =~= entries.take(j as int));
                    assert(entries.take(j + 1).last() == entries[j as int]);
                }
                if list[j].attribute < attr {
                    attr = list[j].attribute;
                }
                if attr == 0 {
                    proof {
                        lemma_doc_min_attr_take(arena@, ms@, i + 1);
                        lemma_entries_min_attr_take(entries, j + 1);
                        assert(ms@.take(i + 1).drop_last() =~= ms@.take(i as int));
                        assert(ms@.take(i + 1).last() == ms@[i as int]);
                        lemma_doc_min_attr_bounds(arena@, ms@);
                    }
                    return 0;
                }
                j += 1;
            }
            proof {
                assert(entries.take(list@.len() as int) =~= entries);
                assert(ms@.take(i + 1).drop_last() =~= ms@.take(i as int));
                assert(ms@.take(i + 1).last() == ms@[i as int]);
            }
            i += 1;
        }
        proof {
            assert(ms@.take(ms@.len() as int) =~= ms@);
        }
        attr as usize
    }
}

} // verus!
