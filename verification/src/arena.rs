//! Postings arena: an append-only store of immutable, sorted, deduplicated
//! position lists. `add` hands out a lightweight handle; `resolve` is only
//! callable on handles proved to belong to this arena's contents, so a
//! handle can never be used against an arena that did not create it.

use vstd::prelude::*;

use crate::sorting::{
    key_fn, lemma_flatten_index, lemma_flatten_member, lemma_runs_flatten, lemma_runs_shape,
    lemma_runs_starts_in_order, lemma_sort_stable_multiset, lemma_sort_stable_sorted, runs_by_key,
    sort_by_key, sort_stable, split_runs, SortKey,
};

verus! {

/// Identifier of one candidate document, stable for the duration of a query.
pub type DocumentId = u32;

/// One occurrence of a query term: a document, a field (attribute) index and
/// a word offset inside that field.
#[derive(Clone, Copy, PartialEq, Eq, Structural, Debug)]
pub struct DocIndex {
    pub document_id: DocumentId,
    pub attribute: u16,
    pub word_index: u16,
}

/// The sort key of a position entry: the pair (attribute, word offset),
/// packed so that integer order coincides with lexicographic pair order.
pub open spec fn pos_key(e: DocIndex) -> int {
    e.attribute * 0x10000 + e.word_index
}

/// A postings list is well formed when its entries are strictly increasing
/// by (attribute, word offset): sorted and free of duplicate positions.
pub open spec fn strictly_sorted(s: Seq<DocIndex>) -> bool {
    forall|i: int, j: int|
        #![trigger s[i], s[j]]
        0 <= i < j < s.len() ==> pos_key(s[i]) < pos_key(s[j])
}

impl SortKey for DocIndex {
    /// Position entries are ordered by (attribute, word offset).
    open spec fn sort_key(self) -> int {
        pos_key(self)
    }

    fn key_le(&self, other: &Self) -> (r: bool) {
        self.attribute < other.attribute || (self.attribute == other.attribute && self.word_index
            <= other.word_index)
    }
}

/// Sorts position entries by (attribute, word offset) and drops entries
/// whose position repeats an earlier one, so the result is a well-formed
/// postings list: every input position is represented, by an input entry.
pub fn sort_dedup_positions(entries: Vec<DocIndex>) -> (r: Vec<DocIndex>)
    ensures
        strictly_sorted(r@),
        forall|i: int| 0 <= i < r@.len() ==> entries@.contains(#[trigger] r@[i]),
        forall|i: int|
            0 <= i < entries@.len() ==> exists|j: int|
                0 <= j < r@.len() && pos_key(r@[j]) == pos_key(#[trigger] entries@[i]),
{
    broadcast use vstd::seq_lib::group_to_multiset_ensures;

    let ghost orig = entries@;
    let ghost kf = key_fn::<DocIndex>();
    let ghost sorted_seq = sort_stable(kf, true, orig);
    let ghost runs = runs_by_key(kf, sorted_seq);
    let sorted = sort_by_key(entries, true);
    let groups = split_runs(sorted);
    proof {
        lemma_sort_stable_sorted(kf, true, orig);
        lemma_sort_stable_multiset(kf, true, orig);
        lemma_runs_shape(kf, sorted_seq);
        lemma_runs_flatten(kf, sorted_seq);
    }
    let mut rem = groups;
    let mut r: Vec<DocIndex> = Vec::new();
    while rem.len() > 0
        invariant
            r@.len() + rem@.len() == runs.len(),
            runs == runs_by_key(key_fn::<DocIndex>(), sort_stable(key_fn::<DocIndex>(), true, orig)),
            forall|i: int| 0 <= i < rem@.len() ==> (#[trigger] rem@[i])@ == runs[r@.len() + i],
            forall|i: int| 0 <= i < r@.len() ==> #[trigger] r@[i] == runs[i][0],
        decreases rem.len(),
    {
        let ghost prev = rem@;
        let g = rem.remove(0);
        proof {
            assert(g@ == runs[r@.len() as int]);
            assert(forall|i: int| 0 <= i < rem@.len() ==> #[trigger] rem@[i] == prev[i + 1]);
            let kf2 = key_fn::<DocIndex>();
            let ss = sort_stable(kf2, true, orig);
            lemma_runs_shape(kf2, ss);
            assert(g@.len() > 0);
        }
        let e = g[0];
        r.push(e);
    }
    proof {
        let kf2 = key_fn::<DocIndex>();
        lemma_runs_shape(kf2, sorted_seq);
        lemma_runs_flatten(kf2, sorted_seq);
        assert forall|i: int, j: int|
            #![trigger r@[i], r@[j]]
            0 <= i < j < r@.len() implies pos_key(r@[i]) < pos_key(r@[j]) by {
            lemma_runs_starts_in_order(kf2, true, sorted_seq, i, j);
            if j == i + 1 {
                assert(kf2(runs[i][0]) != kf2(runs[j][0]));
            } else {
                lemma_runs_starts_in_order(kf2, true, sorted_seq, i, j - 1);
                lemma_runs_starts_in_order(kf2, true, sorted_seq, j - 1, j);
                assert(kf2(runs[j - 1][0]) != kf2(runs[j][0]));
            }
            assert(kf2(runs[i][0]) == runs[i][0].sort_key());
            assert(kf2(runs[j][0]) == runs[j][0].sort_key());
            assert(kf2(runs[j - 1][0]) == runs[j - 1][0].sort_key());
        }
        assert forall|i: int| 0 <= i < r@.len() implies orig.contains(r@[i]) by {
            lemma_flatten_member(runs, i, 0);
            assert(sorted_seq.contains(r@[i]));
            sorted_seq.to_multiset_ensures();
            orig.to_multiset_ensures();
            assert(orig.to_multiset().count(r@[i]) > 0);
        }
        assert forall|i: int| 0 <= i < orig.len() implies exists|j: int|
            0 <= j < r@.len() && pos_key(#[trigger] r@[j]) == pos_key(#[trigger] orig[i]) by {
            assert(orig.contains(orig[i]));
            sorted_seq.to_multiset_ensures();
            orig.to_multiset_ensures();
            assert(sorted_seq.to_multiset().count(orig[i]) > 0);
            assert(sorted_seq.contains(orig[i]));
            let p = choose|p: int| 0 <= p < sorted_seq.len() && sorted_seq[p] == orig[i];
            lemma_flatten_index(runs, p);
            let (g, t): (int, int) = choose|g: int, t: int|
                0 <= g < runs.len() && 0 <= t < runs[g].len() && runs.flatten()[p] == runs[g][t];
            assert(kf2(runs[g][t]) == kf2(runs[g][0]));
            assert(kf2(runs[g][t]) == runs[g][t].sort_key());
            assert(kf2(runs[g][0]) == runs[g][0].sort_key());
            assert(r@[g] == runs[g][0]);
            assert(pos_key(r@[g]) == pos_key(orig[i]));
        }
    }
    r
}

/// Handle to one postings list inside a `PostingsArena`. It is an index that
/// only `resolve` on the creating arena can dereference: resolution demands a
/// proof that the index lies inside that arena's contents.
#[derive(Clone, Copy, PartialEq, Eq, Structural, Debug)]
pub struct PostingsListId {
    pub idx: usize,
}

/// Append-only arena owning the postings lists for one query. It is written
/// once while matches are gathered, then read by every criterion.
pub struct PostingsArena {
    lists: Vec<Vec<DocIndex>>,
}

impl View for PostingsArena {
    type V = Seq<Seq<DocIndex>>;

    closed spec fn view(&self) -> Seq<Seq<DocIndex>> {
        self.lists@.map(|i: int, l: Vec<DocIndex>| l@)
    }
}

impl PostingsArena {
    /// Every stored list is sorted and deduplicated.
    pub open spec fn wf(&self) -> bool {
        forall|i: int| 0 <= i < self@.len() ==> strictly_sorted(#[trigger] self@[i])
    }

    /// A fresh, empty arena.
    pub fn new() -> (r: Self)
        ensures
            r@ == Seq::<Seq<DocIndex>>::empty(),
            r.wf(),
    {
        let r = PostingsArena { lists: Vec::new() };
        proof {
            assert(r@ =~= Seq::<Seq<DocIndex>>::empty());
        }
        r
    }

    /// How many postings lists the arena holds.
    pub fn len(&self) -> (r: usize)
        ensures
            r == self@.len(),
    {
        self.lists.len()
    }

    /// Stores an already sorted, deduplicated postings list and returns the
    /// handle under which this arena will resolve it.
    pub fn add(&mut self, list: Vec<DocIndex>) -> (h: PostingsListId)
        requires
            strictly_sorted(list@),
        ensures
            final(self)@ == old(self)@.push(list@),
            h.idx == old(self)@.len(),
            old(self).wf() ==> final(self).wf(),
    {
        let h = PostingsListId { idx: self.lists.len() };
        self.lists.push(list);
        proof {
            assert(self@ =~= old(self)@.push(list@));
        }
        h
    }

    /// Dereferences a handle created by this arena.
    pub fn resolve(&self, h: PostingsListId) -> (r: &Vec<DocIndex>)
        requires
            h.idx < self@.len(),
        ensures
            r@ == self@[h.idx as int],
    {
        &self.lists[h.idx]
    }
}

} // verus!
