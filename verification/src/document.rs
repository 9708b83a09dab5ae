//! Match model and document aggregator: a bare match records one query
//! term's occurrences in one document, and the aggregator bundles the
//! matches of each document into one handle, preserving their order.

use vstd::prelude::*;

use crate::arena::{DocIndex, DocumentId, PostingsListId};
use crate::sorting::{
    key_fn, lemma_flatten_member, lemma_runs_flatten, lemma_runs_shape,
    lemma_sort_stable_multiset, runs_by_key, sort_by_key, sort_stable, split_runs, SortKey,
};

verus! {

/// One query term's occurrence record for one candidate document: the term's
/// position in the query, its edit distance, whether the match is exact, and
/// the handle of the term's postings list in the arena.
#[derive(Clone, Copy, PartialEq, Eq, Structural, Debug)]
pub struct BareMatch {
    pub document_id: DocumentId,
    pub query_index: u16,
    pub distance: u8,
    pub is_exact: bool,
    pub postings_list: PostingsListId,
}

impl SortKey for BareMatch {
    /// The aggregator orders bare matches by their document.
    open spec fn sort_key(self) -> int {
        self.document_id as int
    }

    fn key_le(&self, other: &Self) -> (r: bool) {
        self.document_id <= other.document_id
    }
}

/// One candidate document together with all of its bare matches.
pub struct RawDocument {
    pub id: DocumentId,
    pub bare_matches: Vec<BareMatch>,
}

impl RawDocument {
    /// A document handle is well formed when it has at least one match and
    /// every match carries this document's id.
    pub open spec fn wf(&self) -> bool {
        &&& self.bare_matches@.len() > 0
        &&& forall|i: int|
            0 <= i < self.bare_matches@.len() ==> (#[trigger] self.bare_matches@[i]).document_id
                == self.id
    }

    /// Every postings handle of this document lies inside the given arena
    /// contents, so each criterion may resolve it there.
    pub open spec fn handles_valid(&self, arena: Seq<Seq<DocIndex>>) -> bool {
        forall|i: int|
            0 <= i < self.bare_matches@.len() ==> (#[trigger] self.bare_matches@[i]).postings_list.idx
                < arena.len()
    }
}

/// The groups the aggregator forms: the matches stably sorted by document
/// id, split into maximal runs of one document.
pub open spec fn aggregated_runs(ms: Seq<BareMatch>) -> Seq<Seq<BareMatch>> {
    runs_by_key(key_fn::<BareMatch>(), sort_stable(key_fn::<BareMatch>(), true, ms))
}

/// Groups a sequence of bare matches into one `RawDocument` per document
/// id. The matches are stably sorted by document id first, so the relative
/// order of a document's matches is preserved.
pub fn aggregate_documents(matches: Vec<BareMatch>) -> (r: Vec<RawDocument>)
    ensures
        r@.len() == aggregated_runs(matches@).len(),
        forall|i: int|
            0 <= i < r@.len() ==> (#[trigger] r@[i]).bare_matches@ == aggregated_runs(matches@)[i],
        forall|i: int| 0 <= i < r@.len() ==> (#[trigger] r@[i]).wf(),
        forall|i: int, j: int|
            #![trigger r@[i].bare_matches@[j]]
            0 <= i < r@.len() && 0 <= j < r@[i].bare_matches@.len() ==> matches@.contains(
                r@[i].bare_matches@[j],
            ),
{
    broadcast use vstd::seq_lib::group_to_multiset_ensures;

    let ghost ms = matches@;
    let ghost kf = key_fn::<BareMatch>();
    let ghost sorted_seq = sort_stable(kf, true, ms);
    let ghost runs = aggregated_runs(ms);
    let sorted = sort_by_key(matches, true);
    let groups = split_runs(sorted);
    proof {
        lemma_runs_shape(kf, sorted_seq);
        lemma_runs_flatten(kf, sorted_seq);
        lemma_sort_stable_multiset(kf, true, ms);
    }
    let mut rem = groups;
    let mut r: Vec<RawDocument> = Vec::new();
    while rem.len() > 0
        invariant
            r@.len() + rem@.len() == runs.len(),
            runs == aggregated_runs(ms),
            forall|i: int|
                0 <= i < rem@.len() ==> (#[trigger] rem@[i])@ == runs[r@.len() + i],
            forall|i: int| 0 <= i < r@.len() ==> (#[trigger] r@[i]).bare_matches@ == runs[i],
            forall|i: int| 0 <= i < r@.len() ==> (#[trigger] r@[i]).wf(),
            forall|i: int, j: int|
                #![trigger r@[i].bare_matches@[j]]
                0 <= i < r@.len() && 0 <= j < r@[i].bare_matches@.len() ==> ms.contains(
                    r@[i].bare_matches@[j],
                ),
        decreases rem.len(),
    {
        let ghost done = r@.len() as int;
        let ghost prev = rem@;
        let g = rem.remove(0);
        proof {
            let kf = key_fn::<BareMatch>();
            let sorted_seq = sort_stable(kf, true, ms);
            assert(runs == runs_by_key(kf, sorted_seq));
            assert(g@ == runs[done]);
            assert(rem@ == prev.remove(0));
            assert(forall|i: int| 0 <= i < rem@.len() ==> (#[trigger] rem@[i])@ == runs[done + 1
                + i]) by {
                assert(forall|i: int| 0 <= i < rem@.len() ==> rem@[i] == prev[i + 1]);
            }
            lemma_runs_shape(kf, sorted_seq);
            assert(g@.len() > 0);
            assert(forall|j: int| 0 <= j < g@.len() ==> kf(#[trigger] g@[j]) == kf(g@[0]));
            assert(forall|j: int| 0 <= j < g@.len() ==> (#[trigger] g@[j]).document_id
                == g@[0].document_id) by {
                assert(forall|j: int| 0 <= j < g@.len() ==> kf(#[trigger] g@[j])
                    == g@[j].sort_key());
            }
            lemma_runs_flatten(kf, sorted_seq);
            lemma_sort_stable_multiset(kf, true, ms);
            assert forall|j: int| 0 <= j < g@.len() implies ms.contains(g@[j]) by {
                lemma_flatten_member(runs, done, j);
                assert(sorted_seq.contains(g@[j]));
                sorted_seq.to_multiset_ensures();
                ms.to_multiset_ensures();
                assert(sorted_seq.to_multiset().count(g@[j]) > 0);
                assert(ms.to_multiset().count(g@[j]) > 0);
            }
        }
        let id = g[0].document_id;
        r.push(RawDocument { id, bare_matches: g });
    }
    r
}

/// Documents aggregated from matches sorted by document id appear in
/// ascending document-id order.
pub proof fn lemma_aggregated_runs_ordered(ms: Seq<BareMatch>)
    ensures
        forall|i: int, j: int|
            #![trigger aggregated_runs(ms)[i], aggregated_runs(ms)[j]]
            0 <= i < j < aggregated_runs(ms).len() ==> aggregated_runs(
                ms,
            )[i][0].document_id <= aggregated_runs(ms)[j][0].document_id,
{
    let kf = key_fn::<BareMatch>();
    let sorted_seq = sort_stable(kf, true, ms);
    crate::sorting::lemma_sort_stable_sorted(kf, true, ms);
    lemma_runs_shape(kf, sorted_seq);
    lemma_runs_flatten(kf, sorted_seq);
    let runs = aggregated_runs(ms);
    assert forall|i: int, j: int|
        #![trigger runs[i], runs[j]]
        0 <= i < j < runs.len() implies runs[i][0].document_id <= runs[j][0].document_id by {
        crate::sorting::lemma_runs_starts_in_order(kf, true, sorted_seq, i, j);
        assert(kf(runs[i][0]) == runs[i][0].sort_key());
        assert(kf(runs[j][0]) == runs[j][0].sort_key());
    }
}

} // verus!
