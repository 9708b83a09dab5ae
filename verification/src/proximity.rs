//! Proximity criterion: for each adjacent pair of a document's matches, the
//! smallest attribute-aware distance between an occurrence of the left term
//! and its nearest occurrence of the right term; the per-pair minima are
//! summed. Terms appearing close together, in query order, rank better, so
//! the order is ascending.

use vstd::prelude::*;

use crate::arena::{pos_key, strictly_sorted, DocIndex, PostingsArena};
use crate::attribute::min_int;
use crate::criterion::{Criterion, Order};
use crate::document::{BareMatch, RawDocument};

verus! {

/// Distance beyond which two occurrences count as unrelated; also the
/// fallback distance when the occurrences sit in different attributes or a
/// postings list is empty.
pub const MAX_DISTANCE: u16 = 8;

/// Distance between two word offsets: the absolute difference, capped at
/// `MAX_DISTANCE`, plus a penalty of one when the left occurrence stands
/// after the right one (out of query order).
pub open spec fn spec_index_proximity(lhs: u16, rhs: u16) -> int {
    if lhs <= rhs {
        min_int(rhs - lhs, MAX_DISTANCE as int)
    } else {
        min_int(lhs - rhs, MAX_DISTANCE as int) + 1
    }
}

/// Distance between two position entries: `MAX_DISTANCE` when they sit in
/// different attributes, otherwise the word-offset distance.
pub open spec fn spec_attribute_proximity(lhs: DocIndex, rhs: DocIndex) -> int {
    if lhs.attribute != rhs.attribute {
        MAX_DISTANCE as int
    } else {
        spec_index_proximity(lhs.word_index, rhs.word_index)
    }
}

/// Two occurrences at the identical attribute and word offset are at
/// distance zero.
pub proof fn lemma_proximity_identical(lhs: DocIndex, rhs: DocIndex)
    requires
        lhs.attribute == rhs.attribute,
        lhs.word_index == rhs.word_index,
    ensures
        spec_attribute_proximity(lhs, rhs) == 0,
{
}

/// Swapping which term stands first changes the distance by exactly one:
/// the occurrence pair that is out of query order costs one extra unit.
pub proof fn lemma_proximity_swap_penalty(a: u16, b: u16)
    requires
        a < b,
    ensures
        spec_index_proximity(b, a) == spec_index_proximity(a, b) + 1,
{
}

/// Word-offset distance between two word offsets, as executable code.
pub fn index_proximity(lhs: u16, rhs: u16) -> (r: u16)
    ensures
        r as int == spec_index_proximity(lhs, rhs),
{
    if lhs <= rhs {
        let d = rhs - lhs;
        if d < MAX_DISTANCE {
            d
        } else {
            MAX_DISTANCE
        }
    } else {
        let d = lhs - rhs;
        if d < MAX_DISTANCE {
            d + 1
        } else {
            MAX_DISTANCE + 1
        }
    }
}

/// Distance between two position entries, as executable code.
pub fn attribute_proximity(lhs: DocIndex, rhs: DocIndex) -> (r: u16)
    ensures
        r as int == spec_attribute_proximity(lhs, rhs),
{
    if lhs.attribute != rhs.attribute {
        MAX_DISTANCE
    } else {
        index_proximity(lhs.word_index, rhs.word_index)
    }
}

/// How many leading entries of `s` have a position key below `k`. On a
/// sorted list this is the insertion point of `k`.
pub open spec fn count_lt(s: Seq<DocIndex>, k: int) -> int
    decreases s.len(),
{
    if s.len() == 0 {
        0
    } else if pos_key(s[0]) < k {
        1 + count_lt(s.drop_first(), k)
    } else {
        0
    }
}

/// On a sorted list, the boundary below which all keys are smaller than `k`
/// and from which on they are not is exactly `count_lt`.
pub proof fn lemma_count_lt_boundary(s: Seq<DocIndex>, k: int, b: int)
    requires
        strictly_sorted(s),
        0 <= b <= s.len(),
        forall|i: int| 0 <= i < b ==> pos_key(#[trigger] s[i]) < k,
        b < s.len() ==> pos_key(s[b]) >= k,
    ensures
        count_lt(s, k) == b,
    decreases s.len(),
{
    if s.len() == 0 {
    } else if b == 0 {
    } else {
        let t = s.drop_first();
        assert(forall|i: int| 0 <= i < t.len() ==> t[i] == s[i + 1]);
        assert(forall|i: int, j: int|
            #![trigger t[i], t[j]]
            0 <= i < j < t.len() ==> pos_key(t[i]) < pos_key(t[j]));
        lemma_count_lt_boundary(t, k, b - 1);
    }
}

/// The entry the proximity lookup pairs a key with: the entry at the key's
/// insertion point when it matches exactly, otherwise the nearest entry at
/// or before the insertion point, clamped to the first entry.
pub open spec fn nearest_idx(s: Seq<DocIndex>, k: int) -> int {
    let x = count_lt(s, k);
    if x < s.len() && pos_key(s[x]) == k {
        x
    } else if x == 0 {
        0
    } else {
        x - 1
    }
}

/// Finds `nearest_idx` by binary search for the insertion point.
pub fn nearest_in(list: &Vec<DocIndex>, seek: DocIndex) -> (r: usize)
    requires
        strictly_sorted(list@),
        list@.len() > 0,
    ensures
        r == nearest_idx(list@, pos_key(seek)),
        r < list@.len(),
{
    let mut lo: usize = 0;
    let mut hi: usize = list.len();
    while lo < hi
        invariant
            lo <= hi <= list.len(),
            strictly_sorted(list@),
            forall|i: int| 0 <= i < lo ==> pos_key(#[trigger] list@[i]) < pos_key(seek),
            forall|i: int| hi <= i < list@.len() ==> pos_key(#[trigger] list@[i]) >= pos_key(seek),
        decreases hi - lo,
    {
        let mid = lo + (hi - lo) / 2;
        let e = list[mid];
        let below = e.attribute < seek.attribute || (e.attribute == seek.attribute && e.word_index
            < seek.word_index);
        proof {
            assert(below == (pos_key(list@[mid as int]) < pos_key(seek)));
        }
        if below {
            lo = mid + 1;
        } else {
            hi = mid;
        }
    }
    proof {
        lemma_count_lt_boundary(list@, pos_key(seek), lo as int);
    }
    if lo < list.len() {
        let e = list[lo];
        if e.attribute == seek.attribute && e.word_index == seek.word_index {
            proof {
                assert(pos_key(list@[lo as int]) == pos_key(seek));
            }
            return lo;
        }
    }
    proof {
        if lo < list@.len() {
            assert(pos_key(list@[lo as int]) != pos_key(seek));
        }
    }
    if lo == 0 {
        0
    } else {
        lo - 1
    }
}

/// The distance from one left-list entry to its nearest right-list entry.
pub open spec fn dist_via(e: DocIndex, right: Seq<DocIndex>) -> int {
    spec_attribute_proximity(e, right[nearest_idx(right, pos_key(e))])
}

/// The minimum of `dist_via` over all entries of the left list.
pub open spec fn min_left(left: Seq<DocIndex>, right: Seq<DocIndex>) -> int
    decreases left.len(),
{
    if left.len() <= 1 {
        dist_via(left[0], right)
    } else {
        min_int(min_left(left.drop_last(), right), dist_via(left.last(), right))
    }
}

/// The proximity of one adjacent pair of matches: the minimum distance from
/// any left occurrence to its nearest right occurrence, or the fallback
/// distance when either postings list is empty.
pub open spec fn pair_proximity(left: Seq<DocIndex>, right: Seq<DocIndex>) -> int {
    if left.len() == 0 || right.len() == 0 {
        MAX_DISTANCE as int
    } else {
        min_left(left, right)
    }
}

/// The pair minimum lies between zero and one past `MAX_DISTANCE`.
pub proof fn lemma_min_left_bounds(left: Seq<DocIndex>, right: Seq<DocIndex>)
    ensures
        0 <= min_left(left, right) <= MAX_DISTANCE + 1,
    decreases left.len(),
{
    if left.len() > 1 {
        lemma_min_left_bounds(left.drop_last(), right);
    }
}

/// The minimum over a whole left list is at most the minimum over a prefix.
pub proof fn lemma_min_left_take(left: Seq<DocIndex>, right: Seq<DocIndex>, j: int)
    requires
        1 <= j <= left.len(),
    ensures
        min_left(left, right) <= min_left(left.take(j), right),
    decreases left.len(),
{
    if j == left.len() {
        assert(left.take(j) =~= left);
    } else {
        let t = left.drop_last();
        assert(left.take(j) =~= t.take(j));
        lemma_min_left_take(t, right, j);
    }
}

/// The proximity score of a document: the sum, over each adjacent pair of
/// its matches, of that pair's proximity.
pub open spec fn proximity_score(arena: Seq<Seq<DocIndex>>, ms: Seq<BareMatch>) -> int
    decreases ms.len(),
{
    if ms.len() < 2 {
        0
    } else {
        proximity_score(arena, ms.drop_last()) + pair_proximity(
            arena[ms[ms.len() - 2].postings_list.idx as int],
            arena[ms.last().postings_list.idx as int],
        )
    }
}

/// The score is a sum of non-negative terms.
pub proof fn lemma_proximity_score_nonneg(arena: Seq<Seq<DocIndex>>, ms: Seq<BareMatch>)
    ensures
        0 <= proximity_score(arena, ms),
    decreases ms.len(),
{
    if ms.len() >= 2 {
        lemma_proximity_score_nonneg(arena, ms.drop_last());
        lemma_min_left_bounds(
            arena[ms[ms.len() - 2].postings_list.idx as int],
            arena[ms.last().postings_list.idx as int],
        );
    }
}

/// A prefix never sums to more than the whole sequence.
pub proof fn lemma_proximity_score_take_le(arena: Seq<Seq<DocIndex>>, ms: Seq<BareMatch>, i: int)
    requires
        0 <= i <= ms.len(),
    ensures
        proximity_score(arena, ms.take(i)) <= proximity_score(arena, ms),
    decreases ms.len(),
{
    if i == ms.len() {
        assert(ms.take(i) =~= ms);
    } else {
        let t = ms.drop_last();
        assert(ms.take(i) =~= t.take(i));
        lemma_proximity_score_take_le(arena, t, i);
        if ms.len() >= 2 {
            lemma_min_left_bounds(
                arena[ms[ms.len() - 2].postings_list.idx as int],
                arena[ms.last().postings_list.idx as int],
            );
        }
    }
}

/// Ranks documents by how close together, and how well ordered, their
/// matched terms occur.
pub struct Proximity;

impl Criterion for Proximity {
    open spec fn spec_score(&self, arena: Seq<Seq<DocIndex>>, doc: RawDocument) -> nat {
        proximity_score(arena, doc.bare_matches@) as nat
    }

    open spec fn spec_order(&self) -> Order {
        Order::Asc
    }

    open spec fn spec_name(&self) -> Seq<char> {
        "proximity"@
    }

    fn name(&self) -> (r: &'static str) {
        "proximity"
    }

    fn order(&self) -> (r: Order) {
        Order::Asc
    }

    fn evaluate(&self, arena: &PostingsArena, document: &RawDocument) -> (r: usize) {
        let ms = &document.bare_matches;
        proof {
            lemma_proximity_score_nonneg(arena@, ms@);
        }
        if ms.len() < 2 {
            return 0;
        }
        let mut total: usize = 0;
        let mut p: usize = 1;
        while p < ms.len()
            invariant
                1 <= p <= ms.len(),
                ms@ == document.bare_matches@,
                document.handles_valid(arena@),
                arena.wf(),
                proximity_score(arena@, ms@) <= usize::MAX,
                total == proximity_score(arena@, ms@.take(p as int)),
            decreases ms.len() - p,
        {
            let left = arena.resolve(ms[p - 1].postings_list);
            let right = arena.resolve(ms[p].postings_list);
            let ghost lseq = arena@[ms@[p - 1].postings_list.idx as int];
            let ghost rseq = arena@[ms@[p as int].postings_list.idx as int];
            let d: u16;
            if left.len() == 0 || right.len() == 0 {
                d = MAX_DISTANCE;
            } else {
                let idx0 = nearest_in(right, left[0]);
                let mut best = attribute_proximity(left[0], right[idx0]);
                let mut j: usize = 1;
                while j < left.len()
                    invariant
                        1 <= j <= left.len(),
                        left@ == lseq,
                        right@ == rseq,
                        lseq.len() > 0,
                        rseq.len() > 0,
                        strictly_sorted(rseq),
                        best as int == min_left(lseq.take(j as int), rseq),
                    decreases left.len() - j,
                {
                    let idx = nearest_in(right, left[j]);
                    let dj = attribute_proximity(left[j], right[idx]);
                    proof {
                        assert(lseq.take(j + 1).drop_last() =~= lseq.take(j as int));
                        assert(lseq.take(j + 1).last() == lseq[j as int]);
                        assert(lseq.take(j + 1).len() > 1);
                    }
                    if dj < best {
                        best = dj;
                    }
                    j += 1;
                }
                proof {
                    assert(lseq.take(lseq.len() as int) =~= lseq);
                }
                d = best;
            }
            proof {
                lemma_proximity_score_take_le(arena@, ms@, p + 1);
                assert(ms@.take(p + 1).drop_last() =~= ms@.take(p as int));
                assert(ms@.take(p + 1).last() == ms@[p as int]);
                assert(ms@.take(p + 1)[p - 1] == ms@[p - 1]);
                lemma_proximity_score_nonneg(arena@, ms@.take(p as int));
                assert(d as int == pair_proximity(lseq, rseq));
            }
            total = total + d as usize;
            p += 1;
        }
        proof {
            assert(ms@.take(ms@.len() as int) =~= ms@);
        }
        total
    }
}

} // verus!
