//! Cascade ranking engine: criteria are applied in priority order over a
//! frontier of tie-groups. Each criterion stably sorts every group by its
//! score, splits it into maximal runs of equal score, and the refined
//! groups replace the frontier in order — so documents separated by an
//! earlier criterion are never re-compared by a later one.

use vstd::prelude::*;

use crate::arena::{DocIndex, PostingsArena};
use crate::criterion::{Criterion, Order};
use crate::document::RawDocument;
use crate::sorting::{
    key_fn, keys_in_order, lemma_flatten_member, lemma_runs_flatten, lemma_runs_shape,
    lemma_runs_starts_in_order, lemma_sort_stable_multiset, lemma_sort_stable_sorted, runs_by_key,
    sort_by_key, sort_stable, split_runs, SortKey,
};

verus! {

/// A document paired with its score under the criterion being applied.
pub struct ScoredDoc {
    pub score: usize,
    pub doc: RawDocument,
}

impl SortKey for ScoredDoc {
    /// Tie-group refinement orders scored documents by their score.
    open spec fn sort_key(self) -> int {
        self.score as int
    }

    fn key_le(&self, other: &Self) -> (r: bool) {
        self.score <= other.score
    }
}

/// Whether the declared order sorts ascending.
pub open spec fn is_asc(o: Order) -> bool {
    o == Order::Asc
}

/// Each document paired with its score under the criterion.
pub open spec fn scored_seq<C: Criterion>(
    criterion: C,
    arena: Seq<Seq<DocIndex>>,
    docs: Seq<RawDocument>,
) -> Seq<ScoredDoc> {
    Seq::new(
        docs.len(),
        |i: int|
            ScoredDoc { score: criterion.spec_score(arena, docs[i]) as usize, doc: docs[i] },
    )
}

/// The documents of a scored group, scores dropped.
pub open spec fn docs_of(g: Seq<ScoredDoc>) -> Seq<RawDocument> {
    Seq::new(g.len(), |i: int| g[i].doc)
}

/// The group stably sorted by score, in the criterion's declared direction.
pub open spec fn sorted_scored<C: Criterion>(
    criterion: C,
    arena: Seq<Seq<DocIndex>>,
    docs: Seq<RawDocument>,
) -> Seq<ScoredDoc> {
    sort_stable(
        key_fn::<ScoredDoc>(),
        is_asc(criterion.spec_order()),
        scored_seq(criterion, arena, docs),
    )
}

/// The sorted group split into maximal runs of equal score.
pub open spec fn scored_runs<C: Criterion>(
    criterion: C,
    arena: Seq<Seq<DocIndex>>,
    docs: Seq<RawDocument>,
) -> Seq<Seq<ScoredDoc>> {
    runs_by_key(key_fn::<ScoredDoc>(), sorted_scored(criterion, arena, docs))
}

/// One refinement step on one tie-group: the new tie-groups it splits into,
/// in sort order, each a maximal run of equal score.
pub open spec fn refine_spec<C: Criterion>(
    criterion: C,
    arena: Seq<Seq<DocIndex>>,
    docs: Seq<RawDocument>,
) -> Seq<Seq<RawDocument>> {
    Seq::new(
        scored_runs(criterion, arena, docs).len(),
        |g: int| docs_of(scored_runs(criterion, arena, docs)[g]),
    )
}

/// One criterion applied to a whole frontier: every tie-group is refined
/// independently and the refined groups are concatenated in the original
/// group order.
pub open spec fn apply_spec<C: Criterion>(
    criterion: C,
    arena: Seq<Seq<DocIndex>>,
    frontier: Seq<Seq<RawDocument>>,
) -> Seq<Seq<RawDocument>>
    decreases frontier.len(),
{
    if frontier.len() == 0 {
        Seq::empty()
    } else {
        refine_spec(criterion, arena, frontier.first()) + apply_spec(
            criterion,
            arena,
            frontier.drop_first(),
        )
    }
}

/// The whole cascade: the criteria applied to the frontier in order.
pub open spec fn cascade_spec<C: Criterion>(
    criteria: Seq<C>,
    arena: Seq<Seq<DocIndex>>,
    frontier: Seq<Seq<RawDocument>>,
) -> Seq<Seq<RawDocument>>
    decreases criteria.len(),
{
    if criteria.len() == 0 {
        frontier
    } else {
        cascade_spec(criteria.drop_first(), arena, apply_spec(criteria.first(), arena, frontier))
    }
}

/// The document ids of a document sequence, in order.
pub open spec fn ids_of(docs: Seq<RawDocument>) -> Seq<crate::arena::DocumentId> {
    Seq::new(docs.len(), |i: int| docs[i].id)
}

/// What the engine needs of every document in a group: a well-formed
/// handle, postings handles inside the arena, and a score that fits the
/// machine word under the given criterion.
pub open spec fn group_ok<C: Criterion>(
    criterion: C,
    arena: Seq<Seq<DocIndex>>,
    docs: Seq<RawDocument>,
) -> bool {
    forall|i: int|
        0 <= i < docs.len() ==> (#[trigger] docs[i]).wf() && docs[i].handles_valid(arena)
            && criterion.spec_score(arena, docs[i]) <= usize::MAX
}

/// Refines one tie-group by one criterion: stable sort by score in the
/// declared direction, then a split into maximal runs of equal score.
pub fn refine_group<C: Criterion>(
    arena: &PostingsArena,
    criterion: &C,
    group: Vec<RawDocument>,
) -> (r: Vec<Vec<RawDocument>>)
    requires
        arena.wf(),
        group_ok(*criterion, arena@, group@),
    ensures
        r@.len() == refine_spec(*criterion, arena@, group@).len(),
        forall|g: int|
            0 <= g < r@.len() ==> (#[trigger] r@[g])@ == refine_spec(*criterion, arena@, group@)[g],
{
    let ghost orig = group@;
    let ord = criterion.order();
    let asc = match ord {
        Order::Asc => true,
        Order::Dsc => false,
    };
    let mut inp = group;
    let mut scored: Vec<ScoredDoc> = Vec::new();
    while inp.len() > 0
        invariant
            arena.wf(),
            group_ok(*criterion, arena@, orig),
            scored@.len() + inp@.len() == orig.len(),
            forall|i: int| 0 <= i < inp@.len() ==> #[trigger] inp@[i] == orig[scored@.len() + i],
            forall|i: int|
                0 <= i < scored@.len() ==> #[trigger] scored@[i] == scored_seq(
                    *criterion,
                    arena@,
                    orig,
                )[i],
        decreases inp.len(),
    {
        let ghost prev = inp@;
        let ghost done = scored@.len() as int;
        let d = inp.remove(0);
        proof {
            assert(d == orig[done]);
            assert(forall|i: int| 0 <= i < inp@.len() ==> #[trigger] inp@[i] == prev[i + 1]);
        }
        let s = criterion.evaluate(arena, &d);
        scored.push(ScoredDoc { score: s, doc: d });
    }
    proof {
        assert(scored@ =~= scored_seq(*criterion, arena@, orig));
    }
    let sorted = sort_by_key(scored, asc);
    proof {
        assert(sorted@ == sorted_scored(*criterion, arena@, orig));
    }
    let parts = split_runs(sorted);
    let mut rem = parts;
    let mut out: Vec<Vec<RawDocument>> = Vec::new();
    while rem.len() > 0
        invariant
            out@.len() + rem@.len() == scored_runs(*criterion, arena@, orig).len(),
            forall|i: int|
                0 <= i < rem@.len() ==> (#[trigger] rem@[i])@ == scored_runs(
                    *criterion,
                    arena@,
                    orig,
                )[out@.len() + i],
            forall|g: int|
                0 <= g < out@.len() ==> (#[trigger] out@[g])@ == refine_spec(
                    *criterion,
                    arena@,
                    orig,
                )[g],
        decreases rem.len(),
    {
        let ghost prevr = rem@;
        let ghost gid = out@.len() as int;
        let g = rem.remove(0);
        proof {
            assert(g@ == scored_runs(*criterion, arena@, orig)[gid]);
            assert(forall|i: int| 0 <= i < rem@.len() ==> #[trigger] rem@[i] == prevr[i + 1]);
        }
        let ghost gseq = g@;
        let mut rg = g;
        let mut outg: Vec<RawDocument> = Vec::new();
        while rg.len() > 0
            invariant
                outg@.len() + rg@.len() == gseq.len(),
                forall|i: int| 0 <= i < rg@.len() ==> #[trigger] rg@[i] == gseq[outg@.len() + i],
                forall|i: int| 0 <= i < outg@.len() ==> #[trigger] outg@[i] == gseq[i].doc,
            decreases rg.len(),
        {
            let ghost prevg = rg@;
            let sd = rg.remove(0);
            proof {
                assert(sd == gseq[outg@.len() as int]);
                assert(forall|i: int| 0 <= i < rg@.len() ==> #[trigger] rg@[i] == prevg[i + 1]);
            }
            outg.push(sd.doc);
        }
        proof {
            assert(outg@ =~= docs_of(gseq));
        }
        out.push(outg);
    }
    out
}

/// Refining an empty group yields no groups.
pub proof fn lemma_refine_spec_empty<C: Criterion>(
    criterion: C,
    arena: Seq<Seq<DocIndex>>,
    docs: Seq<RawDocument>,
)
    requires
        docs.len() == 0,
    ensures
        refine_spec(criterion, arena, docs) == Seq::<Seq<RawDocument>>::empty(),
{
    let sc = scored_seq(criterion, arena, docs);
    assert(sc.len() == 0);
    assert(sorted_scored(criterion, arena, docs) == Seq::<ScoredDoc>::empty());
    assert(scored_runs(criterion, arena, docs) == Seq::<Seq<ScoredDoc>>::empty());
    assert(refine_spec(criterion, arena, docs) =~= Seq::<Seq<RawDocument>>::empty());
}

/// A tie-group of one document passes through refinement unchanged: no
/// remaining criterion can affect it.
pub proof fn lemma_refine_spec_singleton<C: Criterion>(
    criterion: C,
    arena: Seq<Seq<DocIndex>>,
    docs: Seq<RawDocument>,
)
    requires
        docs.len() == 1,
    ensures
        refine_spec(criterion, arena, docs) == seq![docs],
{
    let kf = key_fn::<ScoredDoc>();
    let asc = is_asc(criterion.spec_order());
    let sc = scored_seq(criterion, arena, docs);
    assert(sc.len() == 1);
    assert(sc.drop_last() =~= Seq::<ScoredDoc>::empty());
    assert(sort_stable(kf, asc, sc.drop_last()) == Seq::<ScoredDoc>::empty());
    let sorted = sorted_scored(criterion, arena, docs);
    assert(sorted == crate::sorting::insert_stable(kf, asc, sc.last(), Seq::<ScoredDoc>::empty()));
    assert(sorted =~= seq![sc[0]]);
    let runs = scored_runs(criterion, arena, docs);
    assert(sorted.drop_first() =~= Seq::<ScoredDoc>::empty());
    assert(runs_by_key(kf, sorted.drop_first()) == Seq::<Seq<ScoredDoc>>::empty());
    assert(runs =~= seq![seq![sc[0]]]);
    assert(docs_of(runs[0]) =~= seq![docs[0]]);
    assert(docs =~= seq![docs[0]]);
    assert(refine_spec(criterion, arena, docs) =~= seq![docs]);
}

/// Every document of a refined group comes from the group that was
/// refined: refinement introduces no foreign documents.
pub proof fn lemma_refine_spec_membership<C: Criterion>(
    criterion: C,
    arena: Seq<Seq<DocIndex>>,
    docs: Seq<RawDocument>,
)
    ensures
        forall|g: int, i: int|
            #![trigger refine_spec(criterion, arena, docs)[g][i]]
            0 <= g < refine_spec(criterion, arena, docs).len() && 0 <= i < refine_spec(
                criterion,
                arena,
                docs,
            )[g].len() ==> exists|j: int|
                0 <= j < docs.len() && refine_spec(criterion, arena, docs)[g][i] == docs[j],
{
    broadcast use vstd::seq_lib::group_to_multiset_ensures;

    let kf = key_fn::<ScoredDoc>();
    let asc = is_asc(criterion.spec_order());
    let sc = scored_seq(criterion, arena, docs);
    let sorted = sorted_scored(criterion, arena, docs);
    let runs = scored_runs(criterion, arena, docs);
    let re = refine_spec(criterion, arena, docs);
    lemma_runs_flatten(kf, sorted);
    lemma_sort_stable_multiset(kf, asc, sc);
    assert forall|g: int, i: int|
        #![trigger re[g][i]]
        0 <= g < re.len() && 0 <= i < re[g].len() implies exists|j: int|
        0 <= j < docs.len() && re[g][i] == docs[j] by {
        assert(re[g] == docs_of(runs[g]));
        let x = runs[g][i];
        lemma_flatten_member(runs, g, i);
        assert(sorted.contains(x));
        sorted.to_multiset_ensures();
        sc.to_multiset_ensures();
        assert(sc.to_multiset().count(x) > 0);
        assert(sc.contains(x));
        let j = choose|j: int| 0 <= j < sc.len() && sc[j] == x;
        assert(sc[j].doc == docs[j]);
        assert(re[g][i] == x.doc);
    }
}

/// Every score in a refined group is faithful to the criterion, the groups
/// are non-empty runs of one score each, and the groups stand in the
/// criterion's declared order, adjacent groups carrying distinct scores.
pub proof fn lemma_refine_spec_groups<C: Criterion>(
    criterion: C,
    arena: Seq<Seq<DocIndex>>,
    docs: Seq<RawDocument>,
)
    requires
        forall|i: int|
            0 <= i < docs.len() ==> criterion.spec_score(arena, #[trigger] docs[i]) <= usize::MAX,
    ensures
        forall|g: int|
            0 <= g < refine_spec(criterion, arena, docs).len() ==> (#[trigger] refine_spec(
                criterion,
                arena,
                docs,
            )[g]).len() > 0,
        forall|g: int, i: int|
            #![trigger refine_spec(criterion, arena, docs)[g][i]]
            0 <= g < refine_spec(criterion, arena, docs).len() && 0 <= i < refine_spec(
                criterion,
                arena,
                docs,
            )[g].len() ==> criterion.spec_score(arena, refine_spec(criterion, arena, docs)[g][i])
                == criterion.spec_score(arena, refine_spec(criterion, arena, docs)[g][0]),
        forall|g: int, h: int|
            #![trigger refine_spec(criterion, arena, docs)[g], refine_spec(criterion, arena, docs)[h]]
            0 <= g < h < refine_spec(criterion, arena, docs).len() ==> keys_in_order(
                is_asc(criterion.spec_order()),
                criterion.spec_score(arena, refine_spec(criterion, arena, docs)[g][0]) as int,
                criterion.spec_score(arena, refine_spec(criterion, arena, docs)[h][0]) as int,
            ),
        forall|g: int|
            0 < g < refine_spec(criterion, arena, docs).len() ==> criterion.spec_score(
                arena,
                (#[trigger] refine_spec(criterion, arena, docs)[g])[0],
            ) != criterion.spec_score(arena, refine_spec(criterion, arena, docs)[g - 1][0]),
{
    broadcast use vstd::seq_lib::group_to_multiset_ensures;

    let kf = key_fn::<ScoredDoc>();
    let asc = is_asc(criterion.spec_order());
    let sc = scored_seq(criterion, arena, docs);
    let sorted = sorted_scored(criterion, arena, docs);
    let runs = scored_runs(criterion, arena, docs);
    let re = refine_spec(criterion, arena, docs);
    lemma_runs_flatten(kf, sorted);
    lemma_sort_stable_multiset(kf, asc, sc);
    lemma_sort_stable_sorted(kf, asc, sc);
    lemma_runs_shape(kf, sorted);
    assert forall|g: int, i: int|
        #![trigger runs[g][i]]
        0 <= g < runs.len() && 0 <= i < runs[g].len() implies runs[g][i].score as int
        == criterion.spec_score(arena, runs[g][i].doc) as int by {
        let x = runs[g][i];
        lemma_flatten_member(runs, g, i);
        assert(sorted.contains(x));
        sorted.to_multiset_ensures();
        sc.to_multiset_ensures();
        assert(sc.to_multiset().count(x) > 0);
        assert(sc.contains(x));
        let j = choose|j: int| 0 <= j < sc.len() && sc[j] == x;
        assert(sc[j].doc == docs[j]);
    }
    assert(forall|g: int| 0 <= g < re.len() ==> (#[trigger] re[g]).len() == runs[g].len());
    assert forall|g: int, i: int|
        #![trigger re[g][i]]
        0 <= g < re.len() && 0 <= i < re[g].len() implies criterion.spec_score(arena, re[g][i])
        == criterion.spec_score(arena, re[g][0]) by {
        assert(re[g] == docs_of(runs[g]));
        assert(re[g][i] == runs[g][i].doc);
        assert(re[g][0] == runs[g][0].doc);
        assert(kf(runs[g][i]) == runs[g][i].sort_key());
        assert(kf(runs[g][0]) == runs[g][0].sort_key());
    }
    assert forall|g: int, h: int|
        #![trigger re[g], re[h]]
        0 <= g < h < re.len() implies keys_in_order(
        asc,
        criterion.spec_score(arena, re[g][0]) as int,
        criterion.spec_score(arena, re[h][0]) as int,
    ) by {
        lemma_runs_starts_in_order(kf, asc, sorted, g, h);
        assert(kf(runs[g][0]) == runs[g][0].sort_key());
        assert(kf(runs[h][0]) == runs[h][0].sort_key());
        assert(re[g][0] == runs[g][0].doc);
        assert(re[h][0] == runs[h][0].doc);
    }
    assert forall|g: int|
        0 < g < re.len() implies criterion.spec_score(arena, (#[trigger] re[g])[0])
        != criterion.spec_score(arena, re[g - 1][0]) by {
        assert(kf(runs[g][0]) == runs[g][0].sort_key());
        assert(kf(runs[g - 1][0]) == runs[g - 1][0].sort_key());
        assert(re[g][0] == runs[g][0].doc);
        assert(re[g - 1][0] == runs[g - 1][0].doc);
    }
}

/// Documents tied under an earlier criterion stay tied inside every group
/// that a later refinement forms: refinement only narrows groups, so the
/// scores already equal across a group remain equal across each new group.
pub proof fn lemma_refine_preserves_ties<C: Criterion, E: Criterion>(
    criterion: C,
    earlier: E,
    arena: Seq<Seq<DocIndex>>,
    docs: Seq<RawDocument>,
)
    requires
        forall|i: int, j: int|
            #![trigger docs[i], docs[j]]
            0 <= i < docs.len() && 0 <= j < docs.len() ==> earlier.spec_score(arena, docs[i])
                == earlier.spec_score(arena, docs[j]),
    ensures
        forall|g: int, i: int, j: int|
            #![trigger refine_spec(criterion, arena, docs)[g][i], refine_spec(criterion, arena, docs)[g][j]]
            0 <= g < refine_spec(criterion, arena, docs).len() && 0 <= i < refine_spec(
                criterion,
                arena,
                docs,
            )[g].len() && 0 <= j < refine_spec(criterion, arena, docs)[g].len()
                ==> earlier.spec_score(arena, refine_spec(criterion, arena, docs)[g][i])
                == earlier.spec_score(arena, refine_spec(criterion, arena, docs)[g][j]),
{
    let re = refine_spec(criterion, arena, docs);
    lemma_refine_spec_membership(criterion, arena, docs);
    assert forall|g: int, i: int, j: int|
        #![trigger re[g][i], re[g][j]]
        0 <= g < re.len() && 0 <= i < re[g].len() && 0 <= j < re[g].len() implies earlier.spec_score(
        arena,
        re[g][i],
    ) == earlier.spec_score(arena, re[g][j]) by {
        let a = choose|a: int| 0 <= a < docs.len() && re[g][i] == docs[a];
        let b = choose|b: int| 0 <= b < docs.len() && re[g][j] == docs[b];
    }
}

/// Applying a criterion refines every tie-group independently and
/// concatenates the refined groups in the original group order: the
/// refinements of the first `g` groups stand, in order, before those of
/// the rest, so documents separated into different groups are never
/// interleaved by a later criterion.
pub proof fn lemma_apply_spec_split<C: Criterion>(
    criterion: C,
    arena: Seq<Seq<DocIndex>>,
    frontier: Seq<Seq<RawDocument>>,
    g: int,
)
    requires
        0 <= g <= frontier.len(),
    ensures
        apply_spec(criterion, arena, frontier) == apply_spec(criterion, arena, frontier.take(g))
            + apply_spec(criterion, arena, frontier.skip(g)),
    decreases g,
{
    if g == 0 {
        assert(frontier.take(0) =~= Seq::<Seq<RawDocument>>::empty());
        assert(frontier.skip(0) =~= frontier);
        assert(apply_spec(criterion, arena, frontier.take(0))
            == Seq::<Seq<RawDocument>>::empty());
        assert(apply_spec(criterion, arena, frontier) =~= apply_spec(
            criterion,
            arena,
            frontier.take(0),
        ) + apply_spec(criterion, arena, frontier.skip(0)));
    } else {
        let t = frontier.drop_first();
        lemma_apply_spec_split(criterion, arena, t, g - 1);
        assert(frontier.take(g).first() == frontier[0]);
        assert(frontier.take(g).drop_first() =~= t.take(g - 1));
        assert(frontier.skip(g) =~= t.skip(g - 1));
        assert(apply_spec(criterion, arena, frontier.take(g)) == refine_spec(
            criterion,
            arena,
            frontier[0],
        ) + apply_spec(criterion, arena, t.take(g - 1)));
        assert(apply_spec(criterion, arena, frontier) =~= apply_spec(
            criterion,
            arena,
            frontier.take(g),
        ) + apply_spec(criterion, arena, frontier.skip(g)));
    }
}

/// No cross-group merging: when a criterion is applied, the refinement of
/// each tie-group occupies one contiguous block of the new frontier, the
/// blocks stand in the original group order, and each block holds only
/// documents of its own group — so documents placed in different
/// tie-groups are never interleaved by a later criterion.
pub proof fn lemma_no_cross_group_merging<C: Criterion>(
    criterion: C,
    arena: Seq<Seq<DocIndex>>,
    f: Seq<Seq<RawDocument>>,
    g: int,
)
    requires
        0 <= g < f.len(),
    ensures
        apply_spec(criterion, arena, f) == apply_spec(criterion, arena, f.take(g)) + refine_spec(
            criterion,
            arena,
            f[g],
        ) + apply_spec(criterion, arena, f.skip(g + 1)),
        forall|k: int, i: int|
            #![trigger refine_spec(criterion, arena, f[g])[k][i]]
            0 <= k < refine_spec(criterion, arena, f[g]).len() && 0 <= i < refine_spec(
                criterion,
                arena,
                f[g],
            )[k].len() ==> exists|j: int|
                0 <= j < f[g].len() && refine_spec(criterion, arena, f[g])[k][i] == f[g][j],
{
    lemma_apply_spec_split(criterion, arena, f, g);
    let tail = f.skip(g);
    assert(tail.len() > 0);
    assert(tail.first() == f[g]);
    assert(tail.drop_first() =~= f.skip(g + 1));
    assert(apply_spec(criterion, arena, tail) == refine_spec(criterion, arena, f[g]) + apply_spec(
        criterion,
        arena,
        f.skip(g + 1),
    ));
    assert(apply_spec(criterion, arena, f) =~= apply_spec(criterion, arena, f.take(g))
        + refine_spec(criterion, arena, f[g]) + apply_spec(criterion, arena, f.skip(g + 1)));
    lemma_refine_spec_membership(criterion, arena, f[g]);
}

/// Every document of an applied frontier comes from one of the input
/// groups.
pub proof fn lemma_apply_spec_membership<C: Criterion>(
    criterion: C,
    arena: Seq<Seq<DocIndex>>,
    frontier: Seq<Seq<RawDocument>>,
)
    ensures
        forall|g: int, i: int|
            #![trigger apply_spec(criterion, arena, frontier)[g][i]]
            0 <= g < apply_spec(criterion, arena, frontier).len() && 0 <= i < apply_spec(
                criterion,
                arena,
                frontier,
            )[g].len() ==> exists|g0: int, j: int|
                0 <= g0 < frontier.len() && 0 <= j < frontier[g0].len() && apply_spec(
                    criterion,
                    arena,
                    frontier,
                )[g][i] == frontier[g0][j],
    decreases frontier.len(),
{
    if frontier.len() == 0 {
    } else {
        let t = frontier.drop_first();
        let re = refine_spec(criterion, arena, frontier.first());
        let ap = apply_spec(criterion, arena, frontier);
        lemma_apply_spec_membership(criterion, arena, t);
        lemma_refine_spec_membership(criterion, arena, frontier.first());
        assert forall|g: int, i: int|
            #![trigger ap[g][i]]
            0 <= g < ap.len() && 0 <= i < ap[g].len() implies exists|g0: int, j: int|
            0 <= g0 < frontier.len() && 0 <= j < frontier[g0].len() && ap[g][i]
                == frontier[g0][j] by {
            if g < re.len() {
                assert(ap[g] == re[g]);
                let j = choose|j: int|
                    0 <= j < frontier.first().len() && re[g][i] == frontier.first()[j];
                assert(ap[g][i] == frontier[0][j]);
            } else {
                let tg = g - re.len();
                assert(ap[g] == apply_spec(criterion, arena, t)[tg]);
                let (g0, j): (int, int) = choose|g0: int, j: int|
                    0 <= g0 < t.len() && 0 <= j < t[g0].len() && apply_spec(criterion, arena, t)[tg][i]
                        == t[g0][j];
                assert(t[g0] == frontier[g0 + 1]);
            }
        }
    }
}

/// Every criterion's score fits the machine word on every document of the
/// frontier.
pub open spec fn scores_bounded<C: Criterion>(
    criteria: Seq<C>,
    arena: Seq<Seq<DocIndex>>,
    f: Seq<Seq<RawDocument>>,
) -> bool {
    forall|k: int, g: int, i: int|
        #![trigger criteria[k].spec_score(arena, f[g][i])]
        0 <= k < criteria.len() && 0 <= g < f.len() && 0 <= i < f[g].len() ==> criteria[k].spec_score(
            arena,
            f[g][i],
        ) <= usize::MAX
}

/// Every tie-group of the frontier is score-constant under the criterion.
pub open spec fn groups_tied_under<E: Criterion>(
    earlier: E,
    arena: Seq<Seq<DocIndex>>,
    f: Seq<Seq<RawDocument>>,
) -> bool {
    forall|g: int, i: int, j: int|
        #![trigger earlier.spec_score(arena, f[g][i]), earlier.spec_score(arena, f[g][j])]
        0 <= g < f.len() && 0 <= i < f[g].len() && 0 <= j < f[g].len() ==> earlier.spec_score(
            arena,
            f[g][i],
        ) == earlier.spec_score(arena, f[g][j])
}

/// Every group of an applied frontier is one of the refined groups of one
/// of the input groups.
pub proof fn lemma_apply_spec_group_source<C: Criterion>(
    criterion: C,
    arena: Seq<Seq<DocIndex>>,
    f: Seq<Seq<RawDocument>>,
    og: int,
)
    requires
        0 <= og < apply_spec(criterion, arena, f).len(),
    ensures
        exists|g0: int, k: int|
            0 <= g0 < f.len() && 0 <= k < refine_spec(criterion, arena, f[g0]).len() && apply_spec(
                criterion,
                arena,
                f,
            )[og] == refine_spec(criterion, arena, f[g0])[k],
    decreases f.len(),
{
    let t = f.drop_first();
    let re = refine_spec(criterion, arena, f.first());
    let ap = apply_spec(criterion, arena, f);
    if og < re.len() {
        assert(f[0] == f.first());
        assert(ap[og] == refine_spec(criterion, arena, f[0])[og]);
    } else {
        let tog = og - re.len();
        lemma_apply_spec_group_source(criterion, arena, t, tog);
        assert(ap[og] == apply_spec(criterion, arena, t)[tog]);
        let (g0, k): (int, int) = choose|g0: int, k: int|
            0 <= g0 < t.len() && 0 <= k < refine_spec(criterion, arena, t[g0]).len() && apply_spec(
                criterion,
                arena,
                t,
            )[tog] == refine_spec(criterion, arena, t[g0])[k];
        assert(t[g0] == f[g0 + 1]);
        assert(ap[og] == refine_spec(criterion, arena, f[g0 + 1])[k]);
    }
}

/// After a criterion is applied, every tie-group is score-constant under
/// that criterion.
pub proof fn lemma_apply_spec_groups_const<C: Criterion>(
    criterion: C,
    arena: Seq<Seq<DocIndex>>,
    f: Seq<Seq<RawDocument>>,
)
    requires
        forall|g: int, i: int|
            #![trigger criterion.spec_score(arena, f[g][i])]
            0 <= g < f.len() && 0 <= i < f[g].len() ==> criterion.spec_score(arena, f[g][i])
                <= usize::MAX,
    ensures
        groups_tied_under(criterion, arena, apply_spec(criterion, arena, f)),
{
    let ap = apply_spec(criterion, arena, f);
    assert forall|g: int, i: int, j: int|
        #![trigger criterion.spec_score(arena, ap[g][i]), criterion.spec_score(arena, ap[g][j])]
        0 <= g < ap.len() && 0 <= i < ap[g].len() && 0 <= j < ap[g].len() implies criterion.spec_score(
        arena,
        ap[g][i],
    ) == criterion.spec_score(arena, ap[g][j]) by {
        lemma_apply_spec_group_source(criterion, arena, f, g);
        let (g0, k): (int, int) = choose|g0: int, k: int|
            0 <= g0 < f.len() && 0 <= k < refine_spec(criterion, arena, f[g0]).len() && ap[g]
                == refine_spec(criterion, arena, f[g0])[k];
        assert forall|i2: int| 0 <= i2 < f[g0].len() implies criterion.spec_score(
            arena,
            #[trigger] f[g0][i2],
        ) <= usize::MAX by {
            assert(criterion.spec_score(arena, f[g0][i2]) <= usize::MAX);
        }
        lemma_refine_spec_groups(criterion, arena, f[g0]);
        assert(criterion.spec_score(arena, refine_spec(criterion, arena, f[g0])[k][i])
            == criterion.spec_score(arena, refine_spec(criterion, arena, f[g0])[k][0]));
        assert(criterion.spec_score(arena, refine_spec(criterion, arena, f[g0])[k][j])
            == criterion.spec_score(arena, refine_spec(criterion, arena, f[g0])[k][0]));
    }
}

/// Applying a further criterion keeps every tie-group score-constant under
/// an earlier one: refinement only narrows groups.
pub proof fn lemma_apply_spec_preserves_const<C: Criterion, E: Criterion>(
    criterion: C,
    earlier: E,
    arena: Seq<Seq<DocIndex>>,
    f: Seq<Seq<RawDocument>>,
)
    requires
        groups_tied_under(earlier, arena, f),
    ensures
        groups_tied_under(earlier, arena, apply_spec(criterion, arena, f)),
{
    let ap = apply_spec(criterion, arena, f);
    assert forall|g: int, i: int, j: int|
        #![trigger earlier.spec_score(arena, ap[g][i]), earlier.spec_score(arena, ap[g][j])]
        0 <= g < ap.len() && 0 <= i < ap[g].len() && 0 <= j < ap[g].len() implies earlier.spec_score(
        arena,
        ap[g][i],
    ) == earlier.spec_score(arena, ap[g][j]) by {
        lemma_apply_spec_group_source(criterion, arena, f, g);
        let (g0, k): (int, int) = choose|g0: int, k: int|
            0 <= g0 < f.len() && 0 <= k < refine_spec(criterion, arena, f[g0]).len() && ap[g]
                == refine_spec(criterion, arena, f[g0])[k];
        assert(forall|i2: int, j2: int|
            #![trigger f[g0][i2], f[g0][j2]]
            0 <= i2 < f[g0].len() && 0 <= j2 < f[g0].len() ==> earlier.spec_score(
                arena,
                f[g0][i2],
            ) == earlier.spec_score(arena, f[g0][j2]));
        lemma_refine_preserves_ties(criterion, earlier, arena, f[g0]);
        assert(earlier.spec_score(arena, refine_spec(criterion, arena, f[g0])[k][i])
            == earlier.spec_score(arena, refine_spec(criterion, arena, f[g0])[k][j]));
    }
}

/// Every document of the cascade's output comes from the input frontier.
pub proof fn lemma_cascade_spec_membership<C: Criterion>(
    criteria: Seq<C>,
    arena: Seq<Seq<DocIndex>>,
    f: Seq<Seq<RawDocument>>,
)
    ensures
        forall|g: int, i: int|
            #![trigger cascade_spec(criteria, arena, f)[g][i]]
            0 <= g < cascade_spec(criteria, arena, f).len() && 0 <= i < cascade_spec(
                criteria,
                arena,
                f,
            )[g].len() ==> exists|g0: int, j: int|
                0 <= g0 < f.len() && 0 <= j < f[g0].len() && cascade_spec(criteria, arena, f)[g][i]
                    == f[g0][j],
    decreases criteria.len(),
{
    let out = cascade_spec(criteria, arena, f);
    if criteria.len() == 0 {
        assert forall|g: int, i: int|
            #![trigger out[g][i]]
            0 <= g < out.len() && 0 <= i < out[g].len() implies exists|g0: int, j: int|
            0 <= g0 < f.len() && 0 <= j < f[g0].len() && out[g][i] == f[g0][j] by {
            assert(out[g][i] == f[g][i]);
        }
    } else {
        let f1 = apply_spec(criteria.first(), arena, f);
        lemma_apply_spec_membership(criteria.first(), arena, f);
        lemma_cascade_spec_membership(criteria.drop_first(), arena, f1);
        assert forall|g: int, i: int|
            #![trigger out[g][i]]
            0 <= g < out.len() && 0 <= i < out[g].len() implies exists|g0: int, j: int|
            0 <= g0 < f.len() && 0 <= j < f[g0].len() && out[g][i] == f[g0][j] by {
            assert(out == cascade_spec(criteria.drop_first(), arena, f1));
            let (g1, j1): (int, int) = choose|g1: int, j1: int|
                0 <= g1 < f1.len() && 0 <= j1 < f1[g1].len() && cascade_spec(
                    criteria.drop_first(),
                    arena,
                    f1,
                )[g][i] == f1[g1][j1];
            let (g0, j0): (int, int) = choose|g0: int, j0: int|
                0 <= g0 < f.len() && 0 <= j0 < f[g0].len() && apply_spec(
                    criteria.first(),
                    arena,
                    f,
                )[g1][j1] == f[g0][j0];
            assert(out[g][i] == f[g0][j0]);
        }
    }
}

/// The cascade keeps every tie-group score-constant under a criterion the
/// groups were already constant under.
pub proof fn lemma_cascade_preserves_const<C: Criterion, E: Criterion>(
    criteria: Seq<C>,
    earlier: E,
    arena: Seq<Seq<DocIndex>>,
    f: Seq<Seq<RawDocument>>,
)
    requires
        groups_tied_under(earlier, arena, f),
    ensures
        groups_tied_under(earlier, arena, cascade_spec(criteria, arena, f)),
    decreases criteria.len(),
{
    if criteria.len() == 0 {
    } else {
        let f1 = apply_spec(criteria.first(), arena, f);
        lemma_apply_spec_preserves_const(criteria.first(), earlier, arena, f);
        lemma_cascade_preserves_const(criteria.drop_first(), earlier, arena, f1);
    }
}

/// Monotonic refinement: every tie-group the cascade produces is
/// score-constant under every criterion that was applied, and no document
/// from outside the input frontier appears.
pub proof fn lemma_cascade_groups_tied<C: Criterion>(
    criteria: Seq<C>,
    arena: Seq<Seq<DocIndex>>,
    f: Seq<Seq<RawDocument>>,
)
    requires
        scores_bounded(criteria, arena, f),
    ensures
        forall|k: int|
            0 <= k < criteria.len() ==> groups_tied_under(
                #[trigger] criteria[k],
                arena,
                cascade_spec(criteria, arena, f),
            ),
    decreases criteria.len(),
{
    if criteria.len() == 0 {
    } else {
        let c0 = criteria.first();
        let rest = criteria.drop_first();
        let f1 = apply_spec(c0, arena, f);
        lemma_apply_spec_membership(c0, arena, f);
        assert forall|k: int, g: int, i: int|
            #![trigger rest[k].spec_score(arena, f1[g][i])]
            0 <= k < rest.len() && 0 <= g < f1.len() && 0 <= i < f1[g].len() implies rest[k].spec_score(
            arena,
            f1[g][i],
        ) <= usize::MAX by {
            let (g0, j): (int, int) = choose|g0: int, j: int|
                0 <= g0 < f.len() && 0 <= j < f[g0].len() && apply_spec(c0, arena, f)[g][i]
                    == f[g0][j];
            assert(rest[k] == criteria[k + 1]);
            assert(criteria[k + 1].spec_score(arena, f[g0][j]) <= usize::MAX);
        }
        assert forall|g: int, i: int|
            #![trigger c0.spec_score(arena, f[g][i])]
            0 <= g < f.len() && 0 <= i < f[g].len() implies c0.spec_score(arena, f[g][i])
            <= usize::MAX by {
            assert(criteria[0].spec_score(arena, f[g][i]) <= usize::MAX);
        }
        lemma_apply_spec_groups_const(c0, arena, f);
        lemma_cascade_preserves_const(rest, c0, arena, f1);
        lemma_cascade_groups_tied(rest, arena, f1);
        assert forall|k: int| 0 <= k < criteria.len() implies groups_tied_under(
            #[trigger] criteria[k],
            arena,
            cascade_spec(criteria, arena, f),
        ) by {
            assert(cascade_spec(criteria, arena, f) == cascade_spec(rest, arena, f1));
            if k == 0 {
                assert(criteria[0] == c0);
            } else {
                assert(rest[k - 1] == criteria[k]);
                assert(groups_tied_under(rest[k - 1], arena, cascade_spec(rest, arena, f1)));
            }
        }
    }
}

/// The mathematical contents of an executable frontier.
pub open spec fn frontier_view(f: Seq<Vec<RawDocument>>) -> Seq<Seq<RawDocument>> {
    Seq::new(f.len(), |i: int| f[i]@)
}

/// Applies one criterion to every tie-group of the frontier. Groups of at
/// most one document pass through unchanged without being evaluated; every
/// other group is refined, and the refined groups replace the frontier in
/// order.
pub fn apply_criterion<C: Criterion>(
    arena: &PostingsArena,
    criterion: &C,
    frontier: Vec<Vec<RawDocument>>,
) -> (r: Vec<Vec<RawDocument>>)
    requires
        arena.wf(),
        forall|g: int|
            0 <= g < frontier@.len() ==> group_ok(*criterion, arena@, (#[trigger] frontier@[g])@),
    ensures
        frontier_view(r@) == apply_spec(*criterion, arena@, frontier_view(frontier@)),
{
    let ghost forig = frontier_view(frontier@);
    let mut inp = frontier;
    let mut out: Vec<Vec<RawDocument>> = Vec::new();
    proof {
        assert(frontier_view(inp@) =~= forig);
        assert(frontier_view(out@) =~= Seq::<Seq<RawDocument>>::empty());
        assert(apply_spec(*criterion, arena@, forig) =~= frontier_view(out@) + apply_spec(
            *criterion,
            arena@,
            frontier_view(inp@),
        ));
    }
    while inp.len() > 0
        invariant
            arena.wf(),
            forall|g: int|
                0 <= g < inp@.len() ==> group_ok(*criterion, arena@, (#[trigger] inp@[g])@),
            apply_spec(*criterion, arena@, forig) == frontier_view(out@) + apply_spec(
                *criterion,
                arena@,
                frontier_view(inp@),
            ),
        decreases inp.len(),
    {
        let ghost prev = frontier_view(inp@);
        let ghost base = frontier_view(out@);
        let g = inp.remove(0);
        proof {
            assert(g@ == prev[0]);
            assert(frontier_view(inp@) =~= prev.drop_first());
            assert(apply_spec(*criterion, arena@, prev) == refine_spec(*criterion, arena@, g@)
                + apply_spec(*criterion, arena@, prev.drop_first()));
        }
        if g.len() == 0 {
            proof {
                lemma_refine_spec_empty(*criterion, arena@, g@);
                assert(frontier_view(out@) + apply_spec(*criterion, arena@, frontier_view(inp@))
                    =~= apply_spec(*criterion, arena@, forig));
            }
        } else if g.len() == 1 {
            proof {
                lemma_refine_spec_singleton(*criterion, arena@, g@);
            }
            out.push(g);
            proof {
                assert(frontier_view(out@) =~= base.push(prev[0]));
                assert(base.push(prev[0]) =~= base + seq![prev[0]]);
                assert(frontier_view(out@) + apply_spec(*criterion, arena@, frontier_view(inp@))
                    =~= apply_spec(*criterion, arena@, forig));
            }
        } else {
            let ghost gseq = g@;
            let ghost refined = refine_spec(*criterion, arena@, gseq);
            let mut parts = refine_group(arena, criterion, g);
            while parts.len() > 0
                invariant
                    refined == refine_spec(*criterion, arena@, gseq),
                    frontier_view(out@).len() >= base.len(),
                    parts@.len() <= refined.len(),
                    frontier_view(out@) == base + refined.take(refined.len() - parts@.len()),
                    forall|i: int|
                        0 <= i < parts@.len() ==> (#[trigger] parts@[i])@ == refined[refined.len()
                            - parts@.len() + i],
                decreases parts.len(),
            {
                let ghost pprev = parts@;
                let ghost done = refined.len() - parts@.len();
                let p = parts.remove(0);
                let ghost fvbefore = frontier_view(out@);
                proof {
                    assert(p@ == refined[done]);
                    assert(forall|i: int| 0 <= i < parts@.len() ==> #[trigger] parts@[i] == pprev[i
                        + 1]);
                    assert(fvbefore =~= base + refined.take(done));
                }
                out.push(p);
                proof {
                    assert(frontier_view(out@) =~= fvbefore.push(p@));
                    assert(fvbefore.push(p@) =~= base + refined.take(done + 1));
                    assert(frontier_view(out@) =~= base + refined.take(done + 1));
                }
            }
            proof {
                assert(refined.take(refined.len() as int) =~= refined);
                assert(frontier_view(out@) =~= base + refined);
                assert(frontier_view(out@) + apply_spec(*criterion, arena@, frontier_view(inp@))
                    =~= apply_spec(*criterion, arena@, forig));
            }
        }
    }
    proof {
        assert(frontier_view(inp@) =~= Seq::<Seq<RawDocument>>::empty());
        assert(frontier_view(out@) =~= apply_spec(*criterion, arena@, forig));
    }
    out
}

/// What the engine needs of every document in every group, for every
/// criterion that is still to be applied.
pub open spec fn frontier_ok<C: Criterion>(
    criteria: Seq<C>,
    arena: Seq<Seq<DocIndex>>,
    f: Seq<Seq<RawDocument>>,
) -> bool {
    forall|k: int, g: int|
        #![trigger criteria[k], f[g]]
        0 <= k < criteria.len() && 0 <= g < f.len() ==> group_ok(criteria[k], arena, f[g])
}

/// Ranks the documents by applying the criteria in priority order. The
/// result is the concatenation of the final frontier's tie-groups; with no
/// criteria configured, the documents come back in their input order.
pub fn rank<C: Criterion>(
    arena: &PostingsArena,
    documents: Vec<RawDocument>,
    criteria: &Vec<C>,
) -> (r: Vec<crate::arena::DocumentId>)
    requires
        arena.wf(),
        forall|k: int|
            0 <= k < criteria@.len() ==> group_ok(#[trigger] criteria@[k], arena@, documents@),
    ensures
        r@ == ids_of(cascade_spec(criteria@, arena@, seq![documents@]).flatten()),
        criteria@.len() == 0 ==> r@ == ids_of(documents@),
{
    let ghost init = seq![documents@];
    let mut frontier: Vec<Vec<RawDocument>> = Vec::new();
    frontier.push(documents);
    proof {
        assert(frontier_view(frontier@) =~= init);
        assert(criteria@.skip(0) =~= criteria@);
        assert(frontier_ok(criteria@, arena@, frontier_view(frontier@)));
    }
    let mut ci: usize = 0;
    while ci < criteria.len()
        invariant
            arena.wf(),
            ci <= criteria@.len(),
            cascade_spec(criteria@, arena@, init) == cascade_spec(
                criteria@.skip(ci as int),
                arena@,
                frontier_view(frontier@),
            ),
            frontier_ok(criteria@, arena@, frontier_view(frontier@)),
        decreases criteria.len() - ci,
    {
        let ghost fvold = frontier_view(frontier@);
        let criterion = &criteria[ci];
        proof {
            assert(criteria@[ci as int] == *criterion);
            assert forall|g: int| 0 <= g < frontier@.len() implies group_ok(
                *criterion,
                arena@,
                (#[trigger] frontier@[g])@,
            ) by {
                assert(frontier_view(frontier@)[g] == frontier@[g]@);
                assert(group_ok(criteria@[ci as int], arena@, frontier_view(frontier@)[g]));
            }
        }
        let prev_frontier = frontier;
        frontier = apply_criterion(arena, criterion, prev_frontier);
        proof {
            let rest = criteria@.skip(ci as int);
            assert(rest.first() == criteria@[ci as int]);
            assert(rest.drop_first() =~= criteria@.skip(ci + 1));
            assert(cascade_spec(rest, arena@, fvold) == cascade_spec(
                criteria@.skip(ci + 1),
                arena@,
                apply_spec(criteria@[ci as int], arena@, fvold),
            ));
            let fvnew = frontier_view(frontier@);
            lemma_apply_spec_membership(criteria@[ci as int], arena@, fvold);
            assert forall|k: int, g: int|
                #![trigger criteria@[k], fvnew[g]]
                0 <= k < criteria@.len() && 0 <= g < fvnew.len() implies group_ok(
                criteria@[k],
                arena@,
                fvnew[g],
            ) by {
                assert forall|i: int| 0 <= i < fvnew[g].len() implies (#[trigger] fvnew[g][i]).wf()
                    && fvnew[g][i].handles_valid(arena@) && criteria@[k].spec_score(
                    arena@,
                    fvnew[g][i],
                ) <= usize::MAX by {
                    let (g0, j): (int, int) = choose|g0: int, j: int|
                        0 <= g0 < fvold.len() && 0 <= j < fvold[g0].len() && apply_spec(
                            criteria@[ci as int],
                            arena@,
                            fvold,
                        )[g][i] == fvold[g0][j];
                    assert(group_ok(criteria@[k], arena@, fvold[g0]));
                    assert(fvnew[g][i] == fvold[g0][j]);
                }
            }
        }
        ci += 1;
    }
    proof {
        assert(criteria@.skip(criteria@.len() as int) =~= Seq::<C>::empty());
        assert(frontier_view(frontier@) == cascade_spec(criteria@, arena@, init));
        if criteria@.len() == 0 {
            assert(seq![documents@].drop_first() =~= Seq::<Seq<RawDocument>>::empty());
            assert(Seq::<Seq<RawDocument>>::empty().flatten() =~= Seq::<RawDocument>::empty());
            assert(seq![documents@].flatten() == seq![documents@].first() + seq![
                documents@,
            ].drop_first().flatten());
            assert(seq![documents@].flatten() =~= documents@);
        }
    }
    let ghost target = cascade_spec(criteria@, arena@, init);
    let mut remf = frontier;
    let mut r: Vec<crate::arena::DocumentId> = Vec::new();
    proof {
        assert(ids_of(target.flatten()) =~= r@ + ids_of(frontier_view(remf@).flatten()));
    }
    while remf.len() > 0
        invariant
            ids_of(target.flatten()) == r@ + ids_of(frontier_view(remf@).flatten()),
        decreases remf.len(),
    {
        let ghost prev = frontier_view(remf@);
        let ghost rbase = r@;
        let g = remf.remove(0);
        proof {
            assert(g@ == prev[0]);
            assert(frontier_view(remf@) =~= prev.drop_first());
            assert(prev.flatten() == prev.first() + prev.drop_first().flatten());
            assert(ids_of(prev.flatten()) =~= ids_of(g@) + ids_of(prev.drop_first().flatten()));
            assert(ids_of(g@.take(0)) =~= Seq::<crate::arena::DocumentId>::empty());
        }
        let mut i: usize = 0;
        while i < g.len()
            invariant
                i <= g@.len(),
                r@ == rbase + ids_of(g@.take(i as int)),
            decreases g.len() - i,
        {
            r.push(g[i].id);
            proof {
                assert(ids_of(g@.take(i + 1)) =~= ids_of(g@.take(i as int)).push(g@[i as int].id));
            }
            i += 1;
        }
        proof {
            assert(g@.take(g@.len() as int) =~= g@);
            assert(r@ =~= rbase + ids_of(g@));
            assert(r@ + ids_of(frontier_view(remf@).flatten()) =~= ids_of(target.flatten()));
        }
    }
    proof {
        assert(frontier_view(remf@) =~= Seq::<Seq<RawDocument>>::empty());
        assert(Seq::<Seq<RawDocument>>::empty().flatten() =~= Seq::<RawDocument>::empty());
        assert(r@ =~= ids_of(target.flatten()));
    }
    r
}

/// One of the provided criteria, chosen at run time: lets a caller hand
/// the engine an ordered list mixing the four scoring rules.
pub enum AnyCriterion {
    Typo(crate::typo::Typo),
    Words(crate::words::Words),
    Proximity(crate::proximity::Proximity),
    Attribute(crate::attribute::Attribute),
}

impl Criterion for AnyCriterion {
    open spec fn spec_score(&self, arena: Seq<Seq<DocIndex>>, doc: RawDocument) -> nat {
        match self {
            AnyCriterion::Typo(c) => c.spec_score(arena, doc),
            AnyCriterion::Words(c) => c.spec_score(arena, doc),
            AnyCriterion::Proximity(c) => c.spec_score(arena, doc),
            AnyCriterion::Attribute(c) => c.spec_score(arena, doc),
        }
    }

    open spec fn spec_order(&self) -> Order {
        match self {
            AnyCriterion::Typo(c) => c.spec_order(),
            AnyCriterion::Words(c) => c.spec_order(),
            AnyCriterion::Proximity(c) => c.spec_order(),
            AnyCriterion::Attribute(c) => c.spec_order(),
        }
    }

    open spec fn spec_name(&self) -> Seq<char> {
        match self {
            AnyCriterion::Typo(c) => c.spec_name(),
            AnyCriterion::Words(c) => c.spec_name(),
            AnyCriterion::Proximity(c) => c.spec_name(),
            AnyCriterion::Attribute(c) => c.spec_name(),
        }
    }

    fn name(&self) -> (r: &'static str) {
        match self {
            AnyCriterion::Typo(c) => c.name(),
            AnyCriterion::Words(c) => c.name(),
            AnyCriterion::Proximity(c) => c.name(),
            AnyCriterion::Attribute(c) => c.name(),
        }
    }

    fn order(&self) -> (r: Order) {
        match self {
            AnyCriterion::Typo(c) => c.order(),
            AnyCriterion::Words(c) => c.order(),
            AnyCriterion::Proximity(c) => c.order(),
            AnyCriterion::Attribute(c) => c.order(),
        }
    }

    fn evaluate(&self, arena: &PostingsArena, document: &RawDocument) -> (r: usize) {
        match self {
            AnyCriterion::Typo(c) => c.evaluate(arena, document),
            AnyCriterion::Words(c) => c.evaluate(arena, document),
            AnyCriterion::Proximity(c) => c.evaluate(arena, document),
            AnyCriterion::Attribute(c) => c.evaluate(arena, document),
        }
    }
}

} // verus!
