use cascade_rank::engine::{apply_criterion, refine_group, rank, AnyCriterion};
use cascade_rank::{
    aggregate_documents, Attribute, BareMatch, Criterion, DocIndex, PostingsArena, PostingsListId,
    Proximity, RawDocument, Typo, Words,
};

fn di(document_id: u32, attribute: u16, word_index: u16) -> DocIndex {
    DocIndex { document_id, attribute, word_index }
}

fn bm(
    document_id: u32,
    query_index: u16,
    distance: u8,
    is_exact: bool,
    postings_list: PostingsListId,
) -> BareMatch {
    BareMatch { document_id, query_index, distance, is_exact, postings_list }
}

/// Arena and matches for three documents matching the two-term query
/// "new york": docs 0 and 1 match both terms, doc 2 matches only "new"
/// and has no attribute-0 occurrence.
fn new_york_fixture() -> (PostingsArena, Vec<BareMatch>) {
    let mut arena = PostingsArena::new();
    let h0_new = arena.add(vec![di(0, 0, 0), di(0, 0, 5), di(0, 1, 9), di(0, 1, 10)]);
    let h0_york = arena.add(vec![di(0, 0, 6), di(0, 2, 0)]);
    let h1_new = arena.add(vec![di(1, 0, 0), di(1, 0, 5)]);
    let h1_york = arena.add(vec![di(1, 0, 1), di(1, 0, 4)]);
    let h2_new = arena.add(vec![di(2, 1, 6), di(2, 2, 4)]);
    let matches = vec![
        bm(0, 0, 0, true, h0_new),
        bm(0, 1, 0, true, h0_york),
        bm(1, 0, 0, true, h1_new),
        bm(1, 1, 0, true, h1_york),
        bm(2, 0, 0, true, h2_new),
    ];
    (arena, matches)
}

fn all_criteria() -> Vec<AnyCriterion> {
    vec![
        AnyCriterion::Typo(Typo),
        AnyCriterion::Words(Words),
        AnyCriterion::Proximity(Proximity),
        AnyCriterion::Attribute(Attribute),
    ]
}

#[test]
fn two_term_docs_rank_ahead_of_single_term() {
    let (arena, matches) = new_york_fixture();
    let documents = aggregate_documents(matches);
    let criteria = all_criteria();
    let order = rank(&arena, documents, &criteria);
    assert_eq!(order, vec![0, 1, 2]);
    assert_eq!(order[2], 2);
}

#[test]
fn zero_criteria_preserve_input_order() {
    let (arena, matches) = new_york_fixture();
    let documents = aggregate_documents(matches);
    let criteria: Vec<AnyCriterion> = Vec::new();
    let order = rank(&arena, documents, &criteria);
    assert_eq!(order, vec![0, 1, 2]);
}

#[test]
fn adjacent_pair_minimal_distance() {
    let (arena, matches) = new_york_fixture();
    let documents = aggregate_documents(matches);
    let doc0 = &documents[0];
    assert_eq!(doc0.id, 0);
    let score = Proximity.evaluate(&arena, doc0);
    assert_eq!(score, 1);
}

#[test]
fn evaluate_is_pure() {
    let (arena, matches) = new_york_fixture();
    let documents = aggregate_documents(matches);
    for doc in &documents {
        assert_eq!(Typo.evaluate(&arena, doc), Typo.evaluate(&arena, doc));
        assert_eq!(Words.evaluate(&arena, doc), Words.evaluate(&arena, doc));
        assert_eq!(Proximity.evaluate(&arena, doc), Proximity.evaluate(&arena, doc));
        assert_eq!(Attribute.evaluate(&arena, doc), Attribute.evaluate(&arena, doc));
    }
}

#[test]
fn singleton_group_passes_unchanged() {
    let mut arena = PostingsArena::new();
    let h = arena.add(vec![di(7, 0, 3)]);
    let doc = RawDocument { id: 7, bare_matches: vec![bm(7, 0, 2, false, h)] };
    let frontier = vec![vec![doc]];
    let out = apply_criterion(&arena, &Typo, frontier);
    assert_eq!(out.len(), 1);
    assert_eq!(out[0].len(), 1);
    assert_eq!(out[0][0].id, 7);

    let mut arena2 = PostingsArena::new();
    let h2 = arena2.add(vec![di(7, 0, 3)]);
    let doc2 = RawDocument { id: 7, bare_matches: vec![bm(7, 0, 2, false, h2)] };
    let criteria = all_criteria();
    let order = rank(&arena2, vec![doc2], &criteria);
    assert_eq!(order, vec![7]);
}

#[test]
fn criteria_order_changes_ranking() {
    // Doc 0 matches two terms, one with an edit distance; doc 1 matches one
    // term exactly. Typo prefers doc 1, Words prefers doc 0, so whichever
    // criterion comes first decides.
    let mut arena = PostingsArena::new();
    let ha = arena.add(vec![di(0, 0, 0)]);
    let hb = arena.add(vec![di(0, 0, 1)]);
    let hc = arena.add(vec![di(1, 0, 0)]);
    let doc0 = RawDocument {
        id: 0,
        bare_matches: vec![bm(0, 0, 1, false, ha), bm(0, 1, 0, true, hb)],
    };
    let doc1 = RawDocument { id: 1, bare_matches: vec![bm(1, 0, 0, true, hc)] };

    let typo_first = vec![AnyCriterion::Typo(Typo), AnyCriterion::Words(Words)];
    let order_a = rank(&arena, vec![doc0, doc1], &typo_first);
    assert_eq!(order_a, vec![1, 0]);

    let mut arena2 = PostingsArena::new();
    let ha2 = arena2.add(vec![di(0, 0, 0)]);
    let hb2 = arena2.add(vec![di(0, 0, 1)]);
    let hc2 = arena2.add(vec![di(1, 0, 0)]);
    let doc0b = RawDocument {
        id: 0,
        bare_matches: vec![bm(0, 0, 1, false, ha2), bm(0, 1, 0, true, hb2)],
    };
    let doc1b = RawDocument { id: 1, bare_matches: vec![bm(1, 0, 0, true, hc2)] };
    let words_first = vec![AnyCriterion::Words(Words), AnyCriterion::Typo(Typo)];
    let order_b = rank(&arena2, vec![doc0b, doc1b], &words_first);
    assert_eq!(order_b, vec![0, 1]);
}

#[test]
fn no_criteria_on_empty_input() {
    let arena = PostingsArena::new();
    let documents = aggregate_documents(Vec::new());
    assert!(documents.is_empty());
    let criteria = all_criteria();
    let order = rank(&arena, documents, &criteria);
    assert!(order.is_empty());
}

#[test]
fn refinement_groups_by_equal_score_in_declared_order() {
    // Words is descending: documents with two matches form the first
    // tie-group, in their input order; the single-match document follows.
    let mut arena = PostingsArena::new();
    let h = arena.add(vec![di(0, 0, 0)]);
    let two_a = RawDocument {
        id: 10,
        bare_matches: vec![bm(10, 0, 0, true, h), bm(10, 1, 0, true, h)],
    };
    let one = RawDocument { id: 11, bare_matches: vec![bm(11, 0, 0, true, h)] };
    let two_b = RawDocument {
        id: 12,
        bare_matches: vec![bm(12, 0, 0, true, h), bm(12, 1, 0, true, h)],
    };
    let groups = refine_group(&arena, &Words, vec![two_a, one, two_b]);
    assert_eq!(groups.len(), 2);
    assert_eq!(groups[0].len(), 2);
    assert_eq!(groups[0][0].id, 10);
    assert_eq!(groups[0][1].id, 12);
    assert_eq!(groups[1].len(), 1);
    assert_eq!(groups[1][0].id, 11);
}

#[test]
fn separated_groups_are_never_remerged() {
    // Documents 20 and 22 score alike under Words, but sit in different
    // tie-groups: applying Words keeps each inside its own group's block.
    let mut arena = PostingsArena::new();
    let h = arena.add(vec![di(0, 0, 0)]);
    let a = RawDocument {
        id: 20,
        bare_matches: vec![bm(20, 0, 0, true, h), bm(20, 1, 0, true, h)],
    };
    let b = RawDocument { id: 21, bare_matches: vec![bm(21, 0, 0, true, h)] };
    let c = RawDocument {
        id: 22,
        bare_matches: vec![bm(22, 0, 0, true, h), bm(22, 1, 0, true, h)],
    };
    let frontier = vec![vec![a, b], vec![c]];
    let out = apply_criterion(&arena, &Words, frontier);
    let ids: Vec<Vec<u32>> = out
        .iter()
        .map(|g| g.iter().map(|d| d.id).collect())
        .collect();
    assert_eq!(ids, vec![vec![20], vec![21], vec![22]]);
}

#[test]
fn ties_keep_aggregated_order() {
    // Two documents with identical scores under every criterion stay in
    // their aggregated (document id) order.
    let mut arena = PostingsArena::new();
    let ha = arena.add(vec![di(3, 0, 0)]);
    let hb = arena.add(vec![di(9, 0, 0)]);
    let matches = vec![bm(9, 0, 0, true, hb), bm(3, 0, 0, true, ha)];
    let documents = aggregate_documents(matches);
    let criteria = all_criteria();
    let order = rank(&arena, documents, &criteria);
    assert_eq!(order, vec![3, 9]);
}
