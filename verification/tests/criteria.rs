use cascade_rank::{
    aggregate_documents, attribute_proximity, index_proximity, sort_dedup_positions, Attribute,
    BareMatch, Criterion, DocIndex, Order, PostingsArena, PostingsListId, Proximity, RawDocument,
    Typo, Words,
};

fn entry(document_id: u32, attribute: u16, word_index: u16) -> DocIndex {
    DocIndex { document_id, attribute, word_index }
}

fn one_match(
    document_id: u32,
    query_index: u16,
    distance: u8,
    postings_list: PostingsListId,
) -> BareMatch {
    BareMatch { document_id, query_index, distance, is_exact: distance == 0, postings_list }
}

#[test]
fn word_distance_is_zero_for_identical_offsets() {
    assert_eq!(index_proximity(4, 4), 0);
    let a = entry(0, 2, 7);
    let b = entry(0, 2, 7);
    assert_eq!(attribute_proximity(a, b), 0);
}

#[test]
fn out_of_order_pair_costs_one_extra() {
    assert_eq!(index_proximity(2, 5), 3);
    assert_eq!(index_proximity(5, 2), 4);
    assert_eq!(index_proximity(0, 100), 8);
    assert_eq!(index_proximity(100, 0), 9);
}

#[test]
fn different_attributes_are_max_distance() {
    let a = entry(0, 0, 3);
    let b = entry(0, 1, 3);
    assert_eq!(attribute_proximity(a, b), 8);
}

#[test]
fn typo_sums_edit_distances() {
    let mut arena = PostingsArena::new();
    let h1 = arena.add(vec![entry(0, 0, 0)]);
    let h2 = arena.add(vec![entry(0, 0, 1)]);
    let doc = RawDocument {
        id: 0,
        bare_matches: vec![one_match(0, 0, 1, h1), one_match(0, 1, 2, h2)],
    };
    assert_eq!(Typo.evaluate(&arena, &doc), 3);
    assert_eq!(Typo.name(), "typo");
    assert!(matches!(Typo.order(), Order::Asc));
}

#[test]
fn words_counts_matched_terms() {
    let mut arena = PostingsArena::new();
    let h1 = arena.add(vec![entry(0, 0, 0)]);
    let h2 = arena.add(vec![entry(0, 0, 1)]);
    let doc = RawDocument {
        id: 0,
        bare_matches: vec![one_match(0, 0, 0, h1), one_match(0, 1, 0, h2)],
    };
    assert_eq!(Words.evaluate(&arena, &doc), 2);
    assert_eq!(Words.name(), "words");
    assert!(matches!(Words.order(), Order::Dsc));
}

#[test]
fn attribute_takes_minimum_field_index() {
    let mut arena = PostingsArena::new();
    let h1 = arena.add(vec![entry(0, 3, 0), entry(0, 5, 2)]);
    let h2 = arena.add(vec![entry(0, 1, 4)]);
    let doc = RawDocument {
        id: 0,
        bare_matches: vec![one_match(0, 0, 0, h1), one_match(0, 1, 0, h2)],
    };
    assert_eq!(Attribute.evaluate(&arena, &doc), 1);
    assert_eq!(Attribute.name(), "attribute");
    assert!(matches!(Attribute.order(), Order::Asc));
}

#[test]
fn attribute_zero_is_best() {
    let mut arena = PostingsArena::new();
    let h1 = arena.add(vec![entry(0, 2, 0)]);
    let h2 = arena.add(vec![entry(0, 0, 1), entry(0, 4, 0)]);
    let doc = RawDocument {
        id: 0,
        bare_matches: vec![one_match(0, 0, 0, h1), one_match(0, 1, 0, h2)],
    };
    assert_eq!(Attribute.evaluate(&arena, &doc), 0);
}

#[test]
fn attribute_with_no_entries_is_worst() {
    let mut arena = PostingsArena::new();
    let h = arena.add(Vec::new());
    let doc = RawDocument { id: 0, bare_matches: vec![one_match(0, 0, 0, h)] };
    assert_eq!(Attribute.evaluate(&arena, &doc), 0xffff);
}

#[test]
fn proximity_empty_list_falls_back_to_max() {
    let mut arena = PostingsArena::new();
    let h1 = arena.add(vec![entry(0, 0, 0)]);
    let h2 = arena.add(Vec::new());
    let doc = RawDocument {
        id: 0,
        bare_matches: vec![one_match(0, 0, 0, h1), one_match(0, 1, 0, h2)],
    };
    assert_eq!(Proximity.evaluate(&arena, &doc), 8);
    assert_eq!(Proximity.name(), "proximity");
    assert!(matches!(Proximity.order(), Order::Asc));
}

#[test]
fn proximity_single_match_scores_zero() {
    let mut arena = PostingsArena::new();
    let h = arena.add(vec![entry(0, 0, 0)]);
    let doc = RawDocument { id: 0, bare_matches: vec![one_match(0, 0, 0, h)] };
    assert_eq!(Proximity.evaluate(&arena, &doc), 0);
}

#[test]
fn aggregator_groups_by_document_preserving_match_order() {
    let mut arena = PostingsArena::new();
    let ha = arena.add(vec![entry(2, 0, 0)]);
    let hb = arena.add(vec![entry(1, 0, 0)]);
    let hc = arena.add(vec![entry(2, 0, 1)]);
    let matches = vec![
        one_match(2, 0, 0, ha),
        one_match(1, 0, 0, hb),
        one_match(2, 1, 0, hc),
    ];
    let documents = aggregate_documents(matches);
    assert_eq!(documents.len(), 2);
    assert_eq!(documents[0].id, 1);
    assert_eq!(documents[1].id, 2);
    assert_eq!(documents[1].bare_matches.len(), 2);
    assert_eq!(documents[1].bare_matches[0].query_index, 0);
    assert_eq!(documents[1].bare_matches[1].query_index, 1);
}

#[test]
fn sort_dedup_orders_and_removes_duplicates() {
    let dirty = vec![
        entry(0, 2, 5),
        entry(0, 1, 3),
        entry(0, 2, 5),
        entry(0, 1, 4),
    ];
    let clean = sort_dedup_positions(dirty);
    assert_eq!(clean.len(), 3);
    assert_eq!((clean[0].attribute, clean[0].word_index), (1, 3));
    assert_eq!((clean[1].attribute, clean[1].word_index), (1, 4));
    assert_eq!((clean[2].attribute, clean[2].word_index), (2, 5));
}

#[test]
fn arena_resolves_what_it_stored() {
    let mut arena = PostingsArena::new();
    let list = vec![entry(4, 0, 1), entry(4, 1, 2)];
    let h = arena.add(list.clone());
    assert_eq!(arena.len(), 1);
    assert_eq!(arena.resolve(h), &list);
}
