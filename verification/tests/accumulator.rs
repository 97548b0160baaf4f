use vp_tree_database::feature_description::FeatureDescription;
use vp_tree_database::search_result::SearchResultList;
use vp_tree_database::uuid_description_pair::UUIDDescriptionPair;

fn desc(first: u8) -> FeatureDescription {
    let mut data = [0u8; 32];
    data[0] = first;
    FeatureDescription::new(data)
}

#[test]
fn accumulator_keeps_k_best() {
    // Target is the zero descriptor; offering bytes 10, 9, ..., 1 gives
    // distances 100, 81, ..., 1. With k = 3 the best are 1, 4, 9.
    let mut acc = SearchResultList::new(3, desc(0));
    for i in 0..10u8 {
        acc.try_to_add(&UUIDDescriptionPair::new(i as u64, desc(10 - i)));
    }
    assert_eq!(acc.get_comparisons(), 10);
    let ranked = acc.get_results();
    assert_eq!(ranked.len(), 3);
    let distances: Vec<u32> = ranked.iter().map(|r| r.get_distance()).collect();
    assert_eq!(distances, vec![1, 4, 9]);
    let uuids: Vec<u64> = ranked.iter().map(|r| r.get_result_uuid()).collect();
    assert_eq!(uuids, vec![9, 8, 7]);
}

#[test]
fn accumulator_under_k_keeps_all() {
    let mut acc = SearchResultList::new(5, desc(0));
    acc.try_to_add(&UUIDDescriptionPair::new(1, desc(3)));
    acc.try_to_add(&UUIDDescriptionPair::new(2, desc(1)));
    let ranked = acc.get_results();
    assert_eq!(ranked.len(), 2);
    assert_eq!(ranked[0].get_result_uuid(), 2);
    assert_eq!(ranked[1].get_result_uuid(), 1);
}

#[test]
fn worst_distance_bounds_kept_results() {
    let mut acc = SearchResultList::new(2, desc(0));
    acc.try_to_add(&UUIDDescriptionPair::new(1, desc(5)));
    acc.try_to_add(&UUIDDescriptionPair::new(2, desc(2)));
    assert_eq!(acc.get_worst_distance_to_target(), 25);
    // A better record evicts the worst.
    acc.try_to_add(&UUIDDescriptionPair::new(3, desc(1)));
    assert_eq!(acc.get_worst_distance_to_target(), 4);
    // A worse record is rejected.
    acc.try_to_add(&UUIDDescriptionPair::new(4, desc(9)));
    assert_eq!(acc.get_worst_distance_to_target(), 4);
    let ranked = acc.get_results();
    let uuids: Vec<u64> = ranked.iter().map(|r| r.get_result_uuid()).collect();
    assert_eq!(uuids, vec![3, 2]);
}

#[test]
fn distance_to_feature_matches_descriptor_distance() {
    let target = desc(4);
    let acc = SearchResultList::new(1, target);
    let other = desc(9);
    assert_eq!(acc.distance_to_feature(&other), target.distance(&other));
}
