use vp_tree_database::constants::TreeConfig;
use vp_tree_database::feature_description::FeatureDescription;
use vp_tree_database::features_database::find_feature_description_in_database;
use vp_tree_database::features_database::insert_description_vec_into_database;
use vp_tree_database::features_database::search_for_all_descriptions;
use vp_tree_database::node::Node;
use vp_tree_database::rng::chacha8_from_seed;
use vp_tree_database::shard_store::ShardStore;
use vp_tree_database::uuid_description_pair::UUIDDescriptionPair;

const FUEL: u32 = 32;

fn build_index(n: u64, seed: u64, config: &TreeConfig) -> (ShardStore, Vec<UUIDDescriptionPair>) {
    let mut source = FeatureDescription::seeded_random(seed);
    let records: Vec<UUIDDescriptionPair> = (1..=n)
        .map(|uuid| UUIDDescriptionPair::new(uuid, source.next_description()))
        .collect();
    let mut rng = chacha8_from_seed(seed.wrapping_add(1));
    let mut store = ShardStore::new();
    insert_description_vec_into_database(&mut store, config, &mut rng, records.clone(), FUEL)
        .unwrap();
    (store, records)
}

/// The k smallest distances by a plain linear scan over everything stored.
fn exhaustive_top_k(store: &ShardStore, target: &FeatureDescription, k: usize) -> Vec<(u32, u64)> {
    let root = Node::get_root_node();
    let mut scored: Vec<(u32, u64)> = root
        .collect_records(store, FUEL)
        .unwrap()
        .iter()
        .map(|p| (p.get_description().distance(target), p.get_uuid()))
        .collect();
    scored.sort();
    scored.truncate(k);
    scored
}

#[test]
fn empty_index_yields_no_matches() {
    let store = ShardStore::new();
    let target = FeatureDescription::new([1u8; 32]);
    let (comparisons, results) = find_feature_description_in_database(&store, target, 10, FUEL)
        .unwrap();
    assert_eq!(comparisons, 0);
    assert!(results.is_empty());
}

#[test]
fn search_is_sound_against_exhaustive_scan() {
    // The pruning test works on squared distances, where the triangle
    // inequality does not hold, so it can skip a subtree holding a true
    // neighbor: the returned set can fall short of the exhaustive scan's.
    // What always holds: as many answers, each a stored record at its true
    // distance, ascending, and pointwise no closer than the exhaustive
    // scan's answers. The exact nearest record is never pruned.
    let config = TreeConfig::new(8, 3);
    let (store, records) = build_index(120, 17, &config);
    let root = Node::get_root_node();
    let all_scored: Vec<(u32, u64)> = root
        .collect_records(&store, FUEL)
        .unwrap()
        .iter()
        .map(|p| (p.get_description().distance(records[40].get_description()), p.get_uuid()))
        .collect();
    for probe in [1usize, 40, 77, 111] {
        let target = *records[probe].get_description();
        let (_, results) = find_feature_description_in_database(&store, target, 7, FUEL).unwrap();
        let got: Vec<(u32, u64)> = results
            .iter()
            .map(|r| (r.get_distance(), r.get_result_uuid()))
            .collect();
        let expected = exhaustive_top_k(&store, &target, 7);
        assert_eq!(got.len(), expected.len());
        assert_eq!(got[0], expected[0], "the exact match is never pruned");
        let scored: Vec<(u32, u64)> = root
            .collect_records(&store, FUEL)
            .unwrap()
            .iter()
            .map(|p| (p.get_description().distance(&target), p.get_uuid()))
            .collect();
        for i in 0..got.len() {
            assert!(scored.contains(&got[i]), "answers are stored records at true distances");
            assert!(got[i].0 >= expected[i].0, "answers rank no better than the true top");
            if i > 0 {
                assert!(got[i - 1].0 <= got[i].0, "answers come back ascending");
            }
        }
    }
    drop(all_scored);
}

#[test]
fn small_search_matches_exhaustive_scan() {
    // On an index small enough to sit in one leaf nothing is ever pruned, so
    // the pruned search and the exhaustive scan return the same answers.
    let config = TreeConfig::new(64, 8);
    let (store, records) = build_index(30, 31, &config);
    for probe in [0usize, 15, 29] {
        let target = *records[probe].get_description();
        let (_, results) = find_feature_description_in_database(&store, target, 5, FUEL).unwrap();
        let got: Vec<(u32, u64)> = results
            .iter()
            .map(|r| (r.get_distance(), r.get_result_uuid()))
            .collect();
        assert_eq!(got, exhaustive_top_k(&store, &target, 5));
    }
}

#[test]
fn exact_match_ranks_first() {
    let config = TreeConfig::new(8, 3);
    let (store, records) = build_index(64, 23, &config);
    let target = *records[30].get_description();
    let (_, results) = find_feature_description_in_database(&store, target, 3, FUEL).unwrap();
    assert_eq!(results[0].get_result_uuid(), records[30].get_uuid());
    assert_eq!(results[0].get_distance(), 0);
}

#[test]
fn batch_search_answers_each_target() {
    let config = TreeConfig::new(8, 3);
    let (store, records) = build_index(50, 29, &config);
    let targets = vec![
        *records[4].get_description(),
        *records[25].get_description(),
    ];
    let all = search_for_all_descriptions(&store, targets, 2, FUEL).unwrap();
    assert_eq!(all.len(), 2);
    assert_eq!(all[0].1[0].get_result_uuid(), records[4].get_uuid());
    assert_eq!(all[1].1[0].get_result_uuid(), records[25].get_uuid());
}

#[test]
fn search_returns_everything_when_k_exceeds_the_index() {
    // The answer list holds min(k, records) entries: on a small index a large
    // k returns every stored record, ranked.
    let config = TreeConfig::new(4, 2);
    let (store, _records) = build_index(6, 41, &config);
    let target = FeatureDescription::new([9u8; 32]);
    let (comparisons, results) =
        find_feature_description_in_database(&store, target, 10, FUEL).unwrap();
    assert_eq!(results.len(), 6);
    assert_eq!(comparisons, 6);
    let got: Vec<(u32, u64)> = results
        .iter()
        .map(|r| (r.get_distance(), r.get_result_uuid()))
        .collect();
    assert_eq!(got, exhaustive_top_k(&store, &target, 10));
}
