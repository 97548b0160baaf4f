use vp_tree_database::constants::TreeConfig;
use vp_tree_database::feature_description::FeatureDescription;
use vp_tree_database::features_database::find_feature_description_in_database;
use vp_tree_database::features_database::insert_description_vec_into_database;
use vp_tree_database::rng::chacha8_from_seed;
use vp_tree_database::shard_store::ShardStore;
use vp_tree_database::uuid_description_pair::UUIDDescriptionPair;

const FUEL: u32 = 64;

/// Five thousand random descriptors under a small leaf capacity and a shallow
/// shard interval: an exact query comes back first at distance zero, and the
/// pruned traversal offers far fewer records than a full scan would.
#[test]
fn large_index_finds_exact_match_cheaply() {
    let config = TreeConfig::new(128, 4);
    let mut source = FeatureDescription::seeded_random(4242);
    let records: Vec<UUIDDescriptionPair> = (1..=5000u64)
        .map(|uuid| UUIDDescriptionPair::new(uuid, source.next_description()))
        .collect();
    let target = *records[41].get_description();
    assert_eq!(records[41].get_uuid(), 42);

    let mut rng = chacha8_from_seed(7);
    let mut store = ShardStore::new();
    insert_description_vec_into_database(&mut store, &config, &mut rng, records, FUEL).unwrap();
    assert!(store.file_count() > 1, "the tree should span several shard files");

    let (comparisons, results) = find_feature_description_in_database(&store, target, 10, FUEL)
        .unwrap();
    assert_eq!(results.len(), 10);
    assert_eq!(results[0].get_result_uuid(), 42);
    assert_eq!(results[0].get_distance(), 0);
    assert!(
        comparisons < 5000,
        "pruning should skip part of the index, saw {} comparisons",
        comparisons
    );
}
