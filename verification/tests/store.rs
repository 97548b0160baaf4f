use vp_tree_database::constants::FILE_KEY;
use vp_tree_database::constants::TreeConfig;
use vp_tree_database::features_database::insert_description_vec_into_database;
use vp_tree_database::rng::chacha8_from_seed;
use vp_tree_database::constants::NEAR_KEY;
use vp_tree_database::node::LeafNode;
use vp_tree_database::node::Node;
use vp_tree_database::node_path::NodePath;
use vp_tree_database::shard_store::ShardStore;
use vp_tree_database::uuid_description_pair::UUIDDescriptionPair;
use vp_tree_database::feature_description::FeatureDescription;

fn path(keys: &[u8]) -> NodePath {
    let mut p = NodePath::new_empty();
    for k in keys {
        p.add_direction(*k);
    }
    p
}

#[test]
fn put_then_get_returns_bytes() {
    let mut store = ShardStore::new();
    store.put(path(&[FILE_KEY]), vec![1, 2, 3]);
    assert_eq!(store.get(&path(&[FILE_KEY])).unwrap(), &vec![1, 2, 3]);
    assert!(store.get(&path(&[FILE_KEY, NEAR_KEY])).is_none());
}

#[test]
fn put_replaces_whole_file() {
    let mut store = ShardStore::new();
    store.put(path(&[FILE_KEY]), vec![1, 2, 3]);
    store.put(path(&[FILE_KEY]), vec![9]);
    assert_eq!(store.get(&path(&[FILE_KEY])).unwrap(), &vec![9]);
    assert_eq!(store.file_count(), 1);
}

#[test]
fn interrupted_rewrite_leaves_committed_bytes_intact() {
    // A shard rewrite prepares the new bytes first and replaces the file only
    // as its last step. Stopping after the preparation leaves the committed
    // entry byte-identical to before the attempt.
    let mut store = ShardStore::new();
    let key = path(&[FILE_KEY]);
    let mut leaf = LeafNode { features: Vec::new() };
    leaf.add(UUIDDescriptionPair::new(7, FeatureDescription::new([3u8; 32])));
    let committed = Node::Leaf(leaf).to_binary();
    store.put(path(&[FILE_KEY]), committed.clone());

    // Prepare a successor version, then stop before the replace step.
    let mut bigger = LeafNode { features: Vec::new() };
    bigger.add(UUIDDescriptionPair::new(7, FeatureDescription::new([3u8; 32])));
    bigger.add(UUIDDescriptionPair::new(8, FeatureDescription::new([4u8; 32])));
    let _prepared_but_never_swapped = Node::Leaf(bigger).to_binary();

    let read_back = store.get(&key).unwrap();
    assert_eq!(read_back, &committed);
    let node = Node::from_binary(read_back).unwrap();
    match node {
        Node::Leaf(l) => assert_eq!(l.features.len(), 1),
        _ => panic!("committed shard must read back unchanged"),
    }
}

#[test]
fn validation_accepts_written_stores_and_rejects_garbage() {
    let config = TreeConfig::new(4, 2);
    let mut rng = chacha8_from_seed(12);
    let mut store = ShardStore::new();
    let mut source = FeatureDescription::seeded_random(3);
    let records = (1..=20u64)
        .map(|uuid| UUIDDescriptionPair::new(uuid, source.next_description()))
        .collect();
    insert_description_vec_into_database(&mut store, &config, &mut rng, records, 32).unwrap();
    assert!(store.validate(&config));

    // A corrupt byte block at any position fails the whole store.
    store.put(path(&[FILE_KEY, NEAR_KEY]), vec![0, 1, 2, 3]);
    assert!(!store.validate(&config));
}
