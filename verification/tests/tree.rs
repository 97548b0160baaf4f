use vp_tree_database::constants::TreeConfig;
use vp_tree_database::error::TreeError;
use vp_tree_database::node_path::NodePath;
use vp_tree_database::feature_description::FeatureDescription;
use vp_tree_database::features_database::insert_description_vec_into_database;
use vp_tree_database::node::Node;
use vp_tree_database::rng::chacha8_from_seed;
use vp_tree_database::shard_store::ShardStore;
use vp_tree_database::uuid_description_pair::UUIDDescriptionPair;

const FUEL: u32 = 32;

fn seeded_records(n: u64, seed: u64) -> Vec<UUIDDescriptionPair> {
    let mut source = FeatureDescription::seeded_random(seed);
    (1..=n)
        .map(|uuid| UUIDDescriptionPair::new(uuid, source.next_description()))
        .collect()
}

fn root_file(store: &ShardStore) -> Node {
    let mut path = vp_tree_database::node_path::NodePath::new_empty();
    path.add_direction(vp_tree_database::constants::FILE_KEY);
    Node::from_binary(store.get(&path).expect("root shard missing")).expect("root shard corrupt")
}

#[test]
fn capacity_plus_one_forces_a_split() {
    let config = TreeConfig::new(4, 8);
    let mut rng = chacha8_from_seed(1);
    let mut store = ShardStore::new();
    let records = seeded_records(5, 11);
    insert_description_vec_into_database(&mut store, &config, &mut rng, records, FUEL).unwrap();

    // The root shard's subtree took one more record than a leaf may hold, so
    // the node standing there is no longer a leaf.
    let content = root_file(&store);
    assert!(!matches!(content, Node::Leaf(_)));

    // Size before/after equals the records inserted.
    let root = Node::get_root_node();
    assert_eq!(root.size(&store, FUEL).unwrap(), 5);
}

#[test]
fn size_counts_every_insert() {
    let config = TreeConfig::new(8, 3);
    let mut rng = chacha8_from_seed(2);
    let mut store = ShardStore::new();
    let root = Node::get_root_node();
    assert_eq!(root.size(&store, FUEL).unwrap(), 0);
    for step in 1..=60u64 {
        let mut source = FeatureDescription::seeded_random(step);
        let rec = UUIDDescriptionPair::new(step, source.next_description());
        vp_tree_database::features_database::insert_description_into_database(
            &mut store, &config, &mut rng, rec, FUEL,
        )
        .unwrap();
        assert_eq!(root.size(&store, FUEL).unwrap(), step);
    }
}

#[test]
fn collect_returns_every_identifier_once() {
    let config = TreeConfig::new(4, 2);
    let mut rng = chacha8_from_seed(3);
    let mut store = ShardStore::new();
    insert_description_vec_into_database(&mut store, &config, &mut rng, seeded_records(40, 5), FUEL)
        .unwrap();
    let root = Node::get_root_node();
    let mut ids: Vec<u64> = root
        .collect_records(&store, FUEL)
        .unwrap()
        .iter()
        .map(|p| p.get_uuid())
        .collect();
    ids.sort();
    let expected: Vec<u64> = (1..=40).collect();
    assert_eq!(ids, expected);
}

#[test]
fn split_partitions_by_median_radius() {
    // After a split, every near record sits strictly inside the radius, every
    // far record at or beyond it, and nothing is lost.
    let mut rng = chacha8_from_seed(4);
    let mut leaf = vp_tree_database::node::LeafNode { features: Vec::new() };
    let records = seeded_records(33, 21);
    for r in &records {
        leaf.add(*r);
    }
    let node = vp_tree_database::node::InternalNode::new_from_leaf(&mut leaf, &mut rng);
    let internal = match node {
        Node::Internal(i) => i,
        _ => panic!("split must build an internal node"),
    };
    let near = match *internal.near {
        Node::Leaf(l) => l.features,
        _ => panic!("near child must be a leaf"),
    };
    let far = match *internal.far {
        Node::Leaf(l) => l.features,
        _ => panic!("far child must be a leaf"),
    };
    assert_eq!(near.len() + far.len(), records.len());
    for r in &near {
        assert!(r.get_description().distance(&internal.vantage) < internal.radius);
    }
    for r in &far {
        assert!(r.get_description().distance(&internal.vantage) >= internal.radius);
    }
}

#[test]
fn exhausted_fuel_is_reported() {
    let config = TreeConfig::new(4, 8);
    let mut rng = chacha8_from_seed(6);
    let mut store = ShardStore::new();
    let mut source = FeatureDescription::seeded_random(1);
    let rec = UUIDDescriptionPair::new(1, source.next_description());

    // Crossing the root shard boundary with no fuel left fails the insert
    // without touching the store.
    let mut root = Node::get_root_node();
    let mut path = NodePath::new_empty();
    path.add_direction(vp_tree_database::constants::FILE_KEY);
    let err = root
        .add(&mut store, &config, &mut rng, rec, path, 0)
        .unwrap_err();
    assert_eq!(err, TreeError::DepthExceeded);
    assert_eq!(store.file_count(), 0);

    // The same bound stops a search.
    let search_err = vp_tree_database::features_database::find_feature_description_in_database(
        &store,
        *rec.get_description(),
        1,
        0,
    )
    .unwrap_err();
    assert_eq!(search_err, TreeError::DepthExceeded);
}

#[test]
fn debug_lines_report_total_first() {
    let config = TreeConfig::new(4, 8);
    let mut rng = chacha8_from_seed(5);
    let mut store = ShardStore::new();
    insert_description_vec_into_database(&mut store, &config, &mut rng, seeded_records(9, 8), FUEL)
        .unwrap();
    let root = Node::get_root_node();
    let lines = root.debug_lines(&store, 0, FUEL).unwrap();
    assert_eq!(lines[0], (0, 9));
}

#[test]
fn shard_names_follow_the_layout() {
    // With a depth interval of two, forks appear below the root shard; every
    // file name is the fixed prefix, the root's single boundary marker, the
    // direction characters, and the fixed suffix, and boundary markers never
    // stand side by side.
    let config = TreeConfig::new(2, 2);
    let mut rng = chacha8_from_seed(9);
    let mut store = ShardStore::new();
    insert_description_vec_into_database(&mut store, &config, &mut rng, seeded_records(30, 13), FUEL)
        .unwrap();
    assert!(store.file_count() > 1);
    let mut saw_root = false;
    for i in 0..store.file_count() {
        let (path, _) = store.entry_at(i);
        let name = path.to_file_path_string();
        assert!(name.starts_with("./database/vp_tree.l"));
        assert!(name.ends_with(".database"));
        assert!(!name.contains("ll"));
        if name == "./database/vp_tree.l.database" {
            saw_root = true;
        }
    }
    assert!(saw_root);
}
