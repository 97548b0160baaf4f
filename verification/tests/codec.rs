use vp_tree_database::constants::FILE_KEY;
use vp_tree_database::constants::NEAR_KEY;
use vp_tree_database::error::TreeError;
use vp_tree_database::feature_description::FeatureDescription;
use vp_tree_database::node::FileNode;
use vp_tree_database::node::LeafNode;
use vp_tree_database::node::Node;
use vp_tree_database::node_path::NodePath;
use vp_tree_database::uuid_description_pair::UUIDDescriptionPair;

fn desc(seed: u8) -> FeatureDescription {
    let mut data = [0u8; 32];
    for i in 0..32 {
        data[i] = seed.wrapping_add(i as u8);
    }
    FeatureDescription::new(data)
}

fn record(uuid: u64, seed: u8) -> UUIDDescriptionPair {
    UUIDDescriptionPair::new(uuid, desc(seed))
}

fn records_of(node: &Node) -> Vec<(u64, [u8; 32])> {
    match node {
        Node::Leaf(leaf) => {
            let mut out: Vec<(u64, [u8; 32])> = leaf
                .features
                .iter()
                .map(|p| (p.get_uuid(), p.get_description().data))
                .collect();
            out.sort();
            out
        }
        Node::Internal(i) => {
            let mut out = records_of(&i.near);
            out.extend(records_of(&i.far));
            out.sort();
            out
        }
        Node::File(_) => vec![],
    }
}

#[test]
fn descriptor_round_trip() {
    let d = desc(3);
    let bytes = d.to_binary();
    assert_eq!(bytes.len(), 32);
    let back = FeatureDescription::from_binary(&bytes);
    assert_eq!(back.data, d.data);
}

#[test]
fn record_round_trip() {
    let r = record(77, 5);
    let bytes = r.to_binary();
    assert_eq!(bytes.len(), 40);
    let back = UUIDDescriptionPair::from_binary(&bytes).unwrap();
    assert_eq!(back.get_uuid(), 77);
    assert_eq!(back.get_description().data, r.get_description().data);
}

#[test]
fn record_length_mismatch() {
    let r = record(1, 1);
    let mut bytes = r.to_binary();
    bytes.pop();
    assert_eq!(
        UUIDDescriptionPair::from_binary(&bytes).unwrap_err(),
        TreeError::LengthMismatch
    );
}

#[test]
fn path_round_trip() {
    let mut path = NodePath::new_empty();
    path.add_direction(FILE_KEY);
    path.add_direction(NEAR_KEY);
    path.add_direction(vp_tree_database::constants::FAR_KEY);
    let bytes = path.to_binary();
    let back = NodePath::from_binary(&bytes).unwrap();
    assert_eq!(back.to_file_path_string(), path.to_file_path_string());
}

#[test]
fn path_truncated_and_mismatch() {
    assert_eq!(
        NodePath::from_binary(&[1, 2, 3]).unwrap_err(),
        TreeError::Truncated
    );
    // Count says 5 entries, none follow.
    let bytes = vec![5, 0, 0, 0, 0, 0, 0, 0];
    assert_eq!(
        NodePath::from_binary(&bytes).unwrap_err(),
        TreeError::LengthMismatch
    );
}

#[test]
fn leaf_round_trip_keeps_records() {
    let mut leaf = LeafNode { features: Vec::new() };
    for i in 0..10u64 {
        leaf.add(record(i, i as u8));
    }
    let node = Node::Leaf(leaf);
    let bytes = node.to_binary();
    let back = Node::from_binary(&bytes).unwrap();
    assert_eq!(records_of(&back), records_of(&node));
}

#[test]
fn internal_round_trip_keeps_structure() {
    let mut rng = vp_tree_database::rng::chacha8_from_seed(7);
    let mut leaf = LeafNode { features: Vec::new() };
    for i in 0..16u64 {
        leaf.add(record(i, (i * 13) as u8));
    }
    let before_records = {
        let as_node = Node::Leaf(LeafNode {
            features: leaf.features.clone(),
        });
        records_of(&as_node)
    };
    let internal = vp_tree_database::node::InternalNode::new_from_leaf(&mut leaf, &mut rng);
    let bytes = internal.to_binary();
    let back = Node::from_binary(&bytes).unwrap();
    assert!(matches!(back, Node::Internal(_)));
    assert_eq!(records_of(&back), before_records);
}

#[test]
fn file_node_round_trip() {
    let mut path = NodePath::new_empty();
    path.add_direction(FILE_KEY);
    path.add_direction(NEAR_KEY);
    let node = FileNode::new_at_location(path);
    let bytes = node.to_binary();
    let back = Node::from_binary(&bytes).unwrap();
    match back {
        Node::File(f) => assert_eq!(
            f.path_in_tree.to_file_path_string(),
            "./database/vp_tree.ln.database"
        ),
        _ => panic!("expected a shard reference"),
    }
}

#[test]
fn unknown_signature_is_fatal() {
    let bytes = b"zzzz\x00\x00\x00\x00\x00\x00\x00\x00".to_vec();
    assert_eq!(
        Node::from_binary(&bytes).unwrap_err(),
        TreeError::UnknownSignature
    );
}

#[test]
fn truncated_block_is_fatal() {
    assert_eq!(Node::from_binary(b"le").unwrap_err(), TreeError::Truncated);
    assert_eq!(
        Node::from_binary(b"leaf\x01\x00").unwrap_err(),
        TreeError::Truncated
    );
}

#[test]
fn leaf_length_mismatch_is_fatal() {
    // A leaf claiming two records but holding bytes for none.
    let mut bytes = b"leaf".to_vec();
    bytes.extend_from_slice(&2u64.to_le_bytes());
    assert_eq!(
        Node::from_binary(&bytes).unwrap_err(),
        TreeError::LengthMismatch
    );
}

#[test]
fn leaf_wire_bytes_are_exact() {
    // Signature, little-endian count, then 8-byte identifier and descriptor.
    let mut leaf = LeafNode { features: Vec::new() };
    leaf.add(UUIDDescriptionPair::new(0x0102030405060708, desc(1)));
    let bytes = Node::Leaf(leaf).to_binary();
    assert_eq!(&bytes[0..4], b"leaf");
    assert_eq!(&bytes[4..12], &1u64.to_le_bytes());
    assert_eq!(&bytes[12..20], &0x0102030405060708u64.to_le_bytes());
    assert_eq!(&bytes[20..52], &desc(1).data);
    assert_eq!(bytes.len(), 52);
}

#[test]
fn internal_wire_bytes_begin_with_fixed_fields() {
    let mut rng = vp_tree_database::rng::chacha8_from_seed(8);
    let mut leaf = LeafNode { features: Vec::new() };
    for i in 0..4u64 {
        leaf.add(record(i, i as u8));
    }
    let node = vp_tree_database::node::InternalNode::new_from_leaf(&mut leaf, &mut rng);
    let (radius, vantage) = match &node {
        Node::Internal(i) => (i.radius, i.vantage.data),
        _ => panic!("split must build an internal node"),
    };
    let bytes = node.to_binary();
    assert_eq!(&bytes[0..4], b"intr");
    assert_eq!(&bytes[4..8], &radius.to_le_bytes());
    assert_eq!(&bytes[8..40], &vantage);
}
