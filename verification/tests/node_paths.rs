use vp_tree_database::constants::FAR_KEY;
use vp_tree_database::constants::FILE_KEY;
use vp_tree_database::constants::NEAR_KEY;
use vp_tree_database::node_path::NodePath;

#[test]
fn empty_path_renders_fixed_name() {
    let path = NodePath::new_empty();
    assert_eq!(path.to_file_path_string(), "./database/vp_tree..database");
    assert_eq!(path.size(), 0);
}

#[test]
fn direction_characters_render_in_order() {
    let mut path = NodePath::new_empty();
    path.add_direction(FILE_KEY);
    path.add_direction(NEAR_KEY);
    path.add_direction(FAR_KEY);
    path.add_direction(b'?'); // defensive symbol
    assert_eq!(path.to_file_path_string(), "./database/vp_tree.lnau.database");
    assert_eq!(path.size(), 4);
}

#[test]
fn file_name_round_trip() {
    let mut path = NodePath::new_empty();
    path.add_direction(FILE_KEY);
    path.add_direction(NEAR_KEY);
    path.add_direction(NEAR_KEY);
    path.add_direction(FAR_KEY);
    let name = path.to_file_path_string();
    let back = NodePath::from_file_path_string(name.clone());
    assert_eq!(back.to_file_path_string(), name);
}

#[test]
fn unknown_characters_decode_defensively() {
    let back = NodePath::from_file_path_string(String::from("./database/vp_tree.nxa.database"));
    assert_eq!(back.to_file_path_string(), "./database/vp_tree.nua.database");
}

#[test]
fn split_boundary_rule() {
    // Depth interval 2: a position of two non-boundary steps forks ...
    let mut path = NodePath::new_empty();
    path.add_direction(FILE_KEY);
    path.add_direction(NEAR_KEY);
    path.add_direction(FAR_KEY);
    assert!(path.should_split_to_new_file(2));
    // ... but not right behind a boundary marker,
    path.add_direction(FILE_KEY);
    assert!(!path.should_split_to_new_file(2));
    // and never at logical depth zero.
    let mut root = NodePath::new_empty();
    root.add_direction(FILE_KEY);
    assert!(!root.should_split_to_new_file(2));
}
