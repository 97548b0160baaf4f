use vp_tree_database::feature_description::FeatureDescription;
use vp_tree_database::features_database::assign_uuids_to_list;
use vp_tree_database::frame_info::FrameInfo;

fn desc(first: u8) -> FeatureDescription {
    let mut data = [0u8; 32];
    data[0] = first;
    FeatureDescription::new(data)
}

#[test]
fn identifiers_are_sequential_from_the_maximum() {
    // Two static frames and one non-static frame in between; metadata here is
    // a plain label standing for whatever keypoint data a caller carries.
    let list = vec![
        (
            FrameInfo::new(String::from("aa"), String::from("png"), 0),
            vec![("a0", desc(1)), ("a1", desc(2))],
        ),
        (
            FrameInfo::new(String::from("bb"), String::from("gif"), 3),
            vec![("skipped", desc(3))],
        ),
        (
            FrameInfo::new(String::from("cc"), String::from("jpg"), 0),
            vec![("c0", desc(4))],
        ),
    ];
    let (frames, records) = assign_uuids_to_list(list, 100);

    // Non-static frames are dropped; descriptors keep extraction order and
    // take the identifiers right after the largest already issued.
    assert_eq!(records.len(), 3);
    let uuids: Vec<u64> = records.iter().map(|r| r.get_uuid()).collect();
    assert_eq!(uuids, vec![101, 102, 103]);
    let firsts: Vec<u8> = records
        .iter()
        .map(|r| r.get_description().data[0])
        .collect();
    assert_eq!(firsts, vec![1, 2, 4]);

    // The metadata groups carry the same identifiers for the side-table.
    assert_eq!(frames.len(), 2);
    assert_eq!(frames[0].0.copy_md5(), "aa");
    assert_eq!(frames[0].1, vec![(101, "a0"), (102, "a1")]);
    assert_eq!(frames[1].1, vec![(103, "c0")]);
}

#[test]
fn empty_batch_assigns_nothing() {
    let list: Vec<(FrameInfo, Vec<((), FeatureDescription)>)> = vec![];
    let (frames, records) = assign_uuids_to_list(list, 7);
    assert!(frames.is_empty());
    assert!(records.is_empty());
}
