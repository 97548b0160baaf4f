use vp_tree_database::feature_description::FeatureDescription;

fn desc(bytes: &[u8]) -> FeatureDescription {
    let mut data = [0u8; 32];
    for (i, b) in bytes.iter().enumerate() {
        data[i] = *b;
    }
    FeatureDescription::new(data)
}

#[test]
fn distance_exact_value() {
    // Two bytes differ, by 3 and by 4: the squared distance is 9 + 16 = 25.
    let a = desc(&[10, 20]);
    let b = desc(&[13, 16]);
    assert_eq!(a.distance(&b), 25);
}

#[test]
fn distance_symmetric() {
    let a = desc(&[1, 2, 3, 4, 5]);
    let b = desc(&[9, 8, 7, 6, 5]);
    assert_eq!(a.distance(&b), b.distance(&a));
}

#[test]
fn distance_zero_iff_equal() {
    let a = desc(&[7, 7, 7]);
    let b = desc(&[7, 7, 7]);
    assert_eq!(a.distance(&b), 0);
    let c = desc(&[7, 7, 8]);
    assert!(a.distance(&c) > 0);
}

#[test]
fn distance_maximum() {
    let zeros = FeatureDescription::new([0u8; 32]);
    let maxed = FeatureDescription::new([255u8; 32]);
    assert_eq!(zeros.distance(&maxed), 2_080_800);
}

#[test]
fn random_edge_bytes_are_edges() {
    let e = FeatureDescription::random_edge();
    for b in e.data.iter() {
        assert!(*b == 0 || *b == 255);
    }
}

#[test]
fn seeded_random_is_reproducible() {
    let mut s1 = FeatureDescription::seeded_random(99);
    let mut s2 = FeatureDescription::seeded_random(99);
    for _ in 0..5 {
        assert_eq!(s1.next_description().data, s2.next_description().data);
    }
    let mut s3 = FeatureDescription::seeded_random(100);
    let first_99 = FeatureDescription::seeded_random(99).next_description().data;
    assert_ne!(first_99, s3.next_description().data);
}

#[test]
fn new_from_vec_takes_first_32_bytes() {
    let mut v = vec![0u8; 40];
    for i in 0..40 {
        v[i] = i as u8;
    }
    let d = FeatureDescription::new_from_vec(v);
    for i in 0..32 {
        assert_eq!(d.data[i], i as u8);
    }
}
