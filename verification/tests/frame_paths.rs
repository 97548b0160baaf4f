use vp_tree_database::features_database::get_k_from_cli;
use vp_tree_database::frame_info::FrameInfo;

#[test]
fn frame_from_image_path() {
    let frame = FrameInfo::new_from_static_image_path("./images/0123abcd.png");
    assert_eq!(frame.copy_md5(), "0123abcd");
    assert_eq!(frame.copy_ext(), "png");
    assert_eq!(frame.get_id(), 0);
}

#[test]
fn frame_from_bare_name() {
    let frame = FrameInfo::new_from_static_image_path("cafe.jpeg.backup");
    assert_eq!(frame.copy_md5(), "cafe");
    assert_eq!(frame.copy_ext(), "jpeg");
}

#[test]
fn k_parses_and_clamps() {
    assert_eq!(get_k_from_cli(Some("42")), 42);
    assert_eq!(get_k_from_cli(Some("+7")), 7);
    assert_eq!(get_k_from_cli(Some("0")), 1);
    assert_eq!(get_k_from_cli(Some("2000")), 1000);
    assert_eq!(get_k_from_cli(Some("abc")), 100);
    assert_eq!(get_k_from_cli(Some("")), 100);
    assert_eq!(get_k_from_cli(Some("99999999999999999999999")), 100);
    assert_eq!(get_k_from_cli(None), 100);
}
