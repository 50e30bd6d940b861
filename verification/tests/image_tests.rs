use terma::chafa_render::convert_image;
use terma::image::is_landscape;

#[test]
fn landscape_means_wider_than_tall() {
    assert!(is_landscape(Some((200, 100))));
    assert!(!is_landscape(Some((100, 100))));
    assert!(!is_landscape(Some((100, 200))));
    assert!(!is_landscape(Some((100, 0))));
    assert!(!is_landscape(Some((0, 0))));
    assert!(!is_landscape(None));
}

#[test]
fn converted_output_is_framed() {
    assert_eq!(convert_image("", 80, 24), None);
    assert_eq!(convert_image("\x1bPq#0;2;0;0;0\x1b\\", 80, 24), Some((b"\x1bPq#0;2;0;0;0\x1b\\".to_vec(), (80, 24))));
    assert_eq!(convert_image("é", 1, 2), Some((vec![0xc3, 0xa9], (1, 2))));
}
