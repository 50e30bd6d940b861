use terma::renderer::{
    cells_argument, center_cursor, imgcat_sequence, inject_kitty_z_index, kitty_place_argument, png_chunk, probe_png,
    probe_sequence, warning_rows, DisplayAttempt, SixelRenderer,
};
use terma::terminal::TerminalType;

use DisplayAttempt::{ChafaPage, ChafaSpread, KittyPage, KittySpread, WezTermPage, WezTermSpread};

#[test]
fn renderer_follows_the_terminal() {
    let r = SixelRenderer::new(TerminalType::Kitty, false, false);
    assert!(r.is_kitty && !r.is_wezterm && !r.chafa_required && !r.use_chafa);
    let r = SixelRenderer::new(TerminalType::WezTerm, true, false);
    assert!(!r.is_kitty && r.is_wezterm && !r.chafa_required && r.use_chafa);
    let r = SixelRenderer::new(TerminalType::Sixel, true, true);
    assert!(!r.is_kitty && !r.is_wezterm && r.chafa_required);
}

#[test]
fn probe_decides_without_chafa() {
    assert!(SixelRenderer::needs_probe(TerminalType::Unknown, false));
    assert!(SixelRenderer::needs_probe(TerminalType::Sixel, false));
    assert!(!SixelRenderer::needs_probe(TerminalType::Sixel, true));
    assert!(!SixelRenderer::needs_probe(TerminalType::Kitty, false));
    let r = SixelRenderer::new(TerminalType::Unknown, false, true);
    assert!(r.is_wezterm && !r.chafa_required);
    let r = SixelRenderer::new(TerminalType::Unknown, false, false);
    assert!(!r.is_wezterm && r.chafa_required);
}

#[test]
fn single_page_plans() {
    let kitty = SixelRenderer::new(TerminalType::Kitty, true, false);
    assert_eq!(kitty.display_single(), vec![ChafaPage, KittyPage]);
    assert_eq!(kitty.display_cover(), vec![ChafaPage, KittyPage]);
    let wez = SixelRenderer::new(TerminalType::WezTerm, false, false);
    assert_eq!(wez.display_single(), vec![WezTermPage]);
    let sixel = SixelRenderer::new(TerminalType::Sixel, true, false);
    assert_eq!(sixel.display_single(), vec![ChafaPage, ChafaPage]);
    let none = SixelRenderer::new(TerminalType::Unknown, false, false);
    assert_eq!(none.display_single(), Vec::<DisplayAttempt>::new());
}

#[test]
fn spread_plans() {
    let kitty = SixelRenderer::new(TerminalType::Kitty, true, false);
    assert_eq!(kitty.display_spread(true), vec![ChafaSpread, KittySpread, ChafaPage, KittyPage]);
    assert_eq!(kitty.display_spread(false), vec![ChafaPage, KittyPage]);
    let wez = SixelRenderer::new(TerminalType::WezTerm, false, false);
    assert_eq!(wez.display_spread(true), vec![WezTermSpread, WezTermPage]);
    let sixel = SixelRenderer::new(TerminalType::Sixel, true, false);
    assert_eq!(sixel.display_spread(true), vec![ChafaSpread, ChafaSpread, ChafaPage, ChafaPage]);
    let none = SixelRenderer::new(TerminalType::Unknown, false, false);
    assert_eq!(none.display_spread(true), Vec::<DisplayAttempt>::new());
}

#[test]
fn z_index_is_appended() {
    let out = inject_kitty_z_index(b"\x1b_Ga=T,f=100;AAAA\x1b\\", -1);
    assert_eq!(out, b"\x1b_Ga=T,f=100,z=-1;AAAA\x1b\\".to_vec());
    let out = inject_kitty_z_index(b"xx\x1b_Gq=2\x1b\\", 3);
    assert_eq!(out, b"xx\x1b_Gq=2,z=3\x1b\\".to_vec());
}

#[test]
fn z_index_is_replaced() {
    let out = inject_kitty_z_index(b"\x1b_Ga=T,z=5,f=100;AAAA", -1073741825);
    assert_eq!(out, b"\x1b_Ga=T,z=-1073741825,f=100;AAAA".to_vec());
    let out = inject_kitty_z_index(b"\x1b_Gz=12;", 0);
    assert_eq!(out, b"\x1b_Gz=0;".to_vec());
}

#[test]
fn z_index_leaves_other_data() {
    assert_eq!(inject_kitty_z_index(b"hello", 1), b"hello".to_vec());
    assert_eq!(inject_kitty_z_index(b"\x1b_Ga=T", 1), b"\x1b_Ga=T".to_vec());
    assert_eq!(inject_kitty_z_index(b"", 1), Vec::<u8>::new());
    // only the first command changes
    let out = inject_kitty_z_index(b"\x1b_Ga;\x1b_Gb;", 2);
    assert_eq!(out, b"\x1b_Ga,z=2;\x1b_Gb;".to_vec());
}

#[test]
fn z_index_with_binary_parameters() {
    // parameters that are not text are dropped and the z entry alone is kept
    let out = inject_kitty_z_index(b"\x1b_G\xff;x", 1);
    assert_eq!(out, b"\x1b_,z=1;x".to_vec());
}

#[test]
fn png_chunks_carry_length_and_crc() {
    assert_eq!(png_chunk(b"IEND", &[]), vec![0, 0, 0, 0, 0x49, 0x45, 0x4E, 0x44, 0xAE, 0x42, 0x60, 0x82]);
    let c = png_chunk(b"tEXt", b"ab");
    assert_eq!(&c[0..4], &[0, 0, 0, 2]);
    assert_eq!(&c[4..10], b"tEXtab");
    assert_eq!(c.len(), 14);
}

#[test]
fn probe_image_is_a_png() {
    let png = probe_png();
    assert_eq!(&png[0..8], &[0x89, 0x50, 0x4e, 0x47, 0x0d, 0x0a, 0x1a, 0x0a]);
    assert_eq!(&png[8..16], &[0, 0, 0, 13, 0x49, 0x48, 0x44, 0x52]);
    assert_eq!(&png[16..29], &[0, 0, 0, 1, 0, 0, 0, 1, 8, 2, 0, 0, 0]);
    assert_eq!(&png[png.len() - 12..], &[0, 0, 0, 0, 0x49, 0x45, 0x4E, 0x44, 0xAE, 0x42, 0x60, 0x82]);
    assert_eq!(&png[37..41], b"IDAT");
    // the pixel data is zlib-compressed: a zlib header and more than the raw four bytes
    let idat_len = u32::from_be_bytes([png[33], png[34], png[35], png[36]]) as usize;
    assert!(idat_len > 6);
    assert_eq!(png[41], 0x78);
    assert_eq!(png.len(), 8 + 25 + 12 + idat_len + 12);
}

#[test]
fn imgcat_sequence_encodes_base64() {
    assert_eq!(imgcat_sequence(&[0, 1, 2]), "\x1b]1337;File=inline=1;size=3:AAEC\x07");
    assert_eq!(imgcat_sequence(&[]), "\x1b]1337;File=inline=1;size=0:\x07");
    let seq = probe_sequence().unwrap();
    let len = probe_png().len();
    assert!(seq.starts_with(&format!("\x1b]1337;File=inline=1;size={}:", len)));
    assert!(seq.ends_with('\x07'));
}

#[test]
fn chafa_arguments() {
    assert_eq!(SixelRenderer::new(TerminalType::Kitty, true, false).chafa_format(), "kitty");
    assert_eq!(SixelRenderer::new(TerminalType::Sixel, true, false).chafa_format(), "sixels");
    assert_eq!(cells_argument(80, 24), "80x24");
    assert_eq!(cells_argument(0, 0), "0x0");
    assert_eq!(kitty_place_argument(10, 5), "10x5@0x0");
}

#[test]
fn centring_the_cursor() {
    assert_eq!(center_cursor(40, 100), Some("\x1b[1;31H".to_string()));
    assert_eq!(center_cursor(97, 100), Some("\x1b[1;2H".to_string()));
    assert_eq!(center_cursor(99, 100), None);
    assert_eq!(center_cursor(100, 100), None);
    assert_eq!(center_cursor(120, 100), None);
}

#[test]
fn warning_lines_stay_above_the_status_row() {
    assert_eq!(warning_rows(24, 3), vec![Some(11), Some(12), Some(13)]);
    assert_eq!(warning_rows(4, 3), vec![Some(1), Some(2), None]);
    assert_eq!(warning_rows(2, 3), vec![None, None, None]);
    assert_eq!(warning_rows(24, 0), Vec::<Option<usize>>::new());
}
