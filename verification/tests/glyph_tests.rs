use pastemaxx::glyph::{tray_glyph_rgba, GLYPH_SIZE};

fn alpha(rgba: &[u8], x: usize, y: usize) -> u8 {
    rgba[(y * GLYPH_SIZE + x) * 4 + 3]
}

#[test]
fn tray_glyph_shape() {
    let rgba = tray_glyph_rgba();
    assert_eq!(rgba.len(), 44 * 44 * 4);
    // color channels are always black
    assert!(rgba.chunks(4).all(|p| p[0] == 0 && p[1] == 0 && p[2] == 0));
    assert_eq!(alpha(&rgba, 0, 0), 0);
    // rounded corner of the board is knocked out
    assert_eq!(alpha(&rgba, 8, 8), 0);
    // board outline
    assert_eq!(alpha(&rgba, 9, 20), 255);
    // punched-out inside
    assert_eq!(alpha(&rgba, 20, 15), 0);
    // the inside has rounded corners too, so the outline is thicker there
    assert_eq!(alpha(&rgba, 12, 35), 255);
    // a text line drawn over the inside
    assert_eq!(alpha(&rgba, 20, 20), 255);
    // the shorter last line
    assert_eq!(alpha(&rgba, 26, 31), 0);
    assert_eq!(alpha(&rgba, 24, 31), 255);
    // the clip tab sticks out above the board
    assert_eq!(alpha(&rgba, 20, 5), 255);
    let on = rgba.chunks(4).filter(|p| p[3] == 255).count();
    assert!(on > 100 && on < 44 * 44);
}
