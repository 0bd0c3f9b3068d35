use bruc_core::color::{base_palette, hex_colors, rgb_to_hex, PALETTE_SIZE};

#[test]
fn formats_colors_in_hexadecimal() {
    assert_eq!(rgb_to_hex(31, 119, 180), "#1F77B4");
    assert_eq!(rgb_to_hex(0, 0, 0), "#000000");
    assert_eq!(rgb_to_hex(255, 255, 255), "#FFFFFF");
    assert_eq!(rgb_to_hex(10, 160, 9), "#0AA009");
}

#[test]
fn lists_the_base_palette() {
    let palette = base_palette();
    assert_eq!(palette.len(), PALETTE_SIZE);

    let colors = hex_colors(&palette);
    assert_eq!(colors[0], "#1F77B4");
    assert_eq!(colors[1], "#FF7F0E");
    assert_eq!(colors[9], "#17BECF");
    assert_eq!(colors[20], "#FFFF33");
    assert_eq!(colors[29], "#00BFFF");
    assert_eq!(colors.len(), 30);
}
