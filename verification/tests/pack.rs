use framebuffer::{Color, FbBitfield, FbVarScreenInfo};

fn bf(offset: u32, length: u32) -> FbBitfield {
    FbBitfield { offset, length, msb_right: 0 }
}

fn var_info(bpp: u32, red: FbBitfield, green: FbBitfield, blue: FbBitfield, transparent: FbBitfield) -> FbVarScreenInfo {
    FbVarScreenInfo {
        x_res: 0,
        y_res: 0,
        x_res_virtual: 0,
        y_res_virtual: 0,
        x_offset: 0,
        y_offset: 0,
        bits_per_pixel: bpp,
        grayscale: 0,
        red,
        green,
        blue,
        transparent,
        non_std: 0,
        activate: 0,
        height: 0,
        width: 0,
        acceleration_flags: 0,
        pixel_clock: 0,
        left_margin: 0,
        right_margin: 0,
        upper_margin: 0,
        lower_margin: 0,
        hsync_len: 0,
        vsync_len: 0,
        sync: 0,
        v_mode: 0,
        rotate: 0,
        colorspace: 0,
    }
}

fn argb8888() -> FbVarScreenInfo {
    var_info(32, bf(16, 8), bf(8, 8), bf(0, 8), bf(24, 8))
}

#[test]
fn apply_bitfield_places_top_bits() {
    // Top 5 bits of 0b1010_1010 are 0b10101, shifted to bit 11.
    let b = bf(11, 5);
    assert_eq!(b.apply_bitfield(0b1010_1010), 0b10101 << 11);
    // A full 8-bit field at offset 0 keeps the value.
    assert_eq!(bf(0, 8).apply_bitfield(0xAB), 0xAB);
    // A zero-length field contributes nothing.
    assert_eq!(bf(5, 0).apply_bitfield(0xFF), 0);
}

#[test]
fn pack_red_opaque_scenario() {
    // bpp=32, R{16,8}, G{8,8}, B{0,8}, A{24,8}: packing opaque red gives
    // little-endian bytes [0x00, 0x00, 0xFF, 0xFF].
    let info = argb8888();
    let c = Color { r: 255, g: 0, b: 0, a: 255 };
    assert_eq!(c.to_bitfield(&info), vec![0x00, 0x00, 0xFF, 0xFF]);
}

#[test]
fn pack_length_follows_bpp() {
    // RGB565 in 16 bits per pixel packs to two bytes.
    let info = var_info(16, bf(11, 5), bf(5, 6), bf(0, 5), bf(0, 0));
    let c = Color { r: 255, g: 255, b: 255, a: 0 };
    let bytes = c.to_bitfield(&info);
    assert_eq!(bytes.len(), 2);
    assert_eq!(bytes, vec![0xFF, 0xFF]);
}

#[test]
fn pack_extract_round_trip_rgb565() {
    // Re-extracting each channel recovers the top `length` bits.
    let info = var_info(16, bf(11, 5), bf(5, 6), bf(0, 5), bf(0, 0));
    let c = Color { r: 0b1011_0101, g: 0b0110_1010, b: 0b1110_0011, a: 0 };
    let bytes = c.to_bitfield(&info);
    let pixel = (bytes[0] as u32) | ((bytes[1] as u32) << 8);
    let extract = |off: u32, len: u32| (pixel >> off) & ((1u32 << len) - 1);
    assert_eq!(extract(11, 5), (c.r as u32) >> 3);
    assert_eq!(extract(5, 6), (c.g as u32) >> 2);
    assert_eq!(extract(0, 5), (c.b as u32) >> 3);
}

#[test]
fn pack_extract_round_trip_argb8888() {
    let info = argb8888();
    let c = Color { r: 0x12, g: 0x34, b: 0x56, a: 0x78 };
    let bytes = c.to_bitfield(&info);
    let pixel = (bytes[0] as u32)
        | ((bytes[1] as u32) << 8)
        | ((bytes[2] as u32) << 16)
        | ((bytes[3] as u32) << 24);
    assert_eq!((pixel >> 16) & 0xFF, 0x12);
    assert_eq!((pixel >> 8) & 0xFF, 0x34);
    assert_eq!(pixel & 0xFF, 0x56);
    assert_eq!((pixel >> 24) & 0xFF, 0x78);
}

#[test]
fn named_colors() {
    assert_eq!(Color::white(), Color { r: 255, g: 255, b: 255, a: 255 });
    assert_eq!(Color::black(), Color { r: 0, g: 0, b: 0, a: 0 });
    assert_eq!(Color::red(), Color { r: 255, g: 0, b: 0, a: 0 });
    assert_eq!(Color::green(), Color { r: 0, g: 255, b: 0, a: 0 });
    assert_eq!(Color::blue(), Color { r: 0, g: 0, b: 255, a: 0 });
}
