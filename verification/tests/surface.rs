use framebuffer::{
    flush_status, Buffer, Color, FbBitfield, FbError, FbFixScreenInfo, FbGUI, FbVarScreenInfo,
    Framebuffer, Vec2,
};

fn bf(offset: u32, length: u32) -> FbBitfield {
    FbBitfield { offset, length, msb_right: 0 }
}

fn var_info(x_res: u32, y_res: u32) -> FbVarScreenInfo {
    FbVarScreenInfo {
        x_res,
        y_res,
        x_res_virtual: x_res,
        y_res_virtual: y_res,
        x_offset: 0,
        y_offset: 0,
        bits_per_pixel: 32,
        grayscale: 0,
        red: bf(16, 8),
        green: bf(8, 8),
        blue: bf(0, 8),
        transparent: bf(24, 8),
        non_std: 0,
        activate: 0,
        height: 0,
        width: 0,
        acceleration_flags: 0,
        pixel_clock: 0,
        left_margin: 0,
        right_margin: 0,
        upper_margin: 0,
        lower_margin: 0,
        hsync_len: 0,
        vsync_len: 0,
        sync: 0,
        v_mode: 0,
        rotate: 0,
        colorspace: 0,
    }
}

fn fix_info(line_length: u32) -> FbFixScreenInfo {
    FbFixScreenInfo {
        id: [0; 16],
        s_mem_start: 0,
        s_mem_len: 0,
        fb_type: 0,
        type_aux: 0,
        visual: 0,
        x_pan_step: 0,
        y_pan_step: 0,
        y_wrap_step: 0,
        line_length,
        memory_mapped_io_start: 0,
        memory_mapped_io_len: 0,
        acceleration: 0,
        capabilities: 0,
    }
}

/// A canvas over an anonymous mapping: x_res x y_res pixels of 32 bits,
/// `stride` bytes per scanline.
fn canvas(x_res: u32, y_res: u32, stride: u32) -> FbGUI {
    let frame = memmap::MmapMut::map_anon((stride * y_res) as usize).unwrap();
    let fb = Framebuffer::new(frame, var_info(x_res, y_res), fix_info(stride)).unwrap();
    FbGUI::new(fb)
}

fn bytes(gui: &FbGUI) -> Vec<u8> {
    let n = gui.framebuffer.frame_len();
    (0..n).map(|i| gui.framebuffer.byte_at(i)).collect()
}

#[test]
fn new_rejects_unpackable_format() {
    let frame = memmap::MmapMut::map_anon(16).unwrap();
    let mut var = var_info(2, 2);
    var.bits_per_pixel = 30;
    let r = Framebuffer::new(frame, var, fix_info(8));
    assert!(matches!(r, Err(FbError::UnsupportedConfiguration)));
}

#[test]
fn new_rejects_wrong_mapping_length() {
    let frame = memmap::MmapMut::map_anon(15).unwrap();
    let r = Framebuffer::new(frame, var_info(2, 2), fix_info(8));
    assert!(matches!(r, Err(FbError::MappingFailed)));
}

#[test]
fn new_rejects_short_stride() {
    let frame = memmap::MmapMut::map_anon(12).unwrap();
    // Two 4-byte pixels per row need stride >= 8.
    let r = Framebuffer::new(frame, var_info(2, 2), fix_info(6));
    assert!(matches!(r, Err(FbError::MappingFailed)));
}

#[test]
fn fill_black_then_white_saturates_rows() {
    // A 2 x 2 surface with stride 8: fill(black) then fill(white) leaves
    // all 8 stride bytes of each row equal to 0xFF.
    let mut gui = canvas(2, 2, 8);
    gui.fill(Color::black());
    gui.fill(Color::white());
    let all = bytes(&gui);
    assert_eq!(all.len(), 16);
    assert!(all.iter().all(|b| *b == 0xFF));
}

#[test]
fn fill_writes_every_byte_of_padded_stride() {
    // stride 12 > 2 pixels x 4 bytes: the padding is tiled too, and nothing
    // beyond stride x height is mapped at all.
    let mut gui = canvas(2, 2, 12);
    gui.fill(Color::red());
    let all = bytes(&gui);
    assert_eq!(all.len(), 24);
    // red packs to 0x00FF0000: little-endian bytes [0, 0, 0xFF, 0].
    for (i, b) in all.iter().enumerate() {
        let want = if i % 4 == 2 { 0xFF } else { 0x00 };
        assert_eq!(*b, want, "byte {}", i);
    }
}

#[test]
fn set_pixel_writes_exactly_one_strip() {
    let mut gui = canvas(2, 2, 8);
    gui.fill(Color::black());
    gui.set_pixel(1, 1, Color::green());
    let all = bytes(&gui);
    // green packs to 0x0000FF00: bytes [0, 0xFF, 0, 0].
    for i in 0..16 {
        let want = if i == 13 { 0xFF } else { 0x00 };
        assert_eq!(all[i], want, "byte {}", i);
    }
}

#[test]
fn horizontal_line_tiles_whole_row() {
    let mut gui = canvas(2, 2, 12);
    gui.fill(Color::black());
    gui.horizontal_line(1, Color::blue());
    let all = bytes(&gui);
    // blue packs to 0x000000FF: bytes [0xFF, 0, 0, 0].
    for i in 0..24 {
        let want = if i >= 12 && (i - 12) % 4 == 0 { 0xFF } else { 0x00 };
        assert_eq!(all[i], want, "byte {}", i);
    }
}

#[test]
fn part_horizontal_line_covers_half_open_range() {
    let mut gui = canvas(4, 1, 16);
    gui.fill(Color::black());
    gui.part_horizontal_line(0, 1, 3, Color::blue());
    let all = bytes(&gui);
    for i in 0..16 {
        let in_range = i >= 4 && i < 12;
        let want = if in_range && i % 4 == 0 { 0xFF } else { 0x00 };
        assert_eq!(all[i], want, "byte {}", i);
    }
}

#[test]
fn vertical_line_writes_every_row() {
    let mut gui = canvas(2, 3, 8);
    gui.fill(Color::black());
    gui.vertical_line(1, Color::blue());
    let all = bytes(&gui);
    for i in 0..24 {
        let col = i % 8;
        let want = if col == 4 { 0xFF } else { 0x00 };
        assert_eq!(all[i], want, "byte {}", i);
    }
}

#[test]
fn part_vertical_line_covers_half_open_range() {
    let mut gui = canvas(2, 4, 8);
    gui.fill(Color::black());
    gui.part_vertical_line(0, 1, 3, Color::blue());
    let all = bytes(&gui);
    for i in 0..32 {
        let row = i / 8;
        let col = i % 8;
        let want = if (1..3).contains(&row) && col == 0 { 0xFF } else { 0x00 };
        assert_eq!(all[i], want, "byte {}", i);
    }
}

#[test]
fn write_buf_blits_cells_in_place() {
    let mut gui = canvas(3, 3, 12);
    gui.fill(Color::black());
    let mut buf = Buffer::new(Vec2 { x: 2, y: 2 }, Color::blue());
    buf.put_pixel(Vec2 { x: 1, y: 0 }, Color::red());
    gui.write_buf(1, 1, &buf);
    let all = bytes(&gui);
    let pixel_at = |x: usize, y: usize| {
        let base = y * 12 + x * 4;
        [all[base], all[base + 1], all[base + 2], all[base + 3]]
    };
    let blue = [0xFF, 0x00, 0x00, 0x00];
    let red = [0x00, 0x00, 0xFF, 0x00];
    let black = [0x00, 0x00, 0x00, 0x00];
    assert_eq!(pixel_at(0, 0), black);
    assert_eq!(pixel_at(1, 1), blue);
    assert_eq!(pixel_at(2, 1), red);
    assert_eq!(pixel_at(1, 2), blue);
    assert_eq!(pixel_at(2, 2), blue);
    assert_eq!(pixel_at(0, 2), black);
}

#[test]
fn write_frame_replaces_all_bytes() {
    let mut gui = canvas(2, 2, 8);
    let data: Vec<u8> = (0..16).map(|i| i as u8).collect();
    let r = gui.framebuffer.write_frame(&data);
    assert!(r.is_ok());
    assert_eq!(bytes(&gui), data);
}

#[test]
fn update_succeeds_on_anonymous_mapping() {
    let mut gui = canvas(2, 2, 8);
    gui.fill(Color::white());
    assert!(gui.update().is_ok());
}

#[test]
fn flush_status_allow_list() {
    assert!(flush_status(None).is_ok());
    // The benign platform quirk: an error-coded "no error" is success.
    assert!(flush_status(Some(Some(0))).is_ok());
    assert!(matches!(
        flush_status(Some(Some(5))),
        Err(FbError::SyncFailed { status: Some(5) })
    ));
    assert!(matches!(
        flush_status(Some(None)),
        Err(FbError::SyncFailed { status: None })
    ));
}

#[test]
fn byte_at_reads_back_writes() {
    let mut gui = canvas(2, 1, 8);
    gui.fill(Color::black());
    gui.set_pixel(0, 0, Color::white());
    assert_eq!(gui.framebuffer.byte_at(0), 0xFF);
    assert_eq!(gui.framebuffer.byte_at(4), 0x00);
    assert_eq!(gui.framebuffer.frame_len(), 8);
}
