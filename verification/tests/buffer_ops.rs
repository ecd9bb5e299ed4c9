use framebuffer::{BitOrder, Buffer, Color, Vec2};

fn pixel(buf: &Buffer, x: usize, y: usize) -> Color {
    buf.content[y * buf.size.x + x]
}

fn painted_cells(buf: &Buffer, color: Color) -> Vec<(usize, usize)> {
    let mut cells = Vec::new();
    for y in 0..buf.size.y {
        for x in 0..buf.size.x {
            if pixel(buf, x, y) == color {
                cells.push((x, y));
            }
        }
    }
    cells
}

fn line_cells(start: (usize, usize), stop: (usize, usize)) -> Vec<(usize, usize)> {
    let mut buf = Buffer::new(Vec2 { x: 16, y: 16 }, Color::black());
    buf.draw_line(
        Vec2 { x: start.0, y: start.1 },
        Vec2 { x: stop.0, y: stop.1 },
        Color::white(),
    );
    painted_cells(&buf, Color::white())
}

#[test]
fn new_fills_with_color() {
    let buf = Buffer::new(Vec2 { x: 3, y: 2 }, Color::blue());
    assert_eq!(buf.size, Vec2 { x: 3, y: 2 });
    assert_eq!(buf.content.len(), 6);
    assert!(buf.content.iter().all(|c| *c == Color::blue()));
}

#[test]
fn new_empty_buffer() {
    let buf = Buffer::new(Vec2 { x: 0, y: 5 }, Color::red());
    assert_eq!(buf.content.len(), 0);
}

#[test]
fn put_pixel_updates_one_cell() {
    let mut buf = Buffer::new(Vec2 { x: 4, y: 3 }, Color::white());
    buf.put_pixel(Vec2 { x: 2, y: 1 }, Color::red());
    assert_eq!(buf.content.len(), 12);
    for y in 0..3 {
        for x in 0..4 {
            let want = if (x, y) == (2, 1) { Color::red() } else { Color::white() };
            assert_eq!(pixel(&buf, x, y), want);
        }
    }
}

#[test]
fn scale_by_one_is_identity() {
    let orig = Buffer::heart();
    let scaled = orig.scale(1);
    assert_eq!(scaled.size, orig.size);
    assert_eq!(scaled.content, orig.content);
}

#[test]
fn scale_by_three_makes_uniform_blocks() {
    let mut orig = Buffer::new(Vec2 { x: 2, y: 2 }, Color::white());
    orig.put_pixel(Vec2 { x: 1, y: 0 }, Color::red());
    orig.put_pixel(Vec2 { x: 0, y: 1 }, Color::blue());
    let scaled = orig.scale(3);
    assert_eq!(scaled.size, Vec2 { x: 6, y: 6 });
    assert_eq!(scaled.content.len(), 36);
    for y in 0..6 {
        for x in 0..6 {
            assert_eq!(pixel(&scaled, x, y), pixel(&orig, x / 3, y / 3));
        }
    }
}

#[test]
fn scale_heart_by_five() {
    // An 11 x 9 source scaled by 5 yields size (55, 45).
    let scaled = Buffer::heart().scale(5);
    assert_eq!(scaled.size, Vec2 { x: 55, y: 45 });
    assert_eq!(scaled.content.len(), 55 * 45);
}

#[test]
fn heart_shape() {
    let buf = Buffer::heart();
    assert_eq!(buf.size, Vec2 { x: 11, y: 9 });
    assert_eq!(buf.content.len(), 99);
    // Corners are white, the bottom tip is black, the lobes are red.
    assert_eq!(pixel(&buf, 0, 0), Color::white());
    assert_eq!(pixel(&buf, 10, 8), Color::white());
    assert_eq!(pixel(&buf, 5, 8), Color::black());
    assert_eq!(pixel(&buf, 2, 1), Color::red());
    assert_eq!(pixel(&buf, 5, 3), Color::red());
    assert_eq!(pixel(&buf, 0, 2), Color::black());
}

#[test]
fn from_u8_lsb_leftmost() {
    let mut rows = [0u8; 8];
    rows[0] = 0b0000_0001; // leftmost column of row 0
    rows[7] = 0b1000_0000; // rightmost column of row 7
    let buf = Buffer::from_u8(rows, BitOrder::LsbLeftmost);
    assert_eq!(buf.size, Vec2 { x: 8, y: 8 });
    assert_eq!(pixel(&buf, 0, 0), Color::black());
    assert_eq!(pixel(&buf, 1, 0), Color::white());
    assert_eq!(pixel(&buf, 7, 7), Color::black());
    assert_eq!(pixel(&buf, 0, 7), Color::white());
}

#[test]
fn from_u8_msb_leftmost() {
    let mut rows = [0u8; 8];
    rows[0] = 0b1000_0000; // leftmost column of row 0
    rows[7] = 0b0000_0001; // rightmost column of row 7
    let buf = Buffer::from_u8(rows, BitOrder::MsbLeftmost);
    assert_eq!(pixel(&buf, 0, 0), Color::black());
    assert_eq!(pixel(&buf, 7, 0), Color::white());
    assert_eq!(pixel(&buf, 7, 7), Color::black());
    assert_eq!(pixel(&buf, 0, 7), Color::white());
}

#[test]
fn draw_line_single_point() {
    // A segment from a point to itself touches exactly that point.
    let cells = line_cells((5, 5), (5, 5));
    assert_eq!(cells, vec![(5, 5)]);
}

#[test]
fn draw_line_horizontal_symmetric() {
    let forward = line_cells((2, 4), (9, 4));
    let backward = line_cells((9, 4), (2, 4));
    let want: Vec<(usize, usize)> = (2..=9).map(|x| (x, 4)).collect();
    assert_eq!(forward, want);
    assert_eq!(backward, want);
}

#[test]
fn draw_line_vertical_symmetric() {
    let down = line_cells((3, 1), (3, 7));
    let up = line_cells((3, 7), (3, 1));
    let want: Vec<(usize, usize)> = (1..=7).map(|y| (3, y)).collect();
    assert_eq!(down, want);
    assert_eq!(up, want);
}

#[test]
fn draw_line_diagonal_symmetric() {
    let forward = line_cells((0, 0), (4, 4));
    let backward = line_cells((4, 4), (0, 0));
    let want: Vec<(usize, usize)> = (0..=4).map(|i| (i, i)).collect();
    assert_eq!(forward, want);
    assert_eq!(backward, want);
    let rising = line_cells((0, 4), (4, 0));
    let falling = line_cells((4, 0), (0, 4));
    let want_rising: Vec<(usize, usize)> = (0..=4).map(|i| (4 - i, i)).collect();
    assert_eq!(rising, want_rising);
    assert_eq!(falling, want_rising);
}

#[test]
fn draw_line_touches_endpoints_and_keeps_length() {
    let mut buf = Buffer::new(Vec2 { x: 16, y: 16 }, Color::black());
    buf.draw_line(Vec2 { x: 1, y: 14 }, Vec2 { x: 13, y: 2 }, Color::green());
    assert_eq!(buf.content.len(), 256);
    assert_eq!(pixel(&buf, 1, 14), Color::green());
    assert_eq!(pixel(&buf, 13, 2), Color::green());
}
