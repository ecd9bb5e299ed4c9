use vstd::prelude::*;

use crate::gui::Color;

verus! {

/// A two-dimensional extent or position, in whole pixels.
#[derive(Clone, Copy, Debug, PartialEq, Eq, Structural)]
pub struct Vec2 {
    pub x: usize,
    pub y: usize,
}

/// Which bit of a glyph-bitmap byte maps to the leftmost pixel column.
#[derive(Clone, Copy, Debug, PartialEq, Eq, Structural)]
pub enum BitOrder {
    /// Bit 0 of each byte is the leftmost column.
    LsbLeftmost,
    /// Bit 7 of each byte is the leftmost column.
    MsbLeftmost,
}

/// A device-independent 2-D grid of RGBA pixels, stored row-major.
pub struct Buffer {
    pub content: Vec<Color>,
    pub size: Vec2,
}

impl Buffer {
    /// The content holds exactly width x height cells.
    pub open spec fn wf(self) -> bool {
        self.content@.len() == self.size.x * self.size.y
    }

    /// The color of the cell at column `x`, row `y`.
    pub open spec fn spec_pixel_at(self, x: int, y: int) -> Color {
        self.content@[y * self.size.x + x]
    }

    /// Allocates a width x height grid filled with `color`.
    pub fn new(size: Vec2, color: Color) -> (r: Buffer)
        requires
            size.x * size.y <= usize::MAX,
        ensures
            r.size == size,
            r.wf(),
            forall|i: int| 0 <= i < r.content@.len() ==> r.content@[i] == color,
    {
        let n = size.x * size.y;
        let mut content: Vec<Color> = Vec::new();
        let mut i: usize = 0;
        while i < n
            invariant
                i <= n,
                content@.len() == i,
                forall|j: int| 0 <= j < i ==> content@[j] == color,
            decreases n - i,
        {
            content.push(color);
            i = i + 1;
        }
        Buffer { content, size }
    }

    /// Overwrites the cell at `p` with `color`.
    pub fn put_pixel(&mut self, p: Vec2, color: Color)
        requires
            old(self).wf(),
            p.x < old(self).size.x,
            p.y < old(self).size.y,
        ensures
            final(self).size == old(self).size,
            final(self).wf(),
            final(self).content@ == old(self).content@.update(
                p.y * old(self).size.x + p.x,
                color,
            ),
    {
        proof {
            lemma_row_major_index_bound(
                self.size.x as int,
                self.size.y as int,
                p.x as int,
                p.y as int,
            );
        }
        let len = self.content.len();
        assert(p.y * self.size.x + p.x < len);
        let idx = p.y * self.size.x + p.x;
        self.content[idx] = color;
    }
}

/// Whether `scaled` is `orig` magnified by the integer factor `k`: the size
/// grows from (w, h) to (w*k, h*k) and every cell of `scaled` carries the
/// color of the source cell it covers.
pub open spec fn spec_is_scaled(orig: Buffer, scaled: Buffer, k: int) -> bool {
    &&& scaled.size.x == orig.size.x * k
    &&& scaled.size.y == orig.size.y * k
    &&& scaled.wf()
    &&& forall|nx: int, ny: int|
        0 <= nx < scaled.size.x && 0 <= ny < scaled.size.y ==> scaled.spec_pixel_at(nx, ny)
            == orig.spec_pixel_at(nx / k, ny / k)
}

/// Every k x k block of a scaled buffer is uniform, with the color of the
/// source pixel it magnifies.
pub proof fn lemma_scale_block(orig: Buffer, scaled: Buffer, k: int, x: int, y: int, i: int, j: int)
    requires
        spec_is_scaled(orig, scaled, k),
        k > 0,
        0 <= x < orig.size.x,
        0 <= y < orig.size.y,
        0 <= i < k,
        0 <= j < k,
    ensures
        scaled.spec_pixel_at(x * k + i, y * k + j) == orig.spec_pixel_at(x, y),
{
    assert(x * k + i < orig.size.x * k && y * k + j < orig.size.y * k) by (nonlinear_arith)
        requires
            0 <= x < orig.size.x,
            0 <= y < orig.size.y,
            0 <= i < k,
            0 <= j < k,
    ;
    assert(x * k + i >= 0 && y * k + j >= 0) by (nonlinear_arith)
        requires
            x >= 0,
            y >= 0,
            i >= 0,
            j >= 0,
            k > 0,
    ;
    lemma_rowcol(x * k + i, k, x, i);
    lemma_rowcol(y * k + j, k, y, j);
}

impl Buffer {
    /// A new buffer of size (w*k, h*k); each source pixel becomes a k x k
    /// block of its color. The original is left unchanged.
    pub fn scale(&self, scale: usize) -> (r: Buffer)
        requires
            self.wf(),
            self.size.x * scale <= usize::MAX,
            self.size.y * scale <= usize::MAX,
            (self.size.x * scale) * (self.size.y * scale) <= usize::MAX,
        ensures
            spec_is_scaled(*self, r, scale as int),
    {
        let w = self.size.x;
        let h = self.size.y;
        let nw = w * scale;
        let nh = h * scale;
        let len = self.content.len();
        let mut content: Vec<Color> = Vec::new();
        let mut ny: usize = 0;
        while ny < nh
            invariant
                ny <= nh,
                nw == w * scale,
                nh == h * scale,
                w == self.size.x,
                h == self.size.y,
                len == self.content@.len(),
                self.wf(),
                content@.len() == ny * nw,
                forall|j: int|
                    0 <= j < content@.len() ==> content@[j] == self.spec_pixel_at(
                        (j % (nw as int)) / (scale as int),
                        (j / (nw as int)) / (scale as int),
                    ),
            decreases nh - ny,
        {
            proof {
                assert(scale >= 1) by (nonlinear_arith)
                    requires
                        ny < nh,
                        ny >= 0,
                        nh == h * scale,
                ;
                lemma_div_bound(ny as int, scale as int, h as int);
            }
            let sy = ny / scale;
            let mut nx: usize = 0;
            while nx < nw
                invariant
                    nx <= nw,
                    ny < nh,
                    nw == w * scale,
                    nh == h * scale,
                    w == self.size.x,
                    h == self.size.y,
                    len == self.content@.len(),
                    self.wf(),
                    scale >= 1,
                    sy == ny as int / scale as int,
                    sy < h,
                    content@.len() == ny * nw + nx,
                    forall|j: int|
                        0 <= j < content@.len() ==> content@[j] == self.spec_pixel_at(
                            (j % (nw as int)) / (scale as int),
                            (j / (nw as int)) / (scale as int),
                        ),
                decreases nw - nx,
            {
                proof {
                    lemma_div_bound(nx as int, scale as int, w as int);
                    lemma_row_major_index_bound(
                        w as int,
                        h as int,
                        nx as int / scale as int,
                        sy as int,
                    );
                    lemma_row_major_index_bound(nw as int, nh as int, nx as int, ny as int);
                    lemma_rowcol(ny * nw + nx, nw as int, ny as int, nx as int);
                }
                let sx = nx / scale;
                let c = self.content[sy * w + sx];
                content.push(c);
                nx = nx + 1;
            }
            proof {
                assert((ny + 1) * nw == ny * nw + nw) by (nonlinear_arith);
            }
            ny = ny + 1;
        }
        let r = Buffer { content, size: Vec2 { x: nw, y: nh } };
        proof {
            assert forall|px: int, py: int|
                0 <= px < r.size.x && 0 <= py < r.size.y implies r.spec_pixel_at(px, py)
                == self.spec_pixel_at(px / (scale as int), py / (scale as int)) by {
                let j = py * (nw as int) + px;
                assert(scale >= 1) by (nonlinear_arith)
                    requires
                        py < nh,
                        py >= 0,
                        nh == h * scale,
                ;
                lemma_row_major_index_bound(nw as int, nh as int, px, py);
                lemma_rowcol(j, nw as int, py, px);
                assert(r.content@.len() == (nh as int) * (nw as int));
                assert((nw as int) * (nh as int) == (nh as int) * (nw as int)) by (nonlinear_arith);
                assert(0 <= j < r.content@.len());
                assert(r.content@[j] == self.spec_pixel_at(
                    (j % (nw as int)) / (scale as int),
                    (j / (nw as int)) / (scale as int),
                ));
                assert(r.content@[j] == self.spec_pixel_at(
                    px / (scale as int),
                    py / (scale as int),
                ));
                assert(r.spec_pixel_at(px, py) == r.content@[j]);
            }
            assert((nw as int) * (nh as int) == (nh as int) * (nw as int)) by (nonlinear_arith);
            assert(r.wf());
        }
        r
    }
}

/// Row `y` of the heart glyph: the columns that are black, as a bit mask
/// with bit `x` standing for column `x`.
pub open spec fn spec_heart_black_row(y: int) -> u32 {
    if y == 0 {
        0x18C
    } else if y == 1 {
        0x252
    } else if y == 2 {
        0x421
    } else if y == 3 {
        0x401
    } else if y == 4 {
        0x202
    } else if y == 5 {
        0x104
    } else if y == 6 {
        0x88
    } else if y == 7 {
        0x50
    } else {
        0x20
    }
}

/// Row `y` of the heart glyph: the columns that are red, as a bit mask.
pub open spec fn spec_heart_red_row(y: int) -> u32 {
    if y == 1 {
        0x18C
    } else if y == 2 {
        0x3DE
    } else if y == 3 {
        0x3FE
    } else if y == 4 {
        0x1FC
    } else if y == 5 {
        0xF8
    } else if y == 6 {
        0x70
    } else if y == 7 {
        0x20
    } else {
        0
    }
}

/// The color of the heart glyph at column `x`, row `y`: black outline,
/// red filling, white background.
pub open spec fn spec_heart_pixel(x: int, y: int) -> Color {
    if (spec_heart_black_row(y) >> (x as u32)) & 1 == 1 {
        Color::spec_black()
    } else if (spec_heart_red_row(y) >> (x as u32)) & 1 == 1 {
        Color::spec_red()
    } else {
        Color::spec_white()
    }
}

fn heart_black_row(y: usize) -> (r: u32)
    requires
        y < 9,
    ensures
        r == spec_heart_black_row(y as int),
{
    if y == 0 {
        0x18C
    } else if y == 1 {
        0x252
    } else if y == 2 {
        0x421
    } else if y == 3 {
        0x401
    } else if y == 4 {
        0x202
    } else if y == 5 {
        0x104
    } else if y == 6 {
        0x88
    } else if y == 7 {
        0x50
    } else {
        0x20
    }
}

fn heart_red_row(y: usize) -> (r: u32)
    requires
        y < 9,
    ensures
        r == spec_heart_red_row(y as int),
{
    if y == 1 {
        0x18C
    } else if y == 2 {
        0x3DE
    } else if y == 3 {
        0x3FE
    } else if y == 4 {
        0x1FC
    } else if y == 5 {
        0xF8
    } else if y == 6 {
        0x70
    } else if y == 7 {
        0x20
    } else {
        0
    }
}

/// The glyph bit for column `x` of the bitmap byte `byte` under `order`.
pub open spec fn spec_glyph_bit(byte: u8, order: BitOrder, x: int) -> bool {
    match order {
        BitOrder::LsbLeftmost => (byte >> (x as u8)) & 1 == 1,
        BitOrder::MsbLeftmost => (byte >> ((7 - x) as u8)) & 1 == 1,
    }
}

/// The color an 8x8 monochrome bitmap gives the cell at (`x`, `y`): black
/// where the bit is set, white elsewhere.
pub open spec fn spec_glyph_pixel(rows: Seq<u8>, order: BitOrder, x: int, y: int) -> Color {
    if spec_glyph_bit(rows[y], order, x) {
        Color::spec_black()
    } else {
        Color::spec_white()
    }
}

impl Buffer {
    /// An 11 x 9 heart glyph: black outline, red filling, white background.
    pub fn heart() -> (r: Buffer)
        ensures
            r.size == (Vec2 { x: 11, y: 9 }),
            r.wf(),
            forall|x: int, y: int|
                0 <= x < 11 && 0 <= y < 9 ==> r.spec_pixel_at(x, y) == spec_heart_pixel(x, y),
    {
        let mut content: Vec<Color> = Vec::new();
        let mut y: usize = 0;
        while y < 9
            invariant
                y <= 9,
                content@.len() == y * 11,
                forall|j: int|
                    0 <= j < content@.len() ==> content@[j] == spec_heart_pixel(
                        j % 11,
                        j / 11,
                    ),
            decreases 9 - y,
        {
            let bm = heart_black_row(y);
            let rm = heart_red_row(y);
            let mut x: usize = 0;
            while x < 11
                invariant
                    x <= 11,
                    y < 9,
                    bm == spec_heart_black_row(y as int),
                    rm == spec_heart_red_row(y as int),
                    content@.len() == y * 11 + x,
                    forall|j: int|
                        0 <= j < content@.len() ==> content@[j] == spec_heart_pixel(
                            j % 11,
                            j / 11,
                        ),
                decreases 11 - x,
            {
                let c = if (bm >> (x as u32)) & 1 == 1 {
                    Color::black()
                } else if (rm >> (x as u32)) & 1 == 1 {
                    Color::red()
                } else {
                    Color::white()
                };
                proof {
                    lemma_rowcol(y * 11 + x, 11, y as int, x as int);
                }
                content.push(c);
                x = x + 1;
            }
            y = y + 1;
        }
        let r = Buffer { content, size: Vec2 { x: 11, y: 9 } };
        proof {
            assert forall|px: int, py: int| 0 <= px < 11 && 0 <= py < 9 implies r.spec_pixel_at(
                px,
                py,
            ) == spec_heart_pixel(px, py) by {
                lemma_rowcol(py * 11 + px, 11, py, px);
            }
        }
        r
    }

    /// An 8 x 8 buffer from a monochrome bitmap of 8 bytes, one per row: a
    /// set bit becomes black, a clear bit white. `order` says which bit of
    /// each byte is the leftmost column.
    pub fn from_u8(c: [u8; 8], order: BitOrder) -> (r: Buffer)
        ensures
            r.size == (Vec2 { x: 8, y: 8 }),
            r.wf(),
            forall|x: int, y: int|
                0 <= x < 8 && 0 <= y < 8 ==> r.spec_pixel_at(x, y) == spec_glyph_pixel(
                    c@,
                    order,
                    x,
                    y,
                ),
    {
        let mut content: Vec<Color> = Vec::new();
        let mut y: usize = 0;
        while y < 8
            invariant
                y <= 8,
                content@.len() == y * 8,
                forall|j: int|
                    0 <= j < content@.len() ==> content@[j] == spec_glyph_pixel(
                        c@,
                        order,
                        j % 8,
                        j / 8,
                    ),
            decreases 8 - y,
        {
            let row = c[y];
            let mut x: usize = 0;
            while x < 8
                invariant
                    x <= 8,
                    y < 8,
                    row == c@[y as int],
                    content@.len() == y * 8 + x,
                    forall|j: int|
                        0 <= j < content@.len() ==> content@[j] == spec_glyph_pixel(
                            c@,
                            order,
                            j % 8,
                            j / 8,
                        ),
                decreases 8 - x,
            {
                let bit = match order {
                    BitOrder::LsbLeftmost => (row >> (x as u8)) & 1,
                    BitOrder::MsbLeftmost => (row >> (7 - (x as u8))) & 1,
                };
                let col = if bit == 1 {
                    Color::black()
                } else {
                    Color::white()
                };
                proof {
                    lemma_rowcol(y * 8 + x, 8, y as int, x as int);
                }
                content.push(col);
                x = x + 1;
            }
            y = y + 1;
        }
        let r = Buffer { content, size: Vec2 { x: 8, y: 8 } };
        proof {
            assert forall|px: int, py: int| 0 <= px < 8 && 0 <= py < 8 implies r.spec_pixel_at(
                px,
                py,
            ) == spec_glyph_pixel(c@, order, px, py) by {
                lemma_rowcol(py * 8 + px, 8, py, px);
            }
        }
        r
    }
}

/// The signed deviation of the step point (cx, cy) from the ideal segment
/// through (0, 0) and (a, b): zero on the segment itself.
pub open spec fn line_f(a: int, b: int, cx: int, cy: int) -> int {
    cy * a - cx * b
}

/// At step point (cx, cy), the segment walk advances one column.
pub open spec fn line_step_x(a: int, b: int, cx: int, cy: int) -> bool {
    2 * line_f(a, b, cx, cy) > b - 2 * a
}

/// At step point (cx, cy), the segment walk advances one row.
pub open spec fn line_step_y(a: int, b: int, cx: int, cy: int) -> bool {
    2 * line_f(a, b, cx, cy) < 2 * b - a
}

/// The step point that the walk visits after (cx, cy): one or both axes
/// advance, as the error term dictates.
pub open spec fn line_next(a: int, b: int, cx: int, cy: int) -> (int, int) {
    (
        cx + if line_step_x(a, b, cx, cy) {
            1int
        } else {
            0int
        },
        cy + if line_step_y(a, b, cx, cy) {
            1int
        } else {
            0int
        },
    )
}

/// The larger of the two extents.
pub open spec fn spec_max_ab(a: int, b: int) -> int {
    if a >= b {
        a
    } else {
        b
    }
}

/// The step points the walk visits from (cx, cy) until it reaches (a, b).
pub open spec fn line_steps(a: int, b: int, cx: int, cy: int) -> Set<(int, int)>
    decreases a - cx + b - cy
        when 0 <= cx <= a && 0 <= cy <= b
        via line_steps_decreases
{
    if cx == a && cy == b {
        set![(a, b)]
    } else {
        set![(cx, cy)].union(
            line_steps(a, b, line_next(a, b, cx, cy).0, line_next(a, b, cx, cy).1),
        )
    }
}

#[via_fn]
proof fn line_steps_decreases(a: int, b: int, cx: int, cy: int) {
    if 0 <= cx <= a && 0 <= cy <= b && !(cx == a && cy == b) {
        lemma_line_step_progress(a, b, cx, cy);
    }
}

/// From any interior step point the walk advances: at least one axis steps,
/// and no axis steps past its extent.
pub proof fn lemma_line_step_progress(a: int, b: int, cx: int, cy: int)
    requires
        0 <= cx <= a,
        0 <= cy <= b,
        !(cx == a && cy == b),
    ensures
        line_step_x(a, b, cx, cy) || line_step_y(a, b, cx, cy),
        line_step_x(a, b, cx, cy) ==> cx < a,
        line_step_y(a, b, cx, cy) ==> cy < b,
{
    let f = line_f(a, b, cx, cy);
    if cx == a {
        assert(2 * (cy * a - a * b) <= b - 2 * a) by (nonlinear_arith)
            requires
                0 <= cy < b,
                a >= 0,
        ;
        assert(!line_step_x(a, b, cx, cy));
    }
    if cy == b {
        assert(2 * (b * a - cx * b) >= 2 * b - a) by (nonlinear_arith)
            requires
                0 <= cx < a,
                b >= 0,
        ;
        assert(!line_step_y(a, b, cx, cy));
    }
    if !line_step_x(a, b, cx, cy) && !line_step_y(a, b, cx, cy) {
        assert(2 * f <= b - 2 * a && 2 * f >= 2 * b - a);
        assert(a + b <= 0);
        assert(a == 0 && b == 0);
        assert(false);
    }
}

/// One step preserves the bound on the deviation, and moves it by a known
/// amount: the walk never strays more than half the larger extent from the
/// ideal segment.
pub proof fn lemma_line_step_f(a: int, b: int, cx: int, cy: int)
    requires
        0 <= cx <= a,
        0 <= cy <= b,
        !(cx == a && cy == b),
        -spec_max_ab(a, b) <= 2 * line_f(a, b, cx, cy) <= spec_max_ab(a, b),
    ensures
        line_f(a, b, line_next(a, b, cx, cy).0, line_next(a, b, cx, cy).1) == line_f(a, b, cx, cy)
            + (if line_step_y(a, b, cx, cy) {
            a
        } else {
            0
        }) - (if line_step_x(a, b, cx, cy) {
            b
        } else {
            0
        }),
        -spec_max_ab(a, b) <= 2 * line_f(
            a,
            b,
            line_next(a, b, cx, cy).0,
            line_next(a, b, cx, cy).1,
        ) <= spec_max_ab(a, b),
{
    lemma_line_step_progress(a, b, cx, cy);
    let sx = line_step_x(a, b, cx, cy);
    let sy = line_step_y(a, b, cx, cy);
    let nx = line_next(a, b, cx, cy).0;
    let ny = line_next(a, b, cx, cy).1;
    let dx1: int = if sx {
        1
    } else {
        0
    };
    let dy1: int = if sy {
        1
    } else {
        0
    };
    assert((cy + dy1) * a - (cx + dx1) * b == (cy * a - cx * b) + dy1 * a - dx1 * b)
        by (nonlinear_arith);
    assert(dy1 * a == if sy {
        a
    } else {
        0
    }) by (nonlinear_arith)
        requires
            dy1 == (if sy {
                1int
            } else {
                0int
            }),
    ;
    assert(dx1 * b == if sx {
        b
    } else {
        0
    }) by (nonlinear_arith)
        requires
            dx1 == (if sx {
                1int
            } else {
                0int
            }),
    ;
}

/// A row-major index names its cell uniquely.
pub(crate) proof fn lemma_row_major_injective(w: int, px: int, py: int, qx: int, qy: int)
    requires
        w > 0,
        0 <= px < w,
        0 <= qx < w,
        0 <= py,
        0 <= qy,
        py * w + px == qy * w + qx,
    ensures
        px == qx,
        py == qy,
{
    lemma_rowcol(py * w + px, w, py, px);
    lemma_rowcol(qy * w + qx, w, qy, qx);
}

/// The x extent of the segment from `start` to `stop`.
pub open spec fn spec_line_ext_x(start: Vec2, stop: Vec2) -> int {
    if stop.x >= start.x {
        stop.x - start.x
    } else {
        start.x - stop.x
    }
}

/// The y extent of the segment from `start` to `stop`.
pub open spec fn spec_line_ext_y(start: Vec2, stop: Vec2) -> int {
    if stop.y >= start.y {
        stop.y - start.y
    } else {
        start.y - stop.y
    }
}

/// The step-grid column that the cell column `px` falls on.
pub open spec fn spec_line_back_x(start: Vec2, stop: Vec2, px: int) -> int {
    if stop.x >= start.x {
        px - start.x
    } else {
        start.x - px
    }
}

/// The step-grid row that the cell row `py` falls on.
pub open spec fn spec_line_back_y(start: Vec2, stop: Vec2, py: int) -> int {
    if stop.y >= start.y {
        py - start.y
    } else {
        start.y - py
    }
}

/// The cells that a set of step points covers, back in buffer coordinates.
pub open spec fn spec_line_cells(start: Vec2, stop: Vec2, s: Set<(int, int)>) -> Set<(int, int)> {
    Set::new(
        |p: (int, int)|
            s.contains((spec_line_back_x(start, stop, p.0), spec_line_back_y(start, stop, p.1))),
    )
}

/// The set of cells that drawing a segment from `start` to `stop` touches.
pub open spec fn spec_line_points(start: Vec2, stop: Vec2) -> Set<(int, int)> {
    spec_line_cells(
        start,
        stop,
        line_steps(spec_line_ext_x(start, stop), spec_line_ext_y(start, stop), 0, 0),
    )
}

impl Buffer {
    /// Draws an integer Bresenham approximation of the segment from `start`
    /// to `stop`: at each step the doubled error term decides independently
    /// whether to advance the column, the row, or both, until the walk
    /// reaches `stop`. Exactly the cells of `spec_line_points` receive
    /// `color`; every other cell keeps its value.
    pub fn draw_line(&mut self, start: Vec2, stop: Vec2, color: Color)
        requires
            old(self).wf(),
            start.x < old(self).size.x,
            start.y < old(self).size.y,
            stop.x < old(self).size.x,
            stop.y < old(self).size.y,
            old(self).size.x + old(self).size.y <= isize::MAX / 4,
        ensures
            final(self).size == old(self).size,
            final(self).wf(),
            forall|px: int, py: int|
                0 <= px < old(self).size.x && 0 <= py < old(self).size.y ==> final(self).spec_pixel_at(px, py)
                    == (if spec_line_points(start, stop).contains((px, py)) {
                    color
                } else {
                    old(self).spec_pixel_at(px, py)
                }),
    {
        let w = self.size.x;
        let h = self.size.y;
        let a = if stop.x >= start.x {
            stop.x - start.x
        } else {
            start.x - stop.x
        };
        let b = if stop.y >= start.y {
            stop.y - start.y
        } else {
            start.y - stop.y
        };
        let sx = start.x < stop.x;
        let sy = start.y < stop.y;
        let dx = a as isize;
        let dy = -(b as isize);
        let mut err: isize = dx + dy;
        let mut x = start.x;
        let mut y = start.y;
        let ghost mut cx: int = 0;
        let ghost mut cy: int = 0;
        let ghost mut visited: Set<(int, int)> = Set::empty();
        let ghost total = spec_line_points(start, stop);
        proof {
            assert(0 * (a as int) - 0 * (b as int) == 0) by (nonlinear_arith);
            assert(line_f(a as int, b as int, 0, 0) == 0);
            assert(visited.union(
                spec_line_cells(start, stop, line_steps(a as int, b as int, cx, cy)),
            ) =~= total);
        }
        loop
            invariant_except_break
                self.size == old(self).size,
                self.wf(),
                w == self.size.x,
                h == self.size.y,
                start.x < w,
                start.y < h,
                stop.x < w,
                stop.y < h,
                w + h <= isize::MAX / 4,
                a == spec_line_ext_x(start, stop),
                b == spec_line_ext_y(start, stop),
                sx == (start.x < stop.x),
                sy == (start.y < stop.y),
                dx as int == a as int,
                dy as int == -(b as int),
                0 <= cx <= a,
                0 <= cy <= b,
                x as int == (if sx {
                    start.x + cx
                } else {
                    start.x - cx
                }),
                y as int == (if sy {
                    start.y + cy
                } else {
                    start.y - cy
                }),
                x < w,
                y < h,
                err as int == a - b + line_f(a as int, b as int, cx, cy),
                -spec_max_ab(a as int, b as int) <= 2 * line_f(a as int, b as int, cx, cy)
                    <= spec_max_ab(a as int, b as int),
                visited.union(
                    spec_line_cells(start, stop, line_steps(a as int, b as int, cx, cy)),
                ) == total,
                total == spec_line_points(start, stop),
                forall|px: int, py: int|
                    0 <= px < w && 0 <= py < h ==> self.spec_pixel_at(px, py) == (if visited.contains(
                        (px, py),
                    ) {
                        color
                    } else {
                        old(self).spec_pixel_at(px, py)
                    }),
            ensures
                self.size == old(self).size,
                self.wf(),
                forall|px: int, py: int|
                    0 <= px < w && 0 <= py < h ==> self.spec_pixel_at(px, py) == (if total.contains(
                        (px, py),
                    ) {
                        color
                    } else {
                        old(self).spec_pixel_at(px, py)
                    }),
            decreases a + b - cx - cy,
        {
            let ghost prev = *self;
            let ghost oldvisited = visited;
            self.put_pixel(Vec2 { x, y }, color);
            proof {
                visited = visited.insert((x as int, y as int));
                assert forall|px: int, py: int| 0 <= px < w && 0 <= py < h implies self.spec_pixel_at(
                    px,
                    py,
                ) == (if visited.contains((px, py)) {
                    color
                } else {
                    old(self).spec_pixel_at(px, py)
                }) by {
                    let idx = (y as int) * (w as int) + (x as int);
                    assert(self.content@ == prev.content@.update(idx, color));
                    let j = py * (w as int) + px;
                    lemma_row_major_index_bound(w as int, h as int, px, py);
                    lemma_row_major_index_bound(w as int, h as int, x as int, y as int);
                    if j == idx {
                        lemma_row_major_injective(w as int, px, py, x as int, y as int);
                        assert(px == x as int && py == y as int);
                        assert(self.spec_pixel_at(px, py) == color);
                        assert(visited.contains((px, py)));
                    } else {
                        assert(prev.content@.len() == (w as int) * (h as int));
                        assert(0 <= j < prev.content@.len());
                        assert(self.content@[j] == prev.content@[j]);
                        assert(visited.contains((px, py)) == oldvisited.contains((px, py)));
                        assert(self.spec_pixel_at(px, py) == prev.spec_pixel_at(px, py));
                    }
                }
            }
            if x == stop.x && y == stop.y {
                proof {
                    assert(cx == a && cy == b);
                    assert(line_steps(a as int, b as int, cx, cy) == set![(a as int, b as int)]);
                    assert forall|p: (int, int)| total.contains(p) implies visited.contains(p) by {
                        if !oldvisited.contains(p) {
                            assert(spec_line_cells(
                                start,
                                stop,
                                line_steps(a as int, b as int, cx, cy),
                            ).contains(p));
                            assert(spec_line_back_x(start, stop, p.0) == a as int
                                && spec_line_back_y(start, stop, p.1) == b as int);
                            assert(p.0 == x as int && p.1 == y as int);
                        }
                    }
                    assert forall|p: (int, int)| visited.contains(p) implies total.contains(p) by {
                        if oldvisited.contains(p) {
                            assert(total.contains(p));
                        } else {
                            assert(p == (x as int, y as int));
                            assert(spec_line_back_x(start, stop, p.0) == a as int
                                && spec_line_back_y(start, stop, p.1) == b as int);
                            assert(spec_line_cells(
                                start,
                                stop,
                                line_steps(a as int, b as int, cx, cy),
                            ).contains(p));
                        }
                    }
                    assert(visited =~= total);
                }
                break ;
            }
            proof {
                if cx == a && cy == b {
                    assert(x as int == stop.x && y as int == stop.y);
                    assert(false);
                }
                lemma_line_step_progress(a as int, b as int, cx, cy);
                lemma_line_step_f(a as int, b as int, cx, cy);
            }
            let ghost stepx = line_step_x(a as int, b as int, cx, cy);
            let ghost stepy = line_step_y(a as int, b as int, cx, cy);
            let ghost nxt = line_next(a as int, b as int, cx, cy);
            proof {
                assert(line_steps(a as int, b as int, cx, cy) == set![(cx, cy)].union(
                    line_steps(a as int, b as int, nxt.0, nxt.1),
                ));
                assert forall|p: (int, int)|
                    visited.union(
                        spec_line_cells(start, stop, line_steps(a as int, b as int, nxt.0, nxt.1)),
                    ).contains(p) == total.contains(p) by {
                    let bx = spec_line_back_x(start, stop, p.0);
                    let by = spec_line_back_y(start, stop, p.1);
                    if bx == cx && by == cy {
                        assert(p.0 == x as int && p.1 == y as int);
                        assert(visited.contains(p));
                        assert(spec_line_cells(
                            start,
                            stop,
                            line_steps(a as int, b as int, cx, cy),
                        ).contains(p));
                        assert(total.contains(p));
                    } else {
                        assert(spec_line_cells(
                            start,
                            stop,
                            line_steps(a as int, b as int, nxt.0, nxt.1),
                        ).contains(p) == spec_line_cells(
                            start,
                            stop,
                            line_steps(a as int, b as int, cx, cy),
                        ).contains(p));
                    }
                }
                assert(visited.union(
                    spec_line_cells(start, stop, line_steps(a as int, b as int, nxt.0, nxt.1)),
                ) =~= total);
            }
            let e2 = 2 * err;
            if e2 > dy {
                proof {
                    assert(stepx);
                    assert(cx < a);
                }
                err = err + dy;
                if sx {
                    x = x + 1;
                } else {
                    x = x - 1;
                }
                proof {
                    cx = cx + 1;
                }
            } else {
                proof {
                    assert(!stepx);
                }
            }
            if e2 < dx {
                proof {
                    assert(stepy);
                    assert(cy < b);
                }
                err = err + dx;
                if sy {
                    y = y + 1;
                } else {
                    y = y - 1;
                }
                proof {
                    cy = cy + 1;
                }
            } else {
                proof {
                    assert(!stepy);
                }
            }
            proof {
                assert(cx == nxt.0 && cy == nxt.1);
            }
        }
    }
}

/// Drawing a segment from a point to itself touches exactly that point.
pub proof fn lemma_line_single_point(p: Vec2)
    ensures
        spec_line_points(p, p) == set![(p.x as int, p.y as int)],
{
    assert(spec_line_ext_x(p, p) == 0 && spec_line_ext_y(p, p) == 0);
    assert(line_steps(0, 0, 0, 0) == set![(0int, 0int)]);
    assert forall|q: (int, int)|
        spec_line_points(p, p).contains(q) == set![(p.x as int, p.y as int)].contains(q) by {
        assert(spec_line_points(p, p).contains(q) == (spec_line_back_x(p, p, q.0) == 0
            && spec_line_back_y(p, p, q.1) == 0));
    }
    assert(spec_line_points(p, p) =~= set![(p.x as int, p.y as int)]);
}

/// A purely horizontal walk visits each column once, at row 0.
proof fn lemma_line_steps_horizontal(a: int, cx: int)
    requires
        0 <= cx <= a,
    ensures
        line_steps(a, 0, cx, 0) == Set::new(|s: (int, int)| cx <= s.0 <= a && s.1 == 0),
    decreases a - cx,
{
    let target = Set::new(|s: (int, int)| cx <= s.0 <= a && s.1 == 0);
    if cx == a {
        assert(line_steps(a, 0, a, 0) == set![(a, 0int)]);
        assert(set![(a, 0int)] =~= target);
    } else {
        assert(0 * a - cx * 0 == 0) by (nonlinear_arith);
        assert(line_f(a, 0, cx, 0) == 0);
        assert(line_step_x(a, 0, cx, 0));
        assert(!line_step_y(a, 0, cx, 0));
        assert(line_next(a, 0, cx, 0) == (cx + 1, 0int));
        lemma_line_steps_horizontal(a, cx + 1);
        assert(line_steps(a, 0, cx, 0) == set![(cx, 0int)].union(line_steps(a, 0, cx + 1, 0)));
        assert(line_steps(a, 0, cx, 0) =~= target);
    }
}

/// A purely vertical walk visits each row once, at column 0.
proof fn lemma_line_steps_vertical(b: int, cy: int)
    requires
        0 <= cy <= b,
    ensures
        line_steps(0, b, 0, cy) == Set::new(|s: (int, int)| s.0 == 0 && cy <= s.1 <= b),
    decreases b - cy,
{
    let target = Set::new(|s: (int, int)| s.0 == 0 && cy <= s.1 <= b);
    if cy == b {
        assert(line_steps(0, b, 0, b) == set![(0int, b)]);
        assert(set![(0int, b)] =~= target);
    } else {
        assert(cy * 0 - 0 * b == 0) by (nonlinear_arith);
        assert(line_f(0, b, 0, cy) == 0);
        assert(!line_step_x(0, b, 0, cy));
        assert(line_step_y(0, b, 0, cy));
        assert(line_next(0, b, 0, cy) == (0int, cy + 1));
        lemma_line_steps_vertical(b, cy + 1);
        assert(line_steps(0, b, 0, cy) == set![(0int, cy)].union(line_steps(0, b, 0, cy + 1)));
        assert(line_steps(0, b, 0, cy) =~= target);
    }
}

/// A perfect diagonal walk advances both axes at every step.
proof fn lemma_line_steps_diagonal(a: int, c: int)
    requires
        0 <= c <= a,
    ensures
        line_steps(a, a, c, c) == Set::new(|s: (int, int)| c <= s.0 <= a && s.1 == s.0),
    decreases a - c,
{
    let target = Set::new(|s: (int, int)| c <= s.0 <= a && s.1 == s.0);
    if c == a {
        assert(line_steps(a, a, a, a) == set![(a, a)]);
        assert(set![(a, a)] =~= target);
    } else {
        assert(c * a - c * a == 0) by (nonlinear_arith);
        assert(line_f(a, a, c, c) == 0);
        assert(line_step_x(a, a, c, c));
        assert(line_step_y(a, a, c, c));
        assert(line_next(a, a, c, c) == (c + 1, c + 1));
        lemma_line_steps_diagonal(a, c + 1);
        assert(line_steps(a, a, c, c) == set![(c, c)].union(line_steps(a, a, c + 1, c + 1)));
        assert(line_steps(a, a, c, c) =~= target);
    }
}

/// A perfect diagonal segment touches one cell per column, the same set
/// drawn from either end.
pub proof fn lemma_diagonal_line_symmetric(p: Vec2, q: Vec2)
    requires
        spec_line_ext_x(p, q) == spec_line_ext_y(p, q),
    ensures
        spec_line_points(p, q) == spec_line_points(q, p),
{
    lemma_line_steps_diagonal(spec_line_ext_x(p, q), 0);
    lemma_line_steps_diagonal(spec_line_ext_x(q, p), 0);
    assert forall|c: (int, int)|
        spec_line_points(p, q).contains(c) == spec_line_points(q, p).contains(c) by {
        assert(spec_line_points(p, q).contains(c) == (0 <= spec_line_back_x(p, q, c.0)
            <= spec_line_ext_x(p, q) && spec_line_back_y(p, q, c.1) == spec_line_back_x(
            p,
            q,
            c.0,
        )));
        assert(spec_line_points(q, p).contains(c) == (0 <= spec_line_back_x(q, p, c.0)
            <= spec_line_ext_x(q, p) && spec_line_back_y(q, p, c.1) == spec_line_back_x(
            q,
            p,
            c.0,
        )));
    }
    assert(spec_line_points(p, q) =~= spec_line_points(q, p));
}

/// A horizontal segment touches one cell per column between its endpoints,
/// the same set drawn from either end.
pub proof fn lemma_horizontal_line_symmetric(p: Vec2, q: Vec2)
    requires
        p.y == q.y,
    ensures
        spec_line_points(p, q) == spec_line_points(q, p),
{
    lemma_line_steps_horizontal(spec_line_ext_x(p, q), 0);
    lemma_line_steps_horizontal(spec_line_ext_x(q, p), 0);
    assert forall|c: (int, int)|
        spec_line_points(p, q).contains(c) == spec_line_points(q, p).contains(c) by {
        assert(spec_line_points(p, q).contains(c) == (0 <= spec_line_back_x(p, q, c.0)
            <= spec_line_ext_x(p, q) && spec_line_back_y(p, q, c.1) == 0));
        assert(spec_line_points(q, p).contains(c) == (0 <= spec_line_back_x(q, p, c.0)
            <= spec_line_ext_x(q, p) && spec_line_back_y(q, p, c.1) == 0));
    }
    assert(spec_line_points(p, q) =~= spec_line_points(q, p));
}

/// A vertical segment touches one cell per row between its endpoints, the
/// same set drawn from either end.
pub proof fn lemma_vertical_line_symmetric(p: Vec2, q: Vec2)
    requires
        p.x == q.x,
    ensures
        spec_line_points(p, q) == spec_line_points(q, p),
{
    lemma_line_steps_vertical(spec_line_ext_y(p, q), 0);
    lemma_line_steps_vertical(spec_line_ext_y(q, p), 0);
    assert forall|c: (int, int)|
        spec_line_points(p, q).contains(c) == spec_line_points(q, p).contains(c) by {
        assert(spec_line_points(p, q).contains(c) == (spec_line_back_x(p, q, c.0) == 0 && 0
            <= spec_line_back_y(p, q, c.1) <= spec_line_ext_y(p, q)));
        assert(spec_line_points(q, p).contains(c) == (spec_line_back_x(q, p, c.0) == 0 && 0
            <= spec_line_back_y(q, p, c.1) <= spec_line_ext_y(q, p)));
    }
    assert(spec_line_points(p, q) =~= spec_line_points(q, p));
}

/// The quotient of a row-major index: if `i == row * s + c` with `c` inside
/// the row, then `i / s == row` and `i % s == c`.
pub(crate) proof fn lemma_rowcol(i: int, s: int, row: int, c: int)
    requires
        s > 0,
        0 <= c < s,
        0 <= row,
        i == row * s + c,
    ensures
        i / s == row,
        i % s == c,
{
    vstd::arithmetic::div_mod::lemma_fundamental_div_mod_converse(i, s, row, c);
}

/// Dividing a value below `h * s` by `s` lands below `h`.
pub(crate) proof fn lemma_div_bound(n: int, s: int, h: int)
    requires
        s > 0,
        0 <= n < h * s,
    ensures
        0 <= n / s < h,
{
    vstd::arithmetic::div_mod::lemma_fundamental_div_mod(n, s);
    assert(s * (n / s) == (n / s) * s) by (nonlinear_arith);
    assert(n / s < h) by (nonlinear_arith)
        requires
            s > 0,
            n < h * s,
            n == (n / s) * s + (n % s),
            0 <= n % s < s,
    ;
    assert(n / s >= 0) by (nonlinear_arith)
        requires
            s > 0,
            n >= 0,
            n == (n / s) * s + (n % s),
            n % s < s,
    ;
}

/// A row-major cell index lies inside the grid: `y * w + x < w * h`
/// whenever `x < w` and `y < h`.
pub(crate) proof fn lemma_row_major_index_bound(w: int, h: int, x: int, y: int)
    requires
        0 <= x < w,
        0 <= y < h,
    ensures
        0 <= y * w + x < w * h,
{
    assert(y * w + x < w * h) by (nonlinear_arith)
        requires
            0 <= x < w,
            0 <= y < h,
    ;
    assert(y * w + x >= 0) by (nonlinear_arith)
        requires
            x >= 0,
            y >= 0,
            w > 0,
    ;
}

} // verus!
