use vstd::prelude::*;

use crate::buffer::{lemma_row_major_index_bound, lemma_rowcol, Buffer};
use crate::errors::FbError;
use crate::framebuffer::{
    mmap_bytes, mmap_write, spec_apply_bitfield, spec_benign_flush_status, FbBitfield,
    FbVarScreenInfo, Framebuffer,
};

verus! {

/// A device-independent RGBA color, 8 bits per channel.
#[derive(Clone, Copy, Debug, PartialEq, Eq, Structural)]
pub struct Color {
    pub r: u8,
    pub g: u8,
    pub b: u8,
    pub a: u8,
}

impl Color {
    pub open spec fn spec_white() -> Color {
        Color { r: 255, g: 255, b: 255, a: 255 }
    }

    /// Opaque white.
    #[verifier::when_used_as_spec(spec_white)]
    pub fn white() -> (c: Color)
        ensures
            c == Color::spec_white(),
    {
        Color { r: 255, g: 255, b: 255, a: 255 }
    }

    pub open spec fn spec_green() -> Color {
        Color { r: 0, g: 255, b: 0, a: 0 }
    }

    /// Pure green.
    #[verifier::when_used_as_spec(spec_green)]
    pub fn green() -> (c: Color)
        ensures
            c == Color::spec_green(),
    {
        Color { r: 0, g: 255, b: 0, a: 0 }
    }

    pub open spec fn spec_red() -> Color {
        Color { r: 255, g: 0, b: 0, a: 0 }
    }

    /// Pure red.
    #[verifier::when_used_as_spec(spec_red)]
    pub fn red() -> (c: Color)
        ensures
            c == Color::spec_red(),
    {
        Color { r: 255, g: 0, b: 0, a: 0 }
    }

    pub open spec fn spec_blue() -> Color {
        Color { r: 0, g: 0, b: 255, a: 0 }
    }

    /// Pure blue.
    #[verifier::when_used_as_spec(spec_blue)]
    pub fn blue() -> (c: Color)
        ensures
            c == Color::spec_blue(),
    {
        Color { r: 0, g: 0, b: 255, a: 0 }
    }

    pub open spec fn spec_black() -> Color {
        Color { r: 0, g: 0, b: 0, a: 0 }
    }

    /// Black.
    #[verifier::when_used_as_spec(spec_black)]
    pub fn black() -> (c: Color)
        ensures
            c == Color::spec_black(),
    {
        Color { r: 0, g: 0, b: 0, a: 0 }
    }
}

/// The native pixel for `c` under the channel layout of `info`: the four
/// channels packed into one unsigned integer of `bits_per_pixel` bits.
pub open spec fn spec_pixel_value(info: FbVarScreenInfo, c: Color) -> u32 {
    spec_apply_bitfield(info.red, c.r) | spec_apply_bitfield(info.green, c.g)
        | spec_apply_bitfield(info.blue, c.b) | spec_apply_bitfield(info.transparent, c.a)
}

/// Byte `i` of `x` serialized in little-endian order.
pub open spec fn spec_le_byte(x: u32, i: int) -> u8 {
    (x >> ((8 * i) as u32)) as u8
}

/// Byte `k` of the native pixel for `c` under `info`.
pub open spec fn spec_packed_byte(info: FbVarScreenInfo, c: Color, k: int) -> u8 {
    spec_le_byte(spec_pixel_value(info, c), k)
}

impl Color {
    /// Packs this color into the device's native pixel bytes: each channel's
    /// top `length` bits placed at its bitfield's offset, the result
    /// serialized as `bits_per_pixel / 8` bytes in little-endian order.
    pub fn to_bitfield(self, info: &FbVarScreenInfo) -> (r: Vec<u8>)
        requires
            info.pixel_format_fits(),
        ensures
            r@.len() == info.bits_per_pixel / 8,
            forall|i: int| 0 <= i < r@.len() ==> r@[i] == spec_packed_byte(*info, self, i),
    {
        let c = info.red.apply_bitfield(self.r) | info.green.apply_bitfield(self.g)
            | info.blue.apply_bitfield(self.b) | info.transparent.apply_bitfield(self.a);
        let n = info.bits_per_pixel / 8;
        let mut out: Vec<u8> = Vec::new();
        let mut i: u32 = 0;
        while i < n
            invariant
                i <= n,
                n == info.bits_per_pixel / 8,
                info.bits_per_pixel <= 32,
                c == spec_pixel_value(*info, self),
                out@.len() == i,
                forall|j: int| 0 <= j < i ==> out@[j] == spec_packed_byte(*info, self, j),
            decreases n - i,
        {
            let shifted = c >> (8 * i);
            proof {
                lemma_low_byte(shifted);
            }
            let byte = (shifted & 0xff) as u8;
            out.push(byte);
            i = i + 1;
        }
        out
    }
}

/// The channel that `bf` describes, read back out of a packed pixel.
pub open spec fn spec_extract_bitfield(pixel: u32, bf: FbBitfield) -> u32 {
    (pixel >> bf.offset) & (((1u32 << bf.length) - 1) as u32)
}

/// The top `length` bits of the 8-bit channel value `v`.
pub open spec fn spec_top_bits(v: u8, length: u32) -> u32 {
    (v as u32) >> ((8 - length) as u32)
}

/// The bit ranges of two bitfields do not overlap.
pub open spec fn spec_bf_disjoint(x: FbBitfield, y: FbBitfield) -> bool {
    x.offset + x.length <= y.offset || y.offset + y.length <= x.offset
}

/// All four channel bitfields of `info` are pairwise non-overlapping.
pub open spec fn spec_channels_disjoint(info: FbVarScreenInfo) -> bool {
    &&& spec_bf_disjoint(info.red, info.green)
    &&& spec_bf_disjoint(info.red, info.blue)
    &&& spec_bf_disjoint(info.red, info.transparent)
    &&& spec_bf_disjoint(info.green, info.blue)
    &&& spec_bf_disjoint(info.green, info.transparent)
    &&& spec_bf_disjoint(info.blue, info.transparent)
}

/// Pack/extract round trip: with non-overlapping channel bitfields of length
/// at most 8, re-extracting each channel from the packed pixel recovers
/// exactly the top `length` bits of the original 8-bit channel value.
pub proof fn lemma_pack_extract_roundtrip(info: FbVarScreenInfo, c: Color)
    requires
        info.red.fits(32),
        info.green.fits(32),
        info.blue.fits(32),
        info.transparent.fits(32),
        spec_channels_disjoint(info),
    ensures
        spec_extract_bitfield(spec_pixel_value(info, c), info.red) == spec_top_bits(
            c.r,
            info.red.length,
        ),
        spec_extract_bitfield(spec_pixel_value(info, c), info.green) == spec_top_bits(
            c.g,
            info.green.length,
        ),
        spec_extract_bitfield(spec_pixel_value(info, c), info.blue) == spec_top_bits(
            c.b,
            info.blue.length,
        ),
        spec_extract_bitfield(spec_pixel_value(info, c), info.transparent) == spec_top_bits(
            c.a,
            info.transparent.length,
        ),
{
    let ro = info.red.offset;
    let rl = info.red.length;
    let go = info.green.offset;
    let gl = info.green.length;
    let bo = info.blue.offset;
    let bl = info.blue.length;
    let to = info.transparent.offset;
    let tl = info.transparent.length;
    let vr = c.r;
    let vg = c.g;
    let vb = c.b;
    let va = c.a;
    assert((((((vr as u32) >> ((8 - rl) as u32)) << ro) | (((vg as u32) >> ((8 - gl) as u32))
        << go) | (((vb as u32) >> ((8 - bl) as u32)) << bo) | (((va as u32) >> ((8 - tl) as u32))
        << to)) >> ro) & (((1u32 << rl) - 1) as u32) == (vr as u32) >> ((8 - rl) as u32))
        by (bit_vector)
        requires
            rl <= 8,
            gl <= 8,
            bl <= 8,
            tl <= 8,
            ro + rl <= 32,
            go + gl <= 32,
            bo + bl <= 32,
            to + tl <= 32,
            ro + rl <= go || go + gl <= ro,
            ro + rl <= bo || bo + bl <= ro,
            ro + rl <= to || to + tl <= ro,
    ;
    assert((((((vr as u32) >> ((8 - rl) as u32)) << ro) | (((vg as u32) >> ((8 - gl) as u32))
        << go) | (((vb as u32) >> ((8 - bl) as u32)) << bo) | (((va as u32) >> ((8 - tl) as u32))
        << to)) >> go) & (((1u32 << gl) - 1) as u32) == (vg as u32) >> ((8 - gl) as u32))
        by (bit_vector)
        requires
            rl <= 8,
            gl <= 8,
            bl <= 8,
            tl <= 8,
            ro + rl <= 32,
            go + gl <= 32,
            bo + bl <= 32,
            to + tl <= 32,
            ro + rl <= go || go + gl <= ro,
            go + gl <= bo || bo + bl <= go,
            go + gl <= to || to + tl <= go,
    ;
    assert((((((vr as u32) >> ((8 - rl) as u32)) << ro) | (((vg as u32) >> ((8 - gl) as u32))
        << go) | (((vb as u32) >> ((8 - bl) as u32)) << bo) | (((va as u32) >> ((8 - tl) as u32))
        << to)) >> bo) & (((1u32 << bl) - 1) as u32) == (vb as u32) >> ((8 - bl) as u32))
        by (bit_vector)
        requires
            rl <= 8,
            gl <= 8,
            bl <= 8,
            tl <= 8,
            ro + rl <= 32,
            go + gl <= 32,
            bo + bl <= 32,
            to + tl <= 32,
            ro + rl <= bo || bo + bl <= ro,
            go + gl <= bo || bo + bl <= go,
            bo + bl <= to || to + tl <= bo,
    ;
    assert((((((vr as u32) >> ((8 - rl) as u32)) << ro) | (((vg as u32) >> ((8 - gl) as u32))
        << go) | (((vb as u32) >> ((8 - bl) as u32)) << bo) | (((va as u32) >> ((8 - tl) as u32))
        << to)) >> to) & (((1u32 << tl) - 1) as u32) == (va as u32) >> ((8 - tl) as u32))
        by (bit_vector)
        requires
            rl <= 8,
            gl <= 8,
            bl <= 8,
            tl <= 8,
            ro + rl <= 32,
            go + gl <= 32,
            bo + bl <= 32,
            to + tl <= 32,
            ro + rl <= to || to + tl <= ro,
            go + gl <= to || to + tl <= go,
            bo + bl <= to || to + tl <= bo,
    ;
}

/// Truncating a value to its low byte masks off everything above bit 7.
proof fn lemma_low_byte(x: u32)
    ensures
        x & 0xff < 256,
        (x & 0xff) as u8 == x as u8,
{
    assert(x & 0xff < 256 && (x & 0xff) as u8 == x as u8) by (bit_vector);
}

/// `count` bytes tiling `pattern` cyclically.
fn tile_bytes(pattern: &Vec<u8>, count: usize) -> (r: Vec<u8>)
    requires
        pattern@.len() >= 1,
    ensures
        r@.len() == count,
        forall|j: int| 0 <= j < count ==> r@[j] == pattern@[j % (pattern@.len() as int)],
{
    let n = pattern.len();
    let mut r: Vec<u8> = Vec::new();
    let mut j: usize = 0;
    while j < count
        invariant
            j <= count,
            n == pattern@.len(),
            n >= 1,
            r@.len() == j,
            forall|q: int| 0 <= q < j ==> r@[q] == pattern@[q % (n as int)],
        decreases count - j,
    {
        r.push(pattern[j % n]);
        j = j + 1;
    }
    r
}

/// A byte lies in the range `[row * stride + lo, row * stride + hi)` exactly
/// when its row is `row` and its column is in `[lo, hi)`.
proof fn lemma_strip_byte(i: int, stride: int, row: int, lo: int, hi: int)
    requires
        stride > 0,
        0 <= row,
        0 <= lo <= hi <= stride,
    ensures
        (row * stride + lo <= i < row * stride + hi) <==> (i / stride == row && lo <= i % stride
            < hi),
        i / stride == row ==> i % stride == i - row * stride,
{
    if row * stride + lo <= i < row * stride + hi {
        lemma_rowcol(i, stride, row, i - row * stride);
    }
    if i / stride == row {
        vstd::arithmetic::div_mod::lemma_fundamental_div_mod(i, stride);
        vstd::arithmetic::div_mod::lemma_mod_bound(i, stride);
        assert(stride * row == row * stride) by (nonlinear_arith);
    }
}

/// Scanline `row` lies inside the mapped region.
proof fn lemma_row_span(stride: int, rows: int, row: int)
    requires
        stride >= 0,
        0 <= row < rows,
    ensures
        0 <= row * stride,
        row * stride + stride <= stride * rows,
{
    assert(0 <= row * stride && row * stride + stride <= stride * rows) by (nonlinear_arith)
        requires
            stride >= 0,
            0 <= row < rows,
    ;
}

/// The strip of pixel `x` in row `row` lies inside the mapped region.
proof fn lemma_strip_in_region(stride: int, rows: int, opp: int, x: int, xres: int, row: int)
    requires
        opp >= 0,
        stride >= xres * opp,
        0 <= x < xres,
        0 <= row < rows,
    ensures
        0 <= row * stride,
        0 <= x * opp,
        x * opp + opp <= stride,
        row * stride + stride <= stride * rows,
{
    assert((x + 1) * opp <= xres * opp) by (nonlinear_arith)
        requires
            0 <= x < xres,
            opp >= 0,
    ;
    assert((x + 1) * opp == x * opp + opp) by (nonlinear_arith);
    assert(x * opp >= 0 && row * stride >= 0) by (nonlinear_arith)
        requires
            x >= 0,
            row >= 0,
            opp >= 0,
            stride >= 0,
    ;
    assert(row * stride + stride <= stride * rows) by (nonlinear_arith)
        requires
            0 <= row < rows,
            stride >= 0,
    ;
}

/// The rendering canvas: packs colors against the discovered geometry and
/// writes them into the mapped surface.
pub struct FbGUI {
    pub framebuffer: Framebuffer,
}

impl FbGUI {
    /// The canvas draws correctly: its surface geometry is consistent.
    pub open spec fn wf(self) -> bool {
        self.framebuffer.wf()
    }

    /// The bytes of the mapped surface.
    pub open spec fn spec_bytes(self) -> Seq<u8> {
        self.framebuffer.spec_bytes()
    }

    /// Bytes per scanline.
    pub open spec fn spec_stride(self) -> int {
        self.framebuffer.spec_stride()
    }

    /// Bytes per packed pixel.
    pub open spec fn spec_opp(self) -> int {
        self.framebuffer.spec_bytes_per_pixel()
    }

    /// The channel layout colors are packed against.
    pub open spec fn spec_var(self) -> FbVarScreenInfo {
        self.framebuffer.var_screen_info
    }

    /// A draw call never changes the discovered geometry or the length of
    /// the mapped region.
    pub open spec fn spec_geometry_unchanged(pre: FbGUI, post: FbGUI) -> bool {
        &&& post.framebuffer.var_screen_info == pre.framebuffer.var_screen_info
        &&& post.framebuffer.fix_screen_info == pre.framebuffer.fix_screen_info
        &&& post.spec_bytes().len() == pre.spec_bytes().len()
    }

    /// Wraps a validated surface as a rendering canvas.
    pub fn new(framebuffer: Framebuffer) -> (r: FbGUI)
        ensures
            r.framebuffer == framebuffer,
    {
        FbGUI { framebuffer }
    }

    /// Publishes outstanding writes to the device; the surface itself is
    /// unchanged whatever the device reports.
    pub fn update(&mut self) -> (r: Result<(), FbError>)
        ensures
            *final(self) == *old(self),
            (match r {
                Ok(u) => true,
                Err(FbError::SyncFailed { status }) => !spec_benign_flush_status(status),
                Err(e) => false,
            }),
    {
        self.framebuffer.update()
    }

    /// Packs `color` once and tiles it across the full mapped region: every
    /// byte of stride x height is written, padding included, and nothing
    /// beyond.
    pub fn fill(&mut self, color: Color)
        requires
            old(self).wf(),
        ensures
            final(self).wf(),
            FbGUI::spec_geometry_unchanged(*old(self), *final(self)),
            forall|i: int|
                0 <= i < final(self).spec_bytes().len() ==> final(self).spec_bytes()[i]
                    == spec_packed_byte(old(self).spec_var(), color, i % old(self).spec_opp()),
    {
        let c = color.to_bitfield(&self.framebuffer.var_screen_info);
        let stride = self.framebuffer.fix_screen_info.line_length as usize;
        let rows = self.framebuffer.var_screen_info.y_res as usize;
        let total = stride * rows;
        let tiled = tile_bytes(&c, total);
        mmap_write(&mut self.framebuffer.frame, 0, tiled.as_slice());
        proof {
            let opp = self.spec_opp();
            assert forall|i: int| 0 <= i < self.spec_bytes().len() implies self.spec_bytes()[i]
                == spec_packed_byte(self.spec_var(), color, i % opp) by {
                vstd::arithmetic::div_mod::lemma_mod_bound(i, opp);
            }
        }
    }

    /// Writes one packed pixel at column `x`, row `y`: the bytes
    /// `[y * stride + x * opp, y * stride + (x + 1) * opp)` and no others.
    pub fn set_pixel(&mut self, x: usize, y: usize, color: Color)
        requires
            old(self).wf(),
            x < old(self).framebuffer.var_screen_info.x_res,
            y < old(self).framebuffer.var_screen_info.y_res,
        ensures
            final(self).wf(),
            FbGUI::spec_geometry_unchanged(*old(self), *final(self)),
            forall|i: int|
                0 <= i < final(self).spec_bytes().len() ==> final(self).spec_bytes()[i] == (if i
                    / old(self).spec_stride() == y && x * old(self).spec_opp() <= i % old(
                    self,
                ).spec_stride() < (x + 1) * old(self).spec_opp() {
                    spec_packed_byte(
                        old(self).spec_var(),
                        color,
                        i % old(self).spec_stride() - x * old(self).spec_opp(),
                    )
                } else {
                    old(self).spec_bytes()[i]
                }),
    {
        let c = color.to_bitfield(&self.framebuffer.var_screen_info);
        let stride = self.framebuffer.fix_screen_info.line_length as usize;
        let opp = (self.framebuffer.var_screen_info.bits_per_pixel / 8) as usize;
        proof {
            lemma_strip_in_region(
                stride as int,
                self.framebuffer.var_screen_info.y_res as int,
                opp as int,
                x as int,
                self.framebuffer.var_screen_info.x_res as int,
                y as int,
            );
        }
        let base = y * stride + x * opp;
        mmap_write(&mut self.framebuffer.frame, base, c.as_slice());
        proof {
            let st = self.spec_stride();
            let op = self.spec_opp();
            assert((x + 1) * op == x * op + op) by (nonlinear_arith);
            assert forall|i: int| 0 <= i < self.spec_bytes().len() implies self.spec_bytes()[i]
                == (if i / st == y && x * op <= i % st < (x + 1) * op {
                spec_packed_byte(self.spec_var(), color, i % st - x * op)
            } else {
                old(self).spec_bytes()[i]
            }) by {
                lemma_strip_byte(i, st, y as int, x as int * op, x as int * op + op);
            }
        }
    }

    /// Tiles the packed pixel across the whole scanline `y`, padding
    /// included; every other byte keeps its value.
    pub fn horizontal_line(&mut self, y: usize, color: Color)
        requires
            old(self).wf(),
            y < old(self).framebuffer.var_screen_info.y_res,
        ensures
            final(self).wf(),
            FbGUI::spec_geometry_unchanged(*old(self), *final(self)),
            forall|i: int|
                0 <= i < final(self).spec_bytes().len() ==> final(self).spec_bytes()[i] == (if i
                    / old(self).spec_stride() == y {
                    spec_packed_byte(
                        old(self).spec_var(),
                        color,
                        (i % old(self).spec_stride()) % old(self).spec_opp(),
                    )
                } else {
                    old(self).spec_bytes()[i]
                }),
    {
        let c = color.to_bitfield(&self.framebuffer.var_screen_info);
        let stride = self.framebuffer.fix_screen_info.line_length as usize;
        proof {
            lemma_row_span(
                stride as int,
                self.framebuffer.var_screen_info.y_res as int,
                y as int,
            );
        }
        let row = tile_bytes(&c, stride);
        let base = y * stride;
        mmap_write(&mut self.framebuffer.frame, base, row.as_slice());
        proof {
            let st = self.spec_stride();
            assert forall|i: int| 0 <= i < self.spec_bytes().len() implies self.spec_bytes()[i]
                == (if i / st == y {
                spec_packed_byte(self.spec_var(), color, (i % st) % self.spec_opp())
            } else {
                old(self).spec_bytes()[i]
            }) by {
                let rows = old(self).framebuffer.var_screen_info.y_res as int;
                assert(self.spec_bytes().len() == st * rows);
                assert(st > 0) by (nonlinear_arith)
                    requires
                        0 <= i < st * rows,
                        st >= 0,
                        rows >= 0,
                ;
                lemma_strip_byte(i, st, y as int, 0, st);
                vstd::arithmetic::div_mod::lemma_mod_bound(i, st);
                vstd::arithmetic::div_mod::lemma_mod_bound(i % st, self.spec_opp());
            }
        }
    }

    /// Tiles the packed pixel across the pixel range `[x_start, x_stop)` of
    /// scanline `y`; every other byte keeps its value.
    pub fn part_horizontal_line(&mut self, y: usize, x_start: usize, x_stop: usize, color: Color)
        requires
            old(self).wf(),
            y < old(self).framebuffer.var_screen_info.y_res,
            x_start <= x_stop,
            x_stop <= old(self).framebuffer.var_screen_info.x_res,
        ensures
            final(self).wf(),
            FbGUI::spec_geometry_unchanged(*old(self), *final(self)),
            forall|i: int|
                0 <= i < final(self).spec_bytes().len() ==> final(self).spec_bytes()[i] == (if i
                    / old(self).spec_stride() == y && x_start * old(self).spec_opp() <= i % old(
                    self,
                ).spec_stride() < x_stop * old(self).spec_opp() {
                    spec_packed_byte(
                        old(self).spec_var(),
                        color,
                        (i % old(self).spec_stride() - x_start * old(self).spec_opp()) % old(
                            self,
                        ).spec_opp(),
                    )
                } else {
                    old(self).spec_bytes()[i]
                }),
    {
        let c = color.to_bitfield(&self.framebuffer.var_screen_info);
        let stride = self.framebuffer.fix_screen_info.line_length as usize;
        let opp = (self.framebuffer.var_screen_info.bits_per_pixel / 8) as usize;
        proof {
            let xres = self.framebuffer.var_screen_info.x_res as int;
            assert(x_start * opp <= x_stop * opp <= xres * opp) by (nonlinear_arith)
                requires
                    x_start <= x_stop <= xres,
                    opp >= 0,
            ;
            assert((x_stop - x_start) * opp == x_stop * opp - x_start * opp) by (nonlinear_arith);
            lemma_row_span(
                stride as int,
                self.framebuffer.var_screen_info.y_res as int,
                y as int,
            );
        }
        let seg = tile_bytes(&c, (x_stop - x_start) * opp);
        let base = y * stride + x_start * opp;
        mmap_write(&mut self.framebuffer.frame, base, seg.as_slice());
        proof {
            let st = self.spec_stride();
            let op = self.spec_opp();
            assert forall|i: int| 0 <= i < self.spec_bytes().len() implies self.spec_bytes()[i]
                == (if i / st == y && x_start * op <= i % st < x_stop * op {
                spec_packed_byte(self.spec_var(), color, (i % st - x_start * op) % op)
            } else {
                old(self).spec_bytes()[i]
            }) by {
                let rows = old(self).framebuffer.var_screen_info.y_res as int;
                assert(self.spec_bytes().len() == st * rows);
                assert(st > 0) by (nonlinear_arith)
                    requires
                        0 <= i < st * rows,
                        st >= 0,
                        rows >= 0,
                ;
                lemma_strip_byte(i, st, y as int, x_start as int * op, x_stop as int * op);
                vstd::arithmetic::div_mod::lemma_mod_bound(i, st);
                vstd::arithmetic::div_mod::lemma_mod_bound(i % st - x_start as int * op, op);
            }
        }
    }
}


/// The byte at `i` lies inside the blit rectangle of a `w` x `h` buffer
/// whose top-left cell sits at (`x_off`, `y_off`).
pub open spec fn spec_blit_covers(
    i: int,
    stride: int,
    opp: int,
    x_off: int,
    y_off: int,
    w: int,
    h: int,
) -> bool {
    &&& y_off <= i / stride < y_off + h
    &&& x_off * opp <= i % stride < (x_off + w) * opp
}

/// The byte at `i` belongs to a blit cell the walk over the buffer has
/// already written: a column before `cx`, or the column `cx` above row `cy`.
spec fn spec_blit_done(
    i: int,
    stride: int,
    opp: int,
    x_off: int,
    y_off: int,
    cx: int,
    cy: int,
) -> bool {
    ||| (i % stride) / opp - x_off < cx
    ||| ((i % stride) / opp - x_off == cx && i / stride - y_off < cy)
}

impl FbGUI {
    /// Writes one packed pixel at column `x` into each scanline of
    /// `[y_start, y_stop)`; every other byte keeps its value.
    pub fn part_vertical_line(&mut self, x: usize, y_start: usize, y_stop: usize, color: Color)
        requires
            old(self).wf(),
            x < old(self).framebuffer.var_screen_info.x_res,
            y_start <= y_stop,
            y_stop <= old(self).framebuffer.var_screen_info.y_res,
        ensures
            final(self).wf(),
            FbGUI::spec_geometry_unchanged(*old(self), *final(self)),
            forall|i: int|
                0 <= i < final(self).spec_bytes().len() ==> final(self).spec_bytes()[i] == (if
                y_start <= i / old(self).spec_stride() < y_stop && x * old(self).spec_opp() <= i
                    % old(self).spec_stride() < (x + 1) * old(self).spec_opp() {
                    spec_packed_byte(
                        old(self).spec_var(),
                        color,
                        i % old(self).spec_stride() - x * old(self).spec_opp(),
                    )
                } else {
                    old(self).spec_bytes()[i]
                }),
    {
        let c = color.to_bitfield(&self.framebuffer.var_screen_info);
        let stride = self.framebuffer.fix_screen_info.line_length as usize;
        let opp = (self.framebuffer.var_screen_info.bits_per_pixel / 8) as usize;
        let mut row = y_start;
        while row < y_stop
            invariant
                old(self).wf(),
                self.wf(),
                y_start <= row <= y_stop,
                y_stop <= old(self).framebuffer.var_screen_info.y_res,
                x < old(self).framebuffer.var_screen_info.x_res,
                stride == old(self).spec_stride(),
                opp == old(self).spec_opp(),
                c@.len() == opp,
                forall|k: int|
                    0 <= k < opp ==> c@[k] == spec_packed_byte(old(self).spec_var(), color, k),
                FbGUI::spec_geometry_unchanged(*old(self), *self),
                forall|i: int|
                    0 <= i < self.spec_bytes().len() ==> self.spec_bytes()[i] == (if y_start <= i
                        / (stride as int) < row && x * (opp as int) <= i % (stride as int) < (x
                        + 1) * (opp as int) {
                        spec_packed_byte(
                            old(self).spec_var(),
                            color,
                            i % (stride as int) - x * (opp as int),
                        )
                    } else {
                        old(self).spec_bytes()[i]
                    }),
            decreases y_stop - row,
        {
            proof {
                lemma_strip_in_region(
                    stride as int,
                    old(self).framebuffer.var_screen_info.y_res as int,
                    opp as int,
                    x as int,
                    old(self).framebuffer.var_screen_info.x_res as int,
                    row as int,
                );
                assert((x + 1) * (opp as int) == x * (opp as int) + opp) by (nonlinear_arith);
            }
            let base = row * stride + x * opp;
            mmap_write(&mut self.framebuffer.frame, base, c.as_slice());
            proof {
                let st = stride as int;
                let op = opp as int;
                assert forall|i: int| 0 <= i < self.spec_bytes().len() implies self.spec_bytes()[i]
                    == (if y_start <= i / st < row + 1 && x * op <= i % st < (x + 1) * op {
                    spec_packed_byte(old(self).spec_var(), color, i % st - x * op)
                } else {
                    old(self).spec_bytes()[i]
                }) by {
                    lemma_strip_byte(i, st, row as int, x as int * op, x as int * op + op);
                }
            }
            row = row + 1;
        }
    }

    /// Writes one packed pixel at column `x` into every scanline.
    pub fn vertical_line(&mut self, x: usize, color: Color)
        requires
            old(self).wf(),
            x < old(self).framebuffer.var_screen_info.x_res,
        ensures
            final(self).wf(),
            FbGUI::spec_geometry_unchanged(*old(self), *final(self)),
            forall|i: int|
                0 <= i < final(self).spec_bytes().len() ==> final(self).spec_bytes()[i] == (if x
                    * old(self).spec_opp() <= i % old(self).spec_stride() < (x + 1) * old(
                    self,
                ).spec_opp() {
                    spec_packed_byte(
                        old(self).spec_var(),
                        color,
                        i % old(self).spec_stride() - x * old(self).spec_opp(),
                    )
                } else {
                    old(self).spec_bytes()[i]
                }),
    {
        let rows = self.framebuffer.var_screen_info.y_res as usize;
        self.part_vertical_line(x, 0, rows, color);
        proof {
            let st = old(self).spec_stride();
            let op = old(self).spec_opp();
            let rs = old(self).framebuffer.var_screen_info.y_res as int;
            assert forall|i: int| 0 <= i < self.spec_bytes().len() implies self.spec_bytes()[i]
                == (if x * op <= i % st < (x + 1) * op {
                spec_packed_byte(old(self).spec_var(), color, i % st - x * op)
            } else {
                old(self).spec_bytes()[i]
            }) by {
                assert(self.spec_bytes().len() == st * rs);
                assert(st > 0) by (nonlinear_arith)
                    requires
                        0 <= i < st * rs,
                        st >= 0,
                        rs >= 0,
                ;
                assert(st * rs == rs * st) by (nonlinear_arith);
                crate::buffer::lemma_div_bound(i, st, rs);
            }
        }
    }

    /// Blits `buf` with its top-left cell at (`x_offset`, `y_offset`): every
    /// cell of the buffer is packed and written at its place; no clipping is
    /// done, so the whole rectangle must lie inside the surface, and every
    /// byte outside it keeps its value.
    pub fn write_buf(&mut self, x_offset: usize, y_offset: usize, buf: &Buffer)
        requires
            old(self).wf(),
            buf.wf(),
            x_offset + buf.size.x <= old(self).framebuffer.var_screen_info.x_res,
            y_offset + buf.size.y <= old(self).framebuffer.var_screen_info.y_res,
        ensures
            final(self).wf(),
            FbGUI::spec_geometry_unchanged(*old(self), *final(self)),
            forall|i: int|
                0 <= i < final(self).spec_bytes().len() ==> final(self).spec_bytes()[i] == (if
                spec_blit_covers(
                    i,
                    old(self).spec_stride(),
                    old(self).spec_opp(),
                    x_offset as int,
                    y_offset as int,
                    buf.size.x as int,
                    buf.size.y as int,
                ) {
                    spec_packed_byte(
                        old(self).spec_var(),
                        buf.spec_pixel_at(
                            (i % old(self).spec_stride()) / old(self).spec_opp() - x_offset,
                            i / old(self).spec_stride() - y_offset,
                        ),
                        (i % old(self).spec_stride()) % old(self).spec_opp(),
                    )
                } else {
                    old(self).spec_bytes()[i]
                }),
    {
        let bw = buf.size.x;
        let bh = buf.size.y;
        let blen = buf.content.len();
        let ghost st = old(self).spec_stride();
        let ghost op = old(self).spec_opp();
        proof {
            let rows = old(self).framebuffer.var_screen_info.y_res as int;
            assert forall|i: int|
                0 <= i < self.spec_bytes().len() && spec_blit_covers(
                    i,
                    st,
                    op,
                    x_offset as int,
                    y_offset as int,
                    bw as int,
                    bh as int,
                ) implies (i % st) / op - x_offset as int >= 0 && i / st - y_offset as int
                >= 0 by {
                assert(self.spec_bytes().len() == st * rows);
                assert(st > 0 && op > 0) by (nonlinear_arith)
                    requires
                        0 <= i < st * rows,
                        st >= 0,
                        rows >= 0,
                        op >= 1,
                ;
                lemma_rowcol((x_offset as int) * op, op, x_offset as int, 0);
                vstd::arithmetic::div_mod::lemma_div_is_ordered((x_offset as int) * op, i % st, op);
            }
        }
        let mut cx: usize = 0;
        while cx < bw
            invariant
                old(self).wf(),
                self.wf(),
                buf.wf(),
                cx <= bw,
                bw == buf.size.x,
                bh == buf.size.y,
                blen == buf.content@.len(),
                x_offset + bw <= old(self).framebuffer.var_screen_info.x_res,
                y_offset + bh <= old(self).framebuffer.var_screen_info.y_res,
                st == old(self).spec_stride(),
                op == old(self).spec_opp(),
                FbGUI::spec_geometry_unchanged(*old(self), *self),
                forall|i: int|
                    0 <= i < self.spec_bytes().len() ==> self.spec_bytes()[i] == (if
                    spec_blit_covers(
                        i,
                        st,
                        op,
                        x_offset as int,
                        y_offset as int,
                        bw as int,
                        bh as int,
                    ) && spec_blit_done(
                        i,
                        st,
                        op,
                        x_offset as int,
                        y_offset as int,
                        cx as int,
                        0,
                    ) {
                        spec_packed_byte(
                            old(self).spec_var(),
                            buf.spec_pixel_at((i % st) / op - x_offset, i / st - y_offset),
                            (i % st) % op,
                        )
                    } else {
                        old(self).spec_bytes()[i]
                    }),
            decreases bw - cx,
        {
            let mut cy: usize = 0;
            while cy < bh
                invariant
                    old(self).wf(),
                    self.wf(),
                    buf.wf(),
                    cx < bw,
                    cy <= bh,
                    bw == buf.size.x,
                    bh == buf.size.y,
                    blen == buf.content@.len(),
                    x_offset + bw <= old(self).framebuffer.var_screen_info.x_res,
                    y_offset + bh <= old(self).framebuffer.var_screen_info.y_res,
                    st == old(self).spec_stride(),
                    op == old(self).spec_opp(),
                    FbGUI::spec_geometry_unchanged(*old(self), *self),
                    forall|i: int|
                        0 <= i < self.spec_bytes().len() ==> self.spec_bytes()[i] == (if
                        spec_blit_covers(
                            i,
                            st,
                            op,
                            x_offset as int,
                            y_offset as int,
                            bw as int,
                            bh as int,
                        ) && spec_blit_done(
                            i,
                            st,
                            op,
                            x_offset as int,
                            y_offset as int,
                            cx as int,
                            cy as int,
                        ) {
                            spec_packed_byte(
                                old(self).spec_var(),
                                buf.spec_pixel_at((i % st) / op - x_offset, i / st - y_offset),
                                (i % st) % op,
                            )
                        } else {
                            old(self).spec_bytes()[i]
                        }),
                decreases bh - cy,
            {
                let px = x_offset + cx;
                let py = y_offset + cy;
                proof {
                    lemma_row_major_index_bound(bw as int, bh as int, cx as int, cy as int);
                    assert(buf.content@.len() == bw * bh);
                    assert(cy * bw + cx < blen);
                }
                let cell = buf.content[cy * bw + cx];
                self.set_pixel(px, py, cell);
                proof {
                    assert forall|i: int| 0 <= i < self.spec_bytes().len() implies self.spec_bytes()[i]
                        == (if spec_blit_covers(
                        i,
                        st,
                        op,
                        x_offset as int,
                        y_offset as int,
                        bw as int,
                        bh as int,
                    ) && spec_blit_done(
                        i,
                        st,
                        op,
                        x_offset as int,
                        y_offset as int,
                        cx as int,
                        cy as int + 1,
                    ) {
                        spec_packed_byte(
                            old(self).spec_var(),
                            buf.spec_pixel_at((i % st) / op - x_offset, i / st - y_offset),
                            (i % st) % op,
                        )
                    } else {
                        old(self).spec_bytes()[i]
                    }) by {
                        let rows = old(self).framebuffer.var_screen_info.y_res as int;
                        assert(self.spec_bytes().len() == st * rows);
                        assert(st > 0 && op > 0) by (nonlinear_arith)
                            requires
                                0 <= i < st * rows,
                                st >= 0,
                                rows >= 0,
                                op >= 1,
                        ;
                        vstd::arithmetic::div_mod::lemma_mod_bound(i, st);
                        let col = i % st;
                        if (px as int) * op <= col < (px as int + 1) * op {
                            assert((px as int + 1) * op == (px as int) * op + op)
                                by (nonlinear_arith);
                            lemma_rowcol(col, op, px as int, col - (px as int) * op);
                            assert(col / op == px as int && col % op == col - (px as int) * op);
                            assert((x_offset as int) * op <= (px as int) * op && (px as int + 1)
                                * op <= (x_offset as int + bw as int) * op) by (nonlinear_arith)
                                requires
                                    x_offset as int <= px as int,
                                    px as int + 1 <= x_offset as int + bw as int,
                                    op >= 0,
                            ;
                        } else {
                            if col / op - x_offset as int == cx as int {
                                vstd::arithmetic::div_mod::lemma_fundamental_div_mod(col, op);
                                vstd::arithmetic::div_mod::lemma_mod_bound(col, op);
                                assert(op * (col / op) == (col / op) * op) by (nonlinear_arith);
                                assert((px as int) * op <= col < (px as int + 1) * op)
                                    by (nonlinear_arith)
                                    requires
                                        col == (col / op) * op + col % op,
                                        0 <= col % op < op,
                                        col / op == px as int,
                                ;
                            }
                        }
                    }
                }
                cy = cy + 1;
            }
            proof {
                assert forall|i: int| 0 <= i < self.spec_bytes().len() implies ((spec_blit_covers(
                    i,
                    st,
                    op,
                    x_offset as int,
                    y_offset as int,
                    bw as int,
                    bh as int,
                ) && spec_blit_done(
                    i,
                    st,
                    op,
                    x_offset as int,
                    y_offset as int,
                    cx as int,
                    bh as int,
                )) == (spec_blit_covers(
                    i,
                    st,
                    op,
                    x_offset as int,
                    y_offset as int,
                    bw as int,
                    bh as int,
                ) && spec_blit_done(
                    i,
                    st,
                    op,
                    x_offset as int,
                    y_offset as int,
                    cx as int + 1,
                    0,
                ))) by {
                }
            }
            cx = cx + 1;
        }
        proof {
            assert forall|i: int|
                0 <= i < self.spec_bytes().len() && spec_blit_covers(
                    i,
                    st,
                    op,
                    x_offset as int,
                    y_offset as int,
                    bw as int,
                    bh as int,
                ) implies spec_blit_done(
                i,
                st,
                op,
                x_offset as int,
                y_offset as int,
                bw as int,
                0,
            ) by {
                let rows = old(self).framebuffer.var_screen_info.y_res as int;
                assert(self.spec_bytes().len() == st * rows);
                assert(st > 0 && op > 0) by (nonlinear_arith)
                    requires
                        0 <= i < st * rows,
                        st >= 0,
                        rows >= 0,
                        op >= 1,
                ;
                let col = i % st;
                assert(col / op < x_offset as int + bw as int) by {
                    vstd::arithmetic::div_mod::lemma_mod_bound(i, st);
                    crate::buffer::lemma_div_bound(col, op, x_offset as int + bw as int);
                }
            }
        }
    }
}


} // verus!
