use vstd::prelude::*;

use crate::errors::FbError;

verus! {

#[verifier::external_type_specification]
#[verifier::external_body]
pub struct ExMmapMut(memmap::MmapMut);

/// What the mapped byte region holds, byte for byte.
pub uninterp spec fn mmap_bytes(m: memmap::MmapMut) -> Seq<u8>;

/// Relies on memmap::MmapMut's Deref to `[u8]`: the length of the mapped
/// region.
#[verifier::external_body]
pub(crate) fn mmap_len(m: &memmap::MmapMut) -> (r: usize)
    ensures
        r == mmap_bytes(*m).len(),
{
    m.len()
}

/// Relies on memmap::MmapMut's DerefMut to `[u8]` and
/// slice::copy_from_slice: replaces the `data.len()` bytes at `offset` and
/// leaves every other byte as it was.
#[verifier::external_body]
pub(crate) fn mmap_write(m: &mut memmap::MmapMut, offset: usize, data: &[u8])
    requires
        offset + data@.len() <= mmap_bytes(*old(m)).len(),
    ensures
        mmap_bytes(*final(m)).len() == mmap_bytes(*old(m)).len(),
        forall|i: int|
            0 <= i < mmap_bytes(*final(m)).len() ==> mmap_bytes(*final(m))[i] == (if offset <= i
                < offset + data@.len() {
                data@[i - offset]
            } else {
                mmap_bytes(*old(m))[i]
            }),
{
    m[offset..offset + data.len()].copy_from_slice(data);
}

/// Relies on memmap::MmapMut's Deref to `[u8]`: reads the byte at `i`.
#[verifier::external_body]
pub(crate) fn mmap_read(m: &memmap::MmapMut, i: usize) -> (r: u8)
    requires
        i < mmap_bytes(*m).len(),
    ensures
        r == mmap_bytes(*m)[i as int],
{
    m[i]
}

/// Relies on memmap::MmapMut::flush: pushes outstanding writes to the
/// backing device, without touching the mapped bytes. Returns `None` on a
/// clean flush, otherwise the raw OS status of the failure; which of these
/// comes back depends on the device and the moment, so nothing more is
/// promised of it.
#[verifier::external_body]
pub(crate) fn mmap_flush(m: &memmap::MmapMut) -> (r: Option<Option<i32>>) {
    match m.flush() {
        Ok(()) => None,
        Err(e) => Some(e.raw_os_error()),
    }
}

/// Which bits of a packed native pixel carry one color channel.
#[derive(Clone, Copy, Debug)]
pub struct FbBitfield {
    /// Beginning of bitfield: bit position inside the native pixel.
    pub offset: u32,
    /// Length of bitfield in bits.
    pub length: u32,
    /// Most significant bit is right (informational bit-order flag).
    pub msb_right: u32,
}

/// The top `length` bits of the 8-bit channel value `v`, shifted into the
/// bit positions that `bf` describes. A bitfield of length 0 contributes 0.
pub open spec fn spec_apply_bitfield(bf: FbBitfield, v: u8) -> u32 {
    ((v as u32) >> ((8 - bf.length) as u32)) << bf.offset
}

impl FbBitfield {
    /// Whether this bitfield fits a native pixel of `bpp` bits.
    pub open spec fn fits(self, bpp: u32) -> bool {
        &&& self.length <= 8
        &&& self.offset + self.length <= bpp
    }

    pub fn apply_bitfield(&self, v: u8) -> (r: u32)
        requires
            self.length <= 8,
            self.offset + self.length <= 32,
        ensures
            r == spec_apply_bitfield(*self, v),
    {
        if self.length == 0 {
            proof {
                lemma_apply_zero_length(*self, v);
            }
            0
        } else {
            let p = (v as u32) >> (8 - self.length);
            p << self.offset
        }
    }
}

/// A channel of length 0 is absent from the format and contributes nothing,
/// whatever its offset.
proof fn lemma_apply_zero_length(bf: FbBitfield, v: u8)
    requires
        bf.length == 0,
    ensures
        spec_apply_bitfield(bf, v) == 0,
{
    let off = bf.offset;
    assert(((v as u32) >> 8u32) << off == 0) by (bit_vector);
}

/// Variable geometry discovered from the device: resolution, pixel format,
/// channel bitfields, timing. Immutable after discovery.
#[derive(Clone, Copy, Debug)]
pub struct FbVarScreenInfo {
    /// Visible resolution x
    pub x_res: u32,
    /// Visible resolution y
    pub y_res: u32,
    /// Virtual resolution x
    pub x_res_virtual: u32,
    /// Virtual resolution y
    pub y_res_virtual: u32,
    /// Offset from virtual to visible resolution x
    pub x_offset: u32,
    /// Offset from virtual to visible resolution y
    pub y_offset: u32,
    /// Bits per pixel
    pub bits_per_pixel: u32,
    /// 0 = Color, 1 = Grayscale, > 1 = fourcc
    pub grayscale: u32,
    /// Red bitfield in the native pixel
    pub red: FbBitfield,
    /// Green bitfield in the native pixel
    pub green: FbBitfield,
    /// Blue bitfield in the native pixel
    pub blue: FbBitfield,
    /// Transparency bitfield in the native pixel
    pub transparent: FbBitfield,
    /// Non-standard pixel format if nonzero
    pub non_std: u32,
    /// Activation flags
    pub activate: u32,
    /// Height of picture in mm
    pub height: u32,
    /// Width of picture in mm
    pub width: u32,
    /// Obsolete acceleration flags
    pub acceleration_flags: u32,
    /// Pixel clock in picoseconds
    pub pixel_clock: u32,
    /// Time from sync to picture
    pub left_margin: u32,
    /// Time from picture to sync
    pub right_margin: u32,
    /// Time from sync to picture
    pub upper_margin: u32,
    /// Time from picture to sync
    pub lower_margin: u32,
    /// Length of horizontal sync
    pub hsync_len: u32,
    /// Length of vertical sync
    pub vsync_len: u32,
    /// Sync flags
    pub sync: u32,
    /// Video mode flags
    pub v_mode: u32,
    /// Angle of counter-clockwise rotation
    pub rotate: u32,
    /// Colorspace for fourcc-based modes
    pub colorspace: u32,
}

impl FbVarScreenInfo {
    /// The pixel format can be packed: a whole number of bytes per pixel, at
    /// most 32 bits, and every channel bitfield inside the pixel.
    pub open spec fn pixel_format_fits(self) -> bool {
        &&& self.bits_per_pixel % 8 == 0
        &&& 8 <= self.bits_per_pixel <= 32
        &&& self.red.fits(self.bits_per_pixel)
        &&& self.green.fits(self.bits_per_pixel)
        &&& self.blue.fits(self.bits_per_pixel)
        &&& self.transparent.fits(self.bits_per_pixel)
    }
}

/// Fixed geometry discovered from the device: identification, memory layout,
/// scanline stride, capabilities. Immutable after discovery.
#[derive(Clone, Copy, Debug)]
pub struct FbFixScreenInfo {
    /// Identification string
    pub id: [u8; 16],
    /// Start of framebuffer memory
    pub s_mem_start: u64,
    /// Length of framebuffer memory
    pub s_mem_len: u32,
    /// Framebuffer type
    pub fb_type: u32,
    /// Interleave for interleaved planes
    pub type_aux: u32,
    /// Visual type
    pub visual: u32,
    /// Zero if no hardware panning
    pub x_pan_step: u16,
    /// Zero if no hardware panning
    pub y_pan_step: u16,
    /// Zero if no hardware panning
    pub y_wrap_step: u16,
    /// Length of a scanline in bytes; may exceed the logical row size.
    pub line_length: u32,
    /// Start of memory mapped I/O
    pub memory_mapped_io_start: u64,
    /// Length of memory mapped I/O
    pub memory_mapped_io_len: u32,
    /// Chip or card in use
    pub acceleration: u32,
    /// Capability flags
    pub capabilities: u16,
}

fn bitfield_fits(bf: &FbBitfield, bpp: u32) -> (r: bool)
    ensures
        r == bf.fits(bpp),
{
    bf.length <= 8 && bf.offset <= bpp && bf.length <= bpp - bf.offset
}

/// Publishing outcomes that count as success beyond a clean flush: the one
/// platform quirk that reports "no error" through an error path.
pub open spec fn spec_benign_flush_status(status: Option<i32>) -> bool {
    status == Some(0i32)
}

/// How a raw flush outcome maps to the library's result: a clean flush and
/// the benign status are success; every other failure is fatal for the call.
pub open spec fn spec_flush_status(outcome: Option<Option<i32>>) -> Result<(), FbError> {
    match outcome {
        Option::None => Ok(()),
        Option::Some(status) => if spec_benign_flush_status(status) {
            Ok(())
        } else {
            Err(FbError::SyncFailed { status })
        },
    }
}

/// Classifies the raw OS outcome of a publish: exactly the clean flush and
/// the benign status succeed; everything else carries its raw status out.
pub fn flush_status(outcome: Option<Option<i32>>) -> (r: Result<(), FbError>)
    ensures
        r == spec_flush_status(outcome),
{
    match outcome {
        Option::None => Ok(()),
        Option::Some(status) => {
            let benign = match status {
                Option::Some(code) => code == 0,
                Option::None => false,
            };
            if benign {
                Ok(())
            } else {
                Err(FbError::SyncFailed { status })
            }
        },
    }
}

/// The display surface: the raw mutable byte region of the device together
/// with the geometry discovered for it.
pub struct Framebuffer {
    /// The mapped byte region, exactly stride x height bytes.
    pub frame: memmap::MmapMut,
    /// Fixed geometry: stride, memory layout.
    pub fix_screen_info: FbFixScreenInfo,
    /// Variable geometry: resolution, pixel format.
    pub var_screen_info: FbVarScreenInfo,
}

impl Framebuffer {
    /// The bytes the mapped surface holds.
    pub open spec fn spec_bytes(self) -> Seq<u8> {
        mmap_bytes(self.frame)
    }

    /// Bytes per scanline of the mapped region.
    pub open spec fn spec_stride(self) -> int {
        self.fix_screen_info.line_length as int
    }

    /// Bytes per packed native pixel.
    pub open spec fn spec_bytes_per_pixel(self) -> int {
        self.var_screen_info.bits_per_pixel as int / 8
    }

    /// The geometry is consistent with the mapped region: a packable pixel
    /// format, a stride that holds at least one full row of pixels, and a
    /// mapping of exactly stride x visible-height bytes.
    pub open spec fn wf(self) -> bool {
        &&& self.var_screen_info.pixel_format_fits()
        &&& self.spec_stride() >= self.var_screen_info.x_res * self.spec_bytes_per_pixel()
        &&& self.spec_bytes().len() == self.spec_stride() * self.var_screen_info.y_res
        &&& self.spec_stride() * self.var_screen_info.y_res <= usize::MAX
    }

    /// Whether the discovered geometry and the mapped length fit together.
    pub open spec fn spec_geometry_ok(
        frame: memmap::MmapMut,
        var: FbVarScreenInfo,
        fix: FbFixScreenInfo,
    ) -> bool {
        &&& fix.line_length >= var.x_res * (var.bits_per_pixel as int / 8)
        &&& mmap_bytes(frame).len() == fix.line_length * var.y_res
    }

    /// Validates the discovered geometry against the mapped region and owns
    /// them as one surface. Succeeds exactly when the pixel format can be
    /// packed and the mapping holds stride x height bytes: an unpackable
    /// format is rejected here, before any draw call, never per draw.
    pub fn new(
        frame: memmap::MmapMut,
        var_screen_info: FbVarScreenInfo,
        fix_screen_info: FbFixScreenInfo,
    ) -> (r: Result<Framebuffer, FbError>)
        ensures
            r is Ok <==> (var_screen_info.pixel_format_fits() && Self::spec_geometry_ok(
                frame,
                var_screen_info,
                fix_screen_info,
            )),
            (match r {
                Ok(fb) => {
                    &&& fb.wf()
                    &&& fb.frame == frame
                    &&& fb.var_screen_info == var_screen_info
                    &&& fb.fix_screen_info == fix_screen_info
                },
                Err(e) => {
                    &&& !var_screen_info.pixel_format_fits() ==> e is UnsupportedConfiguration
                    &&& var_screen_info.pixel_format_fits() ==> e is MappingFailed
                },
            }),
    {
        let bpp = var_screen_info.bits_per_pixel;
        let format_ok = bpp % 8 == 0 && bpp >= 8 && bpp <= 32 && bitfield_fits(
            &var_screen_info.red,
            bpp,
        ) && bitfield_fits(&var_screen_info.green, bpp) && bitfield_fits(
            &var_screen_info.blue,
            bpp,
        ) && bitfield_fits(&var_screen_info.transparent, bpp);
        if !format_ok {
            return Err(FbError::UnsupportedConfiguration);
        }
        let stride = fix_screen_info.line_length;
        proof {
            assert((var_screen_info.x_res as u64) * ((bpp / 8) as u64) < 0xffff_ffff_ffff_ffff)
                by (nonlinear_arith)
                requires
                    var_screen_info.x_res < 0x1_0000_0000,
                    bpp / 8 < 0x1_0000_0000,
            ;
        }
        let row_bytes = (var_screen_info.x_res as u64) * ((bpp / 8) as u64);
        proof {
            assert((stride as u64) * (var_screen_info.y_res as u64) < 0xffff_ffff_ffff_ffff)
                by (nonlinear_arith)
                requires
                    stride < 0x1_0000_0000,
                    var_screen_info.y_res < 0x1_0000_0000,
            ;
        }
        let need = (stride as u64) * (var_screen_info.y_res as u64);
        let frame_len = mmap_len(&frame);
        if (stride as u64) < row_bytes || (frame_len as u64) != need {
            return Err(FbError::MappingFailed);
        }
        Ok(Framebuffer { frame, fix_screen_info, var_screen_info })
    }

    /// Replaces the whole mapped region with `frame`, which must hold
    /// exactly as many bytes as the region.
    pub fn write_frame(&mut self, frame: &[u8]) -> (r: Result<(), FbError>)
        requires
            frame@.len() == mmap_bytes(old(self).frame).len(),
        ensures
            r is Ok,
            final(self).var_screen_info == old(self).var_screen_info,
            final(self).fix_screen_info == old(self).fix_screen_info,
            mmap_bytes(final(self).frame) == frame@,
    {
        mmap_write(&mut self.frame, 0, frame);
        proof {
            assert(mmap_bytes(self.frame) =~= frame@);
        }
        Ok(())
    }

    /// Publishes outstanding writes to the device. The surface itself is
    /// unchanged whatever the device reports; a non-benign flush failure
    /// surfaces as SyncFailed carrying its raw status.
    pub fn update(&mut self) -> (r: Result<(), FbError>)
        ensures
            *final(self) == *old(self),
            (match r {
                Ok(u) => true,
                Err(FbError::SyncFailed { status }) => !spec_benign_flush_status(status),
                Err(e) => false,
            }),
    {
        let outcome = mmap_flush(&self.frame);
        flush_status(outcome)
    }

    /// Reads back one byte of the mapped region.
    pub fn byte_at(&self, i: usize) -> (r: u8)
        requires
            i < mmap_bytes(self.frame).len(),
        ensures
            r == mmap_bytes(self.frame)[i as int],
    {
        mmap_read(&self.frame, i)
    }

    /// The length of the mapped region in bytes.
    pub fn frame_len(&self) -> (r: usize)
        ensures
            r == mmap_bytes(self.frame).len(),
    {
        mmap_len(&self.frame)
    }
}

} // verus!
