use vstd::prelude::*;

verus! {

/// Errors surfaced by device negotiation, geometry validation, and publishing.
#[derive(Clone, Copy, Debug)]
pub enum FbError {
    /// A device negotiation query failed; carries the raw status code.
    IoctlFailed { code: i32 },
    /// The mapped byte region could not be acquired, or its length does not
    /// match the discovered geometry.
    MappingFailed,
    /// The discovered pixel format cannot be packed: bits per pixel is not a
    /// whole number of bytes in `8..=32`, a channel bitfield is wider than 8
    /// bits, or a bitfield reaches past the pixel.
    UnsupportedConfiguration,
    /// Publishing to the device reported a non-benign failure; carries the raw
    /// OS status of the flush, if the OS supplied one.
    SyncFailed { status: Option<i32> },
}

} // verus!
