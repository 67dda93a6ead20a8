//! Decode a chunked, filtered, zlib-compressed RGBA/RGB raster and render it
//! as a palette-indexed sixel escape stream for a text terminal.
use vstd::prelude::*;

pub mod container;
pub mod decode;
pub mod dither;
pub mod filter;
mod parallel;
pub mod pipeline;
pub mod quantize;
pub mod resample;
pub mod sixel;

verus! {

/// The ways a raster can fail to decode.
#[derive(Debug, Clone, Copy, PartialEq, Eq, Structural)]
pub enum DecodeError {
    /// The signature is wrong, or the header chunk has the wrong size.
    FormatError,
    /// A required chunk is missing or out of order.
    StructureError,
    /// The input ends in the middle of a chunk.
    TruncatedError,
    /// Unknown filter mode, failed decompression, or a size mismatch.
    CorruptDataError,
    /// A bit depth, color model or interlace method outside 8-bit RGB/RGBA.
    UnsupportedError,
}

} // verus!
