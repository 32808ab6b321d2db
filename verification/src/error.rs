//! The failure taxonomy of the decoder. Every fallible step reports one of
//! these variants; decoding never panics on malformed or truncated input.

use vstd::prelude::*;

verus! {

/// Everything that can go wrong while decoding a PNG byte stream.
#[derive(Clone, Copy, Debug, PartialEq, Eq, Structural)]
pub enum DecodeError {
    /// The buffer does not begin with the fixed 8-byte PNG signature.
    InvalidSignature,
    /// The cursor ran past the end of the buffer.
    UnexpectedEof,
    /// The first chunk is not an image header.
    MissingHeader,
    /// A non-data chunk stands between two image-data chunks.
    MalformedChunkOrder,
    /// Palette images, sub-byte bit depths, or an unknown color-type code.
    UnsupportedColorType,
    /// A filter method other than 0, the only standardized one.
    UnsupportedFilterMethod,
    /// An interlaced image; only non-interlaced images are supported.
    UnsupportedInterlace,
    /// A per-row filter tag outside the range 0 to 4.
    InvalidFilterType,
    /// The external inflate collaborator reported a stream error.
    DecompressionFailed,
    /// The decompressed stream does not hold exactly `height` records of
    /// `1 + bytes_per_row` bytes.
    ReconstructionSizeMismatch,
}

} // verus!
