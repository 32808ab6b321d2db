//! The external decompression collaborator. The decoder hands it the
//! reassembled compressed stream and takes back the decompressed bytes;
//! nothing else is asked of it.

use vstd::prelude::*;

verus! {

/// What the external zlib inflate collaborator yields for a compressed
/// byte sequence: the whole decompressed stream, or nothing when it
/// reports a stream error (truncated stream, bad checksum, invalid
/// codes). Decompression is a function of the input bytes alone.
pub uninterp spec fn zlib_inflate(compressed: Seq<u8>) -> Option<Seq<u8>>;

/// Relies on flate2's `ZlibDecoder` over a byte slice, drained with
/// `std::io::Read::read_to_end`: on success the output vector holds the
/// whole decompressed stream; an I/O error reports a corrupt or
/// truncated stream.
#[verifier::external_body]
pub(crate) fn inflate(compressed: &Vec<u8>) -> (r: Option<Vec<u8>>)
    ensures
        (match r {
            Option::Some(v) => zlib_inflate(compressed@) == Option::Some(v@),
            Option::None => zlib_inflate(compressed@) == Option::None::<Seq<u8>>,
        }),
{
    let mut decoder = flate2::read::ZlibDecoder::new(compressed.as_slice());
    let mut out = Vec::new();
    match std::io::Read::read_to_end(&mut decoder, &mut out) {
        Ok(_) => Some(out),
        Err(_) => None,
    }
}

} // verus!
