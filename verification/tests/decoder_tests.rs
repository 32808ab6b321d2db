use png::decoder::Decoder;
use png::error::DecodeError;
use png::grammar::{Chunk, ColorType, Png};

use std::io::Write;

/// Compresses bytes into a zlib stream, as an encoder would for the
/// image-data chunks.
fn zlib(data: &[u8]) -> Vec<u8> {
    let mut enc = flate2::write::ZlibEncoder::new(Vec::new(), flate2::Compression::default());
    enc.write_all(data).unwrap();
    enc.finish().unwrap()
}

/// One chunk record: length, type tag, payload, and a dummy checksum
/// (checksums are read and discarded by the decoder).
fn chunk(tag: &[u8; 4], payload: &[u8]) -> Vec<u8> {
    let mut out = Vec::new();
    out.extend_from_slice(&(payload.len() as u32).to_be_bytes());
    out.extend_from_slice(tag);
    out.extend_from_slice(payload);
    out.extend_from_slice(&[0, 0, 0, 0]);
    out
}

/// The 13-byte header payload.
fn ihdr_payload(
    width: u32,
    height: u32,
    bit_depth: u8,
    color_type: u8,
    filter_method: u8,
    interlace: u8,
) -> Vec<u8> {
    let mut p = Vec::new();
    p.extend_from_slice(&width.to_be_bytes());
    p.extend_from_slice(&height.to_be_bytes());
    p.push(bit_depth);
    p.push(color_type);
    p.push(0);
    p.push(filter_method);
    p.push(interlace);
    p
}

const SIGNATURE: [u8; 8] = [0x89, 0x50, 0x4E, 0x47, 0x0D, 0x0A, 0x1A, 0x0A];

/// A whole stream: signature, header, one image-data chunk holding the
/// zlib-compressed scanline stream, and the end marker.
fn png_stream(header_payload: &[u8], scanlines: &[u8]) -> Vec<u8> {
    let mut out = Vec::new();
    out.extend_from_slice(&SIGNATURE);
    out.extend_from_slice(&chunk(b"IHDR", header_payload));
    out.extend_from_slice(&chunk(b"IDAT", &zlib(scanlines)));
    out.extend_from_slice(&chunk(b"IEND", &[]));
    out
}

/// The Paeth predictor, as the format defines it.
fn paeth_ref(a: u8, b: u8, c: u8) -> u8 {
    let p = a as i16 + b as i16 - c as i16;
    let pa = (p - a as i16).abs();
    let pb = (p - b as i16).abs();
    let pc = (p - c as i16).abs();
    if pa <= pb && pa <= pc {
        a
    } else if pb <= pc {
        b
    } else {
        c
    }
}

/// Applies one scanline filter forward, as an encoder would.
fn filter_row_ref(filter: u8, raw: &[u8], prev: &[u8], ch: usize) -> Vec<u8> {
    let mut out = Vec::new();
    for j in 0..raw.len() {
        let left = if j >= ch { raw[j - ch] } else { 0 };
        let up = prev[j];
        let up_left = if j >= ch { prev[j - ch] } else { 0 };
        let pred = match filter {
            0 => 0,
            1 => left,
            2 => up,
            3 => ((left as u16 + up as u16) / 2) as u8,
            4 => paeth_ref(left, up, up_left),
            _ => unreachable!(),
        };
        out.push(raw[j].wrapping_sub(pred));
    }
    out
}

/// A fixed 32-by-32 grayscale-plus-alpha reference image: two channels,
/// 8-bit, with a deterministic pattern.
fn reference_pixels() -> Vec<u8> {
    let mut raw = Vec::new();
    for y in 0u32..32 {
        for x in 0u32..32 {
            raw.push(((x * 7 + y * 13) % 256) as u8);
            raw.push(((x * 3 + y * 31 + 128) % 256) as u8);
        }
    }
    raw
}

/// Encodes the reference image with one filter tag on every scanline.
fn reference_stream(filter: u8) -> Vec<u8> {
    let raw = reference_pixels();
    let bpr = 32 * 2;
    let mut scanlines = Vec::new();
    let zero = vec![0u8; bpr];
    for r in 0..32 {
        let row = &raw[r * bpr..(r + 1) * bpr];
        let prev = if r == 0 {
            &zero[..]
        } else {
            &raw[(r - 1) * bpr..r * bpr]
        };
        scanlines.push(filter);
        scanlines.extend_from_slice(&filter_row_ref(filter, row, prev, 2));
    }
    png_stream(&ihdr_payload(32, 32, 8, 4, 0, 0), &scanlines)
}

fn decode_reference(filter: u8) -> Png {
    let stream = reference_stream(filter);
    let mut decoder = Decoder::new(&stream);
    let png = decoder.decode().unwrap();
    let (width, height) = png.dimension();
    assert_eq!(width, 32);
    assert_eq!(height, 32);
    assert_eq!(png.color_type, ColorType::GrayscaleAlpha);
    assert_eq!(png.image_data, reference_pixels());
    png
}

#[test]
fn test_filter_0() {
    decode_reference(0);
}

#[test]
fn test_filter_1() {
    decode_reference(1);
}

#[test]
fn test_filter_2() {
    decode_reference(2);
}

#[test]
fn test_filter_3() {
    decode_reference(3);
}

#[test]
fn test_filter_4() {
    decode_reference(4);
}

#[test]
fn test_filter_equivalence_end_to_end() {
    let first = decode_reference(0);
    for filter in 1u8..=4 {
        let other = decode_reference(filter);
        assert_eq!(first.image_data, other.image_data);
        assert_eq!(other.dimension(), (32, 32));
    }
}

#[test]
fn test_mixed_filters_decode_to_reference() {
    let raw = reference_pixels();
    let bpr = 32 * 2;
    let zero = vec![0u8; bpr];
    let mut scanlines = Vec::new();
    for r in 0..32 {
        let filter = (r % 5) as u8;
        let row = &raw[r * bpr..(r + 1) * bpr];
        let prev = if r == 0 {
            &zero[..]
        } else {
            &raw[(r - 1) * bpr..r * bpr]
        };
        scanlines.push(filter);
        scanlines.extend_from_slice(&filter_row_ref(filter, row, prev, 2));
    }
    let stream = png_stream(&ihdr_payload(32, 32, 8, 4, 0, 0), &scanlines);
    let png = Decoder::new(&stream).decode().unwrap();
    assert_eq!(png.image_data, raw);
}

#[test]
fn test_invalid_signature() {
    let mut stream = reference_stream(0);
    stream[0] = 0x88;
    assert_eq!(
        Decoder::new(&stream).decode(),
        Err(DecodeError::InvalidSignature)
    );
}

#[test]
fn test_truncation_every_offset_reports_eof() {
    let stream = reference_stream(2);
    // Chunk parsing completes just past the end marker's type tag, which
    // sits 8 bytes before the end marker's trailing checksum.
    let complete = stream.len() - 4;
    for t in 0..complete {
        let result = Decoder::new(&stream[..t]).decode();
        assert_eq!(result, Err(DecodeError::UnexpectedEof), "offset {}", t);
    }
}

#[test]
fn test_missing_header_when_first_chunk_is_not_header() {
    let mut stream = Vec::new();
    stream.extend_from_slice(&SIGNATURE);
    stream.extend_from_slice(&chunk(b"gAMA", &[0, 0, 0, 1]));
    stream.extend_from_slice(&chunk(b"IEND", &[]));
    assert_eq!(
        Decoder::new(&stream).decode(),
        Err(DecodeError::MissingHeader)
    );
}

#[test]
fn test_missing_header_when_stream_is_empty_of_chunks() {
    let mut stream = Vec::new();
    stream.extend_from_slice(&SIGNATURE);
    stream.extend_from_slice(&chunk(b"IEND", &[]));
    assert_eq!(
        Decoder::new(&stream).decode(),
        Err(DecodeError::MissingHeader)
    );
}

#[test]
fn test_chunk_order_rejection() {
    // An ancillary chunk standing between two image-data chunks.
    let scanlines = [0u8, 5, 6];
    let compressed = zlib(&scanlines);
    let (a, b) = compressed.split_at(compressed.len() / 2);
    let mut stream = Vec::new();
    stream.extend_from_slice(&SIGNATURE);
    stream.extend_from_slice(&chunk(b"IHDR", &ihdr_payload(1, 1, 8, 4, 0, 0)));
    stream.extend_from_slice(&chunk(b"IDAT", a));
    stream.extend_from_slice(&chunk(b"tIME", &[0, 0, 0, 0, 0, 0, 0]));
    stream.extend_from_slice(&chunk(b"IDAT", b));
    stream.extend_from_slice(&chunk(b"IEND", &[]));
    assert_eq!(
        Decoder::new(&stream).decode(),
        Err(DecodeError::MalformedChunkOrder)
    );
}

#[test]
fn test_consecutive_data_chunks_decode() {
    // The same split stream with no chunk in between decodes fine, and
    // trailing ancillary chunks before the end marker are accepted.
    let scanlines = [0u8, 5, 6];
    let compressed = zlib(&scanlines);
    let (a, b) = compressed.split_at(compressed.len() / 2);
    let mut stream = Vec::new();
    stream.extend_from_slice(&SIGNATURE);
    stream.extend_from_slice(&chunk(b"IHDR", &ihdr_payload(1, 1, 8, 4, 0, 0)));
    stream.extend_from_slice(&chunk(b"IDAT", a));
    stream.extend_from_slice(&chunk(b"IDAT", b));
    stream.extend_from_slice(&chunk(b"tIME", &[0, 0, 0, 0, 0, 0, 0]));
    stream.extend_from_slice(&chunk(b"IEND", &[]));
    let png = Decoder::new(&stream).decode().unwrap();
    assert_eq!(png.image_data, vec![5, 6]);
    assert_eq!(png.dimension(), (1, 1));
}

#[test]
fn test_ancillary_chunk_before_data_is_accepted() {
    let scanlines = [0u8, 5, 6];
    let mut stream = Vec::new();
    stream.extend_from_slice(&SIGNATURE);
    stream.extend_from_slice(&chunk(b"IHDR", &ihdr_payload(1, 1, 8, 4, 0, 0)));
    stream.extend_from_slice(&chunk(b"gAMA", &[0, 0, 0, 1]));
    stream.extend_from_slice(&chunk(b"IDAT", &zlib(&scanlines)));
    stream.extend_from_slice(&chunk(b"IEND", &[]));
    let png = Decoder::new(&stream).decode().unwrap();
    assert_eq!(png.image_data, vec![5, 6]);
}

#[test]
fn test_palette_chunk_is_unsupported() {
    let mut stream = Vec::new();
    stream.extend_from_slice(&SIGNATURE);
    stream.extend_from_slice(&chunk(b"IHDR", &ihdr_payload(1, 1, 8, 3, 0, 0)));
    stream.extend_from_slice(&chunk(b"PLTE", &[1, 2, 3]));
    stream.extend_from_slice(&chunk(b"IEND", &[]));
    assert_eq!(
        Decoder::new(&stream).decode(),
        Err(DecodeError::UnsupportedColorType)
    );
}

#[test]
fn test_palette_color_type_is_unsupported() {
    let stream = png_stream(&ihdr_payload(1, 1, 8, 3, 0, 0), &[0, 7]);
    assert_eq!(
        Decoder::new(&stream).decode(),
        Err(DecodeError::UnsupportedColorType)
    );
}

#[test]
fn test_unknown_color_code_is_unsupported() {
    let stream = png_stream(&ihdr_payload(1, 1, 8, 5, 0, 0), &[0, 7]);
    assert_eq!(
        Decoder::new(&stream).decode(),
        Err(DecodeError::UnsupportedColorType)
    );
}

#[test]
fn test_sub_byte_bit_depth_is_unsupported() {
    let stream = png_stream(&ihdr_payload(1, 1, 4, 0, 0, 0), &[0, 7]);
    assert_eq!(
        Decoder::new(&stream).decode(),
        Err(DecodeError::UnsupportedColorType)
    );
}

#[test]
fn test_nonzero_filter_method_is_unsupported() {
    let stream = png_stream(&ihdr_payload(1, 1, 8, 4, 1, 0), &[0, 5, 6]);
    assert_eq!(
        Decoder::new(&stream).decode(),
        Err(DecodeError::UnsupportedFilterMethod)
    );
}

#[test]
fn test_interlace_is_unsupported() {
    let stream = png_stream(&ihdr_payload(1, 1, 8, 4, 0, 1), &[0, 5, 6]);
    assert_eq!(
        Decoder::new(&stream).decode(),
        Err(DecodeError::UnsupportedInterlace)
    );
}

#[test]
fn test_invalid_filter_type() {
    let stream = png_stream(&ihdr_payload(1, 1, 8, 4, 0, 0), &[5, 5, 6]);
    assert_eq!(
        Decoder::new(&stream).decode(),
        Err(DecodeError::InvalidFilterType)
    );
}

#[test]
fn test_decompression_failed_on_garbage_data() {
    let mut stream = Vec::new();
    stream.extend_from_slice(&SIGNATURE);
    stream.extend_from_slice(&chunk(b"IHDR", &ihdr_payload(1, 1, 8, 4, 0, 0)));
    stream.extend_from_slice(&chunk(b"IDAT", &[0xDE, 0xAD, 0xBE, 0xEF]));
    stream.extend_from_slice(&chunk(b"IEND", &[]));
    assert_eq!(
        Decoder::new(&stream).decode(),
        Err(DecodeError::DecompressionFailed)
    );
}

#[test]
fn test_decompression_failed_without_data_chunks() {
    let mut stream = Vec::new();
    stream.extend_from_slice(&SIGNATURE);
    stream.extend_from_slice(&chunk(b"IHDR", &ihdr_payload(1, 1, 8, 4, 0, 0)));
    stream.extend_from_slice(&chunk(b"IEND", &[]));
    assert_eq!(
        Decoder::new(&stream).decode(),
        Err(DecodeError::DecompressionFailed)
    );
}

#[test]
fn test_reconstruction_size_mismatch() {
    // The decompressed stream holds one byte too many for a 1x1
    // two-channel image.
    let stream = png_stream(&ihdr_payload(1, 1, 8, 4, 0, 0), &[0, 5, 6, 7]);
    assert_eq!(
        Decoder::new(&stream).decode(),
        Err(DecodeError::ReconstructionSizeMismatch)
    );
}

#[test]
fn test_sixteen_bit_channels_decode() {
    // 16-bit grayscale, 2x1: two bytes per sample, left offset is the
    // channel count, exactly as the engine defines it.
    let scanlines = [0u8, 0x12, 0x34, 0x56, 0x78];
    let stream = png_stream(&ihdr_payload(2, 1, 16, 0, 0, 0), &scanlines);
    let png = Decoder::new(&stream).decode().unwrap();
    assert_eq!(png.image_data, vec![0x12, 0x34, 0x56, 0x78]);
}

#[test]
fn test_paeth_tie_breaks() {
    let d = Decoder::new(&[]);
    // All three distances tie: the left neighbor wins.
    assert_eq!(d.paeth(7, 7, 7), 7);
    assert_eq!(d.paeth(0, 0, 0), 0);
    // Left and up tie: left wins over up.
    assert_eq!(d.paeth(3, 3, 5), 3);
    // Up and up-left tie strictly closer than left: up wins.
    assert_eq!(d.paeth(4, 1, 3), 1);
    // Up-left strictly closest: it wins.
    assert_eq!(d.paeth(1, 5, 3), 3);
}

#[test]
fn test_parse_chunks_kinds_and_payloads() {
    let mut stream = Vec::new();
    stream.extend_from_slice(&chunk(b"IHDR", &ihdr_payload(2, 3, 8, 4, 0, 0)));
    stream.extend_from_slice(&chunk(b"gAMA", &[0, 0, 0, 1]));
    stream.extend_from_slice(&chunk(b"IDAT", &[0xAB, 0xCD]));
    stream.extend_from_slice(&chunk(b"IEND", &[]));
    let mut d = Decoder::new(&stream);
    let chunks = d.parse_chunks().unwrap();
    assert_eq!(chunks.len(), 3);
    match &chunks[0] {
        Chunk::ImageHeader(h) => {
            assert_eq!(h.width, 2);
            assert_eq!(h.height, 3);
            assert_eq!(h.bit_depth, 8);
            assert_eq!(h.color_type, ColorType::GrayscaleAlpha);
            assert_eq!(h.filter_method, 0);
            assert!(!h.interlace_method);
        }
        _ => panic!("expected a header chunk"),
    }
    match &chunks[1] {
        // "gAMA" as a big-endian type tag.
        Chunk::Other(tag) => assert_eq!(*tag, 0x67414D41),
        _ => panic!("expected a skipped chunk"),
    }
    match &chunks[2] {
        Chunk::ImageData(p) => assert_eq!(p, &vec![0xAB, 0xCD]),
        _ => panic!("expected an image data chunk"),
    }
}

#[test]
fn test_cursor_reads() {
    let data = [1u8, 2, 3, 4, 5];
    let mut d = Decoder::new(&data);
    assert_eq!(d.eof(5), Ok(()));
    assert_eq!(d.eof(6), Err(DecodeError::UnexpectedEof));
    assert_eq!(d.read_u8(), Ok(1));
    assert_eq!(d.read_u32(), Ok(0x02030405));
    assert_eq!(d.read_u8(), Err(DecodeError::UnexpectedEof));
}

#[test]
fn test_cursor_slice_and_skip() {
    let data = [9u8, 8, 7, 6];
    let mut d = Decoder::new(&data);
    assert_eq!(d.read_slice(2), Ok(vec![9, 8]));
    assert_eq!(d.skip(1), Ok(()));
    assert_eq!(d.read_slice(2), Err(DecodeError::UnexpectedEof));
    assert_eq!(d.read_slice(1), Ok(vec![6]));
    assert_eq!(d.skip(1), Err(DecodeError::UnexpectedEof));
}
