//! The mathematical model of the chunk stream: what a byte buffer parses
//! to. The stream is the fixed 8-byte signature followed by chunk
//! records — a big-endian 32-bit length, a 4-byte type tag, `length`
//! payload bytes, and a 32-bit checksum (read and discarded) — until an
//! end-marker tag terminates the sequence.

use vstd::prelude::*;

use crate::error::DecodeError;
use crate::grammar::{ChunkModel, ColorType, ImageHeader};

verus! {

/// The type tag of the image-header chunk, as a big-endian 32-bit value.
pub const TAG_IHDR: u32 = 0x4948_4452;

/// The type tag of the palette chunk, which this decoder does not support.
pub const TAG_PLTE: u32 = 0x504C_5445;

/// The type tag of an image-data chunk.
pub const TAG_IDAT: u32 = 0x4944_4154;

/// The type tag of the end marker.
pub const TAG_IEND: u32 = 0x4945_4E44;

/// The big-endian value of four bytes.
pub open spec fn be32(b0: u8, b1: u8, b2: u8, b3: u8) -> u32 {
    (b0 * 0x100_0000 + b1 * 0x1_0000 + b2 * 0x100 + b3) as u32
}

/// The big-endian 32-bit value read at position `pos`.
pub open spec fn be32_at(d: Seq<u8>, pos: int) -> u32 {
    be32(d[pos], d[pos + 1], d[pos + 2], d[pos + 3])
}

/// The fixed 8-byte signature every stream must begin with.
pub open spec fn signature() -> Seq<u8> {
    seq![0x89u8, 0x50u8, 0x4Eu8, 0x47u8, 0x0Du8, 0x0Au8, 0x1Au8, 0x0Au8]
}

/// The header fields read from a header chunk's payload: width, height,
/// bit depth, color type, compression method, filter method, interlace
/// flag. A payload shorter than 13 bytes runs out while being read; an
/// unknown color-type code is an unsupported color type.
pub open spec fn spec_parse_header(p: Seq<u8>) -> Result<ImageHeader, DecodeError> {
    if p.len() < 13 {
        Err(DecodeError::UnexpectedEof)
    } else {
        match ColorType::spec_from_code(p[9]) {
            Option::None => Err(DecodeError::UnsupportedColorType),
            Option::Some(ct) => Ok(
                ImageHeader {
                    width: be32_at(p, 0),
                    height: be32_at(p, 4),
                    bit_depth: p[8],
                    color_type: ct,
                    compression_method: p[10],
                    filter_method: p[11],
                    interlace_method: p[12] == 1,
                },
            ),
        }
    }
}

/// The chunk sequence parsed from position `pos` up to and including the
/// end marker, and the position just past the marker's type tag. Each
/// record must fit in the buffer, payload and checksum included; a
/// palette chunk is rejected as unsupported; unrecognized tags keep only
/// their type tag.
pub open spec fn spec_parse_chunks(d: Seq<u8>, pos: nat) -> Result<
    (Seq<ChunkModel>, nat),
    DecodeError,
>
    decreases d.len() - pos,
{
    if pos + 8 > d.len() {
        Err(DecodeError::UnexpectedEof)
    } else {
        let length = be32_at(d, pos as int) as nat;
        let tag = be32_at(d, pos as int + 4);
        if tag == TAG_IEND {
            Ok((Seq::empty(), pos + 8))
        } else if pos + 12 + length > d.len() {
            Err(DecodeError::UnexpectedEof)
        } else {
            let payload = d.subrange((pos + 8) as int, (pos + 8 + length) as int);
            let step: Result<ChunkModel, DecodeError> = if tag == TAG_IHDR {
                match spec_parse_header(payload) {
                    Ok(h) => Ok(ChunkModel::ImageHeader(h)),
                    Err(e) => Err(e),
                }
            } else if tag == TAG_PLTE {
                Err(DecodeError::UnsupportedColorType)
            } else if tag == TAG_IDAT {
                Ok(ChunkModel::ImageData(payload))
            } else {
                Ok(ChunkModel::Other(tag))
            };
            match step {
                Err(e) => Err(e),
                Ok(c) => match spec_parse_chunks(d, pos + 12 + length) {
                    Ok(r) => Ok((seq![c] + r.0, r.1)),
                    Err(e) => Err(e),
                },
            }
        }
    }
}

/// The chunk sequence of a whole stream starting at `start`: the
/// signature, then the chunks up to the end marker.
pub open spec fn spec_decode_chunks(d: Seq<u8>, start: nat) -> Result<
    (Seq<ChunkModel>, nat),
    DecodeError,
> {
    if start + 8 > d.len() {
        Err(DecodeError::UnexpectedEof)
    } else if d.subrange(start as int, (start + 8) as int) != signature() {
        Err(DecodeError::InvalidSignature)
    } else {
        spec_parse_chunks(d, start + 8)
    }
}

/// Whether a chunk carries a fragment of the compressed image data.
pub open spec fn is_data(c: ChunkModel) -> bool {
    c matches ChunkModel::ImageData(_)
}

/// The chunk-order policy: the image-data chunks form one gapless run.
/// No data chunk may follow a non-data chunk that itself follows a data
/// chunk; ancillary chunks before the run and after it are accepted.
pub open spec fn order_ok(chunks: Seq<ChunkModel>) -> bool {
    forall|i: int, j: int, k: int|
        0 <= i < j < k < chunks.len() && is_data(#[trigger] chunks[i]) && !is_data(
            #[trigger] chunks[j],
        ) ==> !is_data(#[trigger] chunks[k])
}

/// The concatenated payloads of the image-data chunks, in the order they
/// appear.
pub open spec fn concat_data(chunks: Seq<ChunkModel>) -> Seq<u8>
    decreases chunks.len(),
{
    if chunks.len() == 0 {
        Seq::empty()
    } else {
        (match chunks[0] {
            ChunkModel::ImageData(p) => p,
            _ => Seq::empty(),
        }) + concat_data(chunks.subrange(1, chunks.len() as int))
    }
}

/// Truncating a buffer whose chunk records parse to completion, at any
/// point before the position where parsing completed, makes parsing run
/// out of bytes: it reports exactly an unexpected end of file.
pub proof fn lemma_parse_chunks_truncated(
    d: Seq<u8>,
    pos: nat,
    chunks: Seq<ChunkModel>,
    end: nat,
    t: int,
)
    requires
        spec_parse_chunks(d, pos) == Ok::<(Seq<ChunkModel>, nat), DecodeError>((chunks, end)),
        0 <= t < end,
        t <= d.len(),
    ensures
        spec_parse_chunks(d.take(t), pos) == Err::<(Seq<ChunkModel>, nat), DecodeError>(
            DecodeError::UnexpectedEof,
        ),
    decreases d.len() - pos,
{
    let short = d.take(t);
    if pos + 8 > t {
        assert(spec_parse_chunks(short, pos) == Err::<(Seq<ChunkModel>, nat), DecodeError>(
            DecodeError::UnexpectedEof,
        ));
    } else {
        assert(be32_at(short, pos as int) == be32_at(d, pos as int));
        assert(be32_at(short, pos as int + 4) == be32_at(d, pos as int + 4));
        let length = be32_at(d, pos as int) as nat;
        let tag = be32_at(d, pos as int + 4);
        assert(tag != TAG_IEND) by {
            if tag == TAG_IEND {
                assert(end == pos + 8);
            }
        }
        assert(pos + 12 + length <= d.len());
        if pos + 12 + length > t {
            assert(spec_parse_chunks(short, pos) == Err::<(Seq<ChunkModel>, nat), DecodeError>(
                DecodeError::UnexpectedEof,
            ));
        } else {
            assert(short.subrange((pos + 8) as int, (pos + 8 + length) as int) =~= d.subrange(
                (pos + 8) as int,
                (pos + 8 + length) as int,
            ));
            let rest = spec_parse_chunks(d, pos + 12 + length);
            assert(rest is Ok && rest->Ok_0.1 == end);
            lemma_parse_chunks_truncated(d, pos + 12 + length, rest->Ok_0.0, end, t);
        }
    }
}

/// Truncating a stream whose signature and chunk sequence parse to
/// completion, at any point before parsing completed, fails with
/// exactly an unexpected end of file — never any other report.
pub proof fn lemma_decode_chunks_truncated(
    d: Seq<u8>,
    start: nat,
    chunks: Seq<ChunkModel>,
    end: nat,
    t: int,
)
    requires
        spec_decode_chunks(d, start) == Ok::<(Seq<ChunkModel>, nat), DecodeError>((chunks, end)),
        0 <= t < end,
        t <= d.len(),
    ensures
        spec_decode_chunks(d.take(t), start) == Err::<(Seq<ChunkModel>, nat), DecodeError>(
            DecodeError::UnexpectedEof,
        ),
{
    let short = d.take(t);
    assert(start + 8 <= d.len());
    assert(end >= start + 8) by {
        lemma_parse_chunks_end(d, start + 8, chunks, end);
    }
    if start + 8 > t {
        assert(spec_decode_chunks(short, start) == Err::<(Seq<ChunkModel>, nat), DecodeError>(
            DecodeError::UnexpectedEof,
        ));
    } else {
        assert(short.subrange(start as int, (start + 8) as int) =~= d.subrange(
            start as int,
            (start + 8) as int,
        ));
        lemma_parse_chunks_truncated(d, start + 8, chunks, end, t);
    }
}

/// Parsing only moves forward: the position where the chunk sequence
/// completes lies at or past the position where it began.
pub proof fn lemma_parse_chunks_end(d: Seq<u8>, pos: nat, chunks: Seq<ChunkModel>, end: nat)
    requires
        spec_parse_chunks(d, pos) == Ok::<(Seq<ChunkModel>, nat), DecodeError>((chunks, end)),
    ensures
        pos + 8 <= end <= d.len(),
    decreases d.len() - pos,
{
    let length = be32_at(d, pos as int) as nat;
    let tag = be32_at(d, pos as int + 4);
    if tag != TAG_IEND {
        let rest = spec_parse_chunks(d, pos + 12 + length);
        lemma_parse_chunks_end(d, pos + 12 + length, rest->Ok_0.0, end);
    }
}

/// Appending one chunk appends its payload (or nothing) to the
/// concatenated data.
pub proof fn lemma_concat_data_push(chunks: Seq<ChunkModel>, c: ChunkModel)
    ensures
        concat_data(chunks.push(c)) == concat_data(chunks) + (match c {
            ChunkModel::ImageData(p) => p,
            _ => Seq::<u8>::empty(),
        }),
    decreases chunks.len(),
{
    let whole = chunks.push(c);
    if chunks.len() == 0 {
        let pc = match c {
            ChunkModel::ImageData(p) => p,
            _ => Seq::<u8>::empty(),
        };
        let sub = whole.subrange(1, whole.len() as int);
        assert(whole.len() == 1);
        assert(whole[0] == c);
        assert(sub =~= Seq::<ChunkModel>::empty());
        assert(concat_data(sub) == Seq::<u8>::empty());
        assert(concat_data(whole) == pc + concat_data(sub));
        assert(concat_data(chunks) == Seq::<u8>::empty());
        assert(concat_data(whole) =~= concat_data(chunks) + pc);
    } else {
        let tail = chunks.subrange(1, chunks.len() as int);
        let p0 = match chunks[0] {
            ChunkModel::ImageData(p) => p,
            _ => Seq::<u8>::empty(),
        };
        let pc = match c {
            ChunkModel::ImageData(p) => p,
            _ => Seq::<u8>::empty(),
        };
        assert(whole[0] == chunks[0]);
        assert(whole.subrange(1, whole.len() as int) =~= tail.push(c));
        lemma_concat_data_push(tail, c);
        assert(concat_data(whole) == p0 + (concat_data(tail) + pc));
        assert(p0 + (concat_data(tail) + pc) =~= (p0 + concat_data(tail)) + pc);
        assert(concat_data(chunks) == p0 + concat_data(tail));
    }
}

} // verus!
