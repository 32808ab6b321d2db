//! The decoder: a forward-only, bounds-checked cursor over a
//! caller-owned byte buffer, the chunk parser built on it, and the full
//! decode pipeline — signature, chunks, stream reassembly, external
//! inflation, and scanline defiltering.

use vstd::prelude::*;

use crate::error::DecodeError;
use crate::filtering::{paeth_predict, spec_paeth, spec_unfilter, unfilter};
use crate::grammar::{Chunk, ChunkModel, ColorType, ImageHeader, Png, PngModel};
use crate::inflate::{inflate, zlib_inflate};
use crate::parse::{
    be32, be32_at, concat_data, is_data, order_ok, signature, spec_decode_chunks,
    spec_parse_chunks, spec_parse_header, TAG_IDAT, TAG_IEND, TAG_IHDR, TAG_PLTE,
};

verus! {

/// What a whole decode call yields for the bytes at and after `start`:
/// the decoded image, or the first error the pipeline reports. The
/// stages run in order — signature and chunk parse, the mandatory
/// leading header chunk, the chunk-order policy, external inflation of
/// the reassembled stream, the header's feature checks, and the
/// defilter engine.
pub open spec fn spec_decode(d: Seq<u8>, start: nat) -> Result<PngModel, DecodeError> {
    match spec_decode_chunks(d, start) {
        Err(e) => Err(e),
        Ok(r) => {
            let chunks = r.0;
            if chunks.len() == 0 || !(chunks[0] matches ChunkModel::ImageHeader(_)) {
                Err(DecodeError::MissingHeader)
            } else {
                match chunks[0] {
                    ChunkModel::ImageHeader(header) => if !order_ok(chunks) {
                        Err(DecodeError::MalformedChunkOrder)
                    } else {
                        match zlib_inflate(concat_data(chunks)) {
                            Option::None => Err(DecodeError::DecompressionFailed),
                            Option::Some(stream) => if header.filter_method != 0 {
                                Err(DecodeError::UnsupportedFilterMethod)
                            } else if header.interlace_method {
                                Err(DecodeError::UnsupportedInterlace)
                            } else if header.color_type == ColorType::Palette {
                                Err(DecodeError::UnsupportedColorType)
                            } else if header.bit_depth == 0 || header.bit_depth % 8 != 0 {
                                Err(DecodeError::UnsupportedColorType)
                            } else {
                                match spec_unfilter(stream, header) {
                                    Err(e) => Err(e),
                                    Ok(data) => Ok(
                                        PngModel {
                                            width: header.width,
                                            height: header.height,
                                            color_type: header.color_type,
                                            image_data: data,
                                        },
                                    ),
                                }
                            },
                        }
                    },
                    _ => Err(DecodeError::MissingHeader),
                }
            }
        },
    }
}

/// A forward-only reader over an immutable byte buffer: a position and
/// the borrowed bytes. Every read is bounds-checked and reports running
/// out as an error; nothing here panics.
#[derive(Debug)]
pub struct Decoder<'a> {
    cursor: usize,
    data: &'a [u8],
}

impl<'a> Decoder<'a> {
    /// The bytes being decoded.
    pub closed spec fn bytes(&self) -> Seq<u8> {
        self.data@
    }

    /// The cursor's position in the buffer.
    pub closed spec fn pos(&self) -> nat {
        self.cursor as nat
    }

    /// A decoder at the start of the given buffer.
    pub fn new(data: &'a [u8]) -> (d: Decoder<'a>)
        ensures
            d.bytes() == data@,
            d.pos() == 0,
    {
        Decoder { cursor: 0, data }
    }

    /// Reports whether `len` more bytes are available at the cursor.
    pub fn eof(&self, len: usize) -> (r: Result<(), DecodeError>)
        ensures
            r is Ok <==> self.pos() + len <= self.bytes().len(),
            r is Err ==> r == Err::<(), DecodeError>(DecodeError::UnexpectedEof),
    {
        let end = self.data.len();
        if self.cursor <= end && len <= end - self.cursor {
            Ok(())
        } else {
            Err(DecodeError::UnexpectedEof)
        }
    }

    /// Reads the next byte and advances past it.
    pub fn read_u8(&mut self) -> (r: Result<u8, DecodeError>)
        ensures
            final(self).bytes() == old(self).bytes(),
            old(self).pos() + 1 <= old(self).bytes().len() ==> {
                &&& r == Ok::<u8, DecodeError>(old(self).bytes()[old(self).pos() as int])
                &&& final(self).pos() == old(self).pos() + 1
            },
            old(self).pos() + 1 > old(self).bytes().len() ==> {
                &&& r == Err::<u8, DecodeError>(DecodeError::UnexpectedEof)
                &&& *final(self) == *old(self)
            },
    {
        match self.eof(1) {
            Ok(()) => {},
            Err(e) => {
                return Err(e);
            },
        }
        let b = self.data[self.cursor];
        self.cursor = self.cursor + 1;
        Ok(b)
    }

    /// Reads the next four bytes as one big-endian 32-bit value and
    /// advances past them.
    pub fn read_u32(&mut self) -> (r: Result<u32, DecodeError>)
        ensures
            final(self).bytes() == old(self).bytes(),
            old(self).pos() + 4 <= old(self).bytes().len() ==> {
                &&& r == Ok::<u32, DecodeError>(be32_at(old(self).bytes(), old(self).pos() as int))
                &&& final(self).pos() == old(self).pos() + 4
            },
            old(self).pos() + 4 > old(self).bytes().len() ==> {
                &&& r == Err::<u32, DecodeError>(DecodeError::UnexpectedEof)
                &&& *final(self) == *old(self)
            },
    {
        match self.eof(4) {
            Ok(()) => {},
            Err(e) => {
                return Err(e);
            },
        }
        let b0 = self.data[self.cursor];
        let b1 = self.data[self.cursor + 1];
        let b2 = self.data[self.cursor + 2];
        let b3 = self.data[self.cursor + 3];
        let v = (b0 as u32) * 0x100_0000 + (b1 as u32) * 0x1_0000 + (b2 as u32) * 0x100 + (
        b3 as u32);
        self.cursor = self.cursor + 4;
        Ok(v)
    }

    /// Reads the next `len` bytes as an owned copy and advances past
    /// them.
    pub fn read_slice(&mut self, len: usize) -> (r: Result<Vec<u8>, DecodeError>)
        ensures
            final(self).bytes() == old(self).bytes(),
            old(self).pos() + len <= old(self).bytes().len() ==> {
                &&& (r matches Ok(v) && v@ == old(self).bytes().subrange(
                    old(self).pos() as int,
                    old(self).pos() + len,
                ))
                &&& final(self).pos() == old(self).pos() + len
            },
            old(self).pos() + len > old(self).bytes().len() ==> {
                &&& r == Err::<Vec<u8>, DecodeError>(DecodeError::UnexpectedEof)
                &&& *final(self) == *old(self)
            },
    {
        let end = self.data.len();
        if self.cursor > end || len > end - self.cursor {
            return Err(DecodeError::UnexpectedEof);
        }
        let piece = vstd::slice::slice_subrange(self.data, self.cursor, self.cursor + len);
        let out = vstd::slice::slice_to_vec(piece);
        self.cursor = self.cursor + len;
        Ok(out)
    }

    /// Advances past `len` bytes without returning them.
    pub fn skip(&mut self, len: usize) -> (r: Result<(), DecodeError>)
        ensures
            final(self).bytes() == old(self).bytes(),
            old(self).pos() + len <= old(self).bytes().len() ==> {
                &&& r is Ok
                &&& final(self).pos() == old(self).pos() + len
            },
            old(self).pos() + len > old(self).bytes().len() ==> {
                &&& r == Err::<(), DecodeError>(DecodeError::UnexpectedEof)
                &&& *final(self) == *old(self)
            },
    {
        let end = self.data.len();
        if self.cursor > end || len > end - self.cursor {
            return Err(DecodeError::UnexpectedEof);
        }
        self.cursor = self.cursor + len;
        Ok(())
    }

    /// The Paeth predictor over machine integers: the neighbor closest
    /// to `left + up - up_left`, ties won by `left`, then `up`.
    pub fn paeth(&self, left: u8, up: u8, up_left: u8) -> (r: u8)
        ensures
            r == spec_paeth(left, up, up_left),
    {
        paeth_predict(left, up, up_left)
    }

    /// Parses the chunk records at the cursor, up to and including the
    /// end marker, exactly as [`spec_parse_chunks`] describes them.
    #[verifier::loop_isolation(false)]
    pub fn parse_chunks(&mut self) -> (r: Result<Vec<Chunk>, DecodeError>)
        ensures
            final(self).bytes() == old(self).bytes(),
            (match r {
                Ok(chunks) => spec_parse_chunks(old(self).bytes(), old(self).pos()) == Ok::<
                    (Seq<ChunkModel>, nat),
                    DecodeError,
                >((chunks.deep_view(), final(self).pos())),
                Err(e) => spec_parse_chunks(old(self).bytes(), old(self).pos()) == Err::<
                    (Seq<ChunkModel>, nat),
                    DecodeError,
                >(e),
            }),
    {
        let mut chunks: Vec<Chunk> = Vec::new();
        proof {
            match spec_parse_chunks(self.bytes(), self.pos()) {
                Ok(pr) => {
                    assert(chunks.deep_view() + pr.0 =~= pr.0);
                },
                Err(e) => {},
            }
        }
        loop
            invariant
                self.bytes() == old(self).bytes(),
                (match spec_parse_chunks(self.bytes(), self.pos()) {
                    Ok(pr) => spec_parse_chunks(old(self).bytes(), old(self).pos()) == Ok::<
                        (Seq<ChunkModel>, nat),
                        DecodeError,
                    >((chunks.deep_view() + pr.0, pr.1)),
                    Err(e) => spec_parse_chunks(old(self).bytes(), old(self).pos()) == Err::<
                        (Seq<ChunkModel>, nat),
                        DecodeError,
                    >(e),
                }),
            decreases self.bytes().len() - self.pos(),
        {
            let ghost bytes = self.bytes();
            let ghost pos0 = self.pos();
            let length = match self.read_u32() {
                Ok(v) => v,
                Err(e) => {
                    return Err(e);
                },
            };
            let tag = match self.read_u32() {
                Ok(v) => v,
                Err(e) => {
                    return Err(e);
                },
            };
            if tag == TAG_IEND {
                proof {
                    assert(chunks.deep_view() + Seq::<ChunkModel>::empty() =~= chunks.deep_view());
                }
                return Ok(chunks);
            }
            let len_us = length as usize;
            let payload: Vec<u8>;
            if tag == TAG_IHDR || tag == TAG_IDAT {
                payload = match self.read_slice(len_us) {
                    Ok(p) => p,
                    Err(e) => {
                        return Err(e);
                    },
                };
            } else {
                match self.skip(len_us) {
                    Ok(()) => {},
                    Err(e) => {
                        return Err(e);
                    },
                }
                payload = Vec::new();
            }
            let _crc = match self.read_u32() {
                Ok(v) => v,
                Err(e) => {
                    return Err(e);
                },
            };
            let chunk: Chunk;
            if tag == TAG_IHDR {
                let header = match parse_header(&payload) {
                    Ok(h) => h,
                    Err(e) => {
                        return Err(e);
                    },
                };
                chunk = Chunk::ImageHeader(header);
            } else if tag == TAG_PLTE {
                return Err(DecodeError::UnsupportedColorType);
            } else if tag == TAG_IDAT {
                chunk = Chunk::ImageData(payload);
            } else {
                chunk = Chunk::Other(tag);
            }
            let ghost prev_deep = chunks.deep_view();
            let ghost c = chunk@;
            chunks.push(chunk);
            proof {
                assert(chunks.deep_view() =~= prev_deep.push(c));
                let rest = spec_parse_chunks(self.bytes(), self.pos());
                assert(spec_parse_chunks(bytes, pos0) == (match rest {
                    Ok(pr) => Ok::<(Seq<ChunkModel>, nat), DecodeError>((seq![c] + pr.0, pr.1)),
                    Err(e) => Err::<(Seq<ChunkModel>, nat), DecodeError>(e),
                }));
                match rest {
                    Ok(pr) => {
                        assert(prev_deep + (seq![c] + pr.0) =~= chunks.deep_view() + pr.0);
                    },
                    Err(e) => {},
                }
            }
        }
    }

    /// Decodes the byte stream at the cursor into an image, exactly as
    /// [`spec_decode`] describes the result.
    pub fn decode(&mut self) -> (r: Result<Png, DecodeError>)
        ensures
            (match r {
                Ok(png) => spec_decode(old(self).bytes(), old(self).pos()) == Ok::<
                    PngModel,
                    DecodeError,
                >(png@),
                Err(e) => spec_decode(old(self).bytes(), old(self).pos()) == Err::<
                    PngModel,
                    DecodeError,
                >(e),
            }),
    {
        let sig = match self.read_slice(8) {
            Ok(s) => s,
            Err(e) => {
                return Err(e);
            },
        };
        let good = sig[0] == 0x89 && sig[1] == 0x50 && sig[2] == 0x4E && sig[3] == 0x47 && sig[4]
            == 0x0D && sig[5] == 0x0A && sig[6] == 0x1A && sig[7] == 0x0A;
        proof {
            if good {
                assert(sig@ =~= signature());
            } else {
                assert(sig@ != signature());
            }
        }
        if !good {
            return Err(DecodeError::InvalidSignature);
        }
        let chunks = match self.parse_chunks() {
            Ok(c) => c,
            Err(e) => {
                return Err(e);
            },
        };
        let ghost cm = chunks.deep_view();
        if chunks.len() == 0 {
            return Err(DecodeError::MissingHeader);
        }
        let header: ImageHeader = match &chunks[0] {
            Chunk::ImageHeader(h) => *h,
            _ => {
                return Err(DecodeError::MissingHeader);
            },
        };
        if !check_order(&chunks) {
            return Err(DecodeError::MalformedChunkOrder);
        }
        let compressed = reassemble(&chunks);
        let stream = match inflate(&compressed) {
            Option::Some(s) => s,
            Option::None => {
                return Err(DecodeError::DecompressionFailed);
            },
        };
        if header.filter_method != 0 {
            return Err(DecodeError::UnsupportedFilterMethod);
        }
        if header.interlace_method {
            return Err(DecodeError::UnsupportedInterlace);
        }
        if header.color_type == ColorType::Palette {
            return Err(DecodeError::UnsupportedColorType);
        }
        if header.bit_depth == 0 || header.bit_depth % 8 != 0 {
            return Err(DecodeError::UnsupportedColorType);
        }
        let data = match unfilter(&stream, &header) {
            Ok(v) => v,
            Err(e) => {
                return Err(e);
            },
        };
        Ok(Png {
            width: header.width,
            height: header.height,
            color_type: header.color_type,
            image_data: data,
        })
    }
}

/// A stream with a non-data chunk standing between two image-data
/// chunks is rejected as malformed chunk order — it never decodes
/// silently. The indices `i < j < k` name the offending chunks in the
/// parsed sequence, whose first chunk is the header.
pub proof fn lemma_chunk_order_rejected(
    d: Seq<u8>,
    start: nat,
    chunks: Seq<ChunkModel>,
    end: nat,
    i: int,
    j: int,
    k: int,
)
    requires
        spec_decode_chunks(d, start) == Ok::<(Seq<ChunkModel>, nat), DecodeError>((chunks, end)),
        chunks.len() > 0,
        chunks[0] matches ChunkModel::ImageHeader(_),
        0 <= i < j < k < chunks.len(),
        is_data(chunks[i]),
        !is_data(chunks[j]),
        is_data(chunks[k]),
    ensures
        spec_decode(d, start) == Err::<PngModel, DecodeError>(DecodeError::MalformedChunkOrder),
{
    assert(!order_ok(chunks));
}

/// Truncating a stream whose signature and chunk sequence decode to
/// completion, at any point before chunk parsing completed, makes the
/// whole decode fail with exactly an unexpected end of file; verified
/// code never panics or reads out of bounds, so truncation can do
/// nothing else.
pub proof fn lemma_truncation_rejected(
    d: Seq<u8>,
    start: nat,
    chunks: Seq<ChunkModel>,
    end: nat,
    t: int,
)
    requires
        spec_decode_chunks(d, start) == Ok::<(Seq<ChunkModel>, nat), DecodeError>((chunks, end)),
        0 <= t < end,
        t <= d.len(),
    ensures
        spec_decode(d.take(t), start) == Err::<PngModel, DecodeError>(DecodeError::UnexpectedEof),
{
    crate::parse::lemma_decode_chunks_truncated(d, start, chunks, end, t);
}

/// The big-endian value of four bytes, over machine integers.
fn be32_of(b0: u8, b1: u8, b2: u8, b3: u8) -> (r: u32)
    ensures
        r == be32(b0, b1, b2, b3),
{
    (b0 as u32) * 0x100_0000 + (b1 as u32) * 0x1_0000 + (b2 as u32) * 0x100 + (b3 as u32)
}

/// Reads the 13 header fields from a header chunk's payload, exactly as
/// [`spec_parse_header`] describes them.
fn parse_header(payload: &Vec<u8>) -> (r: Result<ImageHeader, DecodeError>)
    ensures
        r == spec_parse_header(payload@),
{
    if payload.len() < 13 {
        return Err(DecodeError::UnexpectedEof);
    }
    let width = be32_of(payload[0], payload[1], payload[2], payload[3]);
    let height = be32_of(payload[4], payload[5], payload[6], payload[7]);
    let color_type = match ColorType::from_code(payload[9]) {
        Ok(c) => c,
        Err(e) => {
            return Err(e);
        },
    };
    Ok(ImageHeader {
        width,
        height,
        bit_depth: payload[8],
        color_type,
        compression_method: payload[10],
        filter_method: payload[11],
        interlace_method: payload[12] == 1,
    })
}

/// Enforces the chunk-order policy over the parsed chunk list: no data
/// chunk after the data run has been broken off.
#[verifier::loop_isolation(false)]
fn check_order(chunks: &Vec<Chunk>) -> (r: bool)
    ensures
        r == order_ok(chunks.deep_view()),
{
    let ghost cm = chunks.deep_view();
    let mut seen_data = false;
    let mut run_ended = false;
    let mut i: usize = 0;
    while i < chunks.len()
        invariant
            i <= chunks.len(),
            seen_data <==> (exists|a: int| 0 <= a < i && is_data(#[trigger] cm[a])),
            run_ended <==> (exists|a: int, b: int|
                0 <= a < b < i && is_data(#[trigger] cm[a]) && !is_data(#[trigger] cm[b])),
            forall|a: int, b: int, k: int|
                0 <= a < b < k < i && is_data(#[trigger] cm[a]) && !is_data(#[trigger] cm[b])
                    ==> !is_data(#[trigger] cm[k]),
        decreases chunks.len() - i,
    {
        let d = match &chunks[i] {
            Chunk::ImageData(_) => true,
            _ => false,
        };
        assert(d == is_data(cm[i as int]));
        if d && run_ended {
            proof {
                let (a, b) = choose|a: int, b: int|
                    0 <= a < b < i && is_data(#[trigger] cm[a]) && !is_data(#[trigger] cm[b]);
                assert(0 <= a < b < i < cm.len() && is_data(cm[a]) && !is_data(cm[b]) && is_data(
                    cm[i as int],
                ));
                assert(!order_ok(cm));
            }
            return false;
        }
        if seen_data && !d {
            run_ended = true;
        }
        if d {
            seen_data = true;
        }
        i += 1;
    }
    true
}

/// Reassembles the compressed stream: the payloads of the image-data
/// chunks, concatenated in the order encountered.
#[verifier::loop_isolation(false)]
fn reassemble(chunks: &Vec<Chunk>) -> (r: Vec<u8>)
    ensures
        r@ == concat_data(chunks.deep_view()),
{
    let ghost cm = chunks.deep_view();
    let mut out: Vec<u8> = Vec::new();
    proof {
        assert(cm.take(0) =~= Seq::<ChunkModel>::empty());
    }
    let mut i: usize = 0;
    while i < chunks.len()
        invariant
            i <= chunks.len(),
            out@ == concat_data(cm.take(i as int)),
        decreases chunks.len() - i,
    {
        let ghost prev = out@;
        match &chunks[i] {
            Chunk::ImageData(p) => {
                out.extend_from_slice(p.as_slice());
                proof {
                    assert(out@ =~= prev + p@);
                }
            },
            _ => {},
        }
        proof {
            crate::parse::lemma_concat_data_push(cm.take(i as int), cm[i as int]);
            assert(cm.take(i + 1) =~= cm.take(i as int).push(cm[i as int]));
            assert(out@ =~= concat_data(cm.take(i + 1)));
        }
        i += 1;
    }
    proof {
        assert(cm.take(chunks.len() as int) =~= cm);
    }
    out
}

} // verus!
