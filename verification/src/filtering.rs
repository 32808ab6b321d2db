//! The scanline defilter engine: the mathematical model of per-row
//! prediction filtering and the verified code that reverses it.
//!
//! The decompressed stream is partitioned into `height` records of
//! `1 + bytes_per_row` bytes each: a one-byte filter tag followed by the
//! row's filtered samples. Reconstruction walks the rows in order; each
//! byte is the filtered byte plus a predictor, modulo 256, where the
//! predictor reads the reconstructed left neighbor, the byte above, and
//! the byte above-left. Row 0 sees an all-zero previous row, and bytes
//! left of the first pixel read as zero.

use vstd::prelude::*;

use crate::error::DecodeError;
use crate::grammar::{Filter, ImageHeader};

verus! {

/// The distance between two integers.
pub open spec fn abs_diff(x: int, y: int) -> int {
    if x - y < 0 {
        y - x
    } else {
        x - y
    }
}

/// The Paeth predictor: whichever of left `a`, up `b`, up-left `c` lies
/// closest to `a + b - c`, ties broken in favor of `a`, then `b`.
pub open spec fn spec_paeth(a: u8, b: u8, c: u8) -> u8 {
    let p = a + b - c;
    let pa = abs_diff(p, a as int);
    let pb = abs_diff(p, b as int);
    let pc = abs_diff(p, c as int);
    if pa <= pb && pa <= pc {
        a
    } else if pb <= pc {
        b
    } else {
        c
    }
}

/// Byte addition modulo 256.
pub open spec fn byte_add(x: u8, y: u8) -> u8 {
    if x + y > 255 {
        (x + y - 256) as u8
    } else {
        (x + y) as u8
    }
}

/// Byte subtraction modulo 256; the encoder's counterpart of [`byte_add`].
pub open spec fn byte_sub(x: u8, y: u8) -> u8 {
    if x - y < 0 {
        (x - y + 256) as u8
    } else {
        (x - y) as u8
    }
}

/// What a filter predicts for one byte from its three neighbors; the
/// reconstructed byte is the filtered byte plus this, modulo 256.
pub open spec fn predictor(f: Filter, left: u8, up: u8, up_left: u8) -> u8 {
    match f {
        Filter::NoFilter => 0,
        Filter::Sub => left,
        Filter::Up => up,
        Filter::Average => (((left + up) / 2) as u8),
        Filter::Paeth => spec_paeth(left, up, up_left),
    }
}

/// The filter a row tag in range 0 to 4 denotes; tags outside that range
/// never reach this function, the engine rejects them first.
pub open spec fn filter_of(code: u8) -> Filter {
    if code == 1 {
        Filter::Sub
    } else if code == 2 {
        Filter::Up
    } else if code == 3 {
        Filter::Average
    } else if code == 4 {
        Filter::Paeth
    } else {
        Filter::NoFilter
    }
}

/// The reconstructed left neighbor of byte `j`: the byte one pixel
/// earlier in the row, or 0 within the first pixel.
pub open spec fn row_left(done: Seq<u8>, j: int, ch: nat) -> u8 {
    if j >= ch {
        done[j - ch]
    } else {
        0
    }
}

/// The up-left neighbor of byte `j`: the byte one pixel earlier in the
/// previous row, or 0 within the first pixel.
pub open spec fn row_up_left(prev: Seq<u8>, j: int, ch: nat) -> u8 {
    if j >= ch {
        prev[j - ch]
    } else {
        0
    }
}

/// The first `n` reconstructed bytes of one row, given the row's filtered
/// input and the reconstructed previous row.
pub open spec fn recon_prefix(f: Filter, input: Seq<u8>, prev: Seq<u8>, ch: nat, n: nat) -> Seq<u8>
    decreases n,
{
    if n == 0 {
        Seq::empty()
    } else {
        let done = recon_prefix(f, input, prev, ch, (n - 1) as nat);
        let j = n - 1;
        done.push(
            byte_add(input[j], predictor(f, row_left(done, j, ch), prev[j], row_up_left(prev, j, ch))),
        )
    }
}

/// One whole reconstructed row.
pub open spec fn recon_row(f: Filter, input: Seq<u8>, prev: Seq<u8>, ch: nat) -> Seq<u8> {
    recon_prefix(f, input, prev, ch, input.len())
}

/// The virtual previous row of row 0: all zero bytes.
pub open spec fn zero_row(n: nat) -> Seq<u8> {
    Seq::new(n, |i: int| 0u8)
}

/// The filter tag of row `r` in the decompressed stream.
pub open spec fn tag_at(stream: Seq<u8>, bpr: nat, r: int) -> u8 {
    stream[r * (1 + bpr)]
}

/// The filtered sample bytes of row `r` in the decompressed stream.
pub open spec fn row_input(stream: Seq<u8>, bpr: nat, r: int) -> Seq<u8> {
    stream.subrange(r * (1 + bpr) + 1, (r + 1) * (1 + bpr))
}

/// Whether every row's filter tag is in the defined range 0 to 4.
pub open spec fn tags_valid(stream: Seq<u8>, bpr: nat, h: nat) -> bool {
    forall|r: int| 0 <= r < h ==> #[trigger] tag_at(stream, bpr, r) <= 4
}

/// The reconstructed rows `0..i`, concatenated. Row 0 is reconstructed
/// against an all-zero previous row; every later row against the row
/// reconstructed just before it.
pub open spec fn recon_rows(stream: Seq<u8>, bpr: nat, ch: nat, i: nat) -> Seq<u8>
    decreases i,
{
    if i == 0 {
        Seq::empty()
    } else {
        let r = i - 1;
        let done = recon_rows(stream, bpr, ch, (i - 1) as nat);
        let prev = if r == 0 {
            zero_row(bpr)
        } else {
            done.subrange(done.len() - bpr, done.len() as int)
        };
        done + recon_row(filter_of(tag_at(stream, bpr, r)), row_input(stream, bpr, r), prev, ch)
    }
}

/// The whole defilter engine as one function of the decompressed stream
/// and the header: the raw image bytes, or the error the engine reports.
pub open spec fn spec_unfilter(stream: Seq<u8>, header: ImageHeader) -> Result<Seq<u8>, DecodeError> {
    let bpr = header.spec_bytes_per_row();
    let ch = header.color_type.spec_channels();
    let h = header.height as nat;
    if stream.len() != h * (1 + bpr) {
        Err(DecodeError::ReconstructionSizeMismatch)
    } else if !tags_valid(stream, bpr, h) {
        Err(DecodeError::InvalidFilterType)
    } else {
        Ok(recon_rows(stream, bpr, ch, h))
    }
}

/// The per-row encoder's filtering, the transform the engine reverses:
/// each byte minus its predictor, modulo 256, where the predictor reads
/// the raw neighbors.
pub open spec fn filter_row(f: Filter, raw: Seq<u8>, prev: Seq<u8>, ch: nat) -> Seq<u8> {
    Seq::new(
        raw.len(),
        (|j: int|
            byte_sub(
                raw[j],
                predictor(
                    f,
                    if j >= ch {
                        raw[j - ch]
                    } else {
                        0
                    },
                    prev[j],
                    if j >= ch {
                        prev[j - ch]
                    } else {
                        0
                    },
                ),
            )),
    )
}

/// Reconstruction yields one byte per input byte taken.
pub proof fn lemma_recon_prefix_len(f: Filter, input: Seq<u8>, prev: Seq<u8>, ch: nat, n: nat)
    ensures
        recon_prefix(f, input, prev, ch, n).len() == n,
    decreases n,
{
    if n > 0 {
        lemma_recon_prefix_len(f, input, prev, ch, (n - 1) as nat);
    }
}

/// A reconstructed byte is settled the moment it is produced: taking
/// more of the row does not change it.
pub proof fn lemma_recon_prefix_index(
    f: Filter,
    input: Seq<u8>,
    prev: Seq<u8>,
    ch: nat,
    n: nat,
    j: int,
)
    requires
        0 <= j < n,
    ensures
        recon_prefix(f, input, prev, ch, n)[j] == recon_prefix(f, input, prev, ch, (j + 1) as nat)[
            j
        ],
    decreases n,
{
    lemma_recon_prefix_len(f, input, prev, ch, (n - 1) as nat);
    if j < n - 1 {
        lemma_recon_prefix_index(f, input, prev, ch, (n - 1) as nat, j);
    }
}

/// Row 0 is reconstructed against the virtual all-zero previous row.
pub proof fn lemma_first_row_zero_prev(stream: Seq<u8>, bpr: nat, ch: nat)
    ensures
        recon_rows(stream, bpr, ch, 1) == recon_row(
            filter_of(tag_at(stream, bpr, 0)),
            row_input(stream, bpr, 0),
            zero_row(bpr),
            ch,
        ),
{
    let row = recon_row(filter_of(tag_at(stream, bpr, 0)), row_input(stream, bpr, 0), zero_row(bpr), ch);
    assert(recon_rows(stream, bpr, ch, 0) + row =~= row);
}

/// The up filter on row 0 leaves every byte unchanged: adding the
/// all-zero previous row is the identity.
pub proof fn lemma_up_zero_prev_prefix(input: Seq<u8>, ch: nat, n: nat)
    requires
        n <= input.len(),
    ensures
        recon_prefix(Filter::Up, input, zero_row(input.len()), ch, n) == input.take(n as int),
    decreases n,
{
    if n == 0 {
        assert(recon_prefix(Filter::Up, input, zero_row(input.len()), ch, 0) =~= input.take(0));
    } else {
        lemma_up_zero_prev_prefix(input, ch, (n - 1) as nat);
        assert(input.take((n - 1) as int).push(input[n - 1]) =~= input.take(n as int));
    }
}

/// The up filter on row 0 is the identity on the whole row.
pub proof fn lemma_up_zero_prev_identity(input: Seq<u8>, ch: nat)
    ensures
        recon_row(Filter::Up, input, zero_row(input.len()), ch) == input,
{
    lemma_up_zero_prev_prefix(input, ch, input.len());
    assert(input.take(input.len() as int) =~= input);
}

/// Within the first pixel the sub filter reads a zero left neighbor,
/// leaving the byte unchanged.
pub proof fn lemma_sub_first_pixel(input: Seq<u8>, prev: Seq<u8>, ch: nat, j: int)
    requires
        0 <= j < ch,
        j < input.len(),
    ensures
        recon_row(Filter::Sub, input, prev, ch)[j] == input[j],
{
    lemma_recon_prefix_index(Filter::Sub, input, prev, ch, input.len(), j);
    lemma_recon_prefix_len(Filter::Sub, input, prev, ch, j as nat);
}

/// Within the first pixel of row 0 the paeth filter reads zero
/// neighbors on every side, leaving the byte unchanged.
pub proof fn lemma_paeth_first_pixel_row_zero(input: Seq<u8>, ch: nat, j: int)
    requires
        0 <= j < ch,
        j < input.len(),
    ensures
        recon_row(Filter::Paeth, input, zero_row(input.len()), ch)[j] == input[j],
{
    lemma_recon_prefix_index(Filter::Paeth, input, zero_row(input.len()), ch, input.len(), j);
    lemma_recon_prefix_len(Filter::Paeth, input, zero_row(input.len()), ch, j as nat);
}

/// Paeth tie-breaking is part of the format: when all three distances
/// tie, the left neighbor wins; when up and up-left tie strictly closer
/// than left, up wins.
pub proof fn lemma_paeth_tie_break(a: u8, b: u8, c: u8)
    ensures
        (abs_diff(a + b - c, a as int) == abs_diff(a + b - c, b as int) && abs_diff(
            a + b - c,
            b as int,
        ) == abs_diff(a + b - c, c as int)) ==> spec_paeth(a, b, c) == a,
        (abs_diff(a + b - c, b as int) == abs_diff(a + b - c, c as int) && abs_diff(
            a + b - c,
            b as int,
        ) < abs_diff(a + b - c, a as int)) ==> spec_paeth(a, b, c) == b,
{
}

/// Defiltering inverts the encoder's filtering, prefix by prefix.
pub proof fn lemma_recon_prefix_inverts(f: Filter, raw: Seq<u8>, prev: Seq<u8>, ch: nat, n: nat)
    requires
        1 <= ch,
        n <= raw.len(),
    ensures
        recon_prefix(f, filter_row(f, raw, prev, ch), prev, ch, n) == raw.take(n as int),
    decreases n,
{
    if n == 0 {
        assert(recon_prefix(f, filter_row(f, raw, prev, ch), prev, ch, 0) =~= raw.take(0));
    } else {
        lemma_recon_prefix_inverts(f, raw, prev, ch, (n - 1) as nat);
        let j = n - 1;
        let left = if j >= ch {
            raw[j - ch]
        } else {
            0
        };
        let up_left = if j >= ch {
            prev[j - ch]
        } else {
            0
        };
        let y = predictor(f, left, prev[j], up_left);
        assert(byte_add(byte_sub(raw[j], y), y) == raw[j]);
        assert(row_left(raw.take(j), j, ch) == left);
        assert(raw.take(j).push(raw[j]) =~= raw.take(n as int));
    }
}

/// For every filter, reconstructing an encoded row recovers the raw row:
/// decoding inverts encoding, whichever of the five filters the encoder
/// chose.
pub proof fn lemma_recon_row_inverts_filter(f: Filter, raw: Seq<u8>, prev: Seq<u8>, ch: nat)
    requires
        1 <= ch,
    ensures
        recon_row(f, filter_row(f, raw, prev, ch), prev, ch) == raw,
{
    lemma_recon_prefix_inverts(f, raw, prev, ch, raw.len());
    assert(raw.take(raw.len() as int) =~= raw);
}

/// Filter equivalence: one raw row, encoded under any two filter
/// choices against the same previous row, reconstructs to the same
/// bytes — the raw row itself.
pub proof fn lemma_filter_equivalence(f1: Filter, f2: Filter, raw: Seq<u8>, prev: Seq<u8>, ch: nat)
    requires
        1 <= ch,
    ensures
        recon_row(f1, filter_row(f1, raw, prev, ch), prev, ch) == recon_row(
            f2,
            filter_row(f2, raw, prev, ch),
            prev,
            ch,
        ),
{
    lemma_recon_row_inverts_filter(f1, raw, prev, ch);
    lemma_recon_row_inverts_filter(f2, raw, prev, ch);
}

/// The raw bytes of row `r` of an unfiltered image.
pub open spec fn raw_row(raw: Seq<u8>, bpr: nat, r: int) -> Seq<u8> {
    raw.subrange(r * bpr, (r + 1) * bpr)
}

/// The raw previous row an encoder predicts row `r` against: all zeros
/// for row 0, else row `r - 1`.
pub open spec fn raw_prev(raw: Seq<u8>, bpr: nat, r: int) -> Seq<u8> {
    if r == 0 {
        zero_row(bpr)
    } else {
        raw_row(raw, bpr, r - 1)
    }
}

/// The whole-image encoder: rows `0..i` of the raw image, each filtered
/// under its row's tag against the raw previous row and prefixed with
/// that tag — the stream a compressor would be handed.
pub open spec fn filter_image(raw: Seq<u8>, tags: Seq<u8>, bpr: nat, ch: nat, i: nat) -> Seq<u8>
    decreases i,
{
    if i == 0 {
        Seq::empty()
    } else {
        let r = i - 1;
        filter_image(raw, tags, bpr, ch, (i - 1) as nat) + seq![tags[r]] + filter_row(
            filter_of(tags[r]),
            raw_row(raw, bpr, r),
            raw_prev(raw, bpr, r),
            ch,
        )
    }
}

/// The encoded stream has one record per row: the row's tag byte,
/// then its filtered bytes.
pub proof fn lemma_filter_image_structure(raw: Seq<u8>, tags: Seq<u8>, bpr: nat, ch: nat, i: nat)
    requires
        raw.len() >= i * bpr,
        tags.len() >= i,
    ensures
        filter_image(raw, tags, bpr, ch, i).len() == i * (1 + bpr),
        forall|r: int|
            0 <= r < i ==> #[trigger] tag_at(filter_image(raw, tags, bpr, ch, i), bpr, r)
                == tags[r],
        forall|r: int|
            0 <= r < i ==> #[trigger] row_input(filter_image(raw, tags, bpr, ch, i), bpr, r)
                == filter_row(filter_of(tags[r]), raw_row(raw, bpr, r), raw_prev(raw, bpr, r), ch),
    decreases i,
{
    let s = filter_image(raw, tags, bpr, ch, i);
    if i == 0 {
        assert(i * (1 + bpr) == 0) by (nonlinear_arith)
            requires
                i == 0,
        ;
    } else {
        let r0 = i - 1;
        let prefix = filter_image(raw, tags, bpr, ch, (i - 1) as nat);
        let row = filter_row(filter_of(tags[r0]), raw_row(raw, bpr, r0), raw_prev(raw, bpr, r0), ch);
        assert((i - 1) * bpr <= i * bpr && r0 * bpr >= 0 && (r0 + 1) * bpr == r0 * bpr + bpr && (r0
            + 1) * bpr <= i * bpr) by (nonlinear_arith)
            requires
                i >= 1,
                r0 == i - 1,
        ;
        lemma_filter_image_structure(raw, tags, bpr, ch, (i - 1) as nat);
        assert(row.len() == bpr);
        assert(i * (1 + bpr) == (i - 1) * (1 + bpr) + 1 + bpr) by (nonlinear_arith);
        assert forall|r: int| 0 <= r < i implies #[trigger] tag_at(s, bpr, r) == tags[r] by {
            assert((r + 1) * (1 + bpr) == r * (1 + bpr) + 1 + bpr && (r + 1) * (1 + bpr) <= i * (1
                + bpr) && r * (1 + bpr) >= 0) by (nonlinear_arith)
                requires
                    0 <= r < i,
            ;
            if r < i - 1 {
                assert(tag_at(prefix, bpr, r) == tags[r]);
                assert((r + 1) * (1 + bpr) <= (i - 1) * (1 + bpr)) by (nonlinear_arith)
                    requires
                        r < i - 1,
                ;
                assert(s[r * (1 + bpr)] == prefix[r * (1 + bpr)]);
            } else {
                assert(s[r * (1 + bpr)] == tags[r0]);
            }
        }
        assert forall|r: int| 0 <= r < i implies #[trigger] row_input(s, bpr, r) == filter_row(
            filter_of(tags[r]),
            raw_row(raw, bpr, r),
            raw_prev(raw, bpr, r),
            ch,
        ) by {
            assert((r + 1) * (1 + bpr) == r * (1 + bpr) + 1 + bpr && (r + 1) * (1 + bpr) <= i * (1
                + bpr) && r * (1 + bpr) >= 0) by (nonlinear_arith)
                requires
                    0 <= r < i,
            ;
            if r < i - 1 {
                assert((r + 1) * (1 + bpr) <= (i - 1) * (1 + bpr)) by (nonlinear_arith)
                    requires
                        r < i - 1,
                ;
                assert(row_input(s, bpr, r) =~= row_input(prefix, bpr, r));
                assert(row_input(prefix, bpr, r) == filter_row(
                    filter_of(tags[r]),
                    raw_row(raw, bpr, r),
                    raw_prev(raw, bpr, r),
                    ch,
                ));
            } else {
                assert forall|j: int| 0 <= j < bpr implies row_input(s, bpr, r)[j] == row[j] by {
                    assert(s[r * (1 + bpr) + 1 + j] == row[j]);
                }
                assert(row_input(s, bpr, r) =~= row);
            }
        }
    }
}

/// Decoding inverts whole-image encoding, row prefix by row prefix.
pub proof fn lemma_recon_rows_of_filter_image(
    raw: Seq<u8>,
    tags: Seq<u8>,
    bpr: nat,
    ch: nat,
    h: nat,
    i: nat,
)
    requires
        1 <= ch,
        raw.len() == h * bpr,
        tags.len() == h,
        i <= h,
    ensures
        recon_rows(filter_image(raw, tags, bpr, ch, h), bpr, ch, i) == raw.take((i * bpr) as int),
    decreases i,
{
    let s = filter_image(raw, tags, bpr, ch, h);
    lemma_filter_image_structure(raw, tags, bpr, ch, h);
    if i == 0 {
        assert(i * bpr == 0) by (nonlinear_arith)
            requires
                i == 0,
        ;
        assert(recon_rows(s, bpr, ch, 0) =~= raw.take(0));
    } else {
        lemma_recon_rows_of_filter_image(raw, tags, bpr, ch, h, (i - 1) as nat);
        let r = i - 1;
        assert(i * bpr == (i - 1) * bpr + bpr && (i - 1) * bpr >= 0 && i * bpr <= h * bpr && r * bpr
            + bpr == (r + 1) * bpr) by (nonlinear_arith)
            requires
                1 <= i <= h,
        ;
        let done = recon_rows(s, bpr, ch, (i - 1) as nat);
        let prev = if r == 0 {
            zero_row(bpr)
        } else {
            done.subrange(done.len() - bpr, done.len() as int)
        };
        assert(prev =~= raw_prev(raw, bpr, r)) by {
            if r != 0 {
                assert((r - 1) * bpr == (i - 1) * bpr - bpr) by (nonlinear_arith)
                    requires
                        r == i - 1,
                ;
            }
        }
        lemma_recon_row_inverts_filter(
            filter_of(tags[r]),
            raw_row(raw, bpr, r),
            raw_prev(raw, bpr, r),
            ch,
        );
        assert(recon_rows(s, bpr, ch, i) == done + raw_row(raw, bpr, r));
        assert(raw.take(((i - 1) * bpr) as int) + raw_row(raw, bpr, r) =~= raw.take(
            (i * bpr) as int,
        ));
    }
}

/// Filter equivalence over whole images: a raw image encoded row by row
/// under any choice of per-row filter tags reconstructs to the raw
/// image itself, so two encodings of the same image — in particular one
/// per filter method — decode to byte-identical buffers.
pub proof fn lemma_image_filter_equivalence(
    raw: Seq<u8>,
    tags1: Seq<u8>,
    tags2: Seq<u8>,
    bpr: nat,
    ch: nat,
    h: nat,
)
    requires
        1 <= ch,
        raw.len() == h * bpr,
        tags1.len() == h,
        tags2.len() == h,
    ensures
        recon_rows(filter_image(raw, tags1, bpr, ch, h), bpr, ch, h) == raw,
        recon_rows(filter_image(raw, tags2, bpr, ch, h), bpr, ch, h) == recon_rows(
            filter_image(raw, tags1, bpr, ch, h),
            bpr,
            ch,
            h,
        ),
{
    lemma_recon_rows_of_filter_image(raw, tags1, bpr, ch, h, h);
    lemma_recon_rows_of_filter_image(raw, tags2, bpr, ch, h, h);
    assert(raw.take((h * bpr) as int) =~= raw);
}

/// Defiltering is not its own inverse. Shown here for the sub filter on
/// one channel: reconstructing twice adds the first byte into the
/// second byte twice, so whenever the first byte is neither 0 nor 128
/// the double application no longer matches the filtered bytes. (On
/// other inputs — an all-zero row, for one — a double application can
/// coincide, so the claim is stated away from them.)
pub proof fn lemma_defiltering_not_involutive(input: Seq<u8>, prev: Seq<u8>)
    requires
        input.len() >= 2,
        input[0] != 0,
        input[0] != 128,
    ensures
        recon_row(Filter::Sub, recon_row(Filter::Sub, input, prev, 1), prev, 1) != input,
{
    let y = recon_row(Filter::Sub, input, prev, 1);
    let z = recon_row(Filter::Sub, y, prev, 1);
    lemma_recon_prefix_len(Filter::Sub, input, prev, 1, input.len());
    lemma_recon_prefix_len(Filter::Sub, y, prev, 1, y.len());
    lemma_recon_prefix_len(Filter::Sub, input, prev, 1, 1);
    lemma_recon_prefix_len(Filter::Sub, y, prev, 1, 1);
    lemma_sub_first_pixel(input, prev, 1, 0);
    lemma_sub_first_pixel(y, prev, 1, 0);
    lemma_recon_prefix_index(Filter::Sub, input, prev, 1, input.len(), 0);
    lemma_recon_prefix_index(Filter::Sub, y, prev, 1, y.len(), 0);
    lemma_recon_prefix_index(Filter::Sub, input, prev, 1, input.len(), 1);
    lemma_recon_prefix_index(Filter::Sub, y, prev, 1, y.len(), 1);
    assert(y[1] == byte_add(input[1], input[0]));
    assert(z[1] == byte_add(byte_add(input[1], input[0]), input[0]));
    assert(z[1] != input[1]);
}

/// Each reconstructed row holds exactly one byte per sample byte of its
/// record.
pub proof fn lemma_recon_rows_len(stream: Seq<u8>, bpr: nat, ch: nat, h: nat, i: nat)
    requires
        stream.len() == h * (1 + bpr),
        i <= h,
    ensures
        recon_rows(stream, bpr, ch, i).len() == i * bpr,
    decreases i,
{
    if i == 0 {
        assert(i * bpr == 0) by (nonlinear_arith)
            requires
                i == 0,
        ;
    } else {
        lemma_recon_rows_len(stream, bpr, ch, h, (i - 1) as nat);
        let r = i - 1;
        assert(r * (1 + bpr) + 1 >= 0 && (r + 1) * (1 + bpr) == r * (1 + bpr) + 1 + bpr && (r + 1)
            * (1 + bpr) <= h * (1 + bpr) && i * bpr == (i - 1) * bpr + bpr) by (nonlinear_arith)
            requires
                1 <= i <= h,
                r == i - 1,
        ;
        assert(row_input(stream, bpr, r).len() == bpr);
        lemma_recon_prefix_len(
            filter_of(tag_at(stream, bpr, r)),
            row_input(stream, bpr, r),
            if r == 0 {
                zero_row(bpr)
            } else {
                recon_rows(stream, bpr, ch, (i - 1) as nat).subrange(
                    recon_rows(stream, bpr, ch, (i - 1) as nat).len() - bpr,
                    recon_rows(stream, bpr, ch, (i - 1) as nat).len() as int,
                )
            },
            ch,
            bpr,
        );
    }
}

/// The decoded image's invariant: a successful reconstruction holds
/// exactly `height * bytes_per_row` raw bytes.
pub proof fn lemma_unfilter_output_length(stream: Seq<u8>, header: ImageHeader, data: Seq<u8>)
    requires
        spec_unfilter(stream, header) == Ok::<Seq<u8>, DecodeError>(data),
    ensures
        data.len() == header.height as nat * header.spec_bytes_per_row(),
{
    lemma_recon_rows_len(
        stream,
        header.spec_bytes_per_row(),
        header.color_type.spec_channels(),
        header.height as nat,
        header.height as nat,
    );
}

/// The Paeth predictor over machine integers.
pub fn paeth_predict(left: u8, up: u8, up_left: u8) -> (r: u8)
    ensures
        r == spec_paeth(left, up, up_left),
{
    let a = left as i16;
    let b = up as i16;
    let c = up_left as i16;

    let p = a + b - c;

    let pa = if p - a < 0 { a - p } else { p - a };
    let pb = if p - b < 0 { b - p } else { p - b };
    let pc = if p - c < 0 { c - p } else { p - c };

    if pa <= pb && pa <= pc {
        left
    } else if pb <= pc {
        up
    } else {
        up_left
    }
}

/// Reverses the per-row filtering of the whole decompressed stream,
/// exactly as [`spec_unfilter`] describes: the stream must hold
/// `height` records of `1 + bytes_per_row` bytes, every row tag must be
/// in range, and the reconstructed bytes of all rows are returned in
/// order.
#[verifier::loop_isolation(false)]
#[verifier::rlimit(80)]
pub fn unfilter(stream: &Vec<u8>, header: &ImageHeader) -> (r: Result<Vec<u8>, DecodeError>)
    ensures
        (match r {
            Ok(data) => spec_unfilter(stream@, *header) == Ok::<Seq<u8>, DecodeError>(data@),
            Err(e) => spec_unfilter(stream@, *header) == Err::<Seq<u8>, DecodeError>(e),
        }),
{
    let ch = header.color_type.num_channels() as usize;
    let bpp = header.num_bytes_per_pixel();
    let w = header.width as usize;
    let h = header.height as usize;
    let slen = stream.len();

    if h == 0 {
        proof {
            assert(header.height as nat * (1 + header.spec_bytes_per_row()) == 0)
                by (nonlinear_arith)
                requires
                    header.height == 0,
            ;
        }
        if slen != 0 {
            return Err(DecodeError::ReconstructionSizeMismatch);
        }
        let out: Vec<u8> = Vec::new();
        proof {
            assert(out@ =~= recon_rows(
                stream@,
                header.spec_bytes_per_row(),
                header.color_type.spec_channels(),
                header.height as nat,
            ));
        }
        return Ok(out);
    }

    let bpr = match w.checked_mul(bpp) {
        Some(b) => b,
        None => {
            proof {
                let bprs = header.spec_bytes_per_row();
                assert(h as nat * (1 + bprs) >= 1 + bprs) by (nonlinear_arith)
                    requires
                        h as nat >= 1,
                ;
            }
            return Err(DecodeError::ReconstructionSizeMismatch);
        },
    };
    let record = match bpr.checked_add(1) {
        Some(s) => s,
        None => {
            proof {
                let bprs = header.spec_bytes_per_row();
                assert(h as nat * (1 + bprs) >= 1 + bprs) by (nonlinear_arith)
                    requires
                        h as nat >= 1,
                ;
            }
            return Err(DecodeError::ReconstructionSizeMismatch);
        },
    };
    let needed = match h.checked_mul(record) {
        Some(n) => n,
        None => {
            return Err(DecodeError::ReconstructionSizeMismatch);
        },
    };
    if slen != needed {
        return Err(DecodeError::ReconstructionSizeMismatch);
    }

    let mut out: Vec<u8> = Vec::new();
    let mut r: usize = 0;
    while r < h
        invariant
            r <= h,
            out.len() == r * bpr,
            out@ == recon_rows(stream@, bpr as nat, ch as nat, r as nat),
            forall|q: int| 0 <= q < r ==> #[trigger] tag_at(stream@, bpr as nat, q) <= 4,
        decreases h - r,
    {
        proof {
            assert((r + 1) * record <= h * record && r * record == r * bpr + r && (r + 1) * record
                == r * bpr + r + 1 + bpr) by (nonlinear_arith)
                requires
                    r < h,
                    record == 1 + bpr,
            ;
        }
        let row_start = r * record;
        let tag = stream[row_start];
        assert(tag == tag_at(stream@, bpr as nat, r as int));
        if tag > 4 {
            return Err(DecodeError::InvalidFilterType);
        }
        let filter = match Filter::from_code(tag) {
            Ok(f) => f,
            Err(e) => {
                return Err(e);
            },
        };
        assert(filter == filter_of(tag));

        proof {
            assert(r >= 1 ==> r * bpr >= bpr) by (nonlinear_arith);
        }
        let ghost prev: Seq<u8> = if r == 0 {
            zero_row(bpr as nat)
        } else {
            out@.subrange(out@.len() - bpr, out@.len() as int)
        };
        let ghost input: Seq<u8> = row_input(stream@, bpr as nat, r as int);
        proof {
            assert(input.len() == bpr && prev.len() == bpr);
            assert(forall|j: int|
                0 <= j < bpr ==> input[j] == #[trigger] stream@[row_start + 1 + j]);
        }

        let mut image_row: Vec<u8> = Vec::new();
        let mut j: usize = 0;
        while j < bpr
            invariant
                j <= bpr,
                image_row.len() == j,
                image_row@ == recon_prefix(filter, input, prev, ch as nat, j as nat),
            decreases bpr - j,
        {
            proof {
                assert(r >= 1 ==> (r - 1) * bpr == r * bpr - bpr) by (nonlinear_arith);
            }
            let left = if j >= ch {
                image_row[j - ch]
            } else {
                0
            };
            let up = if r == 0 {
                0
            } else {
                out[(r - 1) * bpr + j]
            };
            let up_left = if j < ch {
                0
            } else if r == 0 {
                0
            } else {
                out[(r - 1) * bpr + j - ch]
            };
            proof {
                assert(up == prev[j as int]);
                assert(up_left == row_up_left(prev, j as int, ch as nat));
                assert(left == row_left(image_row@, j as int, ch as nat));
            }
            let pred = match filter {
                Filter::NoFilter => 0,
                Filter::Sub => left,
                Filter::Up => up,
                Filter::Average => (((left as u16) + (up as u16)) / 2) as u8,
                Filter::Paeth => paeth_predict(left, up, up_left),
            };
            assert(pred == predictor(filter, left, up, up_left));
            let byte = stream[row_start + 1 + j].wrapping_add(pred);
            image_row.push(byte);
            j += 1;
            assert(image_row@ == recon_prefix(filter, input, prev, ch as nat, j as nat));
        }

        assert(image_row@ == recon_row(filter, input, prev, ch as nat));
        out.append(&mut image_row);
        r += 1;
        proof {
            assert(r * bpr == (r - 1) * bpr + bpr) by (nonlinear_arith)
                requires
                    r >= 1,
            ;
        }
        assert(out@ == recon_rows(stream@, bpr as nat, ch as nat, r as nat));
    }

    Ok(out)
}

} // verus!
