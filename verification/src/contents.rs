//! What the pieces of a plan and the segments of a container hold, in terms of the
//! file and its samples.

use crate::bayer::lemma_quadrants;
use crate::bits::bits_of;
use crate::bytes::{le, le_value, lemma_le_len, lemma_le_round_trip, lemma_signed32, word32};
use crate::cnef::{
    decoded_at, joined, meta_scheme, mosaic_of, original_total, outcome_at, payload_total,
    piece_payload, piece_segment, piece_segments, planned, progress, raw_parts_of, raw_piece,
    restored, sealed, segment_output, strip_scheme, with_gaps, with_gaps_decoded, CompressionStats,
    Content, ContentView, Decoded, DecodedView, Piece, PieceView, RawSource,
};
use crate::gap::{zstd_content, zstd_frame};
use crate::lossless::{lemma_sealed_segments, separate};
use crate::nef::{NefChunks, NikonLosslessMeta, RawStrip};
use crate::nikon_lossless::{decoded, lemma_decoded_len, lemma_strip_code, Scheme};
use crate::packed::{packed, unpacked, Layout};
use crate::region::{in_file_order, lemma_in_file_order, regions_of, Region};
use crate::segment::{parsed, SegmentView};
use crate::strip::{
    biased, kept_tail, lemma_biased, lemma_payload_round_trip, lemma_reconstructed, raw_payload,
    reconstructed, unshifted,
};
use crate::tiling::{is_segment_of, lemma_segments_tile};
use vstd::arithmetic::div_mod::lemma_fundamental_div_mod;
use vstd::arithmetic::power2::{lemma2_to64, pow2};
use vstd::prelude::*;

verus! {

/// The place of line `j` of `n`: even lines first, then odd ones.
pub open spec fn sorted_place(j: int, n: int) -> int {
    j / 2 + if j % 2 == 1 {
        (n + 1) / 2
    } else {
        0
    }
}

/// When a strip in Nikon's format makes a piece: its width is even, it is not empty, its
/// samples can be held, and its samples and its tail make it again.
pub proof fn lemma_lossless_accepted(raw: Seq<u8>, strip: RawStrip, m: NikonLosslessMeta)
    ensures
        ({
            let (w, h) = (strip.width as nat, strip.height as nat);
            let c = Scheme {
                width: w,
                huff_select: m.huff_select as nat,
                initial: seq![
                    m.initial_predictors@[0]@[0] as int,
                    m.initial_predictors@[0]@[1] as int,
                    m.initial_predictors@[1]@[0] as int,
                    m.initial_predictors@[1]@[1] as int,
                ],
                split_row: m.split_row as nat,
            };
            let (samples, bits) = decoded(c, bits_of(raw), w * h);
            raw_piece(raw, strip, RawSource::Lossless(m)) is Ok <==> {
                &&& w > 0
                &&& w % 2 == 0
                &&& h > 0
                &&& 2 * (w * h) <= isize::MAX
                &&& reconstructed(c, h, samples, kept_tail(raw, bits), raw.len()) == Ok::<
                    Seq<u8>,
                    Seq<char>,
                >(raw)
            }
        }),
{
}

/// Adding the word of a bias adds the bias modulo 65536.
proof fn lemma_bias_word(bias: int, v: int, x: int)
    requires
        -0x8000 <= bias < 0x8000,
        0 <= x < 0x1_0000,
        bias + v == x || bias + v == x - 0x1_0000,
    ensures
        (v + word32(bias)) % 0x1_0000 == x,
{
    let u = word32(bias) as int;
    assert(u == bias || u == bias + 0x1_0000_0000);
}

/// The piece of a strip in Nikon's format, sample by sample. The sample of row `row` and
/// column `col` stands in the image behind those of even rows or columns if its own is
/// odd. In an ordinary piece it stands there as it is, at the bit depth of the strip; in
/// a biased one the prefix holds a number in two's complement that is to be added to it
/// modulo 65536. The tail is what follows the bytes that were used up.
#[verifier::spinoff_prover]
#[verifier::rlimit(60)]
pub proof fn lemma_lossless_piece(
    raw: Seq<u8>,
    strip: RawStrip,
    m: NikonLosslessMeta,
    row: int,
    col: int,
)
    requires
        raw_piece(raw, strip, RawSource::Lossless(m)) is Ok,
        0 <= row < strip.height,
        0 <= col < strip.width,
    ensures
        ({
            let p = raw_piece(raw, strip, RawSource::Lossless(m))->Ok_0;
            let (w, h) = (strip.width as nat, strip.height as nat);
            let c = Scheme {
                width: w,
                huff_select: m.huff_select as nat,
                initial: seq![
                    m.initial_predictors@[0]@[0] as int,
                    m.initial_predictors@[0]@[1] as int,
                    m.initial_predictors@[1]@[0] as int,
                    m.initial_predictors@[1]@[1] as int,
                ],
                split_row: m.split_row as nat,
            };
            let (samples, bits) = decoded(c, bits_of(raw), w * h);
            let x = samples[row * w + col] as int;
            &&& p.content is Pixels
            &&& p.content->Pixels_0.len() == w * h
            &&& {
                let v = p.content->Pixels_0[sorted_place(row, h as int) * w + sorted_place(
                    col,
                    w as int,
                )] as int;
                let depth = p.content->Pixels_1;
                ||| {
                    &&& p.seg_type is RawPixelsJxl
                    &&& v == x
                    &&& x < 0x8000
                    &&& depth == strip.bits_per_sample
                    &&& p.prefix == Seq::<u8>::empty()
                    &&& depth < 16 ==> v < pow2(depth)
                }
                ||| {
                    &&& p.seg_type is RawPixelsBiasedJxl
                    &&& p.prefix.len() == 4
                    &&& (v + le_value(p.prefix)) % 0x1_0000 == x
                    &&& v < pow2(depth)
                }
            }
            &&& p.tail == kept_tail(raw, bits)
            &&& p.original_offset == strip.offset
            &&& p.original_length == strip.length
            &&& p.raw_meta is Some
            &&& p.raw_meta->Some_0.width == w
            &&& p.raw_meta->Some_0.height == h
            &&& p.raw_meta->Some_0.bits_per_sample == strip.bits_per_sample as int % 256
            &&& p.raw_meta->Some_0.huff_select == m.huff_select as int % 256
            &&& p.raw_meta->Some_0.split_row == m.split_row as int % 0x1_0000_0000
            &&& p.raw_meta->Some_0.initial == c.initial
        }),
{
    let p = raw_piece(raw, strip, RawSource::Lossless(m))->Ok_0;
    let (w, h) = (strip.width as nat, strip.height as nat);
    let c = strip_scheme(strip, m);
    let (samples, bits) = decoded(c, bits_of(raw), w * h);
    lemma_decoded_len(c, bits_of(raw), w * h);
    let (values, depth, bias) = biased(samples, strip.bits_per_sample);
    lemma_biased(samples, strip.bits_per_sample);
    lemma_quadrants(values, w, h, row, col);
    assert(0 <= row * w && row * w + w <= w * h) by (nonlinear_arith)
        requires
            0 <= row < h,
            w >= 0,
    ;
    let i = row * w + col;
    let x = samples[i] as int;
    if let Some(b) = bias {
        lemma_le_len(word32(b), 4);
        lemma2_to64();
        lemma_signed32(b);
        lemma_le_round_trip(word32(b), 4);
        lemma_bias_word(b, values[i] as int, x);
    } else {
        assert(values[i] == samples[i]);
    }
}

/// The piece of an uncompressed strip: the samples in the order of the strip, at the bit
/// depth of the strip where they are packed and at 16 bits where they are words. It is
/// made exactly if the layout is known, the samples can be held, and they make the
/// strip again.
pub proof fn lemma_uncompressed_piece(raw: Seq<u8>, strip: RawStrip)
    ensures
        ({
            let r = raw_piece(raw, strip, RawSource::Uncompressed);
            let (w, h) = (strip.width as nat, strip.height as nat);
            let l = Layout::detected(raw.len(), w, h, strip.bits_per_sample);
            &&& r is Ok <==> {
                &&& l is Some
                &&& 2 * (w * h) <= isize::MAX
                &&& packed(unpacked(raw, w, h, l->Some_0), w, h, l->Some_0) == raw
            }
            &&& r matches Ok(p) ==> {
                &&& p.seg_type is RawUncompressedJxl
                &&& p.content == ContentView::Pixels(
                    unpacked(raw, w, h, l->Some_0),
                    if l->Some_0 is Unpacked16 {
                        16
                    } else {
                        strip.bits_per_sample as nat
                    },
                )
                &&& p.prefix.len() == 0
                &&& p.tail.len() == 0
                &&& p.original_offset == strip.offset
                &&& p.original_length == strip.length
                &&& p.raw_meta is Some
                &&& p.raw_meta->Some_0.width == w
                &&& p.raw_meta->Some_0.height == h
                &&& p.raw_meta->Some_0.bits_per_sample == strip.bits_per_sample as int % 256
                &&& p.raw_meta->Some_0.huff_select == 0
                &&& p.raw_meta->Some_0.split_row == 0
                &&& p.raw_meta->Some_0.initial == seq![0int, 0, 0, 0]
            }
        }),
{
}

/// One region more: the gap in front of it, if there is one, and its own piece, and the
/// next place is where the region ends.
#[verifier::spinoff_prover]
pub proof fn lemma_region_added(
    nef: Seq<u8>,
    strip: RawStrip,
    source: RawSource,
    regions: Seq<Region>,
    n: nat,
)
    requires
        n < regions.len(),
    ensures
        ({
            let p = progress(nef, strip, source, regions, n);
            let q = progress(nef, strip, source, regions, n + 1);
            let r = regions[n as int];
            let (start, end) = (r.offset as int, r.offset + r.length);
            let gap: int = if p.pos < start {
                1
            } else {
                0
            };
            &&& progress(nef, strip, source, regions, 0).pieces.len() == 0
            &&& progress(nef, strip, source, regions, 0).pos == 0
            &&& p.failure is Some ==> q == p
            &&& q.failure is None ==> {
                &&& p.failure is None
                &&& q.pos == end
                &&& q.pieces.len() == p.pieces.len() + gap + 1
                &&& q.pieces.take(p.pieces.len() as int) == p.pieces
                &&& gap == 1 ==> {
                    let g = q.pieces[p.pieces.len() as int];
                    &&& start <= nef.len()
                    &&& g.seg_type is Zstd
                    &&& g.original_offset == p.pos
                    &&& g.original_length == start - p.pos
                    &&& g.content == ContentView::Bytes(nef.subrange(p.pos as int, start))
                    &&& g.raw_meta is None
                }
                &&& {
                    let g = q.pieces.last();
                    let data = if r.length == 0 {
                        Seq::empty()
                    } else {
                        nef.subrange(start, end)
                    };
                    &&& r.length == 0 || end <= nef.len()
                    &&& r.kind is RawStrip ==> raw_piece(data, strip, source) == Ok::<
                        PieceView,
                        Seq<char>,
                    >(g)
                    &&& r.kind is Jpeg ==> {
                        &&& g.seg_type is JpegJxl
                        &&& g.original_offset == start
                        &&& g.original_length == r.length
                        &&& g.content == ContentView::Bytes(data)
                        &&& g.raw_meta is None
                    }
                }
            }
        }),
{
    let p = progress(nef, strip, source, regions, n);
    let q = progress(nef, strip, source, regions, n + 1);
    if q.failure is None {
        assert(q.pieces.take(p.pieces.len() as int) =~= p.pieces);
    }
}

/// The last gap reaches to the end of the file.
pub proof fn lemma_last_gap(nef: Seq<u8>, chunks: NefChunks, source: RawSource)
    requires
        planned(nef, chunks, source).failure is None,
    ensures
        ({
            let regions = in_file_order(regions_of(chunks@));
            let p = progress(nef, chunks.raw_strip, source, regions, regions.len());
            let q = planned(nef, chunks, source);
            let size = chunks.file_size as int;
            &&& p.failure is None
            &&& p.pos >= size ==> q.pieces == p.pieces
            &&& p.pos < size ==> {
                let g = q.pieces.last();
                &&& size <= nef.len()
                &&& q.pieces.drop_last() == p.pieces
                &&& g.seg_type is Zstd
                &&& g.original_offset == p.pos
                &&& g.original_length == size - p.pos
                &&& g.content == ContentView::Bytes(nef.subrange(p.pos as int, size))
                &&& g.raw_meta is None
            }
        }),
{
    let regions = in_file_order(regions_of(chunks@));
    let p = progress(nef, chunks.raw_strip, source, regions, regions.len());
    let q = planned(nef, chunks, source);
    if p.pos < chunks.file_size {
        assert(q.pieces.drop_last() =~= p.pieces);
    }
}

/// The regions of a file are its raw strip and its JPEGs, with their places and lengths.
pub proof fn lemma_regions(chunks: NefChunks, i: int)
    ensures
        regions_of(chunks@).len() == chunks.jpegs@.len() + 1,
        regions_of(chunks@)[0].kind is RawStrip,
        regions_of(chunks@)[0].offset == chunks.raw_strip.offset,
        regions_of(chunks@)[0].length == chunks.raw_strip.length,
        0 <= i < chunks.jpegs@.len() ==> {
            let r = regions_of(chunks@)[i + 1];
            r.kind is Jpeg && r.offset == chunks.jpegs@[i].offset && r.length
                == chunks.jpegs@[i].length
        },
{
}

/// The raw strip of a file and each of its JPEGs is a segment of the container, at its
/// place and of its length.
#[verifier::spinoff_prover]
pub proof fn lemma_chunks_are_segments(
    nef: Seq<u8>,
    chunks: NefChunks,
    source: RawSource,
    outcomes: Seq<Result<Seq<u8>, Seq<char>>>,
    segments: Seq<SegmentView>,
    stats: CompressionStats,
)
    requires
        chunks.file_size == nef.len(),
        separate(in_file_order(regions_of(chunks@))),
        ({
            let p = planned(nef, chunks, source);
            sealed(p.pieces, p.failure, outcomes) == Ok::<Seq<SegmentView>, Seq<char>>(segments)
        }),
        stats.describes(segments),
    ensures
        exists|k: int|
            0 <= k < segments.len() && (#[trigger] segments[k]).original_offset
                == chunks.raw_strip.offset && segments[k].original_length == chunks.raw_strip.length
                && (segments[k].seg_type is RawPixelsJxl
                || segments[k].seg_type is RawPixelsBiasedJxl
                || segments[k].seg_type is RawUncompressedJxl),
        forall|i: int|
            0 <= i < chunks.jpegs@.len() ==> exists|k: int|
                0 <= k < segments.len() && (#[trigger] segments[k]).original_offset == (
                #[trigger] chunks.jpegs@[i]).offset && segments[k].original_length
                    == chunks.jpegs@[i].length && segments[k].seg_type is JpegJxl,
{
    broadcast use vstd::seq_lib::group_to_multiset_ensures;

    let all = regions_of(chunks@);
    let sorted = in_file_order(all);
    lemma_segments_tile(nef, chunks, source, outcomes, segments, stats);
    lemma_in_file_order(all);
    assert forall|j: int| 0 <= j < all.len() implies exists|k: int|
        0 <= k < segments.len() && is_segment_of(#[trigger] segments[k], #[trigger] all[j]) by {
        assert(all.contains(all[j]));
        assert(all.to_multiset().count(all[j]) > 0);
        assert(sorted.to_multiset().count(all[j]) > 0);
        assert(sorted.contains(all[j]));
        let i = choose|i: int| 0 <= i < sorted.len() && sorted[i] == all[j];
        let k = choose|k: int|
            0 <= k < segments.len() && is_segment_of(#[trigger] segments[k], sorted[i]);
        assert(is_segment_of(segments[k], all[j]));
    }
    let k = choose|k: int|
        0 <= k < segments.len() && is_segment_of(#[trigger] segments[k], all[0]);
    assert(segments[k].original_offset == chunks.raw_strip.offset);
    assert forall|i: int| 0 <= i < chunks.jpegs@.len() implies exists|k: int|
        0 <= k < segments.len() && (#[trigger] segments[k]).original_offset == (
        #[trigger] chunks.jpegs@[i]).offset && segments[k].original_length
            == chunks.jpegs@[i].length && segments[k].seg_type is JpegJxl by {
        let r = all[i + 1];
        let k = choose|k: int| 0 <= k < segments.len() && is_segment_of(#[trigger] segments[k], r);
        assert(segments[k].original_offset == r.offset);
    }
}

/// A plan is sealed exactly if it has no failure and all its pieces were encoded. Each
/// piece then is a segment with its place, its length and its metadata. The payload of
/// a JPEG or a gap is what it was encoded to; that of a raw strip the prefix, the
/// length of what it was encoded to in four bytes, this itself, and the tail.
#[verifier::spinoff_prover]
pub proof fn lemma_sealed(
    pieces: Seq<PieceView>,
    failure: Option<Seq<char>>,
    outcomes: Seq<Result<Seq<u8>, Seq<char>>>,
    k: int,
)
    ensures
        sealed(pieces, failure, outcomes) is Ok <==> failure is None && outcomes.len()
            >= pieces.len() && forall|i: int|
            0 <= i < pieces.len() ==> #[trigger] outcomes[i] is Ok,
        sealed(pieces, failure, outcomes) is Ok && 0 <= k < pieces.len() ==> {
            let g = sealed(pieces, failure, outcomes)->Ok_0[k];
            let data = outcomes[k]->Ok_0;
            &&& sealed(pieces, failure, outcomes)->Ok_0.len() == pieces.len()
            &&& g.seg_type == pieces[k].seg_type
            &&& g.original_offset == pieces[k].original_offset
            &&& g.original_length == pieces[k].original_length
            &&& g.raw_meta == pieces[k].raw_meta
            &&& g.seg_type is Zstd || g.seg_type is JpegJxl ==> g.payload == data
            &&& g.seg_type is RawPixelsJxl || g.seg_type is RawPixelsBiasedJxl
                || g.seg_type is RawUncompressedJxl ==> g.payload == pieces[k].prefix + le(
                data.len(),
                4,
            ) + data + pieces[k].tail
        },
{
    lemma_all_encoded(pieces, outcomes, pieces.len());
    if outcomes.len() >= pieces.len() && sealed(pieces, failure, outcomes) is Ok {
        lemma_sealed_segments(pieces, outcomes, pieces.len());
        if 0 <= k < pieces.len() {
            let g = sealed(pieces, failure, outcomes)->Ok_0[k];
            let data = outcomes[k]->Ok_0;
            let p = pieces[k];
            assert(g == piece_segment(p, data));
            assert(p.prefix + raw_payload(data, p.tail) =~= p.prefix + le(data.len(), 4) + data
                + p.tail);
        }
    }
}

proof fn lemma_all_encoded(
    pieces: Seq<PieceView>,
    outcomes: Seq<Result<Seq<u8>, Seq<char>>>,
    n: nat,
)
    requires
        n <= pieces.len(),
    ensures
        piece_segments(pieces, outcomes, n) is Ok <==> outcomes.len() >= n && forall|i: int|
            0 <= i < n ==> #[trigger] outcomes[i] is Ok,
    decreases n,
{
    if n > 0 {
        lemma_all_encoded(pieces, outcomes, (n - 1) as nat);
        if n <= outcomes.len() {
            assert(outcome_at(outcomes, n - 1) == outcomes[n - 1]);
        }
    }
}

/// Gaps are compressed at level 19; all other pieces are taken as they were encoded.
pub proof fn lemma_with_gaps(
    pieces: Seq<PieceView>,
    encoded: Seq<Result<Seq<u8>, Seq<char>>>,
    i: int,
)
    requires
        0 <= i < pieces.len(),
    ensures
        with_gaps(pieces, encoded).len() == pieces.len(),
        !(pieces[i].seg_type is Zstd) && i < encoded.len() ==> with_gaps(pieces, encoded)[i]
            == encoded[i],
        !(pieces[i].seg_type is Zstd) && i >= encoded.len() ==> with_gaps(
            pieces,
            encoded,
        )[i] is Err,
        pieces[i].seg_type is Zstd ==> {
            &&& pieces[i].content matches ContentView::Bytes(b) ==> match zstd_frame(b, 19) {
                Ok(frame) => with_gaps(pieces, encoded)[i] == Ok::<Seq<u8>, Seq<char>>(frame),
                Err(_) => with_gaps(pieces, encoded)[i] is Err,
            }
        },
{
}

/// The payload of a raw segment is taken apart as it was put together: the bias is the
/// number in the prefix, and zero without one.
pub proof fn lemma_raw_parts(p: PieceView, data: Seq<u8>, bias: int)
    requires
        p.seg_type is RawPixelsJxl || p.seg_type is RawPixelsBiasedJxl
            || p.seg_type is RawUncompressedJxl,
        data.len() <= u32::MAX,
        -0x8000_0000 <= bias < 0x8000_0000,
        p.seg_type is RawPixelsBiasedJxl ==> p.prefix == le(
            if bias < 0 {
                (bias + 0x1_0000_0000) as nat
            } else {
                bias as nat
            },
            4,
        ),
        !(p.seg_type is RawPixelsBiasedJxl) ==> p.prefix.len() == 0 && bias == 0,
    ensures
        raw_parts_of(p.seg_type, piece_payload(p, data)) == Ok::<
            (int, Seq<u8>, Seq<u8>),
            Seq<char>,
        >((bias, data, p.tail)),
{
    lemma_payload_round_trip(data, p.tail);
    let body = raw_payload(data, p.tail);
    let all = piece_payload(p, data);
    if p.seg_type is RawPixelsBiasedJxl {
        lemma2_to64();
        lemma_signed32(bias);
        lemma_le_len(word32(bias), 4);
        lemma_le_round_trip(word32(bias), 4);
        assert(p.prefix == le(word32(bias), 4));
        assert(all.take(4) =~= p.prefix);
        assert(all.skip(4) =~= body);
    } else {
        assert(all =~= body);
    }
}

/// What a segment that is no raw strip gives: a gap the bytes it was decoded to, a JPEG
/// too if they are as many as it had, and nothing else.
pub proof fn lemma_bytes_output(g: SegmentView, d: DecodedView)
    ensures
        g.seg_type is Zstd ==> match d {
            DecodedView::Bytes(b) => segment_output(g, d) == Ok::<Seq<u8>, Seq<char>>(b),
            _ => segment_output(g, d) is Err,
        },
        g.seg_type is JpegJxl ==> match d {
            DecodedView::Bytes(b) => if b.len() == g.original_length {
                segment_output(g, d) == Ok::<Seq<u8>, Seq<char>>(b)
            } else {
                segment_output(g, d) is Err
            },
            _ => segment_output(g, d) is Err,
        },
{
}

/// What a strip in Nikon's format is made of again: of the samples in the order of the
/// sensor, each the decoded value, which stands behind those of even rows or columns if
/// its own is odd, plus the bias modulo 65536. An image of another size is refused, and
/// tables that do not exist are.
#[verifier::spinoff_prover]
pub proof fn lemma_lossless_output(
    g: SegmentView,
    px: Seq<u16>,
    bias: int,
    jxl: Seq<u8>,
    tail: Seq<u8>,
    samples: Seq<u16>,
)
    requires
        g.seg_type is RawPixelsJxl || g.seg_type is RawPixelsBiasedJxl,
        g.raw_meta is Some,
        g.original_length <= usize::MAX,
        raw_parts_of(g.seg_type, g.payload) == Ok::<(int, Seq<u8>, Seq<u8>), Seq<char>>(
            (bias, jxl, tail),
        ),
        ({
            let m = g.raw_meta->Some_0;
            &&& samples.len() == m.width * m.height
            &&& forall|row: int, col: int|
                0 <= row < m.height && 0 <= col < m.width ==> #[trigger] samples[row * m.width
                    + col] == (px[sorted_place(row, m.height as int) * m.width + sorted_place(
                    col,
                    m.width as int,
                )] + bias) % 0x1_0000
        }),
    ensures
        ({
            let m = g.raw_meta->Some_0;
            let c = Scheme {
                width: m.width,
                huff_select: m.huff_select,
                initial: m.initial,
                split_row: m.split_row,
            };
            let r = segment_output(g, DecodedView::Pixels(px));
            &&& px.len() != m.width * m.height ==> r is Err
            &&& px.len() == m.width * m.height ==> {
                if m.huff_select < 6 && (0 < m.split_row < m.height ==> m.huff_select < 5) {
                    r == reconstructed(c, m.height, samples, tail, g.original_length)
                } else {
                    r is Err
                }
            }
            &&& r matches Ok(s) ==> s.len() == g.original_length
        }),
{
    let m = g.raw_meta->Some_0;
    let (w, h) = (m.width, m.height);
    let again = unshifted(mosaic_of(px, m), bias);
    if px.len() == w * h {
        assert forall|i: int| 0 <= i < w * h implies again[i] == samples[i] by {
            assert(w > 0) by (nonlinear_arith)
                requires
                    0 < w * h,
                    w >= 0,
            ;
            lemma_fundamental_div_mod(i, w as int);
            let (row, col) = (i / w as int, i % w as int);
            assert(0 <= row < h) by (nonlinear_arith)
                requires
                    w * row + col == i,
                    0 <= i < w * h,
                    0 <= col < w,
            ;
            assert(w * row == row * w) by (nonlinear_arith);
            lemma_quadrants(px, w, h, row, col);
            assert(samples[row * w + col] == (px[sorted_place(row, h as int) * w + sorted_place(
                col,
                w as int,
            )] + bias) % 0x1_0000);
        }
        assert(again =~= samples);
    }
    lemma_reconstructed(meta_scheme(m), h, again, tail, g.original_length);
    lemma_strip_code(meta_scheme(m), h, again);
}

/// What an uncompressed strip is made of again: of the decoded values as they are, in the
/// layout that its length shows.
pub proof fn lemma_uncompressed_output(g: SegmentView, px: Seq<u16>)
    requires
        g.seg_type is RawUncompressedJxl,
        g.raw_meta is Some,
        g.original_length <= usize::MAX,
    ensures
        ({
            let m = g.raw_meta->Some_0;
            let l = Layout::detected(
                g.original_length,
                m.width,
                m.height,
                m.bits_per_sample as u32,
            );
            let r = segment_output(g, DecodedView::Pixels(px));
            &&& r is Ok <==> l is Some && px.len() >= m.width * m.height
            &&& r matches Ok(s) ==> s == packed(px, m.width, m.height, l->Some_0)
        }),
{
}

/// The number of bytes of the first `n` segments.
pub open spec fn bytes_before(segments: Seq<SegmentView>, outputs: Seq<DecodedView>, n: nat) -> nat
    decreases n,
{
    if n == 0 {
        0
    } else {
        bytes_before(segments, outputs, (n - 1) as nat) + segment_output(
            segments[n - 1],
            outputs[n - 1],
        )->Ok_0.len()
    }
}

proof fn lemma_joined_length(segments: Seq<SegmentView>, outputs: Seq<DecodedView>, n: nat)
    requires
        n <= segments.len(),
        outputs.len() == segments.len(),
    ensures
        joined(segments, outputs, n) is Ok <==> forall|i: int|
            0 <= i < n ==> segment_output(segments[i], #[trigger] outputs[i]) is Ok,
        joined(segments, outputs, n) matches Ok(out) ==> out.len() == bytes_before(
            segments,
            outputs,
            n,
        ),
    decreases n,
{
    if n > 0 {
        let m = (n - 1) as nat;
        lemma_joined_length(segments, outputs, m);
        assert(decoded_at(outputs, m as int) == outputs[m as int]);
        let r = segment_output(segments[m as int], outputs[m as int]);
        assert(joined(segments, outputs, n) == match joined(segments, outputs, m) {
            Err(e) => Err(e),
            Ok(out) => match r {
                Err(e) => Err(e),
                Ok(b) => Ok::<Seq<u8>, Seq<char>>(out + b),
            },
        });
    }
}

proof fn lemma_joined_part(
    segments: Seq<SegmentView>,
    outputs: Seq<DecodedView>,
    n: nat,
    k: nat,
)
    requires
        k < n <= segments.len(),
        outputs.len() == segments.len(),
        joined(segments, outputs, n) is Ok,
    ensures
        ({
            let out = joined(segments, outputs, n)->Ok_0;
            let (a, b) = (
                bytes_before(segments, outputs, k) as int,
                bytes_before(segments, outputs, k + 1) as int,
            );
            &&& a <= b <= out.len()
            &&& out.subrange(a, b) == segment_output(
                segments[k as int],
                outputs[k as int],
            )->Ok_0
        }),
    decreases n,
{
    let m = (n - 1) as nat;
    lemma_joined_length(segments, outputs, m);
    lemma_joined_length(segments, outputs, n);
    assert(decoded_at(outputs, m as int) == outputs[m as int]);
    let r = segment_output(segments[m as int], outputs[m as int]);
    let before = joined(segments, outputs, m)->Ok_0;
    let out = joined(segments, outputs, n)->Ok_0;
    assert(out == before + r->Ok_0);
    let (a, b) = (
        bytes_before(segments, outputs, k) as int,
        bytes_before(segments, outputs, k + 1) as int,
    );
    if k < m {
        lemma_joined_part(segments, outputs, m, k);
        assert(out.subrange(a, b) =~= before.subrange(a, b));
    } else {
        assert(out.subrange(a, b) =~= r->Ok_0);
    }
}

/// When a file is restored: the container can be read to its end, every segment gives
/// its bytes, and they are as many in all as the container says. The file is then
/// these bytes, segment behind segment. The bytes of a gap are those of its frame.
#[verifier::spinoff_prover]
pub proof fn lemma_restored(cnef: Seq<u8>, decoded: Seq<DecodedView>, k: nat)
    ensures
        ({
            let p = parsed(cnef);
            let n = p.segments.len();
            let outputs = with_gaps_decoded(p.segments, decoded);
            let r = restored(cnef, decoded);
            &&& outputs.len() == n
            &&& k < n && !(p.segments[k as int].seg_type is Zstd) ==> {
                if k < decoded.len() {
                    outputs[k as int] == decoded[k as int]
                } else {
                    outputs[k as int] is Nothing
                }
            }
            &&& k < n && p.segments[k as int].seg_type is Zstd ==> match zstd_content(
                p.segments[k as int].payload,
            ) {
                Ok(b) => outputs[k as int] == DecodedView::Bytes(b),
                Err(_) => outputs[k as int] is Failed,
            }
            &&& r is Ok <==> {
                &&& p.failure is None
                &&& forall|i: int|
                    0 <= i < n ==> segment_output(p.segments[i], #[trigger] outputs[i]) is Ok
                &&& bytes_before(p.segments, outputs, n) == p.original_file_size
            }
            &&& r matches Ok(out) ==> {
                let (a, b) = (
                    bytes_before(p.segments, outputs, k) as int,
                    bytes_before(p.segments, outputs, k + 1) as int,
                );
                &&& out.len() == p.original_file_size
                &&& k < n ==> a <= b <= out.len() && out.subrange(a, b) == segment_output(
                    p.segments[k as int],
                    outputs[k as int],
                )->Ok_0
            }
        }),
{
    let p = parsed(cnef);
    let n = p.segments.len();
    let outputs = with_gaps_decoded(p.segments, decoded);
    lemma_joined_length(p.segments, outputs, n);
    if k < n && restored(cnef, decoded) is Ok {
        lemma_joined_part(p.segments, outputs, n, k);
    }
}

/// A piece is looked at with all its parts.
pub proof fn lemma_piece_view(p: Piece)
    ensures
        p@.seg_type == p.seg_type,
        p@.original_offset == p.original_offset,
        p@.original_length == p.original_length,
        p@.prefix == p.prefix@,
        p@.tail == p.tail@,
        p.raw_meta is None <==> p@.raw_meta is None,
        p.raw_meta matches Some(m) ==> p@.raw_meta == Some(m@),
        match p.content {
            Content::Bytes(b) => p@.content == ContentView::Bytes(b@),
            Content::Pixels { pixels, bits_per_sample } => p@.content == ContentView::Pixels(
                pixels@,
                bits_per_sample as nat,
            ),
        },
{
}

/// What was decoded is looked at as it is.
pub proof fn lemma_decoded_view(d: Decoded)
    ensures
        match d {
            Decoded::Nothing => d@ is Nothing,
            Decoded::Bytes(b) => d@ == DecodedView::Bytes(b@),
            Decoded::Pixels(px) => d@ == DecodedView::Pixels(px@),
            Decoded::Failed(e) => d@ == DecodedView::Failed(e@),
        },
{
}

/// The notes of the camera and the chunks of a file are looked at with all their parts.
pub proof fn lemma_chunk_views(chunks: NefChunks, m: NikonLosslessMeta, row: int, col: int)
    requires
        0 <= row < 2,
        0 <= col < 2,
    ensures
        chunks@.file_size == chunks.file_size,
        chunks@.tiff_view == chunks.tiff_view,
        chunks@.raw_strip == chunks.raw_strip,
        chunks@.jpegs == chunks.jpegs@,
        m@.huff_select == m.huff_select,
        m@.split_row == m.split_row,
        m@.initial[2 * row + col] == m.initial_predictors@[row]@[col],
{
    if row == 0 {
        assert(2 * row + col == col);
    } else {
        assert(2 * row + col == 2 + col);
    }
}

/// The totals of a report grow by one segment after the other.
pub proof fn lemma_totals(segments: Seq<SegmentView>, n: nat)
    requires
        n < segments.len(),
    ensures
        original_total(segments, 0) == 0,
        payload_total(segments, 0) == 0,
        original_total(segments, n + 1) - original_total(segments, n)
            == segments[n as int].original_length,
        payload_total(segments, n + 1) - payload_total(segments, n)
            == segments[n as int].payload.len(),
{
}

/// A report on segments that add up to less than two to the 64: it counts them, and its
/// totals are the sums.
pub proof fn lemma_report_totals(stats: CompressionStats, segments: Seq<SegmentView>, i: int)
    requires
        stats.describes(segments),
    ensures
        stats.segment_count == segments.len(),
        stats.segments@.len() == segments.len(),
        original_total(segments, segments.len()) <= u64::MAX ==> stats.original_size
            == original_total(segments, segments.len()),
        payload_total(segments, segments.len()) <= u64::MAX ==> stats.compressed_size
            == payload_total(segments, segments.len()),
        0 <= i < segments.len() ==> stats.segments@[i].seg_type == segments[i].seg_type
            && stats.segments@[i].original_size == segments[i].original_length
            && stats.segments@[i].compressed_size == segments[i].payload.len(),
{
}

} // verus!
