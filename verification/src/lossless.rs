//! What the library is for: a compressed file is given back byte for byte.

use crate::bayer::{deinterleaved, lemma_interleave_inverts_deinterleave};
use crate::bits::bits_of;
use crate::bytes::{le, lemma_le_len, lemma_le_round_trip, lemma_signed32, word32};
use crate::cnef::{
    byte_piece, decoded_at, gaps_restorable, joined, lossless_content, lossless_strip,
    meta_scheme, mosaic_of, noted_meta, outcome_at, piece_bytes, piece_segment, piece_segments,
    planned, progress, range_of, raw_parts_of, raw_piece, region_piece, restored, sealed,
    segment_output, strip_scheme, uncompressed_content, uncompressed_strip, with_gaps,
    with_gaps_decoded, workable, ContentView, DecodedView, PieceView, Progress, RawSource,
};
use crate::gap::zstd_content;
use crate::huffman::lemma_plain_tables;
use crate::nef::{
    nikon_meta, LosslessView, NefChunks, NikonLosslessMeta, RawStrip, NEFMETA_VER_LOSSLESS,
};
use crate::nikon_lossless::{
    decoded, holdable, lemma_decoded_len, lemma_same_tables, predictors, strip_code,
    valid_dimensions,
};
use crate::packed::Layout;
use crate::region::{in_file_order, lemma_ordered_from, regions_of, Region};
use crate::segment::{
    container_bytes, lemma_parse_inverts_write, writable, SegmentType, SegmentView,
};
use crate::strip::{
    biased, lemma_bias_round_trip, lemma_payload_round_trip, lemma_plain_strip_round_trips,
    raw_payload, unshifted,
};
use crate::tiff::TiffView;
use vstd::arithmetic::power2::lemma2_to64;
use vstd::prelude::*;

verus! {

/// No region starts before the ones in front of it have ended.
pub open spec fn separate(regions: Seq<Region>) -> bool {
    forall|i: int, j: int|
        0 <= i < j < regions.len() ==> (#[trigger] regions[i]).offset + regions[i].length <= (
        #[trigger] regions[j]).offset
}

/// What is noted of the raw strip in its segment tells how it is coded: a split
/// row that does not fit in its field lies behind the image, and so does what is
/// noted of it.
pub open spec fn notable(strip: RawStrip, source: RawSource) -> bool {
    source matches RawSource::Lossless(m) ==> {
        let noted = m.split_row as nat % 0x1_0000_0000;
        m.split_row <= u32::MAX || noted == 0 || noted >= strip.height
    }
}

/// A piece stands for a range of the file.
pub open spec fn stands_for(
    nef: Seq<u8>,
    strip: RawStrip,
    source: RawSource,
    p: PieceView,
    start: int,
    end: int,
) -> bool {
    &&& 0 <= start <= end <= nef.len()
    &&& p.original_offset == start
    &&& p.original_length == end - start
    &&& p.seg_type is Zstd || p.seg_type is JpegJxl ==> p == byte_piece(
        p.seg_type,
        start as nat,
        nef.subrange(start, end),
    )
    &&& p.seg_type.is_raw() ==> raw_piece(nef.subrange(start, end), strip, source) == Ok::<
        PieceView,
        Seq<char>,
    >(p)
}

/// Where piece `i` ends.
pub open spec fn end_of(pieces: Seq<PieceView>, i: int) -> int {
    if i < 0 {
        0
    } else {
        (pieces[i].original_offset + pieces[i].original_length) as int
    }
}

/// The pieces stand for ranges that follow each other without a gap.
pub open spec fn covers(
    nef: Seq<u8>,
    strip: RawStrip,
    source: RawSource,
    pieces: Seq<PieceView>,
) -> bool {
    forall|i: int|
        0 <= i < pieces.len() ==> stands_for(
            nef,
            strip,
            source,
            #[trigger] pieces[i],
            end_of(pieces, i - 1),
            end_of(pieces, i),
        )
}

/// A range that can be read is a part of the file.
proof fn lemma_range(nef: Seq<u8>, start: int, end: int)
    requires
        0 <= start <= end,
        start <= nef.len(),
        range_of(nef, start as nat, (end - start) as nat) is Ok,
    ensures
        end <= nef.len(),
        range_of(nef, start as nat, (end - start) as nat)->Ok_0 == nef.subrange(start, end),
{
    if start == end {
        assert(nef.subrange(start, end) =~= Seq::empty());
    }
}

/// A piece more that starts where the others end.
proof fn lemma_cover_more(
    nef: Seq<u8>,
    strip: RawStrip,
    source: RawSource,
    pieces: Seq<PieceView>,
    p: PieceView,
)
    requires
        covers(nef, strip, source, pieces),
        stands_for(
            nef,
            strip,
            source,
            p,
            end_of(pieces, pieces.len() - 1),
            (p.original_offset + p.original_length) as int,
        ),
    ensures
        covers(nef, strip, source, pieces.push(p)),
        end_of(pieces.push(p), pieces.len() as int) == p.original_offset + p.original_length,
{
    let more = pieces.push(p);
    assert forall|i: int| 0 <= i < more.len() implies stands_for(
        nef,
        strip,
        source,
        #[trigger] more[i],
        end_of(more, i - 1),
        end_of(more, i),
    ) by {
        if i < pieces.len() {
            assert(more[i] == pieces[i]);
        }
    }
}

/// The pieces of a progress cover the file up to its place.
spec fn good(nef: Seq<u8>, strip: RawStrip, source: RawSource, p: Progress) -> bool {
    p.failure is None ==> {
        &&& covers(nef, strip, source, p.pieces)
        &&& end_of(p.pieces, p.pieces.len() - 1) == p.pos
        &&& p.pos <= nef.len()
    }
}

proof fn lemma_fill_good(nef: Seq<u8>, strip: RawStrip, source: RawSource, p: Progress, end: nat)
    requires
        good(nef, strip, source, p),
    ensures
        good(nef, strip, source, p.fill(nef, end)),
        p.fill(nef, end).failure is None ==> p.failure is None && p.fill(nef, end).pos == if end
            <= p.pos {
            p.pos
        } else {
            end
        },
{
    let q = p.fill(nef, end);
    if q.failure is None && end > p.pos {
        lemma_range(nef, p.pos as int, end as int);
        let data = nef.subrange(p.pos as int, end as int);
        let piece = byte_piece(SegmentType::Zstd, p.pos, data);
        lemma_cover_more(nef, strip, source, p.pieces, piece);
    }
}

proof fn lemma_put_good(
    nef: Seq<u8>,
    strip: RawStrip,
    source: RawSource,
    p: Progress,
    r: Region,
)
    requires
        good(nef, strip, source, p),
        p.failure is None ==> p.pos == r.offset,
        r.kind is RawStrip ==> r.offset == strip.offset && r.length == strip.length,
    ensures
        good(nef, strip, source, p.put(nef, strip, source, r)),
        p.put(nef, strip, source, r).failure is None ==> p.put(nef, strip, source, r).pos
            == r.offset + r.length,
{
    let q = p.put(nef, strip, source, r);
    if q.failure is None {
        let start = r.offset as int;
        let end = r.offset + r.length;
        lemma_range(nef, start, end);
        let data = nef.subrange(start, end);
        let piece = region_piece(nef, strip, source, r)->Ok_0;
        if r.kind is RawStrip {
            assert(raw_piece(data, strip, source) == Ok::<PieceView, Seq<char>>(piece));
            assert(piece.seg_type.is_raw());
        }
        lemma_cover_more(nef, strip, source, p.pieces, piece);
    }
}

/// The regions of a file that are raw strips are its raw strip.
pub proof fn lemma_region_kinds(s: Seq<Region>, strip: RawStrip)
    requires
        forall|i: int|
            0 <= i < s.len() && (#[trigger] s[i]).kind is RawStrip ==> s[i].offset == strip.offset
                && s[i].length == strip.length,
    ensures
        forall|i: int|
            0 <= i < in_file_order(s).len() && (#[trigger] in_file_order(s)[i]).kind is RawStrip
                ==> in_file_order(s)[i].offset == strip.offset && in_file_order(s)[i].length
                == strip.length,
{
    let o = in_file_order(s);
    assert forall|i: int| 0 <= i < o.len() && (#[trigger] o[i]).kind is RawStrip implies o[i].offset
        == strip.offset && o[i].length == strip.length by {
        lemma_ordered_from(s, i);
        let j = choose|j: int| 0 <= j < s.len() && #[trigger] s[j] == o[i];
        assert(s[j].kind is RawStrip);
    }
}

proof fn lemma_progress_good(
    nef: Seq<u8>,
    strip: RawStrip,
    source: RawSource,
    regions: Seq<Region>,
    n: nat,
)
    requires
        n <= regions.len(),
        separate(regions),
        forall|i: int|
            0 <= i < regions.len() && (#[trigger] regions[i]).kind is RawStrip ==> regions[i].offset
                == strip.offset && regions[i].length == strip.length,
    ensures
        good(nef, strip, source, progress(nef, strip, source, regions, n)),
        progress(nef, strip, source, regions, n).failure is None && n > 0 ==> progress(
            nef,
            strip,
            source,
            regions,
            n,
        ).pos == regions[n - 1].offset + regions[n - 1].length,
    decreases n,
{
    if n > 0 {
        let m = (n - 1) as nat;
        let r = regions[m as int];
        lemma_progress_good(nef, strip, source, regions, m);
        let p = progress(nef, strip, source, regions, m);
        if m > 0 {
            assert(regions[m - 1].offset + regions[m - 1].length <= regions[m as int].offset);
        }
        lemma_fill_good(nef, strip, source, p, r.offset as nat);
        let q = p.fill(nef, r.offset as nat);
        lemma_put_good(nef, strip, source, q, r);
    }
}

/// The pieces of a plan that succeeds cover the whole file, if its chunks do
/// not overlap.
pub proof fn lemma_plan_covers(nef: Seq<u8>, chunks: NefChunks, source: RawSource)
    requires
        chunks.file_size == nef.len(),
        separate(in_file_order(regions_of(chunks@))),
        planned(nef, chunks, source).failure is None,
    ensures
        covers(nef, chunks.raw_strip, source, planned(nef, chunks, source).pieces),
        end_of(
            planned(nef, chunks, source).pieces,
            planned(nef, chunks, source).pieces.len() - 1,
        ) == nef.len(),
{
    let strip = chunks.raw_strip;
    let all = regions_of(chunks@);
    lemma_region_kinds(all, strip);
    let regions = in_file_order(all);
    lemma_progress_good(nef, strip, source, regions, regions.len());
    let p = progress(nef, strip, source, regions, regions.len());
    lemma_fill_good(nef, strip, source, p, nef.len());
}

/// JPEG XL gives the contents back: what was decoded of every JPEG and of every
/// image is what was to be encoded.
pub open spec fn codec_restores(pieces: Seq<PieceView>, decoded: Seq<DecodedView>) -> bool {
    forall|i: int|
        0 <= i < pieces.len() && !((#[trigger] pieces[i]).seg_type is Zstd) ==> decoded_at(
            decoded,
            i,
        ) == match pieces[i].content {
            ContentView::Bytes(b) => DecodedView::Bytes(b),
            ContentView::Pixels(px, _) => DecodedView::Pixels(px),
        }
}

/// A raw strip in Nikon's format is restored from its segment.
#[verifier::spinoff_prover]
#[verifier::rlimit(40)]
proof fn lemma_restore_lossless(
    raw: Seq<u8>,
    strip: RawStrip,
    meta: NikonLosslessMeta,
    p: PieceView,
    data: Seq<u8>,
)
    requires
        raw_piece(raw, strip, RawSource::Lossless(meta)) == Ok::<PieceView, Seq<char>>(p),
        raw.len() == strip.length,
        raw.len() <= usize::MAX,
        workable(strip, RawSource::Lossless(meta)),
        notable(strip, RawSource::Lossless(meta)),
        data.len() <= u32::MAX,
    ensures
        p.content is Pixels,
        segment_output(piece_segment(p, data), DecodedView::Pixels(p.content->Pixels_0)) == Ok::<
            Seq<u8>,
            Seq<char>,
        >(raw),
{
    let g = piece_segment(p, data);
    let (w, h) = (strip.width as nat, strip.height as nat);
    let m = noted_meta(strip, RawSource::Lossless(meta));
    let c = strip_scheme(strip, meta);
    let (pixels, bits) = decoded(c, bits_of(raw), c.width * h);
    let (values, depth, bias) = biased(pixels, strip.bits_per_sample);
    lemma_decoded_len(c, bits_of(raw), c.width * h);
    lemma_bias_round_trip(pixels, strip.bits_per_sample);
    lemma_interleave_inverts_deinterleave(values, w, h);
    lemma_payload_round_trip(data, p.tail);
    lemma2_to64();
    let px = deinterleaved(values, w, h);
    assert(p.content == ContentView::Pixels(px, depth));
    let d = meta_scheme(m);
    assert(d.valid(h));
    assert(forall|row: nat| row < h ==> #[trigger] c.table(row) == d.table(row));
    lemma_same_tables(c, d, h, pixels, c.width * h);
    assert(strip_code(c, h, pixels) == strip_code(d, h, pixels));
    assert(mosaic_of(px, m) == values);
    let shift = match bias {
        Some(b) => b,
        None => 0,
    };
    assert(raw_parts_of(g.seg_type, g.payload) == Ok::<(int, Seq<u8>, Seq<u8>), Seq<char>>(
        (shift, data, p.tail),
    )) by {
        match bias {
            Some(b) => {
                lemma_le_len(word32(b), 4);
                lemma_signed32(b);
                lemma_le_round_trip(word32(b), 4);
                assert(g.payload.take(4) =~= le(word32(b), 4));
                assert(g.payload.skip(4) =~= raw_payload(data, p.tail));
            },
            None => {
                assert(g.payload =~= raw_payload(data, p.tail));
            },
        }
    }
    assert(unshifted(mosaic_of(px, m), shift) == pixels);
    assert(lossless_strip(m, shift, px, p.tail, raw.len()) == Ok::<Seq<u8>, Seq<char>>(raw));
}

/// An uncompressed raw strip is restored from its segment.
proof fn lemma_restore_uncompressed(raw: Seq<u8>, strip: RawStrip, p: PieceView, data: Seq<u8>)
    requires
        raw_piece(raw, strip, RawSource::Uncompressed) == Ok::<PieceView, Seq<char>>(p),
        raw.len() == strip.length,
        raw.len() <= usize::MAX,
    ensures
        p.content is Pixels,
        segment_output(piece_segment(p, data), DecodedView::Pixels(p.content->Pixels_0)) == Ok::<
            Seq<u8>,
            Seq<char>,
        >(raw),
{
    let (w, h) = (strip.width as nat, strip.height as nat);
    let bps = strip.bits_per_sample;
    let m = noted_meta(strip, RawSource::Uncompressed);
    if raw.len() / h < 2 * w && 8 * (raw.len() / h) >= w * bps {
        let stride = raw.len() / h;
        assert(bps < 16) by (nonlinear_arith)
            requires
                stride < 2 * w,
                8 * stride >= w * bps,
        ;
    }
    assert(Layout::detected(raw.len(), w, h, bps) == Layout::detected(
        raw.len(),
        w,
        h,
        m.bits_per_sample as u32,
    ));
    let content = uncompressed_content(raw, strip)->Ok_0;
    assert(uncompressed_strip(m, content.pixels, raw.len()) == Ok::<Seq<u8>, Seq<char>>(raw));
}

/// The segments of a sealed plan are those of its pieces.
pub proof fn lemma_sealed_segments(
    pieces: Seq<PieceView>,
    outcomes: Seq<Result<Seq<u8>, Seq<char>>>,
    n: nat,
)
    requires
        n <= pieces.len(),
        piece_segments(pieces, outcomes, n) is Ok,
    ensures
        piece_segments(pieces, outcomes, n)->Ok_0.len() == n,
        forall|i: int|
            0 <= i < n ==> outcome_at(outcomes, i) is Ok && #[trigger] piece_segments(
                pieces,
                outcomes,
                n,
            )->Ok_0[i] == piece_segment(pieces[i], outcome_at(outcomes, i)->Ok_0),
    decreases n,
{
    if n > 0 {
        lemma_sealed_segments(pieces, outcomes, (n - 1) as nat);
    }
}

/// The bytes of the first segments are the start of the file.
proof fn lemma_joined(
    nef: Seq<u8>,
    pieces: Seq<PieceView>,
    segments: Seq<SegmentView>,
    outputs: Seq<DecodedView>,
    n: nat,
)
    requires
        n <= pieces.len(),
        segments.len() == pieces.len(),
        forall|i: int|
            0 <= i < pieces.len() ==> {
                &&& 0 <= end_of(pieces, i - 1) <= end_of(pieces, i) <= nef.len()
                &&& segment_output(#[trigger] segments[i], decoded_at(outputs, i)) == Ok::<
                    Seq<u8>,
                    Seq<char>,
                >(nef.subrange(end_of(pieces, i - 1), end_of(pieces, i)))
            },
    ensures
        joined(segments, outputs, n) == Ok::<Seq<u8>, Seq<char>>(nef.take(end_of(pieces, n - 1))),
    decreases n,
{
    if n == 0 {
        assert(nef.take(0) =~= Seq::empty());
    } else {
        let i = n - 1;
        lemma_joined(nef, pieces, segments, outputs, i as nat);
        assert(segment_output(segments[i], decoded_at(outputs, i)) is Ok);
        let (a, b) = (end_of(pieces, i - 1), end_of(pieces, i));
        assert(nef.take(a) + nef.subrange(a, b) =~= nef.take(b));
    }
}

/// A file that was compressed is given back byte for byte: the container of its
/// plan is decompressed to the file, if JPEG XL gives back what it is given.
/// The chunks of the file may not overlap, and the sizes that the container
/// notes must fit in its fields.
pub proof fn lemma_decompress_inverts_compress(
    nef: Seq<u8>,
    chunks: NefChunks,
    source: RawSource,
    encoded: Seq<Result<Seq<u8>, Seq<char>>>,
    decoded: Seq<DecodedView>,
    segments: Seq<SegmentView>,
)
    requires
        nef.len() <= usize::MAX,
        chunks.file_size == nef.len(),
        separate(in_file_order(regions_of(chunks@))),
        workable(chunks.raw_strip, source),
        notable(chunks.raw_strip, source),
        ({
            let p = planned(nef, chunks, source);
            &&& gaps_restorable(p.pieces, encoded)
            &&& sealed(p.pieces, p.failure, with_gaps(p.pieces, encoded)) == Ok::<
                Seq<SegmentView>,
                Seq<char>,
            >(segments)
            &&& codec_restores(p.pieces, decoded)
        }),
        segments.len() <= u32::MAX,
        forall|i: int|
            0 <= i < segments.len() ==> {
                &&& (#[trigger] segments[i]).payload.len() <= u64::MAX
                &&& segments[i].seg_type.is_raw() && outcome_at(encoded, i) is Ok ==> outcome_at(
                    encoded,
                    i,
                )->Ok_0.len() <= u32::MAX
            },
    ensures
        restored(container_bytes(chunks.file_size as nat, segments), decoded) == Ok::<
            Seq<u8>,
            Seq<char>,
        >(nef),
{
    let strip = chunks.raw_strip;
    let plan = planned(nef, chunks, source);
    let pieces = plan.pieces;
    let outcomes = with_gaps(pieces, encoded);
    lemma_plan_covers(nef, chunks, source);
    lemma_sealed_segments(pieces, outcomes, pieces.len());
    assert forall|i: int| 0 <= i < segments.len() implies writable(#[trigger] segments[i]) by {
        assert(segments[i] == piece_segment(pieces[i], outcome_at(outcomes, i)->Ok_0));
        let p = pieces[i];
        assert(stands_for(nef, strip, source, p, end_of(pieces, i - 1), end_of(pieces, i)));
        if p.seg_type.is_raw() {
            lemma_noted_meta(strip, source);
        }
    }
    lemma_parse_inverts_write(nef.len(), segments);
    let outputs = with_gaps_decoded(segments, decoded);
    assert forall|i: int| 0 <= i < pieces.len() implies {
        &&& 0 <= end_of(pieces, i - 1) <= end_of(pieces, i) <= nef.len()
        &&& segment_output(#[trigger] segments[i], decoded_at(outputs, i)) == Ok::<
            Seq<u8>,
            Seq<char>,
        >(nef.subrange(end_of(pieces, i - 1), end_of(pieces, i)))
    } by {
        let p = pieces[i];
        let (start, end) = (end_of(pieces, i - 1), end_of(pieces, i));
        assert(stands_for(nef, strip, source, p, start, end));
        let data = outcome_at(outcomes, i)->Ok_0;
        assert(segments[i] == piece_segment(p, data));
        let range = nef.subrange(start, end);
        if p.seg_type is Zstd {
            assert(outcomes[i] == outcome_at(outcomes, i));
            assert(zstd_content(data) == Ok::<Seq<u8>, Seq<char>>(piece_bytes(p)));
        } else if p.seg_type is JpegJxl {
            assert(decoded_at(decoded, i) == DecodedView::Bytes(range));
        } else {
            assert(p.seg_type.is_raw());
            assert(raw_piece(range, strip, source) == Ok::<PieceView, Seq<char>>(p));
            assert(p.original_length == strip.length);
            assert(segments[i].seg_type.is_raw());
            match source {
                RawSource::Lossless(meta) => {
                    lemma_restore_lossless(range, strip, meta, p, data);
                },
                RawSource::Uncompressed => {
                    lemma_restore_uncompressed(range, strip, p, data);
                },
            }
            assert(decoded_at(outputs, i) == decoded_at(decoded, i));
        }
    }
    lemma_joined(nef, pieces, segments, outputs, pieces.len());
    assert(nef.take(nef.len() as int) =~= nef);
}

/// A strip in plain tables is never refused: whatever its bytes are, it is made
/// again exactly from its samples.
pub proof fn lemma_plain_strip_accepted(raw: Seq<u8>, strip: RawStrip, meta: NikonLosslessMeta)
    requires
        valid_dimensions(strip.width as nat, strip.height as nat),
        strip_scheme(strip, meta).valid(strip.height as nat),
        strip_scheme(strip, meta).plain(strip.height as nat),
        holdable(strip.width as nat, strip.height as nat),
    ensures
        lossless_content(raw, strip, meta) is Ok,
{
    lemma_plain_strip_round_trips(strip_scheme(strip, meta), strip.height as nat, raw);
}

/// What the camera notes as lossless is coded in plain tables.
pub proof fn lemma_lossless_notes_are_plain(
    embedded: TiffView,
    blob: Seq<u8>,
    bps: u32,
    meta: NikonLosslessMeta,
    strip: RawStrip,
)
    requires
        nikon_meta(embedded, blob, bps) == Ok::<LosslessView, Seq<char>>(meta@),
        blob[0] == NEFMETA_VER_LOSSLESS,
    ensures
        strip_scheme(strip, meta).valid(strip.height as nat),
        strip_scheme(strip, meta).plain(strip.height as nat),
{
    lemma_plain_tables();
}

proof fn lemma_noted_meta(strip: RawStrip, source: RawSource)
    ensures
        ({
            let m = noted_meta(strip, source);
            &&& m.width <= u32::MAX
            &&& m.height <= u32::MAX
            &&& m.bits_per_sample < 256
            &&& m.huff_select < 256
            &&& m.split_row <= u32::MAX
            &&& m.initial.len() == 4
            &&& forall|k: int| 0 <= k < 4 ==> i32::MIN <= #[trigger] m.initial[k] <= i32::MAX
        }),
{
    match source {
        RawSource::Lossless(meta) => {
            let p = predictors(meta.initial_predictors);
            assert(p[0] == meta.initial_predictors@[0]@[0]);
            assert(p[1] == meta.initial_predictors@[0]@[1]);
            assert(p[2] == meta.initial_predictors@[1]@[0]);
            assert(p[3] == meta.initial_predictors@[1]@[1]);
        },
        RawSource::Uncompressed => {},
    }
}

} // verus!
