//! What the segments of a container say of the file: they tile it, the chunks
//! among them are those of the file, and the order in which the chunks were
//! found does not matter.

use crate::cnef::{
    original_total, outcome_at, piece_segment, planned, progress, region_piece,
    sealed, with_gaps, CompressionStats, PieceView, RawSource, SegmentStats,
};
use crate::lossless::{
    end_of, lemma_plan_covers, lemma_region_kinds, lemma_sealed_segments, separate,
    stands_for,
};
use crate::nef::{NefChunks, RawStrip};
use crate::region::{
    apart, disjoint, in_file_order, lemma_in_file_order, lemma_in_file_order_disjoint,
    regions_of, starting_at, Region,
};
use crate::segment::{container_bytes, SegmentView};
use vstd::prelude::*;

verus! {

/// The segments follow each other from the start of the file to its end.
pub open spec fn tile(segments: Seq<SegmentView>, file_size: nat) -> bool {
    &&& segments.len() > 0
    &&& segments[0].original_offset == 0
    &&& forall|k: int, l: int|
        0 <= k && l == k + 1 && l < segments.len() ==> (#[trigger] segments[k]).original_offset
            + segments[k].original_length == (#[trigger] segments[l]).original_offset
    &&& segments.last().original_offset + segments.last().original_length == file_size
}

/// The segment is that of the region.
pub open spec fn is_segment_of(g: SegmentView, r: Region) -> bool {
    &&& g.original_offset == r.offset
    &&& g.original_length == r.length
    &&& if r.kind is RawStrip {
        g.seg_type.is_raw()
    } else {
        g.seg_type is JpegJxl
    }
}

/// The segments that are no gaps, in their order.
pub open spec fn chunk_segments(segments: Seq<SegmentView>) -> Seq<SegmentView>
    decreases segments.len(),
{
    if segments.len() == 0 {
        Seq::empty()
    } else if segments.last().seg_type is Zstd {
        chunk_segments(segments.drop_last())
    } else {
        chunk_segments(segments.drop_last()).push(segments.last())
    }
}

/// The chunks among the segments are the regions, one for each, in their order.
pub open spec fn hold_regions(segments: Seq<SegmentView>, regions: Seq<Region>) -> bool {
    let chunks = chunk_segments(segments);
    &&& chunks.len() == regions.len()
    &&& forall|i: int| 0 <= i < regions.len() ==> is_segment_of(#[trigger] chunks[i], regions[i])
}

/// The sum of the original sizes of the first `n` segments, as reported.
pub open spec fn reported_total(stats: Seq<SegmentStats>, n: nat) -> nat
    decreases n,
{
    if n == 0 {
        0
    } else {
        reported_total(stats, (n - 1) as nat) + stats[n - 1].original_size as nat
    }
}

/// Every chunk segment is one of the segments.
proof fn lemma_chunk_segments(segments: Seq<SegmentView>, i: int)
    requires
        0 <= i < chunk_segments(segments).len(),
    ensures
        exists|k: int|
            0 <= k < segments.len() && #[trigger] segments[k] == chunk_segments(segments)[i],
    decreases segments.len(),
{
    let d = segments.drop_last();
    if i < chunk_segments(d).len() {
        lemma_chunk_segments(d, i);
        let k = choose|k: int| 0 <= k < d.len() && #[trigger] d[k] == chunk_segments(d)[i];
        assert(segments[k] == d[k]);
    } else {
        assert(segments[segments.len() - 1] == segments.last());
    }
}

/// The segments of pieces, whatever their contents were encoded to.
spec fn outlines(pieces: Seq<PieceView>, data: spec_fn(int) -> Seq<u8>) -> Seq<SegmentView> {
    Seq::new(pieces.len(), |i: int| piece_segment(pieces[i], data(i)))
}

proof fn lemma_outlines_push(
    pieces: Seq<PieceView>,
    p: PieceView,
    data: spec_fn(int) -> Seq<u8>,
)
    ensures
        chunk_segments(outlines(pieces.push(p), data)) == if p.seg_type is Zstd {
            chunk_segments(outlines(pieces, data))
        } else {
            chunk_segments(outlines(pieces, data)).push(
                piece_segment(p, data(pieces.len() as int)),
            )
        },
{
    let o = outlines(pieces.push(p), data);
    assert(o.drop_last() =~= outlines(pieces, data));
    assert(o.last() == piece_segment(p, data(pieces.len() as int)));
}

/// The pieces of the first regions hold these regions.
proof fn lemma_progress_holds(
    nef: Seq<u8>,
    strip: RawStrip,
    source: RawSource,
    regions: Seq<Region>,
    data: spec_fn(int) -> Seq<u8>,
    n: nat,
)
    requires
        n <= regions.len(),
        forall|i: int|
            0 <= i < regions.len() && (#[trigger] regions[i]).kind is RawStrip ==> regions[i].offset
                == strip.offset && regions[i].length == strip.length,
        progress(nef, strip, source, regions, n).failure is None,
    ensures
        hold_regions(
            outlines(progress(nef, strip, source, regions, n).pieces, data),
            regions.take(n as int),
        ),
    decreases n,
{
    let p = progress(nef, strip, source, regions, n);
    if n == 0 {
        assert(outlines(p.pieces, data) =~= Seq::empty());
    } else {
        let m = (n - 1) as nat;
        let r = regions[m as int];
        let before = progress(nef, strip, source, regions, m);
        lemma_progress_holds(nef, strip, source, regions, data, m);
        let filled = before.fill(nef, r.offset as nat);
        assert(chunk_segments(outlines(filled.pieces, data)) == chunk_segments(
            outlines(before.pieces, data),
        )) by {
            if r.offset > before.pos {
                lemma_outlines_push(before.pieces, filled.pieces.last(), data);
                assert(filled.pieces =~= before.pieces.push(filled.pieces.last()));
            }
        }
        let piece = region_piece(nef, strip, source, r)->Ok_0;
        lemma_outlines_push(filled.pieces, piece, data);
        let g = piece_segment(piece, data(filled.pieces.len() as int));
        assert(is_segment_of(g, r));
        let chunks = chunk_segments(outlines(p.pieces, data));
        let earlier = chunk_segments(outlines(before.pieces, data));
        assert(chunks == earlier.push(g));
        assert forall|i: int| 0 <= i < n implies is_segment_of(
            #[trigger] chunks[i],
            regions.take(n as int)[i],
        ) by {
            if i < m {
                assert(chunks[i] == earlier[i]);
                assert(is_segment_of(earlier[i], regions.take(m as int)[i]));
            }
        }
    }
}

/// Up to any segment the lengths add up to where it ends.
proof fn lemma_total(segments: Seq<SegmentView>, file_size: nat, n: nat)
    requires
        tile(segments, file_size),
        n <= segments.len(),
    ensures
        n > 0 ==> original_total(segments, n) == segments[n - 1].original_offset
            + segments[n - 1].original_length,
    decreases n,
{
    if n > 1 {
        lemma_total(segments, file_size, (n - 1) as nat);
        assert(segments[n - 2].original_offset + segments[n - 2].original_length == segments[n
            - 1].original_offset);
    } else if n == 1 {
        reveal_with_fuel(original_total, 2);
    }
}

proof fn lemma_reported(stats: CompressionStats, segments: Seq<SegmentView>, n: nat)
    requires
        stats.describes(segments),
        n <= segments.len(),
    ensures
        reported_total(stats.segments@, n) == original_total(segments, n),
    decreases n,
{
    if n > 0 {
        lemma_reported(stats, segments, (n - 1) as nat);
        assert(stats.segments@[n - 1].original_size == segments[n - 1].original_length);
    }
}

/// Segments that tile a file have no byte in common.
pub proof fn lemma_tiles_apart(segments: Seq<SegmentView>, file_size: nat, i: int, j: int)
    requires
        tile(segments, file_size),
        0 <= i < j < segments.len(),
    ensures
        segments[i].original_offset + segments[i].original_length <= segments[j].original_offset,
    decreases j - i,
{
    assert(segments[j - 1].original_offset + segments[j - 1].original_length
        == segments[j].original_offset);
    if i < j - 1 {
        lemma_tiles_apart(segments, file_size, i, j - 1);
    }
}

/// Chunks that are not empty and have no byte in common follow each other in
/// file order.
pub proof fn lemma_disjoint_separate(chunks: NefChunks)
    requires
        disjoint(regions_of(chunks@)),
    ensures
        separate(in_file_order(regions_of(chunks@))),
{
    let s = regions_of(chunks@);
    let o = in_file_order(s);
    lemma_in_file_order_disjoint(s);
    lemma_in_file_order(s);
    assert forall|i: int, j: int| 0 <= i < j < o.len() implies (#[trigger] o[i]).offset
        + o[i].length <= (#[trigger] o[j]).offset by {
        assert(apart(o[i], o[j]));
        assert(o[i].offset <= o[j].offset);
        assert(o[j].length > 0);
    }
}

/// The segments of a plan hold the chunks of the file.
proof fn lemma_sealed_hold(
    nef: Seq<u8>,
    chunks: NefChunks,
    source: RawSource,
    outcomes: Seq<Result<Seq<u8>, Seq<char>>>,
    segments: Seq<SegmentView>,
)
    requires
        ({
            let p = planned(nef, chunks, source);
            sealed(p.pieces, p.failure, outcomes) == Ok::<Seq<SegmentView>, Seq<char>>(segments)
        }),
    ensures
        hold_regions(segments, in_file_order(regions_of(chunks@))),
{
    let strip = chunks.raw_strip;
    let all = regions_of(chunks@);
    let regions = in_file_order(all);
    let pieces = planned(nef, chunks, source).pieces;
    lemma_sealed_segments(pieces, outcomes, pieces.len());
    lemma_region_kinds(all, strip);
    let data = |i: int| outcome_at(outcomes, i)->Ok_0;
    assert(segments =~= outlines(pieces, data));
    let p = progress(nef, strip, source, regions, regions.len());
    lemma_progress_holds(nef, strip, source, regions, data, regions.len());
    assert(regions.take(regions.len() as int) =~= regions);
    if chunks.file_size > p.pos {
        lemma_outlines_push(p.pieces, pieces.last(), data);
        assert(pieces =~= p.pieces.push(pieces.last()));
    }
}

/// The segments of a plan follow each other.
proof fn lemma_sealed_tile(
    nef: Seq<u8>,
    chunks: NefChunks,
    source: RawSource,
    outcomes: Seq<Result<Seq<u8>, Seq<char>>>,
    segments: Seq<SegmentView>,
)
    requires
        chunks.file_size == nef.len(),
        separate(in_file_order(regions_of(chunks@))),
        ({
            let p = planned(nef, chunks, source);
            sealed(p.pieces, p.failure, outcomes) == Ok::<Seq<SegmentView>, Seq<char>>(segments)
        }),
        hold_regions(segments, in_file_order(regions_of(chunks@))),
    ensures
        tile(segments, nef.len()),
{
    let strip = chunks.raw_strip;
    let pieces = planned(nef, chunks, source).pieces;
    lemma_plan_covers(nef, chunks, source);
    lemma_sealed_segments(pieces, outcomes, pieces.len());
    lemma_in_file_order(regions_of(chunks@));
    lemma_chunk_segments(segments, 0);
    assert forall|k: int| 0 <= k < segments.len() implies (#[trigger] segments[k]).original_offset
        == end_of(pieces, k - 1) && segments[k].original_offset + segments[k].original_length
        == end_of(pieces, k) by {
        assert(segments[k] == piece_segment(pieces[k], outcome_at(outcomes, k)->Ok_0));
        assert(stands_for(nef, strip, source, pieces[k], end_of(pieces, k - 1), end_of(pieces, k)));
    }
    assert forall|k: int, l: int| 0 <= k && l == k + 1 && l < segments.len() implies (
    #[trigger] segments[k]).original_offset + segments[k].original_length == (
    #[trigger] segments[l]).original_offset by {
        assert(segments[l].original_offset == end_of(pieces, k));
    }
    assert(segments[0].original_offset == 0);
    assert(segments[segments.len() - 1].original_offset + segments[segments.len()
        - 1].original_length == nef.len());
}

/// Every region that segments hold is that of one of them.
proof fn lemma_held(segments: Seq<SegmentView>, regions: Seq<Region>)
    requires
        hold_regions(segments, regions),
    ensures
        forall|i: int|
            0 <= i < regions.len() ==> exists|k: int|
                0 <= k < segments.len() && is_segment_of(
                    #[trigger] segments[k],
                    #[trigger] regions[i],
                ),
{
    let held = chunk_segments(segments);
    assert forall|i: int| 0 <= i < regions.len() implies exists|k: int|
        0 <= k < segments.len() && is_segment_of(#[trigger] segments[k], #[trigger] regions[i]) by {
        lemma_chunk_segments(segments, i);
        let k = choose|k: int| 0 <= k < segments.len() && #[trigger] segments[k] == held[i];
        assert(is_segment_of(held[i], regions[i]));
        assert(is_segment_of(segments[k], regions[i]));
    }
}

/// The segments that are written tile the file: the first starts at its start,
/// each starts where the one before ends, the last ends at its end. Every chunk
/// of the file is one segment, in file order; all others are gaps. The original
/// sizes that are reported add up to the size of the file, which is the total
/// that is reported. The chunks of the file may not overlap.
pub proof fn lemma_segments_tile(
    nef: Seq<u8>,
    chunks: NefChunks,
    source: RawSource,
    outcomes: Seq<Result<Seq<u8>, Seq<char>>>,
    segments: Seq<SegmentView>,
    stats: CompressionStats,
)
    requires
        chunks.file_size == nef.len(),
        separate(in_file_order(regions_of(chunks@))),
        ({
            let p = planned(nef, chunks, source);
            sealed(p.pieces, p.failure, outcomes) == Ok::<Seq<SegmentView>, Seq<char>>(segments)
        }),
        stats.describes(segments),
    ensures
        tile(segments, nef.len()),
        hold_regions(segments, in_file_order(regions_of(chunks@))),
        forall|i: int|
            0 <= i < regions_of(chunks@).len() ==> exists|k: int|
                0 <= k < segments.len() && is_segment_of(
                    #[trigger] segments[k],
                    #[trigger] in_file_order(regions_of(chunks@))[i],
                ),
        stats.original_size == chunks.file_size,
        reported_total(stats.segments@, stats.segments@.len()) == chunks.file_size,
{
    let all = regions_of(chunks@);
    let regions = in_file_order(all);
    lemma_sealed_hold(nef, chunks, source, outcomes, segments);
    lemma_sealed_tile(nef, chunks, source, outcomes, segments);
    lemma_held(segments, regions);
    lemma_in_file_order(all);
    lemma_total(segments, nef.len(), segments.len());
    lemma_reported(stats, segments, segments.len());
}

/// No two regions start at the same place.
pub open spec fn distinct_offsets(s: Seq<Region>) -> bool {
    forall|i: int, j: int|
        0 <= i < j < s.len() ==> (#[trigger] s[i]).offset != (#[trigger] s[j]).offset
}

/// Regions in file order whose offsets differ are determined by which they are.
proof fn lemma_same_regions(a: Seq<Region>, b: Seq<Region>)
    requires
        forall|i: int, j: int|
            0 <= i < j < a.len() ==> (#[trigger] a[i]).offset < (#[trigger] a[j]).offset,
        forall|i: int, j: int|
            0 <= i < j < b.len() ==> (#[trigger] b[i]).offset < (#[trigger] b[j]).offset,
        forall|r: Region| #[trigger] a.contains(r) <==> b.contains(r),
    ensures
        a == b,
    decreases a.len(),
{
    if a.len() == 0 {
        if b.len() > 0 {
            assert(b.contains(b[0]));
            assert(a.contains(b[0]));
        }
        assert(a =~= b);
    } else {
        assert(a.contains(a.last()));
        let k = choose|k: int| 0 <= k < b.len() && b[k] == a.last();
        assert(b.contains(b.last()));
        assert(a.contains(b.last()));
        let l = choose|l: int| 0 <= l < a.len() && a[l] == b.last();
        assert(k == b.len() - 1) by {
            if k < b.len() - 1 {
                assert(b[k].offset < b[b.len() - 1].offset);
                if l < a.len() - 1 {
                    assert(a[l].offset < a[a.len() - 1].offset);
                }
            }
        }
        assert(a.last() == b.last());
        let (c, d) = (a.drop_last(), b.drop_last());
        assert forall|r: Region| #[trigger] c.contains(r) <==> d.contains(r) by {
            if c.contains(r) {
                let i = choose|i: int| 0 <= i < c.len() && c[i] == r;
                assert(a[i] == r);
                assert(a.contains(r));
                let j = choose|j: int| 0 <= j < b.len() && b[j] == r;
                assert(a[i].offset < a[a.len() - 1].offset);
                assert(d[j] == r);
            }
            if d.contains(r) {
                let j = choose|j: int| 0 <= j < d.len() && d[j] == r;
                assert(b[j] == r);
                assert(b.contains(r));
                assert(a.contains(r));
                let i = choose|i: int| 0 <= i < a.len() && a[i] == r;
                assert(b[j].offset < b[b.len() - 1].offset);
                assert(c[i] == r);
            }
        }
        assert forall|i: int, j: int| 0 <= i < j < c.len() implies (#[trigger] c[i]).offset < (
        #[trigger] c[j]).offset by {
            assert(a[i].offset < a[j].offset);
        }
        assert forall|i: int, j: int| 0 <= i < j < d.len() implies (#[trigger] d[i]).offset < (
        #[trigger] d[j]).offset by {
            assert(b[i].offset < b[j].offset);
        }
        lemma_same_regions(c, d);
        assert(a =~= c.push(a.last()));
        assert(b =~= d.push(b.last()));
    }
}

/// The regions are those of the raw strip and of the JPEGs.
proof fn lemma_region_members(a: NefChunks, b: NefChunks, r: Region)
    requires
        a.raw_strip == b.raw_strip,
        a.jpegs@.to_multiset() == b.jpegs@.to_multiset(),
        regions_of(a@).contains(r),
    ensures
        regions_of(b@).contains(r),
{
    broadcast use vstd::seq_lib::group_to_multiset_ensures;

    let (x, y) = (regions_of(a@), regions_of(b@));
    let i = choose|i: int| 0 <= i < x.len() && x[i] == r;
    if i == 0 {
        assert(y[0] == r);
    } else {
        let j = a.jpegs@[i - 1];
        assert(a.jpegs@.contains(j));
        assert(a.jpegs@.to_multiset().count(j) > 0);
        assert(b.jpegs@.to_multiset().count(j) > 0);
        assert(b.jpegs@.contains(j));
        let k = choose|k: int| 0 <= k < b.jpegs@.len() && b.jpegs@[k] == j;
        assert(y[k + 1] == r);
    }
}

/// Ordering keeps which regions there are.
proof fn lemma_ordered_members(s: Seq<Region>, r: Region)
    ensures
        in_file_order(s).contains(r) <==> s.contains(r),
{
    broadcast use vstd::seq_lib::group_to_multiset_ensures;

    lemma_in_file_order(s);
    let o = in_file_order(s);
    assert(o.contains(r) <==> o.to_multiset().count(r) > 0);
    assert(s.contains(r) <==> s.to_multiset().count(r) > 0);
}

/// Regions that start at different places start one behind the other in file order.
proof fn lemma_strictly_ordered(s: Seq<Region>)
    requires
        distinct_offsets(s),
    ensures
        forall|i: int, j: int|
            0 <= i < j < in_file_order(s).len() ==> (#[trigger] in_file_order(s)[i]).offset < (
            #[trigger] in_file_order(s)[j]).offset,
{
    lemma_in_file_order(s);
    let o = in_file_order(s);
    assert forall|i: int, j: int| 0 <= i < j < o.len() implies (#[trigger] o[i]).offset < (
    #[trigger] o[j]).offset by {
        assert(o[i].offset <= o[j].offset);
        if o[i].offset == o[j].offset {
            let at = o[i].offset;
            lemma_starting_count(o, at, i, j);
            lemma_starting_alone(s, at);
            assert(starting_at(o, at) == starting_at(s, at));
        }
    }
}

/// Two regions that start at a place are among those that start there.
proof fn lemma_starting_count(s: Seq<Region>, at: u64, i: int, j: int)
    requires
        0 <= i < j < s.len(),
        s[i].offset == at,
        s[j].offset == at,
    ensures
        starting_at(s, at).len() >= 2,
    decreases s.len(),
{
    let d = s.drop_last();
    if j < s.len() - 1 {
        assert(d[i] == s[i] && d[j] == s[j]);
        lemma_starting_count(d, at, i, j);
    } else {
        assert(d[i] == s[i]);
        lemma_starting_some(d, at, i);
    }
}

proof fn lemma_starting_some(s: Seq<Region>, at: u64, i: int)
    requires
        0 <= i < s.len(),
        s[i].offset == at,
    ensures
        starting_at(s, at).len() >= 1,
    decreases s.len(),
{
    if i < s.len() - 1 {
        assert(s.drop_last()[i] == s[i]);
        lemma_starting_some(s.drop_last(), at, i);
    }
}

/// Where offsets differ, at most one region starts at a place.
proof fn lemma_starting_alone(s: Seq<Region>, at: u64)
    requires
        distinct_offsets(s),
    ensures
        starting_at(s, at).len() <= 1,
        (forall|i: int| 0 <= i < s.len() ==> (#[trigger] s[i]).offset != at) ==> starting_at(
            s,
            at,
        ).len() == 0,
    decreases s.len(),
{
    if s.len() > 0 {
        let d = s.drop_last();
        assert forall|i: int, j: int| 0 <= i < j < d.len() implies (#[trigger] d[i]).offset != (
        #[trigger] d[j]).offset by {
            assert(s[i].offset != s[j].offset);
        }
        lemma_starting_alone(d, at);
        if s.last().offset == at {
            assert forall|i: int| 0 <= i < d.len() implies (#[trigger] d[i]).offset != at by {
                assert(s[i].offset != s[s.len() - 1].offset);
            }
        } else if forall|i: int| 0 <= i < s.len() ==> (#[trigger] s[i]).offset != at {
            assert forall|i: int| 0 <= i < d.len() implies (#[trigger] d[i]).offset != at by {
                assert(s[i].offset != at);
            }
        }
    }
}

/// Whether offsets differ does not depend on the order of the JPEGs.
proof fn lemma_distinct_kept(a: NefChunks, b: NefChunks)
    requires
        a.raw_strip == b.raw_strip,
        a.jpegs@.to_multiset() == b.jpegs@.to_multiset(),
        distinct_offsets(regions_of(a@)),
    ensures
        distinct_offsets(regions_of(b@)),
{
    broadcast use vstd::seq_lib::group_to_multiset_ensures;

    let (x, y) = (regions_of(a@), regions_of(b@));
    let (s, t) = (a.jpegs@, b.jpegs@);
    assert(s.no_duplicates()) by {
        assert forall|i: int, j: int| 0 <= i < j < s.len() implies s[i] != s[j] by {
            assert(x[i + 1].offset != x[j + 1].offset);
        }
    }
    s.lemma_multiset_has_no_duplicates();
    t.lemma_multiset_has_no_duplicates_conv();
    assert forall|i: int, j: int| 0 <= i < j < y.len() implies (#[trigger] y[i]).offset != (
    #[trigger] y[j]).offset by {
        assert(t.contains(t[j - 1]));
        assert(s.to_multiset().count(t[j - 1]) > 0);
        assert(s.contains(t[j - 1]));
        let l = choose|l: int| 0 <= l < s.len() && s[l] == t[j - 1];
        assert(x[l + 1].offset == y[j].offset);
        if i == 0 {
            assert(x[0].offset != x[l + 1].offset);
        } else {
            assert(t.contains(t[i - 1]));
            assert(s.to_multiset().count(t[i - 1]) > 0);
            assert(s.contains(t[i - 1]));
            let k = choose|k: int| 0 <= k < s.len() && s[k] == t[i - 1];
            assert(t[i - 1] != t[j - 1]);
            assert(x[k + 1].offset == y[i].offset);
            if k < l {
                assert(x[k + 1].offset != x[l + 1].offset);
            } else {
                assert(x[l + 1].offset != x[k + 1].offset);
            }
        }
    }
}

/// The container of a file, or why there is none. `encoded` holds what the
/// contents of the images and JPEGs were encoded to.
pub open spec fn compressed(
    nef: Seq<u8>,
    chunks: NefChunks,
    source: RawSource,
    encoded: Seq<Result<Seq<u8>, Seq<char>>>,
) -> Result<(Seq<SegmentView>, Seq<u8>), Seq<char>> {
    let p = planned(nef, chunks, source);
    match sealed(p.pieces, p.failure, with_gaps(p.pieces, encoded)) {
        Ok(segments) => Ok((segments, container_bytes(chunks.file_size as nat, segments))),
        Err(e) => Err(e),
    }
}

/// The order in which the JPEGs of a file were found does not matter, if no two
/// chunks start at the same place: the pieces are the same, and so are the
/// segments and the container.
pub proof fn lemma_jpeg_order_immaterial(
    nef: Seq<u8>,
    a: NefChunks,
    b: NefChunks,
    source: RawSource,
    encoded: Seq<Result<Seq<u8>, Seq<char>>>,
)
    requires
        a.file_size == b.file_size,
        a.raw_strip == b.raw_strip,
        a.jpegs@.to_multiset() == b.jpegs@.to_multiset(),
        distinct_offsets(regions_of(a@)),
    ensures
        planned(nef, a, source) == planned(nef, b, source),
        compressed(nef, a, source, encoded) == compressed(nef, b, source, encoded),
{
    let (x, y) = (regions_of(a@), regions_of(b@));
    lemma_distinct_kept(a, b);
    lemma_strictly_ordered(x);
    lemma_strictly_ordered(y);
    let (o, q) = (in_file_order(x), in_file_order(y));
    assert forall|r: Region| #[trigger] o.contains(r) <==> q.contains(r) by {
        lemma_ordered_members(x, r);
        lemma_ordered_members(y, r);
        if x.contains(r) {
            lemma_region_members(a, b, r);
        }
        if y.contains(r) {
            lemma_region_members(b, a, r);
        }
    }
    lemma_same_regions(o, q);
}

} // verus!
