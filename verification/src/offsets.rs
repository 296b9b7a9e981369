//! Where a segment stood in the file is noted in the container, but a file is
//! put together in the order of its segments, wherever they say they stood.

use crate::cnef::{
    decoded_at, joined, restored, segment_output, with_gaps_decoded, DecodedView,
};
use crate::segment::{
    field, header_size, meta_at, parsed, segment_at, segments_at, ParsedView, SegmentType,
    SegmentView,
};
use vstd::prelude::*;

verus! {

/// The segments are the same, but for the places in the file that they note.
pub open spec fn same_but_offsets(a: Seq<SegmentView>, b: Seq<SegmentView>) -> bool {
    &&& a.len() == b.len()
    &&& forall|i: int|
        0 <= i < a.len() ==> #[trigger] b[i] == (SegmentView {
            original_offset: b[i].original_offset,
            ..a[i]
        })
}

/// Byte `i` of a container belongs to the original offset of one of its segments.
pub open spec fn in_offset_field(cnef: Seq<u8>, i: int) -> bool {
    exists|k: nat| #[trigger] offset_field_at(cnef, k, i)
}

/// Byte `i` of a container belongs to the original offset of segment `k`.
pub open spec fn offset_field_at(cnef: Seq<u8>, k: nat, i: int) -> bool {
    let (_, at, failure) = segments_at(cnef, k);
    failure is None && at + 1 <= i < at + 9
}

/// Two containers differ only in the original offsets of their segments.
pub open spec fn differ_in_offsets(a: Seq<u8>, b: Seq<u8>) -> bool {
    &&& a.len() == b.len()
    &&& forall|i: int|
        0 <= i < a.len() && !in_offset_field(a, i) ==> #[trigger] a[i] == b[i]
}

/// Every segment that was read takes at least the room of its header.
proof fn lemma_places(cnef: Seq<u8>, m: nat, n: nat)
    requires
        m < n,
        segments_at(cnef, n).2 is None,
    ensures
        segments_at(cnef, m).2 is None,
        17 <= segments_at(cnef, m).1,
        segments_at(cnef, m).1 + 25 <= segments_at(cnef, n).1,
        segments_at(cnef, n).1 <= cnef.len(),
    decreases n,
{
    let l = (n - 1) as nat;
    if m < l {
        lemma_places(cnef, m, l);
    } else {
        lemma_start(cnef, m);
    }
}

proof fn lemma_start(cnef: Seq<u8>, n: nat)
    ensures
        17 <= segments_at(cnef, n).1,
    decreases n,
{
    if n > 0 {
        lemma_start(cnef, (n - 1) as nat);
    }
}

/// A byte in front of, or behind, the offset of the segment that it stands in
/// belongs to no offset.
proof fn lemma_outside(cnef: Seq<u8>, n: nat, i: int)
    requires
        segments_at(cnef, n).2 is None,
        ({
            let at = segments_at(cnef, n).1;
            &&& i == at || at + 9 <= i
            &&& segment_at(cnef, at) matches Ok((_, end)) ==> i < end
        }),
    ensures
        !in_offset_field(cnef, i),
{
    assert forall|k: nat| !#[trigger] offset_field_at(cnef, k, i) by {
        if k < n {
            lemma_places(cnef, k, n);
        } else if k > n && segments_at(cnef, k).2 is None {
            lemma_places(cnef, n, k);
            let m = (n + 1) as nat;
            if m < k {
                lemma_places(cnef, m, k);
            }
            assert(segments_at(cnef, m).2 is None);
        }
    }
}

/// A byte of the header belongs to no offset.
proof fn lemma_header_outside(cnef: Seq<u8>, i: int)
    requires
        i < 17,
    ensures
        !in_offset_field(cnef, i),
{
    assert forall|k: nat| !#[trigger] offset_field_at(cnef, k, i) by {
        lemma_start(cnef, k);
    }
}

proof fn lemma_same_field(a: Seq<u8>, b: Seq<u8>, at: int, n: int)
    requires
        0 <= at,
        0 <= n,
        at + n <= a.len(),
        a.len() == b.len(),
        forall|i: int| at <= i < at + n ==> #[trigger] a[i] == b[i],
    ensures
        field(a, at, n) == field(b, at, n),
{
    assert(a.subrange(at, at + n) =~= b.subrange(at, at + n));
}

proof fn lemma_same_meta(a: Seq<u8>, b: Seq<u8>, at: int)
    requires
        0 <= at,
        at + 30 <= a.len(),
        a.len() == b.len(),
        forall|i: int| at <= i < at + 30 ==> #[trigger] a[i] == b[i],
    ensures
        meta_at(a, at) == meta_at(b, at),
{
    lemma_same_field(a, b, at, 4);
    lemma_same_field(a, b, at + 4, 4);
    lemma_same_field(a, b, at + 8, 1);
    lemma_same_field(a, b, at + 9, 1);
    lemma_same_field(a, b, at + 10, 4);
    lemma_same_field(a, b, at + 14, 4);
    lemma_same_field(a, b, at + 18, 4);
    lemma_same_field(a, b, at + 22, 4);
    lemma_same_field(a, b, at + 26, 4);
}

/// The segment at the same place of both containers.
proof fn lemma_same_segment(a: Seq<u8>, b: Seq<u8>, n: nat)
    requires
        differ_in_offsets(a, b),
        segments_at(a, n).2 is None,
    ensures
        match segment_at(a, segments_at(a, n).1) {
            Err(e) => segment_at(b, segments_at(a, n).1) == Err::<(SegmentView, int), Seq<char>>(e),
            Ok((g, end)) => {
                &&& segment_at(b, segments_at(a, n).1) matches Ok((h, last))
                &&& last == end
                &&& h == (SegmentView { original_offset: h.original_offset, ..g })
            },
        },
{
    let at = segments_at(a, n).1;
    lemma_start(a, n);
    if at < a.len() {
        lemma_outside(a, n, at);
        assert(a[at] == b[at]);
        if let Some(t) = SegmentType::of_code(a[at]) {
            let start = at + header_size(t);
            if start <= a.len() {
                assert forall|i: int| at + 9 <= i < at + 25 implies #[trigger] a[i] == b[i] by {
                    lemma_outside(a, n, i);
                }
                lemma_same_field(a, b, at + 9, 8);
                lemma_same_field(a, b, at + 17, 8);
                let end = start + field(a, at + 17, 8);
                if end <= a.len() {
                    assert forall|i: int| at + 9 <= i < end implies #[trigger] a[i] == b[i] by {
                        lemma_outside(a, n, i);
                    }
                    if t.is_raw() {
                        lemma_same_meta(a, b, at + 25);
                    }
                    assert(a.subrange(start, end) =~= b.subrange(start, end));
                }
            }
        }
    }
}

/// The first segments of both containers.
proof fn lemma_same_segments(a: Seq<u8>, b: Seq<u8>, n: nat)
    requires
        differ_in_offsets(a, b),
    ensures
        same_but_offsets(segments_at(a, n).0, segments_at(b, n).0),
        segments_at(a, n).1 == segments_at(b, n).1,
        segments_at(a, n).2 == segments_at(b, n).2,
    decreases n,
{
    if n > 0 {
        let m = (n - 1) as nat;
        lemma_same_segments(a, b, m);
        if segments_at(a, m).2 is None {
            lemma_same_segment(a, b, m);
        }
    }
}

/// Containers that differ only in the original offsets of their segments are
/// read alike.
pub proof fn lemma_parsed_alike(a: Seq<u8>, b: Seq<u8>)
    requires
        differ_in_offsets(a, b),
    ensures
        parsed(b) == (ParsedView { segments: parsed(b).segments, ..parsed(a) }),
        same_but_offsets(parsed(a).segments, parsed(b).segments),
{
    assert forall|i: int| 0 <= i < 17 && i < a.len() implies #[trigger] a[i] == b[i] by {
        lemma_header_outside(a, i);
    }
    if a.len() >= 4 {
        assert(a.take(4) =~= b.take(4));
    }
    if a.len() >= 17 {
        lemma_same_field(a, b, 5, 8);
        lemma_same_field(a, b, 13, 4);
        lemma_same_segments(a, b, field(a, 13, 4));
    }
}

/// What is put together from segments does not depend on the places that they note.
proof fn lemma_joined_alike(
    a: Seq<SegmentView>,
    b: Seq<SegmentView>,
    decoded: Seq<DecodedView>,
    n: nat,
)
    requires
        same_but_offsets(a, b),
        n <= a.len(),
    ensures
        joined(a, decoded, n) == joined(b, decoded, n),
    decreases n,
{
    if n > 0 {
        lemma_joined_alike(a, b, decoded, (n - 1) as nat);
        let (g, h) = (a[n - 1], b[n - 1]);
        assert(h == (SegmentView { original_offset: h.original_offset, ..g }));
        let d = decoded_at(decoded, n - 1);
        assert(segment_output(g, d) == segment_output(h, d));
    }
}

/// Decompression does not depend on the original offsets that a container
/// notes: the segments are put together in the order of the container.
pub proof fn lemma_offsets_immaterial(a: Seq<u8>, b: Seq<u8>, decoded: Seq<DecodedView>)
    requires
        differ_in_offsets(a, b),
    ensures
        restored(a, decoded) == restored(b, decoded),
{
    lemma_parsed_alike(a, b);
    let (s, t) = (parsed(a).segments, parsed(b).segments);
    assert(with_gaps_decoded(s, decoded) =~= with_gaps_decoded(t, decoded)) by {
        assert forall|i: int| 0 <= i < s.len() implies with_gaps_decoded(s, decoded)[i]
            == with_gaps_decoded(t, decoded)[i] by {
            assert(t[i] == (SegmentView { original_offset: t[i].original_offset, ..s[i] }));
        }
    }
    lemma_joined_alike(s, t, with_gaps_decoded(s, decoded), s.len());
}

} // verus!
