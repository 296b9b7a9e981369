//! The CNEF container: a header, then the segments one after the other.
//!
//! ```text
//! Header:
//!   magic: [u8; 4] = "CNEF"
//!   version: u8 = 1
//!   original_file_size: u64 LE
//!   segment_count: u32 LE
//!
//! Per segment (header then payload, in sequence):
//!   type: u8
//!   original_offset: u64 LE
//!   original_length: u64 LE
//!   compressed_length: u64 LE
//!   -- if the segment holds raw pixels: raw strip metadata follows --
//!     width: u32 LE
//!     height: u32 LE
//!     bits_per_sample: u8
//!     huff_select: u8
//!     split_row: u32 LE
//!     initial_predictors: [i32; 4] LE
//!   [payload: compressed_length bytes]
//! ```

use crate::bytes::{
    le, le_value, lemma_le_len, lemma_le_of_value, lemma_le_round_trip, lemma_le_value_bound,
    lemma_signed32, push_i32, push_le, read_le, signed32, word32,
};
use crate::text::{decimal, then_number, with_number};
use vstd::arithmetic::power2::{lemma2_to64, lemma2_to64_rest, pow2};
use vstd::prelude::*;
use vstd::slice::slice_subrange;

verus! {

pub const VERSION: u8 = 1;

/// What a segment holds and how it is compressed.
#[derive(Debug, Clone, Copy, PartialEq, Eq, Structural)]
pub enum SegmentType {
    Zstd,
    RawPixelsJxl,
    JpegJxl,
    /// Bit-packed uncompressed raw, recompressed as lossless JPEG XL. Readers
    /// that do not know it reject the segment.
    RawUncompressedJxl,
    /// Like `RawPixelsJxl`, but the stored values are biased into a compact
    /// range; the payload starts with the bias.
    RawPixelsBiasedJxl,
}

/// The first four bytes of every container.
pub open spec fn magic() -> Seq<u8> {
    seq![67, 78, 69, 70]
}

/// What a raw strip's samples are encoded with.
pub struct MetaView {
    pub width: nat,
    pub height: nat,
    pub bits_per_sample: nat,
    pub huff_select: nat,
    pub split_row: nat,
    pub initial: Seq<int>,
}

/// A segment of a container.
pub struct SegmentView {
    pub seg_type: SegmentType,
    pub original_offset: nat,
    pub original_length: nat,
    pub payload: Seq<u8>,
    pub raw_meta: Option<MetaView>,
}

#[derive(Clone, Copy)]
pub struct RawPixelsMeta {
    pub width: u32,
    pub height: u32,
    pub bits_per_sample: u8,
    pub huff_select: u8,
    pub split_row: u32,
    pub initial_predictors: [i32; 4],
}

pub struct Segment {
    pub seg_type: SegmentType,
    pub original_offset: u64,
    pub original_length: u64,
    pub payload: Vec<u8>,
    pub raw_meta: Option<RawPixelsMeta>,
}

impl View for RawPixelsMeta {
    type V = MetaView;

    open spec fn view(&self) -> MetaView {
        MetaView {
            width: self.width as nat,
            height: self.height as nat,
            bits_per_sample: self.bits_per_sample as nat,
            huff_select: self.huff_select as nat,
            split_row: self.split_row as nat,
            initial: seq![
                self.initial_predictors@[0] as int,
                self.initial_predictors@[1] as int,
                self.initial_predictors@[2] as int,
                self.initial_predictors@[3] as int,
            ],
        }
    }
}

/// The metadata of a raw segment, if there is any.
pub open spec fn meta_view(m: Option<RawPixelsMeta>) -> Option<MetaView> {
    match m {
        Some(m) => Some(m@),
        None => None,
    }
}

impl View for Segment {
    type V = SegmentView;

    open spec fn view(&self) -> SegmentView {
        SegmentView {
            seg_type: self.seg_type,
            original_offset: self.original_offset as nat,
            original_length: self.original_length as nat,
            payload: self.payload@,
            raw_meta: meta_view(self.raw_meta),
        }
    }
}

impl SegmentType {
    /// The byte that stands for the type.
    pub open spec fn code(self) -> u8 {
        match self {
            SegmentType::Zstd => 1,
            SegmentType::RawPixelsJxl => 2,
            SegmentType::JpegJxl => 3,
            SegmentType::RawUncompressedJxl => 4,
            SegmentType::RawPixelsBiasedJxl => 5,
        }
    }

    /// The type that a byte stands for.
    pub open spec fn of_code(v: u8) -> Option<SegmentType> {
        if v == 1 {
            Some(SegmentType::Zstd)
        } else if v == 2 {
            Some(SegmentType::RawPixelsJxl)
        } else if v == 3 {
            Some(SegmentType::JpegJxl)
        } else if v == 4 {
            Some(SegmentType::RawUncompressedJxl)
        } else if v == 5 {
            Some(SegmentType::RawPixelsBiasedJxl)
        } else {
            None
        }
    }

    /// The segment holds raw samples.
    pub open spec fn is_raw(self) -> bool {
        self is RawPixelsJxl || self is RawUncompressedJxl || self is RawPixelsBiasedJxl
    }

    pub fn to_u8(self) -> (r: u8)
        ensures
            r == self.code(),
    {
        match self {
            SegmentType::Zstd => 1,
            SegmentType::RawPixelsJxl => 2,
            SegmentType::JpegJxl => 3,
            SegmentType::RawUncompressedJxl => 4,
            SegmentType::RawPixelsBiasedJxl => 5,
        }
    }

    pub fn from_u8(v: u8) -> (r: Result<Self, String>)
        ensures
            match SegmentType::of_code(v) {
                Some(t) => r == Ok::<SegmentType, String>(t),
                None => r is Err && r->Err_0@ == unknown_type_message(v),
            },
    {
        match v {
            1 => Ok(SegmentType::Zstd),
            2 => Ok(SegmentType::RawPixelsJxl),
            3 => Ok(SegmentType::JpegJxl),
            4 => Ok(SegmentType::RawUncompressedJxl),
            5 => Ok(SegmentType::RawPixelsBiasedJxl),
            _ => Err(with_number("unknown segment type ", v as u128, "")),
        }
    }

    pub fn has_raw_meta(self) -> (r: bool)
        ensures
            r == self.is_raw(),
    {
        match self {
            SegmentType::RawPixelsJxl => true,
            SegmentType::RawUncompressedJxl => true,
            SegmentType::RawPixelsBiasedJxl => true,
            _ => false,
        }
    }
}

pub open spec fn unknown_type_message(v: u8) -> Seq<char> {
    "unknown segment type "@ + decimal(v as nat) + ""@
}

pub open spec fn read_message() -> Seq<char> {
    "read error: failed to fill whole buffer"@
}

pub open spec fn version_message(v: u8) -> Seq<char> {
    "unsupported CNEF version "@ + decimal(v as nat) + ""@
}

pub open spec fn magic_message(m: Seq<u8>) -> Seq<char> {
    "not a CNEF file (magic: ["@ + decimal(m[0] as nat) + ", "@ + decimal(m[1] as nat) + ", "@
        + decimal(m[2] as nat) + ", "@ + decimal(m[3] as nat) + "])"@
}

/// The metadata of a raw strip, as it is written.
pub open spec fn meta_bytes(m: MetaView) -> Seq<u8> {
    le(m.width, 4) + le(m.height, 4) + le(m.bits_per_sample, 1) + le(m.huff_select, 1) + le(
        m.split_row,
        4,
    ) + le(word32(m.initial[0]), 4) + le(word32(m.initial[1]), 4) + le(word32(m.initial[2]), 4)
        + le(word32(m.initial[3]), 4)
}

/// A segment, as it is written.
pub open spec fn segment_bytes(g: SegmentView) -> Seq<u8> {
    seq![g.seg_type.code()] + le(g.original_offset, 8) + le(g.original_length, 8) + le(
        g.payload.len(),
        8,
    ) + match g.raw_meta {
        Some(m) => meta_bytes(m),
        None => Seq::empty(),
    } + g.payload
}

/// Segments, one after the other.
pub open spec fn segments_bytes(segments: Seq<SegmentView>) -> Seq<u8>
    decreases segments.len(),
{
    if segments.len() == 0 {
        Seq::empty()
    } else {
        segments_bytes(segments.drop_last()) + segment_bytes(segments.last())
    }
}

/// A whole container.
pub open spec fn container_bytes(file_size: nat, segments: Seq<SegmentView>) -> Seq<u8> {
    magic() + seq![VERSION] + le(file_size, 8) + le(segments.len(), 4) + segments_bytes(segments)
}

/// Appends the metadata of a raw strip.
fn push_meta(out: &mut Vec<u8>, m: &RawPixelsMeta)
    ensures
        final(out)@ == old(out)@ + meta_bytes(m@),
{
    let ghost base = out@;
    push_le(out, m.width as u64, 4);
    push_le(out, m.height as u64, 4);
    push_le(out, m.bits_per_sample as u64, 1);
    push_le(out, m.huff_select as u64, 1);
    push_le(out, m.split_row as u64, 4);
    push_i32(out, m.initial_predictors[0]);
    push_i32(out, m.initial_predictors[1]);
    push_i32(out, m.initial_predictors[2]);
    push_i32(out, m.initial_predictors[3]);
    assert(out@ =~= base + meta_bytes(m@));
}

/// Appends a segment.
pub fn push_segment(out: &mut Vec<u8>, g: &Segment)
    ensures
        final(out)@ == old(out)@ + segment_bytes(g@),
{
    let ghost base = out@;
    out.push(g.seg_type.to_u8());
    push_le(out, g.original_offset, 8);
    push_le(out, g.original_length, 8);
    push_le(out, g.payload.len() as u64, 8);
    match &g.raw_meta {
        Some(m) => push_meta(out, m),
        None => {},
    }
    let ghost head = out@;
    out.extend_from_slice(g.payload.as_slice());
    assert(out@ =~= head + g.payload@);
    assert(out@ =~= base + segment_bytes(g@));
}

/// The views of segments.
pub open spec fn segment_views(segments: Seq<Segment>) -> Seq<SegmentView> {
    segments.map_values(|g: Segment| g@)
}

/// Writes a container.
pub fn write_container(file_size: u64, segments: &Vec<Segment>) -> (out: Vec<u8>)
    ensures
        out@ == container_bytes(file_size as nat, segment_views(segments@)),
{
    let ghost views = segment_views(segments@);
    let mut out: Vec<u8> = Vec::new();
    out.push(67);
    out.push(78);
    out.push(69);
    out.push(70);
    out.push(VERSION);
    push_le(&mut out, file_size, 8);
    push_le(&mut out, segments.len() as u64, 4);
    let ghost head = out@;
    assert(head =~= magic() + seq![VERSION] + le(file_size as nat, 8) + le(views.len(), 4));
    let mut i: usize = 0;
    assert(out@ =~= head + segments_bytes(views.take(0)));
    while i < segments.len()
        invariant
            views == segment_views(segments@),
            0 <= i <= segments@.len(),
            out@ == head + segments_bytes(views.take(i as int)),
        decreases segments@.len() - i,
    {
        push_segment(&mut out, &segments[i]);
        proof {
            assert(views.take(i + 1).drop_last() =~= views.take(i as int));
            assert(out@ =~= head + segments_bytes(views.take(i + 1)));
        }
        i = i + 1;
    }
    assert(views.take(views.len() as int) =~= views);
    out
}

/// What was read of a container: its segments up to the first that cannot be
/// read, and the message of why it cannot.
pub struct ParsedView {
    pub original_file_size: nat,
    pub segments: Seq<SegmentView>,
    pub failure: Option<Seq<char>>,
}

pub struct Parsed {
    pub original_file_size: u64,
    pub segments: Vec<Segment>,
    pub failure: Option<String>,
}

/// The text of a message, if there is one.
pub open spec fn message_view(m: Option<String>) -> Option<Seq<char>> {
    match m {
        Some(t) => Some(t@),
        None => None,
    }
}

impl View for Parsed {
    type V = ParsedView;

    open spec fn view(&self) -> ParsedView {
        ParsedView {
            original_file_size: self.original_file_size as nat,
            segments: segment_views(self.segments@),
            failure: message_view(self.failure),
        }
    }
}

/// The number in `n` bytes from `at` on.
pub open spec fn field(input: Seq<u8>, at: int, n: int) -> nat {
    le_value(input.subrange(at, at + n))
}

/// The metadata that stands at `at`.
pub open spec fn meta_at(input: Seq<u8>, at: int) -> MetaView {
    MetaView {
        width: field(input, at, 4),
        height: field(input, at + 4, 4),
        bits_per_sample: field(input, at + 8, 1),
        huff_select: field(input, at + 9, 1),
        split_row: field(input, at + 10, 4),
        initial: seq![
            signed32(field(input, at + 14, 4)),
            signed32(field(input, at + 18, 4)),
            signed32(field(input, at + 22, 4)),
            signed32(field(input, at + 26, 4)),
        ],
    }
}

/// The size of a segment's header.
pub open spec fn header_size(t: SegmentType) -> int {
    if t.is_raw() {
        55
    } else {
        25
    }
}

/// The segment that stands at `at` and the place behind it.
pub open spec fn segment_at(input: Seq<u8>, at: int) -> Result<(SegmentView, int), Seq<char>> {
    if at + 1 > input.len() {
        Err(read_message())
    } else {
        match SegmentType::of_code(input[at]) {
            None => Err(unknown_type_message(input[at])),
            Some(t) => if at + header_size(t) > input.len() || at + header_size(t) + field(
                input,
                at + 17,
                8,
            ) > input.len() {
                Err(read_message())
            } else {
                let start = at + header_size(t);
                let end = start + field(input, at + 17, 8);
                Ok(
                    (
                        SegmentView {
                            seg_type: t,
                            original_offset: field(input, at + 1, 8),
                            original_length: field(input, at + 9, 8),
                            payload: input.subrange(start, end),
                            raw_meta: if t.is_raw() {
                                Some(meta_at(input, at + 25))
                            } else {
                                None
                            },
                        },
                        end,
                    ),
                )
            },
        }
    }
}

/// The first `n` segments, the place behind them, and the first failure.
pub open spec fn segments_at(input: Seq<u8>, n: nat) -> (
    Seq<SegmentView>,
    int,
    Option<Seq<char>>,
)
    decreases n,
{
    if n == 0 {
        (Seq::empty(), 17, None)
    } else {
        let (segments, at, failure) = segments_at(input, (n - 1) as nat);
        if failure is Some {
            (segments, at, failure)
        } else {
            match segment_at(input, at) {
                Ok((g, end)) => (segments.push(g), end, None),
                Err(e) => (segments, at, Some(e)),
            }
        }
    }
}

pub open spec fn unreadable(e: Seq<char>) -> ParsedView {
    ParsedView { original_file_size: 0, segments: Seq::empty(), failure: Some(e) }
}

/// What is read of a container.
pub open spec fn parsed(input: Seq<u8>) -> ParsedView {
    if input.len() < 4 {
        unreadable(read_message())
    } else if input.take(4) != magic() {
        unreadable(magic_message(input.take(4)))
    } else if input.len() < 5 {
        unreadable(read_message())
    } else if input[4] != VERSION {
        unreadable(version_message(input[4]))
    } else if input.len() < 17 {
        unreadable(read_message())
    } else {
        let (segments, _, failure) = segments_at(input, field(input, 13, 4));
        ParsedView { original_file_size: field(input, 5, 8), segments, failure }
    }
}

fn read_field(input: &[u8], at: usize, n: usize) -> (r: u64)
    requires
        n <= 8,
        at + n <= input@.len(),
        at + n <= usize::MAX,
    ensures
        r == field(input@, at as int, n as int),
        r < pow2(8 * n as nat),
{
    proof {
        lemma_le_value_bound(input@.subrange(at as int, at + n));
    }
    read_le(input, at, n)
}

fn read_u32_le(input: &[u8], at: usize) -> (r: u32)
    requires
        at + 4 <= input@.len(),
        at + 4 <= usize::MAX,
    ensures
        r == field(input@, at as int, 4),
{
    proof {
        lemma2_to64();
    }
    read_field(input, at, 4) as u32
}

fn read_i32_le(input: &[u8], at: usize) -> (r: i32)
    requires
        at + 4 <= input@.len(),
        at + 4 <= usize::MAX,
    ensures
        r == signed32(field(input@, at as int, 4)),
{
    let v = read_u32_le(input, at);
    if v < 0x8000_0000 {
        v as i32
    } else {
        (v as i64 - 0x1_0000_0000) as i32
    }
}

fn read_u8(input: &[u8], at: usize) -> (r: u8)
    requires
        at + 1 <= input@.len(),
        at + 1 <= usize::MAX,
    ensures
        r == field(input@, at as int, 1),
{
    proof {
        lemma2_to64();
    }
    read_field(input, at, 1) as u8
}

/// Reads the metadata of a raw strip.
fn read_meta(input: &[u8], at: usize) -> (r: RawPixelsMeta)
    requires
        at + 30 <= input@.len(),
        at + 30 <= usize::MAX,
    ensures
        r@ == meta_at(input@, at as int),
{
    let r = RawPixelsMeta {
        width: read_u32_le(input, at),
        height: read_u32_le(input, at + 4),
        bits_per_sample: read_u8(input, at + 8),
        huff_select: read_u8(input, at + 9),
        split_row: read_u32_le(input, at + 10),
        initial_predictors: [
            read_i32_le(input, at + 14),
            read_i32_le(input, at + 18),
            read_i32_le(input, at + 22),
            read_i32_le(input, at + 26),
        ],
    };
    assert(r@.initial =~= meta_at(input@, at as int).initial);
    r
}

/// Reads the segment at `at`; also returns the place behind it.
fn read_segment(input: &[u8], at: usize) -> (r: Result<(Segment, usize), String>)
    requires
        at <= input@.len(),
    ensures
        match segment_at(input@, at as int) {
            Ok((g, end)) => r is Ok && r->Ok_0.0@ == g && r->Ok_0.1 == end && end <= input@.len(),
            Err(e) => r is Err && r->Err_0@ == e,
        },
{
    let size: usize = input.len();
    if at >= size {
        return Err("read error: failed to fill whole buffer".to_string());
    }
    let seg_type = SegmentType::from_u8(input[at])?;
    let header: usize = if seg_type.has_raw_meta() {
        55
    } else {
        25
    };
    if header > size - at {
        return Err("read error: failed to fill whole buffer".to_string());
    }
    let original_offset = read_field(input, at + 1, 8);
    let original_length = read_field(input, at + 9, 8);
    let compressed_length = read_field(input, at + 17, 8);
    if compressed_length > (size - at - header) as u64 {
        return Err("read error: failed to fill whole buffer".to_string());
    }
    let raw_meta: Option<RawPixelsMeta> = if seg_type.has_raw_meta() {
        Some(read_meta(input, at + 25))
    } else {
        None
    };
    let start: usize = at + header;
    let end: usize = start + compressed_length as usize;
    let payload = vstd::slice::slice_to_vec(slice_subrange(input, start, end));
    Ok((Segment { seg_type, original_offset, original_length, payload, raw_meta }, end))
}

/// Once a segment cannot be read, nothing more is read.
proof fn lemma_segments_stop(input: Seq<u8>, m: nat, n: nat)
    requires
        m <= n,
        segments_at(input, m).2 is Some,
    ensures
        segments_at(input, n) == segments_at(input, m),
    decreases n,
{
    if m < n {
        lemma_segments_stop(input, m, (n - 1) as nat);
    }
}

fn refused(message: String) -> (r: Parsed)
    ensures
        r@ == unreadable(message@),
{
    let r = Parsed { original_file_size: 0, segments: Vec::new(), failure: Some(message) };
    assert(r@.segments =~= Seq::empty());
    r
}

/// Reads a container.
pub fn parse(input: &[u8]) -> (r: Parsed)
    ensures
        r@ == parsed(input@),
{
    let size: usize = input.len();
    if size < 4 {
        return refused("read error: failed to fill whole buffer".to_string());
    }
    assert(input@.take(4) == magic() <==> input@[0] == 67 && input@[1] == 78 && input@[2] == 69
        && input@[3] == 70) by {
        if input@[0] == 67 && input@[1] == 78 && input@[2] == 69 && input@[3] == 70 {
            assert(input@.take(4) =~= magic());
        } else if input@.take(4) == magic() {
            assert(magic()[0] == 67 && magic()[1] == 78 && magic()[2] == 69 && magic()[3] == 70);
            assert(input@.take(4)[0] == input@[0] && input@.take(4)[1] == input@[1]);
            assert(input@.take(4)[2] == input@[2] && input@.take(4)[3] == input@[3]);
        }
    }
    if input[0] != 67 || input[1] != 78 || input[2] != 69 || input[3] != 70 {
        let t = with_number("not a CNEF file (magic: [", input[0] as u128, ", ");
        let t = then_number(t, input[1] as u128, ", ");
        let t = then_number(t, input[2] as u128, ", ");
        return refused(then_number(t, input[3] as u128, "])"));
    }
    if size < 5 {
        return refused("read error: failed to fill whole buffer".to_string());
    }
    if input[4] != VERSION {
        return refused(with_number("unsupported CNEF version ", input[4] as u128, ""));
    }
    if size < 17 {
        return refused("read error: failed to fill whole buffer".to_string());
    }
    let original_file_size = read_field(input, 5, 8);
    let count = read_u32_le(input, 13);
    let mut segments: Vec<Segment> = Vec::new();
    let mut at: usize = 17;
    let mut i: u32 = 0;
    assert(segment_views(segments@) =~= Seq::empty());
    while i < count
        invariant
            input@.len() >= 17,
            input@.take(4) == magic(),
            input@[4] == VERSION,
            original_file_size == field(input@, 5, 8),
            count == field(input@, 13, 4),
            0 <= i <= count,
            at <= input@.len(),
            segments_at(input@, i as nat) == (segment_views(segments@), at as int, None::<Seq<char>>),
        decreases count - i,
    {
        match read_segment(input, at) {
            Ok((g, end)) => {
                let ghost before = segments@;
                segments.push(g);
                at = end;
                assert(segment_views(segments@) =~= segment_views(before).push(g@));
            },
            Err(e) => {
                proof {
                    lemma_segments_stop(input@, (i + 1) as nat, count as nat);
                }
                return Parsed { original_file_size, segments, failure: Some(e) };
            },
        }
        i = i + 1;
    }
    Parsed { original_file_size, segments, failure: None }
}

/// A segment whose numbers fit in their fields and that has metadata exactly if it is raw.
pub open spec fn writable(g: SegmentView) -> bool {
    &&& g.original_offset <= u64::MAX
    &&& g.original_length <= u64::MAX
    &&& g.payload.len() <= u64::MAX
    &&& g.raw_meta is Some <==> g.seg_type.is_raw()
    &&& g.raw_meta matches Some(m) ==> {
        &&& m.width <= u32::MAX
        &&& m.height <= u32::MAX
        &&& m.bits_per_sample < 256
        &&& m.huff_select < 256
        &&& m.split_row <= u32::MAX
        &&& m.initial.len() == 4
        &&& forall|k: int| 0 <= k < 4 ==> i32::MIN <= #[trigger] m.initial[k] <= i32::MAX
    }
}

/// A number that was written in a field is read from it.
proof fn lemma_field(input: Seq<u8>, at: int, record: Seq<u8>, i: int, v: nat, n: nat)
    requires
        0 <= at,
        0 <= i,
        i + n <= record.len(),
        at + record.len() <= input.len(),
        input.subrange(at, at + record.len()) == record,
        record.subrange(i, i + n) == le(v, n),
        v < pow2(8 * n),
    ensures
        field(input, at + i, n as int) == v,
{
    assert(input.subrange(at + i, at + i + n) =~= record.subrange(i, i + n)) by {
        let x = input.subrange(at + i, at + i + n);
        let y = record.subrange(i, i + n);
        assert forall|k: int| 0 <= k < n implies x[k] == y[k] by {
            assert(input.subrange(at, at + record.len())[i + k] == record[i + k]);
        }
    }
    lemma_le_round_trip(v, n);
}

/// The metadata of a raw strip is read as it was written.
proof fn lemma_read_written_meta(input: Seq<u8>, at: int, m: MetaView)
    requires
        0 <= at,
        at + 30 <= input.len(),
        input.subrange(at, at + 30) == meta_bytes(m),
        m.width <= u32::MAX,
        m.height <= u32::MAX,
        m.bits_per_sample < 256,
        m.huff_select < 256,
        m.split_row <= u32::MAX,
        m.initial.len() == 4,
        forall|k: int| 0 <= k < 4 ==> i32::MIN <= #[trigger] m.initial[k] <= i32::MAX,
    ensures
        meta_at(input, at) == m,
{
    lemma2_to64();
    let b = meta_bytes(m);
    lemma_le_len(m.width, 4);
    lemma_le_len(m.height, 4);
    lemma_le_len(m.bits_per_sample, 1);
    lemma_le_len(m.huff_select, 1);
    lemma_le_len(m.split_row, 4);
    assert forall|k: int| 0 <= k < 4 implies le(word32(#[trigger] m.initial[k]), 4).len() == 4 by {
        lemma_le_len(word32(m.initial[k]), 4);
    }
    assert(b.subrange(0, 4) =~= le(m.width, 4));
    assert(b.subrange(4, 8) =~= le(m.height, 4));
    assert(b.subrange(8, 9) =~= le(m.bits_per_sample, 1));
    assert(b.subrange(9, 10) =~= le(m.huff_select, 1));
    assert(b.subrange(10, 14) =~= le(m.split_row, 4));
    assert(b.subrange(14, 18) =~= le(word32(m.initial[0]), 4));
    assert(b.subrange(18, 22) =~= le(word32(m.initial[1]), 4));
    assert(b.subrange(22, 26) =~= le(word32(m.initial[2]), 4));
    assert(b.subrange(26, 30) =~= le(word32(m.initial[3]), 4));
    lemma_field(input, at, b, 0, m.width, 4);
    lemma_field(input, at, b, 4, m.height, 4);
    lemma_field(input, at, b, 8, m.bits_per_sample, 1);
    lemma_field(input, at, b, 9, m.huff_select, 1);
    lemma_field(input, at, b, 10, m.split_row, 4);
    lemma_signed32(m.initial[0]);
    lemma_signed32(m.initial[1]);
    lemma_signed32(m.initial[2]);
    lemma_signed32(m.initial[3]);
    lemma_field(input, at, b, 14, word32(m.initial[0]), 4);
    lemma_field(input, at, b, 18, word32(m.initial[1]), 4);
    lemma_field(input, at, b, 22, word32(m.initial[2]), 4);
    lemma_field(input, at, b, 26, word32(m.initial[3]), 4);
    assert(meta_at(input, at).initial =~= m.initial);
}

/// A segment is read as it was written.
proof fn lemma_read_written_segment(input: Seq<u8>, at: int, g: SegmentView)
    requires
        0 <= at,
        at + segment_bytes(g).len() <= input.len(),
        input.subrange(at, at + segment_bytes(g).len()) == segment_bytes(g),
        writable(g),
    ensures
        segment_at(input, at) == Ok::<(SegmentView, int), Seq<char>>(
            (g, at + segment_bytes(g).len()),
        ),
{
    let b = segment_bytes(g);
    let n = b.len() as int;
    lemma2_to64();
    lemma2_to64_rest();
    lemma_le_len(g.original_offset, 8);
    lemma_le_len(g.original_length, 8);
    lemma_le_len(g.payload.len(), 8);
    assert forall|i: int, j: int| 0 <= i <= j <= n implies #[trigger] input.subrange(
        at + i,
        at + j,
    ) == b.subrange(i, j) by {
        assert(input.subrange(at + i, at + j) =~= input.subrange(at, at + n).subrange(i, j));
    }
    assert(input[at] == input.subrange(at, at + n)[0]);
    assert(b[0] == g.seg_type.code());
    let h = header_size(g.seg_type);
    if g.raw_meta is Some {
        let m = g.raw_meta->Some_0;
        lemma_meta_len(m);
        assert(b.subrange(25, 55) =~= meta_bytes(m));
        assert(b.subrange(55, n) =~= g.payload);
        assert(input.subrange(at + 25, at + 55) == b.subrange(25, 55));
        lemma_read_written_meta(input, at + 25, m);
    } else {
        assert(b.subrange(25, n) =~= g.payload);
    }
    assert(n == h + g.payload.len());
    assert(b.subrange(1, 9) =~= le(g.original_offset, 8));
    assert(b.subrange(9, 17) =~= le(g.original_length, 8));
    assert(b.subrange(17, 25) =~= le(g.payload.len(), 8));
    lemma_field(input, at, b, 1, g.original_offset, 8);
    lemma_field(input, at, b, 9, g.original_length, 8);
    lemma_field(input, at, b, 17, g.payload.len(), 8);
    assert(input.subrange(at + h, at + n) == g.payload);
}

proof fn lemma_meta_len(m: MetaView)
    requires
        m.initial.len() == 4,
    ensures
        meta_bytes(m).len() == 30,
{
    lemma_le_len(m.width, 4);
    lemma_le_len(m.height, 4);
    lemma_le_len(m.bits_per_sample, 1);
    lemma_le_len(m.huff_select, 1);
    lemma_le_len(m.split_row, 4);
    lemma_le_len(word32(m.initial[0]), 4);
    lemma_le_len(word32(m.initial[1]), 4);
    lemma_le_len(word32(m.initial[2]), 4);
    lemma_le_len(word32(m.initial[3]), 4);
}

proof fn lemma_segments_prefix(segments: Seq<SegmentView>, n: int)
    requires
        0 <= n <= segments.len(),
    ensures
        segments_bytes(segments.take(n)).len() <= segments_bytes(segments).len(),
        segments_bytes(segments).take(segments_bytes(segments.take(n)).len() as int)
            == segments_bytes(segments.take(n)),
    decreases segments.len(),
{
    let all = segments_bytes(segments);
    if n == segments.len() {
        assert(segments.take(n) =~= segments);
        assert(all.take(all.len() as int) =~= all);
    } else {
        let d = segments.drop_last();
        lemma_segments_prefix(d, n);
        assert(d.take(n) =~= segments.take(n));
        let p = segments_bytes(segments.take(n));
        assert(all.take(p.len() as int) =~= segments_bytes(d).take(p.len() as int));
    }
}

/// The first segments of a container are read as they were written.
proof fn lemma_read_written_segments(file_size: nat, segments: Seq<SegmentView>, n: nat)
    requires
        n <= segments.len(),
        forall|i: int| 0 <= i < segments.len() ==> writable(#[trigger] segments[i]),
    ensures
        segments_at(container_bytes(file_size, segments), n) == (
            segments.take(n as int),
            17 + segments_bytes(segments.take(n as int)).len() as int,
            None::<Seq<char>>,
        ),
    decreases n,
{
    let input = container_bytes(file_size, segments);
    if n == 0 {
        assert(segments.take(0) =~= Seq::empty());
    } else {
        let m = (n - 1) as nat;
        lemma_read_written_segments(file_size, segments, m);
        lemma_le_len(file_size, 8);
        lemma_le_len(segments.len(), 4);
        let t = segments.take(n as int);
        let g = segments[m as int];
        assert(t.drop_last() =~= segments.take(m as int));
        assert(t.last() == g);
        let before = segments_bytes(segments.take(m as int));
        let at = 17 + before.len() as int;
        let body = segments_bytes(segments);
        lemma_segments_prefix(segments, n as int);
        let b = segment_bytes(g);
        let end = before.len() + b.len();
        assert(body.take(end as int) == before + b);
        assert(input.subrange(at, at + b.len()) =~= b) by {
            assert(input.skip(17) =~= body);
            assert forall|i: int| 0 <= i < b.len() implies input[at + i] == b[i] by {
                assert(input.skip(17)[before.len() + i] == body[before.len() + i]);
                assert(body.take(end as int)[before.len() + i] == (before + b)[before.len() + i]);
            }
        }
        assert(writable(segments[m as int]));
        lemma_read_written_segment(input, at, g);
        assert(segments.take(m as int).push(g) =~= t);
    }
}

/// A container is read as it was written.
pub proof fn lemma_parse_inverts_write(file_size: nat, segments: Seq<SegmentView>)
    requires
        file_size <= u64::MAX,
        segments.len() <= u32::MAX,
        forall|i: int| 0 <= i < segments.len() ==> writable(#[trigger] segments[i]),
    ensures
        parsed(container_bytes(file_size, segments)) == (ParsedView {
            original_file_size: file_size,
            segments,
            failure: None,
        }),
{
    let input = container_bytes(file_size, segments);
    lemma2_to64();
    lemma2_to64_rest();
    lemma_le_len(file_size, 8);
    lemma_le_len(segments.len(), 4);
    assert(input.take(4) =~= magic());
    assert(input.subrange(0, input.len() as int) =~= input);
    assert(input.subrange(5, 13) =~= le(file_size, 8));
    assert(input.subrange(13, 17) =~= le(segments.len(), 4));
    lemma_field(input, 0, input, 5, file_size, 8);
    lemma_field(input, 0, input, 13, segments.len(), 4);
    lemma_read_written_segments(file_size, segments, segments.len());
    assert(segments.take(segments.len() as int) =~= segments);
}

/// The types are numbered from one to five, and no other number is a type.
pub proof fn lemma_type_codes(t: SegmentType, v: u8)
    ensures
        SegmentType::Zstd.code() == 1,
        SegmentType::RawPixelsJxl.code() == 2,
        SegmentType::JpegJxl.code() == 3,
        SegmentType::RawUncompressedJxl.code() == 4,
        SegmentType::RawPixelsBiasedJxl.code() == 5,
        SegmentType::of_code(v) == Some(t) <==> t.code() == v,
        SegmentType::of_code(v) is None <==> v == 0 || v > 5,
        t.is_raw() <==> t.code() == 2 || t.code() == 4 || t.code() == 5,
{
}

/// The layout of a written segment: the type, the offset, the length and the length
/// of the payload in eight bytes each; in a raw segment the metadata, signed numbers
/// in two's complement; then the payload.
#[verifier::spinoff_prover]
pub proof fn lemma_segment_layout(g: SegmentView)
    requires
        writable(g),
    ensures
        ({
            let b = segment_bytes(g);
            &&& b[0] == g.seg_type.code()
            &&& b.subrange(1, 9) == le(g.original_offset, 8)
            &&& b.subrange(9, 17) == le(g.original_length, 8)
            &&& b.subrange(17, 25) == le(g.payload.len(), 8)
            &&& g.raw_meta is None ==> b.len() == 25 + g.payload.len() && b.skip(25) == g.payload
            &&& g.raw_meta matches Some(m) ==> {
                &&& b.len() == 55 + g.payload.len()
                &&& b.subrange(25, 29) == le(m.width, 4)
                &&& b.subrange(29, 33) == le(m.height, 4)
                &&& b[33] == m.bits_per_sample
                &&& b[34] == m.huff_select
                &&& b.subrange(35, 39) == le(m.split_row, 4)
                &&& forall|k: int, v: nat|
                    0 <= k < 4 && (v == #[trigger] m.initial[k] || v == m.initial[k]
                        + 0x1_0000_0000) && v < 0x1_0000_0000 ==> b.subrange(
                        39 + 4 * k,
                        43 + 4 * k,
                    ) == #[trigger] le(v, 4)
                &&& b.skip(55) == g.payload
            }
        }),
{
    let b = segment_bytes(g);
    lemma_le_len(g.original_offset, 8);
    lemma_le_len(g.original_length, 8);
    lemma_le_len(g.payload.len(), 8);
    assert(b.subrange(1, 9) =~= le(g.original_offset, 8));
    assert(b.subrange(9, 17) =~= le(g.original_length, 8));
    assert(b.subrange(17, 25) =~= le(g.payload.len(), 8));
    if let Some(m) = g.raw_meta {
        lemma_le_len(m.width, 4);
        lemma_le_len(m.height, 4);
        lemma_le_len(m.bits_per_sample, 1);
        lemma_le_len(m.huff_select, 1);
        lemma_le_len(m.split_row, 4);
        lemma_le_len(word32(m.initial[0]), 4);
        lemma_le_len(word32(m.initial[1]), 4);
        lemma_le_len(word32(m.initial[2]), 4);
        lemma_le_len(word32(m.initial[3]), 4);
        reveal_with_fuel(le, 2);
        assert(b.subrange(25, 29) =~= le(m.width, 4));
        assert(b.subrange(29, 33) =~= le(m.height, 4));
        assert(b[33] == le(m.bits_per_sample, 1)[0]);
        assert(b[34] == le(m.huff_select, 1)[0]);
        assert(b.subrange(35, 39) =~= le(m.split_row, 4));
        assert(b.subrange(39, 43) =~= le(word32(m.initial[0]), 4));
        assert(b.subrange(43, 47) =~= le(word32(m.initial[1]), 4));
        assert(b.subrange(47, 51) =~= le(word32(m.initial[2]), 4));
        assert(b.subrange(51, 55) =~= le(word32(m.initial[3]), 4));
        assert(b.skip(55) =~= g.payload);
        assert forall|k: int, v: nat|
            0 <= k < 4 && (v == #[trigger] m.initial[k] || v == m.initial[k] + 0x1_0000_0000) && v
                < 0x1_0000_0000 implies b.subrange(39 + 4 * k, 43 + 4 * k) == #[trigger] le(
            v,
            4,
        ) by {
            assert(i32::MIN <= m.initial[k] <= i32::MAX);
            assert(v == word32(m.initial[k]));
            assert(k == 0 || k == 1 || k == 2 || k == 3);
        }
    } else {
        assert(b.skip(25) =~= g.payload);
    }
}

/// The layout of a container: "CNEF", the version 1, the size of the file in eight
/// bytes, the number of segments in four, and the segments without a gap, each behind
/// the ones before it.
#[verifier::spinoff_prover]
pub proof fn lemma_container_layout(file_size: nat, segments: Seq<SegmentView>, k: int)
    ensures
        ({
            let b = container_bytes(file_size, segments);
            &&& b.len() >= 17
            &&& b.take(5) == seq![67u8, 78, 69, 70, 1]
            &&& b.subrange(5, 13) == le(file_size, 8)
            &&& b.subrange(13, 17) == le(segments.len(), 4)
            &&& segments.len() == 0 ==> b.len() == 17
            &&& 0 <= k < segments.len() ==> {
                let at = container_bytes(file_size, segments.take(k)).len();
                let end = container_bytes(file_size, segments.take(k + 1)).len();
                &&& end == at + segment_bytes(segments[k]).len()
                &&& end <= b.len()
                &&& b.subrange(at as int, end as int) == segment_bytes(segments[k])
            }
        }),
{
    let b = container_bytes(file_size, segments);
    lemma_le_len(file_size, 8);
    lemma_le_len(segments.len(), 4);
    assert(b.take(5) =~= seq![67u8, 78, 69, 70, 1]);
    assert(b.subrange(5, 13) =~= le(file_size, 8));
    assert(b.subrange(13, 17) =~= le(segments.len(), 4));
    if 0 <= k < segments.len() {
        let t = segments.take(k + 1);
        let g = segments[k];
        lemma_le_len(segments.take(k).len(), 4);
        lemma_le_len(t.len(), 4);
        assert(t.drop_last() =~= segments.take(k));
        lemma_segments_prefix(segments, k + 1);
        let before = segments_bytes(segments.take(k));
        let body = segments_bytes(segments);
        let x = segment_bytes(g);
        let end = before.len() + x.len();
        assert(body.take(end as int) == before + x);
        let at = 17 + before.len();
        assert forall|i: int| 0 <= i < x.len() implies b[at + i] == x[i] by {
            assert(b[at + i] == body[before.len() + i]);
            assert(body.take(end as int)[before.len() + i] == (before + x)[before.len() + i]);
        }
        assert(b.subrange(at as int, 17 + end as int) =~= x);
    }
}

/// A field holds the bytes of its number.
proof fn lemma_field_bytes(input: Seq<u8>, at: int, n: int)
    requires
        0 <= at,
        0 <= n,
        at + n <= input.len(),
    ensures
        le(field(input, at, n), n as nat) == input.subrange(at, at + n),
        field(input, at, n) < pow2(8 * n as nat),
{
    lemma_le_of_value(input.subrange(at, at + n));
    lemma_le_value_bound(input.subrange(at, at + n));
}

#[verifier::spinoff_prover]
proof fn lemma_meta_bytes(input: Seq<u8>, at: int)
    requires
        0 <= at,
        at + 30 <= input.len(),
    ensures
        meta_bytes(meta_at(input, at)) == input.subrange(at, at + 30),
{
    let m = meta_at(input, at);
    lemma2_to64();
    lemma_field_bytes(input, at, 4);
    lemma_field_bytes(input, at + 4, 4);
    lemma_field_bytes(input, at + 8, 1);
    lemma_field_bytes(input, at + 9, 1);
    lemma_field_bytes(input, at + 10, 4);
    lemma_field_bytes(input, at + 14, 4);
    lemma_field_bytes(input, at + 18, 4);
    lemma_field_bytes(input, at + 22, 4);
    lemma_field_bytes(input, at + 26, 4);
    assert(word32(m.initial[0]) == field(input, at + 14, 4));
    assert(word32(m.initial[1]) == field(input, at + 18, 4));
    assert(word32(m.initial[2]) == field(input, at + 22, 4));
    assert(word32(m.initial[3]) == field(input, at + 26, 4));
    assert(meta_bytes(m) =~= input.subrange(at, at + 30));
}

#[verifier::spinoff_prover]
proof fn lemma_segment_read(input: Seq<u8>, at: int)
    requires
        0 <= at,
        segment_at(input, at) is Ok,
    ensures
        ({
            let (g, end) = segment_at(input, at)->Ok_0;
            &&& at <= end <= input.len()
            &&& end == at + segment_bytes(g).len()
            &&& input.subrange(at, end) == segment_bytes(g)
            &&& writable(g)
        }),
{
    let (g, end) = segment_at(input, at)->Ok_0;
    lemma2_to64();
    lemma2_to64_rest();
    lemma_field_bytes(input, at + 1, 8);
    lemma_field_bytes(input, at + 9, 8);
    lemma_field_bytes(input, at + 17, 8);
    let start = at + header_size(g.seg_type);
    assert(g.payload.len() == field(input, at + 17, 8));
    assert(g.seg_type.code() == input[at]);
    if let Some(m) = g.raw_meta {
        lemma_meta_bytes(input, at + 25);
        lemma_field_bytes(input, at + 25, 4);
        lemma_field_bytes(input, at + 29, 4);
        lemma_field_bytes(input, at + 33, 1);
        lemma_field_bytes(input, at + 34, 1);
        lemma_field_bytes(input, at + 35, 4);
        lemma_field_bytes(input, at + 39, 4);
        lemma_field_bytes(input, at + 43, 4);
        lemma_field_bytes(input, at + 47, 4);
        lemma_field_bytes(input, at + 51, 4);
        lemma_meta_len(m);
    }
    assert(segment_bytes(g) =~= input.subrange(at, end));
}

proof fn lemma_segments_read(input: Seq<u8>, n: nat)
    requires
        input.len() >= 17,
    ensures
        ({
            let (segments, at, failure) = segments_at(input, n);
            &&& 17 <= at <= input.len()
            &&& segments.len() <= n
            &&& failure is None ==> segments.len() == n
            &&& input.subrange(17, at) == segments_bytes(segments)
            &&& forall|i: int| 0 <= i < segments.len() ==> writable(#[trigger] segments[i])
        }),
    decreases n,
{
    let (segments, at, failure) = segments_at(input, n);
    if n == 0 {
        assert(input.subrange(17, 17) =~= segments_bytes(segments));
    } else {
        lemma_segments_read(input, (n - 1) as nat);
        let (before, start, earlier) = segments_at(input, (n - 1) as nat);
        if earlier is None && segment_at(input, start) is Ok {
            lemma_segment_read(input, start);
            assert(segments.drop_last() =~= before);
            assert(input.subrange(17, at) =~= input.subrange(17, start) + input.subrange(
                start,
                at,
            ));
        }
    }
}

/// What is read without a failure was written: the input starts with the container
/// of the file size and the segments that were read from it, and each segment has
/// metadata exactly if it is raw.
#[verifier::spinoff_prover]
pub proof fn lemma_write_inverts_parse(input: Seq<u8>)
    requires
        parsed(input).failure is None,
    ensures
        ({
            let p = parsed(input);
            let b = container_bytes(p.original_file_size, p.segments);
            &&& p.original_file_size <= u64::MAX
            &&& p.segments.len() <= u32::MAX
            &&& forall|i: int| 0 <= i < p.segments.len() ==> writable(#[trigger] p.segments[i])
            &&& b.len() <= input.len()
            &&& input.take(b.len() as int) == b
        }),
{
    let p = parsed(input);
    let n = field(input, 13, 4);
    lemma2_to64();
    lemma2_to64_rest();
    lemma_field_bytes(input, 5, 8);
    lemma_field_bytes(input, 13, 4);
    lemma_segments_read(input, n);
    let at = segments_at(input, n).1;
    let b = container_bytes(p.original_file_size, p.segments);
    assert(input.take(4) == magic());
    assert(b =~= input.take(4) + seq![input[4]] + input.subrange(5, 13) + input.subrange(13, 17)
        + input.subrange(17, at));
    assert(input.take(at) =~= b);
}

proof fn lemma_read_followed_segments(
    file_size: nat,
    segments: Seq<SegmentView>,
    trailing: Seq<u8>,
    n: nat,
)
    requires
        n <= segments.len(),
        forall|i: int| 0 <= i < segments.len() ==> writable(#[trigger] segments[i]),
    ensures
        segments_at(container_bytes(file_size, segments) + trailing, n) == (
            segments.take(n as int),
            17 + segments_bytes(segments.take(n as int)).len() as int,
            None::<Seq<char>>,
        ),
    decreases n,
{
    let input = container_bytes(file_size, segments) + trailing;
    if n == 0 {
        assert(segments.take(0) =~= Seq::empty());
    } else {
        let m = (n - 1) as nat;
        lemma_read_followed_segments(file_size, segments, trailing, m);
        lemma_container_layout(file_size, segments, m as int);
        lemma_le_len(file_size, 8);
        lemma_le_len(m, 4);
        let t = segments.take(n as int);
        let g = segments[m as int];
        assert(t.drop_last() =~= segments.take(m as int));
        let at = 17 + segments_bytes(segments.take(m as int)).len() as int;
        let b = segment_bytes(g);
        assert(input.subrange(at, at + b.len()) =~= container_bytes(file_size, segments).subrange(
            at,
            at + b.len(),
        ));
        lemma_read_written_segment(input, at, g);
        assert(segments.take(m as int).push(g) =~= t);
    }
}

/// What follows the last segment is not looked at.
#[verifier::spinoff_prover]
pub proof fn lemma_parse_ignores_trailing(
    file_size: nat,
    segments: Seq<SegmentView>,
    trailing: Seq<u8>,
)
    requires
        file_size <= u64::MAX,
        segments.len() <= u32::MAX,
        forall|i: int| 0 <= i < segments.len() ==> writable(#[trigger] segments[i]),
    ensures
        parsed(container_bytes(file_size, segments) + trailing) == (ParsedView {
            original_file_size: file_size,
            segments,
            failure: None,
        }),
{
    let b = container_bytes(file_size, segments);
    let input = b + trailing;
    lemma2_to64();
    lemma2_to64_rest();
    lemma_container_layout(file_size, segments, 0);
    assert(input.take(4) =~= b.take(5).take(4));
    assert(b.take(5).take(4) =~= magic());
    assert(input[4] == b.take(5)[4]);
    assert(input.subrange(0, input.len() as int) =~= input);
    assert(input.subrange(5, 13) =~= le(file_size, 8));
    assert(input.subrange(13, 17) =~= le(segments.len(), 4));
    lemma_field(input, 0, input, 5, file_size, 8);
    lemma_field(input, 0, input, 13, segments.len(), 4);
    lemma_read_followed_segments(file_size, segments, trailing, segments.len());
    assert(segments.take(segments.len() as int) =~= segments);
}

/// A segment is looked at with all its parts, the predictors in their order.
pub proof fn lemma_segment_view(g: Segment, k: int)
    ensures
        g@.seg_type == g.seg_type,
        g@.original_offset == g.original_offset,
        g@.original_length == g.original_length,
        g@.payload == g.payload@,
        g.raw_meta is None <==> g@.raw_meta is None,
        g.raw_meta matches Some(m) ==> {
            let v = g@.raw_meta->Some_0;
            &&& v.width == m.width
            &&& v.height == m.height
            &&& v.bits_per_sample == m.bits_per_sample
            &&& v.huff_select == m.huff_select
            &&& v.split_row == m.split_row
            &&& v.initial.len() == 4
            &&& 0 <= k < 4 ==> v.initial[k] == m.initial_predictors@[k]
        },
{
    if 0 <= k < 4 {
        assert(k == 0 || k == 1 || k == 2 || k == 3);
    }
}

/// What was read of a container is looked at with all its parts.
pub proof fn lemma_parsed_view(p: Parsed, i: int)
    ensures
        p@.original_file_size == p.original_file_size,
        p@.segments.len() == p.segments@.len(),
        0 <= i < p.segments@.len() ==> p@.segments[i] == p.segments@[i]@,
        p.failure is None <==> p@.failure is None,
        p.failure matches Some(m) ==> p@.failure == Some(m@),
{
}

/// What is read of a container that is cut off or damaged: its file size, and all
/// segments in front of the first that does not stand there whole.
#[verifier::spinoff_prover]
pub proof fn lemma_parsed_start(input: Seq<u8>, g: SegmentView)
    requires
        input.len() >= 17,
        input.take(5) == seq![67u8, 78, 69, 70, 1],
    ensures
        ({
            let p = parsed(input);
            let at = 17 + segments_bytes(p.segments).len();
            &&& input.subrange(5, 13) == le(p.original_file_size, 8)
            &&& at <= input.len()
            &&& input.subrange(17, at as int) == segments_bytes(p.segments)
            &&& forall|i: int| 0 <= i < p.segments.len() ==> writable(#[trigger] p.segments[i])
            &&& p.failure is None ==> input.subrange(13, 17) == le(p.segments.len(), 4)
            &&& p.failure is Some ==> p.segments.len() < le_value(input.subrange(13, 17))
            &&& p.failure is Some && writable(g) ==> {
                let end = at + segment_bytes(g).len();
                end > input.len() || input.subrange(at as int, end as int) != segment_bytes(g)
            }
        }),
{
    let p = parsed(input);
    let n = field(input, 13, 4);
    assert(input.take(4) =~= input.take(5).take(4));
    assert(input.take(5).take(4) =~= magic());
    assert(input[4] == input.take(5)[4]);
    lemma2_to64();
    lemma2_to64_rest();
    lemma_field_bytes(input, 5, 8);
    lemma_field_bytes(input, 13, 4);
    lemma_segments_read(input, n);
    let (segments, end, failure) = segments_at(input, n);
    assert(p.segments == segments);
    assert(end == 17 + segments_bytes(segments).len());
    if failure is Some {
        lemma_stopped(input, n);
        if writable(g) && end + segment_bytes(g).len() <= input.len() && input.subrange(
            end,
            end + segment_bytes(g).len(),
        ) == segment_bytes(g) {
            lemma_read_written_segment(input, end, g);
        }
    }
}

/// Reading stops at a segment that cannot be read, before the last one.
proof fn lemma_stopped(input: Seq<u8>, n: nat)
    requires
        segments_at(input, n).2 is Some,
    ensures
        segments_at(input, n).0.len() < n,
        segment_at(input, segments_at(input, n).1) is Err,
    decreases n,
{
    if n > 0 {
        let m = (n - 1) as nat;
        if segments_at(input, m).2 is Some {
            lemma_stopped(input, m);
        } else {
            lemma_count(input, m);
        }
    }
}

proof fn lemma_count(input: Seq<u8>, n: nat)
    ensures
        segments_at(input, n).0.len() <= n,
    decreases n,
{
    if n > 0 {
        lemma_count(input, (n - 1) as nat);
    }
}

} // verus!
