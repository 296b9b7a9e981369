//! Lossless compression of NEF files into the CNEF container, and back.
//!
//! The file is split at the boundaries of its chunks, and every piece is
//! compressed by itself. Decompression puts the pieces together in order, which
//! gives the original file byte for byte.
//!
//! JPEG XL data comes from outside. [`plan`] says which images and which JPEGs
//! are to be encoded, [`compress`] takes the encoded data and writes the
//! container. [`parse`] says which data is to be decoded, [`decompress`] takes
//! the decoded images and JPEGs and writes the file.

pub use crate::segment::{parse, Parsed, RawPixelsMeta, Segment, SegmentType};

use crate::bayer::{deinterleave, deinterleaved, interleave, interleaved};
use crate::bits::bits_of;
use crate::bytes::{le, le_value, push_i32, push_le, read_le, signed32, word32};
use crate::gap::{
    outcome_view, with_context, zstd_compress, zstd_content, zstd_decompress, zstd_frame,
    ZSTD_LEVEL,
};
use crate::nef::{NefChunks, NikonLosslessMeta, RawStrip};
use crate::nikon_lossless::{
    check_holdable, count_message, decode_samples, decoded, dimensions_message, holdable,
    predictors, scheme, too_large_message, valid_dimensions, Scheme,
};
use crate::packed::{pack, packed, unpack, unpacked, Layout};
use crate::region::{file_regions, in_file_order, regions_of, Region, RegionKind};
use crate::segment::{
    container_bytes, message_view, meta_view, parsed, segment_views, write_container, MetaView,
    ParsedView, SegmentView,
};
use crate::strip::{
    bias_pixels, biased, kept_tail, payload_parts, raw_payload, reconstruct_raw_strip,
    reconstructed, split_jxl_payload, unbias_pixels, unshifted,
};
use crate::text::{decimal, then_number, with_number};
use vstd::prelude::*;
use vstd::slice::{slice_subrange, slice_to_vec};

verus! {

/// How the samples of the raw strip are coded, decided before compression.
pub enum RawSource {
    /// Nikon's Huffman format.
    Lossless(NikonLosslessMeta),
    /// Packed or 16-bit samples. Some bodies label them as compressed.
    Uncompressed,
}

/// What has to be compressed of a piece of the file.
pub enum Content {
    /// A gap or a JPEG.
    Bytes(Vec<u8>),
    /// An image, and the bit depth of its samples.
    Pixels { pixels: Vec<u16>, bits_per_sample: u32 },
}

/// A piece of the file. Its payload is the compressed content, for raw strips
/// between a prefix and a tail.
pub struct Piece {
    pub seg_type: SegmentType,
    pub original_offset: u64,
    pub original_length: u64,
    pub raw_meta: Option<RawPixelsMeta>,
    pub content: Content,
    pub prefix: Vec<u8>,
    pub tail: Vec<u8>,
}

/// The pieces of a file in order, up to the first that cannot be compressed,
/// and the message of why it cannot.
pub struct Plan {
    pub file_size: u64,
    pub pieces: Vec<Piece>,
    pub failure: Option<String>,
}

#[derive(Debug)]
pub struct CompressionStats {
    pub original_size: u64,
    pub compressed_size: u64,
    pub segment_count: usize,
    pub segments: Vec<SegmentStats>,
}

#[derive(Debug, Clone, Copy)]
pub struct SegmentStats {
    pub seg_type: SegmentType,
    pub original_size: u64,
    pub compressed_size: u64,
}

#[derive(Debug, Clone, Copy)]
pub struct DecompressionStats {
    pub original_size: u64,
}

/// What has to be compressed of a piece of the file.
pub enum ContentView {
    Bytes(Seq<u8>),
    Pixels(Seq<u16>, nat),
}

/// A piece of the file.
pub struct PieceView {
    pub seg_type: SegmentType,
    pub original_offset: nat,
    pub original_length: nat,
    pub raw_meta: Option<MetaView>,
    pub content: ContentView,
    pub prefix: Seq<u8>,
    pub tail: Seq<u8>,
}

impl View for Content {
    type V = ContentView;

    open spec fn view(&self) -> ContentView {
        match self {
            Content::Bytes(b) => ContentView::Bytes(b@),
            Content::Pixels { pixels, bits_per_sample } => ContentView::Pixels(
                pixels@,
                *bits_per_sample as nat,
            ),
        }
    }
}

impl View for Piece {
    type V = PieceView;

    open spec fn view(&self) -> PieceView {
        PieceView {
            seg_type: self.seg_type,
            original_offset: self.original_offset as nat,
            original_length: self.original_length as nat,
            raw_meta: meta_view(self.raw_meta),
            content: self.content@,
            prefix: self.prefix@,
            tail: self.tail@,
        }
    }
}

/// The pieces.
pub open spec fn piece_views(pieces: Seq<Piece>) -> Seq<PieceView> {
    pieces.map_values(|p: Piece| p@)
}

pub open spec fn range_message(offset: nat, length: nat) -> Seq<char> {
    "read "@ + decimal(length) + " bytes at "@ + decimal(offset)
        + ": failed to fill whole buffer"@
}

/// The bytes of a range of the file. An empty range can be read anywhere.
pub open spec fn range_of(nef: Seq<u8>, offset: nat, length: nat) -> Result<Seq<u8>, Seq<char>> {
    if length == 0 {
        Ok(Seq::empty())
    } else if offset + length <= nef.len() {
        Ok(nef.subrange(offset as int, (offset + length) as int))
    } else {
        Err(range_message(offset, length))
    }
}

fn read_range(nef: &[u8], offset: u64, length: u64) -> (r: Result<Vec<u8>, String>)
    ensures
        outcome_view(r) == range_of(nef@, offset as nat, length as nat),
        r is Ok ==> offset + length <= u64::MAX,
{
    match crate::tiff::read_at(nef, offset as u128, length as u128) {
        Some(b) => Ok(slice_to_vec(b)),
        None => Err(
            then_number(
                with_number("read ", length as u128, " bytes at "),
                offset as u128,
                ": failed to fill whole buffer",
            ),
        ),
    }
}

/// The coding scheme of a raw strip.
pub open spec fn strip_scheme(strip: RawStrip, meta: NikonLosslessMeta) -> Scheme {
    scheme(strip.width as usize, meta.huff_select, meta.initial_predictors, meta.split_row)
}

/// What is noted of a raw strip in its segment.
pub open spec fn noted_meta(strip: RawStrip, source: RawSource) -> MetaView {
    match source {
        RawSource::Lossless(m) => MetaView {
            width: strip.width as nat,
            height: strip.height as nat,
            bits_per_sample: (strip.bits_per_sample % 256) as nat,
            huff_select: (m.huff_select % 256) as nat,
            split_row: (m.split_row as nat % 0x1_0000_0000),
            initial: predictors(m.initial_predictors),
        },
        RawSource::Uncompressed => MetaView {
            width: strip.width as nat,
            height: strip.height as nat,
            bits_per_sample: (strip.bits_per_sample % 256) as nat,
            huff_select: 0,
            split_row: 0,
            initial: seq![0, 0, 0, 0],
        },
    }
}

/// The image, bit depth, type, prefix and tail of a raw strip.
pub struct RawContent {
    pub seg_type: SegmentType,
    pub pixels: Seq<u16>,
    pub bits_per_sample: nat,
    pub prefix: Seq<u8>,
    pub tail: Seq<u8>,
}

/// The content of a strip in Nikon's format: its samples, biased where they are
/// out of range, and its tail. The strip must be made again exactly from them.
pub open spec fn lossless_content(
    raw: Seq<u8>,
    strip: RawStrip,
    meta: NikonLosslessMeta,
) -> Result<RawContent, Seq<char>> {
    let c = strip_scheme(strip, meta);
    let h = strip.height as nat;
    if !valid_dimensions(c.width, h) {
        Err(dimensions_message(c.width, h))
    } else if !holdable(c.width, h) {
        Err(too_large_message(c.width, h))
    } else {
        let (pixels, bits) = decoded(c, bits_of(raw), c.width * h);
        let tail = kept_tail(raw, bits);
        if reconstructed(c, h, pixels, tail, raw.len()) != Ok::<Seq<u8>, Seq<char>>(raw) {
            Err("unsupported Nikon lossless variant (raw strip does not round-trip)"@)
        } else {
            let (values, depth, bias) = biased(pixels, strip.bits_per_sample);
            Ok(
                RawContent {
                    seg_type: match bias {
                        Some(_) => SegmentType::RawPixelsBiasedJxl,
                        None => SegmentType::RawPixelsJxl,
                    },
                    pixels: values,
                    bits_per_sample: depth,
                    prefix: match bias {
                        Some(b) => le(word32(b), 4),
                        None => Seq::empty(),
                    },
                    tail,
                },
            )
        }
    }
}

/// The content of an uncompressed strip: its samples. The strip must be made
/// again exactly from them, so its padding must be zero.
pub open spec fn uncompressed_content(raw: Seq<u8>, strip: RawStrip) -> Result<
    RawContent,
    Seq<char>,
> {
    let (w, h) = (strip.width as nat, strip.height as nat);
    match Layout::detected(raw.len(), w, h, strip.bits_per_sample) {
        None => Err("uncompressed raw: irregular row layout"@),
        Some(layout) => if !holdable(w, h) {
            Err(too_large_message(w, h))
        } else {
            let pixels = unpacked(raw, w, h, layout);
            if packed(pixels, w, h, layout) != raw {
                Err("uncompressed raw does not repack exactly (non-zero padding?)"@)
            } else {
                Ok(
                    RawContent {
                        seg_type: SegmentType::RawUncompressedJxl,
                        pixels,
                        bits_per_sample: match layout {
                            Layout::Packed { bps, .. } => bps as nat,
                            Layout::Unpacked16 { .. } => 16,
                        },
                        prefix: Seq::empty(),
                        tail: Seq::empty(),
                    },
                )
            }
        },
    }
}

/// The image of a raw strip as it is encoded. Samples in Nikon's format are
/// deinterleaved by colours, uncompressed ones are taken in the order of the
/// sensor.
pub open spec fn image_of(pixels: Seq<u16>, strip: RawStrip, source: RawSource) -> Seq<u16> {
    match source {
        RawSource::Lossless(_) => deinterleaved(pixels, strip.width as nat, strip.height as nat),
        RawSource::Uncompressed => pixels,
    }
}

/// The piece of the raw strip.
pub open spec fn raw_piece(raw: Seq<u8>, strip: RawStrip, source: RawSource) -> Result<
    PieceView,
    Seq<char>,
> {
    match match source {
        RawSource::Lossless(m) => lossless_content(raw, strip, m),
        RawSource::Uncompressed => uncompressed_content(raw, strip),
    } {
        Err(e) => Err(e),
        Ok(c) => Ok(
            PieceView {
                seg_type: c.seg_type,
                original_offset: strip.offset as nat,
                original_length: strip.length as nat,
                raw_meta: Some(noted_meta(strip, source)),
                content: ContentView::Pixels(image_of(c.pixels, strip, source), c.bits_per_sample),
                prefix: c.prefix,
                tail: c.tail,
            },
        ),
    }
}

/// A piece that is taken as bytes.
pub open spec fn byte_piece(seg_type: SegmentType, offset: nat, data: Seq<u8>) -> PieceView {
    PieceView {
        seg_type,
        original_offset: offset,
        original_length: data.len(),
        raw_meta: None,
        content: ContentView::Bytes(data),
        prefix: Seq::empty(),
        tail: Seq::empty(),
    }
}

/// The piece of a region.
pub open spec fn region_piece(
    nef: Seq<u8>,
    strip: RawStrip,
    source: RawSource,
    r: Region,
) -> Result<PieceView, Seq<char>> {
    match range_of(nef, r.offset as nat, r.length as nat) {
        Err(e) => Err(e),
        Ok(data) => match r.kind {
            RegionKind::RawStrip => raw_piece(data, strip, source),
            RegionKind::Jpeg => Ok(byte_piece(SegmentType::JpegJxl, r.offset as nat, data)),
        },
    }
}

/// The pieces so far, the place behind them, and the first failure.
pub struct Progress {
    pub pieces: Seq<PieceView>,
    pub pos: nat,
    pub failure: Option<Seq<char>>,
}

impl Progress {
    /// Adds the gap up to `end`, if there is one.
    pub open spec fn fill(self, nef: Seq<u8>, end: nat) -> Progress {
        if self.failure is Some || end <= self.pos {
            self
        } else {
            match range_of(nef, self.pos, (end - self.pos) as nat) {
                Err(e) => Progress { failure: Some(e), ..self },
                Ok(data) => Progress {
                    pieces: self.pieces.push(byte_piece(SegmentType::Zstd, self.pos, data)),
                    pos: end,
                    failure: None,
                },
            }
        }
    }

    /// Adds the piece of a region.
    pub open spec fn put(
        self,
        nef: Seq<u8>,
        strip: RawStrip,
        source: RawSource,
        r: Region,
    ) -> Progress {
        if self.failure is Some {
            self
        } else {
            match region_piece(nef, strip, source, r) {
                Err(e) => Progress { failure: Some(e), ..self },
                Ok(p) => Progress {
                    pieces: self.pieces.push(p),
                    pos: r.offset as nat + r.length as nat,
                    failure: None,
                },
            }
        }
    }
}

/// The pieces of the first `n` regions and of the gaps in front of them.
pub open spec fn progress(
    nef: Seq<u8>,
    strip: RawStrip,
    source: RawSource,
    regions: Seq<Region>,
    n: nat,
) -> Progress
    decreases n,
{
    if n == 0 {
        Progress { pieces: Seq::empty(), pos: 0, failure: None }
    } else {
        let r = regions[n - 1];
        progress(nef, strip, source, regions, (n - 1) as nat).fill(nef, r.offset as nat).put(
            nef,
            strip,
            source,
            r,
        )
    }
}

/// All pieces of a file: its regions in file order and the gaps between them.
pub open spec fn planned(nef: Seq<u8>, chunks: NefChunks, source: RawSource) -> Progress {
    let regions = in_file_order(regions_of(chunks@));
    progress(nef, chunks.raw_strip, source, regions, regions.len()).fill(
        nef,
        chunks.file_size as nat,
    )
}

/// The tables that the raw strip is coded with exist.
pub open spec fn workable(strip: RawStrip, source: RawSource) -> bool {
    source matches RawSource::Lossless(m) ==> valid_dimensions(
        strip.width as nat,
        strip.height as nat,
    ) ==> strip_scheme(strip, m).valid(strip.height as nat)
}

fn same_bytes(a: &Vec<u8>, b: &Vec<u8>) -> (r: bool)
    ensures
        r == (a@ == b@),
{
    if a.len() != b.len() {
        return false;
    }
    let mut i: usize = 0;
    while i < a.len()
        invariant
            a@.len() == b@.len(),
            0 <= i <= a@.len(),
            forall|k: int| 0 <= k < i ==> a@[k] == b@[k],
        decreases a@.len() - i,
    {
        if a[i] != b[i] {
            return false;
        }
        i = i + 1;
    }
    assert(a@ =~= b@);
    true
}

/// The content of a raw strip, before its image is deinterleaved.
struct RawParts {
    seg_type: SegmentType,
    pixels: Vec<u16>,
    bits_per_sample: u32,
    prefix: Vec<u8>,
    tail: Vec<u8>,
}

impl RawParts {
    spec fn is(&self, c: RawContent) -> bool {
        &&& self.seg_type == c.seg_type
        &&& self.pixels@ == c.pixels
        &&& self.bits_per_sample == c.bits_per_sample
        &&& self.prefix@ == c.prefix
        &&& self.tail@ == c.tail
    }
}

fn lossless_parts(raw: &Vec<u8>, strip: &RawStrip, meta: &NikonLosslessMeta) -> (r: Result<
    RawParts,
    String,
>)
    requires
        workable(*strip, RawSource::Lossless(*meta)),
    ensures
        match lossless_content(raw@, *strip, *meta) {
            Ok(c) => r is Ok && r->Ok_0.is(c) && c.pixels.len() == strip.width * strip.height,
            Err(e) => r is Err && r->Err_0@ == e,
        },
{
    let width: usize = strip.width as usize;
    let height: usize = strip.height as usize;
    let bps = strip.bits_per_sample;
    let ghost c = strip_scheme(*strip, *meta);
    if width != 0 && height != 0 && width % 2 == 0 {
        check_holdable(width, height)?;
    }
    let (samples, bits) = decode_samples(
        raw.as_slice(),
        width,
        height,
        meta.huff_select,
        meta.initial_predictors,
        meta.split_row,
    )?;
    let ghost px = samples@;
    proof {
        crate::nikon_lossless::lemma_decoded_len(c, bits_of(raw@), (width * height) as nat);
        crate::strip::lemma_bias_round_trip(px, bps);
    }
    let size: usize = raw.len();
    let full_bytes: usize = if bits / 8 < size as u128 {
        (bits / 8) as usize
    } else {
        size
    };
    let tail = slice_to_vec(slice_subrange(raw.as_slice(), full_bytes, size));
    assert(tail@ =~= kept_tail(raw@, bits as nat));
    let check = reconstruct_raw_strip(
        samples.as_slice(),
        width,
        height,
        bps,
        meta.huff_select,
        meta.initial_predictors,
        meta.split_row,
        tail.as_slice(),
        size,
    );
    let round_trips: bool = match &check {
        Ok(strip_again) => same_bytes(strip_again, raw),
        Err(_) => false,
    };
    if !round_trips {
        return Err(
            "unsupported Nikon lossless variant (raw strip does not round-trip)".to_string(),
        );
    }
    let (pixels, bits_per_sample, bias) = bias_pixels(samples, bps);
    let mut prefix: Vec<u8> = Vec::new();
    let seg_type = match bias {
        Some(b) => {
            push_i32(&mut prefix, b);
            assert(prefix@ =~= le(word32(b as int), 4));
            SegmentType::RawPixelsBiasedJxl
        },
        None => SegmentType::RawPixelsJxl,
    };
    Ok(RawParts { seg_type, pixels, bits_per_sample, prefix, tail })
}

fn uncompressed_parts(raw: &Vec<u8>, strip: &RawStrip) -> (r: Result<RawParts, String>)
    ensures
        match uncompressed_content(raw@, *strip) {
            Ok(c) => r is Ok && r->Ok_0.is(c) && c.pixels.len() == strip.width * strip.height,
            Err(e) => r is Err && r->Err_0@ == e,
        },
{
    let width: usize = strip.width as usize;
    let height: usize = strip.height as usize;
    let size: usize = raw.len();
    let layout = match Layout::detect(size, width, height, strip.bits_per_sample) {
        Some(l) => l,
        None => {
            return Err("uncompressed raw: irregular row layout".to_string());
        },
    };
    check_holdable(width, height)?;
    proof {
        if let Layout::Unpacked16 { stride } = layout {
            if height > 0 {
                assert((height - 1) * stride + stride == height * stride) by (nonlinear_arith);
            }
        }
    }
    let pixels = unpack(raw.as_slice(), width, height, layout);
    let again = pack(pixels.as_slice(), width, height, layout);
    if !same_bytes(&again, raw) {
        return Err("uncompressed raw does not repack exactly (non-zero padding?)".to_string());
    }
    Ok(
        RawParts {
            seg_type: SegmentType::RawUncompressedJxl,
            pixels,
            bits_per_sample: layout.jxl_bps(),
            prefix: Vec::new(),
            tail: Vec::new(),
        },
    )
}

fn note_meta(strip: &RawStrip, source: &RawSource) -> (r: RawPixelsMeta)
    ensures
        r@ == noted_meta(*strip, *source),
{
    let r = match source {
        RawSource::Lossless(m) => RawPixelsMeta {
            width: strip.width,
            height: strip.height,
            bits_per_sample: (strip.bits_per_sample % 256) as u8,
            huff_select: (m.huff_select % 256) as u8,
            split_row: (m.split_row as u64 % 0x1_0000_0000) as u32,
            initial_predictors: [
                m.initial_predictors[0][0],
                m.initial_predictors[0][1],
                m.initial_predictors[1][0],
                m.initial_predictors[1][1],
            ],
        },
        RawSource::Uncompressed => RawPixelsMeta {
            width: strip.width,
            height: strip.height,
            bits_per_sample: (strip.bits_per_sample % 256) as u8,
            huff_select: 0,
            split_row: 0,
            initial_predictors: [0, 0, 0, 0],
        },
    };
    assert(r@.initial =~= noted_meta(*strip, *source).initial);
    r
}

fn plan_raw(raw: &Vec<u8>, strip: &RawStrip, source: &RawSource) -> (r: Result<Piece, String>)
    requires
        workable(*strip, *source),
    ensures
        match raw_piece(raw@, *strip, *source) {
            Ok(p) => r is Ok && r->Ok_0@ == p,
            Err(e) => r is Err && r->Err_0@ == e,
        },
{
    let parts = match source {
        RawSource::Lossless(m) => lossless_parts(raw, strip, m)?,
        RawSource::Uncompressed => uncompressed_parts(raw, strip)?,
    };
    let image = match source {
        RawSource::Lossless(_) => deinterleave(
            parts.pixels.as_slice(),
            strip.width as usize,
            strip.height as usize,
        ),
        RawSource::Uncompressed => parts.pixels,
    };
    Ok(
        Piece {
            seg_type: parts.seg_type,
            original_offset: strip.offset,
            original_length: strip.length,
            raw_meta: Some(note_meta(strip, source)),
            content: Content::Pixels { pixels: image, bits_per_sample: parts.bits_per_sample },
            prefix: parts.prefix,
            tail: parts.tail,
        },
    )
}

fn bytes_piece(seg_type: SegmentType, offset: u64, data: Vec<u8>) -> (r: Piece)
    ensures
        r@ == byte_piece(seg_type, offset as nat, data@),
{
    let length: u64 = data.len() as u64;
    Piece {
        seg_type,
        original_offset: offset,
        original_length: length,
        raw_meta: None,
        content: Content::Bytes(data),
        prefix: Vec::new(),
        tail: Vec::new(),
    }
}

/// The state of a plan in the making.
spec fn plan_is(plan: Plan, pos: u64, p: Progress) -> bool {
    &&& piece_views(plan.pieces@) == p.pieces
    &&& message_view(plan.failure) == p.failure
    &&& p.failure is None ==> pos == p.pos
}

/// Adds the gap up to `end`, if there is one; returns the place behind it.
fn fill_gap(plan: &mut Plan, nef: &[u8], pos: u64, end: u64, Ghost(p): Ghost<Progress>) -> (r: u64)
    requires
        plan_is(*old(plan), pos, p),
    ensures
        plan_is(*final(plan), r, p.fill(nef@, end as nat)),
        final(plan).file_size == old(plan).file_size,
{
    if plan.failure.is_some() || end <= pos {
        return pos;
    }
    match read_range(nef, pos, end - pos) {
        Ok(data) => {
            let piece = bytes_piece(SegmentType::Zstd, pos, data);
            assert(piece_views(plan.pieces@.push(piece)) =~= piece_views(plan.pieces@).push(
                piece@,
            ));
            plan.pieces.push(piece);
            end
        },
        Err(e) => {
            plan.failure = Some(e);
            pos
        },
    }
}

/// Adds the piece of a region; returns the place behind it.
fn put_region(
    plan: &mut Plan,
    nef: &[u8],
    strip: &RawStrip,
    source: &RawSource,
    pos: u64,
    region: Region,
    Ghost(p): Ghost<Progress>,
) -> (r: u64)
    requires
        workable(*strip, *source),
        plan_is(*old(plan), pos, p),
    ensures
        plan_is(*final(plan), r, p.put(nef@, *strip, *source, region)),
        final(plan).file_size == old(plan).file_size,
{
    if plan.failure.is_some() {
        return pos;
    }
    let data = match read_range(nef, region.offset, region.length) {
        Ok(data) => data,
        Err(e) => {
            plan.failure = Some(e);
            return pos;
        },
    };
    let outcome: Result<Piece, String> = match region.kind {
        RegionKind::RawStrip => plan_raw(&data, strip, source),
        RegionKind::Jpeg => Ok(bytes_piece(SegmentType::JpegJxl, region.offset, data)),
    };
    match outcome {
        Ok(piece) => {
            assert(piece_views(plan.pieces@.push(piece)) =~= piece_views(plan.pieces@).push(
                piece@,
            ));
            plan.pieces.push(piece);
            region.offset + region.length
        },
        Err(e) => {
            plan.failure = Some(e);
            pos
        },
    }
}

/// Splits a file into the pieces that are compressed by themselves. The content
/// of JPEG and raw pieces is to be encoded as JPEG XL, piece by piece in order.
pub fn plan(nef: &[u8], chunks: &NefChunks, raw_source: &RawSource) -> (r: Plan)
    requires
        workable(chunks.raw_strip, *raw_source),
    ensures
        r.file_size == chunks.file_size,
        piece_views(r.pieces@) == planned(nef@, *chunks, *raw_source).pieces,
        message_view(r.failure) == planned(nef@, *chunks, *raw_source).failure,
{
    let regions = file_regions(chunks);
    let mut plan = Plan { file_size: chunks.file_size, pieces: Vec::new(), failure: None };
    let mut pos: u64 = 0;
    let mut i: usize = 0;
    assert(piece_views(plan.pieces@) =~= Seq::empty());
    while i < regions.len()
        invariant
            workable(chunks.raw_strip, *raw_source),
            0 <= i <= regions@.len(),
            plan.file_size == chunks.file_size,
            plan_is(
                plan,
                pos,
                progress(nef@, chunks.raw_strip, *raw_source, regions@, i as nat),
            ),
        decreases regions@.len() - i,
    {
        let ghost p = progress(nef@, chunks.raw_strip, *raw_source, regions@, i as nat);
        let region = regions[i];
        pos = fill_gap(&mut plan, nef, pos, region.offset, Ghost(p));
        pos = put_region(
            &mut plan,
            nef,
            &chunks.raw_strip,
            raw_source,
            pos,
            region,
            Ghost(p.fill(nef@, region.offset as nat)),
        );
        i = i + 1;
    }
    let ghost p = progress(nef@, chunks.raw_strip, *raw_source, regions@, regions@.len());
    let _end = fill_gap(&mut plan, nef, pos, chunks.file_size, Ghost(p));
    plan
}

/// The result of encoding a piece.
pub open spec fn outcome_at(outcomes: Seq<Result<Seq<u8>, Seq<char>>>, i: int) -> Result<
    Seq<u8>,
    Seq<char>,
> {
    if 0 <= i < outcomes.len() {
        outcomes[i]
    } else {
        Err("segment not encoded"@)
    }
}

/// The payload of a piece whose content was encoded to `data`.
pub open spec fn piece_payload(p: PieceView, data: Seq<u8>) -> Seq<u8> {
    if p.seg_type.is_raw() {
        p.prefix + raw_payload(data, p.tail)
    } else {
        data
    }
}

/// The segment of a piece whose content was encoded to `data`.
pub open spec fn piece_segment(p: PieceView, data: Seq<u8>) -> SegmentView {
    SegmentView {
        seg_type: p.seg_type,
        original_offset: p.original_offset,
        original_length: p.original_length,
        payload: piece_payload(p, data),
        raw_meta: p.raw_meta,
    }
}

/// The segments of the first `n` pieces, or the first failure to encode one.
pub open spec fn piece_segments(
    pieces: Seq<PieceView>,
    outcomes: Seq<Result<Seq<u8>, Seq<char>>>,
    n: nat,
) -> Result<Seq<SegmentView>, Seq<char>>
    decreases n,
{
    if n == 0 {
        Ok(Seq::empty())
    } else {
        match piece_segments(pieces, outcomes, (n - 1) as nat) {
            Err(e) => Err(e),
            Ok(segments) => match outcome_at(outcomes, n - 1) {
                Err(e) => Err(e),
                Ok(data) => Ok(segments.push(piece_segment(pieces[n - 1], data))),
            },
        }
    }
}

/// The segments of a plan: the first failure to encode a piece comes first,
/// then that of the plan itself.
pub open spec fn sealed(
    pieces: Seq<PieceView>,
    failure: Option<Seq<char>>,
    outcomes: Seq<Result<Seq<u8>, Seq<char>>>,
) -> Result<Seq<SegmentView>, Seq<char>> {
    match piece_segments(pieces, outcomes, pieces.len()) {
        Err(e) => Err(e),
        Ok(segments) => match failure {
            Some(e) => Err(e),
            None => Ok(segments),
        },
    }
}

/// The sum of the original lengths of the first `n` segments.
pub open spec fn original_total(segments: Seq<SegmentView>, n: nat) -> nat
    decreases n,
{
    if n == 0 {
        0
    } else {
        original_total(segments, (n - 1) as nat) + segments[n - 1].original_length
    }
}

/// The sum of the payload lengths of the first `n` segments.
pub open spec fn payload_total(segments: Seq<SegmentView>, n: nat) -> nat
    decreases n,
{
    if n == 0 {
        0
    } else {
        payload_total(segments, (n - 1) as nat) + segments[n - 1].payload.len()
    }
}

impl CompressionStats {
    /// The statistics are those of the given segments. Totals wrap around at 64 bits.
    pub open spec fn describes(&self, segments: Seq<SegmentView>) -> bool {
        &&& self.original_size == original_total(segments, segments.len()) % 0x1_0000_0000_0000_0000
        &&& self.compressed_size == payload_total(segments, segments.len())
            % 0x1_0000_0000_0000_0000
        &&& self.segment_count == segments.len()
        &&& self.segments@.len() == segments.len()
        &&& forall|i: int|
            0 <= i < segments.len() ==> {
                &&& (#[trigger] self.segments@[i]).seg_type == segments[i].seg_type
                &&& self.segments@[i].original_size == segments[i].original_length
                &&& self.segments@[i].compressed_size == segments[i].payload.len()
            }
    }
}

/// The outcomes of encoding.
pub open spec fn outcome_views(outcomes: Seq<Result<Vec<u8>, String>>) -> Seq<
    Result<Seq<u8>, Seq<char>>,
> {
    outcomes.map_values(|r: Result<Vec<u8>, String>| outcome_view(r))
}

fn copy_meta(m: &Option<RawPixelsMeta>) -> (r: Option<RawPixelsMeta>)
    ensures
        r == *m,
{
    match m {
        Some(m) => Some(*m),
        None => None,
    }
}

fn make_segment(p: &Piece, data: &Vec<u8>) -> (r: Segment)
    ensures
        r@ == piece_segment(p@, data@),
{
    let mut payload: Vec<u8> = Vec::new();
    if p.seg_type.has_raw_meta() {
        payload.extend_from_slice(p.prefix.as_slice());
        push_le(&mut payload, data.len() as u64, 4);
        payload.extend_from_slice(data.as_slice());
        payload.extend_from_slice(p.tail.as_slice());
    } else {
        payload.extend_from_slice(data.as_slice());
    }
    assert(payload@ =~= piece_payload(p@, data@));
    Segment {
        seg_type: p.seg_type,
        original_offset: p.original_offset,
        original_length: p.original_length,
        payload,
        raw_meta: copy_meta(&p.raw_meta),
    }
}

proof fn lemma_segments_fail(
    pieces: Seq<PieceView>,
    outcomes: Seq<Result<Seq<u8>, Seq<char>>>,
    m: nat,
    n: nat,
)
    requires
        m <= n,
        piece_segments(pieces, outcomes, m) is Err,
    ensures
        piece_segments(pieces, outcomes, n) == piece_segments(pieces, outcomes, m),
    decreases n,
{
    if m < n {
        lemma_segments_fail(pieces, outcomes, m, (n - 1) as nat);
    }
}

fn make_segments(pieces: &Vec<Piece>, outcomes: &Vec<Result<Vec<u8>, String>>) -> (r: Result<
    Vec<Segment>,
    String,
>)
    ensures
        match piece_segments(piece_views(pieces@), outcome_views(outcomes@), pieces@.len()) {
            Ok(segments) => r is Ok && segment_views(r->Ok_0@) == segments,
            Err(e) => r is Err && r->Err_0@ == e,
        },
{
    let ghost pv = piece_views(pieces@);
    let ghost ov = outcome_views(outcomes@);
    let mut segments: Vec<Segment> = Vec::new();
    let mut i: usize = 0;
    assert(segment_views(segments@) =~= Seq::empty());
    while i < pieces.len()
        invariant
            pv == piece_views(pieces@),
            ov == outcome_views(outcomes@),
            0 <= i <= pieces@.len(),
            piece_segments(pv, ov, i as nat) == Ok::<Seq<SegmentView>, Seq<char>>(
                segment_views(segments@),
            ),
        decreases pieces@.len() - i,
    {
        if i >= outcomes.len() {
            proof {
                lemma_segments_fail(pv, ov, (i + 1) as nat, pieces@.len());
            }
            return Err("segment not encoded".to_string());
        }
        assert(ov[i as int] == outcome_view(outcomes@[i as int]));
        match &outcomes[i] {
            Ok(data) => {
                let g = make_segment(&pieces[i], data);
                assert(segment_views(segments@.push(g)) =~= segment_views(segments@).push(g@));
                segments.push(g);
            },
            Err(e) => {
                proof {
                    lemma_segments_fail(pv, ov, (i + 1) as nat, pieces@.len());
                }
                return Err(e.as_str().to_string());
            },
        }
        i = i + 1;
    }
    Ok(segments)
}

fn describe(segments: &Vec<Segment>) -> (r: CompressionStats)
    ensures
        r.describes(segment_views(segments@)),
{
    let ghost views = segment_views(segments@);
    let mut stats: Vec<SegmentStats> = Vec::new();
    let mut total_original: u64 = 0;
    let mut total_compressed: u64 = 0;
    let mut i: usize = 0;
    while i < segments.len()
        invariant
            views == segment_views(segments@),
            0 <= i <= segments@.len(),
            stats@.len() == i,
            total_original == original_total(views, i as nat) % 0x1_0000_0000_0000_0000,
            total_compressed == payload_total(views, i as nat) % 0x1_0000_0000_0000_0000,
            forall|k: int|
                0 <= k < i ==> {
                    &&& (#[trigger] stats@[k]).seg_type == views[k].seg_type
                    &&& stats@[k].original_size == views[k].original_length
                    &&& stats@[k].compressed_size == views[k].payload.len()
                },
        decreases segments@.len() - i,
    {
        let g = &segments[i];
        assert(views[i as int] == g@);
        let payload_len: u64 = g.payload.len() as u64;
        stats.push(
            SegmentStats {
                seg_type: g.seg_type,
                original_size: g.original_length,
                compressed_size: payload_len,
            },
        );
        total_compressed = total_compressed.wrapping_add(payload_len);
        total_original = total_original.wrapping_add(g.original_length);
        i = i + 1;
    }
    CompressionStats {
        original_size: total_original,
        compressed_size: total_compressed,
        segment_count: segments.len(),
        segments: stats,
    }
}

/// Writes the container of a plan, given the encoded content of every piece.
/// Fails with the first failure to encode a piece, or with that of the plan.
pub fn seal(plan: &Plan, outcomes: &Vec<Result<Vec<u8>, String>>) -> (r: Result<
    (Vec<u8>, CompressionStats),
    String,
>)
    ensures
        match sealed(
            piece_views(plan.pieces@),
            message_view(plan.failure),
            outcome_views(outcomes@),
        ) {
            Ok(segments) => r is Ok && r->Ok_0.0@ == container_bytes(
                plan.file_size as nat,
                segments,
            ) && r->Ok_0.1.describes(segments),
            Err(e) => r is Err && r->Err_0@ == e,
        },
{
    let segments = make_segments(&plan.pieces, outcomes)?;
    if let Some(e) = &plan.failure {
        return Err(e.as_str().to_string());
    }
    let stats = describe(&segments);
    Ok((write_container(plan.file_size, &segments), stats))
}

/// The bytes of a piece that is taken as bytes.
pub open spec fn piece_bytes(p: PieceView) -> Seq<u8> {
    match p.content {
        ContentView::Bytes(b) => b,
        ContentView::Pixels(..) => Seq::empty(),
    }
}

/// The outcomes of encoding, those of the gaps filled in.
pub open spec fn with_gaps(
    pieces: Seq<PieceView>,
    encoded: Seq<Result<Seq<u8>, Seq<char>>>,
) -> Seq<Result<Seq<u8>, Seq<char>>> {
    Seq::new(
        pieces.len(),
        |i: int|
            if pieces[i].seg_type is Zstd {
                with_context("zstd compress: "@, zstd_frame(piece_bytes(pieces[i]), ZSTD_LEVEL))
            } else {
                outcome_at(encoded, i)
            },
    )
}

/// Every gap that was compressed is given back by decompression.
pub open spec fn gaps_restorable(
    pieces: Seq<PieceView>,
    encoded: Seq<Result<Seq<u8>, Seq<char>>>,
) -> bool {
    forall|i: int|
        0 <= i < pieces.len() && (#[trigger] pieces[i]).seg_type is Zstd ==> (with_gaps(
            pieces,
            encoded,
        )[i] matches Ok(frame) ==> zstd_content(frame) == Ok::<Seq<u8>, Seq<char>>(
            piece_bytes(pieces[i]),
        ))
}

fn copy_outcome(r: &Result<Vec<u8>, String>) -> (q: Result<Vec<u8>, String>)
    ensures
        outcome_view(q) == outcome_view(*r),
{
    match r {
        Ok(data) => Ok(slice_to_vec(data.as_slice())),
        Err(e) => Err(e.as_str().to_string()),
    }
}

fn encode_gap(p: &Piece) -> (r: Result<Vec<u8>, String>)
    ensures
        outcome_view(r) == with_context(
            "zstd compress: "@,
            zstd_frame(piece_bytes(p@), ZSTD_LEVEL),
        ),
        r matches Ok(frame) ==> zstd_content(frame@) == Ok::<Seq<u8>, Seq<char>>(
            piece_bytes(p@),
        ),
{
    match &p.content {
        Content::Bytes(b) => zstd_compress(b.as_slice()),
        Content::Pixels { .. } => {
            let none: Vec<u8> = Vec::new();
            zstd_compress(none.as_slice())
        },
    }
}

/// Writes the container of a plan. `encoded` holds, for every piece, the JPEG XL
/// data of its content; what it holds for a gap is not looked at, gaps are
/// compressed here.
pub fn compress(plan: &Plan, encoded: &Vec<Result<Vec<u8>, String>>) -> (r: Result<
    (Vec<u8>, CompressionStats),
    String,
>)
    ensures
        match sealed(
            piece_views(plan.pieces@),
            message_view(plan.failure),
            with_gaps(piece_views(plan.pieces@), outcome_views(encoded@)),
        ) {
            Ok(segments) => r is Ok && r->Ok_0.0@ == container_bytes(
                plan.file_size as nat,
                segments,
            ) && r->Ok_0.1.describes(segments),
            Err(e) => r is Err && r->Err_0@ == e,
        },
        r is Ok ==> gaps_restorable(piece_views(plan.pieces@), outcome_views(encoded@)),
{
    let ghost pv = piece_views(plan.pieces@);
    let ghost ov = outcome_views(encoded@);
    let ghost all = with_gaps(pv, ov);
    let mut outcomes: Vec<Result<Vec<u8>, String>> = Vec::new();
    let mut i: usize = 0;
    while i < plan.pieces.len()
        invariant
            pv == piece_views(plan.pieces@),
            ov == outcome_views(encoded@),
            all == with_gaps(pv, ov),
            0 <= i <= plan.pieces@.len(),
            outcome_views(outcomes@) == all.take(i as int),
            forall|k: int|
                0 <= k < i && (#[trigger] pv[k]).seg_type is Zstd ==> (all[k] matches Ok(frame)
                    ==> zstd_content(frame) == Ok::<Seq<u8>, Seq<char>>(piece_bytes(pv[k]))),
        decreases plan.pieces@.len() - i,
    {
        let piece = &plan.pieces[i];
        assert(pv[i as int] == piece@);
        let r: Result<Vec<u8>, String> = match piece.seg_type {
            SegmentType::Zstd => encode_gap(piece),
            _ => {
                if i < encoded.len() {
                    assert(ov[i as int] == outcome_view(encoded@[i as int]));
                    copy_outcome(&encoded[i])
                } else {
                    Err("segment not encoded".to_string())
                }
            },
        };
        proof {
            assert(outcome_view(r) == all[i as int]);
            assert(outcome_views(outcomes@.push(r)) =~= outcome_views(outcomes@).push(
                outcome_view(r),
            ));
            assert(all.take(i + 1) =~= all.take(i as int).push(all[i as int]));
        }
        outcomes.push(r);
        i = i + 1;
    }
    assert(all.take(all.len() as int) =~= all);
    seal(plan, &outcomes)
}

/// What was decoded of the payload of a segment.
pub enum Decoded {
    /// Nothing: the segment needs no decoding from outside.
    Nothing,
    /// The bytes of a gap or a JPEG.
    Bytes(Vec<u8>),
    /// The samples of an image.
    Pixels(Vec<u16>),
    /// The message of why it cannot be decoded.
    Failed(String),
}

/// What was decoded of the payload of a segment.
pub enum DecodedView {
    Nothing,
    Bytes(Seq<u8>),
    Pixels(Seq<u16>),
    Failed(Seq<char>),
}

impl View for Decoded {
    type V = DecodedView;

    open spec fn view(&self) -> DecodedView {
        match self {
            Decoded::Nothing => DecodedView::Nothing,
            Decoded::Bytes(b) => DecodedView::Bytes(b@),
            Decoded::Pixels(p) => DecodedView::Pixels(p@),
            Decoded::Failed(e) => DecodedView::Failed(e@),
        }
    }
}

/// What was decoded of the segments.
pub open spec fn decoded_views(decoded: Seq<Decoded>) -> Seq<DecodedView> {
    decoded.map_values(|d: Decoded| d@)
}

/// What was decoded of a segment.
pub open spec fn decoded_at(decoded: Seq<DecodedView>, i: int) -> DecodedView {
    if 0 <= i < decoded.len() {
        decoded[i]
    } else {
        DecodedView::Nothing
    }
}

pub open spec fn not_decoded() -> Seq<char> {
    "segment not decoded"@
}

pub open spec fn jpeg_size_message(got: nat, needed: nat) -> Seq<char> {
    "JPEG reconstruction size "@ + decimal(got) + " != expected "@ + decimal(needed) + ""@
}

pub open spec fn table_message(n: nat) -> Seq<char> {
    "invalid Huffman table "@ + decimal(n) + ""@
}

pub open spec fn size_message(got: nat, needed: nat) -> Seq<char> {
    "reconstructed size "@ + decimal(got) + " != expected "@ + decimal(needed) + ""@
}

/// The bias, the JPEG XL data and the tail in the payload of a raw segment.
pub open spec fn raw_parts_of(seg_type: SegmentType, payload: Seq<u8>) -> Result<
    (int, Seq<u8>, Seq<u8>),
    Seq<char>,
> {
    if seg_type is RawPixelsBiasedJxl {
        if payload.len() < 4 {
            Err("biased raw segment: payload too short"@)
        } else {
            let (jxl, tail) = payload_parts(payload.skip(4));
            Ok((signed32(le_value(payload.take(4))), jxl, tail))
        }
    } else {
        let (jxl, tail) = payload_parts(payload);
        Ok((0, jxl, tail))
    }
}

/// The bias, the JPEG XL data and the tail in the payload of a raw segment.
pub fn raw_parts(g: &Segment) -> (r: Result<(i32, &[u8], &[u8]), String>)
    ensures
        match raw_parts_of(g.seg_type, g.payload@) {
            Ok((bias, jxl, tail)) => r is Ok && r->Ok_0.0 == bias && r->Ok_0.1@ == jxl
                && r->Ok_0.2@ == tail,
            Err(e) => r is Err && r->Err_0@ == e,
        },
{
    let payload = g.payload.as_slice();
    let size: usize = payload.len();
    match g.seg_type {
        SegmentType::RawPixelsBiasedJxl => {
            if size < 4 {
                return Err("biased raw segment: payload too short".to_string());
            }
            proof {
                assert(payload@.subrange(0, 4) =~= payload@.take(4));
                assert(payload@.subrange(4, size as int) =~= payload@.skip(4));
                crate::bytes::lemma_le_value_bound(payload@.take(4));
                vstd::arithmetic::power2::lemma2_to64();
            }
            let word: u64 = read_le(payload, 0, 4);
            let bias: i32 = if word < 0x8000_0000 {
                word as i32
            } else {
                (word as i64 - 0x1_0000_0000) as i32
            };
            let (jxl, tail) = split_jxl_payload(slice_subrange(payload, 4, size));
            Ok((bias, jxl, tail))
        },
        _ => {
            let (jxl, tail) = split_jxl_payload(payload);
            Ok((0, jxl, tail))
        },
    }
}

/// A decoded image in the order of the sensor. An image of another size stays as it is.
pub open spec fn mosaic_of(pixels: Seq<u16>, m: MetaView) -> Seq<u16> {
    if pixels.len() == m.width * m.height {
        interleaved(pixels, m.width, m.height)
    } else {
        pixels
    }
}

/// The coding scheme that a segment notes.
pub open spec fn meta_scheme(m: MetaView) -> Scheme {
    Scheme {
        width: m.width,
        huff_select: m.huff_select,
        initial: m.initial,
        split_row: m.split_row,
    }
}

/// The strip in Nikon's format that a decoded image and a tail make up.
pub open spec fn lossless_strip(
    m: MetaView,
    bias: int,
    pixels: Seq<u16>,
    tail: Seq<u8>,
    needed: nat,
) -> Result<Seq<u8>, Seq<char>> {
    let c = meta_scheme(m);
    if valid_dimensions(m.width, m.height) && pixels.len() == m.width * m.height && !c.valid(
        m.height,
    ) {
        Err(table_message(m.huff_select))
    } else {
        reconstructed(c, m.height, unshifted(mosaic_of(pixels, m), bias), tail, needed)
    }
}

/// The uncompressed strip of a decoded image.
pub open spec fn uncompressed_strip(m: MetaView, pixels: Seq<u16>, needed: nat) -> Result<
    Seq<u8>,
    Seq<char>,
> {
    match Layout::detected(needed, m.width, m.height, m.bits_per_sample as u32) {
        None => Err("uncompressed segment: irregular row layout"@),
        Some(layout) => if pixels.len() < m.width * m.height {
            Err(count_message(pixels.len(), m.width, m.height))
        } else {
            Ok(packed(pixels, m.width, m.height, layout))
        },
    }
}

/// The bytes of the file that a segment stands for.
pub open spec fn segment_output(g: SegmentView, d: DecodedView) -> Result<Seq<u8>, Seq<char>> {
    match g.seg_type {
        SegmentType::Zstd => match d {
            DecodedView::Bytes(b) => Ok(b),
            DecodedView::Failed(e) => Err(e),
            _ => Err(not_decoded()),
        },
        SegmentType::JpegJxl => match d {
            DecodedView::Bytes(b) => if b.len() != g.original_length {
                Err(jpeg_size_message(b.len(), g.original_length))
            } else {
                Ok(b)
            },
            DecodedView::Failed(e) => Err(e),
            _ => Err(not_decoded()),
        },
        _ => match (g.raw_meta, raw_parts_of(g.seg_type, g.payload)) {
            (None, _) => Err(not_decoded()),
            (Some(_), Err(e)) => Err(e),
            (Some(m), Ok((bias, _, tail))) => match d {
                DecodedView::Pixels(px) => if g.seg_type is RawUncompressedJxl {
                    uncompressed_strip(m, px, (g.original_length as usize) as nat)
                } else {
                    lossless_strip(m, bias, px, tail, (g.original_length as usize) as nat)
                },
                DecodedView::Failed(e) => Err(e),
                _ => Err(not_decoded()),
            },
        },
    }
}

/// The bytes of the first `n` segments, or the first failure.
pub open spec fn joined(segments: Seq<SegmentView>, decoded: Seq<DecodedView>, n: nat) -> Result<
    Seq<u8>,
    Seq<char>,
>
    decreases n,
{
    if n == 0 {
        Ok(Seq::empty())
    } else {
        match joined(segments, decoded, (n - 1) as nat) {
            Err(e) => Err(e),
            Ok(out) => match segment_output(segments[n - 1], decoded_at(decoded, n - 1)) {
                Err(e) => Err(e),
                Ok(b) => Ok(out + b),
            },
        }
    }
}

/// The file that a container stands for. A segment that cannot be restored
/// comes before one that cannot be read, and both before a wrong size.
pub open spec fn assembled(p: ParsedView, decoded: Seq<DecodedView>) -> Result<
    Seq<u8>,
    Seq<char>,
> {
    match joined(p.segments, decoded, p.segments.len()) {
        Err(e) => Err(e),
        Ok(out) => match p.failure {
            Some(e) => Err(e),
            None => if out.len() != p.original_file_size {
                Err(size_message(out.len(), p.original_file_size))
            } else {
                Ok(out)
            },
        },
    }
}

fn weave(pixels: &Vec<u16>, m: &RawPixelsMeta) -> (r: Vec<u16>)
    ensures
        r@ == mosaic_of(pixels@, m@),
{
    proof {
        assert(m.width * m.height <= 0xffff_ffff * 0xffff_ffff) by (nonlinear_arith)
            requires
                m.width <= 0xffff_ffff,
                m.height <= 0xffff_ffff,
        ;
    }
    if pixels.len() as u64 == (m.width as u64) * (m.height as u64) {
        interleave(pixels.as_slice(), m.width as usize, m.height as usize)
    } else {
        slice_to_vec(pixels.as_slice())
    }
}

fn restore_lossless(
    m: &RawPixelsMeta,
    bias: i32,
    pixels: &Vec<u16>,
    tail: &[u8],
    needed: usize,
) -> (r: Result<Vec<u8>, String>)
    ensures
        outcome_view(r) == lossless_strip(m@, bias as int, pixels@, tail@, needed as nat),
{
    let width: usize = m.width as usize;
    let height: usize = m.height as usize;
    let huff_select: usize = m.huff_select as usize;
    let split_row: usize = m.split_row as usize;
    let initial = [
        [m.initial_predictors[0], m.initial_predictors[1]],
        [m.initial_predictors[2], m.initial_predictors[3]],
    ];
    let ghost c = scheme(width, huff_select, initial, split_row);
    proof {
        assert(c.initial =~= m@.initial);
        assert(c == meta_scheme(m@));
        assert(m.width * m.height <= 0xffff_ffff * 0xffff_ffff) by (nonlinear_arith)
            requires
                m.width <= 0xffff_ffff,
                m.height <= 0xffff_ffff,
        ;
    }
    let coded: bool = huff_select < 6 && (split_row == 0 || split_row >= height || huff_select < 5);
    let complete: bool = pixels.len() as u64 == (m.width as u64) * (m.height as u64);
    if width != 0 && height != 0 && width % 2 == 0 && complete && !coded {
        return Err(with_number("invalid Huffman table ", huff_select as u128, ""));
    }
    let mosaic = unbias_pixels(weave(pixels, m).as_slice(), bias);
    reconstruct_raw_strip(
        mosaic.as_slice(),
        width,
        height,
        m.bits_per_sample as u32,
        huff_select,
        initial,
        split_row,
        tail,
        needed,
    )
}

fn restore_uncompressed(m: &RawPixelsMeta, pixels: &Vec<u16>, needed: usize) -> (r: Result<
    Vec<u8>,
    String,
>)
    ensures
        outcome_view(r) == uncompressed_strip(m@, pixels@, needed as nat),
{
    let width: usize = m.width as usize;
    let height: usize = m.height as usize;
    let layout = match Layout::detect(needed, width, height, m.bits_per_sample as u32) {
        Some(l) => l,
        None => {
            return Err("uncompressed segment: irregular row layout".to_string());
        },
    };
    proof {
        assert(m.width * m.height <= 0xffff_ffff * 0xffff_ffff) by (nonlinear_arith)
            requires
                m.width <= 0xffff_ffff,
                m.height <= 0xffff_ffff,
        ;
    }
    if (pixels.len() as u64) < (m.width as u64) * (m.height as u64) {
        return Err(
            then_number(
                then_number(
                    with_number("pixel count mismatch: ", pixels.len() as u128, " vs "),
                    m.width as u128,
                    "x",
                ),
                m.height as u128,
                "",
            ),
        );
    }
    Ok(pack(pixels.as_slice(), width, height, layout))
}

fn restore_raw(g: &Segment, d: &Decoded) -> (r: Result<Vec<u8>, String>)
    requires
        g.seg_type.is_raw(),
    ensures
        outcome_view(r) == segment_output(g@, d@),
{
    let m = match &g.raw_meta {
        Some(m) => m,
        None => {
            return Err("segment not decoded".to_string());
        },
    };
    let (bias, _jxl, tail) = match raw_parts(g) {
        Ok(parts) => parts,
        Err(e) => {
            return Err(e);
        },
    };
    let needed: usize = g.original_length as usize;
    match d {
        Decoded::Pixels(pixels) => match g.seg_type {
            SegmentType::RawUncompressedJxl => restore_uncompressed(m, pixels, needed),
            _ => restore_lossless(m, bias, pixels, tail, needed),
        },
        Decoded::Failed(e) => Err(e.as_str().to_string()),
        _ => Err("segment not decoded".to_string()),
    }
}

fn restore(g: &Segment, d: &Decoded) -> (r: Result<Vec<u8>, String>)
    ensures
        outcome_view(r) == segment_output(g@, d@),
{
    match g.seg_type {
        SegmentType::Zstd => match d {
            Decoded::Bytes(b) => Ok(slice_to_vec(b.as_slice())),
            Decoded::Failed(e) => Err(e.as_str().to_string()),
            _ => Err("segment not decoded".to_string()),
        },
        SegmentType::JpegJxl => match d {
            Decoded::Bytes(b) => {
                if b.len() as u64 != g.original_length {
                    Err(
                        then_number(
                            with_number(
                                "JPEG reconstruction size ",
                                b.len() as u128,
                                " != expected ",
                            ),
                            g.original_length as u128,
                            "",
                        ),
                    )
                } else {
                    Ok(slice_to_vec(b.as_slice()))
                }
            },
            Decoded::Failed(e) => Err(e.as_str().to_string()),
            _ => Err("segment not decoded".to_string()),
        },
        _ => restore_raw(g, d),
    }
}

proof fn lemma_joined_fails(
    segments: Seq<SegmentView>,
    decoded: Seq<DecodedView>,
    m: nat,
    n: nat,
)
    requires
        m <= n,
        joined(segments, decoded, m) is Err,
    ensures
        joined(segments, decoded, n) == joined(segments, decoded, m),
    decreases n,
{
    if m < n {
        lemma_joined_fails(segments, decoded, m, (n - 1) as nat);
    }
}

/// Puts a file together from its container, given what was decoded of every segment.
pub fn assemble(parsed: &Parsed, decoded: &Vec<Decoded>) -> (r: Result<
    (Vec<u8>, DecompressionStats),
    String,
>)
    ensures
        match assembled(parsed@, decoded_views(decoded@)) {
            Ok(out) => r is Ok && r->Ok_0.0@ == out && r->Ok_0.1.original_size
                == parsed.original_file_size,
            Err(e) => r is Err && r->Err_0@ == e,
        },
{
    let ghost sv = segment_views(parsed.segments@);
    let ghost dv = decoded_views(decoded@);
    let nothing = Decoded::Nothing;
    let mut out: Vec<u8> = Vec::new();
    let mut i: usize = 0;
    while i < parsed.segments.len()
        invariant
            sv == segment_views(parsed.segments@),
            dv == decoded_views(decoded@),
            nothing@ == DecodedView::Nothing,
            0 <= i <= parsed.segments@.len(),
            joined(sv, dv, i as nat) == Ok::<Seq<u8>, Seq<char>>(out@),
        decreases parsed.segments@.len() - i,
    {
        let g = &parsed.segments[i];
        assert(sv[i as int] == g@);
        let d: &Decoded = if i < decoded.len() {
            &decoded[i]
        } else {
            &nothing
        };
        assert(d@ == decoded_at(dv, i as int));
        match restore(g, d) {
            Ok(b) => {
                let ghost before = out@;
                out.extend_from_slice(b.as_slice());
                assert(out@ =~= before + b@);
            },
            Err(e) => {
                proof {
                    lemma_joined_fails(sv, dv, (i + 1) as nat, parsed.segments@.len());
                }
                return Err(e);
            },
        }
        i = i + 1;
    }
    if let Some(e) = &parsed.failure {
        return Err(e.as_str().to_string());
    }
    if out.len() as u64 != parsed.original_file_size {
        return Err(
            then_number(
                with_number("reconstructed size ", out.len() as u128, " != expected "),
                parsed.original_file_size as u128,
                "",
            ),
        );
    }
    Ok((out, DecompressionStats { original_size: parsed.original_file_size }))
}

/// What was decoded of the segments, that of the gaps filled in.
pub open spec fn with_gaps_decoded(
    segments: Seq<SegmentView>,
    decoded: Seq<DecodedView>,
) -> Seq<DecodedView> {
    Seq::new(
        segments.len(),
        |i: int|
            if segments[i].seg_type is Zstd {
                match with_context("zstd decompress: "@, zstd_content(segments[i].payload)) {
                    Ok(b) => DecodedView::Bytes(b),
                    Err(e) => DecodedView::Failed(e),
                }
            } else {
                decoded_at(decoded, i)
            },
    )
}

/// The file that is restored from a container, or why it cannot be. `decoded`
/// holds what was decoded of the segments with images and JPEGs.
pub open spec fn restored(cnef: Seq<u8>, decoded: Seq<DecodedView>) -> Result<Seq<u8>, Seq<char>> {
    let p = parsed(cnef);
    assembled(p, with_gaps_decoded(p.segments, decoded))
}

fn copy_decoded(d: &Decoded) -> (r: Decoded)
    ensures
        r@ == d@,
{
    match d {
        Decoded::Nothing => Decoded::Nothing,
        Decoded::Bytes(b) => Decoded::Bytes(slice_to_vec(b.as_slice())),
        Decoded::Pixels(p) => Decoded::Pixels(slice_to_vec(p.as_slice())),
        Decoded::Failed(e) => Decoded::Failed(e.as_str().to_string()),
    }
}

/// Puts a file together from its container. `decoded` holds, for every segment,
/// the image or the JPEG that its JPEG XL data was decoded to; what it holds for
/// a gap is not looked at, gaps are decompressed here.
pub fn decompress(parsed: &Parsed, decoded: &Vec<Decoded>) -> (r: Result<
    (Vec<u8>, DecompressionStats),
    String,
>)
    ensures
        match assembled(
            parsed@,
            with_gaps_decoded(segment_views(parsed.segments@), decoded_views(decoded@)),
        ) {
            Ok(out) => r is Ok && r->Ok_0.0@ == out && r->Ok_0.1.original_size
                == parsed.original_file_size,
            Err(e) => r is Err && r->Err_0@ == e,
        },
{
    let ghost sv = segment_views(parsed.segments@);
    let ghost dv = decoded_views(decoded@);
    let ghost all = with_gaps_decoded(sv, dv);
    let mut filled: Vec<Decoded> = Vec::new();
    let mut i: usize = 0;
    while i < parsed.segments.len()
        invariant
            sv == segment_views(parsed.segments@),
            dv == decoded_views(decoded@),
            all == with_gaps_decoded(sv, dv),
            0 <= i <= parsed.segments@.len(),
            decoded_views(filled@) == all.take(i as int),
        decreases parsed.segments@.len() - i,
    {
        let g = &parsed.segments[i];
        assert(sv[i as int] == g@);
        let d: Decoded = match g.seg_type {
            SegmentType::Zstd => match zstd_decompress(g.payload.as_slice()) {
                Ok(b) => Decoded::Bytes(b),
                Err(e) => Decoded::Failed(e),
            },
            _ => {
                if i < decoded.len() {
                    assert(dv[i as int] == decoded@[i as int]@);
                    copy_decoded(&decoded[i])
                } else {
                    Decoded::Nothing
                }
            },
        };
        proof {
            assert(d@ == all[i as int]);
            assert(decoded_views(filled@.push(d)) =~= decoded_views(filled@).push(d@));
            assert(all.take(i + 1) =~= all.take(i as int).push(all[i as int]));
        }
        filled.push(d);
        i = i + 1;
    }
    assert(all.take(all.len() as int) =~= all);
    assemble(parsed, &filled)
}

} // verus!
