//! What is refused, when, and in which words. Of several reasons the first in the order
//! given here is the one that is reported.

use crate::bits::bits_of;
use crate::cnef::{
    assembled, decoded_at, joined, piece_segments, progress, range_of, raw_piece, restored, sealed,
    segment_output, with_gaps, with_gaps_decoded, ContentView, DecodedView, PieceView, RawSource,
};
use crate::gap::{zstd_content, zstd_frame};
use crate::job::{common_len, lemma_common_len, source_of, strip_format, verified};
use crate::jxl::{image_size_message, unexpected_message};
use crate::nef::{
    blob_entry, exif_preview, inline_jpeg, is_jpeg_xs, lossless_meta, maker_note, nikon_meta,
    preview_of, scanned, see_directories, sub_directories, NefChunks, NikonLosslessMeta, RawStrip,
};
use crate::nikon_lossless::{decode_outcome, decoded, encoded, strip_code, Scheme};
use crate::packed::Layout;
use crate::region::Region;
use crate::roundtrip::{
    checked, compression_metadata, some_describes_strip, strict_blob, strict_meta, verdict,
};
use crate::segment::{magic, parsed, segment_at, ParsedView, SegmentView};
use crate::strip::reconstructed;
use crate::text::{decimal, hex};
use crate::tiff::{
    bytes_at, first_entry, header_at, jpeg_size, number16, number32, EntryView, TiffView,
};
use vstd::prelude::*;

verus! {

/// A refusal in the given words.
pub open spec fn refused<T>(r: Result<T, Seq<char>>, words: Seq<char>) -> bool {
    r == Err::<T, Seq<char>>(words)
}

proof fn lemma_nothing_more(s: Seq<char>)
    ensures
        s + ""@ == s,
{
    reveal_strlit("");
    assert(s + ""@ =~= s);
}

/// Encoding: the dimensions, the number of samples, a difference without a code.
pub proof fn lemma_encoding_refused(c: Scheme, height: nat, samples: Seq<u16>)
    ensures
        ({
            let r = strip_code(c, height, samples);
            if c.width == 0 || c.width % 2 == 1 || height == 0 {
                refused(r, "invalid dimensions "@ + decimal(c.width) + "x"@ + decimal(height))
            } else if samples.len() != c.width * height {
                refused(
                    r,
                    "pixel count mismatch: "@ + decimal(samples.len()) + " vs "@ + decimal(c.width)
                        + "x"@ + decimal(height),
                )
            } else {
                encoded(c, samples, samples.len()) matches Err(k) ==> refused(
                    r,
                    "Huffman: no code for difference category "@ + decimal(k),
                )
            }
        }),
{
    lemma_nothing_more("invalid dimensions "@ + decimal(c.width) + "x"@ + decimal(height));
    lemma_nothing_more(
        "pixel count mismatch: "@ + decimal(samples.len()) + " vs "@ + decimal(c.width) + "x"@
            + decimal(height),
    );
    if let Err(k) = encoded(c, samples, samples.len()) {
        lemma_nothing_more("Huffman: no code for difference category "@ + decimal(k));
    }
}

/// Decoding: the dimensions, then more bits than can be counted.
pub proof fn lemma_decoding_refused(c: Scheme, height: nat, data: Seq<u8>)
    ensures
        ({
            let r = decode_outcome(c, height, data);
            if c.width == 0 || c.width % 2 == 1 || height == 0 {
                refused(r, "invalid dimensions "@ + decimal(c.width) + "x"@ + decimal(height))
            } else {
                decoded(c, bits_of(data), c.width * height).1 > usize::MAX ==> refused(
                    r,
                    "raw image too large: "@ + decimal(c.width) + "x"@ + decimal(height),
                )
            }
        }),
{
    lemma_nothing_more("invalid dimensions "@ + decimal(c.width) + "x"@ + decimal(height));
    lemma_nothing_more("raw image too large: "@ + decimal(c.width) + "x"@ + decimal(height));
}

/// Making a strip again: what is refused of its samples, then a tail that is longer than
/// the strip.
pub proof fn lemma_strip_refused(
    c: Scheme,
    height: nat,
    samples: Seq<u16>,
    tail: Seq<u8>,
    needed: nat,
)
    ensures
        match strip_code(c, height, samples) {
            Err(e) => refused(reconstructed(c, height, samples, tail, needed), e),
            Ok(_) => tail.len() > needed ==> refused(
                reconstructed(c, height, samples, tail, needed),
                "raw strip tail longer than strip length"@,
            ),
        },
{
}

/// Formats of raw strips: JPEG XS, three bytes per pixel, then rows of unequal size.
pub proof fn lemma_format_refused(s: RawStrip)
    ensures
        ({
            let r = strip_format(s);
            if s.is_jpeg_xs {
                refused(
                    r,
                    "HE/HE* NEF not supported (HE/HE* already lossy encodes the raw with JPEG XS)"@,
                )
            } else if s.length == 3 * (s.width as int * s.height as int) {
                refused(r, "sNEF (YCbCr small RAW) not supported"@)
            } else {
                r is Err ==> refused(
                    r,
                    "uncompressed raw with irregular layout ("@ + decimal(s.length as nat)
                        + " bytes / "@ + decimal(s.height as nat) + " rows)"@,
                )
            }
        }),
{
}

/// The source of a raw strip: what is refused of its format, then what is refused of the
/// notes.
pub proof fn lemma_source_refused(data: Seq<u8>, chunks: NefChunks)
    ensures
        match strip_format(chunks.raw_strip) {
            Err(e) => refused(source_of(data, chunks), e),
            Ok(f) => f is Lossless ==> (lossless_meta(
                chunks.tiff_view,
                data,
                chunks.raw_strip.bits_per_sample,
            ) matches Err(e) ==> refused(
                source_of(data, chunks),
                "Nikon raw linearization metadata not found ("@ + e + ")"@,
            )),
        },
{
}

/// Headers: too short, a wrong byte order, a wrong number behind it.
pub proof fn lemma_header_refused(data: Seq<u8>, start: usize)
    ensures
        ({
            let r = header_at(data, start);
            if start + 8 > data.len() {
                refused(
                    r,
                    "TIFF: header read at "@ + decimal(start as nat)
                        + ": failed to fill whole buffer"@,
                )
            } else {
                let (a, b) = (data[start as int], data[start + 1]);
                if !(a == 0x49 && b == 0x49) && !(a == 0x4D && b == 0x4D) {
                    refused(
                        r,
                        "TIFF: bad endian mark ["@ + hex(a as nat, 2) + ", "@ + hex(b as nat, 2)
                            + "]"@,
                    )
                } else {
                    let n = number16(data, start + 2, a == 0x49);
                    n != 42 ==> refused(r, "TIFF: bad magic 0x"@ + hex(n as nat, 4))
                }
            }
        }),
{
    if start + 8 <= data.len() {
        let b = data.subrange(start as int, start + 8);
        assert(b[0] == data[start as int] && b[1] == data[start + 1]);
        assert(b.subrange(2, 4)[0] == data[start + 2] && b.subrange(2, 4)[1] == data[start + 3]);
    }
}

/// Directories: no count, more than 1024 entries, too few bytes for them.
pub proof fn lemma_directory_refused(view: TiffView, data: Seq<u8>, at: u32)
    ensures
        ({
            let r = view.ifd(data, at);
            let start = view.base + at;
            if start + 2 > data.len() {
                refused(
                    r,
                    "TIFF: IFD count read at "@ + decimal(start as nat)
                        + ": failed to fill whole buffer"@,
                )
            } else {
                let n = number16(data, start, view.little_endian);
                if n > 1024 {
                    refused(r, "TIFF: implausible IFD entry count "@ + decimal(n as nat))
                } else {
                    start + 2 + 12 * n > data.len() ==> refused(
                        r,
                        "TIFF: IFD entries read at "@ + decimal(start as nat)
                            + ": failed to fill whole buffer"@,
                    )
                }
            }
        }),
{
    let start = view.base + at;
    if start + 2 <= data.len() {
        let b = data.subrange(start, start + 2);
        assert(b[0] == data[start] && b[1] == data[start + 1]);
        let n = number16(data, start, view.little_endian);
        lemma_nothing_more("TIFF: implausible IFD entry count "@ + decimal(n as nat));
    }
}

/// Arrays of LONGs: another type, too few bytes.
pub proof fn lemma_longs_refused(view: TiffView, data: Seq<u8>, e: EntryView)
    requires
        e.value.len() == 4,
    ensures
        ({
            let r = view.longs(data, e);
            let start = view.base + number32(e.value, 0, view.little_endian);
            if e.field_type != 4 {
                refused(r, "TIFF: expected LONG type, got "@ + decimal(e.field_type as nat))
            } else {
                e.count > 1 && start + 4 * e.count > data.len() ==> refused(
                    r,
                    "TIFF: LONG array read at "@ + decimal(start as nat)
                        + ": failed to fill whole buffer"@,
                )
            }
        }),
{
    lemma_nothing_more("TIFF: expected LONG type, got "@ + decimal(e.field_type as nat));
    assert(view.u32_of(e.value) == number32(e.value, 0, view.little_endian));
}

/// Embedded JPEGs: too few bytes in the file, no start of image.
pub proof fn lemma_jpeg_refused(data: Seq<u8>, offset: nat, length: nat)
    ensures
        ({
            let r = jpeg_size(data, offset, length);
            let window = if length < 4096 {
                length
            } else {
                4096
            };
            if window > 0 && offset + window > data.len() {
                refused(
                    r,
                    "JPEG: read at "@ + decimal(offset) + ": failed to fill whole buffer"@,
                )
            } else {
                window < 4 || data[offset as int] != 0xFF || data[(offset + 1) as int] != 0xD8
                    ==> refused(r, "JPEG: no SOI at offset "@ + decimal(offset))
            }
        }),
{
    lemma_nothing_more("JPEG: no SOI at offset "@ + decimal(offset));
}

/// Files: what is refused of the header, the first directory, its thumbnail, the list of
/// sub-directories, the sub-directories and the preview image, in this order; then a
/// file without raw data.
pub proof fn lemma_scan_refused(data: Seq<u8>)
    ensures
        match header_at(data, 0) {
            Err(e) => refused(scanned(data), e),
            Ok((view, first)) => match view.ifd(data, first) {
                Err(e) => refused(scanned(data), e),
                Ok(ifd0) => match (
                    inline_jpeg(view, data, ifd0),
                    sub_directories(view, data, ifd0),
                ) {
                    (Err(e), _) => refused(scanned(data), e),
                    (Ok(_), Err(e)) => refused(scanned(data), e),
                    (Ok(_), Ok(offsets)) => match (
                        see_directories(view, data, offsets, offsets.len()),
                        exif_preview(view, data, ifd0),
                    ) {
                        (Err(e), _) => refused(scanned(data), e),
                        (Ok(_), Err(e)) => refused(scanned(data), e),
                        (Ok(found), Ok(_)) => found.raw_strip is None ==> refused(
                            scanned(data),
                            "NEF: no raw data strip found"@,
                        ),
                    },
                },
            },
        },
{
}

/// Raw strips of less than four bytes, and pointers to the EXIF and the preview directory
/// that are no single number.
pub proof fn lemma_pointer_refused(
    view: TiffView,
    data: Seq<u8>,
    entries: Seq<EntryView>,
    offset: u64,
)
    ensures
        offset + 4 > data.len() ==> refused(
            is_jpeg_xs(data, offset),
            "read strip header: failed to fill whole buffer"@,
        ),
        first_entry(entries, 34665) is Some && view.tag_scalar(entries, 34665) is None ==> refused(
            exif_preview(view, data, entries),
            "ExifIFD pointer not scalar"@,
        ),
        first_entry(entries, 17) is Some && view.tag_scalar(entries, 17) is None ==> refused(
            preview_of(view, data, entries),
            "Nikon PreviewIFD pointer not scalar"@,
        ),
{
}

/// The notes of the camera: no EXIF directory, a pointer to it that is no number, no
/// MakerNote, too few bytes, another maker's note, no blob, a blob of at most four bytes,
/// one of less than ten.
#[verifier::spinoff_prover]
pub proof fn lemma_notes_refused(view: TiffView, data: Seq<u8>, ifd0: Seq<EntryView>, first: u32)
    requires
        header_at(data, 0) is Ok,
        header_at(data, 0)->Ok_0.1 == first,
        view.ifd(data, first) == Ok::<Seq<EntryView>, Seq<char>>(ifd0),
    ensures
        first_entry(ifd0, 34665) is None ==> refused(maker_note(view, data), "no ExifIFD"@),
        first_entry(ifd0, 34665) is Some && view.tag_scalar(ifd0, 34665) is None ==> refused(
            maker_note(view, data),
            "ExifIFD not scalar"@,
        ),
        view.tag_scalar(ifd0, 34665) matches Some(offset) ==> match view.ifd(data, offset) {
            Err(e) => refused(maker_note(view, data), e),
            Ok(exif) => match first_entry(exif, 37500) {
                None => refused(maker_note(view, data), "no MakerNote"@),
                Some(note) => note.value.len() == 4 ==> {
                    let at = view.base + number32(note.value, 0, view.little_endian);
                    if at + 10 > data.len() {
                        refused(
                            maker_note(view, data),
                            "read MakerNote header: failed to fill whole buffer"@,
                        )
                    } else {
                        !(data[at] == 0x4E && data[at + 1] == 0x69 && data[at + 2] == 0x6B
                            && data[at + 3] == 0x6F && data[at + 4] == 0x6E && data[at + 5] == 0)
                            ==> refused(maker_note(view, data), "not a Nikon MakerNote"@)
                    }
                },
            },
        },
{
    if let Some(offset) = view.tag_scalar(ifd0, 34665) {
        if let Ok(exif) = view.ifd(data, offset) {
            if let Some(note) = first_entry(exif, 37500) {
                if note.value.len() == 4 {
                    let at = view.base + number32(note.value, 0, view.little_endian);
                    assert(view.u32_of(note.value) == number32(
                        note.value,
                        0,
                        view.little_endian,
                    ));
                    if at + 10 <= data.len() {
                        let b = data.subrange(at, at + 10);
                        assert(bytes_at(data, at, 10) == Some(b));
                        assert(forall|i: int| 0 <= i < 6 ==> b[i] == data[at + i]);
                        assert(b[0] == data[at] && b[1] == data[at + 1] && b[2] == data[at + 2]
                            && b[3] == data[at + 3] && b[4] == data[at + 4] && b[5] == data[at
                            + 5]);
                    }
                }
            }
        }
    }
}

/// The blob of the notes.
pub proof fn lemma_blob_refused(view: TiffView, data: Seq<u8>, bps: u32, meta: Seq<u8>)
    ensures
        meta.len() < 10 ==> refused(nikon_meta(view, meta, bps), "NefMeta too short"@),
        meta.len() < 10 ==> refused(strict_meta(view, meta, bps), "NefMeta too short"@),
        10 <= meta.len() < 2120 && (meta[0] == 0x49 || meta[1] == 0x58) ==> refused(
            strict_meta(view, meta, bps),
            "NefMeta: predictor data truncated"@,
        ),
        match maker_note(view, data) {
            Err(e) => refused(lossless_meta(view, data, bps), e),
            Ok((embedded, nikon)) => {
                let e = if first_entry(nikon, 150) is Some {
                    first_entry(nikon, 150)
                } else {
                    first_entry(nikon, 140)
                };
                if e is None {
                    refused(lossless_meta(view, data, bps), "no NefMeta tag"@)
                } else if e->Some_0.size() <= 4 {
                    refused(lossless_meta(view, data, bps), "NefMeta too small"@)
                } else {
                    let at = embedded.base + number32(e->Some_0.value, 0, embedded.little_endian);
                    e->Some_0.value.len() == 4 && at + e->Some_0.size() > data.len() ==> refused(
                        lossless_meta(view, data, bps),
                        "TIFF: read "@ + decimal(e->Some_0.size()) + " bytes at "@ + decimal(
                            at as nat,
                        ) + ": failed to fill whole buffer"@,
                    )
                }
            },
        },
{
    if let Ok((embedded, nikon)) = maker_note(view, data) {
        if let Some(e) = blob_entry(nikon) {
            if e.value.len() == 4 {
                assert(embedded.u32_of(e.value) == number32(e.value, 0, embedded.little_endian));
            }
        }
    }
}

/// Strips that make no piece: in Nikon's format the dimensions, too many samples, a strip
/// that is not made again; uncompressed a layout that is not known, too many samples, a
/// strip that is not made again.
pub proof fn lemma_piece_refused(raw: Seq<u8>, strip: RawStrip, m: NikonLosslessMeta)
    ensures
        ({
            let (w, h) = (strip.width as nat, strip.height as nat);
            let r = raw_piece(raw, strip, RawSource::Lossless(m));
            if w == 0 || w % 2 == 1 || h == 0 {
                refused(r, "invalid dimensions "@ + decimal(w) + "x"@ + decimal(h))
            } else if 2 * (w * h) > isize::MAX {
                refused(r, "raw image too large: "@ + decimal(w) + "x"@ + decimal(h))
            } else {
                r is Err ==> refused(
                    r,
                    "unsupported Nikon lossless variant (raw strip does not round-trip)"@,
                )
            }
        }),
        ({
            let (w, h) = (strip.width as nat, strip.height as nat);
            let r = raw_piece(raw, strip, RawSource::Uncompressed);
            if Layout::detected(raw.len(), w, h, strip.bits_per_sample) is None {
                refused(r, "uncompressed raw: irregular row layout"@)
            } else if 2 * (w * h) > isize::MAX {
                refused(r, "raw image too large: "@ + decimal(w) + "x"@ + decimal(h))
            } else {
                r is Err ==> refused(
                    r,
                    "uncompressed raw does not repack exactly (non-zero padding?)"@,
                )
            }
        }),
{
    let (w, h) = (strip.width as nat, strip.height as nat);
    lemma_nothing_more("invalid dimensions "@ + decimal(w) + "x"@ + decimal(h));
    lemma_nothing_more("raw image too large: "@ + decimal(w) + "x"@ + decimal(h));
}

/// Ranges of the file that go over its end.
pub proof fn lemma_range_refused(nef: Seq<u8>, offset: nat, length: nat)
    ensures
        length == 0 ==> range_of(nef, offset, length) == Ok::<Seq<u8>, Seq<char>>(Seq::empty()),
        length > 0 && offset + length <= nef.len() ==> range_of(nef, offset, length) == Ok::<
            Seq<u8>,
            Seq<char>,
        >(nef.subrange(offset as int, (offset + length) as int)),
        length > 0 && offset + length > nef.len() ==> refused(
            range_of(nef, offset, length),
            "read "@ + decimal(length) + " bytes at "@ + decimal(offset)
                + ": failed to fill whole buffer"@,
        ),
{
}

/// Containers: too short, not one, of another version.
pub proof fn lemma_container_refused(input: Seq<u8>)
    ensures
        ({
            let f = parsed(input).failure;
            let short = Some("read error: failed to fill whole buffer"@);
            if input.len() < 4 {
                f == short
            } else if !(input[0] == 67 && input[1] == 78 && input[2] == 69 && input[3] == 70) {
                f == Some(
                    "not a CNEF file (magic: ["@ + decimal(input[0] as nat) + ", "@ + decimal(
                        input[1] as nat,
                    ) + ", "@ + decimal(input[2] as nat) + ", "@ + decimal(input[3] as nat)
                        + "])"@,
                )
            } else if input.len() < 5 {
                f == short
            } else if input[4] != 1 {
                f == Some("unsupported CNEF version "@ + decimal(input[4] as nat))
            } else {
                input.len() < 17 ==> f == short
            }
        }),
        input.len() < 17 || input[4] != 1 ==> parsed(input).segments.len() == 0,
{
    if input.len() >= 4 {
        let m = input.take(4);
        let letters = magic();
        if input[0] == 67 && input[1] == 78 && input[2] == 69 && input[3] == 70 {
            assert(m =~= letters);
        } else if m == letters {
            assert(m[0] == 67 && m[1] == 78 && m[2] == 69 && m[3] == 70);
        }
        if input.len() >= 5 {
            lemma_nothing_more("unsupported CNEF version "@ + decimal(input[4] as nat));
        }
    }
}

/// Segments: none where the input has ended, one of an unknown type, one that goes over
/// the end of the input.
pub proof fn lemma_segment_refused(input: Seq<u8>, at: int)
    requires
        0 <= at,
    ensures
        ({
            let r = segment_at(input, at);
            if at >= input.len() {
                refused(r, "read error: failed to fill whole buffer"@)
            } else if input[at] == 0 || input[at] > 5 {
                refused(r, "unknown segment type "@ + decimal(input[at] as nat))
            } else {
                r is Err ==> refused(r, "read error: failed to fill whole buffer"@)
            }
        }),
{
    if at < input.len() {
        lemma_nothing_more("unknown segment type "@ + decimal(input[at] as nat));
    }
}

/// Segments that are not restored. A segment for which nothing was decoded is refused, and
/// one that could not be decoded with the reason that was given; a JPEG of another length;
/// a biased strip without its bias; tables that do not exist; a layout that is not known;
/// too few samples.
pub proof fn lemma_output_refused(g: SegmentView, d: DecodedView)
    ensures
        ({
            let r = segment_output(g, d);
            let raw = !(g.seg_type is Zstd) && !(g.seg_type is JpegJxl);
            let short = g.seg_type is RawPixelsBiasedJxl && g.payload.len() < 4;
            &&& raw && g.raw_meta is None ==> refused(r, "segment not decoded"@)
            &&& g.raw_meta is Some && short ==> refused(
                r,
                "biased raw segment: payload too short"@,
            )
            &&& (!raw || g.raw_meta is Some && !short) ==> {
                &&& d is Nothing ==> refused(r, "segment not decoded"@)
                &&& d matches DecodedView::Failed(e) ==> refused(r, e)
                &&& raw && d is Bytes ==> refused(r, "segment not decoded"@)
                &&& !raw && d is Pixels ==> refused(r, "segment not decoded"@)
            }
            &&& g.seg_type is JpegJxl ==> (d matches DecodedView::Bytes(b) ==> b.len()
                != g.original_length ==> refused(
                r,
                "JPEG reconstruction size "@ + decimal(b.len()) + " != expected "@ + decimal(
                    g.original_length,
                ),
            ))
        }),
{
    if let DecodedView::Bytes(b) = d {
        lemma_nothing_more(
            "JPEG reconstruction size "@ + decimal(b.len()) + " != expected "@ + decimal(
                g.original_length,
            ),
        );
    }
}

/// Raw segments that are not restored from their images.
pub proof fn lemma_image_refused(g: SegmentView, px: Seq<u16>)
    requires
        g.raw_meta is Some,
        g.original_length <= usize::MAX,
    ensures
        ({
            let r = segment_output(g, DecodedView::Pixels(px));
            let m = g.raw_meta->Some_0;
            let (w, h) = (m.width, m.height);
            &&& g.seg_type is RawPixelsJxl && w > 0 && w % 2 == 0 && h > 0 && px.len() == w * h && (
            m.huff_select >= 6 || (0 < m.split_row < h && m.huff_select == 5)) ==> refused(
                r,
                "invalid Huffman table "@ + decimal(m.huff_select),
            )
            &&& g.seg_type is RawUncompressedJxl ==> {
                let l = Layout::detected(g.original_length, w, h, m.bits_per_sample as u32);
                if l is None {
                    refused(r, "uncompressed segment: irregular row layout"@)
                } else {
                    px.len() < w * h ==> refused(
                        r,
                        "pixel count mismatch: "@ + decimal(px.len()) + " vs "@ + decimal(w) + "x"@
                            + decimal(h),
                    )
                }
            }
        }),
{
    let m = g.raw_meta->Some_0;
    lemma_nothing_more("invalid Huffman table "@ + decimal(m.huff_select));
    lemma_nothing_more(
        "pixel count mismatch: "@ + decimal(px.len()) + " vs "@ + decimal(m.width) + "x"@ + decimal(
            m.height,
        ),
    );
}

/// Files that are not restored: the first segment that is not, then what cannot be read of
/// the container, then another size than the one noted.
pub proof fn lemma_file_refused(p: ParsedView, decoded: Seq<DecodedView>)
    ensures
        match joined(p.segments, decoded, p.segments.len()) {
            Err(e) => refused(assembled(p, decoded), e),
            Ok(out) => match p.failure {
                Some(e) => refused(assembled(p, decoded), e),
                None => out.len() != p.original_file_size ==> refused(
                    assembled(p, decoded),
                    "reconstructed size "@ + decimal(out.len()) + " != expected "@ + decimal(
                        p.original_file_size,
                    ),
                ),
            },
        },
{
    if let Ok(out) = joined(p.segments, decoded, p.segments.len()) {
        lemma_nothing_more(
            "reconstructed size "@ + decimal(out.len()) + " != expected "@ + decimal(
                p.original_file_size,
            ),
        );
    }
}

/// Strips that do not come back: the first byte in which both differ, or a longer end that
/// is not zero.
pub proof fn lemma_verdict_refused(a: Seq<u8>, b: Seq<u8>, at: nat)
    ensures
        at < a.len() && at < b.len() && a.take(at as int) == b.take(at as int) && a[at as int]
            != b[at as int] ==> refused(
            verdict(a, b),
            "bitstream mismatch at byte "@ + decimal(at),
        ),
        verdict(a, b) is Err && (forall|i: int| 0 <= i < a.len() && i < b.len() ==> a[i] == b[i])
            ==> refused(
            verdict(a, b),
            "length mismatch: original="@ + decimal(a.len()) + " re-encoded="@ + decimal(b.len())
                + " (non-zero trailing bytes)"@,
        ),
{
    lemma_common_len(a, b);
    let n = common_len(a, b) as int;
    lemma_nothing_more("bitstream mismatch at byte "@ + decimal(at));
    if at < a.len() && at < b.len() && a.take(at as int) == b.take(at as int) && a[at as int]
        != b[at as int] {
        if n < at {
            assert(a.take(at as int)[n] == b.take(at as int)[n]);
        } else if n > at {
            assert(a.take(n)[at as int] == b.take(n)[at as int]);
        }
        assert(n == at);
    }
}

/// Checks of the codec that fail before it is run.
pub proof fn lemma_check_refused(data: Seq<u8>, chunks: NefChunks)
    requires
        chunks.raw_strip.compression == 34713,
    ensures
        ({
            let s = chunks.raw_strip;
            let (w, h) = (s.width as nat, s.height as nat);
            match compression_metadata(data, chunks) {
                Err(e) => refused(checked(data, chunks), e),
                Ok(_) => if s.length > 0 && s.offset + s.length > data.len() {
                    refused(checked(data, chunks), "read raw: failed to fill whole buffer"@)
                } else if w == 0 || w % 2 == 1 || h == 0 {
                    refused(
                        checked(data, chunks),
                        "invalid dimensions "@ + decimal(w) + "x"@ + decimal(h),
                    )
                } else {
                    2 * (w * h) > isize::MAX ==> refused(
                        checked(data, chunks),
                        "raw image too large: "@ + decimal(w) + "x"@ + decimal(h),
                    )
                },
            }
        }),
{
    let (w, h) = (chunks.raw_strip.width as nat, chunks.raw_strip.height as nat);
    lemma_nothing_more("invalid dimensions "@ + decimal(w) + "x"@ + decimal(h));
    lemma_nothing_more("raw image too large: "@ + decimal(w) + "x"@ + decimal(h));
}

/// Files whose notes are not found by the check.
pub proof fn lemma_check_notes_refused(data: Seq<u8>, chunks: NefChunks, ifd0: Seq<EntryView>)
    requires
        header_at(data, 0) is Ok,
        chunks.tiff_view.ifd(data, header_at(data, 0)->Ok_0.1) == Ok::<Seq<EntryView>, Seq<char>>(
            ifd0,
        ),
    ensures
        ({
            let view = chunks.tiff_view;
            let r = compression_metadata(data, chunks);
            match first_entry(ifd0, 330) {
                None => refused(r, "no SubIFDs"@),
                Some(e) => match view.longs(data, e) {
                    Err(m) => refused(r, m),
                    Ok(offsets) => if !some_describes_strip(
                        view,
                        data,
                        offsets,
                        chunks.raw_strip,
                    ) {
                        refused(r, "no Nikon lossless compressed SubIFD found"@)
                    } else {
                        r == strict_blob(view, data, ifd0, chunks.raw_strip.bits_per_sample)
                    },
                },
            }
        }),
{
}

/// Plans that are not sealed: the first piece that was not encoded, then what is refused of
/// the plan itself.
pub proof fn lemma_seal_refused(
    pieces: Seq<PieceView>,
    failure: Option<Seq<char>>,
    outcomes: Seq<Result<Seq<u8>, Seq<char>>>,
    k: int,
)
    requires
        0 <= k <= pieces.len(),
        k <= outcomes.len(),
        forall|i: int| 0 <= i < k ==> #[trigger] outcomes[i] is Ok,
    ensures
        k < pieces.len() && k < outcomes.len() && outcomes[k] is Err ==> refused(
            sealed(pieces, failure, outcomes),
            outcomes[k]->Err_0,
        ),
        k < pieces.len() && k == outcomes.len() ==> refused(
            sealed(pieces, failure, outcomes),
            "segment not encoded"@,
        ),
        k == pieces.len() ==> (failure matches Some(e) ==> refused(
            sealed(pieces, failure, outcomes),
            e,
        )),
{
    lemma_encoded_so_far(pieces, outcomes, k as nat);
    if k < pieces.len() && (k == outcomes.len() || outcomes[k] is Err) {
        lemma_stays_refused(pieces, outcomes, (k + 1) as nat, pieces.len());
    }
}

proof fn lemma_encoded_so_far(
    pieces: Seq<PieceView>,
    outcomes: Seq<Result<Seq<u8>, Seq<char>>>,
    n: nat,
)
    requires
        n <= outcomes.len(),
        forall|i: int| 0 <= i < n ==> #[trigger] outcomes[i] is Ok,
    ensures
        piece_segments(pieces, outcomes, n) is Ok,
    decreases n,
{
    if n > 0 {
        lemma_encoded_so_far(pieces, outcomes, (n - 1) as nat);
        assert(outcomes[n - 1] is Ok);
    }
}

proof fn lemma_stays_refused(
    pieces: Seq<PieceView>,
    outcomes: Seq<Result<Seq<u8>, Seq<char>>>,
    m: nat,
    n: nat,
)
    requires
        m <= n,
        piece_segments(pieces, outcomes, m) is Err,
    ensures
        piece_segments(pieces, outcomes, n) == piece_segments(pieces, outcomes, m),
    decreases n,
{
    if m < n {
        lemma_stays_refused(pieces, outcomes, m, (n - 1) as nat);
    }
}

/// Segments that are not restored: the first of them is reported.
pub proof fn lemma_first_refused(
    segments: Seq<SegmentView>,
    decoded: Seq<DecodedView>,
    k: nat,
    n: nat,
)
    requires
        k < n <= segments.len(),
        n <= decoded.len(),
        forall|i: int|
            0 <= i < k ==> segment_output(segments[i], #[trigger] decoded[i]) is Ok,
        segment_output(segments[k as int], decoded[k as int]) is Err,
    ensures
        refused(
            joined(segments, decoded, n),
            segment_output(segments[k as int], decoded[k as int])->Err_0,
        ),
    decreases n,
{
    if k + 1 < n {
        lemma_first_refused(segments, decoded, k, (n - 1) as nat);
    } else {
        lemma_restored_so_far(segments, decoded, k);
        assert(decoded_at(decoded, k as int) == decoded[k as int]);
    }
}

proof fn lemma_restored_so_far(segments: Seq<SegmentView>, decoded: Seq<DecodedView>, n: nat)
    requires
        n <= decoded.len(),
        forall|i: int|
            0 <= i < n ==> segment_output(segments[i], #[trigger] decoded[i]) is Ok,
    ensures
        joined(segments, decoded, n) is Ok,
    decreases n,
{
    if n > 0 {
        lemma_restored_so_far(segments, decoded, (n - 1) as nat);
        let d = decoded[n - 1];
        assert(segment_output(segments[n - 1], d) is Ok);
        assert(decoded_at(decoded, n - 1) == d);
    }
}

/// Regions that end a plan: one whose gap in front, whose own bytes or whose strip is
/// refused. The pieces in front of it stay.
pub proof fn lemma_region_refused(
    nef: Seq<u8>,
    strip: RawStrip,
    source: RawSource,
    regions: Seq<Region>,
    n: nat,
)
    requires
        n < regions.len(),
        progress(nef, strip, source, regions, n).failure is None,
    ensures
        ({
            let p = progress(nef, strip, source, regions, n);
            let q = progress(nef, strip, source, regions, n + 1);
            let r = regions[n as int];
            let (start, end) = (r.offset as int, r.offset + r.length);
            if p.pos < start && start > nef.len() {
                &&& q.pieces == p.pieces
                &&& q.failure == Some(
                    "read "@ + decimal((start - p.pos) as nat) + " bytes at "@ + decimal(p.pos)
                        + ": failed to fill whole buffer"@,
                )
            } else if r.length > 0 && end > nef.len() {
                &&& q.failure == Some(
                    "read "@ + decimal(r.length as nat) + " bytes at "@ + decimal(r.offset as nat)
                        + ": failed to fill whole buffer"@,
                )
            } else {
                let data = if r.length == 0 {
                    Seq::empty()
                } else {
                    nef.subrange(start, end)
                };
                &&& r.kind is Jpeg ==> q.failure is None
                &&& r.kind is RawStrip ==> match raw_piece(data, strip, source) {
                    Ok(_) => q.failure is None,
                    Err(e) => q.failure == Some(e),
                }
            }
        }),
{
}

/// Gaps that are not compressed or not given back, with the reason that was given.
pub proof fn lemma_gap_refused(
    pieces: Seq<PieceView>,
    outcomes: Seq<Result<Seq<u8>, Seq<char>>>,
    segments: Seq<SegmentView>,
    decoded: Seq<DecodedView>,
    i: int,
)
    ensures
        0 <= i < pieces.len() && pieces[i].seg_type is Zstd ==> (
        pieces[i].content matches ContentView::Bytes(b) ==> (zstd_frame(b, 19) matches Err(e)
            ==> refused(with_gaps(pieces, outcomes)[i], "zstd compress: "@ + e))),
        0 <= i < pieces.len() && !(pieces[i].seg_type is Zstd) && i >= outcomes.len() ==> refused(
            with_gaps(pieces, outcomes)[i],
            "segment not encoded"@,
        ),
        0 <= i < segments.len() && segments[i].seg_type is Zstd ==> (zstd_content(
            segments[i].payload,
        ) matches Err(e) ==> with_gaps_decoded(segments, decoded)[i] == DecodedView::Failed(
            "zstd decompress: "@ + e,
        )),
{
}

/// Containers that do not give the original back: what is refused of the container, then the
/// length of the common start, both lengths behind it.
#[verifier::spinoff_prover]
pub proof fn lemma_verification_refused(
    cnef: Seq<u8>,
    decoded: Seq<DecodedView>,
    original: Seq<u8>,
    at: nat,
)
    ensures
        match restored(cnef, decoded) {
            Err(e) => refused(verified(cnef, decoded, original), e),
            Ok(again) => {
                let words = "verification failed: mismatch at byte "@ + decimal(at) + " (original "@
                    + decimal(original.len()) + " bytes, reconstructed "@ + decimal(again.len())
                    + " bytes)"@;
                &&& at < original.len() && at < again.len() && original[at as int]
                    != again[at as int] && original.take(at as int) == again.take(at as int)
                    ==> refused(verified(cnef, decoded, original), words)
                &&& at == original.len() && at < again.len() && again.take(at as int) == original
                    ==> refused(verified(cnef, decoded, original), words)
                &&& at == again.len() && at < original.len() && original.take(at as int) == again
                    ==> refused(verified(cnef, decoded, original), words)
            },
        },
{
    if let Ok(again) = restored(cnef, decoded) {
        lemma_common_len(original, again);
        let n = common_len(original, again) as int;
        let a = at as int;
        if a <= original.len() && a <= again.len() && original.take(a) == again.take(a) && n < a {
            assert(original.take(a)[n] == again.take(a)[n]);
        }
        if a < original.len() && a < again.len() && n > a {
            assert(original.take(n)[a] == again.take(n)[a]);
        }
        assert(original.take(original.len() as int) =~= original);
        assert(again.take(again.len() as int) =~= again);
    }
}

/// Images of another size than the expected one.
pub proof fn lemma_image_size_words(width: nat, height: nat, w: nat, h: nat, name: Seq<char>)
    ensures
        image_size_message(width, height, w, h) == "JXL image size "@ + decimal(width) + "x"@
            + decimal(height) + " != expected "@ + decimal(w) + "x"@ + decimal(h),
        unexpected_message(name) == "JXL decoder unexpected status: "@ + name,
{
    lemma_nothing_more(
        "JXL image size "@ + decimal(width) + "x"@ + decimal(height) + " != expected "@ + decimal(w)
            + "x"@ + decimal(h),
    );
}

} // verus!
