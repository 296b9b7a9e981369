//! What a scan of a NEF finds, in terms of the numbers in its directories.

use crate::nef::{
    blob_entry, exif_preview, inline_jpeg, is_jpeg_xs, lossless_meta, maker_note, maker_note_in,
    nikon_meta, preview_image, preview_of, scanned, see_directories, see_directory, sub_directories,
    Found, JpegLabel,
};
use crate::tiff::{
    bytes_at, first_entry, header_at, jpeg_size, number16, number32, EmbeddedJpeg, EntryView,
    TiffView,
};
use vstd::prelude::*;

verus! {

/// The number of the first entry with a tag, or a default where there is none.
pub open spec fn number_or(view: TiffView, entries: Seq<EntryView>, tag: u16, default: int) -> int {
    match view.tag_scalar(entries, tag) {
        Some(v) => v as int,
        None => default,
    }
}

/// The sub-directory at `offset` can be read and describes raw data: its compression,
/// tag 259, is 1 or 34713, and the length of its strip, tag 279, is not zero.
pub open spec fn is_raw_directory(view: TiffView, data: Seq<u8>, offset: u32) -> bool {
    &&& view.ifd(data, offset) is Ok
    &&& {
        let entries = view.ifd(data, offset)->Ok_0;
        let compression = number_or(view, entries, 259, 1);
        (compression == 1 || compression == 34713) && number_or(view, entries, 279, 0) > 0
    }
}

/// The width, tag 256, times the height, tag 257, of the sub-directory at `offset`.
pub open spec fn directory_area(view: TiffView, data: Seq<u8>, offset: u32) -> int {
    let entries = view.ifd(data, offset)->Ok_0;
    number_or(view, entries, 256, 0) * number_or(view, entries, 257, 0)
}

/// The sub-directory at `offset` can be read and describes a JPEG: its compression is
/// 6 or 7, and it points to one.
pub open spec fn is_jpeg_directory(view: TiffView, data: Seq<u8>, offset: u32) -> bool {
    &&& view.ifd(data, offset) is Ok
    &&& {
        let entries = view.ifd(data, offset)->Ok_0;
        let compression = number_or(view, entries, 259, 1);
        &&& compression == 6 || compression == 7
        &&& inline_jpeg(view, data, entries) is Ok
        &&& inline_jpeg(view, data, entries)->Ok_0 is Some
    }
}

/// The JPEG that the sub-directory at `offset` points to.
pub open spec fn directory_jpeg(view: TiffView, data: Seq<u8>, offset: u32) -> EmbeddedJpeg {
    inline_jpeg(view, data, view.ifd(data, offset)->Ok_0)->Ok_0->Some_0
}

/// One sub-directory more: what it adds.
proof fn lemma_seen(view: TiffView, data: Seq<u8>, found: Found, offset: u32)
    requires
        see_directory(view, data, found, offset) is Ok,
    ensures
        ({
            let next = see_directory(view, data, found, offset)->Ok_0;
            let entries = view.ifd(data, offset)->Ok_0;
            &&& {
                if is_raw_directory(view, data, offset) && (found.raw_strip matches Some(r)
                    ==> directory_area(view, data, offset) > r.width * r.height) {
                    &&& next.raw_strip is Some
                    &&& next.raw_strip->Some_0.offset == number_or(view, entries, 273, 0)
                    &&& next.raw_strip->Some_0.length == number_or(view, entries, 279, 0)
                    &&& next.raw_strip->Some_0.width == number_or(view, entries, 256, 0)
                    &&& next.raw_strip->Some_0.height == number_or(view, entries, 257, 0)
                    &&& next.raw_strip->Some_0.bits_per_sample == number_or(view, entries, 258, 14)
                    &&& next.raw_strip->Some_0.compression == number_or(view, entries, 259, 1)
                    &&& is_jpeg_xs(data, next.raw_strip->Some_0.offset) == Ok::<bool, Seq<char>>(
                        next.raw_strip->Some_0.is_jpeg_xs,
                    )
                } else {
                    next.raw_strip == found.raw_strip
                }
            }
            &&& {
                if is_jpeg_directory(view, data, offset) && (found.jpeg matches Some(b)
                    ==> directory_jpeg(view, data, offset).width * directory_jpeg(
                    view,
                    data,
                    offset,
                ).height > b.width * b.height) {
                    let j = directory_jpeg(view, data, offset);
                    &&& next.jpeg is Some
                    &&& next.jpeg->Some_0.offset == j.offset
                    &&& next.jpeg->Some_0.length == j.length
                    &&& next.jpeg->Some_0.width == j.width
                    &&& next.jpeg->Some_0.height == j.height
                    &&& next.jpeg->Some_0.label is JpgFromRaw
                } else {
                    next.jpeg == found.jpeg
                }
            }
        }),
{
}

/// The raw strip that is found is that of a raw sub-directory of the greatest area,
/// the first of several, with the numbers of that directory: 14 bits where it
/// gives no bit depth. None is found exactly if no sub-directory is raw.
#[verifier::spinoff_prover]
pub proof fn lemma_raw_strip_found(view: TiffView, data: Seq<u8>, offsets: Seq<u32>, n: nat) -> (
    k: int)
    requires
        n <= offsets.len(),
        see_directories(view, data, offsets, n) is Ok,
    ensures
        ({
            let found = see_directories(view, data, offsets, n)->Ok_0.raw_strip;
            &&& found is None ==> forall|i: int|
                0 <= i < n ==> !is_raw_directory(view, data, #[trigger] offsets[i])
            &&& found matches Some(r) ==> {
                let entries = view.ifd(data, offsets[k])->Ok_0;
                &&& 0 <= k < n
                &&& is_raw_directory(view, data, offsets[k])
                &&& r.width * r.height == directory_area(view, data, offsets[k])
                &&& forall|i: int|
                    0 <= i < n && is_raw_directory(view, data, #[trigger] offsets[i])
                        ==> directory_area(view, data, offsets[i]) <= r.width * r.height
                &&& forall|i: int|
                    0 <= i < k && is_raw_directory(view, data, #[trigger] offsets[i])
                        ==> directory_area(view, data, offsets[i]) < r.width * r.height
                &&& r.offset == number_or(view, entries, 273, 0)
                &&& r.length == number_or(view, entries, 279, 0)
                &&& r.width == number_or(view, entries, 256, 0)
                &&& r.height == number_or(view, entries, 257, 0)
                &&& r.bits_per_sample == number_or(view, entries, 258, 14)
                &&& r.compression == number_or(view, entries, 259, 1)
                &&& is_jpeg_xs(data, r.offset) == Ok::<bool, Seq<char>>(r.is_jpeg_xs)
            }
        }),
    decreases n,
{
    if n == 0 {
        0
    } else {
        let m = (n - 1) as nat;
        let j = lemma_raw_strip_found(view, data, offsets, m);
        let before = see_directories(view, data, offsets, m)->Ok_0;
        let at = offsets[m as int];
        lemma_seen(view, data, before, at);
        if is_raw_directory(view, data, at) && (before.raw_strip matches Some(r)
            ==> directory_area(view, data, at) > r.width * r.height) {
            m as int
        } else {
            j
        }
    }
}

/// The JPEG that is found in the sub-directories is the one of the greatest area, the
/// first of several. None is found exactly if no sub-directory has one.
#[verifier::spinoff_prover]
pub proof fn lemma_jpeg_found(view: TiffView, data: Seq<u8>, offsets: Seq<u32>, n: nat) -> (k: int)
    requires
        n <= offsets.len(),
        see_directories(view, data, offsets, n) is Ok,
    ensures
        ({
            let found = see_directories(view, data, offsets, n)->Ok_0.jpeg;
            &&& found is None ==> forall|i: int|
                0 <= i < n ==> !is_jpeg_directory(view, data, #[trigger] offsets[i])
            &&& found matches Some(c) ==> {
                let j = directory_jpeg(view, data, offsets[k]);
                &&& 0 <= k < n
                &&& is_jpeg_directory(view, data, offsets[k])
                &&& c.offset == j.offset && c.length == j.length
                &&& c.width == j.width && c.height == j.height
                &&& c.label is JpgFromRaw
                &&& forall|i: int|
                    0 <= i < n && is_jpeg_directory(view, data, #[trigger] offsets[i])
                        ==> directory_jpeg(view, data, offsets[i]).width * directory_jpeg(
                        view,
                        data,
                        offsets[i],
                    ).height <= c.width * c.height
                &&& forall|i: int|
                    0 <= i < k && is_jpeg_directory(view, data, #[trigger] offsets[i])
                        ==> directory_jpeg(view, data, offsets[i]).width * directory_jpeg(
                        view,
                        data,
                        offsets[i],
                    ).height < c.width * c.height
            }
        }),
    decreases n,
{
    if n == 0 {
        0
    } else {
        let m = (n - 1) as nat;
        let j = lemma_jpeg_found(view, data, offsets, m);
        let before = see_directories(view, data, offsets, m)->Ok_0;
        let at = offsets[m as int];
        lemma_seen(view, data, before, at);
        if is_jpeg_directory(view, data, at) && (before.jpeg matches Some(b) ==> directory_jpeg(
            view,
            data,
            at,
        ).width * directory_jpeg(view, data, at).height > b.width * b.height) {
            m as int
        } else {
            j
        }
    }
}

/// A directory points to a JPEG by tags 513 and 514: its place, counted from the start
/// of the structure, and its length, which is not zero. The size is that of its frame.
pub proof fn lemma_inline_jpeg(view: TiffView, data: Seq<u8>, entries: Seq<EntryView>)
    ensures
        ({
            let offset = view.tag_scalar(entries, 513);
            let length = view.tag_scalar(entries, 514);
            let j = inline_jpeg(view, data, entries);
            if offset is Some && length is Some && length->Some_0 > 0 {
                let at = view.base + offset->Some_0;
                let size = jpeg_size(data, at as nat, length->Some_0 as nat);
                &&& j is Ok <==> size is Ok
                &&& j is Ok ==> {
                    &&& j->Ok_0 is Some
                    &&& at <= u64::MAX ==> j->Ok_0->Some_0.offset == at
                    &&& j->Ok_0->Some_0.length == length->Some_0
                    &&& (j->Ok_0->Some_0.width, j->Ok_0->Some_0.height) == size->Ok_0
                }
            } else {
                j == Ok::<Option<EmbeddedJpeg>, Seq<char>>(None)
            }
        }),
{
}

/// A strip is in JPEG XS exactly if it starts with the bytes FF 10 FF 50; one of less
/// than four bytes cannot be told.
pub proof fn lemma_jpeg_xs(data: Seq<u8>, offset: u64)
    ensures
        is_jpeg_xs(data, offset) is Ok <==> offset + 4 <= data.len(),
        offset + 4 <= data.len() ==> (is_jpeg_xs(data, offset)->Ok_0 <==> data.subrange(
            offset as int,
            offset + 4,
        ) == seq![0xFFu8, 0x10, 0xFF, 0x50]),
{
    if offset + 4 <= data.len() {
        let b = data.subrange(offset as int, offset + 4);
        let x = seq![0xFFu8, 0x10, 0xFF, 0x50];
        if is_jpeg_xs(data, offset)->Ok_0 {
            assert(b =~= x);
        }
        if b == x {
            assert(b[0] == 0xFF && b[1] == 0x10 && b[2] == 0xFF && b[3] == 0x50);
        }
    }
}

/// The order of the JPEGs of a file.
pub open spec fn rank(label: JpegLabel) -> int {
    match label {
        JpegLabel::Thumbnail => 0,
        JpegLabel::JpgFromRaw => 1,
        JpegLabel::PreviewImage => 2,
    }
}

/// What a scan returns: the size of the file and its structure, the raw strip of the
/// sub-directories, which tag 330 of the first directory lists, and the JPEGs: the
/// thumbnail of the first directory, the largest one of the sub-directories and
/// the preview image, each of them if it is there and in this order.
#[verifier::spinoff_prover]
pub proof fn lemma_scanned(data: Seq<u8>)
    requires
        data.len() <= u64::MAX,
        scanned(data) is Ok,
    ensures
        ({
            let c = scanned(data)->Ok_0;
            let (view, first) = header_at(data, 0)->Ok_0;
            let ifd0 = view.ifd(data, first)->Ok_0;
            let thumbnail = inline_jpeg(view, data, ifd0);
            let offsets = match first_entry(ifd0, 330) {
                Some(e) => view.longs(data, e)->Ok_0,
                None => Seq::empty(),
            };
            let seen = see_directories(view, data, offsets, offsets.len());
            let preview = exif_preview(view, data, ifd0);
            &&& header_at(data, 0) is Ok
            &&& view.ifd(data, first) is Ok
            &&& thumbnail is Ok
            &&& first_entry(ifd0, 330) matches Some(e) ==> view.longs(data, e) is Ok
            &&& seen is Ok
            &&& preview is Ok
            &&& c.file_size == data.len()
            &&& c.tiff_view == view
            &&& seen->Ok_0.raw_strip == Some(c.raw_strip)
            &&& forall|i: int, j: int|
                0 <= i < j < c.jpegs.len() ==> rank((#[trigger] c.jpegs[i]).label) < rank(
                    (#[trigger] c.jpegs[j]).label,
                )
            &&& thumbnail->Ok_0 matches Some(t) ==> exists|i: int|
                0 <= i < c.jpegs.len() && (#[trigger] c.jpegs[i]).label is Thumbnail
            &&& seen->Ok_0.jpeg is Some ==> exists|i: int|
                0 <= i < c.jpegs.len() && (#[trigger] c.jpegs[i]).label is JpgFromRaw
            &&& preview->Ok_0 is Some ==> exists|i: int|
                0 <= i < c.jpegs.len() && (#[trigger] c.jpegs[i]).label is PreviewImage
            &&& forall|i: int|
                0 <= i < c.jpegs.len() ==> {
                    let x = #[trigger] c.jpegs[i];
                    let e = EmbeddedJpeg {
                        offset: x.offset,
                        length: x.length,
                        width: x.width,
                        height: x.height,
                    };
                    match x.label {
                        JpegLabel::Thumbnail => thumbnail->Ok_0 == Some(e),
                        JpegLabel::JpgFromRaw => seen->Ok_0.jpeg == Some(x),
                        JpegLabel::PreviewImage => preview->Ok_0 == Some(e),
                    }
                }
        }),
{
    let c = scanned(data)->Ok_0;
    let (view, first) = header_at(data, 0)->Ok_0;
    let ifd0 = view.ifd(data, first)->Ok_0;
    let thumbnail = inline_jpeg(view, data, ifd0)->Ok_0;
    let offsets = sub_directories(view, data, ifd0)->Ok_0;
    let seen = see_directories(view, data, offsets, offsets.len())->Ok_0;
    let preview = exif_preview(view, data, ifd0)->Ok_0;
    if seen.jpeg is Some {
        let k = lemma_jpeg_found(view, data, offsets, offsets.len());
        assert(seen.jpeg->Some_0.label is JpgFromRaw);
    }
    let a: int = if thumbnail is Some {
        1
    } else {
        0
    };
    let b: int = if seen.jpeg is Some {
        1
    } else {
        0
    };
    let d: int = if preview is Some {
        1
    } else {
        0
    };
    assert(c.jpegs.len() == a + b + d);
    if thumbnail is Some {
        assert(c.jpegs[0].label is Thumbnail);
    }
    if seen.jpeg is Some {
        assert(c.jpegs[a] == seen.jpeg->Some_0);
    }
    if preview is Some {
        assert(c.jpegs[a + b].label is PreviewImage);
    }
}

/// A file without a raw sub-directory is refused.
pub proof fn lemma_scanned_without_raw(data: Seq<u8>)
    requires
        scanned(data) is Ok,
    ensures
        ({
            let (view, first) = header_at(data, 0)->Ok_0;
            let ifd0 = view.ifd(data, first)->Ok_0;
            &&& first_entry(ifd0, 330) is Some
            &&& exists|i: int|
                0 <= i < view.longs(data, first_entry(ifd0, 330)->Some_0)->Ok_0.len()
                    && is_raw_directory(
                    view,
                    data,
                    #[trigger] view.longs(data, first_entry(ifd0, 330)->Some_0)->Ok_0[i],
                )
        }),
{
    let (view, first) = header_at(data, 0)->Ok_0;
    let ifd0 = view.ifd(data, first)->Ok_0;
    let offsets = sub_directories(view, data, ifd0)->Ok_0;
    let k = lemma_raw_strip_found(view, data, offsets, offsets.len());
}

/// What a blob says, by the places of its bytes. The predictors stand behind two
/// bytes, or 2110 bytes further where the first byte is 0x49 or the second 0x58 and the
/// blob is long enough; that of row `row` and column `col` stands four bytes per column
/// and two per row behind the first. The first byte 0x46 selects the third table, any
/// other the first, and 14 bits the table three further on. The split row stands at 562,
/// where the first byte is 0x44, the second 0x20 or 0x40 and the curve, whose size
/// follows the predictors, has more than one point.
#[verifier::spinoff_prover]
pub proof fn lemma_nikon_meta(embedded: TiffView, meta: Seq<u8>, bps: u32, row: int, col: int)
    requires
        0 <= row < 2,
        0 <= col < 2,
    ensures
        ({
            let r = nikon_meta(embedded, meta, bps);
            let at: int = if (meta[0] == 0x49 || meta[1] == 0x58) && meta.len() >= 2120 {
                2112
            } else {
                2
            };
            let little = embedded.little_endian;
            let split = meta[0] == 0x44 && (meta[1] == 0x20 || meta[1] == 0x40) && meta.len() >= at
                + 10 && number16(meta, at + 8, little) > 1 && meta.len() >= 564;
            &&& r is Ok <==> meta.len() >= 10
            &&& r matches Ok(m) ==> {
                &&& m.huff_select == if meta[0] == 0x46 {
                    2int
                } else {
                    0
                } + if bps == 14 {
                    3int
                } else {
                    0
                }
                &&& m.initial[2 * row + col] == number16(meta, at + 4 * col + 2 * row, little)
                &&& split ==> m.split_row == number16(meta, 562, little)
                &&& !split ==> m.split_row == 0
            }
        }),
{
    if meta.len() >= 10 {
        let at: int = if (meta[0] == 0x49 || meta[1] == 0x58) && meta.len() >= 2120 {
            2112
        } else {
            2
        };
        let p = at + 4 * col + 2 * row;
        assert(meta.subrange(p, p + 2)[0] == meta[p]);
        assert(meta.subrange(p, p + 2)[1] == meta[p + 1]);
        let m = nikon_meta(embedded, meta, bps)->Ok_0;
        assert(m.initial.len() == 4);
        assert(m.initial[2 * row + col] == embedded.u16_of(meta.subrange(p, p + 2))) by {
            if row == 0 && col == 0 {
                assert(p == at);
            } else if row == 0 {
                assert(p == at + 4);
            } else if col == 0 {
                assert(p == at + 2);
            } else {
                assert(p == at + 6);
            }
        }
        if meta.len() >= at + 10 {
            let q = at + 8;
            assert(meta.subrange(q, q + 2)[0] == meta[q]);
            assert(meta.subrange(q, q + 2)[1] == meta[q + 1]);
        }
        if meta.len() >= 564 {
            assert(meta.subrange(562, 564)[0] == meta[562]);
            assert(meta.subrange(562, 564)[1] == meta[563]);
        }
    }
}

/// The MakerNote: entry `k`, the first of the EXIF directory with tag 37500. It points to
/// "Nikon" and a zero; ten bytes behind the start a structure of its own begins, whose
/// offsets count from there, and its first directory is the one that is read. The
/// preview image is looked for in the same place, in a note of more than four bytes.
#[verifier::spinoff_prover]
pub proof fn lemma_maker_note(
    view: TiffView,
    data: Seq<u8>,
    exif_offset: u32,
    exif: Seq<EntryView>,
    k: int,
)
    requires
        data.len() <= usize::MAX,
        view.ifd(data, exif_offset) == Ok::<Seq<EntryView>, Seq<char>>(exif),
        first_entry(exif, 37500) == Some(exif[k]),
        0 <= k < exif.len(),
        exif[k].value.len() == 4,
    ensures
        ({
            let at = view.base + number32(exif[k].value, 0, view.little_endian);
            let nikon = at + 10 <= data.len() && data.subrange(at, at + 6) == seq![
                0x4Eu8,
                0x69,
                0x6B,
                0x6F,
                0x6E,
                0,
            ];
            let r = maker_note_in(view, data, exif_offset);
            let p = preview_image(view, data, exif_offset);
            let header = header_at(data, (at + 10) as usize);
            &&& !nikon ==> r is Err
            &&& !nikon || exif[k].count <= 4 ==> p == Ok::<Option<EmbeddedJpeg>, Seq<char>>(None)
            &&& nikon ==> match header {
                Err(_) => r is Err && (exif[k].count > 4 ==> p is Err),
                Ok((embedded, first)) => match embedded.ifd(data, first) {
                    Err(_) => r is Err && (exif[k].count > 4 ==> p is Err),
                    Ok(entries) => {
                        &&& r == Ok::<(TiffView, Seq<EntryView>), Seq<char>>((embedded, entries))
                        &&& exif[k].count > 4 ==> p == preview_of(embedded, data, entries)
                    },
                },
            }
        }),
{
    let at = view.base + number32(exif[k].value, 0, view.little_endian);
    assert(view.u32_of(exif[k].value) == number32(exif[k].value, 0, view.little_endian));
    if at + 10 <= data.len() {
        let b = data.subrange(at, at + 10);
        let c = data.subrange(at, at + 6);
        let name = seq![0x4Eu8, 0x69, 0x6B, 0x6F, 0x6E, 0];
        assert(bytes_at(data, at, 10) == Some(b));
        assert(forall|i: int| 0 <= i < 6 ==> b[i] == c[i]);
        if c == name {
            assert(c[0] == 0x4E && c[1] == 0x69 && c[2] == 0x6B && c[3] == 0x6F && c[4] == 0x6E
                && c[5] == 0);
        }
        if b[0] == 0x4E && b[1] == 0x69 && b[2] == 0x6B && b[3] == 0x6F && b[4] == 0x6E && b[5]
            == 0 {
            assert(c =~= name);
        }
    }
}

/// The EXIF directory is the one that tag 34665 of the first directory points to. Without
/// it there is no preview image, and no note.
pub proof fn lemma_exif(view: TiffView, data: Seq<u8>, ifd0: Seq<EntryView>, first: u32)
    requires
        view.ifd(data, first) == Ok::<Seq<EntryView>, Seq<char>>(ifd0),
        header_at(data, 0) == Ok::<(TiffView, u32), Seq<char>>((view, first)),
    ensures
        match view.tag_scalar(ifd0, 34665) {
            Some(offset) => {
                &&& exif_preview(view, data, ifd0) == preview_image(view, data, offset)
                &&& maker_note(view, data) == maker_note_in(view, data, offset)
            },
            None => {
                &&& maker_note(view, data) is Err
                &&& first_entry(ifd0, 34665) is None ==> exif_preview(view, data, ifd0) == Ok::<
                    Option<EmbeddedJpeg>,
                    Seq<char>,
                >(None)
                &&& first_entry(ifd0, 34665) is Some ==> exif_preview(view, data, ifd0) is Err
            },
        },
{
}

/// The preview image is the JPEG of the directory that tag 17 of the MakerNote's
/// directory points to.
pub proof fn lemma_preview(embedded: TiffView, data: Seq<u8>, nikon: Seq<EntryView>)
    ensures
        match embedded.tag_scalar(nikon, 17) {
            Some(offset) => match embedded.ifd(data, offset) {
                Ok(entries) => preview_of(embedded, data, nikon) == inline_jpeg(
                    embedded,
                    data,
                    entries,
                ),
                Err(_) => preview_of(embedded, data, nikon) is Err,
            },
            None => if first_entry(nikon, 17) is Some {
                preview_of(embedded, data, nikon) is Err
            } else {
                preview_of(embedded, data, nikon) == Ok::<Option<EmbeddedJpeg>, Seq<char>>(None)
            },
        },
{
}

/// The blob is the value of tag 150 of the MakerNote's directory, or of tag 140 where
/// there is none. It has more than four bytes, and they stand where the value of the
/// entry points to, counted from the start of the structure in the note.
pub proof fn lemma_blob(view: TiffView, data: Seq<u8>, bps: u32)
    requires
        maker_note(view, data) is Ok,
    ensures
        ({
            let (embedded, nikon) = maker_note(view, data)->Ok_0;
            let e = if first_entry(nikon, 150) is Some {
                first_entry(nikon, 150)
            } else {
                first_entry(nikon, 140)
            };
            let r = lossless_meta(view, data, bps);
            &&& blob_entry(nikon) == e
            &&& e is None ==> r is Err
            &&& e is Some && e->Some_0.value.len() == 4 ==> {
                let at = embedded.base + number32(e->Some_0.value, 0, embedded.little_endian);
                let n = e->Some_0.size();
                if n > 4 && at + n <= data.len() {
                    r == nikon_meta(embedded, data.subrange(at, at + n), bps)
                } else {
                    r is Err
                }
            }
        }),
{
    let (embedded, nikon) = maker_note(view, data)->Ok_0;
    if let Some(e) = blob_entry(nikon) {
        if e.value.len() == 4 {
            assert(embedded.u32_of(e.value) == number32(e.value, 0, embedded.little_endian));
        }
    }
}

/// When a sub-directory ends the scan: a raw one that would be taken, of whose strip four
/// bytes cannot be read, and one of compression 6 or 7 whose JPEG cannot be read. One that
/// cannot itself be read is passed over.
pub proof fn lemma_directory_outcome(view: TiffView, data: Seq<u8>, found: Found, offset: u32)
    ensures
        ({
            let r = see_directory(view, data, found, offset);
            let entries = view.ifd(data, offset)->Ok_0;
            let compression = number_or(view, entries, 259, 1);
            let taken = is_raw_directory(view, data, offset) && (found.raw_strip matches Some(s)
                ==> directory_area(view, data, offset) > s.width * s.height);
            let xs = is_jpeg_xs(data, number_or(view, entries, 273, 0) as u64);
            let j = inline_jpeg(view, data, entries);
            if view.ifd(data, offset) is Err {
                r == Ok::<Found, Seq<char>>(found)
            } else if taken && xs is Err {
                r == Err::<Found, Seq<char>>(xs->Err_0)
            } else if (compression == 6 || compression == 7) && j is Err {
                r == Err::<Found, Seq<char>>(j->Err_0)
            } else {
                r is Ok
            }
        }),
{
}

/// The sub-directories are seen one after the other, and the first that ends the scan is
/// reported.
pub proof fn lemma_directories_in_turn(view: TiffView, data: Seq<u8>, offsets: Seq<u32>, n: nat)
    requires
        n < offsets.len(),
    ensures
        see_directories(view, data, offsets, 0) == Ok::<Found, Seq<char>>(
            Found { raw_strip: None, jpeg: None },
        ),
        match see_directories(view, data, offsets, n) {
            Ok(found) => see_directories(view, data, offsets, n + 1) == see_directory(
                view,
                data,
                found,
                offsets[n as int],
            ),
            Err(e) => see_directories(view, data, offsets, n + 1) == Err::<Found, Seq<char>>(e),
        },
{
}

/// Without a MakerNote there is no preview image and no note; an EXIF directory that cannot
/// be read ends the search for both.
pub proof fn lemma_no_maker_note(view: TiffView, data: Seq<u8>, exif_offset: u32)
    ensures
        match view.ifd(data, exif_offset) {
            Err(e) => {
                &&& preview_image(view, data, exif_offset) == Err::<Option<EmbeddedJpeg>, Seq<char>>(
                    e,
                )
                &&& maker_note_in(view, data, exif_offset) == Err::<
                    (TiffView, Seq<EntryView>),
                    Seq<char>,
                >(e)
            },
            Ok(exif) => first_entry(exif, 37500) is None ==> {
                &&& preview_image(view, data, exif_offset) == Ok::<Option<EmbeddedJpeg>, Seq<char>>(
                    None,
                )
                &&& maker_note_in(view, data, exif_offset) is Err
            },
        },
{
}

} // verus!
