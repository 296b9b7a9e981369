//! Finds the chunks of a NEF: the raw strip and the embedded JPEGs, and what
//! the camera notes about the coding of the raw strip.

use crate::nikon_lossless::predictors;
use crate::tiff::{
    bytes_at, bytes_eof_message, entry_views, first_entry, header_at, jpeg_size, read_at,
    read_jpeg_size, read_values, EmbeddedJpeg, EntryView, RawEntry, TiffView, COMPRESSION_JPEG,
    COMPRESSION_JPEG_OLD_STYLE, COMPRESSION_NIKON_LOSSLESS, TAG_BITS_PER_SAMPLE, TAG_COMPRESSION,
    TAG_EXIF_IFD, TAG_IMAGE_LENGTH, TAG_IMAGE_WIDTH, TAG_JPEG_INTERCHANGE_FORMAT,
    TAG_JPEG_INTERCHANGE_FORMAT_LENGTH, TAG_MAKERNOTE, TAG_NIKON_PREVIEW_IFD, TAG_STRIP_BYTE_COUNTS,
    TAG_STRIP_OFFSETS, TAG_SUB_IFDS,
};
use vstd::prelude::*;
use vstd::slice::slice_subrange;

verus! {

#[derive(Debug, Clone)]
pub struct NefChunks {
    pub file_size: u64,
    pub tiff_view: TiffView,
    pub raw_strip: RawStrip,
    pub jpegs: Vec<JpegChunk>,
}

#[derive(Debug, Clone, Copy)]
pub struct NikonLosslessMeta {
    pub huff_select: usize,
    pub initial_predictors: [[i32; 2]; 2],
    pub split_row: usize,
}

#[derive(Debug, Clone, Copy)]
pub struct RawStrip {
    pub offset: u64,
    pub length: u64,
    pub width: u32,
    pub height: u32,
    pub bits_per_sample: u32,
    pub compression: u32,
    pub is_jpeg_xs: bool,
}

#[derive(Debug, Clone, Copy)]
pub struct JpegChunk {
    pub offset: u64,
    pub length: u32,
    pub width: u32,
    pub height: u32,
    pub label: JpegLabel,
}

#[derive(Debug, Clone, Copy, PartialEq, Eq, Structural)]
pub enum JpegLabel {
    Thumbnail,
    PreviewImage,
    JpgFromRaw,
}

/// The chunks of a NEF.
pub struct ChunksView {
    pub file_size: u64,
    pub tiff_view: TiffView,
    pub raw_strip: RawStrip,
    pub jpegs: Seq<JpegChunk>,
}

impl View for NefChunks {
    type V = ChunksView;

    open spec fn view(&self) -> ChunksView {
        ChunksView {
            file_size: self.file_size,
            tiff_view: self.tiff_view,
            raw_strip: self.raw_strip,
            jpegs: self.jpegs@,
        }
    }
}

/// What the camera notes about the coding of a raw strip.
pub struct LosslessView {
    pub huff_select: nat,
    pub initial: Seq<int>,
    pub split_row: nat,
}

impl View for NikonLosslessMeta {
    type V = LosslessView;

    open spec fn view(&self) -> LosslessView {
        LosslessView {
            huff_select: self.huff_select as nat,
            initial: predictors(self.initial_predictors),
            split_row: self.split_row as nat,
        }
    }
}

pub const MAKERNOTE_HEADER_SIZE: usize = 10;

/// Tags of the MakerNote for the blob with the choice of the Huffman table, the
/// initial predictors and the linearization curve.
pub const TAG_NEFMETA2: u16 = 0x0096;

pub const TAG_NEFMETA1: u16 = 0x008C;

/// Version bytes of the blob.
pub const NEFMETA_VER_LOSSLESS: u8 = 0x46;

pub const NEFMETA_VER_LOSSY_CURVE: u8 = 0x44;

pub const NEFMETA_V0_SKIP_2110: u8 = 0x49;

pub const NEFMETA_V1_SKIP_2110: u8 = 0x58;

/// Lossy variants that have a linearization curve and a split row.
pub const NEFMETA_V1_CURVE_NORMAL: u8 = 0x20;

pub const NEFMETA_V1_CURVE_QUARTERED: u8 = 0x40;

/// Where the split row stands in the blob.
pub const NEFMETA_SPLIT_ROW_OFFSET: usize = 562;

/// Extra bytes in front of the initial predictors that some firmware writes.
pub const NEFMETA_ENCRYPTED_BLOCK_SIZE: usize = 2110;

pub const HUFF_TABLE_LOSSLESS_12: usize = 2;

pub const HUFF_TABLE_14BIT_OFFSET: usize = 3;

/// The JPEG that a directory points to.
pub open spec fn inline_jpeg(view: TiffView, data: Seq<u8>, entries: Seq<EntryView>) -> Result<
    Option<EmbeddedJpeg>,
    Seq<char>,
> {
    match (
        view.tag_scalar(entries, TAG_JPEG_INTERCHANGE_FORMAT),
        view.tag_scalar(entries, TAG_JPEG_INTERCHANGE_FORMAT_LENGTH),
    ) {
        (Some(offset), Some(length)) => if length == 0 {
            Ok(None)
        } else {
            match jpeg_size(data, (view.base + offset) as nat, length as nat) {
                Ok((width, height)) => Ok(
                    Some(
                        EmbeddedJpeg { offset: (view.base + offset) as u64, length, width, height },
                    ),
                ),
                Err(e) => Err(e),
            }
        },
        _ => Ok(None),
    }
}

fn jpeg_from_inline_pointers(view: &TiffView, data: &[u8], entries: &[RawEntry]) -> (r: Result<
    Option<EmbeddedJpeg>,
    String,
>)
    ensures
        match inline_jpeg(*view, data@, entry_views(entries@)) {
            Ok(j) => r == Ok::<Option<EmbeddedJpeg>, String>(j),
            Err(e) => r is Err && r->Err_0@ == e,
        },
{
    let offset = match view.find_scalar(entries, TAG_JPEG_INTERCHANGE_FORMAT) {
        Some(v) => v,
        None => {
            return Ok(None);
        },
    };
    let length = match view.find_scalar(entries, TAG_JPEG_INTERCHANGE_FORMAT_LENGTH) {
        Some(v) => v,
        None => {
            return Ok(None);
        },
    };
    if length == 0 {
        return Ok(None);
    }
    let abs_offset = view.place(offset);
    let (width, height) = read_jpeg_size(data, abs_offset, length as usize)?;
    Ok(Some(EmbeddedJpeg { offset: abs_offset as u64, length, width, height }))
}

pub open spec fn strip_header_message() -> Seq<char> {
    "read strip header: failed to fill whole buffer"@
}

/// Whether a strip starts with the first two markers of a JPEG XS codestream.
pub open spec fn is_jpeg_xs(data: Seq<u8>, offset: u64) -> Result<bool, Seq<char>> {
    match bytes_at(data, offset as int, 4) {
        None => Err(strip_header_message()),
        Some(b) => Ok(b[0] == 0xFF && b[1] == 0x10 && b[2] == 0xFF && b[3] == 0x50),
    }
}

fn detect_jpeg_xs(data: &[u8], offset: u64) -> (r: Result<bool, String>)
    ensures
        match is_jpeg_xs(data@, offset) {
            Ok(x) => r == Ok::<bool, String>(x),
            Err(e) => r is Err && r->Err_0@ == e,
        },
{
    match read_at(data, offset as u128, 4) {
        Some(b) => Ok(b[0] == 0xFF && b[1] == 0x10 && b[2] == 0xFF && b[3] == 0x50),
        None => Err("read strip header: failed to fill whole buffer".to_string()),
    }
}

/// `v`, or a default.
pub open spec fn or_else(v: Option<u32>, default: u32) -> u32 {
    match v {
        Some(x) => x,
        None => default,
    }
}

/// The JPEG chunk of an embedded JPEG.
pub open spec fn labelled(j: EmbeddedJpeg, label: JpegLabel) -> JpegChunk {
    JpegChunk { offset: j.offset, length: j.length, width: j.width, height: j.height, label }
}

fn label_jpeg(j: EmbeddedJpeg, label: JpegLabel) -> (r: JpegChunk)
    ensures
        r == labelled(j, label),
{
    JpegChunk { offset: j.offset, length: j.length, width: j.width, height: j.height, label }
}

fn scalar_or(view: &TiffView, entries: &[RawEntry], tag: u16, default: u32) -> (r: u32)
    ensures
        r == or_else(view.tag_scalar(entry_views(entries@), tag), default),
{
    match view.find_scalar(entries, tag) {
        Some(v) => v,
        None => default,
    }
}

/// The largest raw strip and the largest JPEG of the sub-directories seen so far.
pub struct Found {
    pub raw_strip: Option<RawStrip>,
    pub jpeg: Option<JpegChunk>,
}

/// The raw strip of a sub-directory, but for the kind of its data.
pub open spec fn strip_of(view: TiffView, entries: Seq<EntryView>, xs: bool) -> RawStrip {
    RawStrip {
        offset: or_else(view.tag_scalar(entries, TAG_STRIP_OFFSETS), 0) as u64,
        length: or_else(view.tag_scalar(entries, TAG_STRIP_BYTE_COUNTS), 0) as u64,
        width: or_else(view.tag_scalar(entries, TAG_IMAGE_WIDTH), 0),
        height: or_else(view.tag_scalar(entries, TAG_IMAGE_LENGTH), 0),
        bits_per_sample: or_else(view.tag_scalar(entries, TAG_BITS_PER_SAMPLE), 14),
        compression: or_else(view.tag_scalar(entries, TAG_COMPRESSION), 1),
        is_jpeg_xs: xs,
    }
}

/// What is found once the sub-directory at `offset` is seen too: a raw strip
/// that is larger than the one so far, or a JPEG that is. A directory that
/// cannot be read is passed over.
pub open spec fn see_directory(
    view: TiffView,
    data: Seq<u8>,
    found: Found,
    offset: u32,
) -> Result<Found, Seq<char>> {
    match view.ifd(data, offset) {
        Err(_) => Ok(found),
        Ok(entries) => {
            let strip = strip_of(view, entries, false);
            if strip.compression == COMPRESSION_NIKON_LOSSLESS || strip.compression == 1 {
                let larger = found.raw_strip matches Some(r) ==> strip.width * strip.height
                    > r.width * r.height;
                if strip.length > 0 && larger {
                    match is_jpeg_xs(data, strip.offset) {
                        Ok(xs) => Ok(
                            Found { raw_strip: Some(strip_of(view, entries, xs)), jpeg: found.jpeg },
                        ),
                        Err(e) => Err(e),
                    }
                } else {
                    Ok(found)
                }
            } else if strip.compression == COMPRESSION_JPEG_OLD_STYLE || strip.compression
                == COMPRESSION_JPEG {
                match inline_jpeg(view, data, entries) {
                    Err(e) => Err(e),
                    Ok(None) => Ok(found),
                    Ok(Some(j)) => {
                        let larger = found.jpeg matches Some(b) ==> b.width * b.height < j.width
                            * j.height;
                        if larger {
                            Ok(
                                Found {
                                    raw_strip: found.raw_strip,
                                    jpeg: Some(labelled(j, JpegLabel::JpgFromRaw)),
                                },
                            )
                        } else {
                            Ok(found)
                        }
                    },
                }
            } else {
                Ok(found)
            }
        },
    }
}

/// What is found in the first `n` sub-directories.
pub open spec fn see_directories(view: TiffView, data: Seq<u8>, offsets: Seq<u32>, n: nat) -> Result<
    Found,
    Seq<char>,
>
    decreases n,
{
    if n == 0 {
        Ok(Found { raw_strip: None, jpeg: None })
    } else {
        match see_directories(view, data, offsets, (n - 1) as nat) {
            Err(e) => Err(e),
            Ok(found) => see_directory(view, data, found, offsets[n - 1]),
        }
    }
}

proof fn lemma_see_stops(view: TiffView, data: Seq<u8>, offsets: Seq<u32>, m: nat, n: nat)
    requires
        m <= n,
        see_directories(view, data, offsets, m) is Err,
    ensures
        see_directories(view, data, offsets, n) == see_directories(view, data, offsets, m),
    decreases n,
{
    if m < n {
        lemma_see_stops(view, data, offsets, m, (n - 1) as nat);
    }
}

fn area(width: u32, height: u32) -> (r: u64)
    ensures
        r == width * height,
{
    proof {
        assert(width * height <= 0xffff_ffff * 0xffff_ffff) by (nonlinear_arith)
            requires
                width <= 0xffff_ffff,
                height <= 0xffff_ffff,
        ;
    }
    (width as u64) * (height as u64)
}

fn scan_directory(view: &TiffView, data: &[u8], found: Found, offset: u32) -> (r: Result<
    Found,
    String,
>)
    ensures
        match see_directory(*view, data@, found, offset) {
            Ok(f) => r == Ok::<Found, String>(f),
            Err(e) => r is Err && r->Err_0@ == e,
        },
{
    let entries = match view.read_ifd(data, offset) {
        Ok(e) => e,
        Err(_) => {
            return Ok(found);
        },
    };
    let dir = entries.as_slice();
    let compression = scalar_or(view, dir, TAG_COMPRESSION, 1);
    let width = scalar_or(view, dir, TAG_IMAGE_WIDTH, 0);
    let height = scalar_or(view, dir, TAG_IMAGE_LENGTH, 0);
    if compression == COMPRESSION_NIKON_LOSSLESS || compression == 1 {
        let strip_offset: u64 = scalar_or(view, dir, TAG_STRIP_OFFSETS, 0) as u64;
        let strip_length: u64 = scalar_or(view, dir, TAG_STRIP_BYTE_COUNTS, 0) as u64;
        let bits_per_sample = scalar_or(view, dir, TAG_BITS_PER_SAMPLE, 14);
        let larger: bool = match &found.raw_strip {
            Some(r) => area(width, height) > area(r.width, r.height),
            None => true,
        };
        if strip_length > 0 && larger {
            let is_jpeg_xs = detect_jpeg_xs(data, strip_offset)?;
            return Ok(
                Found {
                    raw_strip: Some(
                        RawStrip {
                            offset: strip_offset,
                            length: strip_length,
                            width,
                            height,
                            bits_per_sample,
                            compression,
                            is_jpeg_xs,
                        },
                    ),
                    jpeg: found.jpeg,
                },
            );
        }
    } else if compression == COMPRESSION_JPEG_OLD_STYLE || compression == COMPRESSION_JPEG {
        if let Some(j) = jpeg_from_inline_pointers(view, data, dir)? {
            let larger: bool = match &found.jpeg {
                Some(b) => area(b.width, b.height) < area(j.width, j.height),
                None => true,
            };
            if larger {
                return Ok(
                    Found {
                        raw_strip: found.raw_strip,
                        jpeg: Some(label_jpeg(j, JpegLabel::JpgFromRaw)),
                    },
                );
            }
        }
    }
    Ok(found)
}

fn scan_directories(view: &TiffView, data: &[u8], offsets: &Vec<u32>) -> (r: Result<Found, String>)
    ensures
        match see_directories(*view, data@, offsets@, offsets@.len()) {
            Ok(f) => r == Ok::<Found, String>(f),
            Err(e) => r is Err && r->Err_0@ == e,
        },
{
    let mut found = Found { raw_strip: None, jpeg: None };
    let mut i: usize = 0;
    while i < offsets.len()
        invariant
            0 <= i <= offsets@.len(),
            see_directories(*view, data@, offsets@, i as nat) == Ok::<Found, Seq<char>>(found),
        decreases offsets@.len() - i,
    {
        match scan_directory(view, data, found, offsets[i]) {
            Ok(f) => {
                found = f;
            },
            Err(e) => {
                proof {
                    lemma_see_stops(*view, data@, offsets@, (i + 1) as nat, offsets@.len());
                }
                return Err(e);
            },
        }
        i = i + 1;
    }
    Ok(found)
}

/// The first bytes of a Nikon MakerNote.
pub open spec fn is_nikon_note(b: Seq<u8>) -> bool {
    b[0] == 0x4E && b[1] == 0x69 && b[2] == 0x6B && b[3] == 0x6F && b[4] == 0x6E && b[5] == 0
}

fn starts_nikon_note(b: &[u8]) -> (r: bool)
    requires
        b@.len() >= 6,
    ensures
        r == is_nikon_note(b@),
{
    b[0] == 0x4E && b[1] == 0x69 && b[2] == 0x6B && b[3] == 0x6F && b[4] == 0x6E && b[5] == 0
}

/// The preview image: the JPEG of the directory that the MakerNote points to.
pub open spec fn preview_image(view: TiffView, data: Seq<u8>, exif_offset: u32) -> Result<
    Option<EmbeddedJpeg>,
    Seq<char>,
> {
    match view.ifd(data, exif_offset) {
        Err(e) => Err(e),
        Ok(exif) => match first_entry(exif, TAG_MAKERNOTE) {
            None => Ok(None),
            Some(note) => {
                let abs = view.base + view.u32_of(note.value);
                match bytes_at(data, abs, MAKERNOTE_HEADER_SIZE as int) {
                    None => Ok(None),
                    Some(b) => if note.count <= 4 || !is_nikon_note(b) {
                        Ok(None)
                    } else {
                        match header_at(data, (abs + MAKERNOTE_HEADER_SIZE) as usize) {
                            Err(e) => Err(e),
                            Ok((embedded, first)) => match embedded.ifd(data, first) {
                                Err(e) => Err(e),
                                Ok(nikon) => preview_of(embedded, data, nikon),
                            },
                        }
                    },
                }
            },
        },
    }
}

/// The JPEG of the preview directory of a MakerNote.
pub open spec fn preview_of(embedded: TiffView, data: Seq<u8>, nikon: Seq<EntryView>) -> Result<
    Option<EmbeddedJpeg>,
    Seq<char>,
> {
    match first_entry(nikon, TAG_NIKON_PREVIEW_IFD) {
        None => Ok(None),
        Some(e) => match embedded.scalar(e) {
            None => Err("Nikon PreviewIFD pointer not scalar"@),
            Some(offset) => match embedded.ifd(data, offset) {
                Err(e) => Err(e),
                Ok(entries) => inline_jpeg(embedded, data, entries),
            },
        },
    }
}

fn find_preview_image(main: &TiffView, data: &[u8], exif_ifd_offset: u32) -> (r: Result<
    Option<EmbeddedJpeg>,
    String,
>)
    ensures
        match preview_image(*main, data@, exif_ifd_offset) {
            Ok(j) => r == Ok::<Option<EmbeddedJpeg>, String>(j),
            Err(e) => r is Err && r->Err_0@ == e,
        },
{
    let exif_ifd = main.read_ifd(data, exif_ifd_offset)?;
    let note = match main.find_entry(exif_ifd.as_slice(), TAG_MAKERNOTE) {
        Some(e) => e,
        None => {
            return Ok(None);
        },
    };
    if note.count <= 4 {
        return Ok(None);
    }
    let note_rel = main.decode_u32(note.value_bytes.as_slice());
    let note_abs = main.place(note_rel);
    let header = match read_at(data, note_abs, MAKERNOTE_HEADER_SIZE as u128) {
        Some(b) => b,
        None => {
            return Ok(None);
        },
    };
    if !starts_nikon_note(header) {
        return Ok(None);
    }
    let embedded_base: usize = note_abs as usize + MAKERNOTE_HEADER_SIZE;
    let (embedded, nikon_ifd_offset) = TiffView::parse_header(data, embedded_base)?;
    let nikon_ifd = embedded.read_ifd(data, nikon_ifd_offset)?;
    let preview_entry = match embedded.find_entry(nikon_ifd.as_slice(), TAG_NIKON_PREVIEW_IFD) {
        Some(e) => e,
        None => {
            return Ok(None);
        },
    };
    let preview_offset = match embedded.entry_scalar(preview_entry) {
        Some(v) => v,
        None => {
            return Err("Nikon PreviewIFD pointer not scalar".to_string());
        },
    };
    let preview_ifd = embedded.read_ifd(data, preview_offset)?;
    jpeg_from_inline_pointers(&embedded, data, preview_ifd.as_slice())
}

/// The places of the sub-directories.
pub open spec fn sub_directories(view: TiffView, data: Seq<u8>, ifd0: Seq<EntryView>) -> Result<
    Seq<u32>,
    Seq<char>,
> {
    match first_entry(ifd0, TAG_SUB_IFDS) {
        None => Ok(Seq::empty()),
        Some(e) => view.longs(data, e),
    }
}

/// The preview image of the file, if it has an EXIF directory.
pub open spec fn exif_preview(view: TiffView, data: Seq<u8>, ifd0: Seq<EntryView>) -> Result<
    Option<EmbeddedJpeg>,
    Seq<char>,
> {
    match first_entry(ifd0, TAG_EXIF_IFD) {
        None => Ok(None),
        Some(e) => match view.scalar(e) {
            None => Err("ExifIFD pointer not scalar"@),
            Some(offset) => preview_image(view, data, offset),
        },
    }
}

/// A chunk, if there is one.
pub open spec fn at_most_one(j: Option<JpegChunk>) -> Seq<JpegChunk> {
    match j {
        Some(c) => seq![c],
        None => Seq::empty(),
    }
}

/// The JPEG chunk of an embedded JPEG, if there is one.
pub open spec fn label_option(j: Option<EmbeddedJpeg>, label: JpegLabel) -> Option<JpegChunk> {
    match j {
        Some(c) => Some(labelled(c, label)),
        None => None,
    }
}

/// The chunks of the file: the thumbnail of the first directory, the largest
/// raw strip and the largest JPEG of the sub-directories, and the preview image.
/// Otherwise the first thing that cannot be read.
pub open spec fn scanned(data: Seq<u8>) -> Result<ChunksView, Seq<char>> {
    match header_at(data, 0) {
        Err(e) => Err(e),
        Ok((view, first)) => match view.ifd(data, first) {
            Err(e) => Err(e),
            Ok(ifd0) => match inline_jpeg(view, data, ifd0) {
                Err(e) => Err(e),
                Ok(thumbnail) => match sub_directories(view, data, ifd0) {
                    Err(e) => Err(e),
                    Ok(offsets) => match see_directories(view, data, offsets, offsets.len()) {
                        Err(e) => Err(e),
                        Ok(found) => match exif_preview(view, data, ifd0) {
                            Err(e) => Err(e),
                            Ok(preview) => match found.raw_strip {
                                None => Err("NEF: no raw data strip found"@),
                                Some(raw_strip) => Ok(
                                    ChunksView {
                                        file_size: data.len() as u64,
                                        tiff_view: view,
                                        raw_strip,
                                        jpegs: at_most_one(
                                            label_option(thumbnail, JpegLabel::Thumbnail),
                                        ) + at_most_one(found.jpeg) + at_most_one(
                                            label_option(preview, JpegLabel::PreviewImage),
                                        ),
                                    },
                                ),
                            },
                        },
                    },
                },
            },
        },
    }
}

/// Finds the chunks of a NEF.
pub fn scan_nef(data: &[u8]) -> (r: Result<NefChunks, String>)
    ensures
        match scanned(data@) {
            Ok(c) => r is Ok && r->Ok_0@ == c,
            Err(e) => r is Err && r->Err_0@ == e,
        },
        r matches Ok(c) ==> c.tiff_view.base == 0,
{
    let file_size: u64 = data.len() as u64;
    let (main, ifd0_offset) = TiffView::parse_header(data, 0)?;
    let ifd0_entries = main.read_ifd(data, ifd0_offset)?;
    let ifd0 = ifd0_entries.as_slice();
    let mut jpegs: Vec<JpegChunk> = Vec::new();
    let thumbnail = jpeg_from_inline_pointers(&main, data, ifd0)?;
    if let Some(j) = thumbnail {
        jpegs.push(label_jpeg(j, JpegLabel::Thumbnail));
    }
    let ghost first = jpegs@;
    assert(first =~= at_most_one(label_option(thumbnail, JpegLabel::Thumbnail)));
    let offsets: Vec<u32> = match main.find_entry(ifd0, TAG_SUB_IFDS) {
        Some(e) => main.entry_long_array(data, e)?,
        None => Vec::new(),
    };
    assert(sub_directories(main, data@, entry_views(ifd0@)) == Ok::<Seq<u32>, Seq<char>>(offsets@));
    let found = scan_directories(&main, data, &offsets)?;
    if let Some(j) = found.jpeg {
        jpegs.push(j);
    }
    let ghost second = jpegs@;
    assert(second =~= first + at_most_one(found.jpeg));
    let preview: Option<EmbeddedJpeg> = match main.find_entry(ifd0, TAG_EXIF_IFD) {
        Some(e) => match main.entry_scalar(e) {
            Some(offset) => find_preview_image(&main, data, offset)?,
            None => {
                return Err("ExifIFD pointer not scalar".to_string());
            },
        },
        None => None,
    };
    if let Some(j) = preview {
        jpegs.push(label_jpeg(j, JpegLabel::PreviewImage));
    }
    assert(jpegs@ =~= second + at_most_one(label_option(preview, JpegLabel::PreviewImage)));
    match found.raw_strip {
        Some(raw_strip) => Ok(NefChunks { file_size, tiff_view: main, raw_strip, jpegs }),
        None => Err("NEF: no raw data strip found".to_string()),
    }
}

/// The 16-bit number at a place of a blob.
pub open spec fn u16_at(embedded: TiffView, meta: Seq<u8>, at: int) -> int {
    embedded.u16_of(meta.subrange(at, at + 2)) as int
}

/// Where the initial predictors stand in a blob: behind an extra block if the
/// version announces one and the blob has room for it.
pub open spec fn predictors_at(meta: Seq<u8>) -> int {
    if (meta[0] == NEFMETA_V0_SKIP_2110 || meta[1] == NEFMETA_V1_SKIP_2110) && 2
        + NEFMETA_ENCRYPTED_BLOCK_SIZE + 8 <= meta.len() {
        2 + NEFMETA_ENCRYPTED_BLOCK_SIZE
    } else {
        2
    }
}

/// The first Huffman table that a blob selects.
pub open spec fn table_of(v0: u8, bps: u32) -> nat {
    (if v0 == NEFMETA_VER_LOSSLESS {
        HUFF_TABLE_LOSSLESS_12 as nat
    } else {
        0
    }) + (if bps == 14 {
        HUFF_TABLE_14BIT_OFFSET as nat
    } else {
        0
    })
}

/// The four predictors from `at` on, which stand column by column, row by row.
pub open spec fn predictors_of(embedded: TiffView, meta: Seq<u8>, at: int) -> Seq<int> {
    seq![
        u16_at(embedded, meta, at),
        u16_at(embedded, meta, at + 4),
        u16_at(embedded, meta, at + 2),
        u16_at(embedded, meta, at + 6),
    ]
}

/// The split row of a blob whose curve stands at `at`: only lossy variants with
/// a curve have one.
pub open spec fn split_row_of(embedded: TiffView, meta: Seq<u8>, at: int) -> nat {
    if at + 2 <= meta.len() && meta[0] == NEFMETA_VER_LOSSY_CURVE && (meta[1]
        == NEFMETA_V1_CURVE_NORMAL || meta[1] == NEFMETA_V1_CURVE_QUARTERED) && u16_at(
        embedded,
        meta,
        at,
    ) > 1 && NEFMETA_SPLIT_ROW_OFFSET + 2 <= meta.len() {
        u16_at(embedded, meta, NEFMETA_SPLIT_ROW_OFFSET as int) as nat
    } else {
        0
    }
}

/// What a blob says about the coding of the raw strip.
pub open spec fn nikon_meta(embedded: TiffView, meta: Seq<u8>, bps: u32) -> Result<
    LosslessView,
    Seq<char>,
> {
    if meta.len() < 10 {
        Err("NefMeta too short"@)
    } else {
        let at = predictors_at(meta);
        Ok(
            LosslessView {
                huff_select: table_of(meta[0], bps),
                initial: predictors_of(embedded, meta, at),
                split_row: split_row_of(embedded, meta, at + 8),
            },
        )
    }
}

/// A blob always selects tables that exist, also behind the split row.
pub proof fn lemma_meta_tables_exist(embedded: TiffView, meta: Seq<u8>, bps: u32)
    requires
        nikon_meta(embedded, meta, bps) is Ok,
    ensures
        nikon_meta(embedded, meta, bps)->Ok_0.huff_select < 6,
        nikon_meta(embedded, meta, bps)->Ok_0.split_row > 0 ==> nikon_meta(
            embedded,
            meta,
            bps,
        )->Ok_0.huff_select < 5,
        nikon_meta(embedded, meta, bps)->Ok_0.split_row <= u16::MAX,
{
}

fn read_u16(embedded: &TiffView, meta: &[u8], at: usize) -> (r: u16)
    requires
        at + 2 <= meta@.len(),
        at + 2 <= usize::MAX,
    ensures
        r == u16_at(*embedded, meta@, at as int),
{
    embedded.decode_u16(slice_subrange(meta, at, at + 2))
}

/// The four initial predictors that stand from `pos` on.
pub fn read_predictors(embedded: &TiffView, meta: &[u8], pos: usize) -> (r: [[i32; 2]; 2])
    requires
        pos + 8 <= meta@.len(),
        pos + 8 <= usize::MAX,
    ensures
        predictors(r) == predictors_of(*embedded, meta@, pos as int),
{
    let val0: i32 = read_u16(embedded, meta, pos) as i32;
    let val1: i32 = read_u16(embedded, meta, pos + 2) as i32;
    let val2: i32 = read_u16(embedded, meta, pos + 4) as i32;
    let val3: i32 = read_u16(embedded, meta, pos + 6) as i32;
    let r = [[val0, val2], [val1, val3]];
    assert(predictors(r) =~= predictors_of(*embedded, meta@, pos as int));
    r
}

/// The first Huffman table that a blob selects.
pub fn select_table(v0: u8, bps: u32) -> (r: usize)
    ensures
        r == table_of(v0, bps),
{
    let mut huff_select: usize = 0;
    if v0 == NEFMETA_VER_LOSSLESS {
        huff_select = HUFF_TABLE_LOSSLESS_12;
    }
    if bps == 14 {
        huff_select = huff_select + HUFF_TABLE_14BIT_OFFSET;
    }
    huff_select
}

/// The split row of a blob whose curve stands at `pos`.
pub fn read_split_row(embedded: &TiffView, meta: &[u8], pos: usize) -> (r: usize)
    requires
        2 <= pos <= meta@.len(),
    ensures
        r == split_row_of(*embedded, meta@, pos as int),
{
    let size: usize = meta.len();
    if size - pos >= 2 {
        let csize = read_u16(embedded, meta, pos);
        if meta[0] == NEFMETA_VER_LOSSY_CURVE && (meta[1] == NEFMETA_V1_CURVE_NORMAL || meta[1]
            == NEFMETA_V1_CURVE_QUARTERED) && csize > 1 && NEFMETA_SPLIT_ROW_OFFSET + 2 <= size {
            return read_u16(embedded, meta, NEFMETA_SPLIT_ROW_OFFSET) as usize;
        }
    }
    0
}

/// Reads the blob about the coding of the raw strip.
pub fn parse_nikon_meta(meta: &[u8], embedded: &TiffView, bps: u32) -> (r: Result<
    NikonLosslessMeta,
    String,
>)
    ensures
        match nikon_meta(*embedded, meta@, bps) {
            Ok(m) => r is Ok && r->Ok_0@ == m,
            Err(e) => r is Err && r->Err_0@ == e,
        },
{
    let size: usize = meta.len();
    if size < 10 {
        return Err("NefMeta too short".to_string());
    }
    let v0 = meta[0];
    let v1 = meta[1];
    let mut pos: usize = 2;
    if (v0 == NEFMETA_V0_SKIP_2110 || v1 == NEFMETA_V1_SKIP_2110) && pos
        + NEFMETA_ENCRYPTED_BLOCK_SIZE + 8 <= size {
        pos = pos + NEFMETA_ENCRYPTED_BLOCK_SIZE;
    }
    Ok(
        NikonLosslessMeta {
            huff_select: select_table(v0, bps),
            initial_predictors: read_predictors(embedded, meta, pos),
            split_row: read_split_row(embedded, meta, pos + 8),
        },
    )
}

/// The structure in the MakerNote of the file and its directory.
pub open spec fn maker_note(view: TiffView, data: Seq<u8>) -> Result<
    (TiffView, Seq<EntryView>),
    Seq<char>,
> {
    match header_at(data, 0) {
        Err(e) => Err(e),
        Ok((_, first)) => match view.ifd(data, first) {
            Err(e) => Err(e),
            Ok(ifd0) => match first_entry(ifd0, TAG_EXIF_IFD) {
                None => Err("no ExifIFD"@),
                Some(entry) => match view.scalar(entry) {
                    None => Err("ExifIFD not scalar"@),
                    Some(offset) => maker_note_in(view, data, offset),
                },
            },
        },
    }
}

/// The structure in the MakerNote of an EXIF directory and its directory.
pub open spec fn maker_note_in(view: TiffView, data: Seq<u8>, exif_offset: u32) -> Result<
    (TiffView, Seq<EntryView>),
    Seq<char>,
> {
    match view.ifd(data, exif_offset) {
        Err(e) => Err(e),
        Ok(exif) => match first_entry(exif, TAG_MAKERNOTE) {
            None => Err("no MakerNote"@),
            Some(note) => {
                let abs = view.base + view.u32_of(note.value);
                match bytes_at(data, abs, MAKERNOTE_HEADER_SIZE as int) {
                    None => Err("read MakerNote header: failed to fill whole buffer"@),
                    Some(b) => if !is_nikon_note(b) {
                        Err("not a Nikon MakerNote"@)
                    } else {
                        match header_at(data, (abs + MAKERNOTE_HEADER_SIZE) as usize) {
                            Err(e) => Err(e),
                            Ok((embedded, first)) => match embedded.ifd(data, first) {
                                Err(e) => Err(e),
                                Ok(nikon) => Ok((embedded, nikon)),
                            },
                        }
                    },
                }
            },
        },
    }
}

/// Reads the structure in the MakerNote of an EXIF directory and its directory.
pub fn read_maker_note_in(view: &TiffView, data: &[u8], exif_offset: u32) -> (r: Result<
    (TiffView, Vec<RawEntry>),
    String,
>)
    ensures
        match maker_note_in(*view, data@, exif_offset) {
            Ok((embedded, nikon)) => r is Ok && r->Ok_0.0 == embedded && entry_views(r->Ok_0.1@)
                == nikon,
            Err(e) => r is Err && r->Err_0@ == e,
        },
{
    let exif_ifd = view.read_ifd(data, exif_offset)?;
    let note = match view.find_entry(exif_ifd.as_slice(), TAG_MAKERNOTE) {
        Some(e) => e,
        None => {
            return Err("no MakerNote".to_string());
        },
    };
    let note_rel = view.decode_u32(note.value_bytes.as_slice());
    let note_abs = view.place(note_rel);
    let header = match read_at(data, note_abs, MAKERNOTE_HEADER_SIZE as u128) {
        Some(b) => b,
        None => {
            return Err("read MakerNote header: failed to fill whole buffer".to_string());
        },
    };
    if !starts_nikon_note(header) {
        return Err("not a Nikon MakerNote".to_string());
    }
    let embedded_base: usize = note_abs as usize + MAKERNOTE_HEADER_SIZE;
    let (embedded, nikon_ifd_offset) = TiffView::parse_header(data, embedded_base)?;
    let nikon_ifd = embedded.read_ifd(data, nikon_ifd_offset)?;
    Ok((embedded, nikon_ifd))
}

fn read_maker_note(view: &TiffView, data: &[u8]) -> (r: Result<(TiffView, Vec<RawEntry>), String>)
    ensures
        match maker_note(*view, data@) {
            Ok((embedded, nikon)) => r is Ok && r->Ok_0.0 == embedded && entry_views(r->Ok_0.1@)
                == nikon,
            Err(e) => r is Err && r->Err_0@ == e,
        },
{
    let (_, ifd0_offset) = TiffView::parse_header(data, 0)?;
    let ifd0 = view.read_ifd(data, ifd0_offset)?;
    let entry = match view.find_entry(ifd0.as_slice(), TAG_EXIF_IFD) {
        Some(e) => e,
        None => {
            return Err("no ExifIFD".to_string());
        },
    };
    let offset = match view.entry_scalar(entry) {
        Some(v) => v,
        None => {
            return Err("ExifIFD not scalar".to_string());
        },
    };
    read_maker_note_in(view, data, offset)
}

/// The entry of the blob about the coding of the raw strip.
pub open spec fn blob_entry(nikon: Seq<EntryView>) -> Option<EntryView> {
    match first_entry(nikon, TAG_NEFMETA2) {
        Some(e) => Some(e),
        None => first_entry(nikon, TAG_NEFMETA1),
    }
}

/// The entry of the blob about the coding of the raw strip.
pub fn find_blob_entry<'b>(embedded: &TiffView, nikon: &'b [RawEntry]) -> (r: Option<&'b RawEntry>)
    ensures
        match blob_entry(entry_views(nikon@)) {
            Some(e) => r is Some && r->Some_0@ == e,
            None => r is None,
        },
{
    match embedded.find_entry(nikon, TAG_NEFMETA2) {
        Some(e) => Some(e),
        None => embedded.find_entry(nikon, TAG_NEFMETA1),
    }
}

/// What the camera notes about the coding of the raw strip of the file.
pub open spec fn lossless_meta(view: TiffView, data: Seq<u8>, bps: u32) -> Result<
    LosslessView,
    Seq<char>,
> {
    match maker_note(view, data) {
        Err(e) => Err(e),
        Ok((embedded, nikon)) => match blob_entry(nikon) {
            None => Err("no NefMeta tag"@),
            Some(e) => if e.size() <= 4 {
                Err("NefMeta too small"@)
            } else {
                let at = embedded.base + embedded.u32_of(e.value);
                match bytes_at(data, at, e.size() as int) {
                    None => Err(bytes_eof_message(at as nat, e.size())),
                    Some(meta) => nikon_meta(embedded, meta, bps),
                }
            },
        },
    }
}

/// Reads what the camera notes about the coding of the raw strip.
pub fn read_nikon_lossless_meta(data: &[u8], chunks: &NefChunks) -> (r: Result<
    NikonLosslessMeta,
    String,
>)
    ensures
        match lossless_meta(chunks.tiff_view, data@, chunks.raw_strip.bits_per_sample) {
            Ok(m) => r is Ok && r->Ok_0@ == m,
            Err(e) => r is Err && r->Err_0@ == e,
        },
        r matches Ok(m) ==> m.huff_select < 6 && (m.split_row > 0 ==> m.huff_select < 5),
{
    let main = &chunks.tiff_view;
    let (embedded, nikon_ifd) = read_maker_note(main, data)?;
    let entry = match find_blob_entry(&embedded, nikon_ifd.as_slice()) {
        Some(e) => e,
        None => {
            return Err("no NefMeta tag".to_string());
        },
    };
    let size = entry.value_size();
    if size <= 4 {
        return Err("NefMeta too small".to_string());
    }
    let at = embedded.place(embedded.decode_u32(entry.value_bytes.as_slice()));
    let meta = read_values(data, at, size as u128)?;
    proof {
        if nikon_meta(embedded, meta@, chunks.raw_strip.bits_per_sample) is Ok {
            lemma_meta_tables_exist(embedded, meta@, chunks.raw_strip.bits_per_sample);
        }
    }
    parse_nikon_meta(meta.as_slice(), &embedded, chunks.raw_strip.bits_per_sample)
}

} // verus!
