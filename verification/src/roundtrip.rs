//! A check of the raw codec on a file: the raw strip is decoded and encoded
//! again, and both strips are compared.

use crate::bits::bits_of;
use crate::job::{common_len, first_mismatch, lemma_common_len};
use crate::nef::{
    blob_entry, find_blob_entry, maker_note_in, nikon_meta, or_else, predictors_of,
    read_maker_note_in, read_predictors, read_split_row, select_table, split_row_of, table_of,
    LosslessView, NefChunks, NikonLosslessMeta, RawStrip, NEFMETA_ENCRYPTED_BLOCK_SIZE,
    NEFMETA_V0_SKIP_2110, NEFMETA_V1_SKIP_2110,
};
use crate::nikon_lossless::{
    check_holdable, decode_samples, decoded, dimensions_message, encode, holdable, predictors,
    scheme, strip_code, too_large_message, valid_dimensions, Scheme,
};
use crate::scan::number_or;
use crate::text::{decimal, then_number, with_number};
use crate::tiff::{
    bytes_at, bytes_eof_message, entry_views, first_entry, header_at, number32, read_at,
    read_values, EntryView, RawEntry, TiffView, COMPRESSION_NIKON_LOSSLESS, TAG_COMPRESSION,
    TAG_EXIF_IFD, TAG_IMAGE_LENGTH, TAG_IMAGE_WIDTH, TAG_SUB_IFDS,
};
use vstd::prelude::*;

verus! {

/// Where the initial predictors stand in a blob: behind an extra block if the
/// version announces one.
pub open spec fn announced_predictors_at(meta: Seq<u8>) -> int {
    if meta[0] == NEFMETA_V0_SKIP_2110 || meta[1] == NEFMETA_V1_SKIP_2110 {
        2 + NEFMETA_ENCRYPTED_BLOCK_SIZE
    } else {
        2
    }
}

/// What a blob says about the coding of the raw strip, if it holds all that its
/// version announces.
pub open spec fn strict_meta(embedded: TiffView, meta: Seq<u8>, bps: u32) -> Result<
    LosslessView,
    Seq<char>,
> {
    if meta.len() < 10 {
        Err("NefMeta too short"@)
    } else if announced_predictors_at(meta) + 8 > meta.len() {
        Err("NefMeta: predictor data truncated"@)
    } else {
        let at = announced_predictors_at(meta);
        Ok(
            LosslessView {
                huff_select: table_of(meta[0], bps),
                initial: predictors_of(embedded, meta, at),
                split_row: split_row_of(embedded, meta, at + 8),
            },
        )
    }
}

/// Reads a blob that holds all that its version announces.
pub fn parse_strict_meta(meta: &[u8], embedded: &TiffView, bps: u32) -> (r: Result<
    NikonLosslessMeta,
    String,
>)
    ensures
        match strict_meta(*embedded, meta@, bps) {
            Ok(m) => r is Ok && r->Ok_0@ == m,
            Err(e) => r is Err && r->Err_0@ == e,
        },
        r matches Ok(m) ==> m.huff_select < 6 && (m.split_row > 0 ==> m.huff_select < 5),
{
    let size: usize = meta.len();
    if size < 10 {
        return Err("NefMeta too short".to_string());
    }
    let mut pos: usize = 2;
    if meta[0] == NEFMETA_V0_SKIP_2110 || meta[1] == NEFMETA_V1_SKIP_2110 {
        pos = pos + NEFMETA_ENCRYPTED_BLOCK_SIZE;
    }
    if pos + 8 > size {
        return Err("NefMeta: predictor data truncated".to_string());
    }
    Ok(
        NikonLosslessMeta {
            huff_select: select_table(meta[0], bps),
            initial_predictors: read_predictors(embedded, meta, pos),
            split_row: read_split_row(embedded, meta, pos + 8),
        },
    )
}

/// Whether a sub-directory is that of the raw strip.
pub open spec fn describes_strip(
    view: TiffView,
    data: Seq<u8>,
    offset: u32,
    strip: RawStrip,
) -> bool {
    view.ifd(data, offset) matches Ok(entries) && {
        &&& or_else(view.tag_scalar(entries, TAG_COMPRESSION), 1) == COMPRESSION_NIKON_LOSSLESS
        &&& or_else(view.tag_scalar(entries, TAG_IMAGE_WIDTH), 0) == strip.width
        &&& or_else(view.tag_scalar(entries, TAG_IMAGE_LENGTH), 0) == strip.height
    }
}

/// Whether some sub-directory is that of the raw strip.
pub open spec fn some_describes_strip(
    view: TiffView,
    data: Seq<u8>,
    offsets: Seq<u32>,
    strip: RawStrip,
) -> bool {
    exists|i: int|
        0 <= i < offsets.len() && describes_strip(view, data, #[trigger] offsets[i], strip)
}

/// The blob of the file about the coding of its raw strip.
pub open spec fn strict_blob(
    view: TiffView,
    data: Seq<u8>,
    ifd0: Seq<EntryView>,
    bps: u32,
) -> Result<LosslessView, Seq<char>> {
    match first_entry(ifd0, TAG_EXIF_IFD) {
        None => Err("no ExifIFD"@),
        Some(entry) => match view.scalar(entry) {
            None => Err("ExifIFD not scalar"@),
            Some(offset) => match maker_note_in(view, data, offset) {
                Err(e) => Err(e),
                Ok((embedded, nikon)) => match blob_entry(nikon) {
                    None => Err("no NefMeta tag"@),
                    Some(e) => if e.count <= 4 {
                        Err("NefMeta too small"@)
                    } else {
                        let at = embedded.base + embedded.u32_of(e.value);
                        match bytes_at(data, at, e.count as int) {
                            None => Err(bytes_eof_message(at as nat, e.count as nat)),
                            Some(meta) => strict_meta(embedded, meta, bps),
                        }
                    },
                },
            },
        },
    }
}

/// What a file says about the coding of its raw strip: some sub-directory has
/// to describe the strip.
pub open spec fn compression_metadata(data: Seq<u8>, chunks: NefChunks) -> Result<
    LosslessView,
    Seq<char>,
> {
    let view = chunks.tiff_view;
    match header_at(data, 0) {
        Err(e) => Err(e),
        Ok((_, first)) => match view.ifd(data, first) {
            Err(e) => Err(e),
            Ok(ifd0) => match first_entry(ifd0, TAG_SUB_IFDS) {
                None => Err("no SubIFDs"@),
                Some(entry) => match view.longs(data, entry) {
                    Err(e) => Err(e),
                    Ok(offsets) => if some_describes_strip(
                        view,
                        data,
                        offsets,
                        chunks.raw_strip,
                    ) {
                        strict_blob(view, data, ifd0, chunks.raw_strip.bits_per_sample)
                    } else {
                        Err("no Nikon lossless compressed SubIFD found"@)
                    },
                },
            },
        },
    }
}

fn is_directory_of(view: &TiffView, data: &[u8], offset: u32, strip: &RawStrip) -> (r: bool)
    ensures
        r == describes_strip(*view, data@, offset, *strip),
{
    let entries = match view.read_ifd(data, offset) {
        Ok(e) => e,
        Err(_) => {
            return false;
        },
    };
    let dir = entries.as_slice();
    let compression: u32 = match view.find_scalar(dir, TAG_COMPRESSION) {
        Some(v) => v,
        None => 1,
    };
    let width: u32 = match view.find_scalar(dir, TAG_IMAGE_WIDTH) {
        Some(v) => v,
        None => 0,
    };
    let height: u32 = match view.find_scalar(dir, TAG_IMAGE_LENGTH) {
        Some(v) => v,
        None => 0,
    };
    compression == COMPRESSION_NIKON_LOSSLESS && width == strip.width && height == strip.height
}

fn any_directory_of(view: &TiffView, data: &[u8], offsets: &Vec<u32>, strip: &RawStrip) -> (r: bool)
    ensures
        r == some_describes_strip(*view, data@, offsets@, *strip),
{
    let mut i: usize = 0;
    while i < offsets.len()
        invariant
            0 <= i <= offsets@.len(),
            forall|k: int|
                0 <= k < i ==> !describes_strip(*view, data@, #[trigger] offsets@[k], *strip),
        decreases offsets@.len() - i,
    {
        if is_directory_of(view, data, offsets[i], strip) {
            assert(describes_strip(*view, data@, offsets@[i as int], *strip));
            return true;
        }
        i = i + 1;
    }
    false
}

fn read_strict_blob(view: &TiffView, data: &[u8], ifd0: &[RawEntry], bps: u32) -> (r: Result<
    NikonLosslessMeta,
    String,
>)
    ensures
        match strict_blob(*view, data@, entry_views(ifd0@), bps) {
            Ok(m) => r is Ok && r->Ok_0@ == m,
            Err(e) => r is Err && r->Err_0@ == e,
        },
        r matches Ok(m) ==> m.huff_select < 6 && (m.split_row > 0 ==> m.huff_select < 5),
{
    let exif_entry = match view.find_entry(ifd0, TAG_EXIF_IFD) {
        Some(e) => e,
        None => {
            return Err("no ExifIFD".to_string());
        },
    };
    let exif_offset = match view.entry_scalar(exif_entry) {
        Some(v) => v,
        None => {
            return Err("ExifIFD not scalar".to_string());
        },
    };
    let (embedded, nikon_ifd) = read_maker_note_in(view, data, exif_offset)?;
    let entry = match find_blob_entry(&embedded, nikon_ifd.as_slice()) {
        Some(e) => e,
        None => {
            return Err("no NefMeta tag".to_string());
        },
    };
    if entry.count <= 4 {
        return Err("NefMeta too small".to_string());
    }
    let at = embedded.place(embedded.decode_u32(entry.value_bytes.as_slice()));
    let meta = read_values(data, at, entry.count as u128)?;
    parse_strict_meta(meta.as_slice(), &embedded, bps)
}

/// Reads what a file says about the coding of its raw strip.
pub fn read_nef_compression_metadata(data: &[u8], chunks: &NefChunks) -> (r: Result<
    NikonLosslessMeta,
    String,
>)
    ensures
        match compression_metadata(data@, *chunks) {
            Ok(m) => r is Ok && r->Ok_0@ == m,
            Err(e) => r is Err && r->Err_0@ == e,
        },
        r matches Ok(m) ==> m.huff_select < 6 && (m.split_row > 0 ==> m.huff_select < 5),
{
    let main = &chunks.tiff_view;
    let (_, ifd0_offset) = TiffView::parse_header(data, 0)?;
    let ifd0 = main.read_ifd(data, ifd0_offset)?;
    let subifds_entry = match main.find_entry(ifd0.as_slice(), TAG_SUB_IFDS) {
        Some(e) => e,
        None => {
            return Err("no SubIFDs".to_string());
        },
    };
    let offsets = main.entry_long_array(data, subifds_entry)?;
    if any_directory_of(main, data, &offsets, &chunks.raw_strip) {
        return read_strict_blob(main, data, ifd0.as_slice(), chunks.raw_strip.bits_per_sample);
    }
    Err("no Nikon lossless compressed SubIFD found".to_string())
}

/// What the comparison of a strip with its second encoding shows.
#[derive(Debug, Clone, Copy, PartialEq, Eq, Structural)]
pub enum RoundTrip {
    /// The strip is not in Nikon's format.
    Skipped,
    /// Both are the same.
    Exact,
    /// One of them has zeros more at its end, so many.
    TrailingZeros(usize),
}

pub open spec fn stream_message(at: nat) -> Seq<char> {
    "bitstream mismatch at byte "@ + decimal(at) + ""@
}

pub open spec fn length_message(original: nat, again: nat) -> Seq<char> {
    "length mismatch: original="@ + decimal(original) + " re-encoded="@ + decimal(again)
        + " (non-zero trailing bytes)"@
}

/// All bytes from `n` on are zero.
pub open spec fn zeros_from(s: Seq<u8>, n: int) -> bool {
    forall|i: int| n <= i < s.len() ==> #[trigger] s[i] == 0
}

/// The verdict on a strip and its second encoding.
pub open spec fn verdict(a: Seq<u8>, b: Seq<u8>) -> Result<RoundTrip, Seq<char>> {
    let n = common_len(a, b);
    if n < a.len() && n < b.len() {
        Err(stream_message(n))
    } else if a.len() == b.len() {
        Ok(RoundTrip::Exact)
    } else if zeros_from(a, n as int) && zeros_from(b, n as int) {
        Ok(
            RoundTrip::TrailingZeros(
                (if a.len() > b.len() {
                    a.len() - b.len()
                } else {
                    b.len() - a.len()
                }) as usize,
            ),
        )
    } else {
        Err(length_message(a.len(), b.len()))
    }
}

fn is_zero_from(s: &[u8], n: usize) -> (r: bool)
    requires
        n <= s@.len(),
    ensures
        r == zeros_from(s@, n as int),
{
    let mut i: usize = n;
    while i < s.len()
        invariant
            n <= i <= s@.len(),
            forall|k: int| n <= k < i ==> #[trigger] s@[k] == 0,
        decreases s@.len() - i,
    {
        if s[i] != 0 {
            return false;
        }
        i = i + 1;
    }
    true
}

/// Compares a strip with its second encoding. Trailing zeros may differ.
pub fn compare_streams(original: &[u8], again: &[u8]) -> (r: Result<RoundTrip, String>)
    ensures
        match verdict(original@, again@) {
            Ok(v) => r == Ok::<RoundTrip, String>(v),
            Err(e) => r is Err && r->Err_0@ == e,
        },
{
    proof {
        lemma_common_len(original@, again@);
    }
    let n = first_mismatch(original, again);
    let a: usize = original.len();
    let b: usize = again.len();
    if n < a && n < b {
        return Err(with_number("bitstream mismatch at byte ", n as u128, ""));
    }
    if a == b {
        return Ok(RoundTrip::Exact);
    }
    if is_zero_from(original, n) && is_zero_from(again, n) {
        let more: usize = if a > b {
            a - b
        } else {
            b - a
        };
        return Ok(RoundTrip::TrailingZeros(more));
    }
    Err(
        then_number(
            with_number("length mismatch: original=", a as u128, " re-encoded="),
            b as u128,
            " (non-zero trailing bytes)",
        ),
    )
}

/// The scheme of a raw strip with given metadata.
pub open spec fn noted_scheme(strip: RawStrip, m: LosslessView) -> Scheme {
    Scheme {
        width: strip.width as nat,
        huff_select: m.huff_select,
        initial: m.initial,
        split_row: m.split_row,
    }
}

/// The outcome of the check on a file.
pub open spec fn checked(data: Seq<u8>, chunks: NefChunks) -> Result<RoundTrip, Seq<char>> {
    let strip = chunks.raw_strip;
    if strip.compression != COMPRESSION_NIKON_LOSSLESS {
        Ok(RoundTrip::Skipped)
    } else {
        match compression_metadata(data, chunks) {
            Err(e) => Err(e),
            Ok(m) => match bytes_at(data, strip.offset as int, strip.length as int) {
                None => Err("read raw: failed to fill whole buffer"@),
                Some(raw) => {
                    let c = noted_scheme(strip, m);
                    let (w, h) = (strip.width as nat, strip.height as nat);
                    if !valid_dimensions(w, h) {
                        Err(dimensions_message(w, h))
                    } else if !holdable(w, h) {
                        Err(too_large_message(w, h))
                    } else {
                        match strip_code(c, h, decoded(c, bits_of(raw), w * h).0) {
                            Err(e) => Err(e),
                            Ok(again) => verdict(raw, again),
                        }
                    }
                },
            },
        }
    }
}

/// Decodes the raw strip of a file, encodes it again and compares both.
pub fn test_roundtrip(data: &[u8], chunks: &NefChunks) -> (r: Result<RoundTrip, String>)
    ensures
        match checked(data@, *chunks) {
            Ok(v) => r == Ok::<RoundTrip, String>(v),
            Err(e) => r is Err && r->Err_0@ == e,
        },
{
    let strip = &chunks.raw_strip;
    if strip.compression != COMPRESSION_NIKON_LOSSLESS {
        return Ok(RoundTrip::Skipped);
    }
    let meta = read_nef_compression_metadata(data, chunks)?;
    let raw = match read_at(data, strip.offset as u128, strip.length as u128) {
        Some(b) => b,
        None => {
            return Err("read raw: failed to fill whole buffer".to_string());
        },
    };
    let width: usize = strip.width as usize;
    let height: usize = strip.height as usize;
    let ghost c = scheme(width, meta.huff_select, meta.initial_predictors, meta.split_row);
    assert(c == noted_scheme(*strip, meta@));
    if width != 0 && height != 0 && width % 2 == 0 {
        check_holdable(width, height)?;
    }
    let (samples, _bits) = decode_samples(
        raw,
        width,
        height,
        meta.huff_select,
        meta.initial_predictors,
        meta.split_row,
    )?;
    let again = encode(
        samples.as_slice(),
        width,
        height,
        strip.bits_per_sample,
        meta.huff_select,
        meta.initial_predictors,
        meta.split_row,
    )?;
    compare_streams(raw, again.as_slice())
}

/// `n` zero bytes.
pub open spec fn zero_bytes(n: nat) -> Seq<u8> {
    Seq::new(n, |i: int| 0u8)
}

/// The verdict is exact on equal strips only. Of two strips of which one is the other with
/// zeros behind it, it gives their number. All others are refused.
#[verifier::spinoff_prover]
pub proof fn lemma_verdict(a: Seq<u8>, b: Seq<u8>, n: nat)
    requires
        a.len() <= usize::MAX,
        b.len() <= usize::MAX,
    ensures
        verdict(a, b) == Ok::<RoundTrip, Seq<char>>(RoundTrip::Exact) <==> a == b,
        n > 0 && (a == b + zero_bytes(n) || b == a + zero_bytes(n)) ==> verdict(a, b) == Ok::<
            RoundTrip,
            Seq<char>,
        >(RoundTrip::TrailingZeros(n as usize)),
        verdict(a, b) matches Ok(RoundTrip::TrailingZeros(z)) ==> z > 0 && (a == b + zero_bytes(
            z as nat,
        ) || b == a + zero_bytes(z as nat)),
        !(verdict(a, b) matches Ok(RoundTrip::Skipped)),
{
    let m = common_len(a, b) as int;
    lemma_common_len(a, b);
    if a == b {
        lemma_common_len_from(a, b);
    }
    if m == a.len() && m == b.len() {
        assert(a.take(m) =~= a && b.take(m) =~= b);
    }
    if verdict(a, b) == Ok::<RoundTrip, Seq<char>>(RoundTrip::Exact) {
        assert(a.take(m) =~= a && b.take(m) =~= b);
    }
    if n > 0 && a == b + zero_bytes(n) {
        lemma_common_len_from(a, b);
        assert(zeros_from(a, m));
    }
    if n > 0 && b == a + zero_bytes(n) {
        lemma_common_len_from(a, b);
        assert(zeros_from(b, m));
    }
    if let Ok(RoundTrip::TrailingZeros(z)) = verdict(a, b) {
        if a.len() > b.len() {
            assert(b.take(m) =~= b);
            assert forall|i: int| 0 <= i < a.len() implies a[i] == (b + zero_bytes(
                z as nat,
            ))[i] by {
                if i < m {
                    assert(a.take(m)[i] == b.take(m)[i]);
                }
            }
            assert(a =~= b + zero_bytes(z as nat));
        } else {
            assert(a.take(m) =~= a);
            assert forall|i: int| 0 <= i < b.len() implies b[i] == (a + zero_bytes(
                z as nat,
            ))[i] by {
                if i < m {
                    assert(a.take(m)[i] == b.take(m)[i]);
                }
            }
            assert(b =~= a + zero_bytes(z as nat));
        }
    }
}

/// Of a strip and its start, the start is common to both.
proof fn lemma_common_len_from(a: Seq<u8>, b: Seq<u8>)
    requires
        forall|i: int| 0 <= i < a.len() && i < b.len() ==> a[i] == b[i],
    ensures
        common_len(a, b) == if a.len() < b.len() {
            a.len()
        } else {
            b.len()
        },
{
    lemma_common_len(a, b);
}

/// A blob is read strictly exactly if it has ten bytes, and 2120 where the first byte is
/// 0x49 or the second 0x58. It then says what it says to the lenient reader.
pub proof fn lemma_strict_meta(embedded: TiffView, meta: Seq<u8>, bps: u32)
    ensures
        strict_meta(embedded, meta, bps) is Ok <==> meta.len() >= 10 && (meta[0] == 0x49 || meta[1]
            == 0x58 ==> meta.len() >= 2120),
        strict_meta(embedded, meta, bps) is Ok ==> strict_meta(embedded, meta, bps) == nikon_meta(
            embedded,
            meta,
            bps,
        ),
{
}

/// The check passes over strips that are not labelled 34713. Of the others it is exact
/// exactly if the samples of the strip are encoded to the strip again.
pub proof fn lemma_checked(data: Seq<u8>, chunks: NefChunks)
    requires
        data.len() <= usize::MAX,
    ensures
        ({
            let strip = chunks.raw_strip;
            let r = checked(data, chunks);
            let (w, h) = (strip.width as nat, strip.height as nat);
            &&& r == Ok::<RoundTrip, Seq<char>>(RoundTrip::Skipped) <==> strip.compression != 34713
            &&& strip.compression == 34713 && compression_metadata(data, chunks) is Err ==> r is Err
            &&& r is Ok && strip.compression == 34713 ==> {
                let m = compression_metadata(data, chunks)->Ok_0;
                let c = Scheme {
                    width: w,
                    huff_select: m.huff_select,
                    initial: m.initial,
                    split_row: m.split_row,
                };
                let raw = if strip.length == 0 {
                    Seq::empty()
                } else {
                    data.subrange(strip.offset as int, strip.offset + strip.length)
                };
                let again = strip_code(c, h, decoded(c, bits_of(raw), w * h).0);
                &&& strip.length == 0 || strip.offset + strip.length <= data.len()
                &&& w > 0 && w % 2 == 0 && h > 0
                &&& again is Ok
                &&& again->Ok_0.len() <= usize::MAX ==> (r == Ok::<RoundTrip, Seq<char>>(
                    RoundTrip::Exact,
                ) <==> again->Ok_0 == raw)
            }
        }),
{
    let strip = chunks.raw_strip;
    if strip.compression == 34713 && checked(data, chunks) is Ok {
        let m = compression_metadata(data, chunks)->Ok_0;
        let c = noted_scheme(strip, m);
        let (w, h) = (strip.width as nat, strip.height as nat);
        let raw = bytes_at(data, strip.offset as int, strip.length as int)->Some_0;
        let again = strip_code(c, h, decoded(c, bits_of(raw), w * h).0)->Ok_0;
        lemma_verdict_kinds(raw, again);
        if again.len() <= usize::MAX {
            lemma_verdict(raw, again, 1);
        }
    }
}

proof fn lemma_verdict_kinds(a: Seq<u8>, b: Seq<u8>)
    ensures
        verdict(a, b) != Ok::<RoundTrip, Seq<char>>(RoundTrip::Skipped),
{
}

/// Where the notes are taken from: tag 330 of the first directory has to list a
/// sub-directory of compression 34713 and of the width and height of the strip; the
/// blob is the one of the MakerNote, with as many bytes as its count, more than four.
#[verifier::spinoff_prover]
pub proof fn lemma_compression_metadata(data: Seq<u8>, chunks: NefChunks)
    requires
        compression_metadata(data, chunks) is Ok,
    ensures
        ({
            let view = chunks.tiff_view;
            let strip = chunks.raw_strip;
            let ifd0 = view.ifd(data, header_at(data, 0)->Ok_0.1)->Ok_0;
            let offsets = view.longs(data, first_entry(ifd0, 330)->Some_0);
            let exif = view.tag_scalar(ifd0, 34665);
            &&& header_at(data, 0) is Ok
            &&& view.ifd(data, header_at(data, 0)->Ok_0.1) is Ok
            &&& first_entry(ifd0, 330) is Some
            &&& offsets is Ok
            &&& exists|i: int|
                {
                    &&& 0 <= i < offsets->Ok_0.len()
                    &&& view.ifd(data, #[trigger] offsets->Ok_0[i]) is Ok
                    &&& {
                        let entries = view.ifd(data, offsets->Ok_0[i])->Ok_0;
                        &&& view.tag_scalar(entries, 259) == Some(34713u32)
                        &&& number_or(view, entries, 256, 0) == strip.width
                        &&& number_or(view, entries, 257, 0) == strip.height
                    }
                }
            &&& exif is Some
            &&& maker_note_in(view, data, exif->Some_0) is Ok
            &&& {
                let (embedded, nikon) = maker_note_in(view, data, exif->Some_0)->Ok_0;
                let e = blob_entry(nikon);
                &&& e is Some
                &&& e->Some_0.count > 4
                &&& e->Some_0.value.len() == 4 ==> {
                    let at = embedded.base + number32(e->Some_0.value, 0, embedded.little_endian);
                    &&& at + e->Some_0.count <= data.len()
                    &&& compression_metadata(data, chunks) == strict_meta(
                        embedded,
                        data.subrange(at, at + e->Some_0.count),
                        strip.bits_per_sample,
                    )
                }
            }
        }),
{
    let view = chunks.tiff_view;
    let strip = chunks.raw_strip;
    let ifd0 = view.ifd(data, header_at(data, 0)->Ok_0.1)->Ok_0;
    let offsets = view.longs(data, first_entry(ifd0, 330)->Some_0)->Ok_0;
    let i = choose|i: int|
        0 <= i < offsets.len() && describes_strip(view, data, #[trigger] offsets[i], strip);
    assert(view.ifd(data, offsets[i]) is Ok);
    let exif = view.tag_scalar(ifd0, 34665)->Some_0;
    let (embedded, nikon) = maker_note_in(view, data, exif)->Ok_0;
    let e = blob_entry(nikon)->Some_0;
    if e.value.len() == 4 {
        assert(embedded.u32_of(e.value) == number32(e.value, 0, embedded.little_endian));
    }
}

/// A sub-directory describes the strip exactly if it can be read, its compression, tag 259,
/// is 34713, and its width and height, tags 256 and 257, are those of the strip.
pub proof fn lemma_describes_strip(view: TiffView, data: Seq<u8>, offset: u32, strip: RawStrip)
    ensures
        describes_strip(view, data, offset, strip) <==> {
            let entries = view.ifd(data, offset)->Ok_0;
            &&& view.ifd(data, offset) is Ok
            &&& view.tag_scalar(entries, 259) == Some(34713u32)
            &&& number_or(view, entries, 256, 0) == strip.width
            &&& number_or(view, entries, 257, 0) == strip.height
        },
{
}

/// Where the blob is looked for: in the MakerNote of the directory that tag 34665 points to.
/// Its count, more than four, is the number of its bytes.
pub proof fn lemma_strict_blob(view: TiffView, data: Seq<u8>, ifd0: Seq<EntryView>, bps: u32)
    ensures
        ({
            let r = strict_blob(view, data, ifd0, bps);
            match view.tag_scalar(ifd0, 34665) {
                None => r is Err,
                Some(exif) => match maker_note_in(view, data, exif) {
                    Err(e) => r == Err::<LosslessView, Seq<char>>(e),
                    Ok((embedded, nikon)) => match blob_entry(nikon) {
                        None => r is Err,
                        Some(e) => e.value.len() == 4 ==> {
                            let at = embedded.base + number32(e.value, 0, embedded.little_endian);
                            if e.count > 4 && at + e.count <= data.len() {
                                r == strict_meta(
                                    embedded,
                                    data.subrange(at, at + e.count),
                                    bps,
                                )
                            } else {
                                r is Err
                            }
                        },
                    },
                },
            }
        }),
{
    if let Some(exif) = view.tag_scalar(ifd0, 34665) {
        if let Ok((embedded, nikon)) = maker_note_in(view, data, exif) {
            if let Some(e) = blob_entry(nikon) {
                if e.value.len() == 4 {
                    assert(embedded.u32_of(e.value) == number32(
                        e.value,
                        0,
                        embedded.little_endian,
                    ));
                }
            }
        }
    }
}

} // verus!
