use nef_compactor::cnef::RawSource;
use nef_compactor::job::{classify_strip, plan_file, select_raw_source, StripFormat};
use nef_compactor::nef::{parse_nikon_meta, read_nikon_lossless_meta, scan_nef, JpegLabel, RawStrip};
use nef_compactor::nikon_lossless::encode;
use nef_compactor::roundtrip::{
    compare_streams, parse_strict_meta, read_nef_compression_metadata, test_roundtrip, RoundTrip,
};
use nef_compactor::tiff::{read_jpeg_sof, RawEntry, TiffView};

fn put16(d: &mut Vec<u8>, at: usize, v: u16) {
    d[at] = (v % 256) as u8;
    d[at + 1] = (v / 256) as u8;
}

fn put32(d: &mut Vec<u8>, at: usize, v: u32) {
    put16(d, at, (v % 65536) as u16);
    put16(d, at + 2, (v / 65536) as u16);
}

// A directory of entries of tag, type, count and value.
fn put_ifd(d: &mut Vec<u8>, at: usize, entries: &[(u16, u16, u32, u32)]) {
    put16(d, at, entries.len() as u16);
    for (i, e) in entries.iter().enumerate() {
        let p = at + 2 + 12 * i;
        put16(d, p, e.0);
        put16(d, p + 2, e.1);
        put32(d, p + 4, e.2);
        put32(d, p + 8, e.3);
    }
}

fn put_jpeg(d: &mut Vec<u8>, at: usize, width: u16, height: u16) {
    let head: Vec<u8> = vec![
        0xFF, 0xD8, 0xFF, 0xE0, 0, 4, 9, 9, 0xFF, 0xFF, 0xC0, 0, 17, 8,
        (height / 256) as u8,
        (height % 256) as u8,
        (width / 256) as u8,
        (width % 256) as u8,
    ];
    d[at..at + head.len()].copy_from_slice(&head);
}

// A file with a thumbnail, a raw strip of 4x2 samples, a JPEG and a preview.
fn nef() -> Vec<u8> {
    let mut d: Vec<u8> = vec![0; 1600];
    d[0] = b'I';
    d[1] = b'I';
    put16(&mut d, 2, 42);
    put32(&mut d, 4, 8);
    put_ifd(
        &mut d,
        8,
        &[(0x201, 4, 1, 1000), (0x202, 4, 1, 40), (0x14A, 4, 3, 300), (0x8769, 4, 1, 400)],
    );
    put32(&mut d, 300, 500);
    put32(&mut d, 304, 600);
    put32(&mut d, 308, 4_000_000);
    put_ifd(&mut d, 400, &[(0x927C, 7, 200, 700)]);
    put_ifd(
        &mut d,
        500,
        &[
            (0x103, 3, 1, 34713),
            (0x100, 4, 1, 4),
            (0x101, 4, 1, 2),
            (0x111, 4, 1, 1500),
            (0x117, 4, 1, 11),
            (0x102, 3, 1, 14),
        ],
    );
    put_ifd(&mut d, 600, &[(0x103, 3, 1, 6), (0x201, 4, 1, 1100), (0x202, 4, 1, 41)]);
    d[700..706].copy_from_slice(b"Nikon\0");
    d[710] = b'I';
    d[711] = b'I';
    put16(&mut d, 712, 42);
    put32(&mut d, 714, 8);
    put_ifd(&mut d, 718, &[(0x11, 4, 1, 200), (0x96, 7, 20, 240)]);
    put_ifd(&mut d, 910, &[(0x201, 4, 1, 490), (0x202, 4, 1, 42)]);
    d[950] = 0x46;
    d[951] = 0x30;
    put16(&mut d, 952, 1000);
    put16(&mut d, 954, 1001);
    put16(&mut d, 956, 1002);
    put16(&mut d, 958, 1003);
    put_jpeg(&mut d, 1000, 160, 120);
    put_jpeg(&mut d, 1100, 6000, 4000);
    put_jpeg(&mut d, 1200, 640, 424);
    let px: Vec<u16> = vec![1000, 1002, 1010, 990, 1001, 1003, 900, 1100];
    let strip = encode(&px, 4, 2, 14, 5, [[1000, 1002], [1001, 1003]], 0).unwrap();
    assert!(strip.len() <= 11);
    d[1500..1500 + strip.len()].copy_from_slice(&strip);
    d
}

#[test]
fn chunks_are_found() {
    let d = nef();
    let c = scan_nef(&d).unwrap();
    assert_eq!(c.file_size, 1600);
    assert!(c.tiff_view.little_endian);
    assert_eq!(c.tiff_view.base, 0);
    let r = &c.raw_strip;
    assert_eq!((r.offset, r.length, r.width, r.height), (1500, 11, 4, 2));
    assert_eq!((r.bits_per_sample, r.compression, r.is_jpeg_xs), (14, 34713, false));
    let found: Vec<(u64, u32, u32, u32, JpegLabel)> =
        c.jpegs.iter().map(|j| (j.offset, j.length, j.width, j.height, j.label)).collect();
    assert_eq!(
        found,
        vec![
            (1000, 40, 160, 120, JpegLabel::Thumbnail),
            (1100, 41, 6000, 4000, JpegLabel::JpgFromRaw),
            (1200, 42, 640, 424, JpegLabel::PreviewImage),
        ]
    );
}

#[test]
fn larger_strips_and_jpegs_win() {
    let mut d = nef();
    // The third directory holds a smaller raw strip, then a larger one.
    put32(&mut d, 308, 1300);
    let strip = |w: u32| {
        vec![
            (0x103u16, 3u16, 1u32, 1u32),
            (0x100, 4, 1, w),
            (0x101, 4, 1, 2),
            (0x111, 4, 1, 1400),
            (0x117, 3, 1, 8),
        ]
    };
    put_ifd(&mut d, 1300, &strip(4));
    assert_eq!(scan_nef(&d).unwrap().raw_strip.offset, 1500);
    put_ifd(&mut d, 1300, &strip(5));
    let r = scan_nef(&d).unwrap().raw_strip;
    assert_eq!((r.offset, r.length, r.width, r.compression), (1400, 8, 5, 1));
    assert_eq!(r.bits_per_sample, 14);
    d[1400..1404].copy_from_slice(&[0xFF, 0x10, 0xFF, 0x50]);
    assert!(scan_nef(&d).unwrap().raw_strip.is_jpeg_xs);
    // A smaller JPEG does not replace a larger one.
    put_ifd(&mut d, 1300, &[(0x103, 3, 1, 7), (0x201, 4, 1, 1200), (0x202, 4, 1, 42)]);
    assert_eq!(scan_nef(&d).unwrap().jpegs[1].offset, 1100);
}

#[test]
fn files_that_cannot_be_scanned() {
    let eof = ": failed to fill whole buffer";
    assert_eq!(
        scan_nef(b"II*").err().unwrap(),
        format!("TIFF: header read at 0{eof}")
    );
    assert_eq!(scan_nef(b"IM*\0\0\0\0\0").err().unwrap(), "TIFF: bad endian mark [49, 4D]");
    assert_eq!(scan_nef(b"MM\x01\xAB\0\0\0\x08").err().unwrap(), "TIFF: bad magic 0x01AB");
    assert_eq!(
        scan_nef(b"II*\0\x08\0\0\0").err().unwrap(),
        format!("TIFF: IFD count read at 8{eof}")
    );
    assert_eq!(
        scan_nef(b"II*\0\x08\0\0\0\x01\x04").err().unwrap(),
        "TIFF: implausible IFD entry count 1025"
    );
    assert_eq!(
        scan_nef(b"II*\0\x08\0\0\0\x01\0\0\0").err().unwrap(),
        format!("TIFF: IFD entries read at 8{eof}")
    );
    assert_eq!(
        scan_nef(b"II*\0\x08\0\0\0\0\0").err().unwrap(),
        "NEF: no raw data strip found"
    );

    let mut d = nef();
    put16(&mut d, 8 + 2 + 24 + 2, 3);
    assert_eq!(scan_nef(&d).err().unwrap(), "TIFF: expected LONG type, got 3");
    let mut d = nef();
    put32(&mut d, 8 + 2 + 24 + 8, 1599);
    assert_eq!(scan_nef(&d).err().unwrap(), format!("TIFF: LONG array read at 1599{eof}"));
    let mut d = nef();
    put16(&mut d, 8 + 2 + 36 + 2, 7);
    assert_eq!(scan_nef(&d).err().unwrap(), "ExifIFD pointer not scalar");
    let mut d = nef();
    put16(&mut d, 718 + 2 + 2, 7);
    assert_eq!(scan_nef(&d).err().unwrap(), "Nikon PreviewIFD pointer not scalar");
    let mut d = nef();
    put32(&mut d, 500 + 2 + 36 + 8, 1598);
    assert_eq!(scan_nef(&d).err().unwrap(), format!("read strip header{eof}"));
    // Without a Nikon note there is no preview.
    let mut d = nef();
    d[700] = b'X';
    assert_eq!(scan_nef(&d).unwrap().jpegs.len(), 2);
    // A byte count of zero is no strip.
    let mut d = nef();
    put32(&mut d, 500 + 2 + 48 + 8, 0);
    assert_eq!(scan_nef(&d).err().unwrap(), "NEF: no raw data strip found");
}

#[test]
fn jpeg_sizes() {
    let mut d: Vec<u8> = vec![0; 100];
    put_jpeg(&mut d, 10, 300, 200);
    assert_eq!(read_jpeg_sof(&d, 10, 60), Ok((300, 200)));
    assert_eq!(read_jpeg_sof(&d, 11, 60).unwrap_err(), "JPEG: no SOI at offset 11");
    assert_eq!(read_jpeg_sof(&d, 10, 3).unwrap_err(), "JPEG: no SOI at offset 10");
    assert_eq!(
        read_jpeg_sof(&d, 10, 91).unwrap_err(),
        "JPEG: read at 10: failed to fill whole buffer"
    );
    assert_eq!(read_jpeg_sof(&d, 10, 17).unwrap_err(), "JPEG: SOF truncated");
    assert_eq!(read_jpeg_sof(&d, 10, 10).unwrap_err(), "JPEG: SOF not found");
    assert_eq!(read_jpeg_sof(&d, 10, 5).unwrap_err(), "JPEG: segment len OOB");
    d[15] = 1;
    assert_eq!(read_jpeg_sof(&d, 10, 60).unwrap_err(), "JPEG: seg_len < 2");
    // Markers that stand alone are passed over.
    let e: Vec<u8> = vec![0xFF, 0xD8, 0xFF, 0xD0, 0x01, 0xC2, 0, 0, 0, 1, 2, 3, 4];
    assert_eq!(read_jpeg_sof(&e, 0, 13), Ok((0x0304, 0x0102)));
}

#[test]
fn tiff_numbers() {
    let le = TiffView { little_endian: true, base: 10 };
    let be = TiffView { little_endian: false, base: 10 };
    assert_eq!(le.decode_u16(&[0x34, 0x12]), 0x1234);
    assert_eq!(be.decode_u16(&[0x12, 0x34]), 0x1234);
    assert_eq!(le.decode_u32(&[0x78, 0x56, 0x34, 0x12]), 0x1234_5678);
    assert_eq!(be.decode_u32(&[0x12, 0x34, 0x56, 0x78]), 0x1234_5678);
    assert_eq!(le.encode_u16(0x1234), [0x34, 0x12]);
    assert_eq!(be.encode_u16(0x1234), [0x12, 0x34]);
    assert_eq!(le.encode_u32(0x1234_5678), [0x78, 0x56, 0x34, 0x12]);
    assert_eq!(be.encode_u32(0x1234_5678), [0x12, 0x34, 0x56, 0x78]);
    assert_eq!(be.decode_u32(&be.encode_u32(0xDEAD_BEEF)), 0xDEAD_BEEF);
    assert_eq!(le.abs_from_ifd_offset(32), 42);
}

#[test]
fn tiff_entries() {
    let le = TiffView { little_endian: true, base: 0 };
    let entry = |t: u16, n: u32| RawEntry {
        tag: 7,
        field_type: t,
        count: n,
        value_bytes: [1, 2, 3, 4],
    };
    assert_eq!(entry(3, 5).byte_size(), 10);
    assert_eq!(entry(4, 5).byte_size(), 20);
    assert_eq!(entry(5, 5).byte_size(), 40);
    assert_eq!(entry(7, 5).byte_size(), 5);
    assert_eq!(le.entry_scalar(&entry(3, 1)), Some(0x0201));
    assert_eq!(le.entry_scalar(&entry(4, 1)), Some(0x0403_0201));
    assert_eq!(le.entry_scalar(&entry(7, 1)), None);
    assert_eq!(le.entry_scalar(&entry(4, 2)), None);
    assert_eq!(le.entry_long_array(&[], &entry(4, 0)), Ok(vec![]));
    assert_eq!(le.entry_long_array(&[], &entry(4, 1)), Ok(vec![0x0403_0201]));
    let entries = [entry(3, 1), entry(4, 1)];
    assert_eq!(le.find_entry(&entries, 7).unwrap().field_type, 3);
    assert!(le.find_entry(&entries, 8).is_none());
    assert_eq!(le.read_bytes(&[1, 2, 3], 1, 2), Ok(vec![2, 3]));
    assert_eq!(le.read_bytes(&[1, 2, 3], 9, 0), Ok(vec![]));
    assert_eq!(
        le.read_bytes(&[1, 2, 3], 2, 2).unwrap_err(),
        "TIFF: read 2 bytes at 2: failed to fill whole buffer"
    );
}

#[test]
fn lossless_metadata_is_read() {
    let d = nef();
    let c = scan_nef(&d).unwrap();
    let m = read_nikon_lossless_meta(&d, &c).unwrap();
    assert_eq!(m.huff_select, 5);
    assert_eq!(m.initial_predictors, [[1000, 1002], [1001, 1003]]);
    assert_eq!(m.split_row, 0);
}

#[test]
fn lossless_metadata_errors() {
    let c = scan_nef(&nef()).unwrap();
    let fails = |at: usize, v: u16| {
        let mut d = nef();
        put16(&mut d, at, v);
        read_nikon_lossless_meta(&d, &c).err().unwrap()
    };
    assert_eq!(fails(8 + 2 + 36, 0x8768), "no ExifIFD");
    assert_eq!(fails(8 + 2 + 36 + 2, 7), "ExifIFD not scalar");
    assert_eq!(fails(400 + 2, 1), "no MakerNote");
    assert_eq!(
        fails(400 + 2 + 8, 1595),
        "read MakerNote header: failed to fill whole buffer"
    );
    assert_eq!(fails(700, 0), "not a Nikon MakerNote");
    assert_eq!(fails(718 + 2 + 12, 1), "no NefMeta tag");
    assert_eq!(fails(718 + 2 + 12 + 4, 4), "NefMeta too small");
    assert_eq!(fails(718 + 2 + 12 + 4, 9), "NefMeta too short");
    assert_eq!(
        fails(718 + 2 + 12 + 8, 880),
        "TIFF: read 20 bytes at 1590: failed to fill whole buffer"
    );
    // The older tag is taken where the newer one is missing.
    let mut d = nef();
    put16(&mut d, 718 + 2 + 12, 0x8C);
    assert_eq!(read_nikon_lossless_meta(&d, &c).unwrap().huff_select, 5);
}

#[test]
fn blobs_select_tables() {
    let view = TiffView { little_endian: false, base: 0 };
    let mut meta: Vec<u8> = vec![0; 600];
    meta[0] = 0x44;
    meta[1] = 0x20;
    meta[3] = 1;
    meta[5] = 2;
    meta[7] = 3;
    meta[9] = 4;
    meta[11] = 2;
    meta[562] = 1;
    meta[563] = 5;
    let m = parse_nikon_meta(&meta, &view, 12).unwrap();
    assert_eq!((m.huff_select, m.split_row), (0, 261));
    assert_eq!(m.initial_predictors, [[1, 3], [2, 4]]);
    assert_eq!(parse_nikon_meta(&meta, &view, 14).unwrap().huff_select, 3);
    // Without a curve there is no split row.
    meta[11] = 1;
    assert_eq!(parse_nikon_meta(&meta, &view, 12).unwrap().split_row, 0);
    meta[11] = 2;
    meta[1] = 0x40;
    assert_eq!(parse_nikon_meta(&meta, &view, 12).unwrap().split_row, 261);
    assert_eq!(parse_nikon_meta(&meta[..563], &view, 12).unwrap().split_row, 0);
    meta[1] = 0x41;
    assert_eq!(parse_nikon_meta(&meta, &view, 12).unwrap().split_row, 0);
    meta[0] = 0x46;
    assert_eq!(parse_nikon_meta(&meta, &view, 12).unwrap().huff_select, 2);
    assert_eq!(parse_nikon_meta(&meta, &view, 14).unwrap().huff_select, 5);
}

#[test]
fn blobs_with_an_extra_block() {
    let view = TiffView { little_endian: true, base: 0 };
    let mut meta: Vec<u8> = vec![0; 2120];
    meta[0] = 0x49;
    meta[2] = 9;
    meta[2112] = 7;
    assert_eq!(parse_nikon_meta(&meta, &view, 14).unwrap().initial_predictors[0][0], 7);
    assert_eq!(parse_strict_meta(&meta, &view, 14).unwrap().initial_predictors[0][0], 7);
    // Too short for the block: it is taken to be missing, unless all that is
    // announced is asked for.
    let short = &meta[..2119];
    assert_eq!(parse_nikon_meta(short, &view, 14).unwrap().initial_predictors[0][0], 9);
    assert_eq!(
        parse_strict_meta(short, &view, 14).err().unwrap(),
        "NefMeta: predictor data truncated"
    );
    assert_eq!(parse_strict_meta(&meta[..9], &view, 14).err().unwrap(), "NefMeta too short");
    assert_eq!(parse_nikon_meta(&meta[..9], &view, 14).err().unwrap(), "NefMeta too short");
}

fn strip(length: u64, width: u32, height: u32, bps: u32, compression: u32) -> RawStrip {
    RawStrip {
        offset: 0,
        length,
        width,
        height,
        bits_per_sample: bps,
        compression,
        is_jpeg_xs: false,
    }
}

#[test]
fn strips_are_classified() {
    let f = |s: RawStrip| classify_strip(&s);
    assert_eq!(f(strip(149, 10, 10, 12, 34713)), Ok(StripFormat::Lossless));
    assert_eq!(f(strip(150, 10, 10, 12, 34713)), Ok(StripFormat::Uncompressed));
    assert_eq!(f(strip(140, 10, 10, 12, 1)), Ok(StripFormat::Uncompressed));
    assert_eq!(f(strip(300, 10, 10, 12, 34713)).unwrap_err(), "sNEF (YCbCr small RAW) not supported");
    assert_eq!(
        f(strip(155, 10, 10, 12, 34713)).unwrap_err(),
        "uncompressed raw with irregular layout (155 bytes / 10 rows)"
    );
    assert_eq!(
        f(strip(155, 10, 0, 12, 1)).unwrap_err(),
        "uncompressed raw with irregular layout (155 bytes / 0 rows)"
    );
    let mut xs = strip(149, 10, 10, 12, 34713);
    xs.is_jpeg_xs = true;
    assert_eq!(
        f(xs).unwrap_err(),
        "HE/HE* NEF not supported (HE/HE* already lossy encodes the raw with JPEG XS)"
    );
}

#[test]
fn source_of_the_raw_strip() {
    let d = nef();
    let c = scan_nef(&d).unwrap();
    match select_raw_source(&d, &c).unwrap() {
        RawSource::Lossless(m) => assert_eq!(m.huff_select, 5),
        RawSource::Uncompressed => panic!("the strip is compressed"),
    }
    let mut bad = nef();
    bad[700] = 0;
    assert_eq!(
        select_raw_source(&bad, &c).err().unwrap(),
        "Nikon raw linearization metadata not found (not a Nikon MakerNote)"
    );
    let mut u = c;
    u.raw_strip.length = 16;
    assert!(matches!(select_raw_source(&d, &u), Ok(RawSource::Uncompressed)));
}

#[test]
fn files_are_planned() {
    let mut d = nef();
    let c = scan_nef(&d).unwrap();
    let p = plan_file(&d, &c).unwrap();
    assert!(p.failure.is_none());
    let places: Vec<(u8, u64, u64)> = p
        .pieces
        .iter()
        .map(|x| (x.seg_type.to_u8(), x.original_offset, x.original_length))
        .collect();
    assert_eq!(
        places,
        vec![
            (1, 0, 1000),
            (3, 1000, 40),
            (1, 1040, 60),
            (3, 1100, 41),
            (1, 1141, 59),
            (3, 1200, 42),
            (1, 1242, 258),
            (2, 1500, 11),
            (1, 1511, 89),
        ]
    );
    // A strip that is noted as lossless is taken whatever its bytes are.
    for (i, b) in d[1500..1511].iter_mut().enumerate() {
        *b = (i * 91 + 3) as u8;
    }
    assert!(plan_file(&d, &c).unwrap().failure.is_none());

    let mut xs = c.clone();
    xs.raw_strip.is_jpeg_xs = true;
    assert!(plan_file(&d, &xs).err().unwrap().starts_with("HE/HE* NEF not supported"));
}

#[test]
fn large_images_are_refused_where_they_would_be_decoded() {
    let d = nef();
    let c = scan_nef(&d).unwrap();
    let planned = |f: &dyn Fn(&mut nef_compactor::nef::RawStrip)| {
        let mut x = c.clone();
        x.raw_strip.width = 1 << 31;
        x.raw_strip.height = 1 << 31;
        f(&mut x.raw_strip);
        plan_file(&d, &x)
    };
    let failure = |f: &dyn Fn(&mut nef_compactor::nef::RawStrip)| planned(f).unwrap().failure.unwrap();
    assert_eq!(failure(&|_| {}), "raw image too large: 2147483648x2147483648");
    assert_eq!(failure(&|s| s.width = 2147483649), "invalid dimensions 2147483649x2147483648");
    assert_eq!(
        failure(&|s| s.offset = 1595),
        "read 11 bytes at 1595: failed to fill whole buffer"
    );
    // Uncompressed strips are refused by their size alone.
    assert_eq!(
        planned(&|s| s.compression = 1).err().unwrap(),
        "uncompressed raw with irregular layout (11 bytes / 2147483648 rows)"
    );
    assert_eq!(
        failure(&|s| {
            s.compression = 1;
            s.height = 11;
        }),
        "uncompressed raw: irregular row layout"
    );
}

#[test]
fn raw_codec_is_checked_on_a_file() {
    let d = nef();
    let mut c = scan_nef(&d).unwrap();
    let m = read_nef_compression_metadata(&d, &c).unwrap();
    assert_eq!((m.huff_select, m.split_row), (5, 0));
    assert_eq!(m.initial_predictors, [[1000, 1002], [1001, 1003]]);
    match test_roundtrip(&d, &c) {
        Ok(RoundTrip::Exact) | Ok(RoundTrip::TrailingZeros(_)) => {}
        other => panic!("{other:?}"),
    }
    let mut bad = nef();
    bad[700] = 0;
    assert_eq!(test_roundtrip(&bad, &c).unwrap_err(), "not a Nikon MakerNote");
    let mut bad = nef();
    put16(&mut bad, 500 + 2, 1);
    assert_eq!(
        test_roundtrip(&bad, &c).unwrap_err(),
        "no Nikon lossless compressed SubIFD found"
    );
    let mut bad = nef();
    put16(&mut bad, 8 + 2 + 24, 1);
    assert_eq!(test_roundtrip(&bad, &c).unwrap_err(), "no SubIFDs");
    c.raw_strip.offset = 1595;
    assert_eq!(
        test_roundtrip(&d, &c).unwrap_err(),
        "read raw: failed to fill whole buffer"
    );
    c.raw_strip.compression = 1;
    assert_eq!(test_roundtrip(&d, &c), Ok(RoundTrip::Skipped));
}

#[test]
fn streams_are_compared() {
    assert_eq!(compare_streams(&[1, 2], &[1, 2]), Ok(RoundTrip::Exact));
    assert_eq!(compare_streams(&[1, 2, 0, 0], &[1, 2]), Ok(RoundTrip::TrailingZeros(2)));
    assert_eq!(compare_streams(&[1, 2], &[1, 2, 0]), Ok(RoundTrip::TrailingZeros(1)));
    assert_eq!(compare_streams(&[1, 2], &[1, 3]).unwrap_err(), "bitstream mismatch at byte 1");
    assert_eq!(
        compare_streams(&[1, 2, 0, 7], &[1, 2]).unwrap_err(),
        "length mismatch: original=4 re-encoded=2 (non-zero trailing bytes)"
    );
}
