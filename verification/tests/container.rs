use nef_compactor::bytes::{push_i32, push_le, read_le};
use nef_compactor::gap::{zstd_compress, zstd_decompress};
use nef_compactor::segment::{parse, write_container, RawPixelsMeta, Segment, SegmentType};
use nef_compactor::strip::{
    bias_pixels, reconstruct_raw_strip, split_jxl_payload, unbias_pixels,
};

fn zstd_segment(offset: u64, length: u64, payload: Vec<u8>) -> Segment {
    Segment {
        seg_type: SegmentType::Zstd,
        original_offset: offset,
        original_length: length,
        payload,
        raw_meta: None,
    }
}

fn raw_segment(payload: Vec<u8>) -> Segment {
    Segment {
        seg_type: SegmentType::RawPixelsBiasedJxl,
        original_offset: 3,
        original_length: 0x0102_0304_0506_0708,
        payload,
        raw_meta: Some(RawPixelsMeta {
            width: 6000,
            height: 4000,
            bits_per_sample: 14,
            huff_select: 5,
            split_row: 70000,
            initial_predictors: [-1, 2, i32::MIN, i32::MAX],
        }),
    }
}

#[test]
fn container_bytes_are_laid_out() {
    let out = write_container(300, &vec![zstd_segment(1, 2, vec![9, 8, 7])]);
    let expected: Vec<u8> = vec![
        b'C', b'N', b'E', b'F', 1, 44, 1, 0, 0, 0, 0, 0, 0, 1, 0, 0, 0, 1, 1, 0, 0, 0, 0, 0, 0, 0,
        2, 0, 0, 0, 0, 0, 0, 0, 3, 0, 0, 0, 0, 0, 0, 0, 9, 8, 7,
    ];
    assert_eq!(out, expected);
}

#[test]
fn raw_metadata_is_laid_out() {
    let out = write_container(0, &vec![raw_segment(vec![])]);
    assert_eq!(out.len(), 17 + 55);
    assert_eq!(out[17], 5);
    let meta: Vec<u8> = vec![
        0x70, 0x17, 0, 0, 0xA0, 0x0F, 0, 0, 14, 5, 0x70, 0x11, 1, 0, 0xFF, 0xFF, 0xFF, 0xFF, 2, 0,
        0, 0, 0, 0, 0, 0x80, 0xFF, 0xFF, 0xFF, 0x7F,
    ];
    assert_eq!(out[42..], meta[..]);
}

#[test]
fn container_is_read_as_written() {
    let segments = vec![
        zstd_segment(0, 3, vec![1, 2, 3]),
        raw_segment(vec![4, 5, 6, 7, 8]),
        Segment {
            seg_type: SegmentType::JpegJxl,
            original_offset: 77,
            original_length: 78,
            payload: vec![],
            raw_meta: None,
        },
    ];
    let p = parse(&write_container(12345, &segments));
    assert!(p.failure.is_none());
    assert_eq!(p.original_file_size, 12345);
    assert_eq!(p.segments.len(), 3);
    for (a, b) in p.segments.iter().zip(segments.iter()) {
        assert_eq!(a.seg_type, b.seg_type);
        assert_eq!(a.original_offset, b.original_offset);
        assert_eq!(a.original_length, b.original_length);
        assert_eq!(a.payload, b.payload);
        assert_eq!(a.raw_meta.is_some(), b.raw_meta.is_some());
    }
    let m = p.segments[1].raw_meta.unwrap();
    assert_eq!((m.width, m.height, m.bits_per_sample), (6000, 4000, 14));
    assert_eq!((m.huff_select, m.split_row), (5, 70000));
    assert_eq!(m.initial_predictors, [-1, 2, i32::MIN, i32::MAX]);
}

#[test]
fn unreadable_containers() {
    let eof = "read error: failed to fill whole buffer";
    assert_eq!(parse(b"CN").failure.unwrap(), eof);
    assert_eq!(
        parse(b"NEFC....").failure.unwrap(),
        "not a CNEF file (magic: [78, 69, 70, 67])"
    );
    assert_eq!(parse(b"CNEF").failure.unwrap(), eof);
    assert_eq!(parse(b"CNEF\x02").failure.unwrap(), "unsupported CNEF version 2");
    assert_eq!(parse(b"CNEF\x01abc").failure.unwrap(), eof);

    let good = write_container(10, &vec![zstd_segment(0, 3, vec![1, 2, 3]), raw_segment(vec![4])]);
    for cut in 17..good.len() {
        let p = parse(&good[..cut]);
        assert_eq!(p.failure.unwrap(), eof);
        assert_eq!(p.original_file_size, 10);
        assert_eq!(p.segments.len(), if cut < 45 { 0 } else { 1 });
    }
    let mut unknown = good.clone();
    unknown[45] = 6;
    let p = parse(&unknown);
    assert_eq!(p.failure.unwrap(), "unknown segment type 6");
    assert_eq!(p.segments.len(), 1);
}

#[test]
fn segment_types_have_their_codes() {
    for code in 1u8..=5 {
        let t = SegmentType::from_u8(code).unwrap();
        assert_eq!(t.to_u8(), code);
        assert_eq!(t.has_raw_meta(), code == 2 || code == 4 || code == 5);
    }
    assert_eq!(SegmentType::from_u8(0).unwrap_err(), "unknown segment type 0");
    assert_eq!(SegmentType::from_u8(255).unwrap_err(), "unknown segment type 255");
}

#[test]
fn little_endian_numbers() {
    let mut v: Vec<u8> = Vec::new();
    push_le(&mut v, 0x1234_5678_9ABC_DEF0, 8);
    push_le(&mut v, 0x1234_5678, 2);
    push_i32(&mut v, -2);
    assert_eq!(
        v,
        vec![0xF0, 0xDE, 0xBC, 0x9A, 0x78, 0x56, 0x34, 0x12, 0x78, 0x56, 0xFE, 0xFF, 0xFF, 0xFF]
    );
    assert_eq!(read_le(&v, 0, 8), 0x1234_5678_9ABC_DEF0);
    assert_eq!(read_le(&v, 8, 2), 0x5678);
    assert_eq!(read_le(&v, 3, 0), 0);
}

#[test]
fn gaps_are_compressed_and_come_back() {
    let data: Vec<u8> = vec![7; 5000];
    let frame = zstd_compress(&data).unwrap();
    assert!(frame.len() < 100);
    assert_eq!(zstd_decompress(&frame).unwrap(), data);
    let noise: Vec<u8> = (0u32..300).map(|i| (i * i * 31 + 5) as u8).collect();
    assert_eq!(zstd_decompress(&zstd_compress(&noise).unwrap()).unwrap(), noise);
    let e = zstd_decompress(&[1, 2, 3, 4, 5, 6, 7, 8, 9]).unwrap_err();
    assert!(e.starts_with("zstd decompress: "));
}

#[test]
fn samples_out_of_range_are_biased() {
    let (values, depth, bias) = bias_pixels(vec![5, 65530, 10], 14);
    assert_eq!((values, depth, bias), (vec![11, 0, 16], 5, Some(-6)));
    assert_eq!(unbias_pixels(&[11, 0, 16], -6), vec![5, 65530, 10]);

    let (values, depth, bias) = bias_pixels(vec![5000, 10], 12);
    assert_eq!((values, depth, bias), (vec![4990, 0], 13, Some(10)));
    assert_eq!(unbias_pixels(&[4990, 0], 10), vec![5000, 10]);

    let (values, depth, bias) = bias_pixels(vec![5000, 5000], 12);
    assert_eq!((values, depth, bias), (vec![0, 0], 1, Some(5000)));
}

#[test]
fn samples_in_range_stay() {
    let (values, depth, bias) = bias_pixels(vec![0, 16383, 7], 14);
    assert_eq!((values, depth, bias), (vec![0, 16383, 7], 14, None));
    let (values, depth, bias) = bias_pixels(vec![32767], 16);
    assert_eq!((values, depth, bias), (vec![32767], 16, None));
    let (values, depth, bias) = bias_pixels(vec![], 12);
    assert_eq!((values, depth, bias), (vec![], 12, None));
}

#[test]
fn raw_payload_is_split() {
    let p: Vec<u8> = vec![2, 0, 0, 0, 10, 11, 12];
    assert_eq!(split_jxl_payload(&p), (&[10u8, 11][..], &[12u8][..]));
    let all: Vec<u8> = vec![4, 0, 0, 0, 10, 11, 12];
    assert_eq!(split_jxl_payload(&all), (&all[..], &[0u8; 0][..]));
    let short: Vec<u8> = vec![1, 0];
    assert_eq!(split_jxl_payload(&short), (&short[..], &[0u8; 0][..]));
}

#[test]
fn strip_is_fitted_to_its_length() {
    let p: [[i32; 2]; 2] = [[1000, 1000], [0, 0]];
    let px: Vec<u16> = vec![1000, 1001];
    let strip =
        |tail: &[u8], needed: usize| reconstruct_raw_strip(&px, 2, 1, 14, 5, p, 0, tail, needed);
    assert_eq!(strip(&[], 2).unwrap(), vec![0xFB, 0xF7]);
    assert_eq!(strip(&[0xF4, 9], 3).unwrap(), vec![0xFB, 0xF4, 9]);
    assert_eq!(strip(&[9], 5).unwrap(), vec![0xFB, 0xF7, 0, 0, 9]);
    assert_eq!(strip(&[], 1).unwrap(), vec![0xFB]);
    assert_eq!(
        strip(&[1, 2, 3], 2).unwrap_err(),
        "raw strip tail longer than strip length"
    );
    assert_eq!(
        reconstruct_raw_strip(&px, 3, 1, 14, 5, p, 0, &[], 2).unwrap_err(),
        "invalid dimensions 3x1"
    );
}
