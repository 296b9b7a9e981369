use nef_compactor::cnef::{
    assemble, compress, decompress, parse, plan, raw_parts, seal, Content, Decoded, Plan, RawSource,
    SegmentType,
};
use nef_compactor::inspect::to_le_bytes;
use nef_compactor::job::{conclude, verify_container};
use nef_compactor::nef::{JpegChunk, JpegLabel, NefChunks, NikonLosslessMeta, RawStrip};
use nef_compactor::nikon_lossless::encode;
use nef_compactor::region::file_regions;
use nef_compactor::tiff::TiffView;

fn chunks(size: usize, offset: u64, length: u64, width: u32, height: u32, bps: u32) -> NefChunks {
    NefChunks {
        file_size: size as u64,
        tiff_view: TiffView { little_endian: true, base: 0 },
        raw_strip: RawStrip {
            offset,
            length,
            width,
            height,
            bits_per_sample: bps,
            compression: 34713,
            is_jpeg_xs: false,
        },
        jpegs: vec![],
    }
}

fn jpeg(offset: u64, length: u32) -> JpegChunk {
    JpegChunk { offset, length, width: 1, height: 1, label: JpegLabel::Thumbnail }
}

fn noise(n: usize) -> Vec<u8> {
    (0..n).map(|i| (i * i * 7 + i / 3) as u8).collect()
}

// Stands in for the image codec: JPEGs get a byte in front, images are written
// out as words.
fn encode_pieces(p: &Plan) -> Vec<Result<Vec<u8>, String>> {
    p.pieces
        .iter()
        .map(|piece| match &piece.content {
            Content::Bytes(b) => {
                let mut v: Vec<u8> = vec![0xEE];
                v.extend_from_slice(b);
                Ok(v)
            }
            Content::Pixels { pixels, .. } => Ok(to_le_bytes(pixels)),
        })
        .collect()
}

fn words(b: &[u8]) -> Vec<u16> {
    b.chunks(2).map(|c| c[0] as u16 + 256 * c[1] as u16).collect()
}

fn decode_segments(container: &[u8]) -> Vec<Decoded> {
    parse(container)
        .segments
        .iter()
        .map(|g| match g.seg_type {
            SegmentType::Zstd => Decoded::Nothing,
            SegmentType::JpegJxl => Decoded::Bytes(g.payload[1..].to_vec()),
            _ => match raw_parts(g) {
                Ok((_, jxl, _)) => Decoded::Pixels(words(jxl)),
                Err(_) => Decoded::Nothing,
            },
        })
        .collect()
}

fn restore(container: &[u8]) -> Result<Vec<u8>, String> {
    decompress(&parse(container), &decode_segments(container)).map(|r| r.0)
}

fn lossless(huff_select: usize) -> RawSource {
    RawSource::Lossless(NikonLosslessMeta {
        huff_select,
        initial_predictors: [[100, 200], [300, 400]],
        split_row: 0,
    })
}

#[test]
fn uncompressed_file_comes_back() {
    let mut nef = noise(400);
    // Two rows of three words each, padded to eight bytes.
    nef[100..116].copy_from_slice(&[1, 2, 3, 4, 5, 6, 0, 0, 7, 8, 9, 10, 11, 12, 0, 0]);
    let mut c = chunks(nef.len(), 100, 16, 3, 2, 14);
    c.jpegs.push(jpeg(300, 50));
    c.jpegs.push(jpeg(20, 30));
    let p = plan(&nef, &c, &RawSource::Uncompressed);
    assert!(p.failure.is_none());
    let kinds: Vec<SegmentType> = p.pieces.iter().map(|x| x.seg_type).collect();
    assert_eq!(
        kinds,
        vec![
            SegmentType::Zstd,
            SegmentType::JpegJxl,
            SegmentType::Zstd,
            SegmentType::RawUncompressedJxl,
            SegmentType::Zstd,
            SegmentType::JpegJxl,
            SegmentType::Zstd
        ]
    );
    match &p.pieces[3].content {
        Content::Pixels { pixels, bits_per_sample } => {
            assert_eq!(*bits_per_sample, 16);
            assert_eq!(pixels, &vec![0x0201, 0x0403, 0x0605, 0x0807, 0x0A09, 0x0C0B]);
        }
        Content::Bytes(_) => panic!("the raw strip is an image"),
    }
    let (container, stats) = compress(&p, &encode_pieces(&p)).unwrap();
    assert_eq!(stats.original_size, 400);
    assert_eq!(stats.segment_count, 7);
    assert_eq!(stats.segments[3].original_size, 16);
    assert_eq!(stats.segments[3].compressed_size, 4 + 12);
    let sum: u64 = stats.segments.iter().map(|s| s.compressed_size).sum();
    assert_eq!(stats.compressed_size, sum);
    assert_eq!(restore(&container).unwrap(), nef);
}

#[test]
fn packed_file_comes_back() {
    let mut nef = noise(64);
    nef[0..6].copy_from_slice(&[0xBC, 0x3A, 0x12, 0x01, 0x20, 0x03]);
    let c = chunks(nef.len(), 0, 6, 2, 2, 12);
    let p = plan(&nef, &c, &RawSource::Uncompressed);
    assert!(p.failure.is_none());
    assert_eq!(p.pieces.len(), 2);
    let (container, _) = compress(&p, &encode_pieces(&p)).unwrap();
    assert_eq!(restore(&container).unwrap(), nef);
}

#[test]
fn lossless_file_comes_back() {
    let pixels: Vec<u16> = vec![100, 201, 105, 190, 310, 400, 320, 410];
    let p: [[i32; 2]; 2] = [[100, 200], [300, 400]];
    let strip = encode(&pixels, 4, 2, 14, 5, p, 0).unwrap();
    let mut nef = noise(30);
    nef.extend_from_slice(&strip);
    nef.extend_from_slice(&[1, 2, 3]); // trailing data in the strip
    let length = strip.len() + 3;
    nef.extend_from_slice(&noise(10));
    let c = chunks(nef.len(), 30, length as u64, 4, 2, 14);
    let p = plan(&nef, &c, &lossless(5));
    assert!(p.failure.is_none());
    let raw = &p.pieces[1];
    assert_eq!(raw.seg_type, SegmentType::RawPixelsJxl);
    assert!(raw.prefix.is_empty());
    assert_eq!(raw.tail[raw.tail.len() - 3..], [1, 2, 3]);
    match &raw.content {
        Content::Pixels { pixels, bits_per_sample } => {
            assert_eq!(*bits_per_sample, 14);
            assert_eq!(pixels, &vec![100, 105, 201, 190, 310, 320, 400, 410]);
        }
        Content::Bytes(_) => panic!("the raw strip is an image"),
    }
    let m = raw.raw_meta.unwrap();
    assert_eq!((m.width, m.height, m.bits_per_sample), (4, 2, 14));
    assert_eq!((m.huff_select, m.split_row), (5, 0));
    assert_eq!(m.initial_predictors, [100, 200, 300, 400]);
    let (container, _) = compress(&p, &encode_pieces(&p)).unwrap();
    assert_eq!(restore(&container).unwrap(), nef);
}

#[test]
fn any_strip_in_a_plain_table_comes_back() {
    // Garbage decodes to samples that wrap around, so they are biased; the last
    // strip is too short for its image.
    for (table, length) in [(2usize, 90usize), (3, 90), (5, 90), (5, 7)] {
        let nef = noise(length);
        let c = chunks(nef.len(), 0, length as u64, 8, 4, 14);
        let p = plan(&nef, &c, &lossless(table));
        assert!(p.failure.is_none());
        let (container, _) = compress(&p, &encode_pieces(&p)).unwrap();
        assert_eq!(restore(&container).unwrap(), nef);
    }
    let nef: Vec<u8> = vec![0; 9];
    let c = chunks(9, 0, 9, 8, 1, 14);
    let p = plan(&nef, &c, &lossless(5));
    assert_eq!(p.pieces[0].seg_type, SegmentType::RawPixelsBiasedJxl);
    // The lowest sample is 100 - 4 * 127.
    assert_eq!(p.pieces[0].prefix, vec![0x68, 0xFE, 0xFF, 0xFF]);
    let (container, _) = compress(&p, &encode_pieces(&p)).unwrap();
    assert_eq!(restore(&container).unwrap(), nef);
}

#[test]
fn strip_with_a_second_code_for_zero_is_refused() {
    // The 12-bit lossy table has two codes for zero; the longer one is never
    // written again.
    let nef: Vec<u8> = vec![0xFF; 40];
    let c = chunks(nef.len(), 0, 40, 4, 2, 12);
    let p = plan(&nef, &c, &lossless(0));
    assert_eq!(
        p.failure.unwrap(),
        "unsupported Nikon lossless variant (raw strip does not round-trip)"
    );
    assert!(p.pieces.is_empty());
}

#[test]
fn plans_that_fail() {
    let nef = noise(50);
    let c = chunks(50, 10, 16, 3, 2, 14);
    let e = plan(&nef, &c, &lossless(5)).failure.unwrap();
    assert_eq!(e, "invalid dimensions 3x2");

    let c = chunks(50, 10, 15, 3, 2, 14);
    let e = plan(&nef, &c, &RawSource::Uncompressed).failure.unwrap();
    assert_eq!(e, "uncompressed raw: irregular row layout");

    let c = chunks(50, 10, 16, 3, 2, 14);
    let e = plan(&nef, &c, &RawSource::Uncompressed).failure.unwrap();
    assert_eq!(e, "uncompressed raw does not repack exactly (non-zero padding?)");

    let c = chunks(50, 40, 16, 4, 2, 14);
    let p = plan(&nef, &c, &RawSource::Uncompressed);
    assert_eq!(p.failure.unwrap(), "read 16 bytes at 40: failed to fill whole buffer");
    assert_eq!(p.pieces.len(), 1);

    let c = chunks(50, 60, 4, 1, 2, 14);
    let p = plan(&nef, &c, &RawSource::Uncompressed);
    assert_eq!(p.failure.unwrap(), "read 60 bytes at 0: failed to fill whole buffer");

    let mut c = chunks(70, 10, 12, 3, 2, 14);
    c.jpegs.push(jpeg(30, 5));
    let p = plan(&nef, &c, &RawSource::Uncompressed);
    assert_eq!(p.failure.unwrap(), "read 35 bytes at 35: failed to fill whole buffer");
}

#[test]
fn regions_are_ordered_and_ties_stay() {
    let mut c = chunks(100, 20, 5, 1, 1, 14);
    c.jpegs.push(jpeg(40, 1));
    c.jpegs.push(jpeg(20, 2));
    c.jpegs.push(jpeg(0, 3));
    c.jpegs.push(jpeg(20, 4));
    let lengths: Vec<u64> = file_regions(&c).iter().map(|r| r.length).collect();
    assert_eq!(lengths, vec![3, 5, 2, 4, 1]);
}

#[test]
fn overlapping_chunks_do_not_come_back() {
    let nef: Vec<u8> = vec![0; 20];
    let mut c = chunks(20, 0, 8, 2, 2, 14);
    c.jpegs.push(jpeg(4, 4));
    let p = plan(&nef, &c, &RawSource::Uncompressed);
    let (container, _) = compress(&p, &encode_pieces(&p)).unwrap();
    assert_eq!(restore(&container).unwrap_err(), "reconstructed size 24 != expected 20");
}

#[test]
fn failures_of_encoding_come_first() {
    let nef = noise(50);
    let mut c = chunks(50, 20, 15, 3, 2, 14);
    c.jpegs.push(jpeg(0, 10));
    let p = plan(&nef, &c, &RawSource::Uncompressed);
    assert_eq!(p.pieces.len(), 2);
    let refused: Vec<Result<Vec<u8>, String>> = vec![Err("no".to_string()), Ok(vec![])];
    assert_eq!(compress(&p, &refused).err().unwrap(), "no");
    assert_eq!(
        compress(&p, &encode_pieces(&p)).err().unwrap(),
        "uncompressed raw: irregular row layout"
    );
    assert_eq!(compress(&p, &vec![]).err().unwrap(), "segment not encoded");
    // What stands for a gap is looked at by `seal` only.
    let gap: Vec<Result<Vec<u8>, String>> = vec![Ok(vec![]), Err("gap".to_string())];
    assert_eq!(seal(&p, &gap).err().unwrap(), "gap");
}

fn small_container() -> Vec<u8> {
    let nef: Vec<u8> = vec![0, 0, 0, 0, 0, 0, 0, 0, 9, 9, 9, 5, 5];
    let mut c = chunks(13, 0, 8, 2, 2, 14);
    c.jpegs.push(jpeg(8, 3));
    let p = plan(&nef, &c, &RawSource::Uncompressed);
    compress(&p, &encode_pieces(&p)).unwrap().0
}

#[test]
fn segments_that_cannot_be_restored() {
    let parsed = parse(&small_container());
    let px = || Decoded::Pixels(vec![0, 0, 0, 0]);
    let run = |d: Vec<Decoded>| decompress(&parsed, &d).map(|r| r.0);
    assert_eq!(
        run(vec![px(), Decoded::Bytes(vec![9, 9, 9])]).unwrap(),
        vec![0, 0, 0, 0, 0, 0, 0, 0, 9, 9, 9, 5, 5]
    );
    assert_eq!(
        run(vec![px(), Decoded::Bytes(vec![9, 9])]).unwrap_err(),
        "JPEG reconstruction size 2 != expected 3"
    );
    assert_eq!(
        run(vec![Decoded::Failed("bad".to_string()), Decoded::Nothing]).unwrap_err(),
        "bad"
    );
    assert_eq!(run(vec![px()]).unwrap_err(), "segment not decoded");
    assert_eq!(
        run(vec![Decoded::Pixels(vec![0]), Decoded::Nothing]).unwrap_err(),
        "pixel count mismatch: 1 vs 2x2"
    );
    // More samples than the image has are not looked at.
    assert!(run(vec![Decoded::Pixels(vec![0; 5]), Decoded::Bytes(vec![9, 9, 9])]).is_ok());
    // Gaps are taken as decoded by `assemble`.
    let all = vec![px(), Decoded::Bytes(vec![9, 9, 9]), Decoded::Bytes(vec![1])];
    assert_eq!(
        assemble(&parsed, &all).err().unwrap(),
        "reconstructed size 12 != expected 13"
    );
    let all = vec![px(), Decoded::Bytes(vec![9, 9, 9]), Decoded::Bytes(vec![1, 2])];
    let (file, stats) = assemble(&parsed, &all).unwrap();
    assert_eq!(file[11..], [1, 2]);
    assert_eq!(stats.original_size, 13);
}

#[test]
fn damaged_containers() {
    let good = small_container();
    let n = good.len();
    let eof = "read error: failed to fill whole buffer";
    assert_eq!(restore(&good[..n - 1]).unwrap_err(), eof);
    assert_eq!(restore(b"JPEG").unwrap_err(), "not a CNEF file (magic: [74, 80, 69, 71])");
    // A damaged frame is reported before the file size is looked at.
    let mut bad = good.clone();
    let last = parse(&good).segments[2].payload.len();
    bad[n - last] ^= 0xFF;
    assert!(restore(&bad).unwrap_err().starts_with("zstd decompress: "));
    // A layout that does not divide into rows.
    let mut bad = good.clone();
    bad[17 + 9] = 7;
    assert_eq!(
        restore(&bad).unwrap_err(),
        "uncompressed segment: irregular row layout"
    );
    // Another size of the file.
    let mut bad = good;
    bad[5] = 14;
    assert_eq!(restore(&bad).unwrap_err(), "reconstructed size 13 != expected 14");
}

#[test]
fn damaged_raw_segments() {
    let nef: Vec<u8> = vec![0; 9];
    let c = chunks(9, 0, 9, 8, 1, 14);
    let p = plan(&nef, &c, &lossless(5));
    let (good, _) = compress(&p, &encode_pieces(&p)).unwrap();
    assert_eq!(restore(&good).unwrap(), nef);
    // A table that does not exist.
    let mut bad = good.clone();
    bad[17 + 25 + 9] = 6;
    assert_eq!(restore(&bad).unwrap_err(), "invalid Huffman table 6");
    let mut bad = good.clone();
    bad[17 + 25] = 7;
    assert_eq!(restore(&bad).unwrap_err(), "invalid dimensions 7x1");
    let mut bad = good.clone();
    bad[17 + 25] = 6;
    assert_eq!(restore(&bad).unwrap_err(), "pixel count mismatch: 8 vs 6x1");
    // A payload that is too short for the bias.
    let mut parsed = parse(&good);
    parsed.segments[0].payload.truncate(3);
    assert_eq!(
        decompress(&parsed, &vec![Decoded::Pixels(vec![])]).err().unwrap(),
        "biased raw segment: payload too short"
    );
    assert_eq!(
        raw_parts(&parsed.segments[0]).err().unwrap(),
        "biased raw segment: payload too short"
    );
    // A payload whose length does not fit is all data, and the tail is lost.
    let mut parsed = parse(&good);
    parsed.segments[0].payload[4] = 0xFF;
    let (bias, jxl, tail) = raw_parts(&parsed.segments[0]).unwrap();
    assert_eq!(bias, -408);
    assert_eq!(jxl.len(), parsed.segments[0].payload.len() - 4);
    assert!(tail.is_empty());
}

#[test]
fn depth_of_words_does_not_matter() {
    let nef: Vec<u8> = vec![1, 2, 3, 4, 5, 6, 7, 8];
    for bps in [0u32, 14, 16, 255, 256, 270, u32::MAX] {
        let c = chunks(8, 0, 8, 2, 2, bps);
        let p = plan(&nef, &c, &RawSource::Uncompressed);
        assert!(p.failure.is_none());
        match &p.pieces[0].content {
            Content::Pixels { pixels, bits_per_sample } => {
                assert_eq!(*bits_per_sample, 16);
                assert_eq!(pixels, &vec![0x0201, 0x0403, 0x0605, 0x0807]);
            }
            Content::Bytes(_) => panic!("the raw strip is an image"),
        }
        let (container, _) = compress(&p, &encode_pieces(&p)).unwrap();
        assert_eq!(restore(&container).unwrap(), nef);
    }
}

fn three_chunks(order: [usize; 3]) -> (Vec<u8>, NefChunks) {
    let mut nef = noise(200);
    nef[60..76].copy_from_slice(&[1, 2, 3, 4, 5, 6, 0, 0, 7, 8, 9, 10, 11, 12, 0, 0]);
    let mut c = chunks(200, 60, 16, 3, 2, 14);
    let jpegs = [jpeg(0, 30), jpeg(76, 9), jpeg(150, 40)];
    for i in order {
        c.jpegs.push(jpegs[i]);
    }
    (nef, c)
}

#[test]
fn segments_tile_the_file() {
    let (nef, c) = three_chunks([0, 1, 2]);
    let p = plan(&nef, &c, &RawSource::Uncompressed);
    let (container, stats) = compress(&p, &encode_pieces(&p)).unwrap();
    let places: Vec<(u8, u64, u64)> = parse(&container)
        .segments
        .iter()
        .map(|g| (g.seg_type.to_u8(), g.original_offset, g.original_length))
        .collect();
    assert_eq!(
        places,
        vec![(3, 0, 30), (1, 30, 30), (4, 60, 16), (3, 76, 9), (1, 85, 65), (3, 150, 40), (1, 190, 10)]
    );
    assert_eq!(stats.original_size, 200);
    let sum: u64 = stats.segments.iter().map(|s| s.original_size).sum();
    assert_eq!(sum, 200);
}

#[test]
fn order_of_the_jpegs_does_not_matter() {
    let (nef, c) = three_chunks([0, 1, 2]);
    let p = plan(&nef, &c, &RawSource::Uncompressed);
    let (container, _) = compress(&p, &encode_pieces(&p)).unwrap();
    for order in [[0, 2, 1], [1, 0, 2], [2, 1, 0]] {
        let (nef, c) = three_chunks(order);
        let p = plan(&nef, &c, &RawSource::Uncompressed);
        assert_eq!(compress(&p, &encode_pieces(&p)).unwrap().0, container);
    }
}

#[test]
fn original_offsets_do_not_matter() {
    let (nef, c) = three_chunks([0, 1, 2]);
    let p = plan(&nef, &c, &RawSource::Uncompressed);
    let (mut container, _) = compress(&p, &encode_pieces(&p)).unwrap();
    let mut at = 17;
    for g in parse(&container).segments {
        for i in 1..9 {
            container[at + i] ^= 0x5A;
        }
        at += if g.seg_type.has_raw_meta() { 55 } else { 25 } + g.payload.len();
    }
    assert_eq!(at, container.len());
    assert_ne!(parse(&container).segments[0].original_offset, 0);
    assert_eq!(restore(&container).unwrap(), nef);
}

#[test]
fn containers_are_verified_before_they_are_taken() {
    let (nef, c) = three_chunks([0, 1, 2]);
    let p = plan(&nef, &c, &RawSource::Uncompressed);
    let (container, stats) = compress(&p, &encode_pieces(&p)).unwrap();
    let decoded = decode_segments(&container);
    assert_eq!(verify_container(&container, &decoded, &nef), Ok(()));
    let mut other = nef.clone();
    other[199] ^= 1;
    let message =
        "verification failed: mismatch at byte 199 (original 200 bytes, reconstructed 200 bytes)";
    assert_eq!(verify_container(&container, &decoded, &other).unwrap_err(), message);
    assert_eq!(
        verify_container(&container[..10], &decoded, &nef).unwrap_err(),
        "read error: failed to fill whole buffer"
    );

    let n = container.len() as u64;
    let r = conclude("a.NEF", &nef, container.clone(), stats, Some(&decoded)).unwrap();
    assert_eq!((r.input_name.as_str(), r.original_size, r.cnef_size), ("a.NEF", 200, n));
    assert_eq!(r.cnef_data.unwrap(), container);
    assert_eq!(r.segments.len(), 7);
    let (again, stats) = compress(&p, &encode_pieces(&p)).unwrap();
    assert_eq!(conclude("a.NEF", &other, again, stats, Some(&decoded)).err().unwrap(), message);
    let (again, stats) = compress(&p, &encode_pieces(&p)).unwrap();
    assert!(conclude("a.NEF", &other, again, stats, None).is_ok());
}
