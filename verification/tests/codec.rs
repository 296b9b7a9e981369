use nef_compactor::bitstream::{BitReader, BitWriter};
use nef_compactor::huffman::{bits_needed, encode_diff, huff_decode_diff, HuffTable};
use nef_compactor::nikon_lossless::{decode, encode};

#[test]
fn hufftable_roundtrip() {
    // Encoding then decoding each possible difference gives it back, for each
    // lossless table.
    for table_idx in [2usize, 5usize] {
        let ht = HuffTable::build(table_idx);
        let bps: u32 = if table_idx < 3 { 12 } else { 14 };
        let max_val: i32 = (1i32 << bps) - 1;

        for diff in -max_val..=max_val {
            let mut writer = BitWriter::new();
            encode_diff(&mut writer, &ht, diff).unwrap();
            let encoded = writer.finish();

            let mut reader = BitReader::new(&encoded);
            let decoded = huff_decode_diff(&mut reader, &ht).unwrap();
            assert_eq!(
                diff, decoded,
                "table {table_idx}: diff {diff} roundtrip failed"
            );
        }
    }
}

#[test]
fn encode_decode_small_image() {
    let width: usize = 4;
    let height: usize = 2;
    let bps: u32 = 14;
    let huff_select: usize = 5; // 14-bit lossless
    let initial_pred: [[i32; 2]; 2] = [[1000, 1000], [1000, 1000]];

    let pixels: Vec<u16> = vec![1000, 1001, 1002, 1003, 1004, 1005, 1006, 1007];

    let encoded = encode(&pixels, width, height, bps, huff_select, initial_pred, 0).unwrap();
    let result = decode(&encoded, width, height, bps, huff_select, initial_pred, 0).unwrap();
    let decoded = result.pixels;

    assert_eq!(pixels, decoded);
}

#[test]
fn encoded_bytes_of_two_samples() {
    let data = encode(&[1000, 1001], 2, 1, 14, 5, [[1000, 1000], [0, 0]], 0).unwrap();
    assert_eq!(data, vec![0xFB, 0xF7]);
    let back = decode(&data, 2, 1, 14, 5, [[1000, 1000], [0, 0]], 0).unwrap();
    assert_eq!(back.pixels, vec![1000, 1001]);
    assert_eq!(back.bits_consumed, 14);
}

#[test]
fn decoder_reads_zeros_behind_the_end() {
    let r = decode(&[], 2, 1, 14, 5, [[1000, 1000], [0, 0]], 0).unwrap();
    assert_eq!(r.pixels, vec![873, 873]);
    assert_eq!(r.bits_consumed, 18);
}

#[test]
fn samples_wrap_and_are_not_clamped() {
    let r = decode(&[], 2, 1, 14, 5, [[0, 100], [0, 0]], 0).unwrap();
    assert_eq!(r.pixels, vec![65409, 65509]);
    let again = encode(&r.pixels, 2, 1, 14, 5, [[0, 100], [0, 0]], 0).unwrap();
    assert_eq!(again, vec![0x00, 0x00, 0x3F]);
    let high = decode(&[0xFB, 0xFB, 0xFF], 2, 1, 14, 5, [[20000, 20000], [0, 0]], 0).unwrap();
    assert_eq!(high.pixels[0], 20000);
}

#[test]
fn rows_and_columns_predict_each_other() {
    // All differences are -127: columns go by their neighbour of the same
    // colour, rows by the row two above.
    let r = decode(&[], 4, 4, 14, 5, [[1000, 2000], [3000, 4000]], 0).unwrap();
    assert_eq!(
        r.pixels,
        vec![
            873, 1873, 746, 1746, 2873, 3873, 2746, 3746, 746, 1746, 619, 1619, 2746, 3746, 2619,
            3619
        ]
    );
    assert_eq!(r.bits_consumed, 16 * 9);
}

#[test]
fn split_row_switches_the_table() {
    let r = decode(&[], 2, 2, 14, 3, [[1000, 1000], [1000, 1000]], 1).unwrap();
    assert_eq!(r.pixels, vec![969, 969, 745, 745]);
    assert_eq!(r.bits_consumed, 34);
    // A split row behind the image changes nothing.
    let s = decode(&[], 2, 2, 14, 3, [[1000, 1000], [1000, 1000]], 2).unwrap();
    assert_eq!(s.pixels, vec![969, 969, 969, 969]);
}

#[test]
fn codec_errors() {
    let p: [[i32; 2]; 2] = [[0, 0], [0, 0]];
    assert_eq!(decode(&[], 3, 1, 14, 5, p, 0).err().unwrap(), "invalid dimensions 3x1");
    assert_eq!(decode(&[], 0, 5, 14, 5, p, 0).err().unwrap(), "invalid dimensions 0x5");
    assert_eq!(encode(&[], 2, 0, 14, 5, p, 0).unwrap_err(), "invalid dimensions 2x0");
    assert_eq!(
        encode(&[1, 2, 3], 2, 2, 14, 5, p, 0).unwrap_err(),
        "pixel count mismatch: 3 vs 2x2"
    );
    assert_eq!(
        encode(&[0, 8192], 2, 1, 12, 2, p, 0).unwrap_err(),
        "Huffman: no code for difference category 14"
    );
    assert_eq!(
        encode(&[0, 32768], 2, 1, 14, 5, p, 0).unwrap_err(),
        "Huffman: no code for difference category 16"
    );
}

#[test]
fn lossless_image_of_full_range_comes_back() {
    for (table, top) in [(2usize, 4095u16), (5usize, 16383u16)] {
        let pixels: Vec<u16> = vec![0, top, top, 0, 17, 18, top, top, 0, 0, top, 1];
        let p: [[i32; 2]; 2] = [[0, top as i32], [top as i32, 0]];
        let data = encode(&pixels, 4, 3, 14, table, p, 0).unwrap();
        let back = decode(&data, 4, 3, 14, table, p, 0).unwrap();
        assert_eq!(back.pixels, pixels);
        assert!(back.bits_consumed <= 8 * data.len());
        assert!(8 * data.len() < back.bits_consumed + 8);
    }
}

#[test]
fn any_strip_in_a_plain_table_is_encoded_again_as_it_was() {
    let data: Vec<u8> = (0u32..64).map(|i| (i * 37 + 11) as u8).collect();
    for table in [2usize, 3, 5] {
        let p: [[i32; 2]; 2] = [[100, 200], [300, 400]];
        let r = decode(&data, 6, 4, 14, table, p, 0).unwrap();
        let again = encode(&r.pixels, 6, 4, 14, table, p, 0).unwrap();
        let full = r.bits_consumed / 8;
        assert_eq!(again[..full], data[..full]);
    }
}

#[test]
fn bit_reader_and_writer() {
    let mut w = BitWriter::new();
    w.write_bits(5, 3);
    w.write_bits(0x1234, 16);
    w.write_bits(0xFFFF_FFFF, 32);
    let data = w.finish();
    assert_eq!(data, vec![0xA2, 0x46, 0x9F, 0xFF, 0xFF, 0xFF, 0xFF]);
    let mut r = BitReader::new(&data);
    assert_eq!(r.peek_bits(3), 5);
    assert_eq!(r.get_bits(3), 5);
    assert_eq!(r.get_bits(16), 0x1234);
    assert_eq!(r.get_bits(32), 0xFFFF_FFFF);
    assert_eq!(r.total_bits_consumed(), 51);
    assert_eq!(r.get_bits(5), 31);
    assert_eq!(r.get_bits(10), 0);
    assert_eq!(r.total_bits_consumed(), 66);
}

#[test]
fn tables_find_their_symbols() {
    let ht = HuffTable::build(5);
    assert_eq!(ht.max_bits(), 8);
    let e = ht.find_entry_for_symbol(0).unwrap();
    assert_eq!((e.code, e.code_len), (62, 6));
    assert!(ht.find_entry_for_symbol(16).is_none());
    assert_eq!(ht.lookup(0), (2, 7));
    assert_eq!(ht.lookup(255), (8, 14));
    // The 12-bit lossy table has two codes for zero; the first is used.
    let lossy = HuffTable::build(0);
    assert_eq!(lossy.find_entry_for_symbol(0).unwrap().code_len, 5);
}

#[test]
fn bits_needed_counts_digits() {
    assert_eq!(bits_needed(0), 0);
    assert_eq!(bits_needed(1), 1);
    assert_eq!(bits_needed(255), 8);
    assert_eq!(bits_needed(256), 9);
    assert_eq!(bits_needed(u32::MAX), 32);
}

#[test]
fn trailing_data_is_left_alone() {
    let p: [[i32; 2]; 2] = [[1000, 1000], [1000, 1000]];
    let pixels: Vec<u16> = vec![1000, 1001, 1002, 1003, 1004, 1005, 1006, 1007];
    let code = encode(&pixels, 4, 2, 14, 5, p, 0).unwrap();
    let mut strip = code.clone();
    strip.extend_from_slice(&[0, 255, 17]);
    let d = decode(&strip, 4, 2, 14, 5, p, 0).unwrap();
    assert_eq!(d.pixels, pixels);
    assert_eq!((d.bits_consumed + 7) / 8, code.len());
    assert_eq!(encode(&d.pixels, 4, 2, 14, 5, p, 0).unwrap(), code);
    // The last byte is filled up with ones.
    let spare = 8 * code.len() - d.bits_consumed;
    let ones = (1u32 << spare) - 1;
    assert_eq!(code[code.len() - 1] as u32 & ones, ones);
}
