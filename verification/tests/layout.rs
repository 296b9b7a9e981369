use nef_compactor::bayer::{deinterleave, interleave};
use nef_compactor::inspect::{green_deltas, to_blocks, to_le_bytes, to_planes};
use nef_compactor::packed::{pack, unpack, Layout};

#[test]
fn pack_unpack_roundtrip() {
    let (w, h) = (16usize, 4usize);
    let layouts = [
        Layout::Packed { bps: 14, stride: (16 * 14) / 8 + 8 }, // 14-bit + pad
        Layout::Packed { bps: 12, stride: (16 * 12) / 8 },     // 12-bit, no pad
        Layout::Unpacked16 { stride: 16 * 2 },                 // 16-bit words
    ];
    for layout in layouts {
        let bps: u32 = layout.jxl_bps().min(14);
        let pixels: Vec<u16> = (0..(w * h) as u32)
            .map(|i| ((i * 37 + 11) & ((1 << bps) - 1)) as u16)
            .collect();
        let bytes = pack(&pixels, w, h, layout);
        assert_eq!(unpack(&bytes, w, h, layout), pixels);
        assert_eq!(pack(&unpack(&bytes, w, h, layout), w, h, layout), bytes);
    }
}

#[test]
fn packed_bytes() {
    // Two 12-bit samples in three bytes, least significant bits first.
    let l = Layout::Packed { bps: 12, stride: 4 };
    assert_eq!(pack(&[0xABC, 0x123], 2, 1, l), vec![0xBC, 0x3A, 0x12, 0]);
    assert_eq!(unpack(&[0xBC, 0x3A, 0x12, 0xFF], 2, 1, l), vec![0xABC, 0x123]);
    // Samples that are too large run over into their neighbours.
    assert_eq!(pack(&[0x1001, 0x002], 2, 1, l), vec![0x01, 0x30, 0x00, 0]);
    // Words.
    let u = Layout::Unpacked16 { stride: 5 };
    assert_eq!(pack(&[0x1234, 0xFFFE], 2, 1, u), vec![0x34, 0x12, 0xFE, 0xFF, 0]);
    assert_eq!(unpack(&[0x34, 0x12, 0xFE, 0xFF, 9], 2, 1, u), vec![0x1234, 0xFFFE]);
    // One bit per sample.
    let one = Layout::Packed { bps: 1, stride: 2 };
    assert_eq!(pack(&[1, 0, 1, 1, 0, 0, 0, 0, 1], 9, 1, one), vec![0x0D, 0x01]);
    assert_eq!(unpack(&[0x0D, 0x01], 9, 1, one), vec![1, 0, 1, 1, 0, 0, 0, 0, 1]);
}

#[test]
fn padding_is_lost() {
    let l = Layout::Packed { bps: 12, stride: 4 };
    let data: Vec<u8> = vec![0xBC, 0x3A, 0x12, 0x01];
    assert_ne!(pack(&unpack(&data, 2, 1, l), 2, 1, l), data);
}

#[test]
fn layout_is_detected_by_size() {
    assert!(Layout::detect(100, 10, 0, 12).is_none());
    assert!(Layout::detect(101, 10, 2, 12).is_none());
    assert!(matches!(
        Layout::detect(40, 10, 2, 14),
        Some(Layout::Unpacked16 { stride: 20 })
    ));
    assert!(matches!(
        Layout::detect(30, 10, 2, 12),
        Some(Layout::Packed { bps: 12, stride: 15 })
    ));
    assert!(Layout::detect(28, 10, 2, 12).is_none());
    assert!(matches!(
        Layout::detect(36, 10, 2, 14),
        Some(Layout::Packed { bps: 14, stride: 18 })
    ));
    assert_eq!(Layout::Unpacked16 { stride: 4 }.jxl_bps(), 16);
    assert_eq!(Layout::Packed { bps: 12, stride: 4 }.jxl_bps(), 12);
}

#[test]
fn deinterleaving_moves_even_lines_to_the_front() {
    let mosaic: Vec<u16> = (0u16..15).collect();
    let planes = deinterleave(&mosaic, 5, 3);
    assert_eq!(planes, vec![0, 2, 4, 1, 3, 10, 12, 14, 11, 13, 5, 7, 9, 6, 8]);
    assert_eq!(interleave(&planes, 5, 3), mosaic);
    assert_eq!(deinterleave(&interleave(&mosaic, 5, 3), 5, 3), mosaic);
    assert_eq!(deinterleave(&[], 0, 4), Vec::<u16>::new());
}

#[test]
fn green_channels_are_compared() {
    let pixels: Vec<u16> = vec![0, 10, 0, 3, 7, 0, 9, 0];
    let d = green_deltas(&pixels, 4, 2);
    assert_eq!((d.min_delta, d.max_delta, d.sum_abs, d.bits_needed), (-6, 3, 9, 3));
    let same = green_deltas(&[1, 2, 2, 1], 2, 2);
    assert_eq!((same.min_delta, same.max_delta, same.sum_abs, same.bits_needed), (0, 0, 0, 0));
}

#[test]
fn mosaic_is_exported() {
    let pixels: Vec<u16> = (0u16..8).collect();
    assert_eq!(to_le_bytes(&[0x1234, 7]), vec![0x34, 0x12, 7, 0]);
    let blocks = to_blocks(&pixels, 4, 2);
    assert_eq!(blocks, vec![0, 1, 4, 5, 2, 3, 6, 7]);
    assert_eq!(to_planes(&blocks), vec![0, 2, 1, 3, 4, 6, 5, 7]);
}

#[test]
fn image_without_rows_is_an_empty_strip() {
    for layout in [Layout::Packed { bps: 14, stride: 1 }, Layout::Unpacked16 { stride: 3 }] {
        assert_eq!(pack(&[], 16, 0, layout), Vec::<u8>::new());
        assert_eq!(unpack(&[], 16, 0, layout), Vec::<u16>::new());
    }
}
