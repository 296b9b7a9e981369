use nef_compactor::batch::{
    after_write, next_step, settle, OrderedResults, Report, Step, Tally, WorkQueue,
};
use nef_compactor::cnef::SegmentType;
use nef_compactor::job::{
    check_options, clamp_effort, compressed_extension, decompressed_extension, first_mismatch,
    input_mode, is_compressed_extension, is_raw_extension, segment_label, verify_reconstruction,
    Command, InputError, InputMode,
};
use nef_compactor::text::{decimal_string, hex_string};

#[test]
fn extensions_are_mapped_both_ways() {
    for (raw, compressed) in [("NEF", "CNEF"), ("nef", "cnef"), ("NRW", "CNRW"), ("nrw", "cnrw")] {
        assert_eq!(compressed_extension(raw), compressed);
        assert_eq!(decompressed_extension(compressed), raw);
        assert!(is_raw_extension(raw) && !is_raw_extension(compressed));
        assert!(is_compressed_extension(compressed) && !is_compressed_extension(raw));
    }
    assert!(!is_raw_extension("Nef"));
    assert!(!is_compressed_extension("Cnef"));
    assert_eq!(compressed_extension(""), "C");
    assert_eq!(compressed_extension("Ünef"), "CÜnef");
    assert_eq!(decompressed_extension("NEF"), "NEF");
    assert_eq!(decompressed_extension(""), "");
    assert_eq!(decompressed_extension(&compressed_extension("cr2")), "cr2");
}

#[test]
fn options_are_checked() {
    assert_eq!(clamp_effort(0), 1);
    assert_eq!(clamp_effort(3), 3);
    assert_eq!(clamp_effort(10), 10);
    assert_eq!(clamp_effort(i64::MAX), 10);
    assert_eq!(clamp_effort(i64::MIN), 1);
    assert_eq!(check_options(true, false), Ok(()));
    assert_eq!(check_options(false, true), Ok(()));
    assert_eq!(
        check_options(true, true).unwrap_err(),
        "--rm cannot be used with --skip-verify"
    );
}

#[test]
fn commands_run_on_files_or_directories() {
    for command in [Command::Compress, Command::Decompress] {
        assert_eq!(input_mode(command, true, true), Ok(InputMode::Directory));
        assert_eq!(input_mode(command, false, false), Ok(InputMode::File));
        assert_eq!(input_mode(command, false, true), Err(InputError::NotADirectory));
    }
    assert_eq!(input_mode(Command::Compress, true, false), Ok(InputMode::Directory));
    assert_eq!(input_mode(Command::Decompress, true, false), Err(InputError::IsDirectory));
}

#[test]
fn reconstruction_is_verified() {
    assert_eq!(verify_reconstruction(&[1, 2, 3], &[1, 2, 3]), Ok(()));
    assert_eq!(
        verify_reconstruction(&[1, 2, 3], &[1, 5, 3]).unwrap_err(),
        "verification failed: mismatch at byte 1 (original 3 bytes, reconstructed 3 bytes)"
    );
    assert_eq!(
        verify_reconstruction(&[1, 2, 3], &[1, 2]).unwrap_err(),
        "verification failed: mismatch at byte 2 (original 3 bytes, reconstructed 2 bytes)"
    );
    assert_eq!(first_mismatch(&[], &[1]), 0);
}

#[test]
fn segments_are_labelled() {
    assert_eq!(segment_label(SegmentType::Zstd), "zstd");
    assert_eq!(segment_label(SegmentType::RawPixelsJxl), "raw→jxl");
    assert_eq!(segment_label(SegmentType::JpegJxl), "jpeg→jxl");
    assert_eq!(segment_label(SegmentType::RawUncompressedJxl), "raw(unc)→jxl");
    assert_eq!(segment_label(SegmentType::RawPixelsBiasedJxl), "raw(bias)→jxl");
}

#[test]
fn work_is_handed_out_in_order() {
    let mut q = WorkQueue::new(3);
    assert_eq!(q.claim(), Some(0));
    assert_eq!(q.claim(), Some(1));
    assert_eq!(q.claim(), Some(2));
    assert_eq!(q.claim(), None);
    assert_eq!(q.claim(), None);
}

#[test]
fn results_leave_in_order() {
    let mut r: OrderedResults<String> = OrderedResults::new(3);
    assert!(!r.is_finished());
    assert_eq!(r.take_next(), None);
    r.publish(2, "c".to_string());
    assert_eq!(r.take_next(), None);
    r.publish(0, "a".to_string());
    assert_eq!(r.take_next(), Some((0, "a".to_string())));
    assert_eq!(r.take_next(), None);
    r.publish(1, "b".to_string());
    assert_eq!(r.take_next(), Some((1, "b".to_string())));
    assert_eq!(r.take_next(), Some((2, "c".to_string())));
    assert_eq!(r.take_next(), None);
    assert!(r.is_finished());
}

#[test]
fn outcomes_are_counted() {
    let mut t = Tally::new();
    t.succeed(100, 80);
    t.succeed(50, 60);
    t.fail();
    assert_eq!((t.succeeded, t.failed, t.total_original, t.total_output), (2, 1, 150, 140));
}

#[test]
fn originals_are_removed_only_after_a_write() {
    let good: Result<u8, String> = Ok(1);
    let bad: Result<u8, String> = Err("no".to_string());
    assert_eq!(next_step(&good, false), Step::Write);
    assert_eq!(next_step(&good, true), Step::Report);
    assert_eq!(next_step(&bad, false), Step::Skip);
    assert_eq!(next_step(&bad, true), Step::Skip);

    let mut t = Tally::new();
    assert!(after_write(&mut t, true, true, 100, 80));
    assert!(!after_write(&mut t, true, false, 10, 8));
    assert!(!after_write(&mut t, false, true, 7, 5));
    assert!(!after_write(&mut t, false, false, 7, 5));
    assert_eq!((t.succeeded, t.failed, t.total_original, t.total_output), (2, 2, 110, 88));
}

#[test]
fn ready_results_leave_together() {
    let mut r: OrderedResults<char> = OrderedResults::new(6);
    assert_eq!(r.take_ready(), vec![]);
    r.publish(1, 'b');
    r.publish(3, 'd');
    assert_eq!(r.take_ready(), vec![]);
    r.publish(0, 'a');
    assert_eq!(r.take_ready(), vec![(0, 'a'), (1, 'b')]);
    assert_eq!(r.take_ready(), vec![]);
    assert!(!r.is_finished());
    r.publish(5, 'f');
    r.publish(4, 'e');
    r.publish(2, 'c');
    assert_eq!(r.take_ready(), vec![(2, 'c'), (3, 'd'), (4, 'e'), (5, 'f')]);
    assert!(r.is_finished());
}

#[test]
fn a_drain_counts_every_file_once() {
    let report = |ok, written| Report { ok, written, original: 100, output: 60 };
    let reports = [report(true, true), report(false, false), report(true, false), report(true, true)];
    let run = |dry_run, rm| {
        let mut t = Tally::new();
        let removed: Vec<bool> =
            reports.iter().map(|r| settle(&mut t, r, dry_run, rm)).collect();
        (removed, t.succeeded, t.failed, t.total_original, t.total_output)
    };
    assert_eq!(run(false, true), (vec![true, false, false, true], 2, 2, 200, 120));
    assert_eq!(run(false, false), (vec![false; 4], 2, 2, 200, 120));
    // On a dry run nothing is removed, and every result counts.
    assert_eq!(run(true, true), (vec![false; 4], 3, 1, 300, 180));
}

#[test]
fn numbers_in_messages() {
    assert_eq!(decimal_string(0), "0");
    assert_eq!(decimal_string(u64::MAX as u128), "18446744073709551615");
    assert_eq!(hex_string(0xABCD, 4), "ABCD");
    assert_eq!(hex_string(0x1F, 4), "001F");
    assert_eq!(hex_string(0x12F, 2), "2F");
}
