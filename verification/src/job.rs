//! Decisions of the commands: which files are taken and what their output is
//! called, how the raw strip of a file is to be read, and whether a file came
//! back as it was.

use crate::cnef::{
    decoded_views, decompress, parse, piece_views, plan, planned, restored, workable,
    CompressionStats, Decoded, DecodedView, Plan, RawSource, SegmentStats,
};
use crate::nef::{lossless_meta, read_nikon_lossless_meta, LosslessView, NefChunks, RawStrip};
use crate::segment::{message_view, SegmentType};
use crate::text::{decimal, then_number, with_number};
use crate::tiff::COMPRESSION_NIKON_LOSSLESS;
use vstd::prelude::*;
use vstd::string::{StrSliceExecFns, StringExecFns};

verus! {

/// The extensions of raw files.
pub open spec fn raw_extensions() -> Seq<Seq<char>> {
    seq!["NEF"@, "nef"@, "NRW"@, "nrw"@]
}

/// The extensions of compressed files.
pub open spec fn compressed_extensions() -> Seq<Seq<char>> {
    seq!["CNEF"@, "cnef"@, "CNRW"@, "cnrw"@]
}

pub fn is_raw_extension(ext: &str) -> (r: bool)
    ensures
        r == raw_extensions().contains(ext@),
{
    let e = ext.to_string();
    let r: bool = e == "NEF".to_string() || e == "nef".to_string() || e == "NRW".to_string() || e
        == "nrw".to_string();
    proof {
        let all = raw_extensions();
        assert(all[0] == "NEF"@ && all[1] == "nef"@ && all[2] == "NRW"@ && all[3] == "nrw"@);
    }
    r
}

pub fn is_compressed_extension(ext: &str) -> (r: bool)
    ensures
        r == compressed_extensions().contains(ext@),
{
    let e = ext.to_string();
    let r: bool = e == "CNEF".to_string() || e == "cnef".to_string() || e == "CNRW".to_string() || e
        == "cnrw".to_string();
    proof {
        let all = compressed_extensions();
        assert(all[0] == "CNEF"@ && all[1] == "cnef"@ && all[2] == "CNRW"@ && all[3] == "cnrw"@);
    }
    r
}

/// The extension of the compressed file: a C in front, small before a small letter.
pub open spec fn compressed_name(ext: Seq<char>) -> Seq<char> {
    if ext.len() > 0 && 'a' <= ext[0] <= 'z' {
        seq!['c'] + ext
    } else {
        seq!['C'] + ext
    }
}

/// The extension of the decompressed file: without a C in front.
pub open spec fn decompressed_name(ext: Seq<char>) -> Seq<char> {
    if ext.len() > 0 && (ext[0] == 'C' || ext[0] == 'c') {
        ext.skip(1)
    } else {
        ext
    }
}

/// Decompression gives the extension of the raw file back.
pub proof fn lemma_extension_round_trip(ext: Seq<char>)
    ensures
        decompressed_name(compressed_name(ext)) == ext,
{
    assert(compressed_name(ext).skip(1) =~= ext);
}

/// The extension of the compressed file of a raw file.
pub fn compressed_extension(ext: &str) -> (r: String)
    ensures
        r@ == compressed_name(ext@),
{
    proof {
        reveal_strlit("c");
        reveal_strlit("C");
        assert("c"@ =~= seq!['c']);
        assert("C"@ =~= seq!['C']);
    }
    let mut small: bool = false;
    if ext.unicode_len() > 0 {
        let first = ext.get_char(0);
        small = 'a' <= first && first <= 'z';
    }
    let mut r = if small {
        "c".to_string()
    } else {
        "C".to_string()
    };
    r.append(ext);
    r
}

/// The extension of the raw file of a compressed file.
pub fn decompressed_extension(ext: &str) -> (r: String)
    ensures
        r@ == decompressed_name(ext@),
{
    let n: usize = ext.unicode_len();
    if n > 0 {
        let first = ext.get_char(0);
        if first == 'C' || first == 'c' {
            assert(ext@.subrange(1, n as int) =~= ext@.skip(1));
            return ext.substring_char(1, n).to_string();
        }
    }
    ext.to_string()
}

/// Raw compression effort is kept between the fastest and the slowest.
pub fn clamp_effort(effort: i64) -> (r: i64)
    ensures
        r == if effort < 1 {
            1
        } else if effort > 10 {
            10
        } else {
            effort as int
        },
        1 <= r <= 10,
        1 <= effort <= 10 ==> r == effort,
        effort < 1 ==> r == 1,
        effort > 10 ==> r == 10,
{
    if effort < 1 {
        1
    } else if effort > 10 {
        10
    } else {
        effort
    }
}

/// Originals are removed only after a verified write.
pub fn check_options(remove_originals: bool, skip_verify: bool) -> (r: Result<(), String>)
    ensures
        r is Err <==> remove_originals && skip_verify,
        r matches Err(e) ==> e@ == "--rm cannot be used with --skip-verify"@,
{
    if remove_originals && skip_verify {
        Err("--rm cannot be used with --skip-verify".to_string())
    } else {
        Ok(())
    }
}

/// How a raw strip is to be read, going by its directory.
#[derive(Debug, Clone, Copy, PartialEq, Eq, Structural)]
pub enum StripFormat {
    Lossless,
    Uncompressed,
}

pub open spec fn irregular_message(length: nat, height: nat) -> Seq<char> {
    "uncompressed raw with irregular layout ("@ + decimal(length) + " bytes / "@ + decimal(height)
        + " rows)"@
}

/// How a raw strip is to be read. Strips in JPEG XS and strips with three bytes
/// per pixel are not supported. A strip in Nikon's format is smaller than the
/// packed samples; at or above their size it is uncompressed, whatever it is
/// labelled, and has to divide into rows.
pub open spec fn strip_format(s: RawStrip) -> Result<StripFormat, Seq<char>> {
    let pixels = s.width as int * s.height as int;
    if s.is_jpeg_xs {
        Err(
            "HE/HE* NEF not supported (HE/HE* already lossy encodes the raw with JPEG XS)"@,
        )
    } else if s.length == 3 * pixels {
        Err("sNEF (YCbCr small RAW) not supported"@)
    } else if s.compression == COMPRESSION_NIKON_LOSSLESS && s.length < pixels * s.bits_per_sample
        / 8 {
        Ok(StripFormat::Lossless)
    } else if s.height == 0 || s.length % (s.height as u64) != 0 {
        Err(irregular_message(s.length as nat, s.height as nat))
    } else {
        Ok(StripFormat::Uncompressed)
    }
}

/// How a raw strip is to be read.
pub fn classify_strip(s: &RawStrip) -> (r: Result<StripFormat, String>)
    ensures
        match strip_format(*s) {
            Ok(f) => r == Ok::<StripFormat, String>(f),
            Err(e) => r is Err && r->Err_0@ == e,
        },
{
    if s.is_jpeg_xs {
        return Err(
            "HE/HE* NEF not supported (HE/HE* already lossy encodes the raw with JPEG XS)".to_string(),
        );
    }
    let pixels: u128 = area(s.width, s.height);
    if s.length as u128 == 3 * pixels {
        return Err("sNEF (YCbCr small RAW) not supported".to_string());
    }
    proof {
        assert(pixels * s.bits_per_sample <= 0xffff_ffff_ffff_ffff * 0xffff_ffff) by (
        nonlinear_arith)
            requires
                0 <= pixels <= 0xffff_ffff_ffff_ffff,
                0 <= s.bits_per_sample <= 0xffff_ffff,
        ;
    }
    let packed_size: u128 = pixels * (s.bits_per_sample as u128) / 8;
    if s.compression == COMPRESSION_NIKON_LOSSLESS && (s.length as u128) < packed_size {
        return Ok(StripFormat::Lossless);
    }
    let h: u64 = s.height as u64;
    if h == 0 || s.length % h != 0 {
        return Err(
            then_number(
                with_number("uncompressed raw with irregular layout (", s.length as u128, " bytes / "),
                h as u128,
                " rows)",
            ),
        );
    }
    Ok(StripFormat::Uncompressed)
}

fn area(width: u32, height: u32) -> (r: u128)
    ensures
        r == width as int * height as int,
        r <= 0xffff_ffff_ffff_ffff,
{
    proof {
        assert(width as int * height as int <= 0xffff_ffff * 0xffff_ffff) by (nonlinear_arith)
            requires
                width <= 0xffff_ffff,
                height <= 0xffff_ffff,
        ;
    }
    (width as u128) * (height as u128)
}

pub open spec fn no_meta_message(e: Seq<char>) -> Seq<char> {
    "Nikon raw linearization metadata not found ("@ + e + ")"@
}

/// How the raw strip of a file is coded: `None` for uncompressed samples.
pub open spec fn source_of(data: Seq<u8>, chunks: NefChunks) -> Result<
    Option<LosslessView>,
    Seq<char>,
> {
    match strip_format(chunks.raw_strip) {
        Err(e) => Err(e),
        Ok(StripFormat::Uncompressed) => Ok(None),
        Ok(StripFormat::Lossless) => match lossless_meta(
            chunks.tiff_view,
            data,
            chunks.raw_strip.bits_per_sample,
        ) {
            Ok(m) => Ok(Some(m)),
            Err(e) => Err(no_meta_message(e)),
        },
    }
}

/// Decides how the raw strip of a file is coded.
pub fn select_raw_source(data: &[u8], chunks: &NefChunks) -> (r: Result<RawSource, String>)
    ensures
        match source_of(data@, *chunks) {
            Ok(None) => r is Ok && r->Ok_0 is Uncompressed,
            Ok(Some(m)) => r is Ok && (r->Ok_0 matches RawSource::Lossless(x) && x@ == m),
            Err(e) => r is Err && r->Err_0@ == e,
        },
        r matches Ok(RawSource::Lossless(m)) ==> m.huff_select < 6 && (m.split_row > 0
            ==> m.huff_select < 5),
{
    match classify_strip(&chunks.raw_strip)? {
        StripFormat::Lossless => match read_nikon_lossless_meta(data, chunks) {
            Ok(m) => Ok(RawSource::Lossless(m)),
            Err(e) => {
                let mut t = "Nikon raw linearization metadata not found (".to_string();
                t.append(e.as_str());
                t.append(")");
                Err(t)
            },
        },
        StripFormat::Uncompressed => Ok(RawSource::Uncompressed),
    }
}

/// A source that is coded as noted.
pub open spec fn source_is(source: RawSource, noted: Option<LosslessView>) -> bool {
    match source {
        RawSource::Lossless(m) => noted == Some(m@),
        RawSource::Uncompressed => noted is None,
    }
}

/// Decides how the raw strip of a file is coded, and splits the file into the
/// pieces that are compressed by themselves. Refuses what is not supported.
pub fn plan_file(data: &[u8], chunks: &NefChunks) -> (r: Result<Plan, String>)
    ensures
        match source_of(data@, *chunks) {
            Err(e) => r is Err && r->Err_0@ == e,
            Ok(noted) => r is Ok && exists|source: RawSource|
                #![trigger planned(data@, *chunks, source)]
                source_is(source, noted) && workable(chunks.raw_strip, source)
                    && r->Ok_0.file_size == chunks.file_size && piece_views(r->Ok_0.pieces@)
                    == planned(data@, *chunks, source).pieces && message_view(r->Ok_0.failure)
                    == planned(data@, *chunks, source).failure,
        },
{
    let source = select_raw_source(data, chunks)?;
    assert(workable(chunks.raw_strip, source));
    let p = plan(data, chunks, &source);
    assert(piece_views(p.pieces@) == planned(data@, *chunks, source).pieces);
    Ok(p)
}

/// A command on files.
#[derive(Debug, Clone, Copy, PartialEq, Eq, Structural)]
pub enum Command {
    Compress,
    Decompress,
}

/// What a command is to be run on.
#[derive(Debug, Clone, Copy, PartialEq, Eq, Structural)]
pub enum InputMode {
    File,
    Directory,
}

/// Why a command cannot be run on its input.
#[derive(Debug, Clone, Copy, PartialEq, Eq, Structural)]
pub enum InputError {
    /// The input is a directory, and directories were not asked for.
    IsDirectory,
    /// A directory was asked for, and the input is none.
    NotADirectory,
}

/// What a command is to be run on. All raw files in a directory are compressed
/// without being asked for; compressed files in a directory are decompressed
/// only if a directory is asked for.
pub fn input_mode(command: Command, is_dir: bool, recursive: bool) -> (r: Result<
    InputMode,
    InputError,
>)
    ensures
        r == match (is_dir, recursive) {
            (true, true) => Ok::<InputMode, InputError>(InputMode::Directory),
            (true, false) => match command {
                Command::Compress => Ok(InputMode::Directory),
                Command::Decompress => Err(InputError::IsDirectory),
            },
            (false, true) => Err(InputError::NotADirectory),
            (false, false) => Ok(InputMode::File),
        },
{
    if is_dir {
        if recursive || command == Command::Compress {
            Ok(InputMode::Directory)
        } else {
            Err(InputError::IsDirectory)
        }
    } else if recursive {
        Err(InputError::NotADirectory)
    } else {
        Ok(InputMode::File)
    }
}

/// The length of the longest common start of two byte strings: the first place
/// where they differ, or the length of the shorter one.
pub open spec fn common_len(a: Seq<u8>, b: Seq<u8>) -> nat
    decreases a.len(),
{
    if a.len() > 0 && b.len() > 0 && a[0] == b[0] {
        1 + common_len(a.skip(1), b.skip(1))
    } else {
        0
    }
}

/// Up to their first difference two byte strings are the same.
pub proof fn lemma_common_len(a: Seq<u8>, b: Seq<u8>)
    ensures
        common_len(a, b) <= a.len(),
        common_len(a, b) <= b.len(),
        a.take(common_len(a, b) as int) == b.take(common_len(a, b) as int),
        common_len(a, b) < a.len() && common_len(a, b) < b.len() ==> a[common_len(a, b) as int]
            != b[common_len(a, b) as int],
    decreases a.len(),
{
    let n = common_len(a, b) as int;
    if a.len() > 0 && b.len() > 0 && a[0] == b[0] {
        let (c, d) = (a.skip(1), b.skip(1));
        lemma_common_len(c, d);
        assert forall|i: int| 0 <= i < n implies a[i] == b[i] by {
            if i > 0 {
                assert(c.take(n - 1)[i - 1] == d.take(n - 1)[i - 1]);
            }
        }
    }
    assert(a.take(n) =~= b.take(n));
}

proof fn lemma_common_len_is(a: Seq<u8>, b: Seq<u8>, n: nat)
    requires
        n <= a.len(),
        n <= b.len(),
        forall|k: int| 0 <= k < n ==> a[k] == b[k],
        n < a.len() && n < b.len() ==> a[n as int] != b[n as int],
    ensures
        common_len(a, b) == n,
    decreases n,
{
    if n > 0 {
        let (c, d) = (a.skip(1), b.skip(1));
        assert forall|k: int| 0 <= k < n - 1 implies c[k] == d[k] by {
            assert(a[k + 1] == b[k + 1]);
        }
        lemma_common_len_is(c, d, (n - 1) as nat);
    }
}

/// The length of the longest common start.
pub fn first_mismatch(a: &[u8], b: &[u8]) -> (n: usize)
    ensures
        n == common_len(a@, b@),
{
    let mut i: usize = 0;
    while i < a.len() && i < b.len() && a[i] == b[i]
        invariant
            0 <= i <= a@.len(),
            i <= b@.len(),
            forall|k: int| 0 <= k < i ==> a@[k] == b@[k],
        decreases a@.len() - i,
    {
        i = i + 1;
    }
    proof {
        lemma_common_len_is(a@, b@, i as nat);
    }
    i
}

pub open spec fn mismatch_message(at: nat, original: nat, reconstructed: nat) -> Seq<char> {
    "verification failed: mismatch at byte "@ + decimal(at) + " (original "@ + decimal(original)
        + " bytes, reconstructed "@ + decimal(reconstructed) + " bytes)"@
}

/// Accepts a reconstructed file exactly if it is the original.
pub fn verify_reconstruction(original: &[u8], reconstructed: &[u8]) -> (r: Result<(), String>)
    ensures
        r is Ok <==> original@ == reconstructed@,
        r matches Err(e) ==> e@ == mismatch_message(
            common_len(original@, reconstructed@),
            original@.len(),
            reconstructed@.len(),
        ),
{
    let at = first_mismatch(original, reconstructed);
    proof {
        lemma_common_len(original@, reconstructed@);
    }
    if at == original.len() && at == reconstructed.len() {
        assert(original@.take(at as int) =~= original@);
        assert(reconstructed@.take(at as int) =~= reconstructed@);
        return Ok(());
    }
    Err(
        then_number(
            then_number(
                with_number("verification failed: mismatch at byte ", at as u128, " (original "),
                original.len() as u128,
                " bytes, reconstructed ",
            ),
            reconstructed.len() as u128,
            " bytes)",
        ),
    )
}

/// Whether a container gives the original back, or why not.
pub open spec fn verified(
    cnef: Seq<u8>,
    decoded: Seq<DecodedView>,
    original: Seq<u8>,
) -> Result<(), Seq<char>> {
    match restored(cnef, decoded) {
        Err(e) => Err(e),
        Ok(again) => if again == original {
            Ok(())
        } else {
            Err(mismatch_message(common_len(original, again), original.len(), again.len()))
        },
    }
}

/// Decompresses a container and compares the result with the original. Accepts
/// the container exactly if it gives the original back byte for byte. `decoded`
/// holds, for every segment, what its JPEG XL data was decoded to.
pub fn verify_container(cnef: &[u8], decoded: &Vec<Decoded>, original: &[u8]) -> (r: Result<
    (),
    String,
>)
    ensures
        r is Ok <==> restored(cnef@, decoded_views(decoded@)) == Ok::<Seq<u8>, Seq<char>>(
            original@,
        ),
        match verified(cnef@, decoded_views(decoded@), original@) {
            Ok(_) => r is Ok,
            Err(e) => r is Err && r->Err_0@ == e,
        },
{
    let parsed = parse(cnef);
    let (again, _stats) = decompress(&parsed, decoded)?;
    verify_reconstruction(original, again.as_slice())
}

/// A file that was compressed. Nothing is written yet.
pub struct CompressResult {
    pub input_name: String,
    pub original_size: u64,
    pub cnef_size: u64,
    pub cnef_data: Option<Vec<u8>>,
    pub segments: Vec<SegmentStats>,
}

/// Takes a container as the result for a file. Unless verification is skipped,
/// `decoded` holds what the JPEG XL data of the container was decoded to, and
/// the container is refused if it does not give the original back.
pub fn conclude(
    display_name: &str,
    original: &[u8],
    cnef: Vec<u8>,
    stats: CompressionStats,
    decoded: Option<&Vec<Decoded>>,
) -> (r: Result<CompressResult, String>)
    ensures
        match r {
            Ok(c) => {
                &&& decoded matches Some(d) ==> restored(cnef@, decoded_views(d@)) == Ok::<
                    Seq<u8>,
                    Seq<char>,
                >(original@)
                &&& c.input_name@ == display_name@
                &&& c.original_size == original@.len()
                &&& c.cnef_size == cnef@.len()
                &&& c.cnef_data == Some(cnef)
                &&& c.segments == stats.segments
            },
            Err(e) => decoded matches Some(d) && verified(
                cnef@,
                decoded_views(d@),
                original@,
            ) == Err::<(), Seq<char>>(e@),
        },
{
    if let Some(d) = decoded {
        verify_container(cnef.as_slice(), d, original)?;
    }
    let original_size: u64 = original.len() as u64;
    let cnef_size: u64 = cnef.len() as u64;
    Ok(
        CompressResult {
            input_name: display_name.to_string(),
            original_size,
            cnef_size,
            cnef_data: Some(cnef),
            segments: stats.segments,
        },
    )
}

/// The name of a kind of segment in reports.
pub open spec fn label_of(t: SegmentType) -> Seq<char> {
    match t {
        SegmentType::Zstd => "zstd"@,
        SegmentType::RawPixelsJxl => "raw→jxl"@,
        SegmentType::JpegJxl => "jpeg→jxl"@,
        SegmentType::RawUncompressedJxl => "raw(unc)→jxl"@,
        SegmentType::RawPixelsBiasedJxl => "raw(bias)→jxl"@,
    }
}

/// The name of a kind of segment in reports.
pub fn segment_label(t: SegmentType) -> (r: &'static str)
    ensures
        r@ == label_of(t),
{
    match t {
        SegmentType::Zstd => "zstd",
        SegmentType::RawPixelsJxl => "raw→jxl",
        SegmentType::JpegJxl => "jpeg→jxl",
        SegmentType::RawUncompressedJxl => "raw(unc)→jxl",
        SegmentType::RawPixelsBiasedJxl => "raw(bias)→jxl",
    }
}

/// A strip labelled 34713 is in Nikon's format exactly if it is neither JPEG XS nor
/// three bytes per pixel and is shorter than its packed samples: eight times its
/// length is at least eight bits short of width times height times bits per sample.
/// Every other strip is uncompressed if it divides into rows, whatever its label is.
pub proof fn lemma_strip_format(s: RawStrip)
    ensures
        ({
            let pixels = s.width as int * s.height as int;
            let shorter = 8 * s.length + 8 <= pixels * s.bits_per_sample;
            let f = strip_format(s);
            &&& s.is_jpeg_xs || s.length == 3 * pixels ==> f is Err
            &&& !s.is_jpeg_xs && s.length != 3 * pixels && s.compression == 34713 ==> (f == Ok::<
                StripFormat,
                Seq<char>,
            >(StripFormat::Lossless) <==> shorter)
            &&& s.compression != 34713 ==> f != Ok::<StripFormat, Seq<char>>(StripFormat::Lossless)
            &&& !s.is_jpeg_xs && s.length != 3 * pixels && !(s.compression == 34713 && shorter)
                ==> {
                if s.height > 0 && s.length % (s.height as u64) == 0 {
                    f == Ok::<StripFormat, Seq<char>>(StripFormat::Uncompressed)
                } else {
                    f is Err
                }
            }
        }),
{
    let bits = s.width as int * s.height as int * s.bits_per_sample;
    assert((s.length < bits / 8) <==> (8 * s.length + 8 <= bits));
}

/// The names of files: a raw extension gets a C in front, small exactly if it starts with a
/// small letter, and loses it again. The extensions of compressed files are those of
/// raw files with it.
#[verifier::spinoff_prover]
pub proof fn lemma_names(ext: Seq<char>)
    ensures
        compressed_name(ext).len() == ext.len() + 1,
        compressed_name(ext).skip(1) == ext,
        ext.len() > 0 && 'a' <= ext[0] <= 'z' ==> compressed_name(ext)[0] == 'c',
        ext.len() == 0 || !('a' <= ext[0] <= 'z') ==> compressed_name(ext)[0] == 'C',
        decompressed_name(seq!['C'] + ext) == ext,
        decompressed_name(seq!['c'] + ext) == ext,
        ext.len() == 0 || (ext[0] != 'C' && ext[0] != 'c') ==> decompressed_name(ext) == ext,
        raw_extensions() == seq!["NEF"@, "nef"@, "NRW"@, "nrw"@],
        raw_extensions().contains(ext) ==> compressed_extensions().contains(compressed_name(ext)),
        compressed_extensions().contains(ext) ==> raw_extensions().contains(decompressed_name(ext)),
{
    reveal_strlit("NEF");
    reveal_strlit("nef");
    reveal_strlit("NRW");
    reveal_strlit("nrw");
    reveal_strlit("CNEF");
    reveal_strlit("cnef");
    reveal_strlit("CNRW");
    reveal_strlit("cnrw");
    assert(compressed_name(ext).skip(1) =~= ext);
    assert((seq!['C'] + ext).skip(1) =~= ext);
    assert((seq!['c'] + ext).skip(1) =~= ext);
    let raw = raw_extensions();
    let all = compressed_extensions();
    assert(seq!['C'] + "NEF"@ =~= "CNEF"@);
    assert(seq!['c'] + "nef"@ =~= "cnef"@);
    assert(seq!['C'] + "NRW"@ =~= "CNRW"@);
    assert(seq!['c'] + "nrw"@ =~= "cnrw"@);
    assert(all[0] == "CNEF"@ && all[1] == "cnef"@ && all[2] == "CNRW"@ && all[3] == "cnrw"@);
    assert(raw[0] == "NEF"@ && raw[1] == "nef"@ && raw[2] == "NRW"@ && raw[3] == "nrw"@);
    if raw.contains(ext) {
        let i = choose|i: int| 0 <= i < raw.len() && raw[i] == ext;
        assert(compressed_name(ext) == all[i]);
    }
    if all.contains(ext) {
        let i = choose|i: int| 0 <= i < all.len() && all[i] == ext;
        assert("CNEF"@.skip(1) =~= "NEF"@);
        assert("cnef"@.skip(1) =~= "nef"@);
        assert("CNRW"@.skip(1) =~= "NRW"@);
        assert("cnrw"@.skip(1) =~= "nrw"@);
        assert(decompressed_name(ext) == raw[i]);
    }
}

/// The notes of the camera are looked for exactly if the strip is in Nikon's format, and
/// at the bit depth of the strip; without them a strip in this format is refused.
pub proof fn lemma_source(data: Seq<u8>, chunks: NefChunks)
    ensures
        ({
            let format = strip_format(chunks.raw_strip);
            let notes = lossless_meta(chunks.tiff_view, data, chunks.raw_strip.bits_per_sample);
            let source = source_of(data, chunks);
            &&& format is Err ==> source is Err
            &&& source == Ok::<Option<LosslessView>, Seq<char>>(None) <==> format == Ok::<
                StripFormat,
                Seq<char>,
            >(StripFormat::Uncompressed)
            &&& format == Ok::<StripFormat, Seq<char>>(StripFormat::Lossless) ==> match notes {
                Ok(m) => source == Ok::<Option<LosslessView>, Seq<char>>(Some(m)),
                Err(_) => source is Err,
            }
        }),
{
}

/// A container is accepted exactly if it gives the original back. The message on one
/// that does not names the first byte in which both differ.
pub proof fn lemma_verified(cnef: Seq<u8>, decoded: Seq<DecodedView>, original: Seq<u8>, at: nat)
    ensures
        verified(cnef, decoded, original) is Ok <==> restored(cnef, decoded) == Ok::<
            Seq<u8>,
            Seq<char>,
        >(original),
        restored(cnef, decoded) matches Ok(again) && at < original.len() && at < again.len()
            && original.take(at as int) == again.take(at as int) && original[at as int]
            != again[at as int] ==> verified(cnef, decoded, original) == Err::<(), Seq<char>>(
            mismatch_message(at, original.len(), restored(cnef, decoded)->Ok_0.len()),
        ),
{
    if let Ok(again) = restored(cnef, decoded) {
        if at < original.len() && at < again.len() && original.take(at as int) == again.take(
            at as int,
        ) && original[at as int] != again[at as int] {
            assert forall|k: int| 0 <= k < at implies original[k] == again[k] by {
                assert(original.take(at as int)[k] == again.take(at as int)[k]);
            }
            lemma_common_len_is(original, again, at);
        }
    }
}

} // verus!
