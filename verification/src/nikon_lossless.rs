//! Codec of Nikon's lossless compressed raw strips.
//!
//! A strip is a Huffman coding of prediction differences over the raw Bayer
//! image. Every sample is predicted by its left neighbour of the same colour,
//! the first two of a row by the sample two rows above, the first two of the
//! first two rows by the initial predictors. Samples are 16-bit words that wrap
//! around.

use crate::bits::{
    bit_at, bits_of, bytes_from, lemma_bits_of_bytes, lemma_bytes_from_bits, lemma_pad_ones,
    pad_ones,
};
use crate::bitstream::{BitReader, BitWriter};
use crate::huffman::{
    category, decoded_diff, encode_diff, encoded_diff, holds_at, huff_decode_diff,
    lemma_bit_length_bound, lemma_decode_encoded_diff, lemma_decoded_diff_range,
    lemma_encode_decoded_diff, lemma_lossless_tables_complete, lemma_nikon_codes_tile,
    lemma_no_code_16, longest_upto, nikon_codes, no_code_message, plain, HuffTable, MAX_DIFF_BITS,
};
use crate::text::{decimal, then_number, with_number};
use vstd::arithmetic::div_mod::{lemma_fundamental_div_mod, lemma_fundamental_div_mod_converse};
use vstd::arithmetic::power2::{lemma2_to64, pow2};
use vstd::prelude::*;

verus! {

/// The pixels of a strip and the number of bits they were coded in.
pub struct DecodeResult {
    pub pixels: Vec<u16>,
    pub bits_consumed: usize,
}

/// What the coding of a strip depends on besides its samples.
pub struct Scheme {
    pub width: nat,
    pub huff_select: nat,
    /// The initial predictors of the first two rows, two for each row.
    pub initial: Seq<int>,
    pub split_row: nat,
}

/// The four initial predictors, row by row.
pub open spec fn predictors(p: [[i32; 2]; 2]) -> Seq<int> {
    seq![p@[0]@[0] as int, p@[0]@[1] as int, p@[1]@[0] as int, p@[1]@[1] as int]
}

/// The scheme with the given parameters.
pub open spec fn scheme(
    width: usize,
    huff_select: usize,
    initial_predictors: [[i32; 2]; 2],
    split_row: usize,
) -> Scheme {
    Scheme {
        width: width as nat,
        huff_select: huff_select as nat,
        initial: predictors(initial_predictors),
        split_row: split_row as nat,
    }
}

impl Scheme {
    /// The Huffman table of a row: the next one from the split row on.
    pub open spec fn table(self, row: nat) -> int {
        if 0 < self.split_row <= row {
            self.huff_select as int + 1
        } else {
            self.huff_select as int
        }
    }

    /// The prediction of sample `i`, given the samples before it.
    pub open spec fn prediction(self, samples: Seq<u16>, i: nat) -> int {
        let row = i / self.width;
        let col = i % self.width;
        if col >= 2 {
            samples[i - 2] as int
        } else if row >= 2 {
            samples[i - 2 * self.width] as int
        } else {
            self.initial[(2 * row + col) as int]
        }
    }

    /// All tables of the first `height` rows exist.
    pub open spec fn valid(self, height: nat) -> bool {
        &&& self.huff_select < 6
        &&& 0 < self.split_row < height ==> self.huff_select < 5
    }

    /// Every table of the first `height` rows codes each category in one way.
    pub open spec fn plain(self, height: nat) -> bool {
        &&& plain(nikon_codes(self.huff_select as int))
        &&& 0 < self.split_row < height ==> plain(nikon_codes(self.huff_select as int + 1))
    }
}

/// The low 16 bits as a signed number.
pub open spec fn signed16(x: int) -> int {
    if x % 65536 < 32768 {
        x % 65536
    } else {
        x % 65536 - 65536
    }
}

/// The first `n` samples coded in the stream `s`, and the number of bits of their codes.
pub open spec fn decoded(c: Scheme, s: Seq<bool>, n: nat) -> (Seq<u16>, nat)
    decreases n,
{
    if n == 0 {
        (Seq::empty(), 0)
    } else {
        let i = (n - 1) as nat;
        let (samples, pos) = decoded(c, s, i);
        let (d, len) = decoded_diff(nikon_codes(c.table(i / c.width)), s, pos);
        (samples.push(((c.prediction(samples, i) + d) % 65536) as u16), pos + len)
    }
}

/// The difference by which sample `i` is coded.
pub open spec fn difference(c: Scheme, samples: Seq<u16>, i: nat) -> int {
    signed16(samples[i as int] - c.prediction(samples, i))
}

/// The code of the first `n` samples, or the category of the first difference
/// that has no code.
pub open spec fn encoded(c: Scheme, samples: Seq<u16>, n: nat) -> Result<Seq<bool>, nat>
    decreases n,
{
    if n == 0 {
        Ok(Seq::empty())
    } else {
        let i = (n - 1) as nat;
        match encoded(c, samples, i) {
            Ok(b) => match encoded_diff(
                nikon_codes(c.table(i / c.width)),
                difference(c, samples, i),
            ) {
                Ok(x) => Ok(b + x),
                Err(k) => Err(k),
            },
            Err(k) => Err(k),
        }
    }
}

/// A strip has whole pairs of columns and is not empty.
pub open spec fn valid_dimensions(width: nat, height: nat) -> bool {
    width != 0 && height != 0 && width % 2 == 0
}

/// The samples of an image can be held in memory.
pub open spec fn holdable(width: nat, height: nat) -> bool {
    2 * (width * height) <= isize::MAX
}

pub open spec fn too_large_message(width: nat, height: nat) -> Seq<char> {
    "raw image too large: "@ + decimal(width) + "x"@ + decimal(height) + ""@
}

pub open spec fn dimensions_message(width: nat, height: nat) -> Seq<char> {
    "invalid dimensions "@ + decimal(width) + "x"@ + decimal(height) + ""@
}

pub open spec fn count_message(count: nat, width: nat, height: nat) -> Seq<char> {
    "pixel count mismatch: "@ + decimal(count) + " vs "@ + decimal(width) + "x"@ + decimal(height)
        + ""@
}

/// The strip that an image is encoded to, or the message of what stands against it.
pub open spec fn strip_code(c: Scheme, height: nat, samples: Seq<u16>) -> Result<
    Seq<u8>,
    Seq<char>,
> {
    if !valid_dimensions(c.width, height) {
        Err(dimensions_message(c.width, height))
    } else if samples.len() != c.width * height {
        Err(count_message(samples.len(), c.width, height))
    } else {
        match encoded(c, samples, samples.len()) {
            Ok(b) => Ok(bytes_from(pad_ones(b))),
            Err(k) => Err(no_code_message(k)),
        }
    }
}

pub proof fn lemma_decoded_len(c: Scheme, s: Seq<bool>, n: nat)
    ensures
        decoded(c, s, n).0.len() == n,
    decreases n,
{
    if n > 0 {
        lemma_decoded_len(c, s, (n - 1) as nat);
    }
}

fn refuse_large(width: usize, height: usize) -> (r: String)
    ensures
        r@ == too_large_message(width as nat, height as nat),
{
    then_number(with_number("raw image too large: ", width as u128, "x"), height as u128, "")
}

/// Refuses an image whose samples cannot be held in memory.
pub fn check_holdable(width: usize, height: usize) -> (r: Result<(), String>)
    ensures
        r is Ok <==> holdable(width as nat, height as nat),
        r matches Err(e) ==> e@ == too_large_message(width as nat, height as nat),
{
    proof {
        assert(width * height <= 0xffff_ffff_ffff_ffff * 0xffff_ffff_ffff_ffff) by (nonlinear_arith)
            requires
                width <= 0xffff_ffff_ffff_ffff,
                height <= 0xffff_ffff_ffff_ffff,
        ;
    }
    if (width as u128) * (height as u128) <= (isize::MAX / 2) as u128 {
        Ok(())
    } else {
        Err(refuse_large(width, height))
    }
}

fn low16(x: i32) -> (r: u16)
    ensures
        r == x as int % 65536,
{
    ((x as i64 + 2147483648) % 65536) as u16
}

/// The prediction of the sample in column `col` of row `row`, as a 16-bit word.
fn predict(
    samples: &[u16],
    width: usize,
    row: usize,
    col: usize,
    initial: &[[i32; 2]; 2],
    Ghost(c): Ghost<Scheme>,
) -> (r: u16)
    requires
        c.width == width,
        c.initial == predictors(*initial),
        col < width,
        width >= 2,
        row * width + col <= samples@.len(),
        row * width + col <= usize::MAX,
    ensures
        r == c.prediction(samples@, (row * width + col) as nat) % 65536,
{
    proof {
        lemma_fundamental_div_mod_converse(
            row * width + col,
            width as int,
            row as int,
            col as int,
        );
        assert(row * width >= 0) by (nonlinear_arith);
        if row >= 2 {
            assert((row - 2) * width >= 0) by (nonlinear_arith)
                requires
                    row >= 2,
            ;
            assert((row - 2) * width == row * width - 2 * width) by (nonlinear_arith);
        }
    }
    if col >= 2 {
        samples[row * width + col - 2]
    } else if row >= 2 {
        samples[(row - 2) * width + col]
    } else {
        low16(initial[row][col])
    }
}

/// The difference of two 16-bit words, wrapped around to a signed one.
fn wrapped_difference(pixel: u16, pred: u16) -> (r: i32)
    ensures
        r == signed16(pixel - pred),
{
    let word: i32 = (pixel as i32 - pred as i32 + 65536) % 65536;
    if word < 32768 {
        word
    } else {
        word - 65536
    }
}

/// The samples of a strip, or why it cannot be decoded: its dimensions are not
/// valid, or the number of bits cannot be held.
pub open spec fn decode_outcome(c: Scheme, height: nat, data: Seq<u8>) -> Result<
    (Seq<u16>, nat),
    Seq<char>,
> {
    let d = decoded(c, bits_of(data), c.width * height);
    if !valid_dimensions(c.width, height) {
        Err(dimensions_message(c.width, height))
    } else if d.1 > usize::MAX {
        Err(too_large_message(c.width, height))
    } else {
        Ok(d)
    }
}

/// Decodes a compressed raw strip to the pixel values before the curve.
/// Also returns the number of bits consumed, so that callers can tell any
/// trailing data from the coded pixels. After the end of the data the decoder
/// reads zeros. Pixel values are not clamped to a bit depth: a predictor that
/// has run out of range stays recognisable, as a 16-bit word that has wrapped.
pub fn decode(
    compressed: &[u8],
    width: usize,
    height: usize,
    _bits_per_sample: u32,
    huff_select: usize,
    initial_predictors: [[i32; 2]; 2],
    split_row: usize,
) -> (r: Result<DecodeResult, String>)
    requires
        valid_dimensions(width as nat, height as nat) ==> {
            &&& scheme(width, huff_select, initial_predictors, split_row).valid(height as nat)
            &&& holdable(width as nat, height as nat)
        },
    ensures
        match decode_outcome(
            scheme(width, huff_select, initial_predictors, split_row),
            height as nat,
            compressed@,
        ) {
            Ok(d) => r is Ok && (r->Ok_0.pixels@, r->Ok_0.bits_consumed as nat) == d,
            Err(e) => r is Err && r->Err_0@ == e,
        },
{
    let (pixels, bits) = decode_samples(
        compressed,
        width,
        height,
        huff_select,
        initial_predictors,
        split_row,
    )?;
    if bits > usize::MAX as u128 {
        return Err(refuse_large(width, height));
    }
    Ok(DecodeResult { pixels, bits_consumed: bits as usize })
}

/// Decodes a compressed raw strip to its samples and the number of bits
/// consumed, however large that is.
#[verifier::spinoff_prover]
#[verifier::rlimit(40)]
pub fn decode_samples(
    compressed: &[u8],
    width: usize,
    height: usize,
    huff_select: usize,
    initial_predictors: [[i32; 2]; 2],
    split_row: usize,
) -> (r: Result<(Vec<u16>, u128), String>)
    requires
        valid_dimensions(width as nat, height as nat) ==> {
            &&& scheme(width, huff_select, initial_predictors, split_row).valid(height as nat)
            &&& holdable(width as nat, height as nat)
        },
    ensures
        match r {
            Ok(d) => {
                &&& valid_dimensions(width as nat, height as nat)
                &&& (d.0@, d.1 as nat) == decoded(
                    scheme(width, huff_select, initial_predictors, split_row),
                    bits_of(compressed@),
                    (width * height) as nat,
                )
            },
            Err(e) => {
                &&& !valid_dimensions(width as nat, height as nat)
                &&& e@ == dimensions_message(width as nat, height as nat)
            },
        },
{
    if width == 0 || height == 0 || width % 2 != 0 {
        return Err(
            then_number(with_number("invalid dimensions ", width as u128, "x"), height as u128, ""),
        );
    }
    let ghost c = scheme(width, huff_select, initial_predictors, split_row);
    let ghost s = bits_of(compressed@);
    let mut bits = BitReader::new(compressed);
    let mut ht = HuffTable::build(huff_select);
    let mut out: Vec<u16> = Vec::with_capacity(width * height);
    let mut row: usize = 0;
    while row < height
        invariant
            width >= 2,
            c == scheme(width, huff_select, initial_predictors, split_row),
            c.valid(height as nat),
            2 * (width * height) <= isize::MAX,
            0 <= row <= height,
            bits.wf(),
            bits.stream() == s,
            out@.len() == row * width,
            bits.pos() <= MAX_DIFF_BITS * (row * width),
            (out@, bits.pos()) == decoded(c, s, (row * width) as nat),
            ht.wf(),
            ht.codes() == nikon_codes(
                c.table(
                    if row == 0 {
                        0
                    } else {
                        (row - 1) as nat
                    },
                ),
            ),
        decreases height - row,
    {
        if split_row > 0 && row == split_row {
            ht = HuffTable::build(huff_select + 1);
        }
        let mut col: usize = 0;
        proof {
            assert((row + 1) * width == row * width + width) by (nonlinear_arith);
            assert((row + 1) * width <= width * height) by (nonlinear_arith)
                requires
                    row < height,
            ;
        }
        while col < width
            invariant
                width >= 2,
                c == scheme(width, huff_select, initial_predictors, split_row),
                row < height,
                (row + 1) * width == row * width + width,
                (row + 1) * width <= width * height,
                2 * (width * height) <= isize::MAX,
                0 <= col <= width,
                bits.wf(),
                bits.stream() == s,
                out@.len() == row * width + col,
                bits.pos() <= MAX_DIFF_BITS * (row * width + col),
                (out@, bits.pos()) == decoded(c, s, (row * width + col) as nat),
                ht.wf(),
                ht.codes() == nikon_codes(c.table(row as nat)),
            decreases width - col,
        {
            let ghost i = (row * width + col) as nat;
            proof {
                assert(row * width >= 0) by (nonlinear_arith);
                lemma_fundamental_div_mod_converse(
                    row * width + col,
                    width as int,
                    row as int,
                    col as int,
                );
            }
            let pred = predict(out.as_slice(), width, row, col, &initial_predictors, Ghost(c));
            let ghost pos = bits.pos();
            let diff = huff_decode_diff(&mut bits, &ht)?;
            proof {
                let p = c.prediction(out@, i);
                assert((pred + diff + 65536) % 65536 == (p + diff) % 65536);
                assert(decoded(c, s, i) == (out@, pos));
            }
            out.push(((pred as i32 + diff + 65536) % 65536) as u16);
            col = col + 1;
            assert((i + 1) as nat == (row * width + col) as nat);
        }
        row = row + 1;
    }
    proof {
        assert(height * width == width * height) by (nonlinear_arith);
    }
    Ok((out, bits.total_bits_consumed()))
}

/// Encodes pixel values back into a compressed raw strip: the inverse of
/// `decode`. Fails if a difference has no code in the row's table.
#[verifier::spinoff_prover]
#[verifier::rlimit(40)]
pub fn encode(
    pixels: &[u16],
    width: usize,
    height: usize,
    _bits_per_sample: u32,
    huff_select: usize,
    initial_predictors: [[i32; 2]; 2],
    split_row: usize,
) -> (r: Result<Vec<u8>, String>)
    requires
        valid_dimensions(width as nat, height as nat) && pixels@.len() == width * height
            ==> scheme(width, huff_select, initial_predictors, split_row).valid(height as nat),
    ensures
        match strip_code(
            scheme(width, huff_select, initial_predictors, split_row),
            height as nat,
            pixels@,
        ) {
            Ok(data) => r is Ok && r->Ok_0@ == data,
            Err(e) => r is Err && r->Err_0@ == e,
        },
{
    if width == 0 || height == 0 || width % 2 != 0 {
        return Err(
            then_number(with_number("invalid dimensions ", width as u128, "x"), height as u128, ""),
        );
    }
    proof {
        assert(width * height <= 0xffff_ffff_ffff_ffff * 0xffff_ffff_ffff_ffff) by (nonlinear_arith)
            requires
                width <= 0xffff_ffff_ffff_ffff,
                height <= 0xffff_ffff_ffff_ffff,
        ;
    }
    if (width as u128) * (height as u128) != pixels.len() as u128 {
        return Err(
            then_number(
                then_number(
                    with_number("pixel count mismatch: ", pixels.len() as u128, " vs "),
                    width as u128,
                    "x",
                ),
                height as u128,
                "",
            ),
        );
    }
    let ghost c = scheme(width, huff_select, initial_predictors, split_row);
    let mut writer = BitWriter::new();
    let mut ht = HuffTable::build(huff_select);
    let mut row: usize = 0;
    while row < height
        invariant
            width >= 2,
            c == scheme(width, huff_select, initial_predictors, split_row),
            c.valid(height as nat),
            pixels@.len() == width * height,
            width * height <= usize::MAX,
            valid_dimensions(width as nat, height as nat),
            0 <= row <= height,
            writer.wf(),
            encoded(c, pixels@, (row * width) as nat) == Ok::<Seq<bool>, nat>(writer.bits()),
            ht.wf(),
            ht.codes() == nikon_codes(
                c.table(
                    if row == 0 {
                        0
                    } else {
                        (row - 1) as nat
                    },
                ),
            ),
        decreases height - row,
    {
        if split_row > 0 && row == split_row {
            ht = HuffTable::build(huff_select + 1);
        }
        let mut col: usize = 0;
        proof {
            assert((row + 1) * width == row * width + width) by (nonlinear_arith);
            assert((row + 1) * width <= width * height) by (nonlinear_arith)
                requires
                    row < height,
            ;
        }
        while col < width
            invariant
                width >= 2,
                c == scheme(width, huff_select, initial_predictors, split_row),
                row < height,
                (row + 1) * width == row * width + width,
                (row + 1) * width <= width * height,
                pixels@.len() == width * height,
                width * height <= usize::MAX,
                valid_dimensions(width as nat, height as nat),
                0 <= col <= width,
                writer.wf(),
                encoded(c, pixels@, (row * width + col) as nat) == Ok::<Seq<bool>, nat>(
                    writer.bits(),
                ),
                ht.wf(),
                ht.codes() == nikon_codes(c.table(row as nat)),
            decreases width - col,
        {
            let ghost i = (row * width + col) as nat;
            proof {
                assert(row * width >= 0) by (nonlinear_arith);
                lemma_fundamental_div_mod_converse(
                    row * width + col,
                    width as int,
                    row as int,
                    col as int,
                );
            }
            let pred = predict(pixels, width, row, col, &initial_predictors, Ghost(c));
            let pixel = pixels[row * width + col];
            let diff = wrapped_difference(pixel, pred);
            proof {
                let p = c.prediction(pixels@, i);
                assert((pixel - pred) % 65536 == (pixel - p) % 65536);
            }
            match encode_diff(&mut writer, &ht, diff) {
                Ok(_) => {},
                Err(e) => {
                    proof {
                        lemma_encoded_err(c, pixels@, i + 1, (width * height) as nat);
                    }
                    return Err(e);
                },
            }
            col = col + 1;
            assert((i + 1) as nat == (row * width + col) as nat);
        }
        row = row + 1;
    }
    proof {
        assert(height * width == width * height) by (nonlinear_arith);
    }
    let data = writer.finish();
    proof {
        lemma_bytes_from_bits(data@);
    }
    Ok(data)
}

/// The first difference without a code decides.
proof fn lemma_encoded_err(c: Scheme, samples: Seq<u16>, m: nat, n: nat)
    requires
        m <= n,
        encoded(c, samples, m) is Err,
    ensures
        encoded(c, samples, n) == encoded(c, samples, m),
    decreases n,
{
    if m < n {
        lemma_encoded_err(c, samples, m, (n - 1) as nat);
    }
}

proof fn lemma_encoded_ok(c: Scheme, samples: Seq<u16>, m: nat, n: nat)
    requires
        m <= n,
        encoded(c, samples, n) is Ok,
    ensures
        encoded(c, samples, m) is Ok,
        encoded(c, samples, m)->Ok_0.len() <= encoded(c, samples, n)->Ok_0.len(),
        encoded(c, samples, n)->Ok_0.take(encoded(c, samples, m)->Ok_0.len() as int) == encoded(
            c,
            samples,
            m,
        )->Ok_0,
    decreases n,
{
    if m < n {
        let l = (n - 1) as nat;
        lemma_encoded_ok(c, samples, m, l);
        let a = encoded(c, samples, m)->Ok_0;
        let b = encoded(c, samples, l)->Ok_0;
        let d = encoded(c, samples, n)->Ok_0;
        assert(d.take(a.len() as int) =~= b.take(a.len() as int));
    } else {
        let a = encoded(c, samples, m)->Ok_0;
        assert(a.take(a.len() as int) =~= a);
    }
}

/// A prediction depends on earlier samples only.
proof fn lemma_prediction_agrees(c: Scheme, a: Seq<u16>, b: Seq<u16>, i: nat)
    requires
        c.width >= 2,
        i <= a.len(),
        i <= b.len(),
        a.take(i as int) == b.take(i as int),
    ensures
        c.prediction(a, i) == c.prediction(b, i),
{
    let w = c.width;
    let row = i / w;
    let col = i % w;
    lemma_fundamental_div_mod(i as int, w as int);
    if col >= 2 {
        assert(w * row >= 0) by (nonlinear_arith);
        assert(a.take(i as int)[i - 2] == a[i - 2] && b.take(i as int)[i - 2] == b[i - 2]);
    } else if row >= 2 {
        assert(w * row >= 2 * w) by (nonlinear_arith)
            requires
                row >= 2,
        ;
        let j = i - 2 * w;
        assert(a.take(i as int)[j] == a[j] && b.take(i as int)[j] == b[j]);
    }
}

/// A row below the image's height is coded with one of the existing tables.
proof fn lemma_row_table(c: Scheme, height: nat, i: nat)
    requires
        c.width >= 2,
        c.valid(height),
        i < c.width * height,
    ensures
        0 <= c.table(i / c.width) < 6,
        i / c.width < height,
{
    let w = c.width;
    lemma_fundamental_div_mod(i as int, w as int);
    let q = i / w;
    assert(q < height) by (nonlinear_arith)
        requires
            w * q <= i,
            i < w * height,
    ;
}

/// Decoding what was encoded gives the samples back, and consumes exactly their
/// code: from any stream that starts with the code of an image, that image is decoded.
#[verifier::spinoff_prover]
#[verifier::rlimit(40)]
pub proof fn lemma_decode_encoded(c: Scheme, samples: Seq<u16>, height: nat, s: Seq<bool>, n: nat)
    requires
        valid_dimensions(c.width, height),
        c.valid(height),
        samples.len() == c.width * height,
        n <= samples.len(),
        encoded(c, samples, n) is Ok,
        holds_at(s, 0, encoded(c, samples, n)->Ok_0),
    ensures
        decoded(c, s, n) == (samples.take(n as int), encoded(c, samples, n)->Ok_0.len()),
    decreases n,
{
    if n == 0 {
        assert(samples.take(0) =~= Seq::empty());
    } else {
        let i = (n - 1) as nat;
        let b = encoded(c, samples, n)->Ok_0;
        let a = encoded(c, samples, i)->Ok_0;
        lemma_encoded_ok(c, samples, i, n);
        assert forall|j: int| 0 <= j < a.len() implies bit_at(s, 0 + j) == #[trigger] a[j] by {
            assert(b.take(a.len() as int)[j] == b[j]);
        }
        lemma_decode_encoded(c, samples, height, s, i);
        let t = c.table(i / c.width);
        lemma_row_table(c, height, i);
        lemma_nikon_codes_tile(t);
        let d = difference(c, samples, i);
        let x = encoded_diff(nikon_codes(t), d)->Ok_0;
        assert(b == a + x);
        assert forall|j: int| 0 <= j < x.len() implies bit_at(s, a.len() + j) == #[trigger] x[j] by {
            assert(b[a.len() + j] == x[j]);
        }
        lemma_difference_category(c, samples, t, i);
        lemma_decode_encoded_diff(nikon_codes(t), longest_upto(t, 16), d, s, a.len());
        let before = samples.take(i as int);
        assert(before.take(i as int) =~= samples.take(i as int));
        lemma_prediction_agrees(c, before, samples, i);
        let p = c.prediction(samples, i);
        assert((p + d) % 65536 == samples[i as int] as int);
        assert(samples.take(n as int) =~= before.push(samples[i as int]));
    }
}

/// A difference that has a code has at most 15 digits: it is a 16-bit number,
/// and no table has a code for the one of them with 16.
proof fn lemma_difference_category(c: Scheme, samples: Seq<u16>, t: int, i: nat)
    requires
        0 <= t < 6,
        encoded_diff(nikon_codes(t), difference(c, samples, i)) is Ok,
    ensures
        category(difference(c, samples, i)) < 16,
{
    let d = difference(c, samples, i);
    lemma2_to64();
    if d < 0 {
        lemma_bit_length_bound(-d as nat, 16);
    } else {
        lemma_bit_length_bound(d as nat, 16);
    }
    lemma_no_code_16(t);
}

/// A 16-bit difference survives the wrapping of the sum.
proof fn lemma_signed16(p: int, d: int)
    requires
        -32768 <= d < 32768,
    ensures
        signed16((p + d) % 65536 - p) == d,
{
}

/// Encoding what was decoded reproduces the stream: with plain tables, the
/// decoded samples are encoded by exactly the bits that were consumed, zeros
/// after the end of the stream included.
#[verifier::spinoff_prover]
#[verifier::rlimit(40)]
pub proof fn lemma_encode_decoded(c: Scheme, height: nat, s: Seq<bool>, n: nat)
    requires
        valid_dimensions(c.width, height),
        c.valid(height),
        c.plain(height),
        n <= c.width * height,
    ensures
        encoded(c, decoded(c, s, n).0, n) == Ok::<Seq<bool>, nat>(
            Seq::new(decoded(c, s, n).1, |j: int| bit_at(s, j)),
        ),
    decreases n,
{
    lemma_decoded_len(c, s, n);
    if n == 0 {
        assert(Seq::new(decoded(c, s, n).1, |j: int| bit_at(s, j)) =~= Seq::empty());
    } else {
        let i = (n - 1) as nat;
        lemma_encode_decoded(c, height, s, i);
        lemma_decoded_len(c, s, i);
        let (before, pos) = decoded(c, s, i);
        let (all, end) = decoded(c, s, n);
        let t = c.table(i / c.width);
        lemma_row_table(c, height, i);
        lemma_nikon_codes_tile(t);
        let codes = nikon_codes(t);
        let (d, len) = decoded_diff(codes, s, pos);
        lemma_encode_decoded_diff(codes, longest_upto(t, 16), s, pos);
        assert(all.take(i as int) =~= before);
        assert(before.take(i as int) =~= before);
        lemma_prediction_agrees(c, all, before, i);
        lemma_encoded_agrees(c, all, before, i);
        let p = c.prediction(before, i);
        lemma_decoded_diff_range(t, s, pos);
        lemma_signed16(p, d);
        assert(all[i as int] as int == (p + d) % 65536);
        assert(difference(c, all, i) == d);
        assert(Seq::new(pos, |j: int| bit_at(s, j)) + Seq::new(len, |j: int| bit_at(s, pos + j))
            =~= Seq::new(end, |j: int| bit_at(s, j)));
    }
}

/// `decode` is the inverse of `encode`: from a strip that starts with the code
/// of an image, exactly this image is decoded and exactly its code is consumed,
/// whatever follows.
pub proof fn lemma_decode_inverts_encode(
    c: Scheme,
    height: nat,
    samples: Seq<u16>,
    trailing: Seq<u8>,
)
    requires
        c.valid(height),
        strip_code(c, height, samples) is Ok,
    ensures
        ({
            let code = strip_code(c, height, samples)->Ok_0;
            let (pixels, bits) = decoded(c, bits_of(code + trailing), c.width * height);
            &&& pixels == samples
            &&& (bits + 7) / 8 == code.len()
        }),
{
    let b = encoded(c, samples, samples.len())->Ok_0;
    let code = strip_code(c, height, samples)->Ok_0;
    lemma_bits_of_bytes(pad_ones(b));
    let s = bits_of(code + trailing);
    assert forall|i: int| 0 <= i < b.len() implies bit_at(s, 0 + i) == #[trigger] b[i] by {
        assert((code + trailing)[i / 8] == code[i / 8]);
        assert(bits_of(code)[i] == pad_ones(b)[i]);
        assert(pad_ones(b)[i] == b[i]);
    }
    lemma_decode_encoded(c, samples, height, s, samples.len());
    assert(samples.take(samples.len() as int) =~= samples);
}

/// `encode` is the inverse of `decode`: with plain tables, the samples of any
/// data are encoded to the bits that were consumed, zeros after the end of the
/// data included, and the last byte is filled up with ones.
pub proof fn lemma_encode_inverts_decode(c: Scheme, height: nat, data: Seq<u8>)
    requires
        valid_dimensions(c.width, height),
        c.valid(height),
        c.plain(height),
    ensures
        ({
            let (pixels, bits) = decoded(c, bits_of(data), c.width * height);
            &&& strip_code(c, height, pixels) matches Ok(code)
            &&& code.len() == (bits + 7) / 8
            &&& forall|i: int|
                0 <= i < 8 * code.len() ==> #[trigger] bits_of(code)[i] == (i >= bits || bit_at(
                    bits_of(data),
                    i,
                ))
        }),
{
    let n = c.width * height;
    let s = bits_of(data);
    let (pixels, bits) = decoded(c, s, n);
    lemma_decoded_len(c, s, n);
    lemma_encode_decoded(c, height, s, n);
    let b = Seq::new(bits, |j: int| bit_at(s, j));
    assert(encoded(c, pixels, n) == Ok::<Seq<bool>, nat>(b));
    let code = bytes_from(pad_ones(b));
    lemma_bits_of_bytes(pad_ones(b));
    assert forall|i: int| 0 <= i < 8 * code.len() implies #[trigger] bits_of(code)[i] == (i >= bits
        || bit_at(s, i)) by {
        assert(bits_of(code)[i] == pad_ones(b)[i]);
    }
}

/// All samples and initial predictors fit in `bits` bits.
pub open spec fn fits(c: Scheme, samples: Seq<u16>, bits: nat) -> bool {
    &&& forall|i: int| 0 <= i < samples.len() ==> (#[trigger] samples[i]) < pow2(bits)
    &&& forall|k: int| 0 <= k < 4 ==> 0 <= #[trigger] c.initial[k] < pow2(bits)
}

/// The lossless tables encode every image of their bit depth.
pub proof fn lemma_lossless_encodes(c: Scheme, samples: Seq<u16>, height: nat, n: nat)
    requires
        valid_dimensions(c.width, height),
        samples.len() == c.width * height,
        n <= samples.len(),
        c.split_row == 0,
        c.huff_select == 2 && fits(c, samples, 12) || c.huff_select == 5 && fits(c, samples, 14),
    ensures
        encoded(c, samples, n) is Ok,
    decreases n,
{
    if n > 0 {
        let i = (n - 1) as nat;
        lemma_lossless_encodes(c, samples, height, i);
        let w = c.width;
        let row = i / w;
        let col = i % w;
        lemma_fundamental_div_mod(i as int, w as int);
        lemma2_to64();
        let limit: int = if c.huff_select == 2 {
            4096
        } else {
            16384
        };
        assert(samples[i as int] < limit);
        let p = c.prediction(samples, i);
        if col >= 2 {
            assert(w * row >= 0) by (nonlinear_arith);
            assert(p == samples[i - 2]);
        } else if row >= 2 {
            assert(w * row >= 2 * w) by (nonlinear_arith)
                requires
                    row >= 2,
            ;
            let j = i - 2 * w;
            assert(p == samples[j]);
        } else {
            assert(p == c.initial[(2 * row + col) as int]);
        }
        assert(0 <= p < limit);
        lemma_lossless_tables_complete(c.huff_select as int, difference(c, samples, i));
    }
}

/// Where two schemes differ only behind the image, they code it in the same way.
pub proof fn lemma_same_tables(c: Scheme, d: Scheme, height: nat, samples: Seq<u16>, n: nat)
    requires
        valid_dimensions(c.width, height),
        c.valid(height),
        c.width == d.width,
        c.initial == d.initial,
        forall|row: nat| row < height ==> #[trigger] c.table(row) == d.table(row),
        n <= c.width * height,
    ensures
        encoded(c, samples, n) == encoded(d, samples, n),
    decreases n,
{
    if n > 0 {
        let i = (n - 1) as nat;
        lemma_same_tables(c, d, height, samples, i);
        lemma_row_table(c, height, i);
        assert(c.table(i / c.width) == d.table(i / c.width));
        assert(c.prediction(samples, i) == d.prediction(samples, i));
    }
}

/// The code of the first samples depends on these samples only.
proof fn lemma_encoded_agrees(c: Scheme, a: Seq<u16>, b: Seq<u16>, n: nat)
    requires
        c.width >= 2,
        n <= a.len(),
        n <= b.len(),
        a.take(n as int) == b.take(n as int),
    ensures
        encoded(c, a, n) == encoded(c, b, n),
    decreases n,
{
    if n > 0 {
        let i = (n - 1) as nat;
        assert(a.take(i as int) =~= a.take(n as int).take(i as int));
        assert(b.take(i as int) =~= b.take(n as int).take(i as int));
        lemma_encoded_agrees(c, a, b, i);
        lemma_prediction_agrees(c, a, b, i);
        assert(a.take(n as int)[i as int] == a[i as int]);
        assert(b.take(n as int)[i as int] == b[i as int]);
    }
}

/// Decoding more samples does not change the earlier ones.
pub proof fn lemma_decoded_prefix(c: Scheme, s: Seq<bool>, m: nat, n: nat)
    requires
        m <= n,
    ensures
        decoded(c, s, n).0.len() == n,
        decoded(c, s, n).0.take(m as int) == decoded(c, s, m).0,
        decoded(c, s, m).1 <= decoded(c, s, n).1,
    decreases n,
{
    lemma_decoded_len(c, s, n);
    lemma_decoded_len(c, s, m);
    if m < n {
        let d = decoded(c, s, (n - 1) as nat).0;
        lemma_decoded_len(c, s, (n - 1) as nat);
        lemma_decoded_prefix(c, s, m, (n - 1) as nat);
        assert(decoded(c, s, n).0.take(m as int) =~= d.take(m as int));
    }
}

/// What decoding does, sample by sample. The codes of the differences follow each
/// other from the first bit on. The first two samples of a row are the sample of
/// the same column two rows above plus the coded difference, those of the first two
/// rows an initial value plus the difference, and every other sample is the sample
/// two columns to the left plus the difference; all modulo 65536. From the split
/// row on, if there is one, the next table is in use.
#[verifier::spinoff_prover]
pub proof fn lemma_decoded_samples(c: Scheme, s: Seq<bool>, n: nat, row: nat, col: nat)
    requires
        c.width >= 2,
        col < c.width,
        row * c.width + col < n,
    ensures
        ({
            let samples = decoded(c, s, n).0;
            let i = row * c.width + col;
            let start = decoded(c, s, i).1;
            let t = c.huff_select as int + if c.split_row > 0 && row >= c.split_row {
                1int
            } else {
                0
            };
            let (d, bits) = decoded_diff(nikon_codes(t), s, start);
            &&& samples.len() == n
            &&& decoded(c, s, 0).1 == 0
            &&& decoded(c, s, i + 1).1 == start + bits
            &&& col < 2 && row >= 2 ==> samples[i as int] == (samples[(row - 2) * c.width + col]
                + d) % 0x1_0000
            &&& col < 2 && row < 2 ==> samples[i as int] == (c.initial[(2 * row + col) as int] + d)
                % 0x1_0000
            &&& col >= 2 ==> samples[i as int] == (samples[i - 2] + d) % 0x1_0000
        }),
{
    let samples = decoded(c, s, n).0;
    let w = c.width as int;
    let i = row * c.width + col;
    lemma_fundamental_div_mod_converse(i as int, w, row as int, col as int);
    lemma_decoded_prefix(c, s, i, n);
    lemma_decoded_prefix(c, s, i + 1, n);
    let d = decoded(c, s, i).0;
    assert(samples[i as int] == samples.take((i + 1) as int)[i as int]);
    assert forall|j: int| 0 <= j < i implies d[j] == #[trigger] samples[j] by {
        assert(samples.take(i as int)[j] == samples[j]);
    }
    if col < 2 && row >= 2 {
        assert((row - 2) * w + col == i - 2 * w) by (nonlinear_arith)
            requires
                i == row * w + col,
        ;
        assert(0 <= (row - 2) * w) by (nonlinear_arith)
            requires
                row >= 2,
                w >= 2,
        ;
    }
    if col >= 2 {
        assert(0 <= row * w) by (nonlinear_arith)
            requires
                row >= 0,
                w >= 2,
        ;
    }
}

/// The parameters of a scheme: the initial value of row `row` and column `col` is
/// the one given for them.
pub proof fn lemma_scheme(
    width: usize,
    huff_select: usize,
    initial_predictors: [[i32; 2]; 2],
    split_row: usize,
    row: int,
    col: int,
)
    requires
        0 <= row < 2,
        0 <= col < 2,
    ensures
        scheme(width, huff_select, initial_predictors, split_row).width == width,
        scheme(width, huff_select, initial_predictors, split_row).huff_select == huff_select,
        scheme(width, huff_select, initial_predictors, split_row).split_row == split_row,
        scheme(width, huff_select, initial_predictors, split_row).initial[2 * row + col]
            == initial_predictors@[row]@[col],
{
    if row == 0 {
        assert(2 * row + col == col);
    } else {
        assert(2 * row + col == 2 + col);
    }
}

/// What encoding does, sample by sample. The code of a sample is that of its
/// difference to the sample of the same column two rows above (the first two
/// samples of a row), to an initial value (those of the first two rows) or to the
/// sample two columns to the left (all others), taken modulo 65536 into the range
/// of a signed 16-bit number. It follows the code of the samples before. A
/// difference without a code stops it.
#[verifier::spinoff_prover]
pub proof fn lemma_encoded_samples(
    c: Scheme,
    samples: Seq<u16>,
    row: nat,
    col: nat,
) -> (d: int)
    requires
        c.width >= 2,
        col < c.width,
        row * c.width + col < samples.len(),
    ensures
        ({
            let i = row * c.width + col;
            let t = c.huff_select as int + if c.split_row > 0 && row >= c.split_row {
                1int
            } else {
                0
            };
            let p = if col >= 2 {
                samples[i - 2] as int
            } else if row >= 2 {
                samples[(row - 2) * c.width + col] as int
            } else {
                c.initial[(2 * row + col) as int]
            };
            &&& -0x8000 <= d < 0x8000
            &&& (p + d) % 0x1_0000 == samples[i as int]
            &&& encoded(c, samples, 0) == Ok::<Seq<bool>, nat>(Seq::empty())
            &&& encoded(c, samples, i + 1) == match encoded(c, samples, i) {
                Ok(b) => match encoded_diff(nikon_codes(t), d) {
                    Ok(x) => Ok::<Seq<bool>, nat>(b + x),
                    Err(k) => Err(k),
                },
                Err(k) => Err(k),
            }
        }),
{
    let w = c.width as int;
    let i = row * c.width + col;
    lemma_fundamental_div_mod_converse(i as int, w, row as int, col as int);
    if col < 2 && row >= 2 {
        assert((row - 2) * w + col == i - 2 * w) by (nonlinear_arith)
            requires
                i == row * w + col,
        ;
    }
    let p = c.prediction(samples, i);
    let d = difference(c, samples, i);
    let x = samples[i as int] as int;
    assert(d == signed16(x - p));
    assert((p + d) % 0x1_0000 == x);
    d
}

/// When an image is encoded, and to what: its code, filled up with ones to whole
/// bytes.
pub proof fn lemma_strip_code(c: Scheme, height: nat, samples: Seq<u16>)
    ensures
        strip_code(c, height, samples) is Ok <==> {
            &&& c.width > 0
            &&& c.width % 2 == 0
            &&& height > 0
            &&& samples.len() == c.width * height
            &&& encoded(c, samples, samples.len()) is Ok
        },
        strip_code(c, height, samples) matches Ok(data) ==> {
            let b = encoded(c, samples, samples.len())->Ok_0;
            &&& b.len() <= 8 * data.len() < b.len() + 8
            &&& forall|i: int| 0 <= i < b.len() ==> bits_of(data)[i] == b[i]
            &&& forall|i: int| b.len() <= i < 8 * data.len() ==> #[trigger] bits_of(data)[i]
        },
{
    if strip_code(c, height, samples) is Ok {
        let b = encoded(c, samples, samples.len())->Ok_0;
        lemma_pad_ones(b);
        lemma_bits_of_bytes(pad_ones(b));
    }
}

/// When a strip is decoded: zero and odd widths and zero heights are refused, and
/// codes of more bits than can be counted.
pub proof fn lemma_decode_outcome(c: Scheme, height: nat, data: Seq<u8>)
    ensures
        decode_outcome(c, height, data) is Ok <==> {
            &&& c.width > 0
            &&& c.width % 2 == 0
            &&& height > 0
            &&& decoded(c, bits_of(data), c.width * height).1 <= usize::MAX
        },
        decode_outcome(c, height, data) matches Ok(d) ==> d == decoded(
            c,
            bits_of(data),
            c.width * height,
        ) && d.0.len() == c.width * height,
{
    lemma_decoded_len(c, bits_of(data), c.width * height);
}

} // verus!
