//! Raw strips on their way into and out of the container: what is kept of a
//! strip beside its pixels, and how the strip is made again from both.

use crate::bits::{bit_at, bits_of, bytes_from, lemma_bytes_from_bits, pad_ones};
use crate::bytes::{le, le_value, lemma_le_len, lemma_le_round_trip, lemma_le_value, read_le};
use crate::huffman::{bit_length, bits_needed, lemma_bit_length_bound, lemma_bit_length_range};
use crate::nikon_lossless::{
    decoded, encode, lemma_decoded_len, lemma_encode_decoded, scheme, signed16, strip_code,
    valid_dimensions, Scheme,
};
use vstd::arithmetic::power2::{lemma2_to64, lemma_pow2_strictly_increases, pow2};
use vstd::prelude::*;
use vstd::slice::slice_subrange;

verus! {

/// A sample, taken as a signed predictor, lies in the range of its bit depth.
pub open spec fn in_range(p: u16, bps: u32) -> bool {
    0 <= signed16(p as int) && (bps >= 16 || signed16(p as int) < pow2(bps as nat))
}

/// All samples lie in the range of their bit depth.
pub open spec fn all_in_range(pixels: Seq<u16>, bps: u32) -> bool {
    forall|i: int| 0 <= i < pixels.len() ==> in_range(#[trigger] pixels[i], bps)
}

/// The lowest of the samples, taken as signed predictors.
pub open spec fn lowest(pixels: Seq<u16>) -> int
    decreases pixels.len(),
{
    if pixels.len() <= 1 {
        signed16(pixels[0] as int)
    } else if signed16(pixels.last() as int) < lowest(pixels.drop_last()) {
        signed16(pixels.last() as int)
    } else {
        lowest(pixels.drop_last())
    }
}

/// The highest of the samples, taken as signed predictors.
pub open spec fn highest(pixels: Seq<u16>) -> int
    decreases pixels.len(),
{
    if pixels.len() <= 1 {
        signed16(pixels[0] as int)
    } else if signed16(pixels.last() as int) > highest(pixels.drop_last()) {
        signed16(pixels.last() as int)
    } else {
        highest(pixels.drop_last())
    }
}

/// The samples as distances from `lo`.
pub open spec fn shifted(pixels: Seq<u16>, lo: int) -> Seq<u16> {
    Seq::new(pixels.len(), |i: int| (signed16(pixels[i] as int) - lo) as u16)
}

/// The samples `bias` higher, wrapped around to 16 bits.
pub open spec fn unshifted(pixels: Seq<u16>, bias: int) -> Seq<u16> {
    Seq::new(pixels.len(), |i: int| ((pixels[i] + bias) % 65536) as u16)
}

/// How samples are handed to JPEG XL: the values, their bit depth and the bias.
/// Samples in range go in unchanged. Otherwise all are shifted by the lowest,
/// and the bit depth is that of the span.
pub open spec fn biased(pixels: Seq<u16>, bps: u32) -> (Seq<u16>, nat, Option<int>) {
    if all_in_range(pixels, bps) {
        (pixels, bps as nat, None)
    } else {
        let lo = lowest(pixels);
        let span = bit_length((highest(pixels) - lo) as nat);
        (
            shifted(pixels, lo),
            if span < 1 {
                1
            } else {
                span
            },
            Some(lo),
        )
    }
}

proof fn lemma_extremes(pixels: Seq<u16>)
    requires
        pixels.len() > 0,
    ensures
        -32768 <= lowest(pixels) <= highest(pixels) < 32768,
        forall|i: int|
            0 <= i < pixels.len() ==> lowest(pixels) <= signed16(#[trigger] pixels[i] as int)
                <= highest(pixels),
    decreases pixels.len(),
{
    if pixels.len() > 1 {
        let d = pixels.drop_last();
        lemma_extremes(d);
        assert forall|i: int| 0 <= i < pixels.len() implies lowest(pixels) <= signed16(
            #[trigger] pixels[i] as int,
        ) <= highest(pixels) by {
            if i < d.len() {
                assert(d[i] == pixels[i]);
            }
        }
    }
}

/// Undoing the bias gives the samples back, and biased samples fit in the bit
/// depth that goes with them.
pub proof fn lemma_bias_round_trip(pixels: Seq<u16>, bps: u32)
    ensures
        ({
            let (values, depth, bias) = biased(pixels, bps);
            &&& values.len() == pixels.len()
            &&& unshifted(
                values,
                match bias {
                    Some(b) => b,
                    None => 0,
                },
            ) == pixels
            &&& forall|i: int| 0 <= i < values.len() ==> (#[trigger] values[i]) < pow2(depth)
            &&& bias matches Some(b) ==> -32768 <= b < 32768 && 1 <= depth <= 16
        }),
{
    let (values, depth, bias) = biased(pixels, bps);
    lemma2_to64();
    if bias is None {
        assert(unshifted(values, 0) =~= pixels);
        assert forall|i: int| 0 <= i < values.len() implies (#[trigger] values[i]) < pow2(depth) by {
            assert(in_range(pixels[i], bps));
            if depth > 16 {
                lemma_pow2_strictly_increases(16, depth);
            }
        }
    } else {
        assert(pixels.len() > 0);
        lemma_extremes(pixels);
        let lo = lowest(pixels);
        let span = (highest(pixels) - lo) as nat;
        lemma_bit_length_bound(span, 16);
        lemma_bit_length_range(span);
        assert forall|i: int| 0 <= i < values.len() implies (#[trigger] values[i]) < pow2(depth)
            && unshifted(values, lo)[i] == pixels[i] by {
            assert(lo <= signed16(pixels[i] as int) <= highest(pixels));
        }
        assert(unshifted(values, lo) =~= pixels);
    }
}

fn signed_sample(p: u16) -> (r: i32)
    ensures
        r == signed16(p as int),
        -32768 <= r < 32768,
{
    if p < 32768 {
        p as i32
    } else {
        p as i32 - 65536
    }
}

fn sample_in_range(s: i32, bps: u32) -> (r: bool)
    requires
        -32768 <= s < 32768,
    ensures
        r == (0 <= s && (bps >= 16 || s < pow2(bps as nat))),
{
    if s < 0 {
        return false;
    }
    if bps >= 16 {
        return true;
    }
    proof {
        lemma_pow2_strictly_increases(bps as nat, 16);
        lemma2_to64();
        vstd::bits::lemma_u32_shl_is_mul(1u32, bps);
    }
    (s as u32) < (1u32 << bps)
}

/// Chooses how to feed decoded samples to JPEG XL. Normally the values lie in
/// the range of their bit depth and go in unchanged. A lossy frame can run the
/// predictor out of range; its values are shifted by the lowest into a compact
/// range, and the bias is returned so that the shift can be undone. The shift
/// cancels out of the prediction differences.
pub fn bias_pixels(pixels: Vec<u16>, bps: u32) -> (r: (Vec<u16>, u32, Option<i32>))
    ensures
        (
            r.0@,
            r.1 as nat,
            match r.2 {
                Some(b) => Some(b as int),
                None => None,
            },
        ) == biased(pixels@, bps),
{
    let mut lo: i32 = 0;
    let mut hi: i32 = 0;
    let mut out_of_range: bool = false;
    let mut i: usize = 0;
    while i < pixels.len()
        invariant
            0 <= i <= pixels@.len(),
            -32768 <= lo < 32768,
            -32768 <= hi < 32768,
            i > 0 ==> lo == lowest(pixels@.take(i as int)) && hi == highest(pixels@.take(i as int)),
            out_of_range == !all_in_range(pixels@.take(i as int), bps),
        decreases pixels@.len() - i,
    {
        let s = signed_sample(pixels[i]);
        proof {
            let t = pixels@.take(i as int);
            let u = pixels@.take(i + 1);
            assert(u.drop_last() =~= t);
            assert(u.last() == pixels@[i as int]);
            if all_in_range(t, bps) && in_range(pixels@[i as int], bps) {
                assert forall|k: int| 0 <= k < u.len() implies in_range(#[trigger] u[k], bps) by {
                    if k < i {
                        assert(t[k] == u[k]);
                    }
                }
            }
            if all_in_range(u, bps) {
                assert(in_range(u[i as int], bps));
                assert forall|k: int| 0 <= k < t.len() implies in_range(#[trigger] t[k], bps) by {
                    assert(t[k] == u[k]);
                }
            }
        }
        if i == 0 || s < lo {
            lo = s;
        }
        if i == 0 || s > hi {
            hi = s;
        }
        if !sample_in_range(s, bps) {
            out_of_range = true;
        }
        i = i + 1;
    }
    assert(pixels@.take(pixels@.len() as int) =~= pixels@);
    if !out_of_range {
        return (pixels, bps, None);
    }
    proof {
        if pixels@.len() > 0 {
            lemma_extremes(pixels@);
        }
    }
    let mut values: Vec<u16> = Vec::new();
    let mut k: usize = 0;
    while k < pixels.len()
        invariant
            0 <= k <= pixels@.len(),
            lo == lowest(pixels@),
            hi == highest(pixels@),
            -32768 <= lo <= hi < 32768,
            forall|i: int|
                0 <= i < pixels@.len() ==> lo <= signed16(#[trigger] pixels@[i] as int) <= hi,
            values@ == shifted(pixels@, lo as int).take(k as int),
        decreases pixels@.len() - k,
    {
        let s = signed_sample(pixels[k]);
        proof {
            let all = shifted(pixels@, lo as int);
            assert(lo <= signed16(pixels@[k as int] as int) <= hi);
            assert(all.take(k + 1) =~= all.take(k as int).push(all[k as int]));
        }
        values.push((s - lo) as u16);
        k = k + 1;
    }
    proof {
        let all = shifted(pixels@, lo as int);
        assert(all.take(all.len() as int) =~= all);
    }
    let span = bits_needed((hi - lo) as u32);
    let depth: u32 = if span < 1 {
        1
    } else {
        span
    };
    (values, depth, Some(lo))
}

/// Adds a bias to samples, wrapping around to 16 bits.
pub fn unbias_pixels(pixels: &[u16], bias: i32) -> (r: Vec<u16>)
    ensures
        r@ == unshifted(pixels@, bias as int),
{
    let ghost all = unshifted(pixels@, bias as int);
    let mut out: Vec<u16> = Vec::new();
    let mut i: usize = 0;
    while i < pixels.len()
        invariant
            0 <= i <= pixels@.len(),
            all == unshifted(pixels@, bias as int),
            out@ == all.take(i as int),
        decreases pixels@.len() - i,
    {
        proof {
            assert(all.take(i + 1) =~= all.take(i as int).push(all[i as int]));
        }
        out.push(((pixels[i] as i64 + bias as i64 + 0x1_0000_0000) % 65536) as u16);
        i = i + 1;
    }
    assert(all.take(all.len() as int) =~= all);
    out
}

/// A raw payload: the length of the JPEG XL data, the data, the tail.
pub open spec fn raw_payload(jxl: Seq<u8>, tail: Seq<u8>) -> Seq<u8> {
    le(jxl.len(), 4) + jxl + tail
}

/// The JPEG XL data and the tail of a raw payload. A payload that is too short
/// for the length it starts with is all data.
pub open spec fn payload_parts(payload: Seq<u8>) -> (Seq<u8>, Seq<u8>) {
    if payload.len() >= 4 && le_value(payload.take(4)) + 4 <= payload.len() {
        let n = le_value(payload.take(4)) as int;
        (payload.subrange(4, 4 + n), payload.skip(4 + n))
    } else {
        (payload, Seq::empty())
    }
}

/// Splitting a raw payload gives its parts back.
pub proof fn lemma_payload_round_trip(jxl: Seq<u8>, tail: Seq<u8>)
    requires
        jxl.len() <= u32::MAX,
    ensures
        payload_parts(raw_payload(jxl, tail)) == (jxl, tail),
{
    let p = raw_payload(jxl, tail);
    lemma_le_len(jxl.len(), 4);
    lemma2_to64();
    lemma_le_round_trip(jxl.len(), 4);
    assert(p.take(4) =~= le(jxl.len(), 4));
    assert(p.subrange(4, 4 + jxl.len() as int) =~= jxl);
    assert(p.skip(4 + jxl.len() as int) =~= tail);
}

/// Splits a raw payload into the JPEG XL data and the tail.
pub fn split_jxl_payload(payload: &[u8]) -> (r: (&[u8], &[u8]))
    ensures
        (r.0@, r.1@) == payload_parts(payload@),
{
    let size: usize = payload.len();
    if size >= 4 {
        assert(payload@.subrange(0, 4) =~= payload@.take(4));
        let n: u64 = read_le(payload, 0, 4);
        if n <= (size - 4) as u64 {
            let end: usize = 4 + n as usize;
            assert(payload@.subrange(end as int, size as int) =~= payload@.skip(end as int));
            return (slice_subrange(payload, 4, end), slice_subrange(payload, end, size));
        }
    }
    assert(payload@.subrange(0, size as int) =~= payload@);
    assert(payload@.subrange(size as int, size as int) =~= Seq::<u8>::empty());
    (slice_subrange(payload, 0, size), slice_subrange(payload, size, size))
}

/// `data` cut off or filled up with zeros to `n` bytes.
pub open spec fn fitted(data: Seq<u8>, n: nat) -> Seq<u8> {
    if data.len() >= n {
        data.take(n as int)
    } else {
        data + Seq::new((n - data.len()) as nat, |i: int| 0u8)
    }
}

pub open spec fn tail_message() -> Seq<char> {
    "raw strip tail longer than strip length"@
}

/// A strip of `needed` bytes: the code of the samples, fitted to the bytes in
/// front of the tail, and the tail.
pub open spec fn reconstructed(
    c: Scheme,
    height: nat,
    pixels: Seq<u16>,
    tail: Seq<u8>,
    needed: nat,
) -> Result<Seq<u8>, Seq<char>> {
    match strip_code(c, height, pixels) {
        Err(e) => Err(e),
        Ok(data) => if tail.len() > needed {
            Err(tail_message())
        } else {
            Ok(fitted(data, (needed - tail.len()) as nat) + tail)
        },
    }
}

/// Encodes decoded samples again and fits the strip to exactly `needed` bytes.
/// The preserved `tail`, which is the last partial byte and what follows it,
/// replaces the end. The code in front of it is cut off or filled up: a decoder
/// that ran over the end of its stream makes the code too long, and its first
/// bytes are still those of the stream.
pub fn reconstruct_raw_strip(
    pixels: &[u16],
    width: usize,
    height: usize,
    bps: u32,
    huff_select: usize,
    predictors: [[i32; 2]; 2],
    split_row: usize,
    tail: &[u8],
    needed: usize,
) -> (r: Result<Vec<u8>, String>)
    requires
        valid_dimensions(width as nat, height as nat) && pixels@.len() == width * height
            ==> scheme(width, huff_select, predictors, split_row).valid(height as nat),
    ensures
        match reconstructed(
            scheme(width, huff_select, predictors, split_row),
            height as nat,
            pixels@,
            tail@,
            needed as nat,
        ) {
            Ok(data) => r is Ok && r->Ok_0@ == data,
            Err(e) => r is Err && r->Err_0@ == e,
        },
{
    let code = encode(pixels, width, height, bps, huff_select, predictors, split_row)?;
    if tail.len() > needed {
        return Err("raw strip tail longer than strip length".to_string());
    }
    let body_len: usize = needed - tail.len();
    let ghost data = code@;
    let mut out = code;
    if out.len() > body_len {
        out.truncate(body_len);
        assert(out@ =~= data.take(body_len as int));
    } else {
        out.resize(body_len, 0);
        assert(out@ =~= fitted(data, body_len as nat));
    }
    let ghost body = out@;
    out.extend_from_slice(tail);
    assert(out@ =~= body + tail@);
    Ok(out)
}

/// The tail that is kept of a strip of which `bits` bits were decoded: what
/// follows the last byte that was used up.
pub open spec fn kept_tail(strip: Seq<u8>, bits: nat) -> Seq<u8> {
    strip.skip(
        if bits / 8 < strip.len() {
            (bits / 8) as int
        } else {
            strip.len() as int
        },
    )
}

/// Every strip in plain tables is made again exactly from its samples and its
/// tail, also one that is too short for its image.
pub proof fn lemma_plain_strip_round_trips(c: Scheme, height: nat, strip: Seq<u8>)
    requires
        valid_dimensions(c.width, height),
        c.valid(height),
        c.plain(height),
    ensures
        ({
            let (pixels, bits) = decoded(c, bits_of(strip), c.width * height);
            reconstructed(c, height, pixels, kept_tail(strip, bits), strip.len()) == Ok::<
                Seq<u8>,
                Seq<char>,
            >(strip)
        }),
{
    let n = c.width * height;
    let s = bits_of(strip);
    let (pixels, bits) = decoded(c, s, n);
    lemma_decoded_len(c, s, n);
    lemma_encode_decoded(c, height, s, n);
    let b = Seq::new(bits, |j: int| bit_at(s, j));
    let code = bytes_from(pad_ones(b));
    assert(strip_code(c, height, pixels) == Ok::<Seq<u8>, Seq<char>>(code));
    let full: nat = if bits / 8 < strip.len() {
        bits / 8
    } else {
        strip.len()
    };
    assert(code.len() >= full);
    assert forall|i: int| 0 <= i < full implies code[i] == strip[i] by {
        lemma_bytes_from_bits(strip);
        assert(bytes_from(s)[i] == strip[i]);
        assert forall|k: int| 0 <= k < 8 implies bit_at(pad_ones(b), (8 * i) as nat + k)
            == #[trigger] bit_at(s, (8 * i) as nat + k) by {
            assert(8 * i + k < bits);
            assert(pad_ones(b)[8 * i + k] == b[8 * i + k]);
        }
        crate::bits::lemma_peek_agree(pad_ones(b), s, (8 * i) as nat, (8 * i) as nat, 8);
    }
    let tail = kept_tail(strip, bits);
    assert(fitted(code, full) + tail =~= strip);
}

proof fn lemma_lowest_attained(pixels: Seq<u16>) -> (i: int)
    requires
        pixels.len() > 0,
    ensures
        0 <= i < pixels.len(),
        lowest(pixels) == signed16(pixels[i] as int),
    decreases pixels.len(),
{
    if pixels.len() > 1 && signed16(pixels.last() as int) >= lowest(pixels.drop_last()) {
        let i = lemma_lowest_attained(pixels.drop_last());
        assert(pixels.drop_last()[i] == pixels[i]);
        i
    } else {
        pixels.len() - 1
    }
}

proof fn lemma_highest_attained(pixels: Seq<u16>) -> (i: int)
    requires
        pixels.len() > 0,
    ensures
        0 <= i < pixels.len(),
        highest(pixels) == signed16(pixels[i] as int),
    decreases pixels.len(),
{
    if pixels.len() > 1 && signed16(pixels.last() as int) <= highest(pixels.drop_last()) {
        let i = lemma_highest_attained(pixels.drop_last());
        assert(pixels.drop_last()[i] == pixels[i]);
        i
    } else {
        pixels.len() - 1
    }
}

/// What becomes of samples. If all are below 32768 and fit in their bit depth, nothing.
/// Otherwise the values and the bias add up to the samples as signed 16-bit numbers,
/// some value is zero, and the new bit depth, which is at least one, is the least in
/// which all values fit.
#[verifier::spinoff_prover]
pub proof fn lemma_biased(pixels: Seq<u16>, bps: u32)
    ensures
        ({
            let (values, depth, bias) = biased(pixels, bps);
            let plain = forall|i: int|
                0 <= i < pixels.len() ==> (#[trigger] pixels[i]) < 0x8000 && (bps < 16 ==> pixels[i]
                    < pow2(bps as nat));
            &&& bias is None <==> plain
            &&& bias is None ==> values == pixels && depth == bps
            &&& values.len() == pixels.len()
            &&& bias matches Some(lo) ==> {
                &&& -0x8000 <= lo < 0x8000
                &&& forall|i: int|
                    0 <= i < pixels.len() ==> (lo + #[trigger] values[i] == pixels[i] || lo
                        + values[i] == pixels[i] - 0x1_0000) && -0x8000 <= lo + values[i] < 0x8000
                        && values[i] < pow2(depth)
                &&& exists|i: int| 0 <= i < pixels.len() && #[trigger] values[i] == 0
                &&& depth >= 1
                &&& depth > 1 ==> exists|i: int|
                    0 <= i < pixels.len() && #[trigger] values[i] >= pow2((depth - 1) as nat)
            }
        }),
{
    let (values, depth, bias) = biased(pixels, bps);
    if all_in_range(pixels, bps) {
        assert forall|i: int| 0 <= i < pixels.len() implies (#[trigger] pixels[i]) < 0x8000 && (bps
            < 16 ==> pixels[i] < pow2(bps as nat)) by {
            assert(in_range(pixels[i], bps));
        }
    } else {
        let j = choose|j: int| 0 <= j < pixels.len() && !in_range(#[trigger] pixels[j], bps);
        assert(!(pixels[j] < 0x8000 && (bps < 16 ==> pixels[j] < pow2(bps as nat))));
        lemma_extremes(pixels);
        let lo = lowest(pixels);
        let hi = highest(pixels);
        let a = lemma_lowest_attained(pixels);
        let b = lemma_highest_attained(pixels);
        let span = (hi - lo) as nat;
        lemma_bit_length_range(span);
        lemma2_to64();
        assert(span < pow2(depth));
        assert forall|i: int| 0 <= i < pixels.len() implies (lo + #[trigger] values[i] == pixels[i]
            || lo + values[i] == pixels[i] - 0x1_0000) && -0x8000 <= lo + values[i] < 0x8000
            && values[i] < pow2(depth) by {
            let x = signed16(pixels[i] as int);
            assert(lo <= x <= hi);
            assert(values[i] == x - lo);
        }
        assert(values[a] == 0);
        assert(values[b] == span);
    }
}

/// Taking the bias back adds it modulo 65536.
pub proof fn lemma_unshifted(pixels: Seq<u16>, bias: int, i: int)
    requires
        0 <= i < pixels.len(),
    ensures
        unshifted(pixels, bias).len() == pixels.len(),
        (pixels[i] + bias - unshifted(pixels, bias)[i]) % 0x1_0000 == 0,
{
}

/// A payload starts with the length of its data in four bytes, lowest first; the data
/// and the tail follow.
pub proof fn lemma_raw_payload(jxl: Seq<u8>, tail: Seq<u8>)
    requires
        jxl.len() <= u32::MAX,
    ensures
        ({
            let p = raw_payload(jxl, tail);
            &&& p.len() == 4 + jxl.len() + tail.len()
            &&& p[0] + 256 * (p[1] + 256 * (p[2] + 256 * p[3])) == jxl.len()
            &&& p.subrange(4, 4 + jxl.len() as int) == jxl
            &&& p.skip(4 + jxl.len() as int) == tail
        }),
{
    let p = raw_payload(jxl, tail);
    lemma_le_len(jxl.len(), 4);
    lemma2_to64();
    lemma_le_round_trip(jxl.len(), 4);
    assert(p.take(4) =~= le(jxl.len(), 4));
    lemma_le_value(p.take(4));
    assert(p.subrange(4, 4 + jxl.len() as int) =~= jxl);
    assert(p.skip(4 + jxl.len() as int) =~= tail);
}

/// How a payload is split: by the length in its first four bytes, or not at all if it
/// has no four bytes or not so many behind them.
pub proof fn lemma_payload_parts(p: Seq<u8>)
    ensures
        ({
            let (data, tail) = payload_parts(p);
            let n = p[0] + 256 * (p[1] + 256 * (p[2] + 256 * p[3]));
            if p.len() >= 4 && 4 + n <= p.len() {
                data.len() == n && p == p.take(4) + data + tail
            } else {
                data == p && tail == Seq::<u8>::empty()
            }
        }),
{
    let (data, tail) = payload_parts(p);
    if p.len() >= 4 {
        lemma_le_value(p.take(4));
        let n = p[0] + 256 * (p[1] + 256 * (p[2] + 256 * p[3]));
        assert(le_value(p.take(4)) == n);
        if 4 + n <= p.len() {
            assert(p =~= p.take(4) + data + tail);
        }
    }
}

/// A strip that is made again has the length that was asked for. It ends with the
/// tail; in front of it stand the first bytes of the code of the samples, as many as
/// there is room for, and then zeros. It is refused exactly if the samples have no
/// code or the tail is longer than the strip.
pub proof fn lemma_reconstructed(
    c: Scheme,
    height: nat,
    pixels: Seq<u16>,
    tail: Seq<u8>,
    needed: nat,
)
    ensures
        ({
            let code = strip_code(c, height, pixels);
            let r = reconstructed(c, height, pixels, tail, needed);
            &&& r is Ok <==> code is Ok && tail.len() <= needed
            &&& r matches Ok(s) ==> {
                let front = needed - tail.len();
                &&& s.len() == needed
                &&& forall|i: int|
                    0 <= i < front && i < code->Ok_0.len() ==> s[i] == #[trigger] code->Ok_0[i]
                &&& forall|i: int| code->Ok_0.len() <= i < front ==> #[trigger] s[i] == 0
                &&& s.skip(front) == tail
            }
        }),
{
    let code = strip_code(c, height, pixels);
    if let Ok(s) = reconstructed(c, height, pixels, tail, needed) {
        assert(s.skip(needed - tail.len()) =~= tail);
    }
}

/// The tail starts with the byte in which the codes end, and is empty if the codes go
/// over the end of the strip or up to it.
pub proof fn lemma_kept_tail(strip: Seq<u8>, bits: nat)
    ensures
        bits < 8 * strip.len() ==> {
            let n = strip.len() - kept_tail(strip, bits).len();
            &&& 8 * n <= bits < 8 * (n + 1)
            &&& strip.take(n) + kept_tail(strip, bits) == strip
        },
        bits >= 8 * strip.len() ==> kept_tail(strip, bits).len() == 0,
{
    let n = strip.len() - kept_tail(strip, bits).len();
    assert(strip.take(n) + kept_tail(strip, bits) =~= strip);
}

} // verus!
