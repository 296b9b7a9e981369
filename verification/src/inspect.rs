//! Views of a decoded mosaic: how far its two green channels differ, and its
//! samples as bytes for other programs.

use crate::huffman::{bit_length, bits_needed, lemma_bit_length_range};
use vstd::arithmetic::div_mod::{lemma_fundamental_div_mod, lemma_fundamental_div_mod_converse};
use vstd::arithmetic::power2::pow2;
use vstd::prelude::*;

verus! {

/// The place in the mosaic of channel `ch` of the block of two by two samples
/// with number `k`, blocks counted row by row.
pub open spec fn block_place(width: nat, k: int, ch: int) -> int {
    let half = (width / 2) as int;
    (2 * (k / half) + ch / 2) * width + 2 * (k % half) + ch % 2
}

/// The number of blocks of two by two samples.
pub open spec fn block_count(width: nat, height: nat) -> nat {
    (width / 2) * (height / 2)
}

/// By how much the first green sample of block `k` exceeds the second.
pub open spec fn green_delta(pixels: Seq<u16>, width: nat, k: int) -> int {
    pixels[block_place(width, k, 1)] - pixels[block_place(width, k, 2)]
}

/// The least difference of the first `n` blocks, at most zero.
pub open spec fn least_delta(pixels: Seq<u16>, width: nat, n: nat) -> int
    decreases n,
{
    if n == 0 {
        0
    } else if green_delta(pixels, width, n - 1) < least_delta(pixels, width, (n - 1) as nat) {
        green_delta(pixels, width, n - 1)
    } else {
        least_delta(pixels, width, (n - 1) as nat)
    }
}

/// The greatest difference of the first `n` blocks, at least zero.
pub open spec fn greatest_delta(pixels: Seq<u16>, width: nat, n: nat) -> int
    decreases n,
{
    if n == 0 {
        0
    } else if green_delta(pixels, width, n - 1) > greatest_delta(pixels, width, (n - 1) as nat) {
        green_delta(pixels, width, n - 1)
    } else {
        greatest_delta(pixels, width, (n - 1) as nat)
    }
}

/// The absolute value.
pub open spec fn magnitude(x: int) -> nat {
    if x < 0 {
        -x as nat
    } else {
        x as nat
    }
}

/// The sum of the differences of the first `n` blocks, without their signs.
pub open spec fn delta_sum(pixels: Seq<u16>, width: nat, n: nat) -> nat
    decreases n,
{
    if n == 0 {
        0
    } else {
        delta_sum(pixels, width, (n - 1) as nat) + magnitude(green_delta(pixels, width, n - 1))
    }
}

/// How far the two green channels of a mosaic differ.
#[derive(Debug, Clone, Copy)]
pub struct GreenDeltas {
    pub min_delta: i32,
    pub max_delta: i32,
    pub sum_abs: u64,
    pub bits_needed: u32,
}

/// The samples of a block lie in the mosaic.
proof fn lemma_block_place(width: nat, height: nat, k: int, ch: int)
    requires
        0 <= k < block_count(width, height),
        0 <= ch < 4,
    ensures
        0 <= block_place(width, k, ch) < width * height,
        width / 2 > 0,
{
    let half = (width / 2) as int;
    let rows = (height / 2) as int;
    assert(half > 0) by (nonlinear_arith)
        requires
            half * rows > 0,
            half >= 0,
    ;
    lemma_fundamental_div_mod(k, half);
    let q = k / half;
    assert(q < rows) by (nonlinear_arith)
        requires
            half * q <= k,
            k < half * rows,
            half > 0,
    ;
    let row = 2 * q + ch / 2;
    let col = 2 * (k % half) + ch % 2;
    assert(row < height);
    assert(col < width);
    assert(row * width + width <= width * height) by (nonlinear_arith)
        requires
            row + 1 <= height,
            width >= 0,
    ;
    assert(row * width >= 0) by (nonlinear_arith)
        requires
            row >= 0,
            width >= 0,
    ;
}

/// How far the two green channels of a mosaic differ.
pub fn green_deltas(pixels: &[u16], width: usize, height: usize) -> (r: GreenDeltas)
    requires
        width * height <= pixels@.len(),
        pixels@.len() <= 0x1_0000_0000_0000,
    ensures
        ({
            let n = block_count(width as nat, height as nat);
            &&& r.min_delta == least_delta(pixels@, width as nat, n)
            &&& r.max_delta == greatest_delta(pixels@, width as nat, n)
            &&& r.sum_abs == delta_sum(pixels@, width as nat, n)
            &&& r.bits_needed == bit_length(
                if r.max_delta > -r.min_delta {
                    r.max_delta as nat
                } else {
                    -r.min_delta as nat
                },
            )
            &&& r.max_delta < pow2(r.bits_needed as nat)
            &&& -r.min_delta < pow2(r.bits_needed as nat)
            &&& r.bits_needed > 0 ==> r.max_delta >= pow2((r.bits_needed - 1) as nat)
                || -r.min_delta >= pow2((r.bits_needed - 1) as nat)
        }),
{
    let size: usize = pixels.len();
    let half_w: usize = width / 2;
    let half_h: usize = height / 2;
    let ghost n = block_count(width as nat, height as nat);
    proof {
        assert(half_w * half_h <= width * height) by (nonlinear_arith)
            requires
                half_w <= width,
                half_h <= height,
        ;
    }
    let mut min_delta: i32 = 0;
    let mut max_delta: i32 = 0;
    let mut sum_abs: u64 = 0;
    let mut row: usize = 0;
    while row < half_h
        invariant
            size == pixels@.len(),
            width * height <= pixels@.len(),
            pixels@.len() <= 0x1_0000_0000_0000,
            half_w == width / 2,
            half_h == height / 2,
            n == block_count(width as nat, height as nat),
            n <= width * height,
            0 <= row <= half_h,
            -65535 <= min_delta <= 0,
            0 <= max_delta <= 65535,
            min_delta == least_delta(pixels@, width as nat, (row * half_w) as nat),
            max_delta == greatest_delta(pixels@, width as nat, (row * half_w) as nat),
            sum_abs == delta_sum(pixels@, width as nat, (row * half_w) as nat),
            sum_abs <= 65535 * (row * half_w),
        decreases half_h - row,
    {
        let mut col: usize = 0;
        proof {
            assert((row + 1) * half_w == row * half_w + half_w) by (nonlinear_arith);
            assert((row + 1) * half_w <= half_w * half_h) by (nonlinear_arith)
                requires
                    row < half_h,
            ;
            assert(row * half_w >= 0) by (nonlinear_arith);
        }
        while col < half_w
            invariant
                size == pixels@.len(),
                width * height <= pixels@.len(),
                pixels@.len() <= 0x1_0000_0000_0000,
                half_w == width / 2,
                half_h == height / 2,
                n == block_count(width as nat, height as nat),
                n <= width * height,
                row < half_h,
                row * half_w >= 0,
                (row + 1) * half_w == row * half_w + half_w,
                (row + 1) * half_w <= n,
                0 <= col <= half_w,
                -65535 <= min_delta <= 0,
                0 <= max_delta <= 65535,
                min_delta == least_delta(pixels@, width as nat, (row * half_w + col) as nat),
                max_delta == greatest_delta(pixels@, width as nat, (row * half_w + col) as nat),
                sum_abs == delta_sum(pixels@, width as nat, (row * half_w + col) as nat),
                sum_abs <= 65535 * (row * half_w + col),
            decreases half_w - col,
        {
            let ghost k = row * half_w + col;
            proof {
                lemma_fundamental_div_mod_converse(k, half_w as int, row as int, col as int);
                lemma_block_place(width as nat, height as nat, k, 1);
                lemma_block_place(width as nat, height as nat, k, 2);
                assert((2 * row) * width >= 0) by (nonlinear_arith);
                assert((2 * row + 1) * width >= 0) by (nonlinear_arith);
            }
            let g1: i32 = pixels[(2 * row) * width + (2 * col + 1)] as i32;
            let g2: i32 = pixels[(2 * row + 1) * width + 2 * col] as i32;
            let delta: i32 = g1 - g2;
            assert(delta == green_delta(pixels@, width as nat, k));
            if delta < min_delta {
                min_delta = delta;
            }
            if delta > max_delta {
                max_delta = delta;
            }
            let abs: u64 = if delta < 0 {
                (-delta) as u64
            } else {
                delta as u64
            };
            sum_abs = sum_abs + abs;
            col = col + 1;
            assert((k + 1) as nat == (row * half_w + col) as nat);
        }
        row = row + 1;
    }
    proof {
        assert(half_h * half_w == half_w * half_h) by (nonlinear_arith);
    }
    let max_abs: i32 = if max_delta > -min_delta {
        max_delta
    } else {
        -min_delta
    };
    proof {
        lemma_bit_length_range(max_abs as nat);
    }
    GreenDeltas { min_delta, max_delta, sum_abs, bits_needed: bits_needed(max_abs as u32) }
}

/// The samples as little-endian bytes.
pub open spec fn sample_bytes(samples: Seq<u16>) -> Seq<u8> {
    Seq::new(
        2 * samples.len(),
        |i: int|
            if i % 2 == 0 {
                (samples[i / 2] % 256) as u8
            } else {
                (samples[i / 2] / 256) as u8
            },
    )
}

/// The samples as little-endian bytes.
pub fn to_le_bytes(samples: &[u16]) -> (r: Vec<u8>)
    ensures
        r@ == sample_bytes(samples@),
{
    let ghost all = sample_bytes(samples@);
    let mut out: Vec<u8> = Vec::new();
    let mut i: usize = 0;
    assert(all.take(0) =~= Seq::empty());
    while i < samples.len()
        invariant
            all == sample_bytes(samples@),
            0 <= i <= samples@.len(),
            out@ == all.take(2 * i),
        decreases samples@.len() - i,
    {
        out.push((samples[i] % 256) as u8);
        out.push((samples[i] / 256) as u8);
        assert(out@ =~= all.take(2 * (i + 1)));
        i = i + 1;
    }
    assert(all.take(all.len() as int) =~= all);
    out
}

/// The samples of the mosaic block by block, four for each.
pub open spec fn blocks(pixels: Seq<u16>, width: nat, height: nat) -> Seq<u16> {
    Seq::new(4 * block_count(width, height), |i: int| pixels[block_place(width, i / 4, i % 4)])
}

/// The samples of the mosaic block by block, four for each.
pub fn to_blocks(pixels: &[u16], width: usize, height: usize) -> (r: Vec<u16>)
    requires
        width * height <= pixels@.len(),
    ensures
        r@ == blocks(pixels@, width as nat, height as nat),
{
    let ghost all = blocks(pixels@, width as nat, height as nat);
    let ghost n = block_count(width as nat, height as nat);
    let size: usize = pixels.len();
    let half_w: usize = width / 2;
    let half_h: usize = height / 2;
    let mut out: Vec<u16> = Vec::new();
    let mut row: usize = 0;
    assert(all.take(0) =~= Seq::empty());
    while row < half_h
        invariant
            size == pixels@.len(),
            width * height <= pixels@.len(),
            half_w == width / 2,
            half_h == height / 2,
            n == block_count(width as nat, height as nat),
            all == blocks(pixels@, width as nat, height as nat),
            0 <= row <= half_h,
            out@ == all.take(4 * (row * half_w)),
            4 * (row * half_w) <= all.len(),
        decreases half_h - row,
    {
        let mut col: usize = 0;
        proof {
            assert((row + 1) * half_w == row * half_w + half_w) by (nonlinear_arith);
            assert((row + 1) * half_w <= half_w * half_h) by (nonlinear_arith)
                requires
                    row < half_h,
            ;
            assert(row * half_w >= 0) by (nonlinear_arith);
        }
        while col < half_w
            invariant
                size == pixels@.len(),
                width * height <= pixels@.len(),
                half_w == width / 2,
                half_h == height / 2,
                n == block_count(width as nat, height as nat),
                all == blocks(pixels@, width as nat, height as nat),
                row < half_h,
                row * half_w >= 0,
                (row + 1) * half_w == row * half_w + half_w,
                (row + 1) * half_w <= n,
                0 <= col <= half_w,
                out@ == all.take(4 * (row * half_w + col)),
            decreases half_w - col,
        {
            let ghost k = row * half_w + col;
            proof {
                lemma_fundamental_div_mod_converse(k, half_w as int, row as int, col as int);
                lemma_block_place(width as nat, height as nat, k, 0);
                lemma_block_place(width as nat, height as nat, k, 1);
                lemma_block_place(width as nat, height as nat, k, 2);
                lemma_block_place(width as nat, height as nat, k, 3);
                assert((2 * row) * width >= 0) by (nonlinear_arith);
                assert((2 * row + 1) * width >= 0) by (nonlinear_arith);
            }
            out.push(pixels[(2 * row) * width + 2 * col]);
            out.push(pixels[(2 * row) * width + (2 * col + 1)]);
            out.push(pixels[(2 * row + 1) * width + 2 * col]);
            out.push(pixels[(2 * row + 1) * width + (2 * col + 1)]);
            proof {
                assert(all[4 * k] == pixels@[block_place(width as nat, k, 0)]);
                assert(all[4 * k + 1] == pixels@[block_place(width as nat, k, 1)]);
                assert(all[4 * k + 2] == pixels@[block_place(width as nat, k, 2)]);
                assert(all[4 * k + 3] == pixels@[block_place(width as nat, k, 3)]);
                assert(out@ =~= all.take(4 * (k + 1)));
            }
            col = col + 1;
        }
        row = row + 1;
    }
    proof {
        assert(half_h * half_w == half_w * half_h) by (nonlinear_arith);
        assert(all.take(all.len() as int) =~= all);
    }
    out
}

/// The four channels of blocks, one after the other.
pub open spec fn planes(blocks: Seq<u16>) -> Seq<u16> {
    let n = (blocks.len() / 4) as int;
    Seq::new(4 * (blocks.len() / 4), |i: int| blocks[4 * (i % n) + i / n])
}

/// The four channels of blocks, one after the other.
pub fn to_planes(blocks: &[u16]) -> (r: Vec<u16>)
    ensures
        r@ == planes(blocks@),
{
    let ghost all = planes(blocks@);
    let size: usize = blocks.len();
    let n: usize = size / 4;
    let mut out: Vec<u16> = Vec::new();
    let mut ch: usize = 0;
    assert(all.take(0) =~= Seq::empty());
    while ch < 4
        invariant
            size == blocks@.len(),
            n == size / 4,
            all == planes(blocks@),
            0 <= ch <= 4,
            out@ == all.take(ch * n),
        decreases 4 - ch,
    {
        let mut i: usize = 0;
        proof {
            assert((ch + 1) * n == ch * n + n) by (nonlinear_arith);
            assert((ch + 1) * n <= 4 * n) by (nonlinear_arith)
                requires
                    ch < 4,
            ;
            assert(ch * n >= 0) by (nonlinear_arith);
        }
        while i < n
            invariant
                size == blocks@.len(),
                n == size / 4,
                all == planes(blocks@),
                ch < 4,
                ch * n >= 0,
                (ch + 1) * n == ch * n + n,
                (ch + 1) * n <= 4 * n,
                0 <= i <= n,
                out@ == all.take(ch * n + i),
            decreases n - i,
        {
            proof {
                lemma_fundamental_div_mod_converse(ch * n + i, n as int, ch as int, i as int);
                assert(all.take(ch * n + i + 1) =~= all.take(ch * n + i).push(all[ch * n + i]));
            }
            out.push(blocks[4 * i + ch]);
            i = i + 1;
        }
        ch = ch + 1;
    }
    assert(all.take(all.len() as int) =~= all);
    out
}

/// Block `(r, c)` of the mosaic has the number `r * (width / 2) + c`, and its four
/// samples are those at `(2r, 2c)`, one to the right, one below, and both.
proof fn lemma_block_at(width: nat, height: nat, r: int, c: int, ch: int)
    requires
        0 <= r < height / 2,
        0 <= c < width / 2,
        0 <= ch < 4,
    ensures
        0 <= r * (width / 2) + c < block_count(width, height),
        block_place(width, r * (width / 2) + c, ch) == (2 * r + ch / 2) * width + (2 * c + ch % 2),
{
    let half = (width / 2) as int;
    let rows = (height / 2) as int;
    let k = r * half + c;
    lemma_fundamental_div_mod_converse(k, half, r, c);
    assert(r * half + half <= half * rows) by (nonlinear_arith)
        requires
            r + 1 <= rows,
            half >= 0,
    ;
    assert(r * half >= 0) by (nonlinear_arith)
        requires
            r >= 0,
            half >= 0,
    ;
}

/// The shape of a block: its first sample stands in an even row and an even column.
/// Channel 1, the first green, stands to the right of it, in an odd column. Channel
/// 2, the second green, stands in the row below channel 1, one column to the left,
/// and channel 3 to the right of channel 2.
pub proof fn lemma_block_shape(width: nat, height: nat, k: int)
    requires
        0 <= k < block_count(width, height),
    ensures
        ({
            let first = block_place(width, k, 0);
            &&& 0 <= first
            &&& first + width + 1 < width * height
            &&& (first / width as int) % 2 == 0
            &&& (first % width as int) % 2 == 0
            &&& first % width as int + 1 < width
            &&& block_place(width, k, 1) == first + 1
            &&& block_place(width, k, 2) == block_place(width, k, 1) + width - 1
            &&& block_place(width, k, 3) == block_place(width, k, 2) + 1
        }),
{
    let half = (width / 2) as int;
    lemma_block_place(width, height, k, 0);
    lemma_block_place(width, height, k, 3);
    lemma_fundamental_div_mod(k, half);
    let r = k / half;
    let c = k % half;
    assert(0 <= r) by (nonlinear_arith)
        requires
            half * r + c == k,
            0 <= k,
            c < half,
            half > 0,
    ;
    let w = width as int;
    lemma_fundamental_div_mod_converse((2 * r) * w + 2 * c, w, 2 * r, 2 * c);
    assert((2 * r + 1) * w == (2 * r) * w + w) by (nonlinear_arith);
}

/// The blocks are counted row by row: their first samples follow each other in the
/// mosaic.
pub proof fn lemma_blocks_ordered(width: nat, height: nat, j: int, k: int)
    requires
        0 <= j < k < block_count(width, height),
    ensures
        block_place(width, j, 0) < block_place(width, k, 0),
{
    let half = (width / 2) as int;
    let w = width as int;
    lemma_block_place(width, height, j, 0);
    lemma_fundamental_div_mod(j, half);
    lemma_fundamental_div_mod(k, half);
    let (q, r) = (j / half, k / half);
    let (a, b) = (j % half, k % half);
    assert(q <= r) by (nonlinear_arith)
        requires
            half * q + a < half * r + b,
            0 <= a,
            b < half,
            half > 0,
    ;
    if q < r {
        assert((2 * q) * w + 2 * w <= (2 * r) * w) by (nonlinear_arith)
            requires
                q + 1 <= r,
                w >= 0,
        ;
    }
}

/// The blocks partition a mosaic of even width and height: every place is that of
/// exactly one channel of one block.
#[verifier::spinoff_prover]
pub proof fn lemma_blocks_partition(width: nat, height: nat, p: int) -> (b: (int, int))
    requires
        width % 2 == 0,
        height % 2 == 0,
        0 <= p < width * height,
    ensures
        0 <= b.0 < block_count(width, height),
        0 <= b.1 < 4,
        block_place(width, b.0, b.1) == p,
        forall|k: int, ch: int|
            0 <= k < block_count(width, height) && 0 <= ch < 4 && #[trigger] block_place(
                width,
                k,
                ch,
            ) == p ==> k == b.0 && ch == b.1,
{
    let w = width as int;
    let half = (width / 2) as int;
    assert(w > 0) by (nonlinear_arith)
        requires
            0 < w * height,
            w >= 0,
    ;
    lemma_fundamental_div_mod(p, w);
    let row = p / w;
    let col = p % w;
    assert(0 <= row < height) by (nonlinear_arith)
        requires
            w * row + col == p,
            0 <= p < w * height,
            0 <= col < w,
    ;
    let r = row / 2;
    let c = col / 2;
    let b = (r * half + c, 2 * (row % 2) + col % 2);
    lemma_block_at(width, height, r, c, b.1);
    assert(b.1 / 2 == row % 2 && b.1 % 2 == col % 2);
    assert(2 * r + b.1 / 2 == row && 2 * c + b.1 % 2 == col);
    assert(row * w == w * row) by (nonlinear_arith);
    assert forall|k: int, ch: int|
        0 <= k < block_count(width, height) && 0 <= ch < 4 && #[trigger] block_place(width, k, ch)
            == p implies k == b.0 && ch == b.1 by {
        lemma_fundamental_div_mod(k, half);
        let (q, m) = (k / half, k % half);
        lemma_fundamental_div_mod_converse(p, w, 2 * q + ch / 2, 2 * m + ch % 2);
        assert(q == r && m == c);
        assert(half * q == r * half) by (nonlinear_arith)
            requires
                q == r,
        ;
    }
    b
}

/// The difference of every pair of green samples, the first in an even row and an
/// odd column, the second below it and one column to the left, lies between the least
/// and the greatest one.
pub proof fn lemma_delta_bounds(pixels: Seq<u16>, width: nat, height: nat, row: int, col: int)
    requires
        0 <= row,
        row + 1 < height,
        row % 2 == 0,
        0 <= col,
        col + 1 < width,
        col % 2 == 0,
    ensures
        ({
            let n = block_count(width, height);
            let d = pixels[row * width + col + 1] - pixels[(row + 1) * width + col];
            &&& least_delta(pixels, width, n) <= d <= greatest_delta(pixels, width, n)
            &&& least_delta(pixels, width, n) <= 0 <= greatest_delta(pixels, width, n)
        }),
{
    let k = (row / 2) * (width / 2) as int + col / 2;
    lemma_block_at(width, height, row / 2, col / 2, 1);
    lemma_block_at(width, height, row / 2, col / 2, 2);
    lemma_delta_between(pixels, width, block_count(width, height), k);
}

proof fn lemma_delta_between(pixels: Seq<u16>, width: nat, n: nat, k: int)
    requires
        0 <= k < n,
    ensures
        least_delta(pixels, width, n) <= green_delta(pixels, width, k) <= greatest_delta(
            pixels,
            width,
            n,
        ),
        least_delta(pixels, width, n) <= 0 <= greatest_delta(pixels, width, n),
    decreases n,
{
    reveal_with_fuel(least_delta, 2);
    reveal_with_fuel(greatest_delta, 2);
    if n > 1 && k < n - 1 {
        lemma_delta_between(pixels, width, (n - 1) as nat, k);
    } else if n > 1 {
        lemma_delta_between(pixels, width, (n - 1) as nat, 0);
    }
}

proof fn lemma_least_delta(pixels: Seq<u16>, width: nat, n: nat) -> (k: int)
    ensures
        least_delta(pixels, width, n) != 0 ==> 0 <= k < n && least_delta(pixels, width, n)
            == green_delta(pixels, width, k),
    decreases n,
{
    if n == 0 {
        0
    } else if least_delta(pixels, width, n) == green_delta(pixels, width, n - 1) {
        n - 1
    } else {
        lemma_least_delta(pixels, width, (n - 1) as nat)
    }
}

proof fn lemma_greatest_delta(pixels: Seq<u16>, width: nat, n: nat) -> (k: int)
    ensures
        greatest_delta(pixels, width, n) != 0 ==> 0 <= k < n && greatest_delta(pixels, width, n)
            == green_delta(pixels, width, k),
    decreases n,
{
    if n == 0 {
        0
    } else if greatest_delta(pixels, width, n) == green_delta(pixels, width, n - 1) {
        n - 1
    } else {
        lemma_greatest_delta(pixels, width, (n - 1) as nat)
    }
}

/// Two neighbouring places of the mosaic that hold a first green sample of an even
/// row and, in the row below and one column to the left, a second one.
pub open spec fn green_pair(width: nat, height: nat, p: int) -> bool {
    &&& 0 <= p < width * height
    &&& (p / width as int) % 2 == 0
    &&& (p % width as int) % 2 == 1
    &&& p / width as int + 1 < height
}

/// The least and the greatest difference are zero or those of some pair of green
/// samples.
pub proof fn lemma_delta_attained(pixels: Seq<u16>, width: nat, height: nat) -> (places: (int, int))
    ensures
        ({
            let n = block_count(width, height);
            let (p, q) = places;
            &&& least_delta(pixels, width, n) != 0 ==> green_pair(width, height, p) && least_delta(
                pixels,
                width,
                n,
            ) == pixels[p] - pixels[p + width - 1]
            &&& greatest_delta(pixels, width, n) != 0 ==> green_pair(width, height, q)
                && greatest_delta(pixels, width, n) == pixels[q] - pixels[q + width - 1]
        }),
{
    let n = block_count(width, height);
    let j = lemma_least_delta(pixels, width, n);
    let k = lemma_greatest_delta(pixels, width, n);
    if 0 <= j < n {
        lemma_green_pair(width, height, j);
    }
    if 0 <= k < n {
        lemma_green_pair(width, height, k);
    }
    (block_place(width, j, 1), block_place(width, k, 1))
}

/// Channel 1 of a block stands in an even row and an odd column, channel 2 in the row below
/// it, one column to the left.
pub proof fn lemma_green_pair(width: nat, height: nat, k: int)
    requires
        0 <= k < block_count(width, height),
    ensures
        green_pair(width, height, block_place(width, k, 1)),
        block_place(width, k, 2) == block_place(width, k, 1) + width - 1,
        ({
            let w = width as int;
            let (p, q) = (block_place(width, k, 1), block_place(width, k, 2));
            &&& (p / w) % 2 == 0
            &&& (p % w) % 2 == 1
            &&& q / w == p / w + 1
            &&& q % w == p % w - 1
        }),
{
    lemma_block_shape(width, height, k);
    let w = width as int;
    let first = block_place(width, k, 0);
    lemma_fundamental_div_mod(first, w);
    let (r, c) = (first / w, first % w);
    assert(w * r == r * w) by (nonlinear_arith);
    lemma_fundamental_div_mod_converse(first + 1, w, r, c + 1);
    assert((r + 1) * w == r * w + w) by (nonlinear_arith);
    lemma_fundamental_div_mod_converse(first + w, w, r + 1, c);
    assert(r + 1 < height) by (nonlinear_arith)
        requires
            w * r + c + w + 1 < w * height,
            0 <= c,
            w > 0,
    ;
}

/// The sum grows by the size of the difference of each further pair of green
/// samples, from zero on.
pub proof fn lemma_delta_sum(pixels: Seq<u16>, width: nat, height: nat, row: int, col: int)
    requires
        0 <= row,
        row + 1 < height,
        row % 2 == 0,
        0 <= col,
        col + 1 < width,
        col % 2 == 0,
    ensures
        ({
            let k = ((row / 2) * (width / 2) + col / 2) as nat;
            let d = pixels[row * width + col + 1] - pixels[(row + 1) * width + col];
            &&& k < block_count(width, height)
            &&& delta_sum(pixels, width, 0) == 0
            &&& d >= 0 ==> delta_sum(pixels, width, k + 1) == delta_sum(pixels, width, k) + d
            &&& d < 0 ==> delta_sum(pixels, width, k + 1) == delta_sum(pixels, width, k) - d
        }),
{
    lemma_block_at(width, height, row / 2, col / 2, 1);
    lemma_block_at(width, height, row / 2, col / 2, 2);
}

/// Each sample gives two bytes, its low one first.
pub proof fn lemma_sample_bytes(samples: Seq<u16>, i: int)
    requires
        0 <= i < samples.len(),
    ensures
        sample_bytes(samples).len() == 2 * samples.len(),
        sample_bytes(samples)[2 * i] + 256 * sample_bytes(samples)[2 * i + 1] == samples[i],
{
    assert((2 * i + 1) / 2 == i);
}

/// Where the sample in row `row` and column `col` of the mosaic goes: block by block,
/// to its channel within its block; plane by plane, to its block within its channel.
#[verifier::spinoff_prover]
pub proof fn lemma_blocks_and_planes(
    pixels: Seq<u16>,
    width: nat,
    height: nat,
    row: int,
    col: int,
)
    requires
        width % 2 == 0,
        height % 2 == 0,
        0 <= row < height,
        0 <= col < width,
    ensures
        ({
            let n = (width / 2) * (height / 2);
            let k = (row / 2) * (width / 2) + col / 2;
            let ch = 2 * (row % 2) + col % 2;
            let b = blocks(pixels, width, height);
            &&& b.len() == 4 * n
            &&& planes(b).len() == 4 * n
            &&& b[4 * k + ch] == pixels[row * width + col]
            &&& planes(b)[ch * n + k] == pixels[row * width + col]
        }),
{
    let n = ((width / 2) * (height / 2)) as int;
    let k = (row / 2) * (width / 2) + col / 2;
    let ch = 2 * (row % 2) + col % 2;
    lemma_block_at(width, height, row / 2, col / 2, ch);
    assert((4 * k + ch) / 4 == k && (4 * k + ch) % 4 == ch);
    lemma_fundamental_div_mod_converse(ch * n + k, n, ch, k);
    assert(0 <= ch * n && ch * n + n <= 4 * n) by (nonlinear_arith)
        requires
            0 <= ch < 4,
            n >= 0,
    ;
}

} // verus!
