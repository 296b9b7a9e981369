//! Sample layouts of "uncompressed" raw strips.
//!
//! Two layouts occur, told apart by the size of the strip alone (see
//! [`Layout::detect`]), so that no flag has to be stored:
//!  - `Packed`: samples of `bps` bits, least significant bit first, rows padded
//!    to `stride` bytes.
//!  - `Unpacked16`: every sample is a little-endian 16-bit word, rows padded to
//!    `stride` bytes.
//!
//! [`pack`] is the inverse of [`unpack`] on strips whose padding is zero.

use vstd::arithmetic::div_mod::{
    lemma_fundamental_div_mod, lemma_fundamental_div_mod_converse,
};
use vstd::arithmetic::power2::{lemma2_to64, lemma_pow2_unfold, pow2};
use vstd::prelude::*;

verus! {

#[derive(Clone, Copy)]
pub enum Layout {
    Packed { bps: u32, stride: usize },
    Unpacked16 { stride: usize },
}

/// Bit `i` of `v`, the least significant one being bit 0.
pub open spec fn bit_of(v: u32, i: int) -> bool {
    (v >> (i as u32)) & 1 == 1
}

/// The number whose bit `i` is `f(i)`, for `i` below `n`.
pub open spec fn bits_value(f: spec_fn(int) -> bool, n: nat) -> nat
    decreases n,
{
    if n == 0 {
        0
    } else {
        bits_value(f, (n - 1) as nat) + if f(n - 1) {
            pow2((n - 1) as nat)
        } else {
            0
        }
    }
}

/// Bit `j` of the row of bytes that starts at `start`.
pub open spec fn row_bit(data: Seq<u8>, start: int, j: int) -> bool {
    bit_of(data[start + j / 8] as u32, j % 8)
}

/// Whether the sample of `v` in column `c` has bit `j` of its row set.
pub open spec fn sets_bit(v: u16, bps: nat, c: int, j: int) -> bool {
    0 <= j - c * bps < 16 && bit_of(v as u32, j - c * bps)
}

/// Whether one of the first `n` samples of the row that starts at `start` sets bit `j`.
pub open spec fn some_sets_bit(pixels: Seq<u16>, start: int, bps: nat, n: int, j: int) -> bool {
    exists|c: int| 0 <= c < n && #[trigger] sets_bit(pixels[start + c], bps, c, j)
}

/// Bit `j` of a packed row: samples start every `bps` bits and are put together
/// by "or"; nothing is written behind the byte in which the last sample ends.
pub open spec fn packed_bit(pixels: Seq<u16>, start: int, bps: nat, width: nat, j: int) -> bool {
    j < 8 * ((width * bps + 7) / 8) && some_sets_bit(pixels, start, bps, width as int, j)
}

/// The sample in column `c` of a packed row: the low 16 bits of its `bps` bits.
pub open spec fn packed_sample(data: Seq<u8>, start: int, bps: nat, c: int) -> u16 {
    bits_value(|k: int| k < bps && row_bit(data, start, c * bps + k), 16) as u16
}

/// Byte `b` of a packed row.
pub open spec fn packed_byte(pixels: Seq<u16>, start: int, bps: nat, width: nat, b: int) -> u8 {
    bits_value(|k: int| packed_bit(pixels, start, bps, width, 8 * b + k), 8) as u8
}

/// Byte `b` of a row of 16-bit words.
pub open spec fn word_byte(pixels: Seq<u16>, start: int, width: nat, b: int) -> u8 {
    if b >= 2 * width {
        0
    } else if b % 2 == 0 {
        (pixels[start + b / 2] % 256) as u8
    } else {
        (pixels[start + b / 2] / 256) as u8
    }
}

/// The samples that a strip holds in the given layout, row by row.
pub open spec fn unpacked(data: Seq<u8>, width: nat, height: nat, layout: Layout) -> Seq<u16> {
    Seq::new(
        width * height,
        |i: int|
            match layout {
                Layout::Packed { bps, stride } => packed_sample(
                    data,
                    (i / width as int) * stride,
                    bps as nat,
                    i % width as int,
                ),
                Layout::Unpacked16 { stride } => (data[(i / width as int) * stride + 2 * (i
                    % width as int)] + 256 * data[(i / width as int) * stride + 2 * (i
                    % width as int) + 1]) as u16,
            },
    )
}

/// The strip that holds the samples in the given layout, padding zero.
pub open spec fn packed(pixels: Seq<u16>, width: nat, height: nat, layout: Layout) -> Seq<u8> {
    Seq::new(
        height * layout.row_bytes(),
        |i: int|
            match layout {
                Layout::Packed { bps, stride } => packed_byte(
                    pixels,
                    (i / stride as int) * width,
                    bps as nat,
                    width,
                    i % stride as int,
                ),
                Layout::Unpacked16 { stride } => word_byte(
                    pixels,
                    (i / stride as int) * width,
                    width,
                    i % stride as int,
                ),
            },
    )
}

impl Layout {
    /// The bytes of a row, padding included.
    pub open spec fn row_bytes(self) -> nat {
        match self {
            Layout::Packed { stride, .. } => stride as nat,
            Layout::Unpacked16 { stride } => stride as nat,
        }
    }

    /// A row has room for `width` samples.
    pub open spec fn holds(self, width: nat) -> bool {
        match self {
            Layout::Packed { bps, stride } => width * bps <= 8 * stride,
            Layout::Unpacked16 { stride } => 2 * width <= stride,
        }
    }

    /// The layout of a strip of `length` bytes: its rows are equal in size, and
    /// hold either whole words or packed samples.
    pub open spec fn detected(length: nat, width: nat, height: nat, bps: u32) -> Option<Layout> {
        if height == 0 || length % height != 0 {
            None
        } else if length / height >= 2 * width {
            Some(Layout::Unpacked16 { stride: (length / height) as usize })
        } else if 8 * (length / height) >= width * bps {
            Some(Layout::Packed { bps, stride: (length / height) as usize })
        } else {
            None
        }
    }

    /// Infers the layout of an uncompressed strip from its length in bytes.
    /// `None` if the strip does not tile into equal rows that are large enough
    /// for `width` samples.
    pub fn detect(length: usize, width: usize, height: usize, bps: u32) -> (r: Option<Self>)
        ensures
            r == Layout::detected(length as nat, width as nat, height as nat, bps),
            r matches Some(l) ==> {
                &&& l.holds(width as nat)
                &&& height * l.row_bytes() == length
            },
    {
        if height == 0 || length % height != 0 {
            return None;
        }
        let stride: usize = length / height;
        proof {
            lemma_fundamental_div_mod(length as int, height as int);
            assert(width * bps <= 0xffff_ffff_ffff_ffff * 0xffff_ffff) by (nonlinear_arith)
                requires
                    width <= 0xffff_ffff_ffff_ffff,
                    bps <= 0xffff_ffff,
            ;
        }
        if stride as u128 >= 2 * (width as u128) {
            Some(Layout::Unpacked16 { stride })
        } else if 8 * (stride as u128) >= (width as u128) * (bps as u128) {
            Some(Layout::Packed { bps, stride })
        } else {
            None
        }
    }

    /// The bit depth to hand to JPEG XL. Words are taken as full 16-bit samples,
    /// so that every value survives whatever its unused high bits are.
    pub fn jxl_bps(self) -> (r: u32)
        ensures
            r == match self {
                Layout::Packed { bps, .. } => bps,
                Layout::Unpacked16 { .. } => 16,
            },
    {
        match self {
            Layout::Packed { bps, .. } => bps,
            Layout::Unpacked16 { .. } => 16,
        }
    }
}

/// A number is determined by its bits.
pub proof fn lemma_bits_value(v: u32, f: spec_fn(int) -> bool, n: nat)
    requires
        n < 32,
        v < pow2(n),
        forall|i: int| 0 <= i < n ==> #[trigger] bit_of(v, i) == f(i),
    ensures
        bits_value(f, n) == v,
    decreases n,
{
    lemma2_to64();
    if n > 0 {
        let m = (n - 1) as u32;
        lemma_pow2_unfold(n);
        vstd::bits::lemma_u32_shl_is_mul(1u32, m);
        let top = 1u32 << m;
        assert(top == pow2(m as nat));
        let lo: u32 = if v >= top {
            (v - top) as u32
        } else {
            v
        };
        assert(((v >> m) & 1 == 1) == (v >= top)) by (bit_vector)
            requires
                m < 32,
                top == 1u32 << m,
                v < 2 * top,
        ;
        assert(bit_of(v, m as int) == f(m as int));
        assert forall|i: int| 0 <= i < m implies #[trigger] bit_of(lo, i) == f(i) by {
            assert(bit_of(v, i) == f(i));
            let j = i as u32;
            assert((lo >> j) & 1 == (v >> j) & 1) by (bit_vector)
                requires
                    m < 32,
                    j < m,
                    top == 1u32 << m,
                    v < 2 * top,
                    lo == if v >= top {
                        v - top
                    } else {
                        v as int
                    },
            ;
        }
        lemma_bits_value(lo, f, m as nat);
    }
}

/// The bits of the number with given bits.
pub proof fn lemma_bits_value_bits(f: spec_fn(int) -> bool, n: nat)
    requires
        n < 32,
    ensures
        bits_value(f, n) < pow2(n),
        forall|i: int| 0 <= i < n ==> #[trigger] bit_of(bits_value(f, n) as u32, i) == f(i),
        forall|i: int| n <= i < 32 ==> !#[trigger] bit_of(bits_value(f, n) as u32, i),
    decreases n,
{
    lemma2_to64();
    if n == 0 {
        assert forall|i: int| n <= i < 32 implies !#[trigger] bit_of(
            bits_value(f, n) as u32,
            i,
        ) by {
            let j = i as u32;
            assert((0u32 >> j) & 1 == 0) by (bit_vector);
        }
    } else {
        let m = (n - 1) as u32;
        lemma_bits_value_bits(f, m as nat);
        lemma_pow2_unfold(n);
        vstd::bits::lemma_u32_shl_is_mul(1u32, m);
        let top = 1u32 << m;
        let lo = bits_value(f, m as nat) as u32;
        let v = bits_value(f, n) as u32;
        assert(v == if f(m as int) {
            lo + top
        } else {
            lo as int
        });
        let set = f(m as int);
        assert forall|i: int| 0 <= i < 32 implies #[trigger] bit_of(v, i) == (i < n && f(i)) by {
            let j = i as u32;
            assert(bit_of(lo, i) == (i < m && f(i)));
            assert(((v >> j) & 1 == 1) == (if j == m {
                set
            } else {
                (lo >> j) & 1 == 1
            })) by (bit_vector)
                requires
                    m < 31,
                    j < 32,
                    top == 1u32 << m,
                    lo < top,
                    v == if set {
                        lo + top
                    } else {
                        lo as int
                    },
            ;
        }
    }
}

/// A place in a grid of rows determines its row and its column.
proof fn lemma_place(row: int, col: int, width: int)
    requires
        0 <= row,
        0 <= col < width,
    ensures
        (row * width + col) / width == row,
        (row * width + col) % width == col,
        0 <= row * width,
{
    assert(row * width >= 0) by (nonlinear_arith)
        requires
            row >= 0,
            width >= 0,
    ;
    lemma_fundamental_div_mod_converse(row * width + col, width, row, col);
}

/// The bits of three bytes in a row, as one number.
proof fn lemma_window(b0: u8, b1: u8, b2: u8, shift: u32, len: u32, v: u16)
    requires
        shift < 8,
        len <= 16,
        v == (((b0 as u32 + 256 * (b1 as u32) + 65536 * (b2 as u32)) as u32 >> shift) & (((1u32
            << len) - 1) as u32)) as u16,
    ensures
        forall|k: int|
            0 <= k < 16 ==> #[trigger] bit_of(v as u32, k) == (k < len && bit_of(
                if shift + k < 8 {
                    b0
                } else if shift + k < 16 {
                    b1
                } else {
                    b2
                } as u32,
                (shift + k) % 8,
            )),
{
    assert forall|k: int| 0 <= k < 16 implies #[trigger] bit_of(v as u32, k) == (k < len && bit_of(
        if shift + k < 8 {
            b0
        } else if shift + k < 16 {
            b1
        } else {
            b2
        } as u32,
        (shift + k) % 8,
    )) by {
        let j = k as u32;
        let i: u32 = ((shift + k) % 8) as u32;
        let b: u8 = if shift + k < 8 {
            b0
        } else if shift + k < 16 {
            b1
        } else {
            b2
        };
        assert((((v as u32) >> j) & 1 == 1) == (j < len && ((b as u32) >> i) & 1 == 1)) by (
        bit_vector)
            requires
                shift < 8,
                len <= 16,
                j < 16,
                v == (((b0 as u32 + 256 * (b1 as u32) + 65536 * (b2 as u32)) as u32 >> shift) & (((
                1u32 << len) - 1) as u32)) as u16,
                i == (shift + j) % 8,
                b == if shift + j < 8 {
                    b0
                } else if shift + j < 16 {
                    b1
                } else {
                    b2
                },
        ;
    }
}

/// The sample in column `col` of the packed row that starts at `start`.
fn unpack_sample(data: &[u8], start: usize, stride: usize, bps: u32, col: usize) -> (r: u16)
    requires
        start + stride <= data@.len(),
        start + stride <= usize::MAX,
        (col + 1) * bps <= 8 * stride,
    ensures
        r == packed_sample(data@, start as int, bps as nat, col as int),
{
    proof {
        assert(col * bps <= 0xffff_ffff_ffff_ffff * 0xffff_ffff) by (nonlinear_arith)
            requires
                col <= 0xffff_ffff_ffff_ffff,
                bps <= 0xffff_ffff,
        ;
        assert((col + 1) * bps == col * bps + bps) by (nonlinear_arith);
        assert(col * bps >= 0) by (nonlinear_arith);
    }
    let len: u32 = if bps < 16 {
        bps
    } else {
        16
    };
    if len == 0 {
        let ghost f = |k: int| k < bps && row_bit(data@, start as int, col * bps + k);
        proof {
            lemma2_to64();
            assert forall|i: int| 0 <= i < 16 implies #[trigger] bit_of(0u32, i) == f(i) by {
                let j = i as u32;
                assert((0u32 >> j) & 1 == 0) by (bit_vector);
            }
            lemma_bits_value(0, f, 16);
        }
        return 0;
    }
    let pos: u128 = (col as u128) * (bps as u128);
    let first: usize = (pos / 8) as usize;
    let shift: u32 = (pos % 8) as u32;
    let b0: u8 = data[start + first];
    let b1: u8 = if first + 1 < stride {
        data[start + first + 1]
    } else {
        0
    };
    let b2: u8 = if first + 1 < stride && first + 2 < stride {
        data[start + first + 2]
    } else {
        0
    };
    let word: u32 = b0 as u32 + 256 * (b1 as u32) + 65536 * (b2 as u32);
    proof {
        assert(1 <= (1u32 << len) <= 65536) by (bit_vector)
            requires
                len <= 16,
        ;
        let x = word >> shift;
        assert(x & (((1u32 << len) - 1) as u32) < 65536) by (bit_vector)
            requires
                len <= 16,
        ;
    }
    let r: u16 = ((word >> shift) & ((1u32 << len) - 1)) as u16;
    proof {
        lemma_window(b0, b1, b2, shift, len, r);
        let f = |k: int| k < bps && row_bit(data@, start as int, col * bps + k);
        assert forall|k: int| 0 <= k < 16 implies #[trigger] bit_of(r as u32, k) == f(k) by {
            let p = col * bps + k;
            assert(p == 8 * first + (shift + k));
            if k < bps {
                assert(p / 8 < stride);
                assert(p % 8 == (shift + k) % 8);
                if shift + k < 8 {
                    assert(p / 8 == first);
                } else if shift + k < 16 {
                    assert(p / 8 == first + 1);
                } else {
                    assert(p / 8 == first + 2);
                }
            }
        }
        lemma2_to64();
        lemma_bits_value(r as u32, f, 16);
    }
    r
}

/// Reads `width * height` samples from a strip.
pub fn unpack(data: &[u8], width: usize, height: usize, layout: Layout) -> (out: Vec<u16>)
    requires
        width * height <= usize::MAX,
        height > 0 ==> match layout {
            Layout::Packed { bps, stride } => {
                &&& width * bps <= 8 * stride
                &&& height * stride <= data@.len()
            },
            Layout::Unpacked16 { stride } => (height - 1) * stride + 2 * width <= data@.len(),
        },
    ensures
        out@ == unpacked(data@, width as nat, height as nat, layout),
{
    let ghost all = unpacked(data@, width as nat, height as nat, layout);
    let size: usize = data.len();
    let mut out: Vec<u16> = Vec::new();
    let mut row: usize = 0;
    while row < height
        invariant
            width * height <= usize::MAX,
            size == data@.len(),
            height > 0 ==> match layout {
                Layout::Packed { bps, stride } => {
                    &&& width * bps <= 8 * stride
                    &&& height * stride <= data@.len()
                },
                Layout::Unpacked16 { stride } => (height - 1) * stride + 2 * width <= data@.len(),
            },
            all == unpacked(data@, width as nat, height as nat, layout),
            0 <= row <= height,
            out@.len() == row * width,
            out@ == all.take(row * width),
        decreases height - row,
    {
        let mut col: usize = 0;
        proof {
            assert((row + 1) * width == row * width + width) by (nonlinear_arith);
            assert((row + 1) * width <= width * height) by (nonlinear_arith)
                requires
                    row < height,
            ;
            assert(row * width >= 0) by (nonlinear_arith);
        }
        while col < width
            invariant
                size == data@.len(),
                match layout {
                    Layout::Packed { bps, stride } => {
                        &&& width * bps <= 8 * stride
                        &&& height * stride <= data@.len()
                    },
                    Layout::Unpacked16 { stride } => (height - 1) * stride + 2 * width
                        <= data@.len(),
                },
                all == unpacked(data@, width as nat, height as nat, layout),
                row < height,
                row * width >= 0,
                (row + 1) * width == row * width + width,
                (row + 1) * width <= width * height,
                0 <= col <= width,
                out@.len() == row * width + col,
                out@ == all.take(row * width + col),
            decreases width - col,
        {
            proof {
                lemma_place(row as int, col as int, width as int);
            }
            let sample: u16 = match layout {
                Layout::Packed { bps, stride } => {
                    proof {
                        assert((col + 1) * bps <= width * bps) by (nonlinear_arith)
                            requires
                                col < width,
                        ;
                        assert(row * stride + stride <= height * stride) by (nonlinear_arith)
                            requires
                                row < height,
                        ;
                        assert(row * stride >= 0) by (nonlinear_arith);
                    }
                    unpack_sample(data, row * stride, stride, bps, col)
                },
                Layout::Unpacked16 { stride } => {
                    proof {
                        assert(row * stride <= (height - 1) * stride) by (nonlinear_arith)
                            requires
                                row < height,
                        ;
                        assert(row * stride >= 0) by (nonlinear_arith);
                    }
                    let at: usize = row * stride + 2 * col;
                    (data[at] as u16) + 256 * (data[at + 1] as u16)
                },
            };
            out.push(sample);
            proof {
                let i = row * width + col;
                assert(sample == all[i]);
                assert(all.take(i + 1) =~= all.take(i).push(all[i]));
            }
            col = col + 1;
        }
        row = row + 1;
    }
    proof {
        assert(height * width == width * height) by (nonlinear_arith);
        assert(all.take(all.len() as int) =~= all);
    }
    out
}

/// The bits after adding a sample on top of what is pending.
proof fn lemma_add_sample(acc: u32, v: u16, n: u32)
    requires
        n < 8,
    ensures
        forall|i: int|
            0 <= i < 32 ==> #[trigger] bit_of(acc | ((v as u32) << n), i) == (bit_of(acc, i) || (
            0 <= i - n < 16 && bit_of(v as u32, i - n))),
{
    assert forall|i: int| 0 <= i < 32 implies #[trigger] bit_of(acc | ((v as u32) << n), i) == (
    bit_of(acc, i) || (0 <= i - n < 16 && bit_of(v as u32, i - n))) by {
        let j = i as u32;
        let k: u32 = if j >= n {
            (j - n) as u32
        } else {
            0
        };
        assert((((acc | ((v as u32) << n)) >> j) & 1 == 1) == ((acc >> j) & 1 == 1 || (j >= n && k
            < 16 && ((v as u32) >> k) & 1 == 1))) by (bit_vector)
            requires
                n < 8,
                j < 32,
                k == if j >= n {
                    j - n
                } else {
                    0
                },
        ;
    }
}

/// The bits after taking the lowest byte off.
proof fn lemma_take_byte(acc: u32)
    ensures
        forall|i: int| 0 <= i < 8 ==> #[trigger] bit_of((acc as u8) as u32, i) == bit_of(acc, i),
        forall|i: int|
            0 <= i < 32 ==> #[trigger] bit_of(acc >> 8, i) == (i < 24 && bit_of(acc, i + 8)),
{
    assert forall|i: int| 0 <= i < 8 implies #[trigger] bit_of((acc as u8) as u32, i) == bit_of(
        acc,
        i,
    ) by {
        let j = i as u32;
        assert((((acc as u8) as u32) >> j) & 1 == (acc >> j) & 1) by (bit_vector)
            requires
                j < 8,
        ;
    }
    assert forall|i: int| 0 <= i < 32 implies #[trigger] bit_of(acc >> 8, i) == (i < 24 && bit_of(
        acc,
        i + 8,
    )) by {
        let j = i as u32;
        let k = (j + 8) as u32;
        assert((((acc >> 8) >> j) & 1 == 1) == (j < 24 && (acc >> k) & 1 == 1)) by (bit_vector)
            requires
                j < 32,
                k == j + 8,
        ;
    }
}

/// A sample sets no bit before its place, and none 16 bits behind it.
proof fn lemma_sets_bit_range(pixels: Seq<u16>, start: int, bps: nat, n: int, j: int)
    requires
        0 <= n,
    ensures
        some_sets_bit(pixels, start, bps, n + 1, j) == (some_sets_bit(pixels, start, bps, n, j)
            || sets_bit(pixels[start + n], bps, n, j)),
        n > 0 && j >= (n - 1) * bps + 16 ==> !some_sets_bit(pixels, start, bps, n, j),
{
    if some_sets_bit(pixels, start, bps, n + 1, j) {
        let c = choose|c: int|
            0 <= c < n + 1 && #[trigger] sets_bit(pixels[start + c], bps, c, j);
        if c < n {
            assert(sets_bit(pixels[start + c], bps, c, j));
        }
    }
    if some_sets_bit(pixels, start, bps, n, j) {
        let c = choose|c: int| 0 <= c < n && #[trigger] sets_bit(pixels[start + c], bps, c, j);
        assert(sets_bit(pixels[start + c], bps, c, j));
        assert(c * bps <= (n - 1) * bps) by (nonlinear_arith)
            requires
                c <= n - 1,
                bps >= 0,
        ;
    }
}

/// Samples from column `n` on set no bit before that column's place.
proof fn lemma_later_samples(pixels: Seq<u16>, start: int, bps: nat, n: int, m: int, j: int)
    requires
        0 <= n <= m,
        j < n * bps,
    ensures
        some_sets_bit(pixels, start, bps, m, j) == some_sets_bit(pixels, start, bps, n, j),
    decreases m - n,
{
    if n < m {
        lemma_later_samples(pixels, start, bps, n, m - 1, j);
        lemma_sets_bit_range(pixels, start, bps, m - 1, j);
        assert(n * bps <= (m - 1) * bps) by (nonlinear_arith)
            requires
                n <= m - 1,
                bps >= 0,
        ;
    }
}

/// Appends one packed row of `stride` bytes.
#[verifier::spinoff_prover]
#[verifier::rlimit(60)]
fn pack_row(pixels: &[u16], start: usize, width: usize, bps: u32, stride: usize, out: &mut Vec<u8>)
    requires
        start + width <= pixels@.len(),
        start + width <= usize::MAX,
        width * bps <= 8 * stride,
        old(out)@.len() + stride <= usize::MAX,
    ensures
        final(out)@ == old(out)@ + Seq::new(
            stride as nat,
            |b: int| packed_byte(pixels@, start as int, bps as nat, width as nat, b),
        ),
{
    let ghost base = out@;
    let ghost px = pixels@;
    let ghost s0 = start as int;
    let ghost bp = bps as nat;
    let mut acc: u32 = 0;
    let mut nbits: u64 = 0;
    let mut count: usize = 0;
    let mut col: usize = 0;
    proof {
        assert forall|i: int| 0 <= i < 32 implies #[trigger] bit_of(acc, i) == some_sets_bit(
            px,
            s0,
            bp,
            0,
            i,
        ) by {
            let j = i as u32;
            assert((0u32 >> j) & 1 == 0) by (bit_vector);
        }
        assert(base + Seq::new(
            0nat,
            |b: int| packed_byte(px, s0, bp, width as nat, b),
        ) =~= base);
        assert(0 * bps == 0) by (nonlinear_arith);
    }
    while col < width
        invariant
            start + width <= pixels@.len(),
            start + width <= usize::MAX,
            width * bps <= 8 * stride,
            base.len() + stride <= usize::MAX,
            px == pixels@,
            s0 == start,
            bp == bps,
            0 <= col <= width,
            nbits < 8,
            8 * count + nbits == col * bps,
            count <= stride,
            out@ == base + Seq::new(
                count as nat,
                |b: int| packed_byte(px, s0, bp, width as nat, b),
            ),
            forall|i: int|
                0 <= i < 32 ==> #[trigger] bit_of(acc, i) == some_sets_bit(
                    px,
                    s0,
                    bp,
                    col as int,
                    8 * count + i,
                ),
        decreases width - col,
    {
        let v: u16 = pixels[start + col];
        let n: u32 = nbits as u32;
        proof {
            lemma_add_sample(acc, v, n);
            assert((col + 1) * bps == col * bps + bps) by (nonlinear_arith);
            assert((col + 1) * bps <= width * bps) by (nonlinear_arith)
                requires
                    col < width,
            ;
            assert forall|i: int| 0 <= i < 32 implies #[trigger] bit_of(
                acc | ((v as u32) << n),
                i,
            ) == some_sets_bit(px, s0, bp, col + 1, 8 * count + i) by {
                lemma_sets_bit_range(px, s0, bp, col as int, 8 * count + i);
                assert(8 * count + i - col * bp == i - n);
            }
        }
        acc = acc | ((v as u32) << n);
        nbits = nbits + bps as u64;
        while nbits >= 8
            invariant
                width * bps <= 8 * stride,
                base.len() + stride <= usize::MAX,
                px == pixels@,
                s0 == start,
                bp == bps,
                0 <= col < width,
                (col + 1) * bps == col * bps + bps,
                (col + 1) * bps <= width * bps,
                8 * count + nbits == (col + 1) * bps,
                8 * count + 8 > col * bps,
                count <= stride,
                out@ == base + Seq::new(
                    count as nat,
                    |b: int| packed_byte(px, s0, bp, width as nat, b),
                ),
                forall|i: int|
                    0 <= i < 32 ==> #[trigger] bit_of(acc, i) == some_sets_bit(
                        px,
                        s0,
                        bp,
                        col + 1,
                        8 * count + i,
                    ),
            decreases nbits,
        {
            let ghost f = |k: int| packed_bit(px, s0, bp, width as nat, 8 * count + k);
            let byte: u8 = (acc & 0xff) as u8;
            proof {
                assert((acc & 0xff) as u8 == acc as u8) by (bit_vector);
                lemma_take_byte(acc);
                assert forall|k: int| 0 <= k < 8 implies #[trigger] bit_of(byte as u32, k) == f(
                    k,
                ) by {
                    lemma_later_samples(
                        px,
                        s0,
                        bp,
                        col + 1,
                        width as int,
                        8 * count + k,
                    );
                    assert(bit_of(acc, k) == some_sets_bit(px, s0, bp, col + 1, 8 * count + k));
                }
                lemma2_to64();
                lemma_bits_value(byte as u32, f, 8);
                assert(byte == packed_byte(px, s0, bp, width as nat, count as int));
                assert forall|i: int| 0 <= i < 32 implies #[trigger] bit_of(acc >> 8, i)
                    == some_sets_bit(px, s0, bp, col + 1, 8 * (count + 1) + i) by {
                    if i < 24 {
                        assert(bit_of(acc, i + 8) == some_sets_bit(
                            px,
                            s0,
                            bp,
                            col + 1,
                            8 * count + (i + 8),
                        ));
                    } else {
                        lemma_sets_bit_range(px, s0, bp, col + 1, 8 * (count + 1) + i);
                    }
                }
            }
            out.push(byte);
            acc = acc >> 8;
            count = count + 1;
            nbits = nbits - 8;
            assert(out@ =~= base + Seq::new(
                count as nat,
                |b: int| packed_byte(px, s0, bp, width as nat, b),
            ));
        }
        col = col + 1;
    }
    if nbits > 0 {
        let byte: u8 = (acc & 0xff) as u8;
        proof {
            let f = |k: int| packed_bit(px, s0, bp, width as nat, 8 * count + k);
            assert((acc & 0xff) as u8 == acc as u8) by (bit_vector);
            lemma_take_byte(acc);
            assert forall|k: int| 0 <= k < 8 implies #[trigger] bit_of(byte as u32, k) == f(k) by {
                assert(bit_of(acc, k) == some_sets_bit(px, s0, bp, width as int, 8 * count + k));
            }
            lemma2_to64();
            lemma_bits_value(byte as u32, f, 8);
        }
        out.push(byte);
        count = count + 1;
        assert(out@ =~= base + Seq::new(
            count as nat,
            |b: int| packed_byte(px, s0, bp, width as nat, b),
        ));
    }
    while count < stride
        invariant
            base.len() + stride <= usize::MAX,
            px == pixels@,
            8 * count >= width * bp,
            count <= stride,
            out@ == base + Seq::new(
                count as nat,
                |b: int| packed_byte(px, s0, bp, width as nat, b),
            ),
        decreases stride - count,
    {
        proof {
            let f = |k: int| packed_bit(px, s0, bp, width as nat, 8 * count + k);
            assert forall|k: int| 0 <= k < 8 implies #[trigger] bit_of(0u32, k) == f(k) by {
                let j = k as u32;
                assert((0u32 >> j) & 1 == 0) by (bit_vector);
            }
            lemma2_to64();
            lemma_bits_value(0, f, 8);
        }
        out.push(0);
        count = count + 1;
        assert(out@ =~= base + Seq::new(
            count as nat,
            |b: int| packed_byte(px, s0, bp, width as nat, b),
        ));
    }
}

/// Appends one row of 16-bit words, of `stride` bytes.
fn pack_words(pixels: &[u16], start: usize, width: usize, stride: usize, out: &mut Vec<u8>)
    requires
        start + width <= pixels@.len(),
        start + width <= usize::MAX,
        2 * width <= stride,
        old(out)@.len() + stride <= usize::MAX,
    ensures
        final(out)@ == old(out)@ + Seq::new(
            stride as nat,
            |b: int| word_byte(pixels@, start as int, width as nat, b),
        ),
{
    let ghost base = out@;
    let mut b: usize = 0;
    assert(base + Seq::new(
        0nat,
        |b: int| word_byte(pixels@, start as int, width as nat, b),
    ) =~= base);
    while b < stride
        invariant
            start + width <= pixels@.len(),
            start + width <= usize::MAX,
            2 * width <= stride,
            base.len() + stride <= usize::MAX,
            0 <= b <= stride,
            out@ == base + Seq::new(
                b as nat,
                |k: int| word_byte(pixels@, start as int, width as nat, k),
            ),
        decreases stride - b,
    {
        let byte: u8 = if b >= 2 * width {
            0
        } else if b % 2 == 0 {
            (pixels[start + b / 2] % 256) as u8
        } else {
            (pixels[start + b / 2] / 256) as u8
        };
        out.push(byte);
        b = b + 1;
        assert(out@ =~= base + Seq::new(
            b as nat,
            |k: int| word_byte(pixels@, start as int, width as nat, k),
        ));
    }
}

/// Writes samples into a strip (the inverse of [`unpack`]); padding behind the
/// samples is zero.
pub fn pack(pixels: &[u16], width: usize, height: usize, layout: Layout) -> (out: Vec<u8>)
    requires
        height > 0 ==> layout.holds(width as nat),
        width * height <= pixels@.len(),
        height * layout.row_bytes() <= usize::MAX,
    ensures
        out@ == packed(pixels@, width as nat, height as nat, layout),
{
    let ghost all = packed(pixels@, width as nat, height as nat, layout);
    let size: usize = pixels.len();
    let stride: usize = match layout {
        Layout::Packed { stride, .. } => stride,
        Layout::Unpacked16 { stride } => stride,
    };
    let mut out: Vec<u8> = Vec::new();
    let mut row: usize = 0;
    while row < height
        invariant
            height > 0 ==> layout.holds(width as nat),
            size == pixels@.len(),
            width * height <= pixels@.len(),
            stride == layout.row_bytes(),
            height * stride <= usize::MAX,
            all == packed(pixels@, width as nat, height as nat, layout),
            0 <= row <= height,
            out@.len() == row * stride,
            out@ == all.take(row * stride),
        decreases height - row,
    {
        proof {
            assert(row * width + width <= width * height) by (nonlinear_arith)
                requires
                    row < height,
            ;
            assert(row * stride + stride <= height * stride) by (nonlinear_arith)
                requires
                    row < height,
            ;
            assert((row + 1) * stride == row * stride + stride) by (nonlinear_arith);
            assert(row * width >= 0) by (nonlinear_arith);
            assert(row * stride >= 0) by (nonlinear_arith);
        }
        match layout {
            Layout::Packed { bps, stride } => {
                pack_row(pixels, row * width, width, bps, stride, &mut out);
            },
            Layout::Unpacked16 { stride } => {
                pack_words(pixels, row * width, width, stride, &mut out);
            },
        }
        proof {
            let o = out@;
            let t = all.take((row + 1) * stride);
            assert forall|i: int| 0 <= i < o.len() implies o[i] == t[i] by {
                if i < row * stride {
                    assert(o[i] == all.take(row * stride)[i]);
                } else {
                    lemma_place(row as int, i - row * stride, stride as int);
                }
            }
            assert(o =~= t);
        }
        row = row + 1;
    }
    assert(all.take(all.len() as int) =~= all);
    out
}

/// A number below a power of two has no bits from there on.
proof fn lemma_high_bits(v: u32, n: nat, i: int)
    requires
        v < pow2(n),
        n <= i < 32,
    ensures
        !bit_of(v, i),
{
    let j = i as u32;
    vstd::bits::lemma_u32_shr_is_div(v, j);
    if n < i {
        vstd::arithmetic::power2::lemma_pow2_strictly_increases(n, i as nat);
    }
    vstd::arithmetic::div_mod::lemma_basic_div(v as int, pow2(i as nat) as int);
    assert(0u32 & 1 == 0) by (bit_vector);
}

/// Two 16-bit numbers with the same bits are equal.
proof fn lemma_same_bits(a: u16, f: spec_fn(int) -> bool)
    requires
        forall|k: int| 0 <= k < 16 ==> #[trigger] bit_of(a as u32, k) == f(k),
    ensures
        bits_value(f, 16) == a,
{
    lemma2_to64();
    lemma_bits_value(a as u32, f, 16);
}

/// Every sample fits in the bits that the layout has for it.
pub open spec fn samples_fit(pixels: Seq<u16>, layout: Layout) -> bool {
    layout matches Layout::Packed { bps, .. } ==> forall|i: int|
        0 <= i < pixels.len() ==> (#[trigger] pixels[i]) < pow2(bps as nat)
}

/// All bits of the strip that belong to no sample are zero.
pub open spec fn padding_zero(data: Seq<u8>, width: nat, height: nat, layout: Layout) -> bool {
    match layout {
        Layout::Packed { bps, stride } => forall|row: int, j: int|
            0 <= row < height && 0 <= j < 8 * stride && (j >= width * bps || j % bps as int >= 16)
                ==> !#[trigger] row_bit(data, row * stride, j),
        Layout::Unpacked16 { stride } => forall|row: int, b: int|
            0 <= row < height && 2 * width <= b < stride ==> #[trigger] data[row * stride + b] == 0,
    }
}

/// The byte in which a bit of a packed row stands.
proof fn lemma_packed_row_bit(
    pixels: Seq<u16>,
    width: nat,
    height: nat,
    bps: u32,
    stride: usize,
    row: int,
    j: int,
)
    requires
        0 <= row < height,
        0 <= j < 8 * stride,
    ensures
        row_bit(
            packed(pixels, width, height, Layout::Packed { bps, stride }),
            row * stride,
            j,
        ) == packed_bit(pixels, row * width, bps as nat, width, j),
{
    let data = packed(pixels, width, height, Layout::Packed { bps, stride });
    let b = j / 8;
    lemma_place(row, b, stride as int);
    assert(row * stride + stride <= height * stride) by (nonlinear_arith)
        requires
            row < height,
    ;
    let f = |k: int| packed_bit(pixels, row * width, bps as nat, width, 8 * b + k);
    lemma_bits_value_bits(f, 8);
    lemma2_to64();
    assert(data[row * stride + b] == bits_value(f, 8) as u8);
    assert(bit_of(bits_value(f, 8) as u32, j % 8) == f(j % 8));
    assert(8 * b + j % 8 == j);
}

/// Unpacking what was packed gives the samples back.
pub proof fn lemma_unpack_inverts_pack(pixels: Seq<u16>, width: nat, height: nat, layout: Layout)
    requires
        layout.holds(width),
        pixels.len() == width * height,
        samples_fit(pixels, layout),
    ensures
        unpacked(packed(pixels, width, height, layout), width, height, layout) == pixels,
{
    let data = packed(pixels, width, height, layout);
    let out = unpacked(data, width, height, layout);
    assert forall|i: int| 0 <= i < pixels.len() implies out[i] == pixels[i] by {
        let w = width as int;
        let row = i / w;
        let c = i % w;
        if w == 0 {
            assert(width * height == 0) by (nonlinear_arith)
                requires
                    width == 0,
            ;
        }
        lemma_fundamental_div_mod(i, w);
        assert(row * w == w * row) by (nonlinear_arith);
        assert(row < height) by (nonlinear_arith)
            requires
                w * row <= i,
                i < width * height,
                w == width,
        ;
        match layout {
            Layout::Packed { bps, stride } => {
                let bp = bps as nat;
                let f = |k: int| k < bp && row_bit(data, row * stride, c * bp + k);
                assert((c + 1) * bp <= width * bp) by (nonlinear_arith)
                    requires
                        c + 1 <= width,
                ;
                assert((c + 1) * bp == c * bp + bp) by (nonlinear_arith);
                assert(c * bp >= 0) by (nonlinear_arith)
                    requires
                        c >= 0,
                ;
                assert forall|k: int| 0 <= k < 16 implies #[trigger] bit_of(pixels[i] as u32, k)
                    == f(k) by {
                    if k < bp {
                        let j = c * bp + k;
                        lemma_packed_row_bit(pixels, width, height, bps, stride, row, j);
                        assert(pixels[row * width + c] == pixels[i]);
                        if bit_of(pixels[i] as u32, k) {
                            assert(sets_bit(pixels[row * width + c], bp, c, j));
                        }
                        if some_sets_bit(pixels, row * width, bp, w, j) {
                            let d = choose|d: int|
                                0 <= d < w && #[trigger] sets_bit(
                                    pixels[row * width + d],
                                    bp,
                                    d,
                                    j,
                                );
                            let x = pixels[row * width + d];
                            if d < c {
                                assert(d * bp + bp <= c * bp) by (nonlinear_arith)
                                    requires
                                        d + 1 <= c,
                                ;
                                assert(row * width + d < width * height);
                                lemma_high_bits(x as u32, bp, j - d * bp);
                            } else if d > c {
                                assert(c * bp + bp <= d * bp) by (nonlinear_arith)
                                    requires
                                        c + 1 <= d,
                                ;
                            }
                        }
                    } else {
                        lemma_high_bits(pixels[i] as u32, bp, k);
                    }
                }
                lemma_same_bits(pixels[i], f);
            },
            Layout::Unpacked16 { stride } => {
                let at = row * stride;
                assert(at + stride <= height * stride) by (nonlinear_arith)
                    requires
                        row < height,
                        at == row * stride,
                ;
                lemma_place(row, 2 * c, stride as int);
                lemma_place(row, 2 * c + 1, stride as int);
                assert(data[at + 2 * c] == pixels[i] % 256);
                assert(data[at + (2 * c + 1)] == pixels[i] / 256);
            },
        }
    }
    assert(out =~= pixels);
}

/// Packing what was unpacked gives the strip back, if its padding is zero.
pub proof fn lemma_pack_inverts_unpack(data: Seq<u8>, width: nat, height: nat, layout: Layout)
    requires
        layout.holds(width),
        data.len() == height * layout.row_bytes(),
        padding_zero(data, width, height, layout),
    ensures
        packed(unpacked(data, width, height, layout), width, height, layout) == data,
{
    let px = unpacked(data, width, height, layout);
    let out = packed(px, width, height, layout);
    let stride = layout.row_bytes() as int;
    assert forall|i: int| 0 <= i < data.len() implies out[i] == data[i] by {
        let row = i / stride;
        let b = i % stride;
        if stride == 0 {
            assert(height * layout.row_bytes() == 0) by (nonlinear_arith)
                requires
                    layout.row_bytes() == 0,
            ;
        }
        lemma_fundamental_div_mod(i, stride);
        assert(row * stride == stride * row) by (nonlinear_arith);
        assert(row < height) by (nonlinear_arith)
            requires
                stride * row <= i,
                i < height * stride,
                stride > 0,
        ;
        assert(row * width + width <= width * height) by (nonlinear_arith)
            requires
                row < height,
        ;
        assert(row * width >= 0) by (nonlinear_arith)
            requires
                row >= 0,
        ;
        match layout {
            Layout::Packed { bps, stride: st } => {
                let bp = bps as nat;
                let f = |k: int| packed_bit(px, row * width, bp, width, 8 * b + k);
                assert forall|k: int| 0 <= k < 8 implies #[trigger] bit_of(data[i] as u32, k) == f(
                    k,
                ) by {
                    let j = 8 * b + k;
                    lemma_repacked_bit(data, width, height, bps, st, row, j);
                    assert(j / 8 == b && j % 8 == k);
                    assert(row_bit(data, row * stride, j) == bit_of(data[i] as u32, k));
                }
                lemma2_to64();
                lemma_bits_value(data[i] as u32, f, 8);
            },
            Layout::Unpacked16 { stride: st } => {
                assert(data[row * st + b] == data[i]);
                if b < 2 * width {
                    let c = b / 2;
                    lemma_place(row, c, width as int);
                    let p = px[row * width + c];
                    assert(p == data[row * st + 2 * c] + 256 * data[row * st + 2 * c + 1]);
                }
            },
        }
    }
    assert(out =~= data);
}

/// Bit `j` of a row comes back when its samples are packed again.
proof fn lemma_repacked_bit(
    data: Seq<u8>,
    width: nat,
    height: nat,
    bps: u32,
    stride: usize,
    row: int,
    j: int,
)
    requires
        width * bps <= 8 * stride,
        padding_zero(data, width, height, Layout::Packed { bps, stride }),
        0 <= row < height,
        0 <= j < 8 * stride,
    ensures
        packed_bit(
            unpacked(data, width, height, Layout::Packed { bps, stride }),
            row * width,
            bps as nat,
            width,
            j,
        ) == row_bit(data, row * stride, j),
{
    let px = unpacked(data, width, height, Layout::Packed { bps, stride });
    let bp = bps as nat;
    let w = width as int;
    assert(row * width + width <= width * height) by (nonlinear_arith)
        requires
            row < height,
    ;
    assert(row * width >= 0) by (nonlinear_arith)
        requires
            row >= 0,
    ;
    assert forall|c: int| 0 <= c < w implies #[trigger] sets_bit(px[row * width + c], bp, c, j) == (
    0 <= j - c * bp < 16 && j - c * bp < bp && row_bit(data, row * stride, j)) by {
        lemma_place(row, c, w);
        let f = |k: int| k < bp && row_bit(data, row * stride, c * bp + k);
        lemma_bits_value_bits(f, 16);
        lemma2_to64();
        assert(px[row * width + c] == bits_value(f, 16) as u16);
        let k = j - c * bp;
        if 0 <= k < 16 {
            assert(bit_of(bits_value(f, 16) as u32, k) == f(k));
        }
    }
    if row_bit(data, row * stride, j) {
        assert(j < width * bp && j % (bp as int) < 16);
        assert(bp > 0) by (nonlinear_arith)
            requires
                0 <= j < width * bp,
        ;
        let c = j / bp as int;
        lemma_fundamental_div_mod(j, bp as int);
        assert(c * bp == bp * c) by (nonlinear_arith);
        assert(c < w) by (nonlinear_arith)
            requires
                bp * c <= j,
                j < w * bp,
        ;
        assert(sets_bit(px[row * width + c], bp, c, j));
    }
    if some_sets_bit(px, row * width, bp, w, j) {
        let c = choose|c: int| 0 <= c < w && #[trigger] sets_bit(px[row * width + c], bp, c, j);
        assert(sets_bit(px[row * width + c], bp, c, j));
    }
}

/// Bit `i` of a number is its digit of weight two to the power of `i`.
proof fn lemma_bit_digit(v: u32, i: int)
    requires
        0 <= i < 32,
    ensures
        bit_of(v, i) == (v as nat / pow2(i as nat) % 2 == 1),
{
    let j = i as u32;
    vstd::bits::lemma_u32_shr_is_div(v, j);
    let x = v >> j;
    assert(x & 1 == x % 2) by (bit_vector);
}

/// What a strip holds at row `row` and column `col`. As words: the two bytes there,
/// the low one first. Packed: the bits of a row count up from the lowest of each
/// byte, and bit `k` of the sample is the one `k` behind `col` times the bit depth.
#[verifier::spinoff_prover]
pub proof fn lemma_unpacked_sample(
    data: Seq<u8>,
    width: nat,
    height: nat,
    layout: Layout,
    row: int,
    col: int,
    k: int,
)
    requires
        0 <= row < height,
        0 <= col < width,
        0 <= k < 16,
    ensures
        unpacked(data, width, height, layout).len() == width * height,
        ({
            let v = unpacked(data, width, height, layout)[row * width + col];
            match layout {
                Layout::Unpacked16 { stride } => v == data[row * stride + 2 * col] + 256
                    * data[row * stride + 2 * col + 1],
                Layout::Packed { bps, stride } => {
                    let j = col * bps + k;
                    (v as nat / pow2(k as nat) % 2 == 1) == (k < bps && data[row * stride + j
                        / 8] as nat / pow2((j % 8) as nat) % 2 == 1)
                },
            }
        }),
{
    lemma_place(row, col, width as int);
    assert(row * width + width <= width * height) by (nonlinear_arith)
        requires
            row + 1 <= height,
    ;
    let v = unpacked(data, width, height, layout)[row * width + col];
    if let Layout::Packed { bps, stride } = layout {
        let start = row * stride;
        let f = |m: int| m < bps && row_bit(data, start, col * bps + m);
        lemma_bits_value_bits(f, 16);
        lemma2_to64();
        assert(v == bits_value(f, 16));
        lemma_bit_digit(v as u32, k);
        let j = col * bps + k;
        lemma_bit_digit(data[start + j / 8] as u32, j % 8);
    }
}

/// What byte `b` of row `row` of a packed strip holds. As words: the low and then the
/// high byte of each sample, and zeros behind the last one. Packed: bit `k` is set
/// exactly if some sample has a bit set that falls there, samples starting every bit
/// depth, and no bit is set behind the byte in which the samples end.
#[verifier::spinoff_prover]
pub proof fn lemma_packed_byte(
    pixels: Seq<u16>,
    width: nat,
    height: nat,
    layout: Layout,
    row: int,
    b: int,
    k: int,
)
    requires
        0 <= row < height,
        0 <= b < layout.row_bytes(),
        0 <= k < 8,
    ensures
        packed(pixels, width, height, layout).len() == height * layout.row_bytes(),
        ({
            let x = packed(pixels, width, height, layout)[row * layout.row_bytes() + b];
            match layout {
                Layout::Unpacked16 { stride } => {
                    &&& b < 2 * width && b % 2 == 0 ==> x == pixels[row * width + b / 2] % 256
                    &&& b < 2 * width && b % 2 == 1 ==> x == pixels[row * width + b / 2] / 256
                    &&& b >= 2 * width ==> x == 0
                },
                Layout::Packed { bps, stride } => {
                    let j = 8 * b + k;
                    (x as nat / pow2(k as nat) % 2 == 1) == (j < 8 * ((width * bps + 7) / 8)
                        && exists|c: int|
                        0 <= c < width && c * bps <= j < c * bps + 16
                            && #[trigger] pixels[row * width + c] as nat / pow2(
                            (j - c * bps) as nat,
                        ) % 2 == 1)
                },
            }
        }),
{
    let n = layout.row_bytes() as int;
    lemma_place(row, b, n);
    assert(row * n + n <= height * n) by (nonlinear_arith)
        requires
            row + 1 <= height,
            n >= 0,
    ;
    let x = packed(pixels, width, height, layout)[row * n + b];
    if let Layout::Packed { bps, stride } = layout {
        let start = row * width;
        let f = |m: int| packed_bit(pixels, start, bps as nat, width, 8 * b + m);
        lemma_bits_value_bits(f, 8);
        lemma2_to64();
        assert(x == bits_value(f, 8));
        lemma_bit_digit(x as u32, k);
        let j = 8 * b + k;
        assert forall|c: int| 0 <= c < width implies sets_bit(
            pixels[start + c],
            bps as nat,
            c,
            j,
        ) == (c * bps <= j < c * bps + 16 && #[trigger] pixels[row * width + c] as nat / pow2(
            (j - c * bps) as nat,
        ) % 2 == 1) by {
            if c * bps <= j < c * bps + 16 {
                lemma_bit_digit(pixels[start + c] as u32, j - c * bps);
            }
        }
        if some_sets_bit(pixels, start, bps as nat, width as int, j) {
            let c = choose|c: int|
                0 <= c < width && #[trigger] sets_bit(pixels[start + c], bps as nat, c, j);
            assert(pixels[row * width + c] as nat / pow2((j - c * bps) as nat) % 2 == 1);
        }
    }
}

/// How the layout follows from the length: rows have to be equal in size; twice as
/// many bytes as samples are words, and fewer are packed if the rows have room for
/// the samples in their bits.
pub proof fn lemma_detected(length: nat, width: nat, height: nat, bps: u32)
    requires
        length <= usize::MAX,
    ensures
        ({
            let whole = height > 0 && length % height == 0;
            let area = width * height;
            let l = Layout::detected(length, width, height, bps);
            &&& l is Some <==> whole && (length >= 2 * area || 8 * length >= area * bps)
            &&& whole && length >= 2 * area ==> l is Some && l->Some_0 is Unpacked16
            &&& length < 2 * area ==> !(l matches Some(Layout::Unpacked16 { .. }))
            &&& l matches Some(Layout::Packed { bps: b, stride }) ==> b == bps && stride * height
                == length
            &&& l matches Some(Layout::Unpacked16 { stride }) ==> stride * height == length
        }),
{
    if height > 0 && length % height == 0 {
        let s = (length / height) as int;
        let h = height as int;
        let w = width as int;
        lemma_fundamental_div_mod(length as int, h);
        assert(s * h == length) by (nonlinear_arith)
            requires
                length == h * s,
        ;
        vstd::arithmetic::div_mod::lemma_div_is_ordered_by_denominator(length as int, 1, h);
        assert((s >= 2 * w) <==> (s * h >= 2 * (w * h))) by (nonlinear_arith)
            requires
                h > 0,
        ;
        let t = w * bps;
        assert((8 * s >= t) <==> (8 * (s * h) >= t * h)) by (nonlinear_arith)
            requires
                h > 0,
        ;
        assert(t * h == (w * h) * bps) by (nonlinear_arith)
            requires
                t == w * bps,
        ;
    }
}

} // verus!
