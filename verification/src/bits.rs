//! Bit strings, most significant bit first: the model of the compressed raw
//! bitstream that the reader, the writer and the codec's laws share.

use vstd::arithmetic::power2::{lemma_pow2_pos, lemma_pow2_unfold, pow2};
use vstd::prelude::*;

verus! {

/// The `n` low binary digits of `v`, most significant first.
pub open spec fn value_bits(v: nat, n: nat) -> Seq<bool>
    decreases n,
{
    if n == 0 {
        Seq::empty()
    } else {
        value_bits(v / 2, (n - 1) as nat).push(v % 2 == 1)
    }
}

/// The bits of a byte string, most significant bit of the first byte first.
pub open spec fn bits_of(data: Seq<u8>) -> Seq<bool> {
    Seq::new(8 * data.len(), |i: int| value_bits(data[i / 8] as nat, 8)[i % 8])
}

/// Bit `i` of a stream that goes on with zeros after its end.
pub open spec fn bit_at(s: Seq<bool>, i: int) -> bool {
    0 <= i < s.len() && s[i]
}

/// The value of the `n` bits from position `pos` on, zeros after the end.
pub open spec fn peek(s: Seq<bool>, pos: nat, n: nat) -> nat
    decreases n,
{
    if n == 0 {
        0
    } else {
        2 * peek(s, pos, (n - 1) as nat) + if bit_at(s, pos + n - 1) {
            1nat
        } else {
            0nat
        }
    }
}

/// `s` filled up with ones to a whole number of bytes.
pub open spec fn pad_ones(s: Seq<bool>) -> Seq<bool> {
    s + Seq::new(((8 - s.len() % 8) % 8) as nat, |i: int| true)
}

/// The bytes that a string of bits makes up.
pub open spec fn bytes_from(s: Seq<bool>) -> Seq<u8> {
    Seq::new(s.len() / 8, |i: int| peek(s, (8 * i) as nat, 8) as u8)
}

pub proof fn lemma_value_bits_len(v: nat, n: nat)
    ensures
        value_bits(v, n).len() == n,
    decreases n,
{
    if n > 0 {
        lemma_value_bits_len(v / 2, (n - 1) as nat);
    }
}

pub proof fn lemma_peek_bound(s: Seq<bool>, pos: nat, n: nat)
    ensures
        peek(s, pos, n) < pow2(n),
    decreases n,
{
    lemma_pow2_pos(n);
    if n > 0 {
        lemma_pow2_unfold(n);
        lemma_peek_bound(s, pos, (n - 1) as nat);
    } else {
        vstd::arithmetic::power2::lemma2_to64();
    }
}

/// Reading `a + b` bits is reading `a` bits and then `b` more.
pub proof fn lemma_peek_split(s: Seq<bool>, pos: nat, a: nat, b: nat)
    ensures
        peek(s, pos, a + b) == peek(s, pos, a) * pow2(b) + peek(s, pos + a, b),
    decreases b,
{
    if b == 0 {
        vstd::arithmetic::power2::lemma2_to64();
    } else {
        let c = (b - 1) as nat;
        lemma_peek_split(s, pos, a, c);
        lemma_pow2_unfold(b);
        let x = peek(s, pos, a);
        assert((a + b - 1) as nat == a + c);
        assert(x * pow2(b) == 2 * (x * pow2(c))) by {
            assert(x * (2 * pow2(c)) == 2 * (x * pow2(c))) by (nonlinear_arith);
        }
        assert(pos + a + b - 1 == pos + (a + b) - 1);
    }
}

/// Only the bits that are read matter.
pub proof fn lemma_peek_agree(s: Seq<bool>, t: Seq<bool>, p: nat, q: nat, n: nat)
    requires
        forall|i: int| 0 <= i < n ==> bit_at(s, p + i) == #[trigger] bit_at(t, q + i),
    ensures
        peek(s, p, n) == peek(t, q, n),
    decreases n,
{
    if n > 0 {
        assert(bit_at(s, p + (n - 1)) == bit_at(t, q + (n - 1)));
        lemma_peek_agree(s, t, p, q, (n - 1) as nat);
    }
}

/// Bits that are all zero read as zero.
pub proof fn lemma_peek_zero(s: Seq<bool>, pos: nat, n: nat)
    requires
        forall|i: int| pos <= i < pos + n ==> !bit_at(s, i),
    ensures
        peek(s, pos, n) == 0,
    decreases n,
{
    if n > 0 {
        assert(!bit_at(s, pos + n - 1));
        lemma_peek_zero(s, pos, (n - 1) as nat);
    }
}

/// Where the digits of `v` stand, `v` is read.
pub proof fn lemma_peek_value_bits(s: Seq<bool>, pos: nat, v: nat, n: nat)
    requires
        v < pow2(n),
        forall|i: int| 0 <= i < n ==> bit_at(s, pos + i) == #[trigger] value_bits(v, n)[i],
    ensures
        peek(s, pos, n) == v,
    decreases n,
{
    if n == 0 {
        vstd::arithmetic::power2::lemma2_to64();
    } else {
        let m = (n - 1) as nat;
        lemma_pow2_unfold(n);
        lemma_value_bits_len(v / 2, m);
        assert forall|i: int| 0 <= i < m implies bit_at(s, pos + i) == #[trigger] value_bits(
            v / 2,
            m,
        )[i] by {
            assert(value_bits(v, n)[i] == value_bits(v / 2, m)[i]);
        }
        lemma_peek_value_bits(s, pos, v / 2, m);
        assert(value_bits(v, n)[m as int] == (v % 2 == 1));
        assert(bit_at(s, pos + m as int) == value_bits(v, n)[m as int]);
    }
}

/// What is read has the digits that stand there.
pub proof fn lemma_value_bits_peek(s: Seq<bool>, pos: nat, n: nat)
    ensures
        value_bits(peek(s, pos, n), n) == Seq::new(n, |i: int| bit_at(s, pos + i)),
    decreases n,
{
    if n > 0 {
        let m = (n - 1) as nat;
        lemma_value_bits_peek(s, pos, m);
        let v = peek(s, pos, n);
        assert(v / 2 == peek(s, pos, m));
        assert(value_bits(v, n) =~= Seq::new(n, |i: int| bit_at(s, pos + i)));
    } else {
        assert(value_bits(peek(s, pos, n), n) =~= Seq::new(n, |i: int| bit_at(s, pos + i)));
    }
}

pub proof fn lemma_bits_of_push(data: Seq<u8>, b: u8)
    ensures
        bits_of(data.push(b)) == bits_of(data) + value_bits(b as nat, 8),
{
    lemma_value_bits_len(b as nat, 8);
    let l = bits_of(data.push(b));
    let r = bits_of(data) + value_bits(b as nat, 8);
    assert(l.len() == r.len());
    assert forall|i: int| 0 <= i < l.len() implies l[i] == r[i] by {
        if i < 8 * data.len() {
            assert(data.push(b)[i / 8] == data[i / 8]);
        } else {
            assert(i / 8 == data.len());
            assert(i % 8 == i - 8 * data.len());
        }
    }
    assert(l =~= r);
}

/// Bytes are made up of their own bits.
pub proof fn lemma_bytes_from_bits(data: Seq<u8>)
    ensures
        bytes_from(bits_of(data)) == data,
{
    let s = bits_of(data);
    assert forall|i: int| 0 <= i < data.len() implies bytes_from(s)[i] == data[i] by {
        let v = data[i] as nat;
        lemma_value_bits_len(v, 8);
        vstd::arithmetic::power2::lemma2_to64();
        assert forall|k: int| 0 <= k < 8 implies bit_at(s, (8 * i) as nat + k)
            == #[trigger] value_bits(v, 8)[k] by {
            assert((8 * i + k) / 8 == i && (8 * i + k) % 8 == k);
        }
        lemma_peek_value_bits(s, (8 * i) as nat, v, 8);
    }
    assert(bytes_from(s) =~= data);
}

/// The bits of the bytes that whole bytes of bits make up are these bits.
pub proof fn lemma_bits_of_bytes(s: Seq<bool>)
    requires
        s.len() % 8 == 0,
    ensures
        bits_of(bytes_from(s)) == s,
{
    let t = bits_of(bytes_from(s));
    assert forall|j: int| 0 <= j < s.len() implies t[j] == s[j] by {
        let i = j / 8;
        let v = peek(s, (8 * i) as nat, 8);
        lemma_peek_bound(s, (8 * i) as nat, 8);
        vstd::arithmetic::power2::lemma2_to64();
        lemma_value_bits_peek(s, (8 * i) as nat, 8);
        assert(value_bits(v, 8)[j % 8] == bit_at(s, 8 * i + j % 8));
    }
    assert(t =~= s);
}

/// The digits of a number split where it is split by a power of two.
pub proof fn lemma_value_bits_split(hi: nat, lo: nat, a: nat, b: nat)
    requires
        lo < pow2(b),
    ensures
        value_bits(hi * pow2(b) + lo, a + b) == value_bits(hi, a) + value_bits(lo, b),
    decreases b,
{
    if b == 0 {
        vstd::arithmetic::power2::lemma2_to64();
        assert(value_bits(hi, a) + value_bits(lo, b) =~= value_bits(hi, a));
    } else {
        let c = (b - 1) as nat;
        lemma_pow2_unfold(b);
        let v = hi * pow2(b) + lo;
        assert(hi * pow2(b) == 2 * (hi * pow2(c))) by {
            assert(hi * (2 * pow2(c)) == 2 * (hi * pow2(c))) by (nonlinear_arith);
        }
        assert(v / 2 == hi * pow2(c) + lo / 2);
        assert(v % 2 == lo % 2);
        lemma_value_bits_split(hi, lo / 2, a, c);
        assert((a + b - 1) as nat == a + c);
        assert(value_bits(v, a + b) =~= value_bits(hi, a) + value_bits(lo, b));
    }
}

/// The bits of bytes stand most significant first: bit `i` is digit `7 - i % 8` of
/// its byte.
pub proof fn lemma_bits_of_digits(data: Seq<u8>, i: int)
    requires
        0 <= i < 8 * data.len(),
    ensures
        bits_of(data).len() == 8 * data.len(),
        bits_of(data)[i] == (data[i / 8] as nat / pow2((7 - i % 8) as nat) % 2 == 1),
{
    lemma_value_bits_digit(data[i / 8] as nat, 8, i % 8);
}

/// Digit `i` of `n` is the one with `n - 1 - i` digits behind it.
pub proof fn lemma_value_bits_digit(v: nat, n: nat, i: int)
    requires
        0 <= i < n,
    ensures
        value_bits(v, n)[i] == (v / pow2((n - 1 - i) as nat) % 2 == 1),
    decreases n,
{
    lemma_value_bits_len(v / 2, (n - 1) as nat);
    vstd::arithmetic::power2::lemma2_to64();
    let m = (n - 1 - i) as nat;
    if i < n - 1 {
        lemma_value_bits_digit(v / 2, (n - 1) as nat, i);
        let p = pow2((m - 1) as nat);
        lemma_pow2_pos((m - 1) as nat);
        lemma_pow2_unfold(m);
        vstd::arithmetic::div_mod::lemma_div_denominator(v as int, 2, p as int);
    } else {
        assert(v / 1 == v);
    }
}

/// A single bit is read as zero or one, and after the end of the stream as zero.
pub proof fn lemma_peek_one(s: Seq<bool>, pos: nat)
    ensures
        peek(s, pos, 1) == if pos < s.len() && s[pos as int] {
            1nat
        } else {
            0nat
        },
        peek(s, pos, 0) == 0,
{
    reveal_with_fuel(peek, 2);
}

/// Numbers are read most significant byte first.
pub proof fn lemma_peek_bytes(data: Seq<u8>, i: nat)
    requires
        i < data.len(),
    ensures
        peek(bits_of(data), 8 * i, 8) == data[i as int],
        i + 1 < data.len() ==> peek(bits_of(data), 8 * i, 16) == 256 * data[i as int] + data[(i
            + 1) as int],
{
    let s = bits_of(data);
    lemma_bytes_from_bits(data);
    vstd::arithmetic::power2::lemma2_to64();
    lemma_peek_bound(s, 8 * i, 8);
    assert(bytes_from(s)[i as int] == data[i as int]);
    if i + 1 < data.len() {
        lemma_peek_bound(s, 8 * (i + 1), 8);
        assert(bytes_from(s)[(i + 1) as int] == data[(i + 1) as int]);
        lemma_peek_split(s, 8 * i, 8, 8);
    }
}

/// Filling up adds ones, as few as make whole bytes.
pub proof fn lemma_pad_ones(s: Seq<bool>)
    ensures
        pad_ones(s).len() % 8 == 0,
        s.len() <= pad_ones(s).len() < s.len() + 8,
        forall|i: int| 0 <= i < s.len() ==> pad_ones(s)[i] == s[i],
        forall|i: int| s.len() <= i < pad_ones(s).len() ==> #[trigger] pad_ones(s)[i],
{
}

} // verus!
