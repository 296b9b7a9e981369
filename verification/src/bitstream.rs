//! Reader and writer of the raw strip's bitstream, most significant bit first.

use crate::bits::{
    bit_at, bits_of, lemma_bits_of_push, lemma_peek_agree, lemma_peek_bound, lemma_peek_split,
    lemma_peek_value_bits, lemma_peek_zero, lemma_value_bits_len, lemma_value_bits_split, pad_ones,
    peek, value_bits,
};
use vstd::arithmetic::div_mod::{
    lemma_fundamental_div_mod, lemma_fundamental_div_mod_converse,
};
use vstd::arithmetic::power2::{
    lemma2_to64, lemma2_to64_rest, lemma_pow2_adds, lemma_pow2_pos, lemma_pow2_strictly_increases,
    lemma_pow2_unfold, pow2,
};
use vstd::bits::{lemma_u64_shl_is_mul, lemma_u64_shr_is_div};
use vstd::prelude::*;

verus! {

/// A left shift drops the high digits and multiplies the rest.
proof fn lemma_shl_drops(x: u64, n: u64)
    requires
        1 <= n < 64,
    ensures
        (x << n) == (x as nat % pow2((64 - n) as nat)) * pow2(n as nat),
{
    let s = (64 - n) as u64;
    let lo = (x - ((x >> s) << s)) as u64;
    assert(((x >> s) << s) <= x) by (bit_vector);
    assert((x << n) == (lo << n) && lo >> s == 0) by (bit_vector)
        requires
            1 <= n < 64,
            s == 64 - n,
            lo == x - ((x >> s) << s),
    ;
    lemma_u64_shr_is_div(x, s);
    lemma_u64_shr_is_div(lo, s);
    let p = pow2(s as nat);
    lemma_pow2_pos(s as nat);
    let hi = x as nat / p;
    lemma_fundamental_div_mod(x as int, p as int);
    assert(hi * p <= x) by (nonlinear_arith)
        requires
            x == p * hi + x as int % p as int,
            0 <= x as int % p as int,
    ;
    lemma_u64_shl_is_mul((x >> s), s);
    assert(p * hi == hi * p) by (nonlinear_arith);
    assert(lo == x as nat % p);
    lemma_pow2_adds(s as nat, n as nat);
    lemma2_to64();
    lemma2_to64_rest();
    let q = pow2(n as nat);
    lemma_pow2_pos(n as nat);
    assert(lo < p) by {
        lemma_fundamental_div_mod(lo as int, p as int);
    }
    assert(lo * q <= (p - 1) * q) by (nonlinear_arith)
        requires
            lo <= p - 1,
            q > 0,
    ;
    assert((p - 1) * q == p * q - q) by (nonlinear_arith);
    lemma_u64_shl_is_mul(lo, n);
}

/// Reads a byte string bit by bit. After its end the stream goes on with zeros.
pub struct BitReader<'a> {
    data: &'a [u8],
    byte_pos: usize,
    bit_buf: u64,
    bits_left: u32,
    consumed: u128,
}

impl<'a> BitReader<'a> {
    /// All bits of the underlying data.
    pub closed spec fn stream(&self) -> Seq<bool> {
        bits_of(self.data@)
    }

    /// The number of bits consumed so far.
    pub closed spec fn pos(&self) -> nat {
        self.consumed as nat
    }

    /// The buffer holds the next bits of the bytes loaded so far, followed by zeros.
    pub closed spec fn wf(&self) -> bool {
        &&& self.byte_pos <= self.data@.len()
        &&& self.bits_left <= 64
        &&& self.bit_buf == peek(
            bits_of(self.data@.take(self.byte_pos as int)),
            self.consumed as nat,
            64,
        )
        &&& (8 * self.byte_pos == self.consumed + self.bits_left || (self.byte_pos
            == self.data@.len() && self.bits_left == 0 && self.consumed >= 8 * self.byte_pos))
    }

    pub fn new(data: &'a [u8]) -> (r: Self)
        ensures
            r.wf(),
            r.stream() == bits_of(data@),
            r.pos() == 0,
    {
        proof {
            lemma_peek_zero(bits_of(data@.take(0)), 0, 64);
        }
        let mut r = BitReader { data, byte_pos: 0, bit_buf: 0, bits_left: 0, consumed: 0 };
        r.fill();
        r
    }

    fn fill(&mut self)
        requires
            old(self).wf(),
        ensures
            final(self).wf(),
            final(self).stream() == old(self).stream(),
            final(self).pos() == old(self).pos(),
            final(self).data == old(self).data,
            final(self).bits_left > 56 || final(self).byte_pos == final(self).data@.len(),
    {
        while self.bits_left <= 56 && self.byte_pos < self.data.len()
            invariant
                self.wf(),
                self.data == old(self).data,
                self.consumed == old(self).consumed,
            decreases self.data@.len() - self.byte_pos,
        {
            let byte = self.data[self.byte_pos];
            let shift: u64 = (56 - self.bits_left) as u64;
            proof {
                lemma_fill_step(
                    self.data@,
                    self.byte_pos as int,
                    self.consumed as nat,
                    self.bits_left as nat,
                );
                let next = bits_of(self.data@.take(self.byte_pos + 1));
                lemma_peek_bound(next, self.consumed as nat, 64);
                lemma2_to64_rest();
                lemma_u64_shl_is_mul(byte as u64, shift);
            }
            self.bit_buf = self.bit_buf + ((byte as u64) << shift);
            self.byte_pos = self.byte_pos + 1;
            self.bits_left = self.bits_left + 8;
        }
    }

    /// The value of the next `n` bits, which are not consumed.
    pub fn peek_bits(&mut self, n: u32) -> (r: u32)
        requires
            old(self).wf(),
            1 <= n <= 32,
        ensures
            final(self).wf(),
            final(self).stream() == old(self).stream(),
            final(self).pos() == old(self).pos(),
            r == peek(old(self).stream(), old(self).pos(), n as nat),
    {
        self.fill();
        let shift: u64 = (64 - n) as u64;
        proof {
            let t = bits_of(self.data@.take(self.byte_pos as int));
            let c = self.consumed as nat;
            let s = self.stream();
            lemma_u64_shr_is_div(self.bit_buf, shift);
            lemma_peek_split(t, c, n as nat, shift as nat);
            lemma_peek_bound(t, (c + n) as nat, shift as nat);
            lemma_pow2_pos(shift as nat);
            lemma_fundamental_div_mod_converse(
                self.bit_buf as int,
                pow2(shift as nat) as int,
                peek(t, c, n as nat) as int,
                peek(t, (c + n) as nat, shift as nat) as int,
            );
            lemma_take_bits(self.data@, self.byte_pos as int);
            assert forall|i: int| 0 <= i < n implies bit_at(t, c + i) == #[trigger] bit_at(
                s,
                c + i,
            ) by {}
            lemma_peek_agree(t, s, c, c, n as nat);
            lemma_peek_bound(s, c, n as nat);
            if n < 32 {
                lemma_pow2_strictly_increases(n as nat, 32);
            }
            lemma2_to64();
        }
        (self.bit_buf >> shift) as u32
    }

    /// Moves on by `n` bits.
    pub fn consume_bits(&mut self, n: u32)
        requires
            old(self).wf(),
            n <= 32,
            old(self).pos() + n <= u128::MAX,
        ensures
            final(self).wf(),
            final(self).stream() == old(self).stream(),
            final(self).pos() == old(self).pos() + n,
    {
        self.fill();
        if n == 0 {
            return;
        }
        let ghost t = bits_of(self.data@.take(self.byte_pos as int));
        let ghost c = self.consumed as nat;
        if n <= self.bits_left {
            let m: u64 = n as u64;
            proof {
                let k = (64 - n) as nat;
                lemma_shl_drops(self.bit_buf, m);
                lemma_peek_split(t, c, n as nat, k);
                lemma_peek_bound(t, (c + n) as nat, k);
                lemma_pow2_pos(k);
                lemma_fundamental_div_mod_converse(
                    self.bit_buf as int,
                    pow2(k) as int,
                    peek(t, c, n as nat) as int,
                    peek(t, (c + n) as nat, k) as int,
                );
                lemma_peek_split(t, (c + n) as nat, k, n as nat);
                lemma_peek_zero(t, (c + n + k) as nat, n as nat);
            }
            self.bit_buf = self.bit_buf << m;
            self.bits_left = self.bits_left - n;
        } else {
            proof {
                lemma_peek_zero(t, (c + n) as nat, 64);
            }
            self.bit_buf = 0;
            self.bits_left = 0;
        }
        self.consumed = self.consumed + n as u128;
    }

    /// The value of the next `n` bits, which are consumed.
    pub fn get_bits(&mut self, n: u32) -> (r: u32)
        requires
            old(self).wf(),
            1 <= n <= 32,
            old(self).pos() + n <= u128::MAX,
        ensures
            final(self).wf(),
            final(self).stream() == old(self).stream(),
            final(self).pos() == old(self).pos() + n,
            r == peek(old(self).stream(), old(self).pos(), n as nat),
    {
        let val = self.peek_bits(n);
        self.consume_bits(n);
        val
    }

    /// The number of bits consumed so far, zeros after the end included.
    pub fn total_bits_consumed(&self) -> (r: u128)
        ensures
            r == self.pos(),
    {
        self.consumed
    }
}

proof fn lemma_take_bits(data: Seq<u8>, k: int)
    requires
        0 <= k <= data.len(),
    ensures
        bits_of(data.take(k)) == bits_of(data).take(8 * k),
{
    assert(bits_of(data.take(k)) =~= bits_of(data).take(8 * k));
}

/// Loading one more byte adds it right behind the bits already in the buffer.
proof fn lemma_fill_step(data: Seq<u8>, k: int, c: nat, left: nat)
    requires
        0 <= k < data.len(),
        8 * k == c + left,
        left <= 56,
    ensures
        peek(bits_of(data.take(k + 1)), c, 64) == peek(bits_of(data.take(k)), c, 64) + data[k]
            * pow2((56 - left) as nat),
{
    let t = bits_of(data.take(k));
    let u = bits_of(data.take(k + 1));
    let b = data[k];
    let rest = (56 - left) as nat;
    assert(data.take(k + 1) =~= data.take(k).push(b));
    lemma_bits_of_push(data.take(k), b);
    lemma_value_bits_len(b as nat, 8);
    lemma_peek_split(u, c, left, 8 + rest);
    lemma_peek_split(u, (c + left) as nat, 8, rest);
    lemma_peek_split(t, c, left, 8 + rest);
    lemma_peek_zero(t, (c + left) as nat, 8 + rest);
    lemma_peek_zero(u, (c + left + 8) as nat, rest);
    assert forall|i: int| 0 <= i < left implies bit_at(t, c + i) == #[trigger] bit_at(u, c + i) by {}
    lemma_peek_agree(t, u, c, c, left);
    lemma2_to64();
    assert forall|i: int| 0 <= i < 8 implies bit_at(u, c + left + i) == #[trigger] value_bits(
        b as nat,
        8,
    )[i] by {
        assert(u[t.len() + i] == value_bits(b as nat, 8)[i]);
    }
    lemma_peek_value_bits(u, (c + left) as nat, b as nat, 8);
}

proof fn lemma_value_bits_ones(n: nat)
    ensures
        value_bits((pow2(n) - 1) as nat, n) == Seq::new(n, |i: int| true),
    decreases n,
{
    lemma_pow2_pos(n);
    if n == 0 {
        assert(value_bits((pow2(n) - 1) as nat, n) =~= Seq::new(n, |i: int| true));
    } else {
        let m = (n - 1) as nat;
        lemma_pow2_unfold(n);
        lemma_pow2_pos(m);
        lemma_value_bits_ones(m);
        let v = (pow2(n) - 1) as nat;
        assert(v / 2 == pow2(m) - 1);
        assert(value_bits(v, n) =~= Seq::new(n, |i: int| true));
    }
}

/// Writes a byte string bit by bit.
pub struct BitWriter {
    data: Vec<u8>,
    bit_buf: u64,
    bits_pending: u32,
}

impl BitWriter {
    /// All bits written so far.
    pub closed spec fn bits(&self) -> Seq<bool> {
        bits_of(self.data@) + value_bits(self.bit_buf as nat, self.bits_pending as nat)
    }

    /// Less than a byte is pending.
    pub closed spec fn wf(&self) -> bool {
        &&& self.bits_pending < 8
        &&& self.bit_buf < pow2(self.bits_pending as nat)
    }

    pub fn new() -> (r: Self)
        ensures
            r.wf(),
            r.bits() == Seq::<bool>::empty(),
    {
        proof {
            lemma2_to64();
        }
        let r = BitWriter { data: Vec::new(), bit_buf: 0, bits_pending: 0 };
        assert(r.bits() =~= Seq::<bool>::empty());
        r
    }

    /// Appends the `num_bits` digits of `value`, which must fit in them.
    pub fn write_bits(&mut self, value: u32, num_bits: u8)
        requires
            old(self).wf(),
            num_bits <= 32,
            value < pow2(num_bits as nat),
        ensures
            final(self).wf(),
            final(self).bits() == old(self).bits() + value_bits(value as nat, num_bits as nat),
    {
        let ghost target = self.bits() + value_bits(value as nat, num_bits as nat);
        proof {
            let a = self.bits_pending as nat;
            let b = num_bits as nat;
            lemma_pow2_adds(a, b);
            lemma_pow2_pos(b);
            lemma_pow2_strictly_increases(a + b, 40);
            lemma2_to64_rest();
            let x = self.bit_buf as nat;
            let (pa, pb) = (pow2(a), pow2(b));
            assert(x * pb + value < pa * pb) by (nonlinear_arith)
                requires
                    x + 1 <= pa,
                    value < pb,
            ;
            lemma_u64_shl_is_mul(self.bit_buf, num_bits as u64);
            lemma_value_bits_split(x, value as nat, a, b);
            assert(bits_of(self.data@) + value_bits(x * pb + value as nat, a + b) =~= target);
        }
        self.bit_buf = (self.bit_buf << (num_bits as u64)) + value as u64;
        self.bits_pending = self.bits_pending + num_bits as u32;
        while self.bits_pending >= 8
            invariant
                self.bits_pending < 40,
                self.bit_buf < pow2(self.bits_pending as nat),
                self.bits() == target,
            decreases self.bits_pending,
        {
            let p: u32 = self.bits_pending - 8;
            let byte: u64 = self.bit_buf >> (p as u64);
            let ghost lo = self.bit_buf as nat % pow2(p as nat);
            proof {
                let x = self.bit_buf;
                let q = pow2(p as nat);
                lemma_pow2_pos(p as nat);
                lemma_u64_shr_is_div(x, p as u64);
                lemma_fundamental_div_mod(x as int, q as int);
                lemma_pow2_adds(8, p as nat);
                lemma2_to64();
                assert(byte < 256) by (nonlinear_arith)
                    requires
                        x < 256 * q,
                        x == q * byte + lo,
                        0 <= lo,
                        q > 0,
                ;
                assert(q * byte == byte * q) by (nonlinear_arith);
                lemma_u64_shl_is_mul(byte, p as u64);
                lemma_value_bits_split(byte as nat, lo, 8, p as nat);
                lemma_bits_of_push(self.data@, byte as u8);
                assert(bits_of(self.data@) + value_bits(x as nat, self.bits_pending as nat)
                    =~= bits_of(self.data@.push(byte as u8)) + value_bits(lo, p as nat));
            }
            self.data.push(byte as u8);
            self.bit_buf = self.bit_buf - (byte << (p as u64));
            self.bits_pending = p;
        }
    }

    /// The bytes written, the last of them filled up with ones.
    pub fn finish(self) -> (r: Vec<u8>)
        requires
            self.wf(),
        ensures
            bits_of(r@) == pad_ones(self.bits()),
    {
        proof {
            lemma_value_bits_len(self.bit_buf as nat, self.bits_pending as nat);
        }
        let ghost bits = self.bits();
        let mut data = self.data;
        if self.bits_pending > 0 {
            let pad: u64 = (8 - self.bits_pending) as u64;
            proof {
                let a = self.bits_pending as nat;
                let b = pad as nat;
                let x = self.bit_buf as nat;
                lemma_pow2_pos(b);
                lemma_pow2_adds(a, b);
                lemma2_to64();
                let (pa, pb) = (pow2(a), pow2(b));
                assert(x * pb + (pb - 1) < pa * pb) by (nonlinear_arith)
                    requires
                        x + 1 <= pa,
                        pb > 0,
                ;
                lemma_u64_shl_is_mul(1u64, pad);
                lemma_u64_shl_is_mul(self.bit_buf, pad);
                lemma_value_bits_split(x, (pb - 1) as nat, a, b);
                lemma_value_bits_ones(b);
                lemma_bits_of_push(data@, (x * pb + (pb - 1)) as u8);
            }
            let pad_mask: u64 = (1u64 << pad) - 1;
            data.push(((self.bit_buf << pad) + pad_mask) as u8);
            assert(bits_of(data@) =~= pad_ones(bits));
        } else {
            assert(bits_of(data@) =~= pad_ones(bits));
        }
        data
    }
}

} // verus!
