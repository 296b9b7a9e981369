//! Little-endian numbers in byte strings.

use vstd::arithmetic::power2::{lemma2_to64, lemma2_to64_rest, lemma_pow2_adds, pow2};
use vstd::arithmetic::div_mod::lemma_div_denominator;
use vstd::arithmetic::power::{lemma_pow0, lemma_pow_positive, pow};
use vstd::prelude::*;

verus! {

/// The last `n` bytes of `v`, least significant first.
pub open spec fn le(v: nat, n: nat) -> Seq<u8>
    decreases n,
{
    if n == 0 {
        Seq::empty()
    } else {
        seq![(v % 256) as u8] + le(v / 256, (n - 1) as nat)
    }
}

/// The number that the bytes stand for, least significant first.
pub open spec fn le_value(s: Seq<u8>) -> nat
    decreases s.len(),
{
    if s.len() == 0 {
        0
    } else {
        s[0] as nat + 256 * le_value(s.skip(1))
    }
}

/// The 32-bit word of a signed number.
pub open spec fn word32(x: int) -> nat {
    (x % 0x1_0000_0000) as nat
}

/// The signed number of a 32-bit word.
pub open spec fn signed32(v: nat) -> int {
    if v < 0x8000_0000 {
        v as int
    } else {
        v - 0x1_0000_0000
    }
}

pub proof fn lemma_le_len(v: nat, n: nat)
    ensures
        le(v, n).len() == n,
    decreases n,
{
    if n > 0 {
        lemma_le_len(v / 256, (n - 1) as nat);
    }
}

pub proof fn lemma_le_value_bound(s: Seq<u8>)
    ensures
        le_value(s) < pow2(8 * s.len()),
    decreases s.len(),
{
    lemma2_to64();
    if s.len() > 0 {
        lemma_le_value_bound(s.skip(1));
        lemma_pow2_adds(8, 8 * s.skip(1).len());
    }
}

/// Bytes that were written for a number read as that number.
pub proof fn lemma_le_round_trip(v: nat, n: nat)
    requires
        v < pow2(8 * n),
    ensures
        le_value(le(v, n)) == v,
    decreases n,
{
    lemma2_to64();
    if n > 0 {
        let m = (n - 1) as nat;
        lemma_pow2_adds(8, 8 * m);
        assert(v / 256 < pow2(8 * m));
        lemma_le_round_trip(v / 256, m);
        assert(le(v, n).skip(1) =~= le(v / 256, m));
    }
}

/// A signed number comes back from its word.
pub proof fn lemma_signed32(x: int)
    requires
        -0x8000_0000 <= x < 0x8000_0000,
    ensures
        signed32(word32(x)) == x,
        word32(x) < 0x1_0000_0000,
{
}

/// Appends the last `n` bytes of `v`, least significant first.
pub fn push_le(out: &mut Vec<u8>, v: u64, n: u32)
    requires
        n <= 8,
    ensures
        final(out)@ == old(out)@ + le(v as nat, n as nat),
{
    let ghost base = out@;
    let mut rest: u64 = v;
    let mut k: u32 = 0;
    assert(base + le(v as nat, n as nat) =~= out@ + le(rest as nat, (n - k) as nat));
    while k < n
        invariant
            0 <= k <= n,
            base + le(v as nat, n as nat) == out@ + le(rest as nat, (n - k) as nat),
        decreases n - k,
    {
        let ghost before = out@;
        out.push((rest % 256) as u8);
        assert(before + le(rest as nat, (n - k) as nat) =~= out@ + le(
            rest as nat / 256,
            (n - k - 1) as nat,
        ));
        rest = rest / 256;
        k = k + 1;
    }
    assert(out@ + le(rest as nat, 0) =~= out@);
}

/// Appends a signed 32-bit number.
pub fn push_i32(out: &mut Vec<u8>, x: i32)
    ensures
        final(out)@ == old(out)@ + le(word32(x as int), 4),
{
    let word: u64 = ((x as i64 + 0x1_0000_0000) % 0x1_0000_0000) as u64;
    push_le(out, word, 4);
}

/// Reads the number in the `n` bytes from `at` on.
pub fn read_le(data: &[u8], at: usize, n: usize) -> (r: u64)
    requires
        n <= 8,
        at + n <= data@.len(),
        at + n <= usize::MAX,
    ensures
        r == le_value(data@.subrange(at as int, at + n)),
{
    let mut k: usize = n;
    let mut v: u64 = 0;
    while k > 0
        invariant
            n <= 8,
            at + n <= data@.len(),
            at + n <= usize::MAX,
            0 <= k <= n,
            v == le_value(data@.subrange(at + k, at + n)),
        decreases k,
    {
        k = k - 1;
        proof {
            let s = data@.subrange(at + k, at + n);
            assert(s.skip(1) =~= data@.subrange(at + k + 1, at + n));
            lemma_le_value_bound(s);
            if s.len() < 8 {
                vstd::arithmetic::power2::lemma_pow2_strictly_increases(8 * s.len(), 64);
            }
            lemma2_to64_rest();
        }
        v = data[at + k] as u64 + 256 * v;
    }
    v
}

/// Byte `i` of a number has the weight 256 to the power of `i`.
pub proof fn lemma_le_byte(v: nat, n: nat, i: int)
    requires
        0 <= i < n,
    ensures
        le(v, n).len() == n,
        le(v, n)[i] == v / pow(256, i as nat) as nat % 256,
    decreases n,
{
    lemma_le_len(v, n);
    lemma_pow0(256);
    if i > 0 {
        lemma_le_byte(v / 256, (n - 1) as nat, i - 1);
        let p = pow(256, (i - 1) as nat);
        lemma_pow_positive(256, (i - 1) as nat);
        reveal(pow);
        assert(pow(256, i as nat) == 256 * p);
        lemma_div_denominator(v as int, 256, p);
        assert(le(v, n)[i] == le(v / 256, (n - 1) as nat)[i - 1]);
    } else {
        assert(v / 1 == v);
    }
}

/// Two and four bytes stand for the number with the first byte as its lowest.
pub proof fn lemma_le_value(s: Seq<u8>)
    ensures
        s.len() == 1 ==> le_value(s) == s[0],
        s.len() == 2 ==> le_value(s) == s[0] + 256 * s[1],
        s.len() == 4 ==> le_value(s) == s[0] + 256 * (s[1] + 256 * (s[2] + 256 * s[3])),
{
    reveal_with_fuel(le_value, 5);
    if s.len() == 1 || s.len() == 2 || s.len() == 4 {
        assert(s.skip(1).len() == s.len() - 1);
    }
    if s.len() == 2 || s.len() == 4 {
        assert(s.skip(1)[0] == s[1]);
    }
    if s.len() == 4 {
        assert(s.skip(1).skip(1)[0] == s[2]);
        assert(s.skip(1).skip(1).skip(1)[0] == s[3]);
    }
}

/// The bytes of the number that bytes stand for are these bytes.
pub proof fn lemma_le_of_value(s: Seq<u8>)
    ensures
        le(le_value(s), s.len()) == s,
    decreases s.len(),
{
    if s.len() > 0 {
        let rest = s.skip(1);
        lemma_le_of_value(rest);
        let v = le_value(s);
        assert(v % 256 == s[0] && v / 256 == le_value(rest));
        assert(le(v, s.len()) =~= seq![s[0]] + rest);
        assert(seq![s[0]] + rest =~= s);
    } else {
        assert(le(le_value(s), s.len()) =~= s);
    }
}

} // verus!
