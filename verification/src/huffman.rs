//! The Huffman tables of Nikon's raw format and the coding of single
//! prediction differences.

use crate::bits::{
    bit_at, lemma_peek_bound, lemma_peek_one, lemma_peek_split, lemma_peek_value_bits,
    lemma_value_bits_len, lemma_value_bits_peek, peek, value_bits,
};
use crate::bitstream::{BitReader, BitWriter};
use crate::text::{decimal, with_number};
use vstd::arithmetic::power2::{
    lemma2_to64, lemma_pow2_adds, lemma_pow2_pos, lemma_pow2_strictly_increases, lemma_pow2_unfold,
    pow2,
};
use vstd::bits::{lemma_u32_shl_is_mul, lemma_u64_shl_is_mul, lemma_usize_shl_is_mul};
use vstd::prelude::*;

verus! {

/// Predefined table sets. Index 0-2: 12-bit (lossy, lossy after the split row,
/// lossless). Index 3-5: 14-bit in the same order. Each set holds the number of
/// codes of every length from 1 to 16 and the symbols in the order of their codes.
pub const NIKON_TREE: [[[u8; 16]; 2]; 6] = [
    [
        [0, 1, 5, 1, 1, 1, 1, 1, 1, 2, 0, 0, 0, 0, 0, 0],
        [5, 4, 3, 6, 2, 7, 1, 0, 8, 9, 11, 10, 12, 0, 0, 0],
    ],
    [
        [0, 1, 5, 1, 1, 1, 1, 1, 1, 2, 0, 0, 0, 0, 0, 0],
        [0x39, 0x5a, 0x38, 0x27, 0x16, 5, 4, 3, 2, 1, 0, 11, 12, 0, 0, 0],
    ],
    [
        [0, 1, 4, 2, 3, 1, 2, 0, 0, 0, 0, 0, 0, 0, 0, 0],
        [5, 4, 6, 3, 7, 2, 8, 1, 9, 0, 10, 11, 12, 0, 0, 0],
    ],
    [
        [0, 1, 4, 3, 1, 1, 1, 1, 1, 2, 0, 0, 0, 0, 0, 0],
        [5, 6, 4, 7, 8, 3, 9, 2, 1, 0, 10, 11, 12, 13, 14, 0],
    ],
    [
        [0, 1, 5, 1, 1, 1, 1, 1, 1, 1, 2, 0, 0, 0, 0, 0],
        [8, 0x5c, 0x4b, 0x3a, 0x29, 7, 6, 5, 4, 3, 2, 1, 0, 13, 14, 0],
    ],
    [
        [0, 1, 4, 2, 2, 3, 1, 2, 0, 0, 0, 0, 0, 0, 0, 0],
        [7, 6, 8, 5, 9, 4, 10, 3, 11, 12, 2, 0, 1, 13, 14, 0],
    ],
];

/// A symbol and its code word.
#[derive(Clone, Copy)]
pub struct HuffEntry {
    pub symbol: u8,
    pub code: u16,
    pub code_len: u8,
}

/// How many codes table `t` has of each length, from length 1 on.
pub open spec fn counts(t: int) -> Seq<u8> {
    NIKON_TREE@[t]@[0]@
}

/// The symbols of table `t` in the order of their codes.
pub open spec fn symbols(t: int) -> Seq<u8> {
    NIKON_TREE@[t]@[1]@
}

/// The number of codes of at most `l` bits.
pub open spec fn codes_within(t: int, l: nat) -> nat
    decreases l,
{
    if l == 0 {
        0
    } else {
        codes_within(t, (l - 1) as nat) + counts(t)[l - 1] as nat
    }
}

/// The first code of `l` bits: the one after the last shorter code, with a zero appended.
pub open spec fn first_code(t: int, l: nat) -> nat
    decreases l,
{
    if l <= 1 {
        0
    } else {
        2 * (first_code(t, (l - 1) as nat) + counts(t)[l - 2] as nat)
    }
}

/// The codes of exactly `l` bits: consecutive numbers from the first one on.
pub open spec fn codes_of_len(t: int, l: nat) -> Seq<HuffEntry> {
    Seq::new(
        counts(t)[l - 1] as nat,
        |j: int|
            HuffEntry {
                symbol: symbols(t)[codes_within(t, (l - 1) as nat) + j],
                code: (first_code(t, l) + j) as u16,
                code_len: l as u8,
            },
    )
}

/// The codes of at most `l` bits.
pub open spec fn codes_upto(t: int, l: nat) -> Seq<HuffEntry>
    decreases l,
{
    if l == 0 {
        Seq::empty()
    } else {
        codes_upto(t, (l - 1) as nat) + codes_of_len(t, l)
    }
}

/// The canonical code of table `t`.
pub open spec fn nikon_codes(t: int) -> Seq<HuffEntry> {
    codes_upto(t, 16)
}

/// The length of the longest code of at most `l` bits.
pub open spec fn longest_upto(t: int, l: nat) -> nat
    decreases l,
{
    if l == 0 {
        0
    } else if counts(t)[l - 1] > 0 {
        l
    } else {
        longest_upto(t, (l - 1) as nat)
    }
}

/// The first of the `max`-bit words that start with the code of `e`.
pub open spec fn code_start(e: HuffEntry, max: nat) -> nat {
    e.code as nat * pow2((max - e.code_len) as nat)
}

/// The number of `max`-bit words that start with the code of `e`.
pub open spec fn code_span(e: HuffEntry, max: nat) -> nat {
    pow2((max - e.code_len) as nat)
}

/// The codes, each extended to all words of `max` bits, tile these words in order.
pub open spec fn tiles(codes: Seq<HuffEntry>, max: nat) -> bool {
    &&& 1 <= max <= 16
    &&& codes.len() > 0
    &&& forall|k: int| 0 <= k < codes.len() ==> 1 <= (#[trigger] codes[k]).code_len <= max
    &&& code_start(codes[0], max) == 0
    &&& forall|k: int|
        0 < k < codes.len() ==> code_start(#[trigger] codes[k], max) == code_start(
            codes[k - 1],
            max,
        ) + code_span(codes[k - 1], max)
    &&& code_start(codes.last(), max) + code_span(codes.last(), max) == pow2(max)
}

proof fn lemma_first_code_monotone(t: int, a: nat, b: nat)
    requires
        a <= b,
    ensures
        first_code(t, a) <= first_code(t, b),
    decreases b,
{
    if a < b {
        lemma_first_code_monotone(t, a, (b - 1) as nat);
    }
}

/// What the six tables have in common: at most 15 codes, none longer than 11
/// bits, and together they use up all words.
proof fn lemma_table(t: int)
    requires
        0 <= t < 6,
    ensures
        1 <= longest_upto(t, 16) <= 11,
        1 <= codes_within(t, 16) <= 15,
        first_code(t, 17) == 131072,
        first_code(t, longest_upto(t, 16)) + counts(t)[longest_upto(t, 16) - 1] == pow2(
            longest_upto(t, 16),
        ),
{
    lemma2_to64();
    reveal_with_fuel(longest_upto, 17);
    reveal_with_fuel(codes_within, 17);
    reveal_with_fuel(first_code, 18);
    if t == 0 {
        assert(longest_upto(0, 16) == 10);
        assert(first_code(0, 10) == 1022);
    } else if t == 1 {
        assert(longest_upto(1, 16) == 10);
        assert(first_code(1, 10) == 1022);
    } else if t == 2 {
        assert(longest_upto(2, 16) == 7);
        assert(first_code(2, 7) == 126);
    } else if t == 3 {
        assert(longest_upto(3, 16) == 10);
        assert(first_code(3, 10) == 1022);
    } else if t == 4 {
        assert(longest_upto(4, 16) == 11);
        assert(first_code(4, 11) == 2046);
    } else {
        assert(longest_upto(5, 16) == 8);
        assert(first_code(5, 8) == 254);
    }
}

proof fn lemma_codes_upto_len(t: int, l: nat)
    ensures
        codes_upto(t, l).len() == codes_within(t, l),
    decreases l,
{
    if l > 0 {
        lemma_codes_upto_len(t, (l - 1) as nat);
    }
}

/// No code is longer than the longest.
proof fn lemma_longest(t: int, l: nat)
    requires
        longest_upto(t, 16) <= l <= 16,
    ensures
        codes_upto(t, l) == nikon_codes(t),
        codes_within(t, l) == codes_within(t, 16),
    decreases 16 - l,
{
    if l < 16 {
        lemma_longest(t, l + 1);
        lemma_longest_unused(t, l + 1, 16);
        assert(codes_upto(t, l) =~= codes_upto(t, l + 1));
    }
}

proof fn lemma_longest_unused(t: int, l: nat, m: nat)
    requires
        longest_upto(t, m) < l <= m,
    ensures
        counts(t)[l - 1] == 0,
    decreases m,
{
    if l < m {
        lemma_longest_unused(t, l, (m - 1) as nat);
    }
}

/// The codes of at most `l` bits tile the words below the next code.
#[verifier::spinoff_prover]
#[verifier::rlimit(60)]
proof fn lemma_tiles_upto(t: int, l: nat, max: nat)
    requires
        0 <= t < 6,
        max == longest_upto(t, 16),
        1 <= l <= max,
    ensures
        forall|k: int|
            0 <= k < codes_upto(t, l).len() ==> 1 <= (#[trigger] codes_upto(t, l)[k]).code_len
                <= l,
        forall|k: int|
            0 < k < codes_upto(t, l).len() ==> code_start(#[trigger] codes_upto(t, l)[k], max)
                == code_start(codes_upto(t, l)[k - 1], max) + code_span(
                codes_upto(t, l)[k - 1],
                max,
            ),
        codes_upto(t, l).len() > 0 ==> {
            &&& code_start(codes_upto(t, l)[0], max) == 0
            &&& code_start(codes_upto(t, l).last(), max) + code_span(codes_upto(t, l).last(), max)
                == (first_code(t, l) + counts(t)[l - 1]) * pow2((max - l) as nat)
        },
        codes_upto(t, l).len() == 0 ==> first_code(t, l) + counts(t)[l - 1] == 0,
    decreases l,
{
    lemma_table(t);
    let m = (l - 1) as nat;
    let s = codes_upto(t, m);
    let n = codes_of_len(t, l);
    let fc = first_code(t, l);
    let p = pow2((max - l) as nat);
    lemma_first_code_monotone(t, l + 1, max + 1);
    lemma_pow2_unfold(max + 1);
    lemma_pow2_adds((max - l) as nat, l);
    if max < 11 {
        lemma_pow2_strictly_increases(max, 11);
    }
    lemma2_to64();
    assert(fc + counts(t)[l - 1] <= 2048);
    if l > 1 {
        lemma_tiles_upto(t, m, max);
        lemma_pow2_unfold((max - m) as nat);
        let c = first_code(t, m) + counts(t)[m - 1] as nat;
        assert(c * (2 * p) == (2 * c) * p) by (nonlinear_arith);
        assert(fc * p == c * pow2((max - m) as nat));
    } else {
        assert(s =~= Seq::empty());
        assert(fc * p == 0) by (nonlinear_arith)
            requires
                fc == 0,
        ;
    }
    let u = codes_upto(t, l);
    assert(u =~= s + n);
    assert forall|k: int| 0 <= k < n.len() implies code_start(#[trigger] n[k], max) == (fc + k) * p
        && code_span(n[k], max) == p by {}
    assert forall|k: int| 0 < k < u.len() implies code_start(#[trigger] u[k], max) == code_start(
        u[k - 1],
        max,
    ) + code_span(u[k - 1], max) by {
        if k < s.len() {
            assert(u[k] == s[k] && u[k - 1] == s[k - 1]);
        } else {
            let j = k - s.len();
            assert(u[k] == n[j]);
            if j == 0 {
                assert(u[k - 1] == s.last());
            } else {
                assert(u[k - 1] == n[j - 1]);
                assert((fc + j) * p == (fc + (j - 1)) * p + p) by (nonlinear_arith);
            }
        }
    }
    assert forall|k: int| 0 <= k < u.len() implies 1 <= (#[trigger] u[k]).code_len <= l by {
        if k < s.len() {
            assert(u[k] == s[k]);
        } else {
            assert(u[k] == n[k - s.len()]);
        }
    }
    if n.len() > 0 {
        let j = n.len() - 1;
        assert(u.last() == n[j]);
        assert((fc + j) * p + p == (fc + n.len()) * p) by (nonlinear_arith)
            requires
                j == n.len() - 1,
        ;
        if s.len() == 0 {
            assert(u[0] == n[0]);
            if l > 1 {
                assert(fc == 0);
            }
        }
    } else if s.len() > 0 {
        assert(u.last() == s.last());
    }
    if s.len() > 0 {
        assert(u[0] == s[0]);
    }
}

/// Every table is a complete prefix code.
pub proof fn lemma_nikon_codes_tile(t: int)
    requires
        0 <= t < 6,
    ensures
        tiles(nikon_codes(t), longest_upto(t, 16)),
        longest_upto(t, 16) <= 11,
        nikon_codes(t).len() <= 15,
{
    let max = longest_upto(t, 16);
    lemma_table(t);
    lemma_tiles_upto(t, max, max);
    lemma_longest(t, max);
    lemma_codes_upto_len(t, 16);
    lemma2_to64();
    assert(pow2((max - max) as nat) == 1);
    let end = first_code(t, max) + counts(t)[max - 1];
    assert(end * 1 == end) by (nonlinear_arith);
}

/// The words of a code lie before those of every later code.
pub proof fn lemma_tiles_ordered(codes: Seq<HuffEntry>, max: nat, j: int, k: int)
    requires
        tiles(codes, max),
        0 <= j < k < codes.len(),
    ensures
        code_start(codes[j], max) + code_span(codes[j], max) <= code_start(codes[k], max),
    decreases k - j,
{
    if j + 1 < k {
        lemma_tiles_ordered(codes, max, j, k - 1);
    }
    assert(code_start(codes[k], max) == code_start(codes[k - 1], max) + code_span(
        codes[k - 1],
        max,
    ));
}

/// Every word starts with some code.
pub proof fn lemma_tiles_cover(codes: Seq<HuffEntry>, max: nat, v: nat, n: int) -> (k: int)
    requires
        tiles(codes, max),
        0 < n <= codes.len(),
        v < code_start(codes[n - 1], max) + code_span(codes[n - 1], max),
    ensures
        0 <= k < n,
        code_start(codes[k], max) <= v < code_start(codes[k], max) + code_span(codes[k], max),
    decreases n,
{
    if code_start(codes[n - 1], max) <= v {
        n - 1
    } else {
        assert(code_start(codes[n - 1], max) == code_start(codes[n - 2], max) + code_span(
            codes[n - 2],
            max,
        ));
        lemma_tiles_cover(codes, max, v, n - 1)
    }
}

/// The index of the first code of `symbol`, or the number of codes if it has none.
pub open spec fn symbol_index(codes: Seq<HuffEntry>, symbol: nat) -> int
    decreases codes.len(),
{
    if codes.len() == 0 {
        0
    } else {
        let k = symbol_index(codes.drop_last(), symbol);
        if k == codes.len() - 1 && codes.last().symbol != symbol {
            k + 1
        } else {
            k
        }
    }
}

pub proof fn lemma_symbol_index(codes: Seq<HuffEntry>, symbol: nat)
    ensures
        0 <= symbol_index(codes, symbol) <= codes.len(),
        forall|j: int|
            0 <= j < symbol_index(codes, symbol) ==> (#[trigger] codes[j]).symbol != symbol,
        symbol_index(codes, symbol) < codes.len() ==> codes[symbol_index(codes, symbol)].symbol
            == symbol,
    decreases codes.len(),
{
    if codes.len() > 0 {
        let d = codes.drop_last();
        lemma_symbol_index(d, symbol);
        assert forall|j: int| 0 <= j < symbol_index(codes, symbol) implies (
        #[trigger] codes[j]).symbol != symbol by {
            if j < d.len() {
                assert(codes[j] == d[j]);
            }
        }
        if symbol_index(d, symbol) < d.len() {
            assert(codes[symbol_index(d, symbol)] == d[symbol_index(d, symbol)]);
        }
    }
}

/// The first code of `symbol` is the one that no earlier code shares the symbol with.
pub proof fn lemma_symbol_index_unique(codes: Seq<HuffEntry>, symbol: nat, k: int)
    requires
        0 <= k <= codes.len(),
        forall|j: int| 0 <= j < k ==> (#[trigger] codes[j]).symbol != symbol,
        k < codes.len() ==> codes[k].symbol == symbol,
    ensures
        symbol_index(codes, symbol) == k,
{
    lemma_symbol_index(codes, symbol);
    let i = symbol_index(codes, symbol);
    if i < k {
        assert(codes[i].symbol != symbol);
    } else if k < i {
        assert(codes[k].symbol != symbol);
    }
}

/// The index of the code word that stands in the stream at `pos`.
pub open spec fn code_at(codes: Seq<HuffEntry>, s: Seq<bool>, pos: nat) -> int {
    choose|k: int|
        0 <= k < codes.len() && peek(s, pos, (#[trigger] codes[k]).code_len as nat) == codes[k].code
}

/// A word starts with a code exactly if it is one of the words of that code.
proof fn lemma_code_words(e: HuffEntry, max: nat, s: Seq<bool>, pos: nat)
    requires
        1 <= e.code_len <= max,
    ensures
        (peek(s, pos, e.code_len as nat) == e.code) <==> (code_start(e, max) <= peek(s, pos, max)
            < code_start(e, max) + code_span(e, max)),
{
    let n = e.code_len as nat;
    let r = (max - n) as nat;
    lemma_peek_split(s, pos, n, r);
    lemma_peek_bound(s, pos + n, r);
    let p = pow2(r) as int;
    let x = peek(s, pos, n) as int;
    let y = peek(s, pos + n, r) as int;
    let c = e.code as int;
    assert(n + r == max);
    if c * p <= x * p + y < c * p + p {
        assert(x == c) by (nonlinear_arith)
            requires
                c * p <= x * p + y < c * p + p,
                0 <= y < p,
        ;
    }
}

/// At most one code word can stand at a place of the stream, and one does.
pub proof fn lemma_code_at(codes: Seq<HuffEntry>, max: nat, s: Seq<bool>, pos: nat, k: int)
    requires
        tiles(codes, max),
        0 <= k < codes.len(),
        peek(s, pos, codes[k].code_len as nat) == codes[k].code,
    ensures
        code_at(codes, s, pos) == k,
{
    let j = code_at(codes, s, pos);
    assert(0 <= j < codes.len() && peek(s, pos, codes[j].code_len as nat) == codes[j].code);
    lemma_code_words(codes[k], max, s, pos);
    lemma_code_words(codes[j], max, s, pos);
    if j < k {
        lemma_tiles_ordered(codes, max, j, k);
    } else if k < j {
        lemma_tiles_ordered(codes, max, k, j);
    }
}

/// Some code word stands at every place of the stream.
pub proof fn lemma_code_at_exists(codes: Seq<HuffEntry>, max: nat, s: Seq<bool>, pos: nat)
    requires
        tiles(codes, max),
    ensures
        0 <= code_at(codes, s, pos) < codes.len(),
        peek(s, pos, codes[code_at(codes, s, pos)].code_len as nat) == codes[code_at(
            codes,
            s,
            pos,
        )].code,
{
    lemma_peek_bound(s, pos, max);
    let k = lemma_tiles_cover(codes, max, peek(s, pos, max), codes.len() as int);
    lemma_code_words(codes[k], max, s, pos);
    lemma_code_at(codes, max, s, pos, k);
}

/// For every word of `max_bits` bits the length and the symbol of the code that it starts with.
#[verifier::spinoff_prover]
#[verifier::rlimit(40)]
fn prefix_table(entries: &Vec<HuffEntry>, max_bits: u8) -> (decode_table: Vec<(u8, u8)>)
    requires
        max_bits <= 11,
        tiles(entries@, max_bits as nat),
    ensures
        decode_table@.len() == pow2(max_bits as nat),
        forall|k: int, v: int|
            #![trigger entries@[k], decode_table@[v]]
            0 <= k < entries@.len() && code_start(entries@[k], max_bits as nat) <= v < code_start(
                entries@[k],
                max_bits as nat,
            ) + code_span(entries@[k], max_bits as nat) ==> decode_table@[v] == (
                entries@[k].code_len,
                entries@[k].symbol,
            ),
{
    proof {
        lemma_pow2_strictly_increases(max_bits as nat, 12);
        lemma2_to64();
        lemma_usize_shl_is_mul(1usize, max_bits as usize);
    }
    let ghost max = max_bits as nat;
    let table_size: usize = 1usize << (max_bits as usize);
    let mut decode_table: Vec<(u8, u8)> = Vec::new();
    decode_table.resize(table_size, (0u8, 0u8));
    let mut k: usize = 0;
    while k < entries.len()
        invariant
            max == max_bits,
            max <= 11,
            tiles(entries@, max),
            decode_table@.len() == pow2(max),
            pow2(max) <= 4096,
            0 <= k <= entries@.len(),
            forall|m: int, v: int|
                #![trigger entries@[m], decode_table@[v]]
                0 <= m < k && code_start(entries@[m], max) <= v < code_start(entries@[m], max)
                    + code_span(entries@[m], max) ==> decode_table@[v] == (
                    entries@[m].code_len,
                    entries@[m].symbol,
                ),
        decreases entries@.len() - k,
    {
        let entry = entries[k];
        let shift: usize = (max_bits - entry.code_len) as usize;
        let ghost start = code_start(entries@[k as int], max);
        let ghost span = code_span(entries@[k as int], max);
        proof {
            if k < entries@.len() - 1 {
                lemma_tiles_ordered(entries@, max, k as int, entries@.len() - 1);
            }
            lemma_pow2_pos(shift as nat);
            assert(start + span <= pow2(max));
            lemma_usize_shl_is_mul(entry.code as usize, shift);
            lemma_usize_shl_is_mul(1usize, shift);
        }
        let prefix: usize = (entry.code as usize) << shift;
        let fill_count: usize = 1usize << shift;
        let mut j: usize = 0;
        while j < fill_count
            invariant
                max == max_bits,
                tiles(entries@, max),
                decode_table@.len() == pow2(max),
                pow2(max) <= 4096,
                0 <= k < entries@.len(),
                entry == entries@[k as int],
                start == code_start(entries@[k as int], max),
                span == code_span(entries@[k as int], max),
                prefix == start,
                fill_count == span,
                start + span <= pow2(max),
                0 <= j <= fill_count,
                forall|v: int|
                    start <= v < start + j ==> #[trigger] decode_table@[v] == (
                        entry.code_len,
                        entry.symbol,
                    ),
                forall|m: int, v: int|
                    #![trigger entries@[m], decode_table@[v]]
                    0 <= m < k && code_start(entries@[m], max) <= v < code_start(
                        entries@[m],
                        max,
                    ) + code_span(entries@[m], max) ==> decode_table@[v] == (
                        entries@[m].code_len,
                        entries@[m].symbol,
                    ),
            decreases fill_count - j,
        {
            let ghost before = decode_table@;
            decode_table.set(prefix + j, (entry.code_len, entry.symbol));
            proof {
                assert forall|m: int, v: int|
                    #![trigger entries@[m], decode_table@[v]]
                    0 <= m < k && code_start(entries@[m], max) <= v < code_start(
                        entries@[m],
                        max,
                    ) + code_span(entries@[m], max) implies decode_table@[v] == (
                    entries@[m].code_len,
                    entries@[m].symbol,
                ) by {
                    lemma_tiles_ordered(entries@, max, m, k as int);
                    assert(before[v] == (entries@[m].code_len, entries@[m].symbol));
                }
            }
            j = j + 1;
        }
        k = k + 1;
    }
    decode_table
}

/// A Huffman table, ready for coding and for decoding by prefix lookup.
pub struct HuffTable {
    entries: Vec<HuffEntry>,
    decode_table: Vec<(u8, u8)>,
    max_bits: u8,
}

impl HuffTable {
    /// The codes of the table.
    pub closed spec fn codes(&self) -> Seq<HuffEntry> {
        self.entries@
    }

    /// The length of the longest code.
    pub closed spec fn max_len(&self) -> nat {
        self.max_bits as nat
    }

    /// The codes are a complete prefix code, and the lookup table gives for each
    /// word the length and the symbol of the code that it starts with.
    pub closed spec fn wf(&self) -> bool {
        &&& self.max_bits <= 11
        &&& tiles(self.entries@, self.max_bits as nat)
        &&& self.decode_table@.len() == pow2(self.max_bits as nat)
        &&& forall|k: int, v: int|
            #![trigger self.entries@[k], self.decode_table@[v]]
            0 <= k < self.entries@.len() && code_start(self.entries@[k], self.max_bits as nat) <= v
                < code_start(self.entries@[k], self.max_bits as nat) + code_span(
                self.entries@[k],
                self.max_bits as nat,
            ) ==> self.decode_table@[v] == (self.entries@[k].code_len, self.entries@[k].symbol)
    }

    pub proof fn lemma_wf(&self)
        requires
            self.wf(),
        ensures
            1 <= self.max_len() <= 11,
            tiles(self.codes(), self.max_len()),
    {
    }

    /// Builds one of the predefined tables.
    pub fn build(table_index: usize) -> (r: Self)
        requires
            table_index < 6,
        ensures
            r.wf(),
            r.codes() == nikon_codes(table_index as int),
            r.max_len() == longest_upto(table_index as int, 16),
    {
        let ghost t = table_index as int;
        let code_lengths = &NIKON_TREE[table_index][0];
        let symbols = &NIKON_TREE[table_index][1];
        let mut entries: Vec<HuffEntry> = Vec::new();
        let mut code: u32 = 0;
        let mut sym_idx: usize = 0;
        let mut max_bits: u8 = 0;
        let mut bit_len: u8 = 1;
        proof {
            lemma_table(t);
        }
        while bit_len <= 16
            invariant
                t == table_index,
                table_index < 6,
                code_lengths@ == counts(t),
                symbols@ == self::symbols(t),
                1 <= bit_len <= 17,
                entries@ == codes_upto(t, (bit_len - 1) as nat),
                sym_idx == codes_within(t, (bit_len - 1) as nat),
                code == first_code(t, bit_len as nat),
                max_bits == longest_upto(t, (bit_len - 1) as nat),
            decreases 17 - bit_len,
        {
            let count = code_lengths[(bit_len - 1) as usize];
            let mut j: u8 = 0;
            proof {
                lemma_table(t);
                lemma_first_code_monotone(t, (bit_len + 1) as nat, 17);
                lemma_codes_within_monotone(t, bit_len as nat, 16);
                assert(codes_of_len(t, bit_len as nat).take(0) =~= Seq::empty());
                assert(codes_upto(t, (bit_len - 1) as nat) + Seq::empty() =~= codes_upto(
                    t,
                    (bit_len - 1) as nat,
                ));
            }
            while j < count
                invariant
                    t == table_index,
                    table_index < 6,
                    symbols@ == self::symbols(t),
                    1 <= bit_len <= 16,
                    count == counts(t)[bit_len - 1],
                    0 <= j <= count,
                    codes_within(t, bit_len as nat) <= 15,
                    first_code(t, bit_len as nat) + count <= 65536,
                    entries@ == codes_upto(t, (bit_len - 1) as nat) + codes_of_len(
                        t,
                        bit_len as nat,
                    ).take(j as int),
                    sym_idx == codes_within(t, (bit_len - 1) as nat) + j,
                    code == first_code(t, bit_len as nat) + j,
                    max_bits == if j == 0 {
                        longest_upto(t, (bit_len - 1) as nat)
                    } else {
                        bit_len as nat
                    },
                decreases count - j,
            {
                entries.push(
                    HuffEntry { symbol: symbols[sym_idx], code: code as u16, code_len: bit_len },
                );
                proof {
                    let n = codes_of_len(t, bit_len as nat);
                    assert(entries@.last() == n[j as int]);
                    assert(n.take(j + 1) =~= n.take(j as int).push(n[j as int]));
                    assert(entries@ =~= codes_upto(t, (bit_len - 1) as nat) + n.take(j + 1));
                }
                sym_idx = sym_idx + 1;
                code = code + 1;
                max_bits = bit_len;
                j = j + 1;
            }
            proof {
                let n = codes_of_len(t, bit_len as nat);
                assert(n.take(count as int) =~= n);
            }
            code = code * 2;
            bit_len = bit_len + 1;
        }
        proof {
            lemma_nikon_codes_tile(t);
        }
        let decode_table = prefix_table(&entries, max_bits);
        HuffTable { entries, decode_table, max_bits }
    }

    /// The first entry of `symbol`, if the table has one.
    pub fn find_entry_for_symbol(&self, symbol: u8) -> (r: Option<&HuffEntry>)
        ensures
            r == (if symbol_index(self.codes(), symbol as nat) < self.codes().len() {
                Some(&self.codes()[symbol_index(self.codes(), symbol as nat)])
            } else {
                None
            }),
    {
        let mut k: usize = 0;
        while k < self.entries.len()
            invariant
                0 <= k <= self.entries@.len(),
                forall|j: int| 0 <= j < k ==> (#[trigger] self.entries@[j]).symbol != symbol,
            decreases self.entries@.len() - k,
        {
            if self.entries[k].symbol == symbol {
                proof {
                    lemma_symbol_index_unique(self.entries@, symbol as nat, k as int);
                }
                return Some(&self.entries[k]);
            }
            k = k + 1;
        }
        proof {
            lemma_symbol_index_unique(self.entries@, symbol as nat, k as int);
        }
        None
    }

    /// The length of the longest code.
    pub fn max_bits(&self) -> (r: u8)
        ensures
            r == self.max_len(),
    {
        self.max_bits
    }

    /// The length and the symbol of the code that the `max_bits` bits `word` start with.
    pub fn lookup(&self, word: u32) -> (r: (u8, u8))
        requires
            self.wf(),
            word < pow2(self.max_len()),
        ensures
            exists|k: int|
                #![trigger self.codes()[k]]
                0 <= k < self.codes().len() && code_start(self.codes()[k], self.max_len()) <= word
                    < code_start(self.codes()[k], self.max_len()) + code_span(
                    self.codes()[k],
                    self.max_len(),
                ) && r == (self.codes()[k].code_len, self.codes()[k].symbol),
    {
        proof {
            let k = lemma_tiles_cover(
                self.entries@,
                self.max_bits as nat,
                word as nat,
                self.entries@.len() as int,
            );
            assert(self.entries@[k] == self.codes()[k]);
            assert(self.decode_table@[word as int] == (
                self.codes()[k].code_len,
                self.codes()[k].symbol,
            ));
        }
        self.decode_table[word as usize]
    }
}

/// The number of binary digits of `v`.
pub open spec fn bit_length(v: nat) -> nat
    decreases v,
{
    if v == 0 {
        0
    } else {
        1 + bit_length(v / 2)
    }
}

/// `v` has `n` binary digits exactly if it lies in that power-of-two range.
pub proof fn lemma_bit_length(v: nat, n: nat)
    requires
        v < pow2(n),
        n > 0 ==> pow2((n - 1) as nat) <= v,
    ensures
        bit_length(v) == n,
    decreases n,
{
    lemma2_to64();
    if n == 0 {
    } else if n == 1 {
        assert(bit_length(0) == 0);
    } else {
        lemma_pow2_unfold(n);
        lemma_pow2_unfold((n - 1) as nat);
        lemma_pow2_pos((n - 1) as nat);
        lemma_bit_length(v / 2, (n - 1) as nat);
    }
}

/// A number lies below the power of two of its length, and not below the one before.
pub proof fn lemma_bit_length_range(v: nat)
    ensures
        v < pow2(bit_length(v)),
        v > 0 ==> pow2((bit_length(v) - 1) as nat) <= v,
        v > 0 <==> bit_length(v) > 0,
    decreases v,
{
    lemma2_to64();
    if v > 0 {
        lemma_bit_length_range(v / 2);
        lemma_pow2_unfold(bit_length(v));
        if v >= 2 {
            lemma_pow2_unfold((bit_length(v) - 1) as nat);
        }
    }
}

/// Numbers below a power of two have no more digits.
pub proof fn lemma_bit_length_bound(v: nat, n: nat)
    requires
        v < pow2(n),
    ensures
        bit_length(v) <= n,
{
    lemma_bit_length_range(v);
    if bit_length(v) > n {
        if n < bit_length(v) - 1 {
            lemma_pow2_strictly_increases(n, (bit_length(v) - 1) as nat);
        }
    }
}

/// The number of binary digits of `v`.
pub fn bits_needed(v: u32) -> (r: u32)
    ensures
        r == bit_length(v as nat),
        r <= 32,
{
    let mut n: u32 = 0;
    let mut rest: u32 = v;
    proof {
        lemma2_to64();
        lemma_bit_length_bound(v as nat, 32);
    }
    while rest > 0
        invariant
            n + bit_length(rest as nat) == bit_length(v as nat),
            bit_length(v as nat) <= 32,
        decreases rest,
    {
        proof {
            lemma_bit_length_range(rest as nat);
        }
        rest = rest / 2;
        n = n + 1;
    }
    n
}

/// The difference that `n` extra bits stand for: a value whose first digit is zero is negative.
pub open spec fn extended(extra: nat, n: nat) -> int {
    if n == 0 {
        0
    } else if extra < pow2((n - 1) as nat) {
        extra - (pow2(n) - 1)
    } else {
        extra as int
    }
}

/// The extra bits of difference `d` in a category of `n` bits.
pub open spec fn extra_bits(d: int, n: nat) -> nat {
    if d < 0 {
        (d + pow2(n) - 1) as nat
    } else {
        d as nat
    }
}

/// The number of digits of the magnitude of a difference.
pub open spec fn category(d: int) -> nat {
    bit_length(if d < 0 {
        -d as nat
    } else {
        d as nat
    })
}

/// The difference that is coded in the stream at `pos` and the number of bits of
/// its code: a code word whose symbol gives in its low four bits the number of
/// extra bits that follow.
pub open spec fn decoded_diff(codes: Seq<HuffEntry>, s: Seq<bool>, pos: nat) -> (int, nat) {
    let e = codes[code_at(codes, s, pos)];
    let n = (e.symbol % 16) as nat;
    (extended(peek(s, pos + e.code_len as nat, n), n), e.code_len as nat + n)
}

/// The code of difference `d`: the first code word whose symbol is the category
/// of `d`, and the extra bits. The category itself if no symbol is equal to it.
pub open spec fn encoded_diff(codes: Seq<HuffEntry>, d: int) -> Result<Seq<bool>, nat> {
    let n = category(d);
    let k = symbol_index(codes, n);
    if k < codes.len() {
        Ok(
            value_bits(codes[k].code as nat, codes[k].code_len as nat) + value_bits(
                extra_bits(d, n),
                n,
            ),
        )
    } else {
        Err(n)
    }
}

/// The stream `s` holds the bits `b` from position `pos` on.
pub open spec fn holds_at(s: Seq<bool>, pos: nat, b: Seq<bool>) -> bool {
    forall|i: int| 0 <= i < b.len() ==> bit_at(s, pos + i) == #[trigger] b[i]
}

/// Extra bits fit in their category and extend to the difference they came from.
pub proof fn lemma_extra_bits(d: int)
    ensures
        extra_bits(d, category(d)) < pow2(category(d)),
        extended(extra_bits(d, category(d)), category(d)) == d,
{
    let n = category(d);
    let m: nat = if d < 0 {
        -d as nat
    } else {
        d as nat
    };
    lemma_bit_length_range(m);
    lemma2_to64();
    if n > 0 {
        lemma_pow2_unfold(n);
    }
}

/// Every choice of extra bits comes from the difference it extends to.
pub proof fn lemma_extended(extra: nat, n: nat)
    requires
        extra < pow2(n),
    ensures
        category(extended(extra, n)) == n,
        extra_bits(extended(extra, n), n) == extra,
{
    lemma2_to64();
    let d = extended(extra, n);
    if n > 0 {
        lemma_pow2_unfold(n);
        lemma_pow2_pos((n - 1) as nat);
    }
    lemma_bit_length(
        if d < 0 {
            -d as nat
        } else {
            d as nat
        },
        n,
    );
}

/// Codes fit in their lengths.
pub proof fn lemma_code_fits(codes: Seq<HuffEntry>, max: nat, k: int)
    requires
        tiles(codes, max),
        0 <= k < codes.len(),
    ensures
        codes[k].code < pow2(codes[k].code_len as nat),
{
    let e = codes[k];
    let r = (max - e.code_len) as nat;
    if k < codes.len() - 1 {
        lemma_tiles_ordered(codes, max, k, codes.len() - 1);
    }
    lemma_pow2_pos(r);
    lemma_pow2_pos((max - codes.last().code_len) as nat);
    lemma_pow2_adds(e.code_len as nat, r);
    let p = pow2(r) as int;
    let q = pow2(e.code_len as nat) as int;
    let c = e.code as int;
    assert(c * p + p <= q * p);
    assert(c < q) by (nonlinear_arith)
        requires
            c * p + p <= q * p,
            p > 0,
    ;
}

/// Where the code of a difference of at most 15 bits stands, that difference is
/// decoded, and exactly its code is consumed.
pub proof fn lemma_decode_encoded_diff(
    codes: Seq<HuffEntry>,
    max: nat,
    d: int,
    s: Seq<bool>,
    pos: nat,
)
    requires
        tiles(codes, max),
        category(d) < 16,
        encoded_diff(codes, d) is Ok,
        holds_at(s, pos, encoded_diff(codes, d)->Ok_0),
    ensures
        decoded_diff(codes, s, pos) == (d, encoded_diff(codes, d)->Ok_0.len()),
{
    let n = category(d);
    let k = symbol_index(codes, n);
    let e = codes[k];
    let l = e.code_len as nat;
    let x = extra_bits(d, n);
    let b = encoded_diff(codes, d)->Ok_0;
    let head = value_bits(e.code as nat, l);
    let rest = value_bits(x, n);
    lemma_symbol_index(codes, n);
    lemma_code_fits(codes, max, k);
    lemma_value_bits_len(e.code as nat, l);
    lemma_value_bits_len(x, n);
    lemma_extra_bits(d);
    assert(b == head + rest);
    assert forall|i: int| 0 <= i < l implies bit_at(s, pos + i) == #[trigger] head[i] by {
        assert(b[i] == head[i]);
    }
    lemma_peek_value_bits(s, pos, e.code as nat, l);
    lemma_code_at(codes, max, s, pos, k);
    assert forall|i: int| 0 <= i < n implies bit_at(s, (pos + l) + i) == #[trigger] rest[i] by {
        assert(b[l + i] == rest[i]);
        assert(pos + (l + i) == (pos + l) + i);
    }
    lemma_peek_value_bits(s, pos + l, x, n);
}

/// No two codes have the same symbol, and every symbol is a plain category.
pub open spec fn plain(codes: Seq<HuffEntry>) -> bool {
    &&& forall|k: int| 0 <= k < codes.len() ==> (#[trigger] codes[k]).symbol < 16
    &&& forall|j: int, k: int|
        0 <= j < k < codes.len() ==> (#[trigger] codes[j]).symbol != (#[trigger] codes[k]).symbol
}

/// With a plain table the decoded difference is encoded again by the very bits
/// that it was decoded from.
#[verifier::spinoff_prover]
#[verifier::rlimit(60)]
pub proof fn lemma_encode_decoded_diff(codes: Seq<HuffEntry>, max: nat, s: Seq<bool>, pos: nat)
    requires
        tiles(codes, max),
        plain(codes),
    ensures
        encoded_diff(codes, decoded_diff(codes, s, pos).0) == Ok::<Seq<bool>, nat>(
            Seq::new(decoded_diff(codes, s, pos).1, |i: int| bit_at(s, pos + i)),
        ),
{
    let k = code_at(codes, s, pos);
    lemma_code_at_exists(codes, max, s, pos);
    let e = codes[k];
    let l = e.code_len as nat;
    let n = (e.symbol % 16) as nat;
    let x = peek(s, pos + l, n);
    lemma_peek_bound(s, pos + l, n);
    lemma_extended(x, n);
    lemma_symbol_index_unique(codes, n, k);
    lemma_value_bits_peek(s, pos, l);
    lemma_value_bits_peek(s, pos + l, n);
    assert(value_bits(e.code as nat, l) + value_bits(x, n) =~= Seq::new(
        l + n,
        |i: int| bit_at(s, pos + i),
    ));
}

proof fn lemma_nikon_symbols(t: int)
    requires
        t == 2 || t == 3 || t == 5,
    ensures
        plain(nikon_codes(t)),
{
    lemma_nikon_symbol_order(t, 16);
    lemma_codes_upto_len(t, 16);
    lemma_table(t);
    reveal_with_fuel(codes_within, 17);
    assert(codes_within(2, 16) == 13);
    assert(codes_within(3, 16) == 15);
    assert(codes_within(5, 16) == 15);
}

/// The symbols stand in the order of the table.
proof fn lemma_nikon_symbol_order(t: int, l: nat)
    ensures
        forall|k: int|
            0 <= k < codes_upto(t, l).len() ==> (#[trigger] codes_upto(t, l)[k]).symbol == symbols(
                t,
            )[k],
    decreases l,
{
    if l > 0 {
        let m = (l - 1) as nat;
        lemma_nikon_symbol_order(t, m);
        lemma_codes_upto_len(t, m);
        assert forall|k: int| 0 <= k < codes_upto(t, l).len() implies (#[trigger] codes_upto(
            t,
            l,
        )[k]).symbol == symbols(t)[k] by {
            if k < codes_upto(t, m).len() {
                assert(codes_upto(t, l)[k] == codes_upto(t, m)[k]);
            } else {
                assert(codes_upto(t, l)[k] == codes_of_len(t, l)[k - codes_upto(t, m).len()]);
            }
        }
    }
}

/// The lossless tables and the 14-bit lossy table are plain.
pub proof fn lemma_plain_tables()
    ensures
        plain(nikon_codes(2)),
        plain(nikon_codes(3)),
        plain(nikon_codes(5)),
{
    lemma_nikon_symbols(2);
    lemma_nikon_symbols(3);
    lemma_nikon_symbols(5);
}

/// The lossless tables code every difference of two samples of their bit depth.
pub proof fn lemma_lossless_tables_complete(t: int, d: int)
    requires
        t == 2 && -4096 < d < 4096 || t == 5 && -16384 < d < 16384,
    ensures
        encoded_diff(nikon_codes(t), d) is Ok,
{
    let m: nat = if d < 0 {
        -d as nat
    } else {
        d as nat
    };
    let n = category(d);
    lemma2_to64();
    lemma_bit_length_bound(
        m,
        if t == 2 {
            12
        } else {
            14
        },
    );
    let c = nikon_codes(t);
    lemma_nikon_symbol_order(t, 16);
    lemma_codes_upto_len(t, 16);
    reveal_with_fuel(codes_within, 17);
    assert(codes_within(2, 16) == 13);
    assert(codes_within(5, 16) == 15);
    lemma_symbol_index(c, n);
    if symbol_index(c, n) == c.len() {
        if t == 2 {
            assert(c.len() == 13);
            assert(c[0].symbol == 5 && c[1].symbol == 4 && c[2].symbol == 6 && c[3].symbol == 3);
            assert(c[4].symbol == 7 && c[5].symbol == 2 && c[6].symbol == 8 && c[7].symbol == 1);
            assert(c[8].symbol == 9 && c[9].symbol == 0 && c[10].symbol == 10);
            assert(c[11].symbol == 11 && c[12].symbol == 12);
        } else {
            assert(c.len() == 15);
            assert(c[0].symbol == 7 && c[1].symbol == 6 && c[2].symbol == 8 && c[3].symbol == 5);
            assert(c[4].symbol == 9 && c[5].symbol == 4 && c[6].symbol == 10 && c[7].symbol == 3);
            assert(c[8].symbol == 11 && c[9].symbol == 12 && c[10].symbol == 2);
            assert(c[11].symbol == 0 && c[12].symbol == 1 && c[13].symbol == 13);
            assert(c[14].symbol == 14);
        }
        assert(false);
    }
}

/// No table has a code for a magnitude of 16 digits.
pub proof fn lemma_no_code_16(t: int)
    requires
        0 <= t < 6,
    ensures
        symbol_index(nikon_codes(t), 16) == nikon_codes(t).len(),
{
    let c = nikon_codes(t);
    lemma_nikon_symbol_order(t, 16);
    lemma_codes_upto_len(t, 16);
    lemma_table(t);
    lemma_symbol_index(c, 16);
    let k = symbol_index(c, 16);
    if k < c.len() {
        assert(c[k].symbol == symbols(t)[k]);
    }
}

/// A decoded difference has at most 15 digits.
pub proof fn lemma_decoded_diff_range(t: int, s: Seq<bool>, pos: nat)
    requires
        0 <= t < 6,
    ensures
        -32768 < decoded_diff(nikon_codes(t), s, pos).0 < 32768,
        1 <= decoded_diff(nikon_codes(t), s, pos).1 <= 26,
{
    let codes = nikon_codes(t);
    lemma_nikon_codes_tile(t);
    lemma_code_at_exists(codes, longest_upto(t, 16), s, pos);
    let e = codes[code_at(codes, s, pos)];
    let n = (e.symbol % 16) as nat;
    lemma_peek_bound(s, pos + e.code_len as nat, n);
    lemma_pow2_pos(n);
    if n < 15 {
        lemma_pow2_strictly_increases(n, 15);
    }
    lemma2_to64();
}

/// No code of a difference is longer: at most 11 bits for its category, and 15 more.
pub const MAX_DIFF_BITS: u32 = 26;

/// Reads one difference. Never fails: some code word stands at every place.
pub fn huff_decode_diff(bits: &mut BitReader, ht: &HuffTable) -> (r: Result<i32, String>)
    requires
        old(bits).wf(),
        ht.wf(),
        old(bits).pos() + MAX_DIFF_BITS <= u128::MAX,
    ensures
        final(bits).wf(),
        final(bits).stream() == old(bits).stream(),
        r is Ok,
        r->Ok_0 == decoded_diff(ht.codes(), old(bits).stream(), old(bits).pos()).0,
        -32768 < r->Ok_0 < 32768,
        final(bits).pos() == old(bits).pos() + decoded_diff(
            ht.codes(),
            old(bits).stream(),
            old(bits).pos(),
        ).1,
        final(bits).pos() <= old(bits).pos() + MAX_DIFF_BITS,
{
    let ghost s = bits.stream();
    let ghost pos = bits.pos();
    let ghost codes = ht.codes();
    let ghost max = ht.max_len();
    proof {
        ht.lemma_wf();
        lemma_peek_bound(s, pos, max);
    }
    let code = bits.peek_bits(ht.max_bits() as u32);
    let (code_len, symbol) = ht.lookup(code);
    proof {
        let k = choose|k: int|
            #![trigger codes[k]]
            0 <= k < codes.len() && code_start(codes[k], max) <= code < code_start(codes[k], max)
                + code_span(codes[k], max) && (code_len, symbol) == (
                codes[k].code_len,
                codes[k].symbol,
            );
        lemma_code_words(codes[k], max, s, pos);
        lemma_code_at(codes, max, s, pos, k);
    }
    bits.consume_bits(code_len as u32);
    let len: u32 = (symbol % 16) as u32;
    if len == 0 {
        return Ok(0);
    }
    let extra = bits.get_bits(len);
    proof {
        lemma_peek_bound(s, pos + code_len as nat, len as nat);
        lemma_pow2_unfold(len as nat);
        lemma_pow2_pos((len - 1) as nat);
        if len < 15 {
            lemma_pow2_strictly_increases(len as nat, 15);
        }
        lemma2_to64();
        lemma_u32_shl_is_mul(1u32, (len - 1) as u32);
    }
    let half: u32 = 1u32 << (len - 1);
    let diff: i32 = if extra < half {
        extra as i32 - (2 * half as i32 - 1)
    } else {
        extra as i32
    };
    Ok(diff)
}

/// The message for a difference whose category the table lacks.
pub open spec fn no_code_message(n: nat) -> Seq<char> {
    "Huffman: no code for difference category "@ + decimal(n) + ""@
}

/// Writes one difference. Writes nothing and fails if the table has no code for its category.
pub fn encode_diff(writer: &mut BitWriter, ht: &HuffTable, diff: i32) -> (r: Result<(), String>)
    requires
        old(writer).wf(),
        ht.wf(),
    ensures
        final(writer).wf(),
        match encoded_diff(ht.codes(), diff as int) {
            Ok(b) => r is Ok && final(writer).bits() == old(writer).bits() + b,
            Err(n) => r is Err && r->Err_0@ == no_code_message(n) && final(writer).bits() == old(
                writer,
            ).bits(),
        },
{
    let magnitude: u32 = if diff < 0 {
        (-(diff as i64)) as u32
    } else {
        diff as u32
    };
    let len = bits_needed(magnitude);
    let ghost codes = ht.codes();
    proof {
        ht.lemma_wf();
        lemma_symbol_index(codes, len as nat);
        lemma_extra_bits(diff as int);
        lemma_pow2_pos(len as nat);
        if len < 32 {
            lemma_pow2_strictly_increases(len as nat, 32);
        }
        lemma2_to64();
        lemma_u64_shl_is_mul(1u64, len as u64);
    }
    match ht.find_entry_for_symbol(len as u8) {
        Some(entry) => {
            proof {
                lemma_code_fits(codes, ht.max_len(), symbol_index(codes, len as nat));
                if entry.code_len < 16 {
                    lemma_pow2_strictly_increases(entry.code_len as nat, 16);
                }
            }
            let all: u64 = 1u64 << (len as u64);
            let extra: u32 = if diff < 0 {
                (diff as i64 + all as i64 - 1) as u32
            } else {
                diff as u32
            };
            let ghost before = writer.bits();
            writer.write_bits(entry.code as u32, entry.code_len);
            writer.write_bits(extra, len as u8);
            assert(writer.bits() =~= before + encoded_diff(codes, diff as int)->Ok_0);
            Ok(())
        },
        None => Err(with_number("Huffman: no code for difference category ", len as u128, "")),
    }
}

proof fn lemma_codes_within_monotone(t: int, a: nat, b: nat)
    requires
        a <= b,
    ensures
        codes_within(t, a) <= codes_within(t, b),
    decreases b,
{
    if a < b {
        lemma_codes_within_monotone(t, a, (b - 1) as nat);
    }
}

/// Code `k` of table `t` among those of its length.
proof fn lemma_entry(t: int, l: nat, m: nat, j: int)
    requires
        1 <= l <= m,
        0 <= j < counts(t)[l - 1],
    ensures
        codes_within(t, (l - 1) as nat) + j < codes_upto(t, m).len(),
        codes_upto(t, m)[codes_within(t, (l - 1) as nat) + j] == codes_of_len(t, l)[j],
    decreases m,
{
    lemma_codes_upto_len(t, (m - 1) as nat);
    if l < m {
        lemma_entry(t, l, (m - 1) as nat, j);
    }
}

/// The code words of table `t` have the given lengths and symbols, in the order of
/// the words.
pub open spec fn has_codes(t: int, lengths: Seq<int>, symbols: Seq<int>) -> bool {
    &&& nikon_codes(t).len() == lengths.len()
    &&& nikon_codes(t).len() == symbols.len()
    &&& forall|k: int|
        0 <= k < lengths.len() ==> (#[trigger] nikon_codes(t)[k]).code_len == lengths[k]
            && nikon_codes(t)[k].symbol == symbols[k]
}

/// The lengths of the code words of a table follow from how many there are of each.
proof fn lemma_code_len(t: int, k: int, l: nat)
    requires
        1 <= l <= 16,
        codes_within(t, (l - 1) as nat) <= k < codes_within(t, l),
    ensures
        nikon_codes(t)[k].code_len == l,
{
    lemma_entry(t, l, 16, k - codes_within(t, (l - 1) as nat));
}

#[verifier::spinoff_prover]
#[verifier::rlimit(60)]
proof fn lemma_codes_12(t: int)
    requires
        t == 0 || t == 1 || t == 2,
    ensures
        t == 0 ==> has_codes(
            t,
            seq![2, 3, 3, 3, 3, 3, 4, 5, 6, 7, 8, 9, 10, 10],
            seq![5, 4, 3, 6, 2, 7, 1, 0, 8, 9, 11, 10, 12, 0],
        ),
        t == 1 ==> has_codes(
            t,
            seq![2, 3, 3, 3, 3, 3, 4, 5, 6, 7, 8, 9, 10, 10],
            seq![0x39, 0x5a, 0x38, 0x27, 0x16, 5, 4, 3, 2, 1, 0, 11, 12, 0],
        ),
        t == 2 ==> has_codes(
            t,
            seq![2, 3, 3, 3, 3, 4, 4, 5, 5, 5, 6, 7, 7],
            seq![5, 4, 6, 3, 7, 2, 8, 1, 9, 0, 10, 11, 12],
        ),
{
    lemma_nikon_symbol_order(t, 16);
    lemma_codes_upto_len(t, 16);
    reveal_with_fuel(codes_within, 17);
    lemma_code_len_all(t);
}

#[verifier::spinoff_prover]
#[verifier::rlimit(60)]
proof fn lemma_codes_14(t: int)
    requires
        t == 3 || t == 4 || t == 5,
    ensures
        t == 3 ==> has_codes(
            t,
            seq![2, 3, 3, 3, 3, 4, 4, 4, 5, 6, 7, 8, 9, 10, 10],
            seq![5, 6, 4, 7, 8, 3, 9, 2, 1, 0, 10, 11, 12, 13, 14],
        ),
        t == 4 ==> has_codes(
            t,
            seq![2, 3, 3, 3, 3, 3, 4, 5, 6, 7, 8, 9, 10, 11, 11],
            seq![8, 0x5c, 0x4b, 0x3a, 0x29, 7, 6, 5, 4, 3, 2, 1, 0, 13, 14],
        ),
        t == 5 ==> has_codes(
            t,
            seq![2, 3, 3, 3, 3, 4, 4, 5, 5, 6, 6, 6, 7, 8, 8],
            seq![7, 6, 8, 5, 9, 4, 10, 3, 11, 12, 2, 0, 1, 13, 14],
        ),
{
    lemma_nikon_symbol_order(t, 16);
    lemma_codes_upto_len(t, 16);
    reveal_with_fuel(codes_within, 17);
    lemma_code_len_all(t);
}

proof fn lemma_code_len_all(t: int)
    ensures
        forall|k: int, l: nat|
            #![trigger nikon_codes(t)[k], codes_within(t, l)]
            1 <= l <= 16 && codes_within(t, (l - 1) as nat) <= k < codes_within(t, l)
                ==> nikon_codes(t)[k].code_len == l,
{
    assert forall|k: int, l: nat|
        #![trigger nikon_codes(t)[k], codes_within(t, l)]
        1 <= l <= 16 && codes_within(t, (l - 1) as nat) <= k < codes_within(
            t,
            l,
        ) implies nikon_codes(t)[k].code_len == l by {
        lemma_code_len(t, k, l);
    }
}

/// The six codes: the lengths of the words and what they stand for.
pub proof fn lemma_nikon_tables()
    ensures
        has_codes(
            0,
            seq![2, 3, 3, 3, 3, 3, 4, 5, 6, 7, 8, 9, 10, 10],
            seq![5, 4, 3, 6, 2, 7, 1, 0, 8, 9, 11, 10, 12, 0],
        ),
        has_codes(
            1,
            seq![2, 3, 3, 3, 3, 3, 4, 5, 6, 7, 8, 9, 10, 10],
            seq![0x39, 0x5a, 0x38, 0x27, 0x16, 5, 4, 3, 2, 1, 0, 11, 12, 0],
        ),
        has_codes(
            2,
            seq![2, 3, 3, 3, 3, 4, 4, 5, 5, 5, 6, 7, 7],
            seq![5, 4, 6, 3, 7, 2, 8, 1, 9, 0, 10, 11, 12],
        ),
        has_codes(
            3,
            seq![2, 3, 3, 3, 3, 4, 4, 4, 5, 6, 7, 8, 9, 10, 10],
            seq![5, 6, 4, 7, 8, 3, 9, 2, 1, 0, 10, 11, 12, 13, 14],
        ),
        has_codes(
            4,
            seq![2, 3, 3, 3, 3, 3, 4, 5, 6, 7, 8, 9, 10, 11, 11],
            seq![8, 0x5c, 0x4b, 0x3a, 0x29, 7, 6, 5, 4, 3, 2, 1, 0, 13, 14],
        ),
        has_codes(
            5,
            seq![2, 3, 3, 3, 3, 4, 4, 5, 5, 6, 6, 6, 7, 8, 8],
            seq![7, 6, 8, 5, 9, 4, 10, 3, 11, 12, 2, 0, 1, 13, 14],
        ),
{
    lemma_codes_12(0);
    lemma_codes_12(1);
    lemma_codes_12(2);
    lemma_codes_14(3);
    lemma_codes_14(4);
    lemma_codes_14(5);
}

/// Words of equal length count up from zero, and a longer word is the successor of
/// the last shorter one, with zeros behind it.
pub proof fn lemma_nikon_words(t: int, k: int)
    requires
        0 <= t < 6,
        0 <= k < nikon_codes(t).len(),
    ensures
        k == 0 ==> nikon_codes(t)[k].code == 0,
        k > 0 ==> {
            let (e, f) = (nikon_codes(t)[k - 1], nikon_codes(t)[k]);
            &&& f.code_len >= e.code_len
            &&& f.code == (e.code + 1) * pow2((f.code_len - e.code_len) as nat)
        },
{
    lemma_nikon_codes_tile(t);
    let max = longest_upto(t, 16);
    let f = nikon_codes(t)[k];
    let r = (max - f.code_len) as nat;
    lemma_pow2_pos(r);
    let (p, b) = (pow2(r) as int, f.code as int);
    if k == 0 {
        assert(b == 0) by (nonlinear_arith)
            requires
                b * p == 0,
                p > 0,
        ;
    } else {
        let e = nikon_codes(t)[k - 1];
        lemma_lengths_ascend(t, 16, k);
        assert(code_start(f, max) == code_start(e, max) + code_span(e, max));
        let g = (f.code_len - e.code_len) as nat;
        lemma_pow2_adds(g, r);
        assert(g + r == max - e.code_len);
        let (q, a) = (pow2(g) as int, e.code as int);
        assert(b == (a + 1) * q) by (nonlinear_arith)
            requires
                b * p == a * (q * p) + q * p,
                p > 0,
        ;
    }
}

/// The lengths of the words ascend.
proof fn lemma_lengths_ascend(t: int, m: nat, k: int)
    requires
        m <= 16,
        0 < k < codes_upto(t, m).len(),
    ensures
        codes_upto(t, m)[k - 1].code_len <= codes_upto(t, m)[k].code_len,
        codes_upto(t, m)[k].code_len <= m,
    decreases m,
{
    if m > 0 {
        let d = codes_upto(t, (m - 1) as nat);
        if k < d.len() {
            lemma_lengths_ascend(t, (m - 1) as nat, k);
        } else if k == d.len() {
            lemma_length_bound(t, (m - 1) as nat, k - 1);
        }
    }
}

proof fn lemma_length_bound(t: int, m: nat, k: int)
    requires
        m <= 16,
        0 <= k < codes_upto(t, m).len(),
    ensures
        codes_upto(t, m)[k].code_len <= m,
    decreases m,
{
    if m > 0 && k < codes_upto(t, (m - 1) as nat).len() {
        lemma_length_bound(t, (m - 1) as nat, k);
    }
}

/// The code word `e` stands at `pos`, and the difference `d` of so many bits in
/// all is coded there: the low four bits of the symbol give the number of extra
/// bits. None stand for zero; otherwise the difference has exactly this number of
/// digits, is positive exactly if the first of them is set, and the extra bits are
/// its digits, or for a negative one what is missing up to all ones.
pub open spec fn codes_difference(e: HuffEntry, s: Seq<bool>, pos: nat, d: int, bits: nat) -> bool {
    let n = (e.symbol % 16) as nat;
    let at = pos + e.code_len as nat;
    &&& peek(s, pos, e.code_len as nat) == e.code
    &&& bits == e.code_len + n
    &&& n == 0 <==> d == 0
    &&& d > 0 ==> bit_at(s, at as int) && pow2((n - 1) as nat) <= d < pow2(n) && peek(s, at, n) == d
    &&& d < 0 ==> !bit_at(s, at as int) && pow2((n - 1) as nat) <= -d < pow2(n) && peek(s, at, n)
        == d + pow2(n) - 1
}

/// Every place of a stream holds exactly one code word of each table, and the
/// difference that is read there is the one that this word and the bits behind it
/// code.
#[verifier::spinoff_prover]
pub proof fn lemma_difference_read(t: int, s: Seq<bool>, pos: nat) -> (k: int)
    requires
        0 <= t < 6,
    ensures
        0 <= k < nikon_codes(t).len(),
        codes_difference(
            nikon_codes(t)[k],
            s,
            pos,
            decoded_diff(nikon_codes(t), s, pos).0,
            decoded_diff(nikon_codes(t), s, pos).1,
        ),
        forall|j: int|
            0 <= j < nikon_codes(t).len() && peek(
                s,
                pos,
                (#[trigger] nikon_codes(t)[j]).code_len as nat,
            ) == nikon_codes(t)[j].code ==> j == k,
{
    let codes = nikon_codes(t);
    let max = longest_upto(t, 16);
    lemma_nikon_codes_tile(t);
    lemma_code_at_exists(codes, max, s, pos);
    let k = code_at(codes, s, pos);
    assert forall|j: int|
        0 <= j < codes.len() && peek(s, pos, (#[trigger] codes[j]).code_len as nat)
            == codes[j].code implies j == k by {
        lemma_code_at(codes, max, s, pos, j);
    }
    let e = codes[k];
    let n = (e.symbol % 16) as nat;
    let at = pos + e.code_len as nat;
    if n > 0 {
        let m = (n - 1) as nat;
        lemma_peek_split(s, at, 1, m);
        lemma_peek_bound(s, at + 1, m);
        lemma_pow2_unfold(n);
        lemma_pow2_pos(m);
        lemma_peek_one(s, at);
        assert(1 + m == n);
        assert(0 * pow2(m) == 0 && 1 * pow2(m) == pow2(m));
        if bit_at(s, at as int) {
            assert(peek(s, at, n) == pow2(m) + peek(s, at + 1, m));
        } else {
            assert(peek(s, at, n) == peek(s, at + 1, m));
        }
    } else {
        lemma_peek_one(s, at);
    }
    k
}

/// A difference is coded by the first word whose whole symbol is the number of its
/// digits, followed by that many extra bits, and by nothing more. If no word has
/// that symbol the difference has no code, and the number of digits is reported.
#[verifier::spinoff_prover]
pub proof fn lemma_difference_written(t: int, d: int)
    requires
        0 <= t < 6,
        -0x1_0000 < d < 0x1_0000,
    ensures
        match encoded_diff(nikon_codes(t), d) {
            Ok(b) => exists|k: int|
                {
                    &&& 0 <= k < nikon_codes(t).len()
                    &&& codes_difference(#[trigger] nikon_codes(t)[k], b, 0, d, b.len())
                    &&& nikon_codes(t)[k].symbol < 16
                    &&& forall|j: int|
                        0 <= j < k ==> (#[trigger] nikon_codes(t)[j]).symbol != nikon_codes(
                            t,
                        )[k].symbol
                },
            Err(n) => {
                &&& n == 0 <==> d == 0
                &&& d > 0 ==> pow2((n - 1) as nat) <= d < pow2(n)
                &&& d < 0 ==> pow2((n - 1) as nat) <= -d < pow2(n)
                &&& forall|j: int|
                    0 <= j < nikon_codes(t).len() ==> (#[trigger] nikon_codes(t)[j]).symbol != n
            },
        },
{
    let codes = nikon_codes(t);
    let max = longest_upto(t, 16);
    let n = category(d);
    let k = symbol_index(codes, n);
    lemma_symbol_index(codes, n);
    let m: nat = if d < 0 {
        -d as nat
    } else {
        d as nat
    };
    lemma2_to64();
    lemma_bit_length_range(m);
    lemma_bit_length_bound(m, 16);
    if k < codes.len() {
        let b = encoded_diff(codes, d)->Ok_0;
        let e = codes[k];
        let l = e.code_len as nat;
        lemma_nikon_codes_tile(t);
        lemma_no_code_16(t);
        lemma_code_fits(codes, max, k);
        lemma_value_bits_len(e.code as nat, l);
        lemma_value_bits_len(extra_bits(d, n), n);
        assert(b == value_bits(e.code as nat, l) + value_bits(extra_bits(d, n), n));
        lemma_decode_encoded_diff(codes, max, d, b, 0);
        let j = lemma_difference_read(t, b, 0);
        lemma_peek_value_bits(b, 0, e.code as nat, l);
        assert(j == k);
    }
}

/// The longest word of each table is its last one.
pub proof fn lemma_longest_word(t: int)
    requires
        0 <= t < 6,
    ensures
        longest_upto(t, 16) == nikon_codes(t).last().code_len,
{
    lemma_nikon_codes_tile(t);
    let codes = nikon_codes(t);
    let max = longest_upto(t, 16);
    lemma_longest_some(t, 16);
    let j = choose|j: int| 0 <= j < codes.len() && (#[trigger] codes[j]).code_len == max;
    lemma_lengths_ordered(t, j, codes.len() - 1);
}

proof fn lemma_lengths_ordered(t: int, j: int, k: int)
    requires
        0 <= j <= k < nikon_codes(t).len(),
    ensures
        nikon_codes(t)[j].code_len <= nikon_codes(t)[k].code_len,
    decreases k,
{
    if j < k {
        lemma_lengths_ordered(t, j, k - 1);
        lemma_lengths_ascend(t, 16, k);
    }
}

proof fn lemma_longest_some(t: int, l: nat)
    requires
        0 <= t < 6,
        l <= 16,
    ensures
        longest_upto(t, l) > 0 ==> exists|j: int|
            0 <= j < codes_upto(t, l).len() && (#[trigger] codes_upto(t, l)[j]).code_len
                == longest_upto(t, l),
    decreases l,
{
    if l > 0 {
        let d = codes_upto(t, (l - 1) as nat);
        lemma_longest_some(t, (l - 1) as nat);
        if counts(t)[l - 1] > 0 {
            assert(codes_upto(t, l)[d.len() as int].code_len == l);
        } else if longest_upto(t, l) > 0 {
            let j = choose|j: int|
                0 <= j < d.len() && (#[trigger] d[j]).code_len == longest_upto(t, (l - 1) as nat);
            assert(codes_upto(t, l)[j] == d[j]);
        }
    }
}

} // verus!
