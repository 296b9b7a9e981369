//! Numbers in messages.

use vstd::arithmetic::div_mod::lemma_mod_breakdown;
use vstd::arithmetic::power::{lemma_pow0, lemma_pow_positive, pow};
use vstd::prelude::*;
use vstd::string::StringExecFns;

verus! {

/// The character of a digit below sixteen, letters in upper case.
pub open spec fn digit(d: nat) -> char {
    if d < 10 {
        ('0' as nat + d) as char
    } else {
        ('A' as nat + (d - 10)) as char
    }
}

/// `n` in decimal.
pub open spec fn decimal(n: nat) -> Seq<char>
    decreases n,
{
    if n < 10 {
        seq![digit(n)]
    } else {
        decimal(n / 10).push(digit(n % 10))
    }
}

/// The last `width` digits of `n` in hexadecimal.
pub open spec fn hex(n: nat, width: nat) -> Seq<char>
    decreases width,
{
    if width == 0 {
        Seq::empty()
    } else {
        hex(n / 16, (width - 1) as nat).push(digit(n % 16))
    }
}

fn digit_str(d: u128) -> (r: &'static str)
    requires
        d < 16,
    ensures
        r@ == seq![digit(d as nat)],
{
    proof {
        reveal_strlit("0");
        reveal_strlit("1");
        reveal_strlit("2");
        reveal_strlit("3");
        reveal_strlit("4");
        reveal_strlit("5");
        reveal_strlit("6");
        reveal_strlit("7");
        reveal_strlit("8");
        reveal_strlit("9");
        reveal_strlit("A");
        reveal_strlit("B");
        reveal_strlit("C");
        reveal_strlit("D");
        reveal_strlit("E");
        reveal_strlit("F");
    }
    let r = match d {
        0 => "0",
        1 => "1",
        2 => "2",
        3 => "3",
        4 => "4",
        5 => "5",
        6 => "6",
        7 => "7",
        8 => "8",
        9 => "9",
        10 => "A",
        11 => "B",
        12 => "C",
        13 => "D",
        14 => "E",
        _ => "F",
    };
    assert(r@ =~= seq![digit(d as nat)]);
    r
}

/// `n` in decimal.
pub fn decimal_string(n: u128) -> (r: String)
    ensures
        r@ == decimal(n as nat),
    decreases n,
{
    if n < 10 {
        digit_str(n).to_string()
    } else {
        let mut s = decimal_string(n / 10);
        s.append(digit_str(n % 10));
        assert(s@ =~= decimal(n as nat));
        s
    }
}

/// The last `width` digits of `n` in hexadecimal.
pub fn hex_string(n: u128, width: u32) -> (r: String)
    ensures
        r@ == hex(n as nat, width as nat),
    decreases width,
{
    if width == 0 {
        String::new()
    } else {
        let mut s = hex_string(n / 16, width - 1);
        s.append(digit_str(n % 16));
        assert(s@ =~= hex(n as nat, width as nat));
        s
    }
}

/// `before`, then `n` in decimal, then `after`.
pub fn with_number(before: &str, n: u128, after: &str) -> (r: String)
    ensures
        r@ == before@ + decimal(n as nat) + after@,
{
    let mut s = before.to_string();
    s.append(decimal_string(n).as_str());
    s.append(after);
    s
}

/// `s` followed by `n` in decimal and by `after`.
pub fn then_number(s: String, n: u128, after: &str) -> (r: String)
    ensures
        r@ == s@ + decimal(n as nat) + after@,
{
    let mut t = s;
    t.append(decimal_string(n).as_str());
    t.append(after);
    t
}

/// The value of a digit: `0` to `9`, then `A` to `F`.
pub open spec fn digit_value(c: char) -> int {
    if '0' <= c <= '9' {
        c as int - 48
    } else {
        c as int - 55
    }
}

/// The number that digits of the given base stand for, the first the highest.
pub open spec fn text_value(s: Seq<char>, base: int) -> int
    decreases s.len(),
{
    if s.len() == 0 {
        0
    } else {
        base * text_value(s.drop_last(), base) + digit_value(s.last())
    }
}

proof fn lemma_digit(d: nat)
    requires
        d < 16,
    ensures
        digit_value(digit(d)) == d,
        d < 10 ==> '0' <= digit(d) <= '9',
        d >= 10 ==> 'A' <= digit(d) <= 'F',
        digit(d) == '0' ==> d == 0,
{
}

/// A number in decimal is read back as the number. It has digits only, and no zero in
/// front of other digits.
pub proof fn lemma_decimal(n: nat)
    ensures
        text_value(decimal(n), 10) == n,
        decimal(n).len() > 0,
        forall|i: int| 0 <= i < decimal(n).len() ==> '0' <= #[trigger] decimal(n)[i] <= '9',
        n > 0 ==> decimal(n)[0] != '0',
        n == 0 ==> decimal(n).len() == 1,
    decreases n,
{
    let s = decimal(n);
    lemma_digit(n % 10);
    if n < 10 {
        lemma_digit(n);
        assert(s.drop_last() =~= Seq::empty());
        assert(text_value(s.drop_last(), 10) == 0);
    } else {
        lemma_decimal(n / 10);
        assert(s.drop_last() =~= decimal(n / 10));
        assert(s[0] == decimal(n / 10)[0]);
        assert forall|i: int| 0 <= i < s.len() implies '0' <= #[trigger] s[i] <= '9' by {
            if i < s.len() - 1 {
                assert(s[i] == decimal(n / 10)[i]);
            }
        }
    }
}

/// A number below 256 in two digits of hexadecimal, and one below 65536 in four, is read
/// back as the number; letters are in upper case.
pub proof fn lemma_hex(n: nat, width: nat)
    ensures
        hex(n, width).len() == width,
        forall|i: int|
            0 <= i < width ==> '0' <= #[trigger] hex(n, width)[i] <= '9' || 'A' <= hex(n, width)[i]
                <= 'F',
        width == 2 && n < 256 ==> text_value(hex(n, width), 16) == n,
        width == 4 && n < 0x1_0000 ==> text_value(hex(n, width), 16) == n,
{
    lemma_hex_value(n, width);
    reveal(pow);
    reveal_with_fuel(pow, 5);
    if width == 2 && n < 256 {
        assert(pow(16, 2) == 256);
        assert(n % 256 == n);
    }
    if width == 4 && n < 0x1_0000 {
        assert(pow(16, 4) == 0x1_0000);
        assert(n % 0x1_0000 == n);
    }
}

proof fn lemma_hex_value(n: nat, width: nat)
    ensures
        hex(n, width).len() == width,
        forall|i: int|
            0 <= i < width ==> '0' <= #[trigger] hex(n, width)[i] <= '9' || 'A' <= hex(n, width)[i]
                <= 'F',
        text_value(hex(n, width), 16) == n as int % pow(16, width),
    decreases width,
{
    let s = hex(n, width);
    lemma_pow_positive(16, width);
    if width == 0 {
        lemma_pow0(16);
        assert(n as int % 1 == 0);
    } else {
        let m = (width - 1) as nat;
        lemma_hex_value(n / 16, m);
        lemma_digit(n % 16);
        assert(s.drop_last() =~= hex(n / 16, m));
        assert forall|i: int| 0 <= i < width implies '0' <= #[trigger] s[i] <= '9' || 'A' <= s[i]
            <= 'F' by {
            if i < width - 1 {
                assert(s[i] == hex(n / 16, m)[i]);
            }
        }
        let p = pow(16, m);
        lemma_pow_positive(16, m);
        reveal(pow);
        assert(pow(16, width) == 16 * p);
        lemma_mod_breakdown(n as int, 16, p);
    }
}

} // verus!
