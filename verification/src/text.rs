//! Hexadecimal digits and the building of text from characters.
use vstd::prelude::*;

verus! {

/// The upper-case ASCII hexadecimal digit of `d` (below 16).
pub open spec fn hex_digit_spec(d: int) -> u8 {
    if d < 10 {
        (48 + d) as u8
    } else {
        (55 + d) as u8
    }
}

/// The value of an upper-case hexadecimal digit character, or `-1` for
/// any other byte.
pub open spec fn hex_digit_value(c: u8) -> int {
    if 48 <= c <= 57 {
        c - 48
    } else if 65 <= c <= 70 {
        c - 55
    } else {
        -1
    }
}

/// The digit of every value below 16 is an upper-case hexadecimal digit
/// (`0`-`9`, `A`-`F`) that reads back as that value, so distinct values
/// get distinct digits.
pub proof fn lemma_hex_digit_reads_back(d: int)
    requires
        0 <= d < 16,
    ensures
        (48 <= hex_digit_spec(d) <= 57) || (65 <= hex_digit_spec(d) <= 70),
        hex_digit_value(hex_digit_spec(d)) == d,
        d < 10 ==> hex_digit_spec(d) == 48 + d,
        d >= 10 ==> hex_digit_spec(d) == 65 + (d - 10),
{
}

/// Nibble `i` (0 = least significant) of `n`.
pub open spec fn nibble(n: u32, i: int) -> int {
    (n as int / pow16(i)) % 16
}

/// `16^i`.
pub open spec fn pow16(i: int) -> int
    decreases i,
{
    if i <= 0 {
        1
    } else {
        16 * pow16(i - 1)
    }
}

/// The eight hexadecimal digits of `n`, most significant first.
pub open spec fn hex_digits(n: u32) -> Seq<u8> {
    Seq::new(8, |k: int| hex_digit_spec(nibble(n, 7 - k)))
}

/// The number a string of hexadecimal digits reads as, most significant
/// digit first.
pub open spec fn hex_value_of(s: Seq<u8>) -> int
    decreases s.len(),
{
    if s.len() == 0 {
        0
    } else {
        16 * hex_value_of(s.drop_last()) + hex_digit_value(s.last())
    }
}

proof fn lemma_pow16_pos(i: int)
    ensures
        pow16(i) >= 1,
    decreases i,
{
    if i > 0 {
        lemma_pow16_pos(i - 1);
    }
}

proof fn lemma_hex_prefix_value(n: u32, k: int)
    requires
        0 <= k <= 8,
    ensures
        hex_value_of(hex_digits(n).take(k)) == n as int / pow16(8 - k),
    decreases k,
{
    if k == 0 {
        assert(hex_digits(n).take(0) =~= Seq::<u8>::empty());
        assert(pow16(8) == 4294967296) by {
            reveal_with_fuel(pow16, 9);
        }
    } else {
        lemma_hex_prefix_value(n, k - 1);
        let t = hex_digits(n).take(k);
        assert(t.drop_last() =~= hex_digits(n).take(k - 1));
        let p = pow16(8 - k);
        lemma_pow16_pos(8 - k);
        assert(pow16(9 - k) == 16 * p);
        let q = n as int / p;
        assert(q >= 0) by (nonlinear_arith)
            requires
                n >= 0,
                p >= 1,
                q == n as int / p,
        ;
        vstd::arithmetic::div_mod::lemma_div_denominator(n as int, p, 16);
        assert(p * 16 == 16 * p);
        vstd::arithmetic::div_mod::lemma_fundamental_div_mod(q, 16);
        assert(t.last() == hex_digit_spec(nibble(n, 8 - k)));
        lemma_hex_digit_reads_back(nibble(n, 8 - k));
    }
}

/// The eight digits of `n` read back as `n`: no two numbers are shown
/// alike, and every digit stands for its nibble.
pub proof fn lemma_hex_digits_read_back(n: u32)
    ensures
        hex_digits(n).len() == 8,
        hex_value_of(hex_digits(n)) == n,
{
    lemma_hex_prefix_value(n, 8);
    assert(hex_digits(n).take(8) =~= hex_digits(n));
}

/// The upper-case ASCII hexadecimal digit of `d`.
pub fn hex_digit(d: u32) -> (c: u8)
    requires
        d < 16,
    ensures
        c == hex_digit_spec(d as int),
{
    if d < 10 {
        48 + d as u8
    } else {
        65 + d as u8 - 10
    }
}

/// Appends a character to a string.
///
/// Calls `String::push`, which appends the given `char` to the end of
/// the string; the contract says just that.
#[verifier::external_body]
pub(crate) fn push_char(s: &mut String, c: char)
    ensures
        final(s)@ == old(s)@.push(c),
{
    s.push(c)
}

} // verus!
