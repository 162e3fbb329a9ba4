//! What the console UART transmits for a string and for a hexadecimal
//! number.
use vstd::prelude::*;
use crate::text::{hex_digit, hex_digit_spec, hex_digits, hex_value_of, lemma_hex_digits_read_back, nibble, pow16};
use vstd::string::StringSliceAdditionalSpecFns;

verus! {

/// The bytes sent for `bytes`: every `\n` is preceded by a `\r`.
pub open spec fn crlf_bytes(bytes: Seq<u8>) -> Seq<u8>
    decreases bytes.len(),
{
    if bytes.len() == 0 {
        Seq::empty()
    } else {
        crlf_bytes(bytes.drop_last()) + if bytes.last() == 10 {
            seq![13u8, 10u8]
        } else {
            seq![bytes.last()]
        }
    }
}

/// The bytes to transmit for `s`, with `\r` put in front of each `\n`.
pub fn puts(s: &str) -> (out: Vec<u8>)
    ensures
        out@ == crlf_bytes(s.spec_bytes()),
{
    let bytes = s.as_bytes();
    let mut out: Vec<u8> = Vec::new();
    let mut i: usize = 0;
    assert(bytes@.take(0) =~= Seq::<u8>::empty());
    while i < bytes.len()
        invariant
            i <= bytes@.len(),
            out@ == crlf_bytes(bytes@.take(i as int)),
        decreases bytes.len() - i,
    {
        let b = bytes[i];
        if b == 10 {
            out.push(13);
        }
        out.push(b);
        proof {
            let t = bytes@.take(i + 1);
            assert(t.drop_last() =~= bytes@.take(i as int));
            assert(t.last() == b);
            if b == 10 {
                assert(out@ =~= crlf_bytes(bytes@.take(i as int)) + seq![13u8, 10u8]);
            } else {
                assert(out@ =~= crlf_bytes(bytes@.take(i as int)) + seq![b]);
            }
        }
        i += 1;
    }
    assert(bytes@.take(bytes@.len() as int) =~= bytes@);
    out
}

/// The eight upper-case hexadecimal digits of `n`, most significant
/// first.
pub fn hex(n: u32) -> (out: [u8; 8])
    ensures
        forall|k: int| 0 <= k < 8 ==> out@[k] == hex_digit_spec(nibble(n, 7 - k)),
        out@ == hex_digits(n),
        hex_value_of(out@) == n,
{
    let mut out = [0u8; 8];
    let mut k: usize = 0;
    while k < 8
        invariant
            k <= 8,
            out@.len() == 8,
            forall|j: int| 0 <= j < k ==> out@[j] == hex_digit_spec(nibble(n, 7 - j)),
        decreases 8 - k,
    {
        let i = 7 - k as u32;
        let nib = (n >> (i * 4)) & 0xF;
        proof {
            lemma_nibble_bits(n, i);
        }
        out[k] = hex_digit(nib);
        k += 1;
    }
    proof {
        assert(out@ =~= hex_digits(n));
        lemma_hex_digits_read_back(n);
    }
    out
}

/// The bits `4i..4i+4` of `n` are its nibble `i`.
pub proof fn lemma_nibble_bits(n: u32, i: u32)
    requires
        i < 8,
    ensures
        ((n >> (i * 4)) & 0xF) as int == nibble(n, i as int),
{
    assert(pow16(0) == 1);
    assert(pow16(1) == 16);
    assert(pow16(2) == 256);
    assert(pow16(3) == 4096);
    assert(pow16(4) == 65536);
    assert(pow16(5) == 1048576);
    assert(pow16(6) == 16777216);
    assert(pow16(7) == 268435456);
    if i == 0 {
        assert((n >> 0u32) & 0xFu32 == n % 16) by (bit_vector);
    } else if i == 1 {
        assert((n >> 4u32) & 0xFu32 == (n / 16) % 16) by (bit_vector);
    } else if i == 2 {
        assert((n >> 8u32) & 0xFu32 == (n / 256) % 16) by (bit_vector);
    } else if i == 3 {
        assert((n >> 12u32) & 0xFu32 == (n / 4096) % 16) by (bit_vector);
    } else if i == 4 {
        assert((n >> 16u32) & 0xFu32 == (n / 65536) % 16) by (bit_vector);
    } else if i == 5 {
        assert((n >> 20u32) & 0xFu32 == (n / 1048576) % 16) by (bit_vector);
    } else if i == 6 {
        assert((n >> 24u32) & 0xFu32 == (n / 16777216) % 16) by (bit_vector);
    } else {
        assert((n >> 28u32) & 0xFu32 == (n / 268435456) % 16) by (bit_vector);
    }
}

} // verus!
