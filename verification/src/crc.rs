//! CRC-32/MPEG2 (polynomial 0x04C11DB7, initial value 0xFFFFFFFF, no
//! reflection, no final XOR) and the checks made before the hardware CRC
//! unit is run over a flash region.
use vstd::prelude::*;

verus! {

/// The generator polynomial, without its x^32 term.
pub const CRC_POLY: u32 = 0x04C1_1DB7;

/// Initial value of the CRC register.
pub const CRC_INIT: u32 = 0xFFFF_FFFF;

/// One-past-end of the flash that the CRC unit may read.
pub const CRC_REGION_END: u32 = 0x0820_0000;

/// One step of the shift register: shift left, and fold in the polynomial
/// when the bit shifted out was set.
pub open spec fn crc_shift(c: u32) -> u32 {
    if c & 0x8000_0000 != 0 {
        ((c << 1u32) ^ CRC_POLY) as u32
    } else {
        (c << 1u32) as u32
    }
}

/// `n` steps of the shift register.
pub open spec fn crc_shifts(c: u32, n: nat) -> u32
    decreases n,
{
    if n == 0 {
        c
    } else {
        crc_shift(crc_shifts(c, (n - 1) as nat))
    }
}

/// The register after feeding one byte at its most significant end.
pub open spec fn crc_feed(c: u32, b: u8) -> u32 {
    crc_shifts(c ^ ((b as u32) << 24u32), 8)
}

/// CRC-32/MPEG2 of `data`.
pub open spec fn crc32_mpeg2_spec(data: Seq<u8>) -> u32
    decreases data.len(),
{
    if data.len() == 0 {
        CRC_INIT
    } else {
        crc_feed(crc32_mpeg2_spec(data.drop_last()), data.last())
    }
}

/// CRC-32/MPEG2 of `data`, bit by bit.
pub fn crc32_mpeg2(data: &[u8]) -> (crc: u32)
    ensures
        crc == crc32_mpeg2_spec(data@),
{
    let mut crc: u32 = 0xFFFF_FFFF;
    let mut i: usize = 0;
    assert(data@.take(0) =~= Seq::<u8>::empty());
    while i < data.len()
        invariant
            i <= data.len(),
            crc == crc32_mpeg2_spec(data@.take(i as int)),
        decreases data.len() - i,
    {
        let byte = data[i];
        let ghost fed = crc ^ ((byte as u32) << 24u32);
        crc ^= (byte as u32) << 24;
        let mut k: u32 = 0;
        while k < 8
            invariant
                k <= 8,
                crc == crc_shifts(fed, k as nat),
            decreases 8 - k,
        {
            if crc & 0x8000_0000 != 0 {
                crc = (crc << 1) ^ 0x04C1_1DB7;
            } else {
                crc <<= 1;
            }
            k += 1;
        }
        proof {
            assert(data@.take(i + 1).drop_last() =~= data@.take(i as int));
            assert(data@.take(i + 1).last() == byte);
        }
        i += 1;
    }
    assert(data@.take(data.len() as int) =~= data@);
    crc
}

/// The four bytes of `c`, most significant first.
pub open spec fn be_bytes(c: u32) -> Seq<u8> {
    seq![(c >> 24u32) as u8, (c >> 16u32) as u8, (c >> 8u32) as u8, c as u8]
}

proof fn lemma_shifts_without_poly(x: u32, k: nat)
    requires
        x < 0x0100_0000,
        k <= 8,
    ensures
        crc_shifts(x, k) == x << (k as u32),
    decreases k,
{
    if k == 0 {
        assert(x << 0u32 == x) by (bit_vector);
    } else {
        lemma_shifts_without_poly(x, (k - 1) as nat);
        let j = (k - 1) as u32;
        let j1 = k as u32;
        assert((x << j) & 0x8000_0000u32 == 0 && ((x << j) << 1u32) == x << j1) by (bit_vector)
            requires
                x < 0x0100_0000u32,
                j < 8,
                j1 == j + 1,
        ;
        assert(crc_shifts(x, k) == crc_shift(x << j));
    }
}

/// Feeding the register its own top byte shifts it left by a byte.
proof fn lemma_feed_top_byte(x: u32)
    ensures
        crc_feed(x, (x >> 24u32) as u8) == x << 8u32,
{
    let y = x ^ ((((x >> 24u32) as u8) as u32) << 24u32);
    assert(y < 0x0100_0000u32 && y << 8u32 == x << 8u32) by (bit_vector)
        requires
            y == x ^ ((((x >> 24u32) as u8) as u32) << 24u32),
    ;
    lemma_shifts_without_poly(y, 8);
}

/// Appending the CRC of `data`, most significant byte first, gives a
/// CRC of zero.
pub proof fn lemma_crc_residue(data: Seq<u8>)
    ensures
        crc32_mpeg2_spec(data + be_bytes(crc32_mpeg2_spec(data))) == 0,
{
    let c = crc32_mpeg2_spec(data);
    let t = be_bytes(c);
    let s = data + t;
    assert(s.drop_last() =~= data + t.take(3));
    assert((data + t.take(3)).drop_last() =~= data + t.take(2));
    assert((data + t.take(2)).drop_last() =~= data + t.take(1));
    assert((data + t.take(1)).drop_last() =~= data);
    assert((data + t.take(1)).last() == t[0]);
    assert((data + t.take(2)).last() == t[1]);
    assert((data + t.take(3)).last() == t[2]);
    assert(s.last() == t[3]);
    let c1 = c << 8u32;
    let c2 = c1 << 8u32;
    let c3 = c2 << 8u32;
    lemma_feed_top_byte(c);
    lemma_feed_top_byte(c1);
    lemma_feed_top_byte(c2);
    lemma_feed_top_byte(c3);
    assert(crc32_mpeg2_spec(data + t.take(1)) == crc_feed(c, t[0]));
    assert(crc32_mpeg2_spec(data + t.take(1)) == c1);
    assert(crc32_mpeg2_spec(data + t.take(2)) == crc_feed(c1, t[1]));
    assert(crc32_mpeg2_spec(data + t.take(3)) == crc_feed(crc32_mpeg2_spec(data + t.take(2)), t[2]));
    assert(crc32_mpeg2_spec(s) == crc_feed(crc32_mpeg2_spec(data + t.take(3)), t[3]));
    assert((c >> 16u32) as u8 == (c1 >> 24u32) as u8 && (c >> 8u32) as u8 == (c2 >> 24u32) as u8
        && c as u8 == (c3 >> 24u32) as u8 && c3 << 8u32 == 0) by (bit_vector)
        requires
            c1 == c << 8u32,
            c2 == c1 << 8u32,
            c3 == c2 << 8u32,
    ;
}

/// Whether `[addr, addr + len)` is a non-empty region below the end of
/// the CM4 flash bank, as the CRC unit requires.
pub open spec fn crc_region_ok(addr: u32, len: u32) -> bool {
    len != 0 && addr < CRC_REGION_END && addr + len <= CRC_REGION_END
}

/// Checks the region handed to the CRC unit: `false` where the region is
/// empty or reaches past the end of the CM4 flash bank. The sum
/// `addr + len` is never formed, so no region overflows the check.
pub fn crc_region_valid(addr: u32, len: u32) -> (ok: bool)
    ensures
        ok == crc_region_ok(addr, len),
{
    !(len == 0 || addr >= 0x0820_0000 || len > 0x0820_0000 - addr)
}

} // verus!
