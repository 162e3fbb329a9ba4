//! Register arithmetic of the GPIO helpers: clock enable bits, pin mode
//! and pull fields, and the input data register.
use vstd::prelude::*;

verus! {

/// Offset of the pull-up/pull-down register from a GPIO port base.
pub const PUPDR_OFFSET: u32 = 0x0C;

/// Offset of the input data register from a GPIO port base.
pub const IDR_OFFSET: u32 = 0x10;

/// Bit `k` of `x`.
pub open spec fn bit(x: u32, k: u32) -> bool {
    (x >> k) & 1 == 1
}

/// The two-bit field of pin `p` in a mode or pull register.
pub open spec fn pin_field(x: u32, p: u32) -> u32 {
    (x >> (2 * p)) & 3
}

/// The AHB4ENR value with the clock of the GPIO port at bit `en_bit`
/// enabled and every other bit kept.
pub fn port_clock_enabled(bits: u32, en_bit: u8) -> (r: u32)
    requires
        en_bit < 32,
    ensures
        forall|k: u32| k < 32 ==> bit(r, k) == (bit(bits, k) || k == en_bit),
{
    let r = bits | (1u32 << en_bit);
    proof {
        let e = en_bit as u32;
        assert forall|k: u32| k < 32 implies bit(r, k) == (bit(bits, k) || k == en_bit) by {
            assert(((bits | (1u32 << e)) >> k) & 1 == 1 <==> (((bits >> k) & 1 == 1) || k == e))
                by (bit_vector)
                requires
                    k < 32,
                    e < 32,
            ;
        }
    }
    r
}

/// The MODER value with pin `pin` set to input mode (`00`) and every
/// other pin kept.
pub fn moder_input(moder: u32, pin: u8) -> (r: u32)
    requires
        pin < 16,
    ensures
        forall|p: u32| p < 16 ==> pin_field(r, p) == (if p == pin { 0 } else { pin_field(moder, p) }),
{
    let r = moder & !(3u32 << (pin * 2));
    proof {
        let q = pin as u32;
        assert forall|p: u32| p < 16 implies pin_field(r, p) == (if p == pin {
            0
        } else {
            pin_field(moder, p)
        }) by {
            assert(((moder & !(3u32 << (q * 2))) >> (2 * p)) & 3 == (if p == q {
                0
            } else {
                (moder >> (2 * p)) & 3
            })) by (bit_vector)
                requires
                    p < 16,
                    q < 16,
            ;
        }
    }
    r
}

/// The PUPDR value with pin `pin` set to pull-up (`01`) and every other
/// pin kept.
pub fn pupdr_pull_up(pupdr: u32, pin: u8) -> (r: u32)
    requires
        pin < 16,
    ensures
        forall|p: u32| p < 16 ==> pin_field(r, p) == (if p == pin { 1 } else { pin_field(pupdr, p) }),
{
    let r = (pupdr & !(3u32 << (pin * 2))) | (1u32 << (pin * 2));
    proof {
        let q = pin as u32;
        assert forall|p: u32| p < 16 implies pin_field(r, p) == (if p == pin {
            1
        } else {
            pin_field(pupdr, p)
        }) by {
            assert((((pupdr & !(3u32 << (q * 2))) | (1u32 << (q * 2))) >> (2 * p)) & 3 == (if p
                == q {
                1
            } else {
                (pupdr >> (2 * p)) & 3
            })) by (bit_vector)
                requires
                    p < 16,
                    q < 16,
            ;
        }
    }
    r
}

/// Whether pin `pin` reads low in the input data register value `idr`.
pub fn pin_is_low(idr: u32, pin: u8) -> (low: bool)
    requires
        pin < 32,
    ensures
        low == !bit(idr, pin as u32),
{
    let p = pin as u32;
    assert((((idr >> p) & 1) == 0) == !(((idr >> p) & 1) == 1)) by (bit_vector);
    ((idr >> p) & 1) == 0
}

/// Address of the pull register of the port at `base`.
pub fn pupdr_address(base: u32) -> (a: u32)
    requires
        base + PUPDR_OFFSET <= u32::MAX,
    ensures
        a == base + PUPDR_OFFSET,
{
    base + PUPDR_OFFSET
}

/// Address of the input data register of the port at `base`.
pub fn idr_address(base: u32) -> (a: u32)
    requires
        base + IDR_OFFSET <= u32::MAX,
    ensures
        a == base + IDR_OFFSET,
{
    base + IDR_OFFSET
}

} // verus!
