//! The register values behind the hardware semaphores (HSEM) that the two
//! cores use to guard shared memory.
use vstd::prelude::*;
use crate::mem::{HSEM_BASE, RLR_BASE};

verus! {

/// Lock flag of a semaphore register.
pub const LOCK_BIT: u32 = 0x8000_0000;

/// Mask of the COREID field once shifted down.
pub const COREID_MASK: u32 = 0x0F;

/// Position of the COREID field.
pub const COREID_SHIFT: u32 = 8;

/// The value a core writes to take or release a semaphore: its COREID in
/// bits 8.. and its PROCID in bits 0..8.
pub fn hsem_request(coreid: u8, procid: u8) -> (v: u32)
    ensures
        v == coreid * 256 + procid,
{
    let v = (coreid as u32) << 8 | procid as u32;
    assert(((coreid as u32) << 8u32 | procid as u32) == (coreid as u32) * 256 + (procid as u32))
        by (bit_vector);
    v
}

/// Address of the write-to-lock register R[sem].
pub fn hsem_r_address(sem: usize) -> (a: u32)
    requires
        sem < 32,
    ensures
        a == HSEM_BASE + 4 * sem,
{
    HSEM_BASE + sem as u32 * 4
}

/// Address of the read-lock register RLR[sem], whose read clears its lock
/// status flag.
pub fn hsem_rlr_address(sem: usize) -> (a: u32)
    requires
        sem < 32,
    ensures
        a == RLR_BASE + 4 * sem,
{
    RLR_BASE + sem as u32 * 4
}

/// Whether an RLR status shows the semaphore locked by `coreid`: the
/// lock flag is set and the COREID field (bits 8..12) names `coreid`.
pub open spec fn hsem_owned_spec(status: u32, coreid: u8) -> bool {
    status >= 0x8000_0000 && (status / 256) % 16 == coreid
}

/// Reads an RLR status after a take attempt: `true` when the calling core
/// now holds the semaphore.
pub fn hsem_owned(status: u32, coreid: u8) -> (owned: bool)
    ensures
        owned == hsem_owned_spec(status, coreid),
{
    assert((status & 0x8000_0000u32 != 0) == (status >= 0x8000_0000u32)) by (bit_vector);
    assert(((status >> 8u32) & 0x0Fu32) == (status / 256) % 16) by (bit_vector);
    let locked = (status & LOCK_BIT) != 0;
    let field = (status >> COREID_SHIFT) & COREID_MASK;
    locked && field as u8 == coreid
}

/// A locked status carrying the request value of core `coreid` is owned
/// by that core and by no other.
pub proof fn lemma_request_owned(coreid: u8, procid: u8, other: u8)
    requires
        coreid < 16,
    ensures
        hsem_owned_spec((0x8000_0000 + coreid * 256 + procid) as u32, coreid),
        other != coreid ==> !hsem_owned_spec((0x8000_0000 + coreid * 256 + procid) as u32, other),
{
    let s: int = 0x8000_0000 + coreid * 256 + procid;
    assert(s / 256 == 0x80_0000 + coreid as int);
    assert((0x80_0000 + coreid as int) % 16 == coreid as int);
}

} // verus!
