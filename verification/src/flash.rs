//! Decisions of the flash Bank 2 driver: which addresses and sectors may
//! be touched, and what the status register says after an operation.
use vstd::prelude::*;

verus! {

/// CM4 flash occupies Bank 2: 0x0810_0000 – 0x081F_FFFF.
pub const CM4_FLASH_START: u32 = 0x0810_0000;

/// One-past-end of CM4 flash.
pub const CM4_FLASH_END: u32 = 0x0820_0000;

/// Sector size (128 KB).
pub const SECTOR_SIZE: u32 = 0x0002_0000;

/// Number of sectors in Bank 2.
pub const SECTOR_COUNT: u8 = 8;

/// First key of the unlock sequence.
pub const FLASH_KEY1: u32 = 0x4567_0123;

/// Second key of the unlock sequence.
pub const FLASH_KEY2: u32 = 0xCDEF_89AB;

/// The flags of the Bank 2 status register that the driver reads.
#[derive(Debug, Clone, Copy, PartialEq, Eq, Structural)]
pub struct FlashStatus {
    /// An operation is in progress.
    pub bsy: bool,
    /// A write is waiting in the write queue.
    pub qw: bool,
    /// Write protection error.
    pub wrperr: bool,
    /// Programming sequence error.
    pub pgserr: bool,
    /// Strobe error.
    pub strberr: bool,
    /// Inconsistency error.
    pub incerr: bool,
    /// Operation error.
    pub operr: bool,
}

/// What the status register says after a sector erase.
#[derive(Debug, Clone, Copy, PartialEq, Eq, Structural)]
pub enum EraseCheck {
    /// No error flag is set.
    Clean,
    /// The write-protection error flag is set; it is cleared and the
    /// erase fails.
    WriteProtected,
    /// The programming-sequence error flag is set (and write protection
    /// is not); it is cleared and the erase fails.
    SequenceError,
}

/// Whether `addr` is a 4-byte aligned address of the CM4 flash.
pub open spec fn program_address_spec(addr: u32) -> bool {
    CM4_FLASH_START <= addr < CM4_FLASH_END && addr % 4 == 0
}

/// A word may only be programmed at a 4-byte aligned address of Bank 2.
pub fn program_address_ok(addr: u32) -> (ok: bool)
    ensures
        ok == program_address_spec(addr),
{
    assert((addr & 3 == 0) == (addr % 4 == 0)) by (bit_vector);
    let aligned = addr & 3 == 0;
    !(addr < 0x0810_0000 || addr >= 0x0820_0000 || !aligned)
}

/// A bank-local sector number names one of the eight CM4 sectors.
pub fn sector_ok(sector: u8) -> (ok: bool)
    ensures
        ok == (sector < SECTOR_COUNT),
{
    !(sector > 7)
}

/// The controller is idle: neither busy nor holding a queued write.
pub fn is_ready(st: &FlashStatus) -> (ready: bool)
    ensures
        ready == (!st.bsy && !st.qw),
{
    !st.bsy && !st.qw
}

/// The verdict on a sector erase, write protection checked first.
pub fn erase_check(st: &FlashStatus) -> (c: EraseCheck)
    ensures
        c == (if st.wrperr {
            EraseCheck::WriteProtected
        } else if st.pgserr {
            EraseCheck::SequenceError
        } else {
            EraseCheck::Clean
        }),
{
    if st.wrperr {
        EraseCheck::WriteProtected
    } else if st.pgserr {
        EraseCheck::SequenceError
    } else {
        EraseCheck::Clean
    }
}

/// Whether programming a word left any error flag set.
pub fn program_failed(st: &FlashStatus) -> (failed: bool)
    ensures
        failed == (st.wrperr || st.pgserr || st.strberr || st.incerr || st.operr),
{
    st.wrperr || st.pgserr || st.strberr || st.incerr || st.operr
}

/// Whether the word read back after programming is the word written;
/// any difference fails the program operation.
pub fn readback_ok(readback: u32, written: u32) -> (ok: bool)
    ensures
        ok == (readback == written),
{
    readback == written
}

} // verus!
