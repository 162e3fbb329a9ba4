//! Error codes carried by `HostReply::Nak`.
use vstd::prelude::*;

verus! {

/// Address not aligned or out of range.
pub const BAD_ADDRESS: u8 = 0x01;

/// Data length exceeds maximum.
pub const BAD_LENGTH: u8 = 0x02;

/// Flash erase/program operation failed.
pub const FLASH_ERROR: u8 = 0x03;

/// Final CRC verification failed.
pub const CRC_MISMATCH: u8 = 0x04;

/// Bootloader is busy with prior operation.
pub const BUSY: u8 = 0x05;

} // verus!
