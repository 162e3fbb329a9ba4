//! Shared-memory layout (AXI SRAM at 0x2400_0000) and the values the two
//! cores exchange through it.
use vstd::prelude::*;

verus! {

/// Written by CM4 at boot to signal shared memory is ready.
pub const SHARED_MAGIC: u32 = 0x2400_0000;

/// Debug scratch word.
pub const PROBE: u32 = 0x2400_0004;

/// Handshake word: CM7 writes it, CM4 polls it.
pub const DIAG: u32 = 0x2400_0008;

/// Where CM4 stores the handshake value it received.
pub const DIAG_ECHO: u32 = 0x2400_000C;

/// CRC validation result from CM7.
pub const FW_APPROVED: u32 = 0x2400_0010;

/// Boot mode selection.
pub const BOOT_MODE: u32 = 0x2400_0014;

/// `BOOT_MODE` value of a normal boot.
pub const BOOT_NORMAL: u32 = 0;

/// `BOOT_MODE` value of update mode.
pub const BOOT_UPDATE: u32 = 1;

/// `FW_APPROVED` value that lets CM4 run its firmware.
pub const APPROVED_MAGIC: u32 = 0xDEAD_BEEF;

/// Value CM4 writes to `SHARED_MAGIC` at boot.
pub const CM4_MAGIC: u32 = 0xCAFE_BABE;

/// Value CM7 writes to `DIAG` once it has read the CM4 magic.
pub const CM7_ACK: u32 = 0xCAFE_F00D;

/// Value CM4 writes to `DIAG` when it reaches the handshake.
pub const CM4_HELLO: u32 = 0xCAFE_0002;

/// Values taken from the reference manual for the hardware semaphores:
/// CPU1 (HAL: HSEM_CPU1_COREID).
pub const COREID_CM7: u8 = 3;

/// CPU2 (HAL: HSEM_CPU2_COREID).
pub const COREID_CM4: u8 = 1;

/// Process id used by both cores.
pub const PROCID_DEFAULT: u8 = 0;

/// HSEM base address.
pub const HSEM_BASE: u32 = 0x5802_6400;

/// Base of the read-lock registers (RLR).
pub const RLR_BASE: u32 = HSEM_BASE + 0x80;

} // verus!
