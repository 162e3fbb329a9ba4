//! Verified core of a dual-core STM32H755 bootloader: COBS framing, the
//! CRC-32/MPEG2 checksum, the host/bootloader command protocol and the
//! register-level decisions of the flash, semaphore, GPIO and UART drivers.
pub mod boot;
pub mod cobs;
pub mod crc;
pub mod flash;
pub mod gpio;
pub mod bootloader;
pub mod host;
pub mod hsem;
pub mod mem;
pub mod protocol;
pub mod text;
pub mod uart;
