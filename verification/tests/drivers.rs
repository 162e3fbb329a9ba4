use h7_bootloader::boot::{
    approval_poll, approval_word, boot_mode_for, cm4_path, cm7_acknowledged, ApprovalPoll, Cm4Path,
};
use h7_bootloader::flash::{
    erase_check, is_ready, program_address_ok, program_failed, readback_ok, sector_ok, EraseCheck,
    FlashStatus,
};
use h7_bootloader::gpio::{idr_address, moder_input, pin_is_low, port_clock_enabled, pupdr_address, pupdr_pull_up};
use h7_bootloader::hsem::{hsem_owned, hsem_r_address, hsem_request, hsem_rlr_address};
use h7_bootloader::mem::{BOOT_NORMAL, BOOT_UPDATE, COREID_CM4, COREID_CM7, PROCID_DEFAULT};
use h7_bootloader::uart::{hex, puts};

fn status() -> FlashStatus {
    FlashStatus {
        bsy: false,
        qw: false,
        wrperr: false,
        pgserr: false,
        strberr: false,
        incerr: false,
        operr: false,
    }
}

#[test]
fn flash_program_addresses() {
    assert!(program_address_ok(0x0810_0000));
    assert!(program_address_ok(0x081F_FFFC));
    assert!(!program_address_ok(0x0820_0000));
    assert!(!program_address_ok(0x0810_0002));
    assert!(!program_address_ok(0x0800_0000));
}

#[test]
fn flash_sectors() {
    assert!(sector_ok(0));
    assert!(sector_ok(7));
    assert!(!sector_ok(8));
}

#[test]
fn flash_status_checks() {
    assert!(is_ready(&status()));
    assert!(!is_ready(&FlashStatus { bsy: true, ..status() }));
    assert!(!is_ready(&FlashStatus { qw: true, ..status() }));
    assert_eq!(erase_check(&status()), EraseCheck::Clean);
    assert_eq!(
        erase_check(&FlashStatus { wrperr: true, pgserr: true, ..status() }),
        EraseCheck::WriteProtected
    );
    assert_eq!(erase_check(&FlashStatus { pgserr: true, ..status() }), EraseCheck::SequenceError);
    assert!(!program_failed(&status()));
    assert!(program_failed(&FlashStatus { operr: true, ..status() }));
    assert!(program_failed(&FlashStatus { incerr: true, ..status() }));
}

#[test]
fn hsem_values() {
    assert_eq!(hsem_request(COREID_CM7, PROCID_DEFAULT), 0x300);
    assert_eq!(hsem_request(COREID_CM4, 5), 0x105);
    assert_eq!(hsem_r_address(0), 0x5802_6400);
    assert_eq!(hsem_r_address(3), 0x5802_640C);
    assert_eq!(hsem_rlr_address(0), 0x5802_6480);
    assert_eq!(hsem_rlr_address(31), 0x5802_64FC);
}

#[test]
fn hsem_ownership() {
    assert!(hsem_owned(0x8000_0300, COREID_CM7));
    assert!(!hsem_owned(0x8000_0100, COREID_CM7));
    assert!(hsem_owned(0x8000_0100, COREID_CM4));
    assert!(!hsem_owned(0x0000_0300, COREID_CM7));
}

#[test]
fn gpio_fields() {
    assert_eq!(port_clock_enabled(0x10, 1), 0x12);
    assert_eq!(port_clock_enabled(0x12, 1), 0x12);
    assert_eq!(moder_input(0xFFFF_FEBF, 0), 0xFFFF_FEBC);
    assert_eq!(moder_input(0xFFFF_FFFF, 13), 0xF3FF_FFFF);
    assert_eq!(pupdr_pull_up(0xFFFF_FFFF, 13), 0xF7FF_FFFF);
    assert_eq!(pupdr_pull_up(0, 0), 1);
    assert!(pin_is_low(0xFFFF_DFFF, 13));
    assert!(!pin_is_low(0x0000_2000, 13));
    assert_eq!(pupdr_address(0x5802_0800), 0x5802_080C);
    assert_eq!(idr_address(0x5802_0800), 0x5802_0810);
}

#[test]
fn uart_text() {
    assert_eq!(puts("UPDATE MODE\r\n"), b"UPDATE MODE\r\r\n".to_vec());
    assert_eq!(puts("a\nb"), b"a\r\nb".to_vec());
    assert_eq!(puts(""), Vec::<u8>::new());
    assert_eq!(&hex(0xCAFE_F00D), b"CAFEF00D");
    assert_eq!(&hex(0x0000_00A1), b"000000A1");
}

#[test]
fn approval_between_cores() {
    assert_eq!(approval_word(0x1234, 0x1234), 0xDEAD_BEEF);
    assert_eq!(approval_word(0x1234, 0x1235), 0);
    assert_eq!(approval_poll(0, 0xDEAD_BEEF), ApprovalPoll::Approved);
    assert_eq!(approval_poll(0, 0), ApprovalPoll::Retry);
    assert_eq!(approval_poll(8, 0), ApprovalPoll::Retry);
    assert_eq!(approval_poll(9, 0), ApprovalPoll::TimedOut);
    assert_eq!(approval_poll(9, 0xDEAD_BEEF), ApprovalPoll::Approved);
}

#[test]
fn cm4_decisions() {
    assert_eq!(cm4_path(1), Cm4Path::Companion);
    assert_eq!(cm4_path(0), Cm4Path::AwaitApproval);
    assert!(cm7_acknowledged(0xCAFE_F00D));
    assert!(!cm7_acknowledged(0xCAFE_0002));
}

#[test]
fn button_selects_boot_mode() {
    assert_eq!(boot_mode_for(true), BOOT_UPDATE);
    assert_eq!(boot_mode_for(false), BOOT_NORMAL);
    assert_eq!(cm4_path(boot_mode_for(true)), Cm4Path::Companion);
    assert_eq!(cm4_path(boot_mode_for(false)), Cm4Path::AwaitApproval);
}

#[test]
fn program_readback() {
    assert!(readback_ok(0xDEAD_BEEF, 0xDEAD_BEEF));
    assert!(!readback_ok(0xFFFF_FFFF, 0xDEAD_BEEF));
    assert!(!readback_ok(0xDEAD_BEEE, 0xDEAD_BEEF));
}
