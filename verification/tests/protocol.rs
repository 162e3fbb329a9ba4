use h7_bootloader::bootloader::{dispatch, malformed_reply, resets_after, resume, Action, Outcome};
use h7_bootloader::protocol::error;
use h7_bootloader::protocol::{FlashData, HostCommand, HostReply};

fn payload(bytes: &[u8]) -> FlashData {
    FlashData::from_bytes(bytes)
}

#[test]
fn flash_data_pads_and_truncates() {
    let d = FlashData::from_bytes(&[1, 2, 3]);
    let b = d.as_bytes();
    assert_eq!(b.len(), FlashData::MAX_LEN);
    assert_eq!(&b[..3], &[1, 2, 3]);
    assert!(b[3..].iter().all(|&x| x == 0));
    let long: Vec<u8> = (0..300u32).map(|i| i as u8).collect();
    let d = FlashData::from_bytes(&long);
    assert_eq!(d.as_bytes(), &long[..256]);
}

#[test]
fn ping_is_acknowledged() {
    assert_eq!(dispatch(&HostCommand::Ping), Action::Reply(HostReply::Ack));
}

#[test]
fn erase_reports_flash_result() {
    let cmd = HostCommand::EraseAll;
    assert_eq!(dispatch(&cmd), Action::EraseAll);
    assert_eq!(resume(&cmd, Outcome::Erased(true)), Action::Reply(HostReply::Ack));
    assert_eq!(
        resume(&cmd, Outcome::Erased(false)),
        Action::Reply(HostReply::Nak(error::FLASH_ERROR))
    );
}

#[test]
fn write_rejects_bad_addresses() {
    for addr in [0x0810_0001u32, 0x0810_0002, 0x080F_FFFC, 0x0820_0000, 0xFFFF_FFFC] {
        let cmd = HostCommand::Write { addr, data: payload(&[1, 2, 3, 4]), len: 4 };
        assert_eq!(dispatch(&cmd), Action::Reply(HostReply::Nak(error::BAD_ADDRESS)));
    }
}

#[test]
fn write_programs_little_endian_words() {
    let cmd = HostCommand::Write {
        addr: 0x0810_0100,
        data: payload(&[0xEF, 0xBE, 0xAD, 0xDE, 0x01, 0x02]),
        len: 6,
    };
    assert_eq!(
        dispatch(&cmd),
        Action::ProgramWord { index: 0, addr: 0x0810_0100, word: 0xDEAD_BEEF }
    );
    assert_eq!(
        resume(&cmd, Outcome::Programmed { index: 0, ok: true }),
        Action::ProgramWord { index: 1, addr: 0x0810_0104, word: 0x0000_0201 }
    );
    assert_eq!(
        resume(&cmd, Outcome::Programmed { index: 1, ok: true }),
        Action::Reply(HostReply::Ack)
    );
    assert_eq!(
        resume(&cmd, Outcome::Programmed { index: 0, ok: false }),
        Action::Reply(HostReply::Nak(error::FLASH_ERROR))
    );
}

#[test]
fn write_longer_than_payload_is_rejected() {
    let cmd = HostCommand::Write { addr: 0x0810_0000, data: payload(&[1; 256]), len: 257 };
    assert_eq!(dispatch(&cmd), Action::Reply(HostReply::Nak(error::BAD_LENGTH)));
    let cmd = HostCommand::Write { addr: 0x0810_0000, data: payload(&[1; 256]), len: 0xFFFF };
    assert_eq!(dispatch(&cmd), Action::Reply(HostReply::Nak(error::BAD_LENGTH)));
    let cmd = HostCommand::Write { addr: 0x0810_0001, data: payload(&[1; 256]), len: 300 };
    assert_eq!(dispatch(&cmd), Action::Reply(HostReply::Nak(error::BAD_ADDRESS)));
}

#[test]
fn write_of_nothing_is_acknowledged() {
    let cmd = HostCommand::Write { addr: 0x0810_0000, data: payload(&[]), len: 0 };
    assert_eq!(dispatch(&cmd), Action::Reply(HostReply::Ack));
}

#[test]
fn write_last_word_of_full_payload() {
    let bytes: Vec<u8> = (0..256u32).map(|i| i as u8).collect();
    let cmd = HostCommand::Write { addr: 0x081F_FF00, data: payload(&bytes), len: 256 };
    assert_eq!(
        resume(&cmd, Outcome::Programmed { index: 62, ok: true }),
        Action::ProgramWord { index: 63, addr: 0x081F_FFFC, word: 0xFFFE_FDFC }
    );
    assert_eq!(
        resume(&cmd, Outcome::Programmed { index: 63, ok: true }),
        Action::Reply(HostReply::Ack)
    );
}

#[test]
fn crc_checks_region() {
    let ok = HostCommand::Crc32 { addr: 0x0810_0000, len: 256 };
    assert_eq!(dispatch(&ok), Action::ComputeCrc { addr: 0x0810_0000, len: 256 });
    assert_eq!(
        resume(&ok, Outcome::Crc(0x1234_5678)),
        Action::Reply(HostReply::CrcResult(0x1234_5678))
    );
    for (addr, len) in
        [(0x0810_0000u32, 0u32), (0x0820_0000, 4), (0x081F_FFFF, 2), (0x0810_0000, 0xFFFF_FFFF)]
    {
        assert_eq!(
            dispatch(&HostCommand::Crc32 { addr, len }),
            Action::Reply(HostReply::Nak(error::BAD_ADDRESS))
        );
    }
    assert_eq!(
        dispatch(&HostCommand::Crc32 { addr: 0x081F_FFFF, len: 1 }),
        Action::ComputeCrc { addr: 0x081F_FFFF, len: 1 }
    );
}

#[test]
fn boot_approves_then_resets() {
    let cmd = HostCommand::Boot;
    assert_eq!(dispatch(&cmd), Action::ApproveFirmware);
    assert_eq!(resume(&cmd, Outcome::Approved), Action::Reply(HostReply::Ack));
    assert!(resets_after(&cmd));
    assert!(!resets_after(&HostCommand::Ping));
}

#[test]
fn malformed_command_is_rejected() {
    assert_eq!(malformed_reply(), HostReply::Nak(error::BAD_ADDRESS));
}

#[test]
fn error_codes() {
    assert_eq!(
        [error::BAD_ADDRESS, error::BAD_LENGTH, error::FLASH_ERROR, error::CRC_MISMATCH, error::BUSY],
        [1, 2, 3, 4, 5]
    );
}

#[test]
fn flash_data_roundtrip() {
    let bytes: Vec<u8> = (0..256u32).map(|i| (255 - i) as u8).collect();
    let d = FlashData::from_bytes(&bytes);
    let again = FlashData::from_bytes(d.as_bytes());
    assert_eq!(again.as_bytes(), d.as_bytes());
}

#[test]
fn write_past_end_of_flash_is_rejected() {
    let cmd = HostCommand::Write { addr: 0x081F_FFFC, data: payload(&[1; 8]), len: 8 };
    assert_eq!(dispatch(&cmd), Action::Reply(HostReply::Nak(error::BAD_ADDRESS)));
    let cmd = HostCommand::Write { addr: 0x081F_FF04, data: payload(&[1; 256]), len: 256 };
    assert_eq!(dispatch(&cmd), Action::Reply(HostReply::Nak(error::BAD_ADDRESS)));
}

#[test]
fn write_ending_at_end_of_flash_is_programmed() {
    let cmd = HostCommand::Write {
        addr: 0x081F_FFF8,
        data: payload(&[1, 2, 3, 4, 5, 6, 7, 8]),
        len: 8,
    };
    assert_eq!(
        dispatch(&cmd),
        Action::ProgramWord { index: 0, addr: 0x081F_FFF8, word: 0x0403_0201 }
    );
    assert_eq!(
        resume(&cmd, Outcome::Programmed { index: 0, ok: true }),
        Action::ProgramWord { index: 1, addr: 0x081F_FFFC, word: 0x0807_0605 }
    );
    assert_eq!(
        resume(&cmd, Outcome::Programmed { index: 1, ok: true }),
        Action::Reply(HostReply::Ack)
    );
}
