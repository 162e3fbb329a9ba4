use h7_bootloader::crc::{crc32_mpeg2, crc_region_valid};
use h7_bootloader::host::{format_reply, FlashError, FlashSession, FlashStep};
use h7_bootloader::protocol::{HostCommand, HostReply};

#[test]
fn crc_of_empty_input() {
    assert_eq!(crc32_mpeg2(&[]), 0xFFFF_FFFF);
}

#[test]
fn crc_check_value() {
    assert_eq!(crc32_mpeg2(b"123456789"), 0x0376_E6E7);
}

#[test]
fn crc_residue_is_zero() {
    let mut data = b"123456789".to_vec();
    data.extend_from_slice(&[0x03, 0x76, 0xE6, 0xE7]);
    assert_eq!(crc32_mpeg2(&data), 0);
}

#[test]
fn crc_single_byte() {
    assert_eq!(crc32_mpeg2(&[0x00]), 0x4E08_BFB4);
}

#[test]
fn crc_region_limits() {
    assert!(crc_region_valid(0x0810_0000, 0x0010_0000));
    assert!(!crc_region_valid(0x0810_0000, 0x0010_0001));
    assert!(!crc_region_valid(0x0820_0000, 1));
    assert!(!crc_region_valid(0x0810_0000, 0));
    assert!(crc_region_valid(0, 4));
    assert!(!crc_region_valid(0x0810_0000, 0xFFFF_FFFF));
    assert!(!crc_region_valid(0x081F_FFFF, 0xFFFF_FFFF));
}

#[test]
fn reply_texts() {
    assert_eq!(format_reply(&HostReply::Ack), "ACK");
    assert_eq!(format_reply(&HostReply::Ready), "READY");
    assert_eq!(format_reply(&HostReply::Nak(0x03)), "NAK(0x03)");
    assert_eq!(format_reply(&HostReply::Nak(0xAB)), "NAK(0xAB)");
    assert_eq!(format_reply(&HostReply::CrcResult(0x0376_E6E7)), "CRC = 0x0376E6E7");
    assert_eq!(format_reply(&HostReply::CrcResult(0xDEAD_BEEF)), "CRC = 0xDEADBEEF");
}

fn expect_send(step: FlashStep) -> HostCommand {
    match step {
        FlashStep::Send(cmd) => cmd,
        other => panic!("expected a command, got {:?}", other),
    }
}

#[test]
fn flash_session_happy_path() {
    let binary: Vec<u8> = (0..300u32).map(|i| (i * 7) as u8).collect();
    let crc = crc32_mpeg2(&binary);
    let mut s = FlashSession::new(binary.clone(), 0x0810_0000);
    assert_eq!(s.total_chunks(), 2);
    assert_eq!(s.host_crc(), crc);
    assert!(matches!(s.first_command(), HostCommand::Ping));
    assert!(matches!(expect_send(s.on_reply(HostReply::Ack)), HostCommand::EraseAll));
    match expect_send(s.on_reply(HostReply::Ack)) {
        HostCommand::Write { addr, data, len } => {
            assert_eq!(addr, 0x0810_0000);
            assert_eq!(len, 256);
            assert_eq!(data.as_bytes(), &binary[..256]);
        }
        other => panic!("unexpected {:?}", other),
    }
    match expect_send(s.on_reply(HostReply::Ack)) {
        HostCommand::Write { addr, data, len } => {
            assert_eq!(addr, 0x0810_0100);
            assert_eq!(len, 44);
            assert_eq!(&data.as_bytes()[..44], &binary[256..]);
            assert!(data.as_bytes()[44..].iter().all(|&b| b == 0));
        }
        other => panic!("unexpected {:?}", other),
    }
    match expect_send(s.on_reply(HostReply::Ack)) {
        HostCommand::Crc32 { addr, len } => {
            assert_eq!(addr, 0x0810_0000);
            assert_eq!(len, 300);
        }
        other => panic!("unexpected {:?}", other),
    }
    assert!(matches!(expect_send(s.on_reply(HostReply::CrcResult(crc))), HostCommand::Boot));
    assert!(matches!(s.on_reply(HostReply::Ack), FlashStep::Booted(HostReply::Ack)));
    assert!(s.is_done());
}

#[test]
fn flash_session_stops_on_crc_mismatch() {
    let binary = vec![1u8, 2, 3];
    let crc = crc32_mpeg2(&binary);
    let mut s = FlashSession::new(binary, 0x0810_0000);
    expect_send(s.on_reply(HostReply::Ack));
    expect_send(s.on_reply(HostReply::Ack));
    expect_send(s.on_reply(HostReply::Ack));
    match s.on_reply(HostReply::CrcResult(crc ^ 1)) {
        FlashStep::Failed(FlashError::CrcMismatch { host, device }) => {
            assert_eq!(host, crc);
            assert_eq!(device, crc ^ 1);
        }
        other => panic!("unexpected {:?}", other),
    }
    assert!(s.is_done());
}

#[test]
fn flash_session_reports_failed_chunk() {
    let binary = vec![9u8; 600];
    let mut s = FlashSession::new(binary, 0x0810_0000);
    expect_send(s.on_reply(HostReply::Ack));
    expect_send(s.on_reply(HostReply::Ack));
    expect_send(s.on_reply(HostReply::Ack));
    match s.on_reply(HostReply::Nak(3)) {
        FlashStep::Failed(FlashError::WriteFailed { chunk, total, reply }) => {
            assert_eq!((chunk, total, reply), (2, 3, HostReply::Nak(3)));
        }
        other => panic!("unexpected {:?}", other),
    }
}

#[test]
fn flash_session_ping_and_erase_failures() {
    let mut s = FlashSession::new(vec![1], 0x0810_0000);
    assert!(matches!(
        s.on_reply(HostReply::Nak(5)),
        FlashStep::Failed(FlashError::PingFailed(HostReply::Nak(5)))
    ));
    let mut s = FlashSession::new(vec![1], 0x0810_0000);
    expect_send(s.on_reply(HostReply::Ack));
    assert!(matches!(
        s.on_reply(HostReply::Ready),
        FlashStep::Failed(FlashError::EraseFailed(HostReply::Ready))
    ));
}

#[test]
fn flash_session_empty_image_goes_to_verify() {
    let mut s = FlashSession::new(vec![], 0x0810_0000);
    expect_send(s.on_reply(HostReply::Ack));
    match expect_send(s.on_reply(HostReply::Ack)) {
        HostCommand::Crc32 { addr, len } => assert_eq!((addr, len), (0x0810_0000, 0)),
        other => panic!("unexpected {:?}", other),
    }
    assert!(matches!(
        s.on_reply(HostReply::Ack),
        FlashStep::Failed(FlashError::CrcFailed(HostReply::Ack))
    ));
}
