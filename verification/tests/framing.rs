use h7_bootloader::bootloader::{
    cobs_decode as device_decode, cobs_encode as device_encode, cobs_frame_len, frame_fits,
    FrameReceiver, RecvEvent, BUF_SIZE,
};
use h7_bootloader::host::{cobs_decode, cobs_encode, FrameCollector};

#[test]
fn encode_empty_payload() {
    assert_eq!(cobs_encode(&[]), vec![0x01, 0x00]);
}

#[test]
fn encode_single_zero() {
    assert_eq!(cobs_encode(&[0x00]), vec![0x01, 0x01, 0x00]);
}

#[test]
fn encode_mixed_payload() {
    assert_eq!(
        cobs_encode(&[0x11, 0x22, 0x00, 0x33]),
        vec![0x03, 0x11, 0x22, 0x02, 0x33, 0x00]
    );
}

#[test]
fn encode_run_of_254_splits_block() {
    let payload = vec![0x42u8; 254];
    let frame = cobs_encode(&payload);
    assert_eq!(frame.len(), 257);
    assert_eq!(frame[0], 0xFF);
    assert_eq!(frame[255], 0x01);
    assert_eq!(frame[256], 0x00);
    assert!(frame[1..255].iter().all(|&b| b == 0x42));
}

#[test]
fn encoded_frame_has_single_delimiter() {
    let payload: Vec<u8> = (0..600u32).map(|i| (i % 7) as u8).collect();
    let frame = cobs_encode(&payload);
    assert_eq!(*frame.last().unwrap(), 0);
    assert!(frame[..frame.len() - 1].iter().all(|&b| b != 0));
}

#[test]
fn decode_roundtrip_short_runs() {
    let payloads: Vec<Vec<u8>> = vec![
        vec![],
        vec![0],
        vec![0, 0, 0],
        vec![1, 2, 3],
        vec![5, 0, 6, 0, 0, 7],
        (0..300u32).map(|i| (i % 200) as u8).collect(),
    ];
    for p in payloads {
        let frame = cobs_encode(&p);
        let decoded = cobs_decode(&frame[..frame.len() - 1]).unwrap();
        assert_eq!(decoded, p);
    }
}

#[test]
fn decode_rejects_zero_code() {
    assert_eq!(cobs_decode(&[0x00]), None);
    assert_eq!(cobs_decode(&[0x02, 0x11, 0x00, 0x01]), None);
}

#[test]
fn decode_rejects_zero_in_block() {
    assert_eq!(cobs_decode(&[0x03, 0x11, 0x00]), None);
}

#[test]
fn decode_truncated_last_block_keeps_bytes() {
    assert_eq!(cobs_decode(&[0x05, 0x11, 0x22]), Some(vec![0x11, 0x22]));
}

#[test]
fn decode_of_long_run_gives_payload_back() {
    let payload = vec![0x42u8; 254];
    let frame = cobs_encode(&payload);
    assert_eq!(cobs_decode(&frame[..frame.len() - 1]), Some(payload));
    let mut f = vec![0xFFu8];
    f.extend_from_slice(&[0x01; 254]);
    f.push(0x01);
    assert_eq!(cobs_decode(&f), Some(vec![0x01u8; 254]));
}

#[test]
fn roundtrip_with_long_runs() {
    let mut payload = vec![0x07u8; 600];
    payload[300] = 0;
    payload.extend_from_slice(&[0x01; 254]);
    payload.push(0);
    let frame = cobs_encode(&payload);
    assert_eq!(cobs_decode(&frame[..frame.len() - 1]), Some(payload.clone()));
    let mut out = [0u8; 1024];
    let n = device_encode(&payload, &mut out);
    assert_eq!(&out[..n], &frame[..]);
    let mut dec = [0u8; 1024];
    assert_eq!(device_decode(&out[..n - 1], &mut dec), Some(payload.len()));
    assert_eq!(&dec[..payload.len()], &payload[..]);
}

#[test]
fn decode_rejects_any_zero() {
    assert_eq!(cobs_decode(&[0x05, 0x01, 0x00]), None);
    assert_eq!(cobs_decode(&[0x01, 0x02, 0x00]), None);
}

#[test]
fn device_encode_matches_host_for_short_runs() {
    let payload = [0x00, 0x05, 0x09, 0x00, 0x00, 0x7F];
    let mut out = [0xAAu8; 32];
    let n = device_encode(&payload, &mut out);
    let host = cobs_encode(&payload);
    assert_eq!(&out[..n], &host[..]);
    assert!(out[n..].iter().all(|&b| b == 0xAA));
}

#[test]
fn device_encode_after_long_run_matches_host() {
    let mut payload = vec![0x01u8; 254];
    payload.extend_from_slice(&[0x02, 0x03, 0x04, 0x00]);
    let mut out = [0u8; 300];
    let n = device_encode(&payload, &mut out);
    assert_eq!(n, 261);
    assert_eq!(out[0], 0xFF);
    assert_eq!(out[255], 4);
    assert_eq!(&out[256..259], &[0x02, 0x03, 0x04]);
    assert_eq!(out[259], 0x01);
    assert_eq!(out[260], 0x00);
    assert_eq!(&out[..n], &cobs_encode(&payload)[..]);
}

#[test]
fn device_encode_zero_after_full_block() {
    let mut payload = vec![0x01u8; 254];
    payload.push(0x00);
    let mut out = [0u8; 512];
    let n = device_encode(&payload, &mut out);
    assert_eq!(n, 258);
    let mut expected = vec![0xFFu8];
    expected.extend_from_slice(&[0x01; 254]);
    expected.extend_from_slice(&[0x01, 0x01, 0x00]);
    assert_eq!(&out[..n], &expected[..]);
}

#[test]
fn device_decode_into_buffer() {
    let frame = [0x03, 0x11, 0x22, 0x02, 0x33];
    let mut out = [0xEEu8; 8];
    assert_eq!(device_decode(&frame, &mut out), Some(4));
    assert_eq!(&out[..4], &[0x11, 0x22, 0x00, 0x33]);
    assert_eq!(&out[4..], &[0xEE; 4]);
}

#[test]
fn device_decode_rejects_bad_frame() {
    let mut out = [0u8; 8];
    assert_eq!(device_decode(&[0x02, 0x00], &mut out), None);
}

fn feed(rx: &mut FrameReceiver, bytes: &[u8]) -> Vec<RecvEvent> {
    bytes.iter().map(|&b| rx.push_byte(b)).collect()
}

#[test]
fn receiver_yields_host_frame() {
    let payload = [0x02, 0x00, 0x10, 0x80, 0x01];
    let frame = cobs_encode(&payload);
    let mut rx = FrameReceiver::new();
    let events = feed(&mut rx, &frame);
    for ev in &events[..events.len() - 1] {
        assert!(matches!(ev, RecvEvent::Pending));
    }
    match events.last().unwrap() {
        RecvEvent::Frame { buf, len } => {
            assert_eq!(buf.len(), BUF_SIZE);
            assert_eq!(*len, 5);
            assert_eq!(&buf[..5], &payload);
            assert!(buf[5..].iter().all(|&b| b == 0));
        }
        other => panic!("unexpected {:?}", other),
    }
}

#[test]
fn receiver_skips_leading_zeros() {
    let mut rx = FrameReceiver::new();
    let events = feed(&mut rx, &[0x00, 0x00, 0x02, 0x07, 0x00]);
    match events[4] {
        RecvEvent::Frame { buf, len } => assert_eq!(&buf[..len], &[0x07]),
        other => panic!("unexpected {:?}", other),
    }
}

#[test]
fn receiver_accepts_truncated_last_block() {
    let mut rx = FrameReceiver::new();
    let events = feed(&mut rx, &[0x05, 0x01, 0x02, 0x00]);
    match events[3] {
        RecvEvent::Frame { buf, len } => assert_eq!(&buf[..len], &[0x01, 0x02]),
        other => panic!("unexpected {:?}", other),
    }
}

#[test]
fn receiver_drops_overlong_frame() {
    let mut rx = FrameReceiver::new();
    let bytes = vec![0x01u8; BUF_SIZE];
    for ev in feed(&mut rx, &bytes) {
        assert!(matches!(ev, RecvEvent::Pending));
    }
    assert!(matches!(rx.push_byte(0x01), RecvEvent::Dropped));
    // the next byte starts a fresh frame
    let events = feed(&mut rx, &[0x02, 0x09, 0x00]);
    match events[2] {
        RecvEvent::Frame { buf, len } => assert_eq!(&buf[..len], &[0x09]),
        other => panic!("unexpected {:?}", other),
    }
}


#[test]
fn device_reply_decodes_on_host() {
    let reply = [0x02, 0xE7, 0xE6, 0x76, 0x03];
    let mut out = [0u8; BUF_SIZE];
    let n = device_encode(&reply, &mut out);
    assert_eq!(out[n - 1], 0);
    assert_eq!(cobs_decode(&out[..n - 1]), Some(reply.to_vec()));
}

#[test]
fn receiver_reports_empty_payload() {
    let mut rx = FrameReceiver::new();
    let events = feed(&mut rx, &[0x01, 0x00]);
    match events[1] {
        RecvEvent::Frame { len, .. } => assert_eq!(len, 0),
        other => panic!("unexpected {:?}", other),
    }
}

#[test]
fn host_collects_reply_frame() {
    let mut c = FrameCollector::new();
    assert_eq!(c.push_byte(0x00), None);
    assert_eq!(c.push_byte(0x02), None);
    assert_eq!(c.push_byte(0x05), None);
    assert_eq!(c.push_byte(0x00), Some(vec![0x02, 0x05]));
    assert_eq!(c.push_byte(0x00), None);
    assert_eq!(c.push_byte(0x01), None);
    assert_eq!(c.push_byte(0x00), Some(vec![0x01]));
}

#[test]
fn frame_length_matches_encoder() {
    let payloads: Vec<Vec<u8>> = vec![
        vec![],
        vec![0x00],
        vec![0x11, 0x00, 0x22],
        vec![0x05; 253],
        vec![0x05; 254],
        vec![0x05; 255],
        (0..600u32).map(|i| (i % 7) as u8).collect(),
        vec![0x09; 700],
    ];
    for p in &payloads {
        assert_eq!(cobs_frame_len(p), cobs_encode(p).len());
    }
    assert_eq!(cobs_frame_len(&[]), 2);
    assert_eq!(cobs_frame_len(&[0x05; 254]), 257);
}

#[test]
fn frame_fits_buffer_limit() {
    assert!(frame_fits(&[]));
    assert!(frame_fits(&[0x01; 300]));
    // 509 non-zero bytes: two full blocks and a third, 512 bytes with the
    // delimiter.
    assert!(!frame_fits(&[0x01; 509]));
    assert!(frame_fits(&[0x01; 508]));
    assert!(!frame_fits(&[0x00; BUF_SIZE]));
    assert!(!frame_fits(&[0x01; 4096]));
}

#[test]
fn device_decode_reports_decoded_count() {
    let frame = cobs_encode(&[0x10, 0x00, 0x20, 0x00]);
    let mut out = [0xAAu8; 8];
    assert_eq!(device_decode(&frame[..frame.len() - 1], &mut out), Some(4));
    assert_eq!(&out[..4], &[0x10, 0x00, 0x20, 0x00]);
    assert_eq!(&out[4..], &[0xAA; 4]);
}
