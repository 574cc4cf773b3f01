use xmmrpc::codec::{asn_int, pack_u32, Value};
use xmmrpc::error::Error;
use xmmrpc::transport::{
    answers_request, attach_permission, build_header, frame_length, message_would_overflow,
    poll_wait_ms, readiness, AttachPermission, Message, MessageKind, Mode, Readiness,
    TXID_ASYNC, TXID_SYNC,
};
use xmmrpc::text::{decimal_text, hex_text};

fn frame(cmd: u32, body: &[u8], mode: Mode) -> Vec<u8> {
    let mut raw = build_header(cmd, body.len(), mode);
    raw.extend_from_slice(body);
    raw
}

#[test]
fn sync_header_layout() {
    let header = build_header(0x07c, 6, Mode::Sync);
    assert_eq!(
        header,
        vec![22, 0, 0, 0, 2, 4, 0, 0, 0, 22, 2, 4, 0, 0, 0, 0x7c, 0x11, 0, 1, 0]
    );
}

#[test]
fn async_header_layout() {
    let header = build_header(0x18e, 6, Mode::Async);
    assert_eq!(
        header,
        vec![
            28, 0, 0, 0, 2, 4, 0, 0, 0, 28, 2, 4, 0, 0, 1, 0x8e, 0x11, 0, 1, 1, 2, 4, 0x11, 0, 1, 1,
        ]
    );
}

#[test]
fn framed_requests_read_back_as_responses() {
    let body = pack_u32(5);
    for mode in [Mode::Sync, Mode::Async] {
        let raw = frame(0x18e, &body, mode);
        assert_eq!(frame_length(&raw).unwrap(), Some(raw.len()));
        assert!(!message_would_overflow(&raw));
        let message = Message::parse(&raw).unwrap();
        assert_eq!(message.kind, MessageKind::Response);
        assert_eq!(message.code, 0x18e);
        assert_eq!(message.body, body);
        assert_eq!(message.content, vec![Value::Int(5)]);
        let tid = if mode == Mode::Sync { TXID_SYNC } else { TXID_ASYNC };
        assert_eq!(message.tid, tid);
    }
}

#[test]
fn async_acknowledgements_and_indications() {
    let body = pack_u32(1);
    let ack = Message::parse(&frame(2001, &body, Mode::Async)).unwrap();
    assert_eq!(ack.kind, MessageKind::AsyncAck);
    assert_eq!(ack.body.len(), 12);

    let mut raw = frame(0x42, &body, Mode::Sync);
    raw[16..20].copy_from_slice(&0x0400_0000u32.to_be_bytes());
    let indication = Message::parse(&raw).unwrap();
    assert_eq!(indication.kind, MessageKind::Unsolicited);
    assert_eq!(indication.body, body);
}

#[test]
fn async_response_without_echo_is_a_protocol_error() {
    let mut raw = frame(0x10, &[], Mode::Sync);
    raw[16..20].copy_from_slice(&TXID_ASYNC.to_be_bytes());
    raw.extend_from_slice(&asn_int(7));
    match Message::parse(&raw) {
        Err(Error::Protocol(message)) => {
            assert_eq!(message, "async response is missing the echoed id 0x11000101")
        }
        other => panic!("unexpected {other:?}"),
    }
}

#[test]
fn short_messages_are_protocol_errors() {
    match Message::parse(&[0u8; 19]) {
        Err(Error::Protocol(message)) => assert_eq!(message, "message too short: 19 bytes"),
        other => panic!("unexpected {other:?}"),
    }
    let mut raw = vec![0u8; 20];
    raw[4] = 0x55;
    assert!(matches!(Message::parse(&raw), Err(Error::Codec(_))));
}

#[test]
fn frame_length_waits_for_a_whole_frame() {
    assert!(matches!(frame_length(&[1, 2]), Ok(None)));
    let raw = frame(1, &pack_u32(0), Mode::Sync);
    assert!(matches!(frame_length(&raw[..10]), Ok(None)));
    let mut two = raw.clone();
    two.extend_from_slice(&raw);
    assert_eq!(frame_length(&two).unwrap(), Some(raw.len()));
}

#[test]
fn read_rejects_an_implausible_frame_length() {
    let result = frame_length(&u32::MAX.to_le_bytes());
    assert!(matches!(result, Err(Error::Protocol(_))));
    match frame_length(&[3, 0, 0, 0]) {
        Err(Error::Protocol(message)) => {
            assert_eq!(message, "invalid RPC frame length 7, channel out of sync")
        }
        other => panic!("unexpected {other:?}"),
    }
    assert!(matches!(frame_length(&[3, 0, 0, 0]), Err(Error::Protocol(_))));
}

#[test]
fn attach_permission_indication() {
    let mut body = asn_int(0).to_vec();
    body.extend_from_slice(&asn_int(0));
    body.extend_from_slice(&asn_int(1));
    let mut raw = frame(0x77, &body, Mode::Sync);
    raw[16..20].copy_from_slice(&0x0400_0000u32.to_be_bytes());
    let message = Message::parse(&raw).unwrap();
    assert_eq!(attach_permission(&message, 0x77), Some(true));
    assert_eq!(attach_permission(&message, 0x78), None);
    let mut raw = frame(0x77, &asn_int(5), Mode::Sync);
    raw[16..20].copy_from_slice(&0x0400_0000u32.to_be_bytes());
    let short = Message::parse(&raw).unwrap();
    assert_eq!(attach_permission(&short, 0x77), None);
}

#[test]
fn async_requests_with_acknowledgement_codes_read_back_as_acknowledgements() {
    let body = pack_u32(5);
    let raw = frame(2001, &body, Mode::Async);
    assert_eq!(frame_length(&raw).unwrap(), Some(raw.len()));
    let message = Message::parse(&raw).unwrap();
    assert_eq!(message.kind, MessageKind::AsyncAck);
    assert_eq!(message.code, 2001);
    assert_eq!(message.tid, TXID_ASYNC);
    let mut expected_body = asn_int(TXID_ASYNC).to_vec();
    expected_body.extend_from_slice(&body);
    assert_eq!(message.body, expected_body);
    assert_eq!(message.content, vec![Value::Int(TXID_ASYNC), Value::Int(5)]);
    assert!(!answers_request(&message));
    let sync = Message::parse(&frame(2001, &body, Mode::Sync)).unwrap();
    assert_eq!(sync.kind, MessageKind::Response);
    assert!(answers_request(&sync));
}

#[test]
fn empty_bodies_frame_and_read_back() {
    let raw = frame(0x30, &[], Mode::Sync);
    assert_eq!(raw.len(), 20);
    let message = Message::parse(&raw).unwrap();
    assert_eq!(message.kind, MessageKind::Response);
    assert!(message.body.is_empty());
    assert!(message.content.is_empty());
}

#[test]
fn frame_length_reports_large_lengths() {
    match frame_length(&[0xfd, 0xff, 0x0f, 0]) {
        Err(Error::Protocol(message)) => {
            assert_eq!(message, "invalid RPC frame length 1048577, channel out of sync")
        }
        other => panic!("unexpected {other:?}"),
    }
    assert!(matches!(frame_length(&[0xfc, 0xff, 0x0f, 0]), Ok(None)));
    match Message::parse(&[]) {
        Err(Error::Protocol(message)) => assert_eq!(message, "message too short: 0 bytes"),
        other => panic!("unexpected {other:?}"),
    }
}

fn indication(code: u32, allowed: u32) -> Message {
    let mut body = asn_int(0).to_vec();
    body.extend_from_slice(&asn_int(0));
    body.extend_from_slice(&asn_int(allowed));
    let mut raw = frame(code, &body, Mode::Sync);
    raw[16..20].copy_from_slice(&0x0400_0000u32.to_be_bytes());
    Message::parse(&raw).unwrap()
}

#[test]
fn the_last_attach_indication_wins() {
    let mut permission = AttachPermission::new();
    assert!(!permission.allowed());
    permission.observe(&indication(0x77, 1), 0x77);
    assert!(permission.allowed());
    permission.observe(&indication(0x78, 0), 0x77);
    assert!(permission.allowed());
    permission.observe(&indication(0x77, 0), 0x77);
    assert!(!permission.allowed());
    permission.observe(&indication(0x77, 2), 0x77);
    assert!(permission.allowed());
    permission.reset();
    assert!(!permission.allowed());
}

#[test]
fn number_text() {
    assert_eq!(decimal_text(0), "0");
    assert_eq!(decimal_text(1048580), "1048580");
    assert_eq!(hex_text(0), "0");
    assert_eq!(hex_text(0x1100_0101), "11000101");
    assert_eq!(hex_text(u32::MAX), "ffffffff");
}

#[test]
fn waiting_for_the_port() {
    assert_eq!(readiness(-1), Readiness::Failed);
    assert_eq!(readiness(0), Readiness::Quiet);
    assert_eq!(readiness(1), Readiness::Readable);
    assert_eq!(poll_wait_ms(0), 0);
    assert_eq!(poll_wait_ms(30_000), 30_000);
    assert_eq!(poll_wait_ms(u128::from(u64::MAX)), i32::MAX);
}
