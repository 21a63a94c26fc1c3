use fastwebsockets::Frame;
use fastwebsockets::OpCode;
use fastwebsockets::ReadOutcome;
use fastwebsockets::WebSocket;
use fastwebsockets::WriteOutcome;
use fastwebsockets::WsError;

fn expect_frame(ws: &mut WebSocket) -> Frame {
    match ws.read_step() {
        ReadOutcome::Frame(f) => f,
        other => panic!("expected a surfaced frame, got {:?}", kind(&other)),
    }
}

fn kind(r: &ReadOutcome) -> &'static str {
    match r {
        ReadOutcome::NeedData(_) => "NeedData",
        ReadOutcome::Reply(_) => "Reply",
        ReadOutcome::Frame(_) => "Frame",
        ReadOutcome::ReplyFrame(_, _) => "ReplyFrame",
        ReadOutcome::ReplyError(_, _) => "ReplyError",
        ReadOutcome::Error(_) => "Error",
    }
}

#[test]
fn text_echo_scenario() {
    let mut ws = WebSocket::after_handshake();
    ws.feed(&[0x81, 0x85, 0x00, 0x00, 0x00, 0x00, b'H', b'e', b'l', b'l', b'o']);
    let f = expect_frame(&mut ws);
    assert!(f.fin);
    assert_eq!(f.opcode, OpCode::Text);
    assert!(f.mask.is_none());
    assert_eq!(f.payload, b"Hello".to_vec());
}

#[test]
fn masked_binary_scenario() {
    let mut ws = WebSocket::after_handshake();
    ws.feed(&[0x82, 0x83, 0x01, 0x02, 0x03, 0x04, 0x00, 0x00, 0x00]);
    let f = expect_frame(&mut ws);
    assert!(f.fin);
    assert_eq!(f.opcode, OpCode::Binary);
    assert!(f.mask.is_none());
    assert_eq!(f.payload, vec![0x01, 0x02, 0x03]);
}

#[test]
fn auto_pong_scenario() {
    let mut ws = WebSocket::after_handshake();
    ws.feed(&[0x89, 0x80, 0x00, 0x00, 0x00, 0x00]);
    match ws.read_step() {
        ReadOutcome::Reply(data) => assert_eq!(data, vec![0x8A, 0x00]),
        other => panic!("expected an automatic pong, got {:?}", kind(&other)),
    }
    match ws.read_step() {
        ReadOutcome::NeedData(n) => assert_eq!(n, 2),
        other => panic!("expected to wait for more bytes, got {:?}", kind(&other)),
    }
}

#[test]
fn ping_payload_echoed_in_pong() {
    let mut ws = WebSocket::after_handshake();
    ws.feed(&[0x89, 0x02, 0xAB, 0xCD]);
    match ws.read_step() {
        ReadOutcome::Reply(data) => assert_eq!(data, vec![0x8A, 0x02, 0xAB, 0xCD]),
        other => panic!("expected an automatic pong, got {:?}", kind(&other)),
    }
}

#[test]
fn close_echo_scenario() {
    let mut ws = WebSocket::after_handshake();
    ws.feed(&[0x88, 0x82, 0x00, 0x00, 0x00, 0x00, 0x03, 0xE8]);
    match ws.read_step() {
        ReadOutcome::ReplyFrame(data, f) => {
            assert_eq!(data, vec![0x88, 0x02, 0x03, 0xE8]);
            assert_eq!(f.opcode, OpCode::Close);
            assert!(f.fin);
            assert!(f.mask.is_none());
            assert_eq!(f.payload, vec![0x03, 0xE8]);
        }
        other => panic!("expected a close echo, got {:?}", kind(&other)),
    }
}

#[test]
fn disallowed_close_scenario() {
    let mut ws = WebSocket::after_handshake();
    // Close with code 1004 and no reason.
    ws.feed(&[0x88, 0x82, 0x00, 0x00, 0x00, 0x00, 0x03, 0xEC]);
    match ws.read_step() {
        ReadOutcome::ReplyError(data, err) => {
            // The answer carries code 1002 and echoes the (empty) reason.
            assert_eq!(data, vec![0x88, 0x02, 0x03, 0xEA]);
            assert_eq!(err, WsError::InvalidClose);
        }
        other => panic!("expected a close answer and a failure, got {:?}", kind(&other)),
    }
}

#[test]
fn disallowed_close_echoes_reason() {
    let mut ws = WebSocket::after_handshake();
    // Close with code 1005 and reason "no".
    ws.feed(&[0x88, 0x04, 0x03, 0xED, b'n', b'o']);
    match ws.read_step() {
        ReadOutcome::ReplyError(data, err) => {
            assert_eq!(data, vec![0x88, 0x04, 0x03, 0xEA, b'n', b'o']);
            assert_eq!(err, WsError::InvalidClose);
        }
        other => panic!("expected a close answer and a failure, got {:?}", kind(&other)),
    }
}

#[test]
fn empty_close_is_echoed() {
    let mut ws = WebSocket::after_handshake();
    ws.feed(&[0x88, 0x80, 0x00, 0x00, 0x00, 0x00]);
    match ws.read_step() {
        ReadOutcome::ReplyFrame(data, f) => {
            assert_eq!(data, vec![0x88, 0x00]);
            assert_eq!(f.opcode, OpCode::Close);
            assert!(f.payload.is_empty());
        }
        other => panic!("expected a close echo, got {:?}", kind(&other)),
    }
}

#[test]
fn one_byte_close_is_invalid() {
    let mut ws = WebSocket::after_handshake();
    ws.feed(&[0x88, 0x01, 0xE8]);
    match ws.read_step() {
        ReadOutcome::Error(err) => assert_eq!(err, WsError::InvalidClose),
        other => panic!("expected a failure, got {:?}", kind(&other)),
    }
}

#[test]
fn close_reason_must_be_utf8() {
    let mut ws = WebSocket::after_handshake();
    ws.feed(&[0x88, 0x03, 0x03, 0xE8, 0xFF]);
    match ws.read_step() {
        ReadOutcome::Error(err) => assert_eq!(err, WsError::InvalidUtf8),
        other => panic!("expected a failure, got {:?}", kind(&other)),
    }
}

#[test]
fn close_surfaced_untouched_without_auto_close() {
    let mut ws = WebSocket::after_handshake();
    ws.set_auto_close(false);
    ws.feed(&[0x88, 0x02, 0x03, 0xEC]);
    let f = expect_frame(&mut ws);
    assert_eq!(f.opcode, OpCode::Close);
    assert_eq!(f.payload, vec![0x03, 0xEC]);
}

#[test]
fn ping_surfaced_without_auto_pong() {
    let mut ws = WebSocket::after_handshake();
    ws.set_auto_pong(false);
    ws.feed(&[0x89, 0x01, 0x07]);
    let f = expect_frame(&mut ws);
    assert_eq!(f.opcode, OpCode::Ping);
    assert_eq!(f.payload, vec![0x07]);
}

#[test]
fn pong_frames_are_swallowed() {
    let mut ws = WebSocket::after_handshake();
    ws.feed(&[0x8A, 0x01, 0x55, 0x81, 0x01, b'x']);
    let f = expect_frame(&mut ws);
    assert_eq!(f.opcode, OpCode::Text);
    assert_eq!(f.payload, b"x".to_vec());
}

#[test]
fn reserved_bit_set_scenario() {
    let mut ws = WebSocket::after_handshake();
    ws.feed(&[0xC1, 0x00]);
    match ws.read_step() {
        ReadOutcome::Error(err) => assert_eq!(err, WsError::ProtocolError),
        other => panic!("expected a failure, got {:?}", kind(&other)),
    }
}

#[test]
fn oversize_ping_scenario() {
    let mut ws = WebSocket::after_handshake();
    ws.feed(&[0x89, 0x7E, 0x00, 0x7E]);
    match ws.read_step() {
        ReadOutcome::Error(err) => assert_eq!(err, WsError::ProtocolError),
        other => panic!("expected a failure, got {:?}", kind(&other)),
    }
}

#[test]
fn fragmented_control_frame_is_invalid() {
    let mut ws = WebSocket::after_handshake();
    ws.feed(&[0x09, 0x00]);
    match ws.read_step() {
        ReadOutcome::Error(err) => assert_eq!(err, WsError::ProtocolError),
        other => panic!("expected a failure, got {:?}", kind(&other)),
    }
}

#[test]
fn unknown_opcode_is_invalid() {
    let mut ws = WebSocket::after_handshake();
    ws.feed(&[0x83, 0x00]);
    match ws.read_step() {
        ReadOutcome::Error(err) => assert_eq!(err, WsError::ProtocolError),
        other => panic!("expected a failure, got {:?}", kind(&other)),
    }
}

#[test]
fn invalid_utf8_text_is_rejected() {
    let mut ws = WebSocket::after_handshake();
    ws.feed(&[0x81, 0x02, 0xFF, 0xFE]);
    match ws.read_step() {
        ReadOutcome::Error(err) => assert_eq!(err, WsError::InvalidUtf8),
        other => panic!("expected a failure, got {:?}", kind(&other)),
    }
}

#[test]
fn non_final_text_defers_utf8_validation() {
    let mut ws = WebSocket::after_handshake();
    // First half of a two-byte encoding: invalid alone, fine deferred.
    ws.feed(&[0x01, 0x01, 0xC3]);
    let f = expect_frame(&mut ws);
    assert_eq!(f.opcode, OpCode::Text);
    assert!(!f.fin);
    assert_eq!(f.payload, vec![0xC3]);
}

#[test]
fn declared_length_at_limit_is_too_large() {
    let mut ws = WebSocket::after_handshake();
    ws.set_max_message_size(10);
    ws.feed(&[0x81, 0x0A]);
    match ws.read_step() {
        ReadOutcome::Error(err) => assert_eq!(err, WsError::MessageTooLarge),
        other => panic!("expected a failure, got {:?}", kind(&other)),
    }
}

#[test]
fn declared_length_below_limit_is_accepted() {
    let mut ws = WebSocket::after_handshake();
    ws.set_max_message_size(10);
    ws.feed(&[0x82, 0x09, 1, 2, 3, 4, 5, 6, 7, 8, 9]);
    let f = expect_frame(&mut ws);
    assert_eq!(f.payload.len(), 9);
}

#[test]
fn header_split_across_reads() {
    let mut ws = WebSocket::after_handshake();
    ws.feed(&[0x81]);
    match ws.read_step() {
        ReadOutcome::NeedData(n) => assert_eq!(n, 2),
        other => panic!("expected to wait for more bytes, got {:?}", kind(&other)),
    }
    ws.feed(&[0x05, b'H', b'e', b'l', b'l', b'o']);
    let f = expect_frame(&mut ws);
    assert_eq!(f.payload, b"Hello".to_vec());
}

#[test]
fn masked_header_split_across_reads() {
    let mut ws = WebSocket::after_handshake();
    ws.feed(&[0x82, 0x82]);
    match ws.read_step() {
        ReadOutcome::NeedData(n) => assert_eq!(n, 6),
        other => panic!("expected to wait for the mask, got {:?}", kind(&other)),
    }
    ws.feed(&[0x01, 0x01, 0x01, 0x01]);
    match ws.read_step() {
        ReadOutcome::NeedData(n) => assert_eq!(n, 8),
        other => panic!("expected to wait for the payload, got {:?}", kind(&other)),
    }
    ws.feed(&[0x0F, 0xF0]);
    let f = expect_frame(&mut ws);
    assert_eq!(f.payload, vec![0x0E, 0xF1]);
}

#[test]
fn two_frames_in_one_read() {
    let mut ws = WebSocket::after_handshake();
    ws.feed(&[0x81, 0x01, b'A', 0x82, 0x01, 0x42]);
    let first = expect_frame(&mut ws);
    assert_eq!(first.opcode, OpCode::Text);
    assert_eq!(first.payload, b"A".to_vec());
    let second = expect_frame(&mut ws);
    assert_eq!(second.opcode, OpCode::Binary);
    assert_eq!(second.payload, vec![0x42]);
}

#[test]
fn prepare_write_contiguous() {
    let mut ws = WebSocket::after_handshake();
    match ws.prepare_write(Frame::text(b"Hello".to_vec())) {
        WriteOutcome::Contiguous(data) => {
            assert_eq!(data, vec![0x81, 0x05, b'H', b'e', b'l', b'l', b'o'])
        }
        WriteOutcome::Vectored(_, _) => panic!("expected one contiguous buffer"),
    }
}

#[test]
fn prepare_write_vectored() {
    let mut ws = WebSocket::after_handshake();
    ws.set_writev(true);
    match ws.prepare_write(Frame::text(b"Hello".to_vec())) {
        WriteOutcome::Vectored(head, payload) => {
            assert_eq!(head, vec![0x81, 0x05]);
            assert_eq!(payload, b"Hello".to_vec());
        }
        WriteOutcome::Contiguous(_) => panic!("expected head and payload apart"),
    }
}

#[test]
fn try_write_records_short_write() {
    let mut ws = WebSocket::after_handshake();
    assert!(!ws.partial_write_pending());
    let done = ws.try_write(Frame::text(b"Hi".to_vec()), 2);
    assert!(!done);
    assert!(ws.partial_write_pending());
    let tail = ws.take_partial_write().expect("a tail should be pending");
    assert_eq!(tail, b"Hi".to_vec());
    assert!(!ws.partial_write_pending());
}

#[test]
fn try_write_complete() {
    let mut ws = WebSocket::after_handshake();
    let done = ws.try_write(Frame::text(b"Hi".to_vec()), 4);
    assert!(done);
    assert!(ws.take_partial_write().is_none());
}
