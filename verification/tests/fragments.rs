use fastwebsockets::Frame;
use fastwebsockets::FragmentCollector;
use fastwebsockets::OpCode;
use fastwebsockets::ReadOutcome;
use fastwebsockets::WebSocket;
use fastwebsockets::WsError;

fn surfaced(ws: &mut WebSocket) -> Frame {
    match ws.read_step() {
        ReadOutcome::Frame(f) => f,
        _ => panic!("expected a surfaced frame"),
    }
}

#[test]
fn fragmented_text_scenario() {
    let mut ws = WebSocket::after_handshake();
    let mut fc = FragmentCollector::new();
    ws.feed(&[0x01, 0x83, 0x00, 0x00, 0x00, 0x00, b'H', b'e', b'l']);
    let first = surfaced(&mut ws);
    assert_eq!(first.opcode, OpCode::Text);
    assert!(!first.fin);
    assert_eq!(fc.accept(first).unwrap(), None);
    ws.feed(&[0x80, 0x82, 0x00, 0x00, 0x00, 0x00, b'l', b'o']);
    let second = surfaced(&mut ws);
    assert_eq!(second.opcode, OpCode::Continuation);
    assert!(second.fin);
    let whole = fc.accept(second).unwrap().expect("the run is closed");
    assert!(whole.fin);
    assert_eq!(whole.opcode, OpCode::Text);
    assert!(whole.mask.is_none());
    assert_eq!(whole.payload, b"Hello".to_vec());
}

#[test]
fn final_data_frame_passes_through() {
    let mut fc = FragmentCollector::new();
    let f = Frame::binary(vec![1, 2, 3]);
    let out = fc.accept(f).unwrap().expect("a final frame passes through");
    assert_eq!(out.opcode, OpCode::Binary);
    assert_eq!(out.payload, vec![1, 2, 3]);
}

#[test]
fn unexpected_continuation_is_invalid() {
    let mut fc = FragmentCollector::new();
    let cont = Frame::new(true, OpCode::Continuation, None, vec![1]);
    assert_eq!(fc.accept(cont), Err(WsError::ProtocolError));
}

#[test]
fn data_frame_during_run_is_invalid() {
    let mut fc = FragmentCollector::new();
    let start = Frame::new(false, OpCode::Text, None, b"ab".to_vec());
    assert_eq!(fc.accept(start).unwrap(), None);
    let other = Frame::text(b"cd".to_vec());
    assert_eq!(fc.accept(other), Err(WsError::ProtocolError));
}

#[test]
fn control_frames_interleave_a_run() {
    let mut fc = FragmentCollector::new();
    let start = Frame::new(false, OpCode::Binary, None, vec![1]);
    assert_eq!(fc.accept(start).unwrap(), None);
    let ping = Frame::new(true, OpCode::Ping, None, vec![9]);
    let out = fc.accept(ping).unwrap().expect("control frames pass through");
    assert_eq!(out.opcode, OpCode::Ping);
    let middle = Frame::new(false, OpCode::Continuation, None, vec![2]);
    assert_eq!(fc.accept(middle).unwrap(), None);
    let last = Frame::new(true, OpCode::Continuation, None, vec![3]);
    let whole = fc.accept(last).unwrap().expect("the run is closed");
    assert_eq!(whole.opcode, OpCode::Binary);
    assert_eq!(whole.payload, vec![1, 2, 3]);
}

#[test]
fn utf8_checked_on_reassembled_text() {
    let mut fc = FragmentCollector::new();
    // A euro sign split across fragments: each part alone is not UTF-8.
    let start = Frame::new(false, OpCode::Text, None, vec![0xE2]);
    assert_eq!(fc.accept(start).unwrap(), None);
    let last = Frame::new(true, OpCode::Continuation, None, vec![0x82, 0xAC]);
    let whole = fc.accept(last).unwrap().expect("the run is closed");
    assert_eq!(whole.payload, vec![0xE2, 0x82, 0xAC]);
}

#[test]
fn invalid_utf8_reassembly_fails() {
    let mut fc = FragmentCollector::new();
    let start = Frame::new(false, OpCode::Text, None, vec![0xFF]);
    assert_eq!(fc.accept(start).unwrap(), None);
    let last = Frame::new(true, OpCode::Continuation, None, vec![]);
    assert_eq!(fc.accept(last), Err(WsError::InvalidUtf8));
}

#[test]
fn binary_reassembly_skips_utf8_check() {
    let mut fc = FragmentCollector::new();
    let start = Frame::new(false, OpCode::Binary, None, vec![0xFF]);
    assert_eq!(fc.accept(start).unwrap(), None);
    let last = Frame::new(true, OpCode::Continuation, None, vec![0xFE]);
    let whole = fc.accept(last).unwrap().expect("the run is closed");
    assert_eq!(whole.payload, vec![0xFF, 0xFE]);
}

#[test]
fn accumulator_is_capped() {
    let mut fc = FragmentCollector::with_max_message_size(4);
    let start = Frame::new(false, OpCode::Binary, None, vec![1, 2, 3]);
    assert_eq!(fc.accept(start).unwrap(), None);
    let last = Frame::new(true, OpCode::Continuation, None, vec![4, 5]);
    assert_eq!(fc.accept(last), Err(WsError::ProtocolError));
}
