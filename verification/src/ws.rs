//! The connection state machine.
//!
//! A `WebSocket` owns no transport. Bytes that arrive from the stream are
//! handed in with `feed`; `read_step` then decides what the protocol does
//! next — wait for more bytes, answer a ping, echo a close, surface a
//! frame, or fail — and hands back the bytes any automatic answer has to
//! put on the wire. The write path prepares outbound frames the same way:
//! `prepare_write` encodes a frame either contiguously or as a separate
//! head and payload for a vectored write, and `try_write` records the
//! tail of a single short write attempt.

use vstd::prelude::*;

use crate::bytes::{from_be, lemma_from_be_2, lemma_to_be_len, to_be};
use crate::close::{close_code_allowed, CloseCode};
use crate::codec::{decode_spec, lemma_parsed_bounds, parse_frame, DecodeSpec, ParseOutcome};
use crate::error::WsError;
use crate::frame::{
    encode_bytes, head_bytes, head_size, is_control_op, lemma_head_bytes_len, Frame, FrameSpec,
    OpCode, MAX_HEAD_SIZE,
};
use crate::mask::unmask_opt;
use crate::utf8::{is_utf8_seq, validate_utf8_from};

verus! {

/// The default cap on a declared payload length: 64 MiB.
pub const DEFAULT_MAX_MESSAGE_SIZE: usize = 0x400_0000;

/// The connection as a mathematical value.
#[verifier::ext_equal]
pub struct WsView {
    pub write_buffer: Seq<u8>,
    pub partial_write: Option<Seq<u8>>,
    pub read_buffer: Seq<u8>,
    pub vectored: bool,
    pub auto_close: bool,
    pub auto_pong: bool,
    pub max_message_size: nat,
}

/// One side of a WebSocket connection, after the opening handshake.
///
/// `read_buffer` accumulates transport bytes until they hold a whole
/// frame; `write_buffer` is grow-only encoding scratch; `partial_write`
/// keeps the unwritten tail of a short write until it is drained.
pub struct WebSocket {
    write_buffer: Vec<u8>,
    partial_write: Option<Vec<u8>>,
    read_buffer: Vec<u8>,
    vectored: bool,
    auto_close: bool,
    auto_pong: bool,
    max_message_size: usize,
}

impl View for WebSocket {
    type V = WsView;

    closed spec fn view(&self) -> WsView {
        WsView {
            write_buffer: self.write_buffer@,
            partial_write: match self.partial_write {
                Some(ref v) => Some(v@),
                None => None,
            },
            read_buffer: self.read_buffer@,
            vectored: self.vectored,
            auto_close: self.auto_close,
            auto_pong: self.auto_pong,
            max_message_size: self.max_message_size as nat,
        }
    }
}

/// An outbound frame, encoded: one buffer holding head and payload, or
/// the two of them apart, to be written as two slices of one vectored
/// write.
pub enum WriteOutcome {
    Contiguous(Vec<u8>),
    Vectored(Vec<u8>, Vec<u8>),
}

/// Copy `src[from..to]` into a fresh buffer.
fn copy_range(src: &Vec<u8>, from: usize, to: usize) -> (r: Vec<u8>)
    requires
        from <= to <= src@.len(),
    ensures
        r@ == src@.subrange(from as int, to as int),
{
    let mut r: Vec<u8> = Vec::new();
    let mut i = from;
    while i < to
        invariant
            from <= i <= to <= src@.len(),
            r@ == src@.subrange(from as int, i as int),
        decreases to - i,
    {
        r.push(src[i]);
        proof {
            assert(src@.subrange(from as int, i + 1) =~= src@.subrange(from as int, i as int)
                + seq![src@[i as int]]);
        }
        i = i + 1;
    }
    r
}

/// Encode a whole frame into a fresh buffer.
fn encode_frame(frame: &Frame) -> (r: Vec<u8>)
    requires
        frame.payload@.len() + MAX_HEAD_SIZE <= usize::MAX,
    ensures
        r@ == encode_bytes(frame.fin, frame.opcode, frame.payload@),
{
    let mut buf: Vec<u8> = Vec::new();
    let n = frame.write(&mut buf);
    buf.truncate(n);
    buf
}

impl WebSocket {
    /// A fresh connection over a stream whose opening handshake is done:
    /// automatic close echo and pong on, plain writes, and the default
    /// message-size cap.
    pub fn after_handshake() -> (r: WebSocket)
        ensures
            r@ == (WsView {
                write_buffer: Seq::<u8>::empty(),
                partial_write: None,
                read_buffer: Seq::<u8>::empty(),
                vectored: false,
                auto_close: true,
                auto_pong: true,
                max_message_size: DEFAULT_MAX_MESSAGE_SIZE as nat,
            }),
    {
        WebSocket {
            write_buffer: Vec::new(),
            partial_write: None,
            read_buffer: Vec::new(),
            vectored: false,
            auto_close: true,
            auto_pong: true,
            max_message_size: DEFAULT_MAX_MESSAGE_SIZE,
        }
    }

    /// Emit data frames as separate head and payload slices.
    pub fn set_writev(&mut self, vectored: bool)
        ensures
            final(self)@ == (WsView { vectored, ..old(self)@ }),
    {
        self.vectored = vectored;
    }

    /// Echo close frames automatically before surfacing them.
    pub fn set_auto_close(&mut self, auto_close: bool)
        ensures
            final(self)@ == (WsView { auto_close, ..old(self)@ }),
    {
        self.auto_close = auto_close;
    }

    /// Answer pings with pongs automatically instead of surfacing them.
    pub fn set_auto_pong(&mut self, auto_pong: bool)
        ensures
            final(self)@ == (WsView { auto_pong, ..old(self)@ }),
    {
        self.auto_pong = auto_pong;
    }

    /// Cap the payload length a frame may declare.
    pub fn set_max_message_size(&mut self, max_message_size: usize)
        ensures
            final(self)@ == (WsView { max_message_size: max_message_size as nat, ..old(self)@ }),
    {
        self.max_message_size = max_message_size;
    }

    /// Hand bytes read from the transport to the connection.
    pub fn feed(&mut self, data: &[u8])
        ensures
            final(self)@ == (WsView { read_buffer: old(self)@.read_buffer + data@, ..old(self)@ }),
    {
        let n = data.len();
        let mut i: usize = 0;
        while i < n
            invariant
                i <= n == data@.len(),
                self.read_buffer@ == old(self)@.read_buffer + data@.subrange(0, i as int),
                self.write_buffer@ == old(self)@.write_buffer,
                self.partial_write == old(self).partial_write,
                self.vectored == old(self)@.vectored,
                self.auto_close == old(self)@.auto_close,
                self.auto_pong == old(self)@.auto_pong,
                self.max_message_size as nat == old(self)@.max_message_size,
            decreases n - i,
        {
            let b = data[i];
            self.read_buffer.push(b);
            proof {
                assert(old(self)@.read_buffer + data@.subrange(0, i + 1) =~= (old(
                    self,
                )@.read_buffer + data@.subrange(0, i as int)).push(data@[i as int]));
            }
            i = i + 1;
        }
        proof {
            assert(data@.subrange(0, n as int) =~= data@);
            assert(self@ =~= (WsView { read_buffer: old(self)@.read_buffer + data@, ..old(self)@ }));
        }
    }

    /// Whether the tail of an earlier short write is still waiting.
    pub fn partial_write_pending(&self) -> (r: bool)
        ensures
            r == (self@.partial_write is Some),
    {
        self.partial_write.is_some()
    }

    /// Take the unwritten tail of the last short write, to be drained to
    /// the transport before anything else is written.
    pub fn take_partial_write(&mut self) -> (r: Option<Vec<u8>>)
        ensures
            final(self)@ == (WsView { partial_write: None, ..old(self)@ }),
            match r {
                Some(v) => old(self)@.partial_write == Some(v@),
                None => old(self)@.partial_write is None,
            },
    {
        self.partial_write.take()
    }

    /// Encode `frame` for the transport: a separate head and payload when
    /// vectored writes are on, one contiguous buffer otherwise. The mask
    /// field is ignored; a server writes unmasked frames.
    pub fn prepare_write(&self, frame: Frame) -> (r: WriteOutcome)
        requires
            frame.payload@.len() + MAX_HEAD_SIZE <= usize::MAX,
        ensures
            self@.vectored ==> ({
                &&& r matches WriteOutcome::Vectored(head, payload)
                &&& head@ == head_bytes(frame.fin, frame.opcode, frame.payload@.len())
                &&& payload@ == frame.payload@
            }),
            !self@.vectored ==> ({
                &&& r matches WriteOutcome::Contiguous(data)
                &&& data@ == encode_bytes(frame.fin, frame.opcode, frame.payload@)
            }),
    {
        if self.vectored {
            let mut head: Vec<u8> = Vec::new();
            let mut i: usize = 0;
            while i < MAX_HEAD_SIZE
                invariant
                    i <= MAX_HEAD_SIZE,
                    head@.len() == i,
                decreases MAX_HEAD_SIZE - i,
            {
                head.push(0u8);
                i = i + 1;
            }
            let size = frame.fmt_head(&mut head);
            head.truncate(size);
            proof {
                lemma_head_bytes_len(frame.fin, frame.opcode, frame.payload@.len());
            }
            WriteOutcome::Vectored(head, frame.payload)
        } else {
            let data = encode_frame(&frame);
            WriteOutcome::Contiguous(data)
        }
    }

    /// Record one write attempt of `frame`'s encoding: the caller tried a
    /// single transport write of the encoded bytes and got `written` of
    /// them out. The frame is (re)encoded into the write buffer; when the
    /// attempt fell short, the unwritten tail is kept as the pending
    /// partial write, and the result says whether the frame went out
    /// whole. No partial write may already be pending.
    pub fn try_write(&mut self, frame: Frame, written: usize) -> (r: bool)
        requires
            old(self)@.partial_write is None,
            frame.payload@.len() + MAX_HEAD_SIZE <= usize::MAX,
        ensures
            ({
                let total = head_size(frame.payload@.len()) + frame.payload@.len();
                let encoded = encode_bytes(frame.fin, frame.opcode, frame.payload@);
                &&& r == (written >= total)
                &&& final(self)@.partial_write == (if written >= total {
                    None
                } else {
                    Some(encoded.skip(written as int))
                })
                &&& final(self)@.write_buffer.len() >= total
                &&& final(self)@.write_buffer.subrange(0, total as int) == encoded
                &&& final(self)@.read_buffer == old(self)@.read_buffer
                &&& final(self)@.vectored == old(self)@.vectored
                &&& final(self)@.auto_close == old(self)@.auto_close
                &&& final(self)@.auto_pong == old(self)@.auto_pong
                &&& final(self)@.max_message_size == old(self)@.max_message_size
            }),
    {
        let total = frame.write(&mut self.write_buffer);
        if written < total {
            let tail = copy_range(&self.write_buffer, written, total);
            proof {
                assert(self.write_buffer@.subrange(written as int, total as int) =~= self
                    .write_buffer@.subrange(0, total as int).skip(written as int));
            }
            self.partial_write = Some(tail);
            false
        } else {
            true
        }
    }
}

/// What one read step asks of the caller.
pub enum ReadOutcome {
    /// Not yet a whole frame: read more transport bytes, `feed` them,
    /// and step again. A whole frame takes at least this many buffered
    /// bytes.
    NeedData(usize),
    /// An automatic answer (a pong): write these bytes to the transport
    /// and step again.
    Reply(Vec<u8>),
    /// A frame for the caller.
    Frame(Frame),
    /// An automatic answer (a close echo): write these bytes, then the
    /// frame is for the caller.
    ReplyFrame(Vec<u8>, Frame),
    /// An answer the peer is owed (a close with code 1002): write these
    /// bytes, then the connection has failed.
    ReplyError(Vec<u8>, WsError),
    /// The connection has failed.
    Error(WsError),
}

/// The outcome of one read step, as a mathematical value.
#[verifier::ext_equal]
pub enum StepSpec {
    NeedData { need: nat },
    Reply { data: Seq<u8> },
    Surface { frame: FrameSpec },
    ReplySurface { data: Seq<u8>, frame: FrameSpec },
    ReplyFail { data: Seq<u8>, err: WsError },
    Fail { err: WsError },
}

/// The close policy on an unmasked close frame `f`: a 1-byte payload is
/// invalid; with 2 or more bytes the code must be one a peer may send
/// and the reason must be valid UTF-8, else the answer is a close with
/// code 1002 and the same reason; an allowed or empty close is echoed
/// verbatim and surfaced.
pub open spec fn close_step(f: FrameSpec) -> StepSpec {
    let pl = f.payload;
    if pl.len() == 1 {
        StepSpec::Fail { err: WsError::InvalidClose }
    } else if pl.len() >= 2 {
        let code = from_be(pl.subrange(0, 2));
        if !is_utf8_seq(pl.skip(2)) {
            StepSpec::Fail { err: WsError::InvalidUtf8 }
        } else if !close_code_allowed(code as u16) {
            StepSpec::ReplyFail {
                data: encode_bytes(true, OpCode::Close, to_be(1002, 2) + pl.skip(2)),
                err: WsError::InvalidClose,
            }
        } else {
            StepSpec::ReplySurface { data: encode_bytes(true, OpCode::Close, pl), frame: f }
        }
    } else {
        StepSpec::ReplySurface { data: encode_bytes(true, OpCode::Close, pl), frame: f }
    }
}

/// What one read step does to a buffer of transport bytes, and the bytes
/// that remain buffered afterwards: decode the frame at the front,
/// unmask it, then dispatch — close frames go through the close policy,
/// pings are answered with a pong carrying the same payload, pongs are
/// swallowed and the step continues with the next frame, a final text
/// frame must be valid UTF-8, and everything else is surfaced as it is.
pub open spec fn step_spec(buf: Seq<u8>, auto_close: bool, auto_pong: bool, max: nat) -> (StepSpec,
    Seq<u8>)
    decreases buf.len(),
{
    match decode_spec(buf, max) {
        DecodeSpec::NeedMore { need } => (StepSpec::NeedData { need }, buf),
        DecodeSpec::Bad { err } => (StepSpec::Fail { err }, buf),
        DecodeSpec::Parsed { frame, consumed } => {
            if 2 <= consumed && consumed <= buf.len() {
                let rest = buf.skip(consumed as int);
                let pl = unmask_opt(frame.payload, frame.mask);
                let f = FrameSpec { fin: frame.fin, opcode: frame.opcode, mask: None, payload: pl };
                match frame.opcode {
                    OpCode::Close => if auto_close {
                        (close_step(f), rest)
                    } else {
                        (StepSpec::Surface { frame: f }, rest)
                    },
                    OpCode::Ping => if auto_pong {
                        (StepSpec::Reply { data: encode_bytes(true, OpCode::Pong, pl) }, rest)
                    } else {
                        (StepSpec::Surface { frame: f }, rest)
                    },
                    OpCode::Pong => step_spec(rest, auto_close, auto_pong, max),
                    OpCode::Text => if f.fin && !is_utf8_seq(pl) {
                        (StepSpec::Fail { err: WsError::InvalidUtf8 }, rest)
                    } else {
                        (StepSpec::Surface { frame: f }, rest)
                    },
                    _ => (StepSpec::Surface { frame: f }, rest),
                }
            } else {
                (StepSpec::Fail { err: WsError::ProtocolError }, buf)
            }
        },
    }
}

/// Whether an outcome value realises a step of the specification.
pub open spec fn outcome_matches(r: ReadOutcome, s: StepSpec) -> bool {
    match (r, s) {
        (ReadOutcome::NeedData(n), StepSpec::NeedData { need }) => n == need,
        (ReadOutcome::Reply(d), StepSpec::Reply { data }) => d@ == data,
        (ReadOutcome::Frame(f), StepSpec::Surface { frame }) => f@ == frame,
        (ReadOutcome::ReplyFrame(d, f), StepSpec::ReplySurface { data, frame }) => d@ == data
            && f@ == frame,
        (ReadOutcome::ReplyError(d, e), StepSpec::ReplyFail { data, err }) => d@ == data && e
            == err,
        (ReadOutcome::Error(e), StepSpec::Fail { err }) => e == err,
        _ => false,
    }
}

impl WebSocket {
    /// One step of reading: consume what the buffered bytes hold and say
    /// what happens next. Frames the policy handles by itself (pings
    /// when pongs are automatic, pongs always) are consumed without
    /// surfacing; the caller loops, writing any returned answer to the
    /// transport, until a frame or a failure comes back.
    #[verifier::loop_isolation(false)]
    pub fn read_step(&mut self) -> (r: ReadOutcome)
        ensures
            ({
                let (out, rest) = step_spec(
                    old(self)@.read_buffer,
                    old(self)@.auto_close,
                    old(self)@.auto_pong,
                    old(self)@.max_message_size,
                );
                &&& outcome_matches(r, out)
                &&& final(self)@ == (WsView { read_buffer: rest, ..old(self)@ })
            }),
    {
        let ghost orig = self@;
        loop
            invariant
                self@.write_buffer == orig.write_buffer,
                self@.partial_write == orig.partial_write,
                self@.vectored == orig.vectored,
                self@.auto_close == orig.auto_close,
                self@.auto_pong == orig.auto_pong,
                self@.max_message_size == orig.max_message_size,
                step_spec(self@.read_buffer, orig.auto_close, orig.auto_pong, orig.max_message_size)
                    == step_spec(
                    orig.read_buffer,
                    orig.auto_close,
                    orig.auto_pong,
                    orig.max_message_size,
                ),
            decreases self.read_buffer@.len(),
        {
            let ghost entry = self@.read_buffer;
            proof {
                lemma_parsed_bounds(entry, orig.max_message_size);
            }
            match parse_frame(&self.read_buffer, self.max_message_size) {
                Err(e) => {
                    return ReadOutcome::Error(e);
                },
                Ok(ParseOutcome::NeedMore(n)) => {
                    return ReadOutcome::NeedData(n);
                },
                Ok(ParseOutcome::Done(mut frame, consumed)) => {
                    let ghost pf = decode_spec(
                        entry,
                        orig.max_message_size,
                    )->Parsed_frame;
                    let tail = self.read_buffer.split_off(consumed);
                    self.read_buffer = tail;
                    proof {
                        assert(self@.read_buffer =~= entry.skip(consumed as int));
                    }
                    frame.unmask();
                    let ghost pl = unmask_opt(pf.payload, pf.mask);
                    let ghost f = FrameSpec {
                        fin: pf.fin,
                        opcode: pf.opcode,
                        mask: None,
                        payload: pl,
                    };
                    proof {
                        assert(frame@ =~= f);
                    }
                    match frame.opcode {
                        OpCode::Close => {
                            if self.auto_close {
                                let plen = frame.payload.len();
                                if plen == 1 {
                                    return ReadOutcome::Error(WsError::InvalidClose);
                                }
                                if plen >= 2 {
                                    let c0 = frame.payload[0];
                                    let c1 = frame.payload[1];
                                    let code: u16 = (c0 as u16) * 256 + (c1 as u16);
                                    proof {
                                        lemma_from_be_2(pl.subrange(0, 2));
                                        assert(pl.subrange(0, 2)[0] == c0);
                                        assert(pl.subrange(0, 2)[1] == c1);
                                    }
                                    if !validate_utf8_from(&frame.payload, 2) {
                                        return ReadOutcome::Error(WsError::InvalidUtf8);
                                    }
                                    let cc = CloseCode::from_u16(code);
                                    if !cc.is_allowed() {
                                        let reason = copy_range(&frame.payload, 2, plen);
                                        proof {
                                            assert(reason@ =~= pl.skip(2));
                                            lemma_to_be_len(1002, 2);
                                        }
                                        let reply = Frame::close(1002, reason.as_slice());
                                        let data = encode_frame(&reply);
                                        return ReadOutcome::ReplyError(
                                            data,
                                            WsError::InvalidClose,
                                        );
                                    }
                                }
                                let echo_payload = copy_range(
                                    &frame.payload,
                                    0,
                                    frame.payload.len(),
                                );
                                proof {
                                    assert(echo_payload@ =~= pl);
                                }
                                let echo = Frame::close_raw(echo_payload);
                                let data = encode_frame(&echo);
                                return ReadOutcome::ReplyFrame(data, frame);
                            } else {
                                return ReadOutcome::Frame(frame);
                            }
                        },
                        OpCode::Ping => {
                            if self.auto_pong {
                                let pong = Frame::pong(frame.payload);
                                let data = encode_frame(&pong);
                                return ReadOutcome::Reply(data);
                            } else {
                                return ReadOutcome::Frame(frame);
                            }
                        },
                        OpCode::Pong => {
                        },
                        OpCode::Text => {
                            if frame.fin {
                                if !frame.is_utf8() {
                                    return ReadOutcome::Error(WsError::InvalidUtf8);
                                }
                            }
                            return ReadOutcome::Frame(frame);
                        },
                        _ => {
                            return ReadOutcome::Frame(frame);
                        },
                    }
                },
            }
        }
    }
}

/// The frame a step surfaces, if it surfaces one.
pub open spec fn surfaced_frame(out: StepSpec) -> Option<FrameSpec> {
    match out {
        StepSpec::Surface { frame } => Some(frame),
        StepSpec::ReplySurface { frame, .. } => Some(frame),
        _ => None,
    }
}

/// Every frame a read step surfaces has been unmasked: its mask field is
/// absent.
pub proof fn lemma_surfaced_frame_unmasked(buf: Seq<u8>, auto_close: bool, auto_pong: bool, max: nat)
    ensures
        match surfaced_frame(step_spec(buf, auto_close, auto_pong, max).0) {
            Some(frame) => frame.mask is None,
            None => true,
        },
    decreases buf.len(),
{
    match decode_spec(buf, max) {
        DecodeSpec::Parsed { frame, consumed } => {
            lemma_parsed_bounds(buf, max);
            if frame.opcode is Pong {
                lemma_surfaced_frame_unmasked(
                    buf.skip(consumed as int),
                    auto_close,
                    auto_pong,
                    max,
                );
            }
        },
        _ => {},
    }
}

/// Every text frame a read step surfaces as final has a payload of valid
/// UTF-8.
pub proof fn lemma_surfaced_text_utf8(buf: Seq<u8>, auto_close: bool, auto_pong: bool, max: nat)
    ensures
        match surfaced_frame(step_spec(buf, auto_close, auto_pong, max).0) {
            Some(frame) => frame.opcode is Text && frame.fin ==> is_utf8_seq(frame.payload),
            None => true,
        },
    decreases buf.len(),
{
    match decode_spec(buf, max) {
        DecodeSpec::Parsed { frame, consumed } => {
            lemma_parsed_bounds(buf, max);
            if frame.opcode is Pong {
                lemma_surfaced_text_utf8(buf.skip(consumed as int), auto_close, auto_pong, max);
            }
        },
        _ => {},
    }
}

/// Every control frame a read step surfaces is final and carries at most
/// 125 payload bytes.
pub proof fn lemma_surfaced_control_frame(buf: Seq<u8>, auto_close: bool, auto_pong: bool, max: nat)
    ensures
        match surfaced_frame(step_spec(buf, auto_close, auto_pong, max).0) {
            Some(frame) => is_control_op(frame.opcode) ==> frame.fin && frame.payload.len() <= 125,
            None => true,
        },
    decreases buf.len(),
{
    match decode_spec(buf, max) {
        DecodeSpec::Parsed { frame, consumed } => {
            lemma_parsed_bounds(buf, max);
            if frame.opcode is Pong {
                lemma_surfaced_control_frame(
                    buf.skip(consumed as int),
                    auto_close,
                    auto_pong,
                    max,
                );
            }
        },
        _ => {},
    }
}

/// A buffer that opens with the encoding of a final data frame gives
/// exactly that frame back in one step, unmasked, and keeps exactly the
/// trailing bytes buffered: frames concatenated in one transport read
/// are surfaced one per step, none lost.
pub proof fn lemma_data_frame_then_rest(
    fin: bool,
    op: OpCode,
    payload: Seq<u8>,
    auto_close: bool,
    auto_pong: bool,
    max: nat,
    tail: Seq<u8>,
)
    requires
        op is Text || op is Binary,
        op is Text && fin ==> is_utf8_seq(payload),
        payload.len() < max,
        payload.len() + 14 <= usize::MAX,
    ensures
        ({
            let (out, rest) = step_spec(
                encode_bytes(fin, op, payload) + tail,
                auto_close,
                auto_pong,
                max,
            );
            &&& out == (StepSpec::Surface {
                frame: FrameSpec { fin, opcode: op, mask: None, payload },
            })
            &&& rest == tail
        }),
{
    let buf = encode_bytes(fin, op, payload) + tail;
    let consumed = head_size(payload.len()) + payload.len();
    crate::codec::lemma_decode_encode(fin, op, payload, max, tail);
    lemma_head_bytes_len(fin, op, payload.len());
    assert(buf.skip(consumed as int) =~= tail);
}

} // verus!
