//! Reassembling fragmented messages.
//!
//! A message may arrive as a non-final data frame followed by
//! continuation frames, the last of them final. The collector folds such
//! a run into one frame, lets control frames pass through in the middle
//! of a run, and rejects the two orderings the protocol forbids: a
//! continuation with no run open, and a fresh data frame while a run is
//! open.

use vstd::prelude::*;

use crate::error::WsError;
use crate::frame::{is_control, is_control_op, Frame, FrameSpec, OpCode};
use crate::utf8::{is_utf8_seq, validate_utf8_from};
use crate::ws::DEFAULT_MAX_MESSAGE_SIZE;

verus! {

/// The collector as a mathematical value.
#[verifier::ext_equal]
pub struct FcView {
    pub accumulator: Seq<u8>,
    pub fragment_opcode: Option<OpCode>,
    pub max_message_size: nat,
}

/// A collector is well formed when its accumulator respects the size
/// cap, is empty outside a fragmentation run, and a run is always opened
/// by a text or binary frame.
pub open spec fn fc_wf(v: FcView) -> bool {
    &&& v.accumulator.len() <= v.max_message_size
    &&& (v.fragment_opcode is None ==> v.accumulator.len() == 0)
    &&& (match v.fragment_opcode {
        Some(op) => op is Text || op is Binary,
        None => true,
    })
}

/// What the collector answers to one frame.
#[verifier::ext_equal]
pub enum AcceptSpec {
    /// A whole message (or a passed-through frame) for the caller.
    Out { frame: FrameSpec },
    /// The frame was folded into the open run; nothing to surface yet.
    Pending,
    /// The ordering rules or the size cap were violated.
    Fail { err: WsError },
}

/// The collector's state machine. Outside a run, final data frames and
/// control frames pass through, a non-final data frame opens a run, and
/// a continuation is an error. Inside a run, control frames still pass
/// through, a data frame is an error, and continuations extend the run
/// until a final one closes it; the reassembled text of a closed text
/// run must be valid UTF-8. Growing the accumulator past the size cap is
/// an error.
pub open spec fn accept_spec(st: FcView, f: FrameSpec) -> (AcceptSpec, FcView) {
    match st.fragment_opcode {
        None => {
            if is_control_op(f.opcode) {
                (AcceptSpec::Out { frame: f }, st)
            } else if f.opcode is Continuation {
                (AcceptSpec::Fail { err: WsError::ProtocolError }, st)
            } else if f.fin {
                (AcceptSpec::Out { frame: f }, st)
            } else if f.payload.len() > st.max_message_size {
                (AcceptSpec::Fail { err: WsError::ProtocolError }, st)
            } else {
                (
                    AcceptSpec::Pending,
                    FcView { accumulator: f.payload, fragment_opcode: Some(f.opcode), ..st },
                )
            }
        },
        Some(op) => {
            if is_control_op(f.opcode) {
                (AcceptSpec::Out { frame: f }, st)
            } else if !(f.opcode is Continuation) {
                (AcceptSpec::Fail { err: WsError::ProtocolError }, st)
            } else if st.accumulator.len() + f.payload.len() > st.max_message_size {
                (AcceptSpec::Fail { err: WsError::ProtocolError }, st)
            } else if !f.fin {
                (AcceptSpec::Pending, FcView { accumulator: st.accumulator + f.payload, ..st })
            } else {
                let whole = st.accumulator + f.payload;
                if op is Text && !is_utf8_seq(whole) {
                    (AcceptSpec::Fail { err: WsError::InvalidUtf8 }, st)
                } else {
                    (
                        AcceptSpec::Out {
                            frame: FrameSpec { fin: true, opcode: op, mask: None, payload: whole },
                        },
                        FcView {
                            accumulator: Seq::<u8>::empty(),
                            fragment_opcode: None,
                            ..st
                        },
                    )
                }
            }
        },
    }
}

/// Reassembles fragmented messages from the frames a connection
/// surfaces.
pub struct FragmentCollector {
    accumulator: Vec<u8>,
    fragment_opcode: Option<OpCode>,
    max_message_size: usize,
}

impl View for FragmentCollector {
    type V = FcView;

    closed spec fn view(&self) -> FcView {
        FcView {
            accumulator: self.accumulator@,
            fragment_opcode: self.fragment_opcode,
            max_message_size: self.max_message_size as nat,
        }
    }
}

impl FragmentCollector {
    /// A collector with no run open and the default size cap.
    pub fn new() -> (r: FragmentCollector)
        ensures
            r@ == (FcView {
                accumulator: Seq::<u8>::empty(),
                fragment_opcode: None,
                max_message_size: DEFAULT_MAX_MESSAGE_SIZE as nat,
            }),
            fc_wf(r@),
    {
        FragmentCollector {
            accumulator: Vec::new(),
            fragment_opcode: None,
            max_message_size: DEFAULT_MAX_MESSAGE_SIZE,
        }
    }

    /// A collector with no run open and the given cap on a reassembled
    /// message.
    pub fn with_max_message_size(max_message_size: usize) -> (r: FragmentCollector)
        ensures
            r@ == (FcView {
                accumulator: Seq::<u8>::empty(),
                fragment_opcode: None,
                max_message_size: max_message_size as nat,
            }),
            fc_wf(r@),
    {
        FragmentCollector { accumulator: Vec::new(), fragment_opcode: None, max_message_size }
    }

    /// Fold one surfaced frame in: hand back a whole message or a
    /// passed-through frame, nothing while a run stays open, or the
    /// error the frame commits. After an error the collector is spent
    /// and must be dropped with its connection.
    pub fn accept(&mut self, frame: Frame) -> (r: Result<Option<Frame>, WsError>)
        requires
            fc_wf(old(self)@),
        ensures
            fc_wf(final(self)@),
            ({
                let (out, next) = accept_spec(old(self)@, frame@);
                match (r, out) {
                    (Ok(Some(g)), AcceptSpec::Out { frame: fs }) => g@ == fs && final(self)@
                        == next,
                    (Ok(None), AcceptSpec::Pending) => final(self)@ == next,
                    (Err(e), AcceptSpec::Fail { err }) => e == err,
                    _ => false,
                }
            }),
    {
        match self.fragment_opcode {
            None => {
                if is_control(frame.opcode) {
                    return Ok(Some(frame));
                }
                if let OpCode::Continuation = frame.opcode {
                    return Err(WsError::ProtocolError);
                }
                if frame.fin {
                    return Ok(Some(frame));
                }
                if frame.payload.len() > self.max_message_size {
                    return Err(WsError::ProtocolError);
                }
                self.fragment_opcode = Some(frame.opcode);
                self.accumulator = frame.payload;
                Ok(None)
            },
            Some(op) => {
                if is_control(frame.opcode) {
                    return Ok(Some(frame));
                }
                match frame.opcode {
                    OpCode::Continuation => {},
                    _ => {
                        return Err(WsError::ProtocolError);
                    },
                }
                if frame.payload.len() > self.max_message_size - self.accumulator.len() {
                    return Err(WsError::ProtocolError);
                }
                let mut incoming = frame.payload;
                self.accumulator.append(&mut incoming);
                if !frame.fin {
                    return Ok(None);
                }
                let is_text = match op {
                    OpCode::Text => true,
                    _ => false,
                };
                if is_text {
                    let ok = validate_utf8_from(&self.accumulator, 0);
                    proof {
                        assert(self.accumulator@.skip(0) =~= self.accumulator@);
                    }
                    if !ok {
                        return Err(WsError::InvalidUtf8);
                    }
                }
                let whole = self.accumulator.split_off(0);
                proof {
                    assert(whole@ =~= old(self)@.accumulator + frame.payload@);
                    assert(self.accumulator@ =~= Seq::<u8>::empty());
                }
                self.fragment_opcode = None;
                Ok(Some(Frame::new(true, op, None, whole)))
            },
        }
    }
}

} // verus!
