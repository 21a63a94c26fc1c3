//! Frames and their wire encoding.
//!
//! A frame is the unit of the protocol: a 2- to 14-byte header followed by
//! the payload. This module holds the frame value type, its constructors,
//! and the encoder that lays a frame's head out exactly as RFC 6455 §5.2
//! prescribes.

use vstd::prelude::*;

use crate::bytes::{lemma_to_be_len, to_be};
use crate::mask::apply_mask;
use crate::utf8::{is_utf8_seq, validate_utf8_from};

verus! {

/// The largest head a frame can have: two base bytes plus an 8-byte
/// extended length.
pub const MAX_HEAD_SIZE: usize = 10;

/// The six opcodes of the protocol. Every other 4-bit value is a protocol
/// error on the wire.
#[derive(Clone, Copy, Debug, PartialEq, Eq, Structural)]
pub enum OpCode {
    Continuation,
    Text,
    Binary,
    Close,
    Ping,
    Pong,
}

/// The 4-bit wire value of an opcode.
pub open spec fn opcode_value(op: OpCode) -> u8 {
    match op {
        OpCode::Continuation => 0x0,
        OpCode::Text => 0x1,
        OpCode::Binary => 0x2,
        OpCode::Close => 0x8,
        OpCode::Ping => 0x9,
        OpCode::Pong => 0xA,
    }
}

/// The opcode a 4-bit wire value names, if any.
pub open spec fn opcode_from(v: u8) -> Option<OpCode> {
    if v == 0x0 {
        Some(OpCode::Continuation)
    } else if v == 0x1 {
        Some(OpCode::Text)
    } else if v == 0x2 {
        Some(OpCode::Binary)
    } else if v == 0x8 {
        Some(OpCode::Close)
    } else if v == 0x9 {
        Some(OpCode::Ping)
    } else if v == 0xA {
        Some(OpCode::Pong)
    } else {
        None
    }
}

/// Whether `op` is a control opcode (high bit of the 4-bit value set).
pub open spec fn is_control_op(op: OpCode) -> bool {
    match op {
        OpCode::Close | OpCode::Ping | OpCode::Pong => true,
        _ => false,
    }
}

/// Whether `opcode` is a control opcode: `Close`, `Ping` or `Pong`.
pub fn is_control(opcode: OpCode) -> (r: bool)
    ensures
        r == is_control_op(opcode),
{
    match opcode {
        OpCode::Close | OpCode::Ping | OpCode::Pong => true,
        _ => false,
    }
}

impl OpCode {
    /// The 4-bit wire value of this opcode.
    pub fn value(&self) -> (v: u8)
        ensures
            v == opcode_value(*self),
    {
        match self {
            OpCode::Continuation => 0x0,
            OpCode::Text => 0x1,
            OpCode::Binary => 0x2,
            OpCode::Close => 0x8,
            OpCode::Ping => 0x9,
            OpCode::Pong => 0xA,
        }
    }

    /// The opcode named by a 4-bit wire value, or `None` for the ten
    /// values the protocol does not assign.
    pub fn from_u8(v: u8) -> (r: Option<OpCode>)
        ensures
            r == opcode_from(v),
    {
        if v == 0x0 {
            Some(OpCode::Continuation)
        } else if v == 0x1 {
            Some(OpCode::Text)
        } else if v == 0x2 {
            Some(OpCode::Binary)
        } else if v == 0x8 {
            Some(OpCode::Close)
        } else if v == 0x9 {
            Some(OpCode::Ping)
        } else if v == 0xA {
            Some(OpCode::Pong)
        } else {
            None
        }
    }
}

/// A frame as a mathematical value: what the contracts speak of.
#[verifier::ext_equal]
pub struct FrameSpec {
    pub fin: bool,
    pub opcode: OpCode,
    pub mask: Option<[u8; 4]>,
    pub payload: Seq<u8>,
}

/// One frame: the final-fragment flag, the opcode, the masking key the
/// frame arrived with (if any), and the payload bytes.
#[derive(Debug, PartialEq)]
pub struct Frame {
    pub fin: bool,
    pub opcode: OpCode,
    pub mask: Option<[u8; 4]>,
    pub payload: Vec<u8>,
}

impl View for Frame {
    type V = FrameSpec;

    open spec fn view(&self) -> FrameSpec {
        FrameSpec {
            fin: self.fin,
            opcode: self.opcode,
            mask: self.mask,
            payload: self.payload@,
        }
    }
}

/// The first head byte: the final-fragment bit above the 4-bit opcode.
/// The three reserved bits between them stay zero.
pub open spec fn first_byte(fin: bool, op: OpCode) -> u8 {
    (if fin {
        0x80u8
    } else {
        0x00u8
    }) | opcode_value(op)
}

/// The number of bytes the head of a frame with payload length `len`
/// occupies: 2, 4 or 10.
pub open spec fn head_size(len: nat) -> nat {
    if len < 126 {
        2
    } else if len < 65536 {
        4
    } else {
        10
    }
}

/// The head bytes of a frame: first byte, then the length written in the
/// shortest of the three length classes. Outbound frames are never masked,
/// so the mask bit stays clear.
pub open spec fn head_bytes(fin: bool, op: OpCode, len: nat) -> Seq<u8> {
    if len < 126 {
        seq![first_byte(fin, op), len as u8]
    } else if len < 65536 {
        seq![first_byte(fin, op), 126u8] + to_be(len, 2)
    } else {
        seq![first_byte(fin, op), 127u8] + to_be(len, 8)
    }
}

/// The whole encoded frame: head, then payload.
pub open spec fn encode_bytes(fin: bool, op: OpCode, payload: Seq<u8>) -> Seq<u8> {
    head_bytes(fin, op, payload.len()) + payload
}

/// The encoded head takes 2 bytes for payloads under 126, 4 bytes for
/// payloads under 65536, and 10 bytes for anything larger.
pub proof fn lemma_head_size_classes(fin: bool, op: OpCode, len: nat)
    ensures
        len < 126 ==> head_size(len) == 2,
        126 <= len < 65536 ==> head_size(len) == 4,
        65536 <= len ==> head_size(len) == 10,
        head_bytes(fin, op, len).len() == head_size(len),
{
    lemma_head_bytes_len(fin, op, len);
}

pub proof fn lemma_head_bytes_len(fin: bool, op: OpCode, len: nat)
    ensures
        head_bytes(fin, op, len).len() == head_size(len),
{
    if len >= 65536 {
        lemma_to_be_len(len, 8);
    } else if len >= 126 {
        lemma_to_be_len(len, 2);
    }
}

impl Frame {
    /// A frame from its four parts.
    pub fn new(fin: bool, opcode: OpCode, mask: Option<[u8; 4]>, payload: Vec<u8>) -> (r: Frame)
        ensures
            r@ == (FrameSpec { fin, opcode, mask, payload: payload@ }),
    {
        Frame { fin, opcode, mask, payload }
    }

    /// An unfragmented, unmasked text frame.
    pub fn text(payload: Vec<u8>) -> (r: Frame)
        ensures
            r@ == (FrameSpec {
                fin: true,
                opcode: OpCode::Text,
                mask: None,
                payload: payload@,
            }),
    {
        Frame { fin: true, opcode: OpCode::Text, mask: None, payload }
    }

    /// An unfragmented, unmasked binary frame.
    pub fn binary(payload: Vec<u8>) -> (r: Frame)
        ensures
            r@ == (FrameSpec {
                fin: true,
                opcode: OpCode::Binary,
                mask: None,
                payload: payload@,
            }),
    {
        Frame { fin: true, opcode: OpCode::Binary, mask: None, payload }
    }

    /// A close frame whose payload is the 16-bit code in big-endian order
    /// followed by the reason bytes.
    pub fn close(code: u16, reason: &[u8]) -> (r: Frame)
        ensures
            r@ == (FrameSpec {
                fin: true,
                opcode: OpCode::Close,
                mask: None,
                payload: to_be(code as nat, 2) + reason@,
            }),
    {
        let mut payload: Vec<u8> = Vec::new();
        payload.push((code / 256) as u8);
        payload.push((code % 256) as u8);
        proof {
            assert(code as nat / 256 < 256) by (nonlinear_arith);
            crate::bytes::lemma_to_be_2(code as nat);
            assert(payload@ =~= to_be(code as nat, 2));
        }
        let n = reason.len();
        let mut i: usize = 0;
        while i < n
            invariant
                n == reason@.len(),
                i <= n,
                payload@ == to_be(code as nat, 2) + reason@.subrange(0, i as int),
            decreases n - i,
        {
            payload.push(reason[i]);
            proof {
                assert(payload@ =~= to_be(code as nat, 2) + reason@.subrange(0, i + 1));
            }
            i = i + 1;
        }
        proof {
            assert(reason@.subrange(0, n as int) =~= reason@);
        }
        Frame { fin: true, opcode: OpCode::Close, mask: None, payload }
    }

    /// A close frame carrying `payload` verbatim.
    pub fn close_raw(payload: Vec<u8>) -> (r: Frame)
        ensures
            r@ == (FrameSpec {
                fin: true,
                opcode: OpCode::Close,
                mask: None,
                payload: payload@,
            }),
    {
        Frame { fin: true, opcode: OpCode::Close, mask: None, payload }
    }

    /// A pong frame carrying `payload` verbatim.
    pub fn pong(payload: Vec<u8>) -> (r: Frame)
        ensures
            r@ == (FrameSpec {
                fin: true,
                opcode: OpCode::Pong,
                mask: None,
                payload: payload@,
            }),
    {
        Frame { fin: true, opcode: OpCode::Pong, mask: None, payload }
    }

    /// Whether the payload is valid UTF-8.
    pub fn is_utf8(&self) -> (r: bool)
        ensures
            r == is_utf8_seq(self.payload@),
    {
        let r = validate_utf8_from(&self.payload, 0);
        proof {
            assert(self.payload@.skip(0) =~= self.payload@);
        }
        r
    }

    /// XOR the masking key into the payload, if one is present, and drop
    /// the key: the frame is then in its unmasked form.
    pub fn unmask(&mut self)
        ensures
            final(self).fin == old(self).fin,
            final(self).opcode == old(self).opcode,
            final(self).mask is None,
            final(self).payload@ == (match old(self).mask {
                Some(key) => apply_mask(old(self).payload@, key),
                None => old(self).payload@,
            }),
    {
        match self.mask {
            Some(key) => {
                crate::mask::unmask(&mut self.payload, key);
                self.mask = None;
            },
            None => {},
        }
    }

    /// Write the head of this frame into the front of `head` and return
    /// the head's size; the bytes past the head keep their values.
    pub fn fmt_head(&self, head: &mut Vec<u8>) -> (size: usize)
        requires
            old(head)@.len() >= MAX_HEAD_SIZE,
        ensures
            size == head_size(self.payload@.len()),
            final(head)@.len() == old(head)@.len(),
            final(head)@.subrange(0, size as int) == head_bytes(
                self.fin,
                self.opcode,
                self.payload@.len(),
            ),
            final(head)@.skip(size as int) == old(head)@.skip(size as int),
    {
        let b0: u8 = (if self.fin {
            0x80u8
        } else {
            0x00u8
        }) | self.opcode.value();
        head[0] = b0;
        let len = self.payload.len();
        if len < 126 {
            head[1] = len as u8;
            proof {
                assert(head@.subrange(0, 2) =~= head_bytes(
                    self.fin,
                    self.opcode,
                    self.payload@.len(),
                ));
                assert(head@.skip(2) =~= old(head)@.skip(2));
            }
            2
        } else if len < 65536 {
            head[1] = 126u8;
            head[2] = (len / 256) as u8;
            head[3] = (len % 256) as u8;
            proof {
                let l = len as nat;
                assert(l / 256 < 256) by (nonlinear_arith)
                    requires
                        l < 65536,
                ;
                crate::bytes::lemma_to_be_2(l);
                assert(head@.subrange(0, 4) =~= head_bytes(
                    self.fin,
                    self.opcode,
                    self.payload@.len(),
                ));
                assert(head@.skip(4) =~= old(head)@.skip(4));
            }
            4
        } else {
            head[1] = 127u8;
            let ghost target = to_be(len as nat, 8);
            proof {
                lemma_to_be_len(len as nat, 8);
                assert(target.subrange(0, 8) =~= target);
            }
            let mut tmp: u64 = len as u64;
            let mut i: usize = 8;
            while i > 0
                invariant
                    i <= 8,
                    head@.len() == old(head)@.len() >= 10,
                    target.len() == 8,
                    to_be(tmp as nat, i as nat) == target.subrange(0, i as int),
                    head@[0] == b0,
                    head@[1] == 127u8,
                    forall|j: int| i <= j < 8 ==> head@[2 + j] == target[j],
                    forall|j: int| 10 <= j < head@.len() ==> head@[j] == old(head)@[j],
                decreases i,
            {
                i = i - 1;
                head[2 + i] = (tmp % 256) as u8;
                proof {
                    let t = tmp as nat;
                    assert(to_be(t, (i + 1) as nat) == to_be(t / 256, i as nat) + seq![
                        (t % 256) as u8,
                    ]);
                    assert(to_be(t, (i + 1) as nat).last() == (t % 256) as u8);
                    assert(target.subrange(0, i + 1).last() == target[i as int]);
                    lemma_to_be_len(t / 256, i as nat);
                    assert(to_be(t / 256, i as nat) =~= target.subrange(0, i + 1).drop_last());
                    assert(target.subrange(0, i + 1).drop_last() =~= target.subrange(0, i as int));
                }
                tmp = tmp / 256;
            }
            proof {
                assert(head@.subrange(0, 10) =~= head_bytes(
                    self.fin,
                    self.opcode,
                    self.payload@.len(),
                ));
                assert(head@.skip(10) =~= old(head)@.skip(10));
            }
            10
        }
    }

    /// Encode the whole frame into the front of `buf`, growing it when it
    /// is too short, and return the encoded size. `buf` may stay longer
    /// than the encoding; only its front holds the frame.
    pub fn write(&self, buf: &mut Vec<u8>) -> (size: usize)
        requires
            self.payload@.len() + MAX_HEAD_SIZE <= usize::MAX,
        ensures
            size == head_size(self.payload@.len()) + self.payload@.len(),
            final(buf)@.len() >= size,
            final(buf)@.subrange(0, size as int) == encode_bytes(
                self.fin,
                self.opcode,
                self.payload@,
            ),
    {
        let len = self.payload.len();
        while buf.len() < len + MAX_HEAD_SIZE
            invariant
                len + MAX_HEAD_SIZE <= usize::MAX,
            decreases len + MAX_HEAD_SIZE - buf@.len(),
        {
            buf.push(0u8);
        }
        let head_len = self.fmt_head(buf);
        let ghost mid = buf@;
        let mut i: usize = 0;
        while i < len
            invariant
                i <= len,
                len == self.payload@.len(),
                head_len == head_size(len as nat),
                head_len + len <= usize::MAX,
                head_len + len <= buf@.len(),
                buf@.len() == mid.len(),
                buf@.subrange(0, head_len as int) == mid.subrange(0, head_len as int),
                forall|j: int| 0 <= j < i ==> buf@[head_len + j] == self.payload@[j],
            decreases len - i,
        {
            buf[head_len + i] = self.payload[i];
            i = i + 1;
        }
        proof {
            lemma_head_bytes_len(self.fin, self.opcode, len as nat);
            assert(buf@.subrange(0, (head_len + len) as int) =~= encode_bytes(
                self.fin,
                self.opcode,
                self.payload@,
            ));
        }
        head_len + len
    }
}

} // verus!
