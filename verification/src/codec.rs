//! Decoding frames from buffered transport bytes.
//!
//! `decode_spec` is the meaning of a byte buffer under RFC 6455 §5.2: not
//! yet a whole frame, a malformed frame, or a parsed frame together with
//! how many bytes it occupies. `parse_frame` computes that meaning, and
//! `lemma_decode_encode` shows decoding inverts the encoder.

use vstd::prelude::*;

use crate::bytes::{
    from_be, lemma_from_be_bound, lemma_from_be_to_be, lemma_pow256_increases, lemma_pow256_small,
    pow256, to_be,
};
use crate::error::WsError;
use crate::frame::{
    encode_bytes, head_bytes, head_size, is_control, is_control_op, lemma_head_bytes_len,
    opcode_from, opcode_value, Frame, FrameSpec, OpCode,
};

verus! {

/// What a byte buffer holds, read as the start of a frame.
#[verifier::ext_equal]
pub enum DecodeSpec {
    /// Fewer bytes than the frame needs; a whole frame takes at least
    /// `need` bytes.
    NeedMore { need: nat },
    /// The bytes open a frame the protocol forbids.
    Bad { err: WsError },
    /// A whole frame, occupying the first `consumed` bytes. Its payload
    /// is still masked if the mask bit was set.
    Parsed { frame: FrameSpec, consumed: nat },
}

/// The meaning of `buf` as the start of a frame, under the size limit
/// `max`: the header is read, its reserved bits, opcode, control-frame
/// rules and declared length are checked in that order, and the payload
/// bytes (still masked) are cut out.
pub open spec fn decode_spec(buf: Seq<u8>, max: nat) -> DecodeSpec {
    if buf.len() < 2 {
        DecodeSpec::NeedMore { need: 2 }
    } else {
        let b0 = buf[0];
        let b1 = buf[1];
        if b0 & 0x70 != 0 {
            DecodeSpec::Bad { err: WsError::ProtocolError }
        } else if opcode_from(b0 & 0x0f) is None {
            DecodeSpec::Bad { err: WsError::ProtocolError }
        } else {
            let op = opcode_from(b0 & 0x0f)->Some_0;
            let fin = b0 & 0x80 != 0;
            let masked = b1 & 0x80 != 0;
            let len7 = b1 & 0x7f;
            let extra: nat = if len7 == 126 {
                2
            } else if len7 == 127 {
                8
            } else {
                0
            };
            if buf.len() < 2 + extra {
                DecodeSpec::NeedMore { need: 2 + extra }
            } else {
                let len: nat = if extra == 0 {
                    len7 as nat
                } else {
                    from_be(buf.subrange(2, 2 + extra as int))
                };
                let mask_off = 2 + extra;
                if masked && buf.len() < mask_off + 4 {
                    DecodeSpec::NeedMore { need: mask_off + 4 }
                } else {
                    let header: nat = mask_off + if masked {
                        4nat
                    } else {
                        0nat
                    };
                    if is_control_op(op) && !fin {
                        DecodeSpec::Bad { err: WsError::ProtocolError }
                    } else if is_control_op(op) && len > 125 {
                        DecodeSpec::Bad { err: WsError::ProtocolError }
                    } else if len >= max || len + 14 > usize::MAX {
                        DecodeSpec::Bad { err: WsError::MessageTooLarge }
                    } else if buf.len() < header + len {
                        DecodeSpec::NeedMore { need: header + len }
                    } else {
                        DecodeSpec::Parsed {
                            frame: FrameSpec {
                                fin,
                                opcode: op,
                                mask: if masked {
                                    Some(
                                        [
                                            buf[mask_off as int],
                                            buf[mask_off as int + 1],
                                            buf[mask_off as int + 2],
                                            buf[mask_off as int + 3],
                                        ],
                                    )
                                } else {
                                    None
                                },
                                payload: buf.subrange(header as int, (header + len) as int),
                            },
                            consumed: header + len,
                        }
                    }
                }
            }
        }
    }
}

/// What decoding guarantees of a parsed frame: it occupies between 2
/// bytes and the whole buffer, its payload fits the declared-length
/// limit, and a control frame is final with at most 125 payload bytes.
pub proof fn lemma_parsed_bounds(buf: Seq<u8>, max: nat)
    ensures
        match decode_spec(buf, max) {
            DecodeSpec::Parsed { frame, consumed } => {
                &&& 2 <= consumed <= buf.len()
                &&& frame.payload.len() <= consumed
                &&& frame.payload.len() < max
                &&& frame.payload.len() + 14 <= usize::MAX
                &&& is_control_op(frame.opcode) ==> frame.fin && frame.payload.len() <= 125
            },
            _ => true,
        },
{
}

/// Round trip: a frame the protocol allows, encoded and then decoded —
/// with any trailing bytes after it — comes back as itself, unmasked,
/// consuming exactly its encoded size.
pub proof fn lemma_decode_encode(fin: bool, op: OpCode, payload: Seq<u8>, max: nat, tail: Seq<u8>)
    requires
        is_control_op(op) ==> fin && payload.len() <= 125,
        payload.len() < max,
        payload.len() + 14 <= usize::MAX,
    ensures
        decode_spec(encode_bytes(fin, op, payload) + tail, max) == (DecodeSpec::Parsed {
            frame: FrameSpec { fin, opcode: op, mask: None, payload },
            consumed: head_size(payload.len()) + payload.len(),
        }),
{
    let len = payload.len();
    let hb = head_bytes(fin, op, len);
    lemma_head_bytes_len(fin, op, len);
    let bytes = encode_bytes(fin, op, payload) + tail;
    assert(bytes =~= hb + payload + tail);
    let v = opcode_value(op);
    let f: u8 = if fin {
        0x80
    } else {
        0
    };
    assert(v == 0 || v == 1 || v == 2 || v == 8 || v == 9 || v == 10);
    let b0 = bytes[0];
    assert(b0 == f | v);
    assert((f | v) & 0x70 == 0 && (f | v) & 0x0f == v && (((f | v) & 0x80 != 0) <==> f == 0x80))
        by (bit_vector)
        requires
            (v == 0 || v == 1 || v == 2 || v == 8 || v == 9 || v == 10) && (f == 0x80 || f == 0),
    ;
    assert(opcode_from(v) == Some(op));
    let b1 = bytes[1];
    lemma_pow256_small();
    if len < 126 {
        assert(b1 == len as u8);
        assert(b1 < 126 ==> (b1 & 0x80 == 0 && b1 & 0x7f == b1 && b1 != 126 && b1 != 127))
            by (bit_vector);
        assert(bytes.subrange(2, 2 + len as int) =~= payload);
        assert(decode_spec(bytes, max) =~= DecodeSpec::Parsed {
            frame: FrameSpec { fin, opcode: op, mask: None, payload },
            consumed: head_size(len) + len,
        });
    } else if len < 65536 {
        assert(b1 == 126u8);
        assert(126u8 & 0x80 == 0 && 126u8 & 0x7f == 126) by (bit_vector);
        assert(bytes.subrange(2, 4) =~= to_be(len, 2));
        lemma_from_be_to_be(len, 2);
        assert(bytes.subrange(4, 4 + len as int) =~= payload);
        assert(decode_spec(bytes, max) =~= DecodeSpec::Parsed {
            frame: FrameSpec { fin, opcode: op, mask: None, payload },
            consumed: head_size(len) + len,
        });
    } else {
        assert(b1 == 127u8);
        assert(127u8 & 0x80 == 0 && 127u8 & 0x7f == 127) by (bit_vector);
        assert(bytes.subrange(2, 10) =~= to_be(len, 8));
        assert(len < pow256(8));
        lemma_from_be_to_be(len, 8);
        assert(bytes.subrange(10, 10 + len as int) =~= payload);
        assert(decode_spec(bytes, max) =~= DecodeSpec::Parsed {
            frame: FrameSpec { fin, opcode: op, mask: None, payload },
            consumed: head_size(len) + len,
        });
    }
}

/// What `parse_frame` found in the buffer.
pub enum ParseOutcome {
    /// Not yet a whole frame: at least this many bytes are needed.
    NeedMore(usize),
    /// A whole frame and the number of buffer bytes it occupied.
    Done(Frame, usize),
}

/// Read the frame at the front of `buf`, enforcing the declared-length
/// limit `max_message_size`. The returned frame's payload is still
/// masked; its `mask` field carries the key when the mask bit was set.
pub fn parse_frame(buf: &Vec<u8>, max_message_size: usize) -> (r: Result<ParseOutcome, WsError>)
    ensures
        ({
            let d = decode_spec(buf@, max_message_size as nat);
            match r {
                Ok(ParseOutcome::NeedMore(need)) => d == (DecodeSpec::NeedMore {
                    need: need as nat,
                }),
                Ok(ParseOutcome::Done(frame, consumed)) => {
                    &&& d matches DecodeSpec::Parsed { frame: fs, consumed: c }
                    &&& frame@ == fs
                    &&& consumed == c
                },
                Err(e) => d == (DecodeSpec::Bad { err: e }),
            }
        }),
{
    let n = buf.len();
    if n < 2 {
        return Ok(ParseOutcome::NeedMore(2));
    }
    let b0 = buf[0];
    let b1 = buf[1];
    if b0 & 0x70 != 0 {
        return Err(WsError::ProtocolError);
    }
    let op = match OpCode::from_u8(b0 & 0x0f) {
        Some(op) => op,
        None => {
            return Err(WsError::ProtocolError);
        },
    };
    let fin = b0 & 0x80 != 0;
    let masked = b1 & 0x80 != 0;
    let len7 = b1 & 0x7f;
    let extra: usize = if len7 == 126 {
        2
    } else if len7 == 127 {
        8
    } else {
        0
    };
    if n < 2 + extra {
        return Ok(ParseOutcome::NeedMore(2 + extra));
    }
    let len64: u64 = if extra == 0 {
        len7 as u64
    } else {
        let mut acc: u64 = 0;
        let mut i: usize = 2;
        while i < 2 + extra
            invariant
                2 <= i <= 2 + extra,
                extra == 2 || extra == 8,
                n == buf@.len(),
                n >= 2 + extra,
                acc as nat == from_be(buf@.subrange(2, i as int)),
            decreases 2 + extra - i,
        {
            proof {
                lemma_from_be_bound(buf@.subrange(2, i as int));
                lemma_pow256_increases(((i - 2) as nat), 7);
                lemma_pow256_small();
            }
            let b = buf[i];
            acc = acc * 256 + (b as u64);
            proof {
                let s = buf@.subrange(2, i + 1);
                assert(s.drop_last() =~= buf@.subrange(2, i as int));
                assert(s.last() == buf@[i as int]);
            }
            i = i + 1;
        }
        acc
    };
    proof {
        if extra == 0 {
            assert(len64 as nat == len7 as nat);
        }
    }
    let mask_off = 2 + extra;
    if masked && n < mask_off + 4 {
        return Ok(ParseOutcome::NeedMore(mask_off + 4));
    }
    let header: usize = mask_off + (if masked {
        4
    } else {
        0
    });
    if is_control(op) && !fin {
        return Err(WsError::ProtocolError);
    }
    if is_control(op) && len64 > 125 {
        return Err(WsError::ProtocolError);
    }
    if len64 >= max_message_size as u64 || len64 > (usize::MAX - 14) as u64 {
        return Err(WsError::MessageTooLarge);
    }
    let len = len64 as usize;
    let total = header + len;
    if n < total {
        return Ok(ParseOutcome::NeedMore(total));
    }
    let mask: Option<[u8; 4]> = if masked {
        Some([buf[mask_off], buf[mask_off + 1], buf[mask_off + 2], buf[mask_off + 3]])
    } else {
        None
    };
    let mut payload: Vec<u8> = Vec::new();
    let mut i = header;
    while i < total
        invariant
            header <= i <= total,
            total <= n == buf@.len(),
            payload@ == buf@.subrange(header as int, i as int),
        decreases total - i,
    {
        payload.push(buf[i]);
        proof {
            assert(buf@.subrange(header as int, i + 1) =~= buf@.subrange(header as int, i as int)
                + seq![buf@[i as int]]);
        }
        i = i + 1;
    }
    Ok(ParseOutcome::Done(Frame::new(fin, op, mask, payload), total))
}

} // verus!
