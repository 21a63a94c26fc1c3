//! The ways a connection can fail.

use vstd::prelude::*;

verus! {

/// A fatal protocol failure. After any of these the connection must be
/// dropped by its caller.
#[derive(Clone, Copy, Debug, PartialEq, Eq, Structural)]
pub enum WsError {
    /// A reserved bit was set, the opcode was unknown, a control frame was
    /// fragmented or oversize, or a continuation arrived out of order.
    ProtocolError,
    /// A frame declared a payload length at or above the configured limit.
    MessageTooLarge,
    /// A text payload or a close reason failed UTF-8 validation.
    InvalidUtf8,
    /// A close payload of a single byte, or a close code the peer may not send.
    InvalidClose,
}

} // verus!
