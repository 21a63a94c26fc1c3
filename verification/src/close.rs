//! Close codes and which of them a peer may send.
//!
//! A close payload starts with a 16-bit code. The standard assigns the
//! 1000 series; 3000–4999 are open to applications. Codes below 1000, the
//! local-only codes 1004, 1005, 1006 and 1015, and the unassigned ranges
//! must not appear on the wire: receiving one makes the server answer
//! with code 1002 and drop the connection.

use vstd::prelude::*;

verus! {

/// Whether an incoming close payload may carry `code`: one of the
/// assigned standard codes 1000–1003 and 1007–1013, or a code of the
/// application range 3000–4999.
pub open spec fn close_code_allowed(code: u16) -> bool {
    (1000 <= code && code <= 1003) || (1007 <= code && code <= 1013) || (3000 <= code && code
        <= 4999)
}

/// A 16-bit close code.
#[derive(Clone, Copy, Debug, PartialEq, Eq, Structural)]
pub struct CloseCode {
    pub code: u16,
}

impl CloseCode {
    /// The close code with value `code`.
    pub fn from_u16(code: u16) -> (r: CloseCode)
        ensures
            r.code == code,
    {
        CloseCode { code }
    }

    /// Whether a peer may send this code in a close payload.
    pub fn is_allowed(&self) -> (r: bool)
        ensures
            r == close_code_allowed(self.code),
    {
        (1000 <= self.code && self.code <= 1003) || (1007 <= self.code && self.code <= 1013) || (
        3000 <= self.code && self.code <= 4999)
    }
}

} // verus!
