//! WebSocket framing over an arbitrary byte-stream transport.
//!
//! The crate is organised sans-I/O: every decision the protocol makes —
//! decoding a frame header from buffered bytes, unmasking a payload,
//! answering pings, echoing closes, reassembling fragmented messages —
//! is an ordinary function on plain values, verified here. A thin
//! asynchronous shell around the crate performs the transport reads and
//! writes and feeds the bytes back in.

pub mod bytes;
pub mod close;
pub mod codec;
pub mod error;
pub mod fragment;
pub mod frame;
pub mod mask;
pub mod utf8;
pub mod ws;

pub use crate::close::CloseCode;
pub use crate::codec::ParseOutcome;
pub use crate::codec::parse_frame;
pub use crate::error::WsError;
pub use crate::fragment::FragmentCollector;
pub use crate::frame::Frame;
pub use crate::frame::OpCode;
pub use crate::frame::is_control;
pub use crate::mask::unmask;
pub use crate::ws::ReadOutcome;
pub use crate::ws::WebSocket;
pub use crate::ws::WriteOutcome;
