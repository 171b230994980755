//! A verified frame layer for the WebSocket wire protocol: parsing and
//! formatting of frame headers, the XOR masking transform, and a resumable
//! codec that turns an arbitrarily fragmented byte stream into frames and
//! buffers outbound frames with coalescing and backpressure.

pub mod buffer;
pub mod codec;
pub mod coding;
pub mod error;
pub mod frame;
pub mod mask;
pub mod socket;
pub mod utf8;
pub mod wire;

pub use crate::coding::OpCode;
pub use crate::error::CapacityError;
pub use crate::error::Error;
pub use crate::error::IoKind;
pub use crate::error::ProtocolError;
pub use crate::frame::CloseFrame;
pub use crate::frame::Frame;
pub use crate::frame::FrameHeader;
pub use crate::socket::FrameSocket;
pub use crate::utf8::Utf8Bytes;
