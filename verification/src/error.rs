//! Errors raised by the frame layer.

use vstd::prelude::*;
use crate::frame::Frame;

verus! {

/// The class of a stream-level I/O failure, propagated verbatim to the
/// caller. `WouldBlock` is not a true error but a "try again later" signal
/// from a non-blocking stream.
#[derive(Clone, Copy, Debug, PartialEq, Eq, Structural)]
pub enum IoKind {
    /// The stream cannot make progress right now; retry later.
    WouldBlock,
    /// The peer reset the connection; no further writes will succeed.
    ConnectionReset,
    /// Any other stream failure.
    Other,
}

/// A frame's size exceeded a configured ceiling.
#[derive(Clone, Copy, Debug, PartialEq, Eq, Structural)]
pub enum CapacityError {
    /// The declared frame size `size` exceeds the configured `max_size`.
    MessageTooLong { size: u64, max_size: usize },
}

/// The bytes on the wire violate the frame grammar.
#[derive(Clone, Copy, Debug, PartialEq, Eq, Structural)]
pub enum ProtocolError {
    /// An extended length field held a value that fits a smaller length
    /// class: the encoding is non-minimal.
    NonMinimalLengthEncoding,
}

/// Any error of the frame layer.
#[derive(Debug)]
pub enum Error {
    /// A size ceiling was exceeded.
    Capacity(CapacityError),
    /// The inbound bytes are malformed.
    Protocol(ProtocolError),
    /// The underlying stream failed; carries the stream's own error class.
    Io(IoKind),
    /// The outbound buffer would exceed its ceiling; carries the rejected
    /// frame back to the caller so that no data is lost.
    WriteBufferFull(Frame),
}

} // verus!
