//! The 4-bit opcode that classifies a frame.

use vstd::prelude::*;

verus! {

/// A frame's opcode. Values outside the defined range are preserved as
/// opaque data rather than rejected: semantic validation belongs to a
/// higher layer.
#[derive(Clone, Copy, Debug)]
pub enum OpCode {
    Continuation,
    Text,
    Binary,
    /// A reserved non-control opcode, carrying its nibble.
    ReservedData(u8),
    Close,
    Ping,
    Pong,
    /// A reserved control opcode, carrying its nibble.
    ReservedControl(u8),
}

impl OpCode {
    /// A reserved opcode is well formed when the nibble it carries lies in
    /// the range it stands for.
    pub open spec fn wf(self) -> bool {
        match self {
            OpCode::ReservedData(n) => 3 <= n <= 7,
            OpCode::ReservedControl(n) => 11 <= n <= 15,
            _ => true,
        }
    }

    /// The nibble that encodes this opcode on the wire.
    pub open spec fn spec_number(self) -> u8 {
        match self {
            OpCode::Continuation => 0,
            OpCode::Text => 1,
            OpCode::Binary => 2,
            OpCode::ReservedData(n) => n,
            OpCode::Close => 8,
            OpCode::Ping => 9,
            OpCode::Pong => 10,
            OpCode::ReservedControl(n) => n,
        }
    }

    /// The opcode that a nibble decodes to.
    pub open spec fn spec_from_number(n: u8) -> OpCode {
        if n == 0 {
            OpCode::Continuation
        } else if n == 1 {
            OpCode::Text
        } else if n == 2 {
            OpCode::Binary
        } else if n <= 7 {
            OpCode::ReservedData(n)
        } else if n == 8 {
            OpCode::Close
        } else if n == 9 {
            OpCode::Ping
        } else if n == 10 {
            OpCode::Pong
        } else {
            OpCode::ReservedControl(n)
        }
    }

    pub fn number(self) -> (r: u8)
        requires
            self.wf(),
        ensures
            r == self.spec_number(),
            r < 16,
    {
        match self {
            OpCode::Continuation => 0,
            OpCode::Text => 1,
            OpCode::Binary => 2,
            OpCode::ReservedData(n) => n,
            OpCode::Close => 8,
            OpCode::Ping => 9,
            OpCode::Pong => 10,
            OpCode::ReservedControl(n) => n,
        }
    }

    pub fn from_number(n: u8) -> (r: OpCode)
        requires
            n < 16,
        ensures
            r == Self::spec_from_number(n),
    {
        if n == 0 {
            OpCode::Continuation
        } else if n == 1 {
            OpCode::Text
        } else if n == 2 {
            OpCode::Binary
        } else if n <= 7 {
            OpCode::ReservedData(n)
        } else if n == 8 {
            OpCode::Close
        } else if n == 9 {
            OpCode::Ping
        } else if n == 10 {
            OpCode::Pong
        } else {
            OpCode::ReservedControl(n)
        }
    }

    pub fn same(self, other: OpCode) -> (r: bool)
        ensures
            r == (self == other),
    {
        match (self, other) {
            (OpCode::Continuation, OpCode::Continuation) => true,
            (OpCode::Text, OpCode::Text) => true,
            (OpCode::Binary, OpCode::Binary) => true,
            (OpCode::ReservedData(a), OpCode::ReservedData(b)) => a == b,
            (OpCode::Close, OpCode::Close) => true,
            (OpCode::Ping, OpCode::Ping) => true,
            (OpCode::Pong, OpCode::Pong) => true,
            (OpCode::ReservedControl(a), OpCode::ReservedControl(b)) => a == b,
            _ => false,
        }
    }
}

/// Decoding inverts encoding: a well-formed opcode survives a round trip
/// through its wire nibble.
pub proof fn lemma_opcode_round_trip(op: OpCode)
    requires
        op.wf(),
    ensures
        OpCode::spec_from_number(op.spec_number()) == op,
        op.spec_number() < 16,
{
}

/// Encoding inverts decoding: every nibble decodes to a well-formed opcode
/// that encodes back to the same nibble.
pub proof fn lemma_opcode_number_round_trip(n: u8)
    requires
        n < 16,
    ensures
        OpCode::spec_from_number(n).wf(),
        OpCode::spec_from_number(n).spec_number() == n,
{
}

} // verus!
