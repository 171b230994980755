//! Frame headers and frames: parsing and formatting against the wire
//! format, and the round-trip laws that tie the two together.

use vstd::prelude::*;
use crate::coding::OpCode;
use crate::coding::lemma_opcode_round_trip;
use crate::coding::lemma_opcode_number_round_trip;
use crate::error::Error;
use crate::error::ProtocolError;
use crate::mask::apply_mask;
use crate::mask::mask_seq;
use crate::utf8::Utf8Bytes;
use crate::wire::be_bytes;
use crate::wire::be_val;
use crate::wire::lemma_be_bytes_len;
use crate::wire::lemma_be_bytes_of_val;
use crate::wire::lemma_be_val_bound;
use crate::wire::lemma_be_val_of_bytes;
use crate::wire::lemma_p256_val_2;
use crate::wire::lemma_p256_val_8;
use crate::wire::p256;
use crate::wire::push_be;
use crate::wire::read_be;

verus! {

/// The fixed and variable parts of a frame header: fin bit, three
/// reserved bits, opcode, and the mask key when the mask bit is set.
#[derive(Clone, Copy, Debug)]
pub struct FrameHeader {
    /// True when this frame is the last fragment of a message.
    pub is_final: bool,
    /// Reserved protocol-extension flags, opaque to this layer.
    pub rsv1: bool,
    pub rsv2: bool,
    pub rsv3: bool,
    pub opcode: OpCode,
    /// The 4-byte XOR key, present iff the frame is masked.
    pub mask: Option<[u8; 4]>,
}

/// `w` when the flag is set, else zero: one addend of a packed byte.
pub open spec fn flag_bit(b: bool, w: u8) -> u8 {
    if b {
        w
    } else {
        0
    }
}

/// The first wire byte: fin, the reserved bits, and the opcode nibble.
pub open spec fn spec_first_byte(h: FrameHeader) -> u8 {
    (flag_bit(h.is_final, 128) + flag_bit(h.rsv1, 64) + flag_bit(h.rsv2, 32) + flag_bit(
        h.rsv3,
        16,
    ) + h.opcode.spec_number()) as u8
}

/// The 7-bit length code: the smallest class that holds the length.
pub open spec fn len_code(length: u64) -> u8 {
    if length < 126 {
        length as u8
    } else if length < 65536 {
        126
    } else {
        127
    }
}

/// The second wire byte: mask bit and length code.
pub open spec fn spec_second_byte(h: FrameHeader, length: u64) -> u8 {
    (flag_bit(h.mask is Some, 128) + len_code(length)) as u8
}

/// The extended length field: absent, 2 bytes, or 8 bytes, big-endian,
/// in the minimal class.
pub open spec fn ext_len_bytes(length: u64) -> Seq<u8> {
    if length < 126 {
        Seq::empty()
    } else if length < 65536 {
        be_bytes(length as int, 2)
    } else {
        be_bytes(length as int, 8)
    }
}

/// The mask key bytes, absent when the frame is unmasked.
pub open spec fn mask_key_bytes(m: Option<[u8; 4]>) -> Seq<u8> {
    match m {
        Option::None => Seq::empty(),
        Option::Some(k) => seq![k[0], k[1], k[2], k[3]],
    }
}

/// The full wire encoding of a header for a payload of `length` bytes.
pub open spec fn spec_format_header(h: FrameHeader, length: u64) -> Seq<u8> {
    seq![spec_first_byte(h), spec_second_byte(h, length)] + ext_len_bytes(length)
        + mask_key_bytes(h.mask)
}

/// What a byte sequence parses to: too short to tell, malformed, or a
/// header with its declared payload length and the bytes consumed.
pub enum HeaderParse {
    Insufficient,
    Malformed,
    Done { header: FrameHeader, length: u64, consumed: int },
}

/// The header parser as a value: consumes nothing unless a whole header
/// is present, and rejects a non-minimal length encoding.
pub open spec fn spec_parse_header(s: Seq<u8>) -> HeaderParse {
    if s.len() < 2 {
        HeaderParse::Insufficient
    } else {
        let b0 = s[0];
        let b1 = s[1];
        let masked = b1 >= 128;
        let lcode = b1 % 128;
        let ext: int = if lcode < 126 {
            0
        } else if lcode == 126 {
            2
        } else {
            8
        };
        let consumed: int = 2 + ext + if masked {
            4int
        } else {
            0
        };
        if s.len() < consumed {
            HeaderParse::Insufficient
        } else {
            let length: int = if lcode < 126 {
                lcode as int
            } else {
                be_val(s.subrange(2, 2 + ext))
            };
            if (lcode == 126 && length < 126) || (lcode == 127 && length < 65536) {
                HeaderParse::Malformed
            } else {
                let ks = s.subrange(2 + ext, consumed);
                HeaderParse::Done {
                    header: FrameHeader {
                        is_final: b0 >= 128,
                        rsv1: (b0 / 64) % 2 == 1,
                        rsv2: (b0 / 32) % 2 == 1,
                        rsv3: (b0 / 16) % 2 == 1,
                        opcode: OpCode::spec_from_number(b0 % 16),
                        mask: if masked {
                            Option::Some([ks[0], ks[1], ks[2], ks[3]])
                        } else {
                            Option::None
                        },
                    },
                    length: length as u64,
                    consumed,
                }
            }
        }
    }
}

impl FrameHeader {
    /// A header is well formed when its opcode is.
    pub open spec fn wf(self) -> bool {
        self.opcode.wf()
    }

    /// The number of bytes the header occupies on the wire.
    pub open spec fn spec_wire_len(self, length: u64) -> int {
        spec_format_header(self, length).len() as int
    }

    /// Parses a header from the start of `buf`. Returns `Ok(None)` when
    /// fewer bytes are available than a whole header requires, consuming
    /// nothing; rejects a non-minimal length encoding; otherwise returns
    /// the header, its declared payload length, and the bytes consumed.
    pub fn parse(buf: &Vec<u8>) -> (r: Result<Option<(FrameHeader, u64, usize)>, Error>)
        ensures
            match spec_parse_header(buf@) {
                HeaderParse::Insufficient => r matches Ok(o) && o is None,
                HeaderParse::Malformed => r matches Err(e) && e == Error::Protocol(
                    ProtocolError::NonMinimalLengthEncoding,
                ),
                HeaderParse::Done { header, length, consumed } => r matches Ok(o) && o
                    == Some((header, length, consumed as usize)),
            },
    {
        let n = buf.len();
        if n < 2 {
            return Ok(None);
        }
        let b0 = buf[0];
        let b1 = buf[1];
        let masked = b1 >= 128;
        let lcode = b1 % 128;
        let ext: usize = if lcode < 126 {
            0
        } else if lcode == 126 {
            2
        } else {
            8
        };
        let klen: usize = if masked {
            4
        } else {
            0
        };
        let consumed: usize = 2 + ext + klen;
        if n < consumed {
            return Ok(None);
        }
        let length: u64 = if lcode < 126 {
            lcode as u64
        } else {
            read_be(buf, 2, ext)
        };
        proof {
            if lcode >= 126 {
                lemma_be_val_bound(buf@.subrange(2, 2 + ext as int));
                lemma_p256_val_2();
                lemma_p256_val_8();
                crate::wire::lemma_p256_le_8(2nat);
            }
        }
        if (lcode == 126 && length < 126) || (lcode == 127 && length < 65536) {
            return Err(Error::Protocol(ProtocolError::NonMinimalLengthEncoding));
        }
        let mask: Option<[u8; 4]> = if masked {
            Some([buf[2 + ext], buf[3 + ext], buf[4 + ext], buf[5 + ext]])
        } else {
            None
        };
        let header = FrameHeader {
            is_final: b0 >= 128,
            rsv1: (b0 / 64) % 2 == 1,
            rsv2: (b0 / 32) % 2 == 1,
            rsv3: (b0 / 16) % 2 == 1,
            opcode: OpCode::from_number(b0 % 16),
            mask,
        };
        Ok(Some((header, length, consumed)))
    }

    /// Writes the header for a payload of `length` bytes, choosing the
    /// smallest length class and emitting the mask key when present.
    pub fn format(&self, length: u64, out: &mut Vec<u8>)
        requires
            self.wf(),
        ensures
            final(out)@ == old(out)@ + spec_format_header(*self, length),
    {
        proof {
            lemma_opcode_round_trip(self.opcode);
        }
        let b0: u8 = (if self.is_final {
            128
        } else {
            0
        }) + (if self.rsv1 {
            64
        } else {
            0
        }) + (if self.rsv2 {
            32
        } else {
            0
        }) + (if self.rsv3 {
            16
        } else {
            0
        }) + self.opcode.number();
        out.push(b0);
        let lcode: u8 = if length < 126 {
            length as u8
        } else if length < 65536 {
            126
        } else {
            127
        };
        let b1: u8 = (if self.mask.is_some() {
            128
        } else {
            0
        }) + lcode;
        out.push(b1);
        if length >= 126 {
            if length < 65536 {
                proof {
                    lemma_p256_val_2();
                }
                push_be(out, length, 2);
            } else {
                proof {
                    lemma_p256_val_8();
                }
                push_be(out, length, 8);
            }
        }
        match self.mask {
            Some(k) => {
                out.push(k[0]);
                out.push(k[1]);
                out.push(k[2]);
                out.push(k[3]);
            },
            None => {},
        }
        proof {
            assert(out@ =~= old(out)@ + spec_format_header(*self, length));
        }
    }
}

/// A structured close payload: a 2-byte status code and a UTF-8 reason;
/// its absence means "close with no status".
#[derive(Debug, Clone)]
pub struct CloseFrame {
    pub code: u16,
    pub reason: Utf8Bytes,
}

/// One frame: a header and its payload bytes.
#[derive(Debug, Clone)]
pub struct Frame {
    pub header: FrameHeader,
    pub payload: Vec<u8>,
}

/// The full wire encoding of a frame: the header for the payload's
/// length, then the payload, masked iff the header carries a key.
pub open spec fn spec_format_frame(f: Frame) -> Seq<u8> {
    spec_format_header(f.header, f.payload@.len() as u64) + match f.header.mask {
        Option::Some(k) => mask_seq(f.payload@, k),
        Option::None => f.payload@,
    }
}

impl Frame {
    pub open spec fn wf(self) -> bool {
        self.header.wf()
    }

    /// The number of bytes the frame occupies on the wire.
    pub open spec fn spec_wire_len(self) -> int {
        spec_format_frame(self).len() as int
    }

    /// A frame assembled from an already-parsed header and its payload.
    pub fn from_payload(header: FrameHeader, payload: Vec<u8>) -> (r: Frame)
        ensures
            r.header == header,
            r.payload@ == payload@,
    {
        Frame { header, payload }
    }

    /// A data or control frame with the given opcode and fin bit, unmasked.
    pub fn message(payload: Vec<u8>, opcode: OpCode, is_final: bool) -> (r: Frame)
        ensures
            r.header == (FrameHeader {
                is_final,
                rsv1: false,
                rsv2: false,
                rsv3: false,
                opcode,
                mask: Option::None,
            }),
            r.payload@ == payload@,
    {
        Frame {
            header: FrameHeader {
                is_final,
                rsv1: false,
                rsv2: false,
                rsv3: false,
                opcode,
                mask: None,
            },
            payload,
        }
    }

    /// A ping frame with the given payload.
    pub fn ping(payload: Vec<u8>) -> (r: Frame)
        ensures
            r.header == (FrameHeader {
                is_final: true,
                rsv1: false,
                rsv2: false,
                rsv3: false,
                opcode: OpCode::Ping,
                mask: Option::None,
            }),
            r.payload@ == payload@,
    {
        Self::message(payload, OpCode::Ping, true)
    }

    /// A pong frame with the given payload.
    pub fn pong(payload: Vec<u8>) -> (r: Frame)
        ensures
            r.header == (FrameHeader {
                is_final: true,
                rsv1: false,
                rsv2: false,
                rsv3: false,
                opcode: OpCode::Pong,
                mask: Option::None,
            }),
            r.payload@ == payload@,
    {
        Self::message(payload, OpCode::Pong, true)
    }

    /// A close frame; with a structured payload it carries the status
    /// code big-endian followed by the reason bytes.
    pub fn close(msg: Option<CloseFrame>) -> (r: Frame)
        ensures
            r.header == (FrameHeader {
                is_final: true,
                rsv1: false,
                rsv2: false,
                rsv3: false,
                opcode: OpCode::Close,
                mask: Option::None,
            }),
            r.payload@ == match msg {
                Option::Some(cf) => be_bytes(cf.code as int, 2) + cf.reason@,
                Option::None => Seq::<u8>::empty(),
            },
    {
        let payload: Vec<u8> = match msg {
            Some(cf) => {
                let mut p: Vec<u8> = Vec::new();
                proof {
                    lemma_p256_val_2();
                }
                push_be(&mut p, cf.code as u64, 2);
                let mut rb = cf.reason.into_bytes();
                p.append(&mut rb);
                p
            },
            None => Vec::new(),
        };
        Self::message(payload, OpCode::Close, true)
    }

    /// Sets the mask key, marking the frame for masking when formatted.
    pub fn set_mask(&mut self, key: [u8; 4])
        ensures
            final(self).header == (FrameHeader { mask: Option::Some(key), ..old(self).header }),
            final(self).payload@ == old(self).payload@,
    {
        self.header.mask = Some(key);
    }

    /// The payload bytes, consuming the frame.
    pub fn into_payload(self) -> (r: Vec<u8>)
        ensures
            r@ == self.payload@,
    {
        self.payload
    }

    /// A reference to the payload bytes.
    pub fn payload_ref(&self) -> (r: &Vec<u8>)
        ensures
            r@ == self.payload@,
    {
        &self.payload
    }

    /// The frame's wire length.
    pub fn len(&self) -> (r: usize)
        requires
            self.spec_wire_len() <= usize::MAX,
        ensures
            r == self.spec_wire_len(),
    {
        let hlen = self.header_wire_len();
        proof {
            lemma_header_wire_len(self.header, self.payload@.len() as u64);
            if self.header.mask is Some {
                crate::mask::lemma_mask_seq_len(self.payload@, self.header.mask->0);
            }
        }
        hlen + self.payload.len()
    }

    /// The number of bytes the frame's header occupies on the wire.
    pub fn header_wire_len(&self) -> (r: usize)
        ensures
            r == spec_format_header(self.header, self.payload@.len() as u64).len(),
    {
        proof {
            lemma_header_wire_len(self.header, self.payload@.len() as u64);
        }
        let length: u64 = self.payload.len() as u64;
        let ext: usize = if length < 126 {
            0
        } else if length < 65536 {
            2
        } else {
            8
        };
        let klen: usize = if self.header.mask.is_some() {
            4
        } else {
            0
        };
        2 + ext + klen
    }

    /// Formats the frame into the output buffer, masking the payload when
    /// the header carries a key; consumes the frame.
    pub fn format(self, out: &mut Vec<u8>)
        requires
            self.wf(),
        ensures
            final(out)@ == old(out)@ + spec_format_frame(self),
    {
        let Frame { header, mut payload } = self;
        header.format(payload.len() as u64, out);
        match header.mask {
            Some(k) => {
                apply_mask(&mut payload, k);
            },
            None => {},
        }
        out.append(&mut payload);
        proof {
            assert(out@ =~= old(out)@ + spec_format_frame(self));
        }
    }
}

/// Packing fin, reserved bits and opcode into a byte is inverted by the
/// parser's divisions.
proof fn lemma_pack_first_byte(b0: u8, f: u8, r1: u8, r2: u8, r3: u8, op: u8)
    requires
        f <= 1,
        r1 <= 1,
        r2 <= 1,
        r3 <= 1,
        op < 16,
        b0 == f * 128 + r1 * 64 + r2 * 32 + r3 * 16 + op,
    ensures
        (b0 >= 128) == (f == 1),
        ((b0 / 64) % 2 == 1) == (r1 == 1),
        ((b0 / 32) % 2 == 1) == (r2 == 1),
        ((b0 / 16) % 2 == 1) == (r3 == 1),
        b0 % 16 == op,
{
    assert((b0 >= 128) == (f == 1) && ((b0 / 64) % 2 == 1) == (r1 == 1) && ((b0 / 32) % 2 == 1)
        == (r2 == 1) && ((b0 / 16) % 2 == 1) == (r3 == 1) && b0 % 16 == op) by (bit_vector)
        requires
            f <= 1,
            r1 <= 1,
            r2 <= 1,
            r3 <= 1,
            op < 16,
            b0 == f * 128 + r1 * 64 + r2 * 32 + r3 * 16 + op,
    ;
}

/// Every byte is the packing of the fields the parser reads from it.
proof fn lemma_unpack_first_byte(b0: u8)
    ensures
        b0 == (if b0 >= 128 {
            128u8
        } else {
            0u8
        }) + (if (b0 / 64) % 2 == 1 {
            64u8
        } else {
            0u8
        }) + (if (b0 / 32) % 2 == 1 {
            32u8
        } else {
            0u8
        }) + (if (b0 / 16) % 2 == 1 {
            16u8
        } else {
            0u8
        }) + b0 % 16,
{
    assert(b0 == (if b0 >= 128 {
        128u8
    } else {
        0u8
    }) + (if (b0 / 64) % 2 == 1 {
        64u8
    } else {
        0u8
    }) + (if (b0 / 32) % 2 == 1 {
        32u8
    } else {
        0u8
    }) + (if (b0 / 16) % 2 == 1 {
        16u8
    } else {
        0u8
    }) + b0 % 16) by (bit_vector);
}

/// Packing the mask bit and length code is inverted by the parser.
proof fn lemma_pack_second_byte(b1: u8, m: u8, lc: u8)
    requires
        m <= 1,
        lc <= 127,
        b1 == m * 128 + lc,
    ensures
        (b1 >= 128) == (m == 1),
        b1 % 128 == lc,
{
    assert((b1 >= 128) == (m == 1) && b1 % 128 == lc) by (bit_vector)
        requires
            m <= 1,
            lc <= 127,
            b1 == m * 128 + lc,
    ;
}

/// Every byte is the mask bit and length code the parser reads from it.
proof fn lemma_unpack_second_byte(b1: u8)
    ensures
        b1 == (if b1 >= 128 {
            128u8
        } else {
            0u8
        }) + b1 % 128,
{
    assert(b1 == (if b1 >= 128 {
        128u8
    } else {
        0u8
    }) + b1 % 128) by (bit_vector);
}

/// Round trip, formatting first: a formatted well-formed header parses
/// back to itself, with the payload length it was formatted for, however
/// many bytes follow it.
pub proof fn lemma_header_format_parse(h: FrameHeader, length: u64, rest: Seq<u8>)
    requires
        h.wf(),
    ensures
        spec_parse_header(spec_format_header(h, length) + rest) == (HeaderParse::Done {
            header: h,
            length,
            consumed: spec_format_header(h, length).len() as int,
        }),
{
    broadcast use vstd::array::axiom_array_ext_equal;

    let fmt = spec_format_header(h, length);
    let s = fmt + rest;
    let ext = ext_len_bytes(length);
    let mk = mask_key_bytes(h.mask);
    lemma_opcode_round_trip(h.opcode);
    let op = h.opcode.spec_number();
    let f: u8 = if h.is_final {
        1
    } else {
        0
    };
    let r1: u8 = if h.rsv1 {
        1
    } else {
        0
    };
    let r2: u8 = if h.rsv2 {
        1
    } else {
        0
    };
    let r3: u8 = if h.rsv3 {
        1
    } else {
        0
    };
    let b0 = spec_first_byte(h);
    assert(b0 == f * 128 + r1 * 64 + r2 * 32 + r3 * 16 + op);
    lemma_pack_first_byte(b0, f, r1, r2, r3, op);
    let m: u8 = if h.mask is Some {
        1
    } else {
        0
    };
    let lc = len_code(length);
    let b1 = spec_second_byte(h, length);
    assert(lc <= 127);
    assert(b1 == m * 128 + lc);
    lemma_pack_second_byte(b1, m, lc);
    if length >= 126 {
        if length < 65536 {
            lemma_be_bytes_len(length as int, 2);
        } else {
            lemma_be_bytes_len(length as int, 8);
        }
    }
    let extn: int = if lc < 126 {
        0
    } else if lc == 126 {
        2
    } else {
        8
    };
    assert(extn == ext.len());
    assert(s[0] == b0);
    assert(s[1] == b1);
    let consumed: int = 2 + extn + if m == 1 {
        4int
    } else {
        0int
    };
    assert(consumed == fmt.len());
    assert(s.len() >= consumed);
    if lc >= 126 {
        assert(s.subrange(2, 2 + extn) =~= ext);
        if length < 65536 {
            lemma_p256_val_2();
            lemma_be_val_of_bytes(length as int, 2);
        } else {
            lemma_p256_val_8();
            lemma_be_val_of_bytes(length as int, 8);
        }
    }
    match h.mask {
        Option::Some(k) => {
            let ks = s.subrange(2 + extn, consumed);
            assert(ks =~= mk);
            let k2: [u8; 4] = [ks[0], ks[1], ks[2], ks[3]];
            assert(k2 =~= k);
        },
        Option::None => {},
    }
}

/// Round trip, parsing first: the bytes a parsed header consumed are
/// exactly its own formatting, and the header is well formed. This is
/// what makes resumable parsing sound: consumed header bytes can always
/// be reconstructed from the parsed header alone.
pub proof fn lemma_header_parse_format(s: Seq<u8>)
    ensures
        match spec_parse_header(s) {
            HeaderParse::Done { header, length, consumed } => {
                &&& header.wf()
                &&& 2 <= consumed <= 14
                &&& consumed <= s.len()
                &&& spec_format_header(header, length) == s.subrange(0, consumed)
            },
            _ => true,
        },
{
    broadcast use vstd::array::axiom_array_ext_equal;

    if s.len() >= 2 {
        let b0 = s[0];
        let b1 = s[1];
        let masked = b1 >= 128;
        let lcode = b1 % 128;
        let extn: int = if lcode < 126 {
            0
        } else if lcode == 126 {
            2
        } else {
            8
        };
        let consumed: int = 2 + extn + if masked {
            4int
        } else {
            0int
        };
        if s.len() >= consumed {
            let length: int = if lcode < 126 {
                lcode as int
            } else {
                be_val(s.subrange(2, 2 + extn))
            };
            if !((lcode == 126 && length < 126) || (lcode == 127 && length < 65536)) {
                let ks = s.subrange(2 + extn, consumed);
                lemma_opcode_number_round_trip(b0 % 16);
                let h = match spec_parse_header(s) {
                    HeaderParse::Done { header, .. } => header,
                    _ => arbitrary(),
                };
                let lv = match spec_parse_header(s) {
                    HeaderParse::Done { length, .. } => length,
                    _ => arbitrary(),
                };
                if lcode >= 126 {
                    lemma_be_val_bound(s.subrange(2, 2 + extn));
                    if lcode == 126 {
                        lemma_p256_val_2();
                    } else {
                        lemma_p256_val_8();
                    }
                }
                assert(0 <= length < 0x10000000000000000) by {
                    if lcode >= 126 {
                        lemma_be_val_bound(s.subrange(2, 2 + extn));
                        lemma_p256_val_2();
                        lemma_p256_val_8();
                        crate::wire::lemma_p256_le_8(2nat);
                    }
                }
                assert(lv == length);
                // The length code the formatter would choose matches.
                assert(len_code(lv) == lcode) by {
                    if lcode < 126 {
                    } else if lcode == 126 {
                        lemma_be_val_bound(s.subrange(2, 2 + extn));
                        lemma_p256_val_2();
                    } else {
                    }
                }
                // First byte reconstructs.
                lemma_unpack_first_byte(b0);
                assert(spec_first_byte(h) == b0);
                // Second byte reconstructs.
                lemma_unpack_second_byte(b1);
                assert(spec_second_byte(h, lv) == b1);
                // Extended length bytes reconstruct.
                assert(ext_len_bytes(lv) =~= s.subrange(2, 2 + extn)) by {
                    if lcode >= 126 {
                        lemma_be_bytes_of_val(s.subrange(2, 2 + extn));
                    }
                }
                // Mask key bytes reconstruct.
                assert(mask_key_bytes(h.mask) =~= ks);
                assert(spec_format_header(h, lv) =~= s.subrange(0, consumed));
            }
        }
    }
}

/// Header parsing looks only at the bytes it consumes: once a parse
/// resolves, appending further stream bytes cannot change it.
pub proof fn lemma_parse_prefix_stable(s: Seq<u8>, t: Seq<u8>)
    ensures
        spec_parse_header(s) matches HeaderParse::Done { header, length, consumed } ==> spec_parse_header(
            s + t,
        ) == spec_parse_header(s),
        spec_parse_header(s) is Malformed ==> spec_parse_header(s + t) is Malformed,
{
    let u = s + t;
    if s.len() >= 2 {
        assert(u[0] == s[0]);
        assert(u[1] == s[1]);
        let b1 = s[1];
        let lcode = b1 % 128;
        let extn: int = if lcode < 126 {
            0
        } else if lcode == 126 {
            2
        } else {
            8
        };
        let consumed: int = 2 + extn + if b1 >= 128 {
            4int
        } else {
            0int
        };
        if s.len() >= consumed {
            assert(u.subrange(2, 2 + extn) =~= s.subrange(2, 2 + extn));
            assert(u.subrange(2 + extn, consumed) =~= s.subrange(2 + extn, consumed));
        }
    }
}

/// A header never needs more than 14 bytes: with that many available the
/// parser always resolves.
pub proof fn lemma_parse_needs_at_most_14(s: Seq<u8>)
    requires
        s.len() >= 14,
    ensures
        !(spec_parse_header(s) is Insufficient),
{
}

/// The wire length of a header is two bytes, the extended length field,
/// and the mask key.
pub proof fn lemma_header_wire_len(h: FrameHeader, length: u64)
    ensures
        spec_format_header(h, length).len() == 2 + (if length < 126 {
            0int
        } else if length < 65536 {
            2int
        } else {
            8int
        }) + (if h.mask is Some {
            4int
        } else {
            0int
        }),
{
    if length >= 126 {
        if length < 65536 {
            lemma_be_bytes_len(length as int, 2);
        } else {
            lemma_be_bytes_len(length as int, 8);
        }
    }
}

} // verus!
