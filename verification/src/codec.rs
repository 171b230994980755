//! The stateful frame codec: resumable reading of frames out of an
//! arbitrarily fragmented byte stream, and buffered, coalesced writing of
//! frames with backpressure.

use vstd::prelude::*;
use crate::buffer::bm_advance;
use crate::buffer::bm_bytes;
use crate::buffer::bm_copy_prefix;
use crate::buffer::bm_extend;
use crate::buffer::bm_from_vec;
use crate::buffer::bm_len;
use crate::buffer::bm_with_capacity;
use crate::error::CapacityError;
use crate::error::Error;
use crate::error::IoKind;
use crate::error::ProtocolError;
use crate::frame::Frame;
use crate::frame::FrameHeader;
use crate::frame::HeaderParse;
use crate::frame::lemma_header_format_parse;
use crate::frame::lemma_header_parse_format;
use crate::frame::lemma_parse_needs_at_most_14;
use crate::frame::lemma_parse_prefix_stable;
use crate::frame::spec_format_frame;
use crate::frame::spec_format_header;
use crate::frame::spec_parse_header;
use crate::mask::apply_mask;
use crate::mask::lemma_mask_involution;
use crate::mask::mask_seq;

verus! {

/// A source of stream bytes, implemented by the caller for its
/// transport; blocking reads block inside, non-blocking reads return
/// `Err(IoKind::WouldBlock)`.
pub trait ReadStream {
    /// Reads at most `max` bytes; an empty result means the peer closed
    /// the connection.
    fn read_chunk(&mut self, max: usize) -> (r: Result<Vec<u8>, IoKind>)
        ensures
            r matches Ok(v) ==> v@.len() <= max,
    ;
}

/// A sink of stream bytes, implemented by the caller for its transport.
pub trait WriteStream {
    /// Writes some prefix of `buf`, returning how many bytes it took.
    fn write_chunk(&mut self, buf: &Vec<u8>) -> (r: Result<usize, IoKind>)
        ensures
            r matches Ok(n) ==> n <= buf@.len(),
    ;

    /// Flushes whatever the transport itself has buffered.
    fn flush_stream(&mut self) -> (r: Result<(), IoKind>);
}

/// The payload as the caller sees it: unmasked iff the header carries a
/// key.
pub open spec fn unmasked(h: FrameHeader, raw: Seq<u8>) -> Seq<u8> {
    match h.mask {
        Option::Some(k) => mask_seq(raw, k),
        Option::None => raw,
    }
}

/// What the byte sequence `s` yields next under the size limit `max`.
pub enum NextFrame {
    /// More stream bytes are needed before anything can be decided.
    NeedMore,
    /// The header violates the frame grammar.
    Malformed,
    /// The header declares a payload longer than the limit allows.
    TooLong { size: u64 },
    /// A whole frame: its header, its unmasked payload, and the bytes
    /// after it.
    Ready { header: FrameHeader, payload: Seq<u8>, rest: Seq<u8> },
}

pub open spec fn spec_next_frame(s: Seq<u8>, max: usize) -> NextFrame {
    match spec_parse_header(s) {
        HeaderParse::Insufficient => NextFrame::NeedMore,
        HeaderParse::Malformed => NextFrame::Malformed,
        HeaderParse::Done { header, length, consumed } => if length > max as u64 {
            NextFrame::TooLong { size: length }
        } else if s.len() >= consumed + length {
            NextFrame::Ready {
                header,
                payload: unmasked(header, s.subrange(consumed, consumed + length)),
                rest: s.skip(consumed + length),
            }
        } else {
            NextFrame::NeedMore
        },
    }
}

/// What one `read_frame` call may do, given the bytes `arrived` that the
/// stream handed over during the call: the result is determined by the
/// unconsumed bytes `pre + arrived` alone, and `post` says what stays
/// unconsumed.
pub open spec fn spec_read_result(
    pre: Seq<u8>,
    arrived: Seq<u8>,
    max: usize,
    r: Result<Option<Frame>, Error>,
    post: Seq<u8>,
) -> bool {
    let total = pre + arrived;
    match r {
        Result::Ok(Option::Some(f)) => spec_next_frame(total, max) == (NextFrame::Ready {
            header: f.header,
            payload: f.payload@,
            rest: post,
        }),
        Result::Ok(Option::None) => post == total && spec_next_frame(total, max)
            is NeedMore,
        Result::Err(e) => match e {
            Error::Capacity(CapacityError::MessageTooLong { size, max_size }) => post == total
                && max_size == max && spec_next_frame(total, max) == (NextFrame::TooLong { size }),
            Error::Protocol(_) => post == total && spec_next_frame(total, max) is Malformed,
            Error::Io(_) => post == total,
            Error::WriteBufferFull(_) => false,
        },
    }
}

/// The effective size limit: unbounded by default.
pub open spec fn spec_max_size(m: Option<usize>) -> usize {
    match m {
        Option::Some(x) => x,
        Option::None => usize::MAX,
    }
}

/// When the bytes already on hand decide the outcome, `read_frame`
/// honors them without waiting on the stream: a complete admissible
/// frame is delivered at once with exactly its leftover kept, an
/// oversized declaration or a malformed header fails at once with the
/// buffered bytes intact. Only `NeedMore` leaves the outcome to the
/// stream.
pub open spec fn spec_prompt_result(
    pre: Seq<u8>,
    max: usize,
    r: Result<Option<Frame>, Error>,
    post: Seq<u8>,
) -> bool {
    match spec_next_frame(pre, max) {
        NextFrame::Ready { header, payload, rest } => {
            &&& r matches Ok(o) && o matches Some(f) && f.header == header && f.payload@
                == payload
            &&& post == rest
        },
        NextFrame::TooLong { size } => r == Result::<Option<Frame>, Error>::Err(Error::Capacity(
            CapacityError::MessageTooLong { size, max_size: max },
        )) && post == pre,
        NextFrame::Malformed => r == Result::<Option<Frame>, Error>::Err(Error::Protocol(
            ProtocolError::NonMinimalLengthEncoding,
        )) && post == pre,
        NextFrame::NeedMore => true,
    }
}

/// Ties one call's observed outcome back to what the pre-call bytes
/// already decided: if they decided anything, the call never read, so
/// the outcome is exactly the decided one.
proof fn lemma_prompt_case(
    pre: Seq<u8>,
    arrived: Seq<u8>,
    max: usize,
    r: Result<Option<Frame>, Error>,
    post: Seq<u8>,
)
    requires
        spec_read_result(pre, arrived, max, r, post),
        !(spec_next_frame(pre, max) is NeedMore) ==> arrived == Seq::<u8>::empty(),
        r matches Err(e) && e is Io ==> spec_next_frame(pre + arrived, max) is NeedMore,
    ensures
        spec_prompt_result(pre, max, r, post),
{
    if !(spec_next_frame(pre, max) is NeedMore) {
        assert(pre + arrived =~= pre);
    }
}

/// `post` is what remains of `pre` after removing some prefix.
pub open spec fn drained(pre: Seq<u8>, post: Seq<u8>) -> bool {
    exists|n: int| 0 <= n <= pre.len() && post == pre.skip(n)
}

/// The default capacity reserved for reading.
const READ_BUFFER_CAP: usize = 65536;

/// How many bytes at most one stream read may ask for.
const READ_CHUNK: usize = 65536;

/// A codec for frames: owns the input buffer of stream bytes not yet
/// consumed into a frame, the output buffer of formatted bytes not yet
/// written, the two output ceilings, and the resumable parse state.
pub struct FrameCodec {
    /// Bytes read from the stream but not yet consumed.
    in_buffer: bytes::BytesMut,
    /// Bytes formatted but not yet written to the stream.
    out_buffer: Vec<u8>,
    /// Hard cap on the output buffer: the backpressure boundary.
    max_out_buffer_len: usize,
    /// Soft threshold that triggers a drain after buffering: the write
    /// coalescing control.
    out_buffer_write_len: usize,
    /// The parsed header of the frame in progress and its declared
    /// payload length, present between "header seen" and "payload
    /// complete".
    header: Option<(FrameHeader, u64)>,
}

impl FrameCodec {
    /// An in-progress header is always well formed; every constructor
    /// establishes this and every method preserves it.
    pub open spec fn wf(self) -> bool {
        match self.header_state() {
            Option::Some((h, _)) => h.wf(),
            Option::None => true,
        }
    }

    /// The bytes read from the stream and not yet consumed into a frame.
    pub closed spec fn in_bytes(self) -> Seq<u8> {
        bm_bytes(self.in_buffer)
    }

    /// The formatted bytes pending write.
    pub closed spec fn out_bytes(self) -> Seq<u8> {
        self.out_buffer@
    }

    pub closed spec fn max_out(self) -> int {
        self.max_out_buffer_len as int
    }

    pub closed spec fn write_thresh(self) -> int {
        self.out_buffer_write_len as int
    }

    pub closed spec fn header_state(self) -> Option<(FrameHeader, u64)> {
        self.header
    }

    /// How far `read_frame` still is from resolving a header: the
    /// measure that bounds its loop.
    spec fn read_phase(self) -> int {
        if self.header is Some {
            0
        } else {
            1
        }
    }

    spec fn read_fuel(self) -> int {
        match self.header {
            Option::Some((h, l)) => if self.in_bytes().len() <= l {
                l - self.in_bytes().len()
            } else {
                0
            },
            Option::None => if self.in_bytes().len() <= 14 {
                14 - self.in_bytes().len()
            } else {
                0
            },
        }
    }

    /// The unconsumed stream suffix the codec stands for: the in-progress
    /// header re-encoded (header bytes, once consumed, are recoverable
    /// from the parsed header exactly because non-minimal encodings are
    /// rejected), followed by the buffered bytes.
    pub open spec fn pending(self) -> Seq<u8> {
        match self.header_state() {
            Option::Some((h, l)) => spec_format_header(h, l) + self.in_bytes(),
            Option::None => self.in_bytes(),
        }
    }

    /// A fresh codec: nothing buffered in either direction, no ceiling on
    /// the output buffer, eager writing.
    pub fn new() -> (r: Self)
        ensures
            r.pending() == Seq::<u8>::empty(),
            r.header_state() is None,
            r.out_bytes() == Seq::<u8>::empty(),
            r.max_out() == usize::MAX,
            r.write_thresh() == 0,
    {
        FrameCodec {
            in_buffer: bm_with_capacity(READ_BUFFER_CAP),
            out_buffer: Vec::new(),
            max_out_buffer_len: usize::MAX,
            out_buffer_write_len: 0,
            header: None,
        }
    }

    /// A codec whose input buffer is seeded with bytes an upstream
    /// sniffer already read from the stream.
    pub fn from_partially_read(part: Vec<u8>) -> (r: Self)
        ensures
            r.pending() == part@,
            r.header_state() is None,
            r.out_bytes() == Seq::<u8>::empty(),
            r.max_out() == usize::MAX,
            r.write_thresh() == 0,
    {
        FrameCodec {
            in_buffer: bm_from_vec(part),
            out_buffer: Vec::new(),
            max_out_buffer_len: usize::MAX,
            out_buffer_write_len: 0,
            header: None,
        }
    }

    /// Sets the output buffer's hard cap.
    pub fn set_max_out_buffer_len(&mut self, max: usize)
        ensures
            final(self).max_out() == max as int,
            final(self).write_thresh() == old(self).write_thresh(),
            final(self).pending() == old(self).pending(),
            final(self).header_state() == old(self).header_state(),
            final(self).out_bytes() == old(self).out_bytes(),
    {
        self.max_out_buffer_len = max;
    }

    /// Sets the coalescing threshold the output buffer must exceed before
    /// a buffered frame triggers a write.
    pub fn set_out_buffer_write_len(&mut self, len: usize)
        ensures
            final(self).write_thresh() == len as int,
            final(self).max_out() == old(self).max_out(),
            final(self).pending() == old(self).pending(),
            final(self).header_state() == old(self).header_state(),
            final(self).out_bytes() == old(self).out_bytes(),
    {
        self.out_buffer_write_len = len;
    }

    /// The input buffer, surrendered when the stream is handed to another
    /// protocol layer.
    pub fn into_in_buffer(self) -> (r: bytes::BytesMut)
        ensures
            bm_bytes(r) == self.in_bytes(),
    {
        self.in_buffer
    }

    /// One attempt to resolve a header from the buffered bytes; called
    /// only while no header is in progress. Consumes header bytes iff a
    /// whole header is present, never changes what the codec stands for,
    /// and rejects a malformed header.
    fn parse_step(&mut self) -> (r: Result<(), Error>)
        requires
            old(self).header_state() is None,
        ensures
            final(self).wf(),
            final(self).pending() == old(self).pending(),
            final(self).out_bytes() == old(self).out_bytes(),
            final(self).max_out() == old(self).max_out(),
            final(self).write_thresh() == old(self).write_thresh(),
            match r {
                Result::Ok(()) => final(self).header_state() is None ==> {
                    &&& spec_parse_header(final(self).in_bytes()) is Insufficient
                    &&& final(self).in_bytes() == old(self).in_bytes()
                },
                Result::Err(e) => {
                    &&& e == Error::Protocol(ProtocolError::NonMinimalLengthEncoding)
                    &&& spec_parse_header(final(self).pending()) is Malformed
                    &&& final(self).header_state() is None
                },
            },
    {
        let avail = bm_len(&self.in_buffer);
        let pn = if avail < 14 {
            avail
        } else {
            14
        };
        let pfx = bm_copy_prefix(&self.in_buffer, pn);
        proof {
            lemma_parse_prefix_stable(pfx@, self.in_bytes().skip(pn as int));
            assert(pfx@ + self.in_bytes().skip(pn as int) =~= self.in_bytes());
            if pn == 14 {
                lemma_parse_needs_at_most_14(pfx@);
            }
            lemma_header_parse_format(pfx@);
        }
        match FrameHeader::parse(&pfx) {
            Err(e) => Err(e),
            Ok(None) => Ok(()),
            Ok(Some((h, l, c))) => {
                proof {
                    assert(spec_format_header(h, l) == pfx@.subrange(0, c as int));
                    assert(pfx@.subrange(0, c as int) =~= self.in_bytes().subrange(0, c as int));
                }
                bm_advance(&mut self.in_buffer, c);
                self.header = Some((h, l));
                proof {
                    assert(self.pending() =~= old(self).pending());
                }
                Ok(())
            },
        }
    }

    /// Slices the complete payload of the in-progress header off the
    /// input buffer, zero further copies of consumed bytes, clears the
    /// parse state and delivers the frame unmasked.
    fn take_frame(&mut self, h: FrameHeader, l: u64) -> (f: Frame)
        requires
            old(self).header_state() == Some((h, l)),
            old(self).wf(),
            l <= old(self).in_bytes().len(),
            l <= usize::MAX,
        ensures
            final(self).wf(),
            final(self).header_state() is None,
            final(self).in_bytes() == old(self).in_bytes().skip(l as int),
            final(self).out_bytes() == old(self).out_bytes(),
            final(self).max_out() == old(self).max_out(),
            final(self).write_thresh() == old(self).write_thresh(),
            f.header == h,
            f.payload@ == unmasked(h, old(self).in_bytes().take(l as int)),
    {
        let plen = l as usize;
        proof {
            assert(plen == l);
        }
        let raw = bm_copy_prefix(&self.in_buffer, plen);
        bm_advance(&mut self.in_buffer, plen);
        self.header = None;
        let mut payload = raw;
        match h.mask {
            Some(k) => apply_mask(&mut payload, k),
            None => {},
        }
        Frame::from_payload(h, payload)
    }

    /// Reads one frame, resumably: at most one stream read per loop turn,
    /// picking up exactly where the previous call left off. Whatever the
    /// stream returned, the outcome is a function of the unconsumed bytes
    /// (`pending`) extended by the bytes that arrived: a whole frame
    /// within the size limit is delivered unmasked with the leftover kept,
    /// an oversized declaration fails before its payload is ever
    /// buffered, a malformed header fails cleanly, and a closed peer
    /// yields `None`.
    #[verifier::loop_isolation(false)]
    #[verifier::rlimit(100)]
    #[verifier::spinoff_prover]
    pub fn read_frame<S: ReadStream>(
        &mut self,
        stream: &mut S,
        max_size: Option<usize>,
    ) -> (r: Result<Option<Frame>, Error>)
        requires
            old(self).wf(),
        ensures
            final(self).wf(),
            exists|arrived: Seq<u8>|
                spec_read_result(
                    old(self).pending(),
                    arrived,
                    spec_max_size(max_size),
                    r,
                    final(self).pending(),
                ),
            spec_prompt_result(
                old(self).pending(),
                spec_max_size(max_size),
                r,
                final(self).pending(),
            ),
            // When the buffered bytes already decide the outcome, no
            // stream read is ever issued: an oversized declared length
            // cannot force further buffering.
            !(spec_next_frame(old(self).pending(), spec_max_size(max_size)) is NeedMore)
                ==> *final(stream) == *old(stream),
            match r {
                Result::Ok(Option::Some(_)) => final(self).header_state() is None,
                _ => true,
            },
            final(self).out_bytes() == old(self).out_bytes(),
            final(self).max_out() == old(self).max_out(),
            final(self).write_thresh() == old(self).write_thresh(),
    {
        let max: usize = match max_size {
            Some(m) => m,
            None => usize::MAX,
        };
        proof {
            assert(max == spec_max_size(max_size));
        }
        let ghost pending0 = self.pending();
        let ghost mut arrived: Seq<u8> = Seq::empty();
        loop
            invariant
                self.wf(),
                self.out_buffer@ == old(self).out_buffer@,
                self.max_out_buffer_len == old(self).max_out_buffer_len,
                self.out_buffer_write_len == old(self).out_buffer_write_len,
                self.pending() == pending0 + arrived,
                !(spec_next_frame(pending0, max) is NeedMore) ==> arrived == Seq::<u8>::empty(),
                arrived == Seq::<u8>::empty() ==> *stream == *old(stream),
            decreases self.read_phase(), self.read_fuel(),
        {
            if self.header.is_none() {
                match self.parse_step() {
                    Err(e) => {
                        proof {
                            assert(pending0 + Seq::<u8>::empty() =~= pending0);
                            assert(spec_read_result(
                                pending0,
                                arrived,
                                max,
                                Result::Err(e),
                                self.pending(),
                            ));
                            lemma_prompt_case(pending0, arrived, max, Result::Err(e), self.pending());
                        }
                        return Err(e);
                    },
                    Ok(()) => {},
                }
            }
            let hdr = self.header;
            match hdr {
                Some((h, l)) => {
                    proof {
                        lemma_header_format_parse(h, l, self.in_bytes());
                    }
                    if l > max as u64 {
                        let e = Error::Capacity(
                            CapacityError::MessageTooLong { size: l, max_size: max },
                        );
                        proof {
                            assert(pending0 + Seq::<u8>::empty() =~= pending0);
                            assert(spec_read_result(
                                pending0,
                                arrived,
                                max,
                                Result::Err(e),
                                self.pending(),
                            ));
                            lemma_prompt_case(pending0, arrived, max, Result::Err(e), self.pending());
                        }
                        return Err(e);
                    }
                    let avail = bm_len(&self.in_buffer);
                    if l <= avail as u64 {
                        let ghost in0 = self.in_bytes();
                        let f = self.take_frame(h, l);
                        proof {
                            let total = pending0 + arrived;
                            let fmt = spec_format_header(h, l);
                            assert(total =~= fmt + in0);
                            assert(total.subrange(fmt.len() as int, fmt.len() + l) =~= in0.take(
                                l as int,
                            ));
                            assert(total.skip(fmt.len() + l) =~= self.in_bytes());
                            assert(spec_read_result(
                                pending0,
                                arrived,
                                max,
                                Result::Ok(Option::Some(f)),
                                self.pending(),
                            ));
                            lemma_prompt_case(
                                pending0,
                                arrived,
                                max,
                                Result::Ok(Option::Some(f)),
                                self.pending(),
                            );
                        }
                        return Ok(Some(f));
                    }
                },
                None => {},
            }
            // Not enough buffered: issue exactly one stream read.
            proof {
                assert(spec_next_frame(self.pending(), max) is NeedMore);
                assert(pending0 + Seq::<u8>::empty() =~= pending0);
            }
            let avail = bm_len(&self.in_buffer);
            let want: usize = match self.header {
                Some((_, l)) => {
                    let rem = l - avail as u64;
                    if rem > READ_CHUNK as u64 {
                        READ_CHUNK
                    } else {
                        rem as usize
                    }
                },
                None => 14,
            };
            match stream.read_chunk(want) {
                Err(k) => {
                    proof {
                        assert(spec_read_result(
                            pending0,
                            arrived,
                            max,
                            Result::Err(Error::Io(k)),
                            self.pending(),
                        ));
                        lemma_prompt_case(
                            pending0,
                            arrived,
                            max,
                            Result::Err(Error::Io(k)),
                            self.pending(),
                        );
                    }
                    return Err(Error::Io(k));
                },
                Ok(chunk) => {
                    if chunk.len() == 0 {
                        proof {
                            assert(spec_next_frame(self.pending(), max) is NeedMore);
                            assert(spec_read_result(
                                pending0,
                                arrived,
                                max,
                                Result::Ok(Option::None),
                                self.pending(),
                            ));
                            lemma_prompt_case(
                                pending0,
                                arrived,
                                max,
                                Result::Ok(Option::None),
                                self.pending(),
                            );
                        }
                        return Ok(None);
                    }
                    let ghost pend_before = self.pending();
                    let ghost arr0 = arrived;
                    bm_extend(&mut self.in_buffer, &chunk);
                    proof {
                        assert(self.pending() =~= pend_before + chunk@);
                        arrived = arr0 + chunk@;
                        assert(pending0 + arrived =~= (pending0 + arr0) + chunk@);
                    }
                },
            }
        }
    }

    /// Buffers one frame for writing. Rejects it, unchanged and returned
    /// to the caller, iff its wire size would push the output buffer past
    /// the hard cap; otherwise appends its encoding, and drains the
    /// buffer iff it then exceeds the coalescing threshold.
    pub fn buffer_frame<S: WriteStream>(&mut self, stream: &mut S, frame: Frame) -> (r: Result<
        (),
        Error,
    >)
        requires
            frame.wf(),
        ensures
            final(self).pending() == old(self).pending(),
            final(self).header_state() == old(self).header_state(),
            final(self).max_out() == old(self).max_out(),
            final(self).write_thresh() == old(self).write_thresh(),
            // Coalescing: as long as the buffer stays at or below the
            // threshold, the stream is never touched.
            old(self).out_bytes().len() + spec_format_frame(frame).len() <= old(
                self,
            ).write_thresh() ==> *final(stream) == *old(stream),
            // A rejected frame leaves the stream untouched too.
            r matches Err(e) && e is WriteBufferFull ==> *final(stream) == *old(stream),
            ({
                let appended = old(self).out_bytes() + spec_format_frame(frame);
                match r {
                    Result::Ok(()) => {
                        &&& old(self).out_bytes().len() + frame.spec_wire_len() <= old(
                            self,
                        ).max_out()
                        &&& if appended.len() <= old(self).write_thresh() {
                            final(self).out_bytes() == appended
                        } else {
                            final(self).out_bytes().len() == 0
                        }
                    },
                    Result::Err(e) => match e {
                        Error::WriteBufferFull(g) => {
                            &&& g == frame
                            &&& final(self).out_bytes() == old(self).out_bytes()
                            &&& old(self).out_bytes().len() + frame.spec_wire_len() > old(
                                self,
                            ).max_out()
                        },
                        Error::Io(_) => {
                            &&& old(self).out_bytes().len() + frame.spec_wire_len() <= old(
                                self,
                            ).max_out()
                            &&& appended.len() > old(self).write_thresh()
                            &&& drained(appended, final(self).out_bytes())
                        },
                        _ => false,
                    },
                }
            }),
    {
        let hlen = frame.header_wire_len();
        let plen = frame.payload_ref().len();
        let out_len = self.out_buffer.len();
        proof {
            assert(frame.spec_wire_len() == hlen + plen);
        }
        if out_len > self.max_out_buffer_len || hlen > self.max_out_buffer_len - out_len || plen
            > self.max_out_buffer_len - out_len - hlen {
            return Err(Error::WriteBufferFull(frame));
        }
        frame.format(&mut self.out_buffer);
        if self.out_buffer.len() > self.out_buffer_write_len {
            self.write_out_buffer(stream)
        } else {
            Ok(())
        }
    }

    /// Drains the output buffer to the stream: repeats writes, discarding
    /// written bytes, until the buffer is empty or the stream errs; a
    /// zero-byte write on a non-empty buffer is a peer reset. Never
    /// reorders or drops bytes: on an error the unwritten suffix stays.
    pub fn write_out_buffer<S: WriteStream>(&mut self, stream: &mut S) -> (r: Result<(), Error>)
        ensures
            final(self).pending() == old(self).pending(),
            final(self).header_state() == old(self).header_state(),
            final(self).max_out() == old(self).max_out(),
            final(self).write_thresh() == old(self).write_thresh(),
            // An already-empty buffer is a no-op: success is owed and the
            // stream is never touched.
            old(self).out_bytes().len() == 0 ==> (r matches Ok(()) && *final(stream) == *old(
                stream,
            )),
            match r {
                Result::Ok(()) => final(self).out_bytes().len() == 0,
                Result::Err(e) => e is Io && drained(old(self).out_bytes(), final(self).out_bytes()),
            },
    {
        let ghost out0 = self.out_buffer@;
        proof {
            assert(out0 == out0.skip(0));
        }
        while self.out_buffer.len() > 0
            invariant
                out0.len() == 0 ==> *stream == *old(stream),
                self.header == old(self).header,
                self.in_buffer == old(self).in_buffer,
                self.max_out_buffer_len == old(self).max_out_buffer_len,
                self.out_buffer_write_len == old(self).out_buffer_write_len,
                drained(out0, self.out_buffer@),
                out0 == old(self).out_buffer@,
            decreases self.out_buffer@.len(),
        {
            let n = match stream.write_chunk(&self.out_buffer) {
                Err(k) => {
                    return Err(Error::Io(k));
                },
                Ok(n) => n,
            };
            if n == 0 {
                return Err(Error::Io(IoKind::ConnectionReset));
            }
            proof {
                let ghost pre = self.out_buffer@;
                let k = choose|k: int| 0 <= k <= out0.len() && pre == out0.skip(k);
                assert(pre.skip(n as int) =~= out0.skip(k + n));
            }
            drop_prefix(&mut self.out_buffer, n);
        }
        Ok(())
    }
}

/// Removes the first `n` bytes of a vector, keeping the rest in order.
fn drop_prefix(v: &mut Vec<u8>, n: usize)
    requires
        n <= old(v)@.len(),
    ensures
        final(v)@ == old(v)@.skip(n as int),
{
    let tail = v.split_off(n);
    *v = tail;
    proof {
        assert(v@ =~= old(v)@.skip(n as int));
    }
}

/// Round trip: a well-formed frame, formatted and then read back, yields
/// the same header — opcode and fin bit included — and the same unmasked
/// payload, whatever bytes follow it on the stream, under any size limit
/// that admits its payload.
pub proof fn lemma_frame_round_trip(f: Frame, rest: Seq<u8>, max: usize)
    requires
        f.wf(),
        f.payload@.len() <= max,
    ensures
        spec_next_frame(spec_format_frame(f) + rest, max) == (NextFrame::Ready {
            header: f.header,
            payload: f.payload@,
            rest,
        }),
{
    let length = f.payload@.len() as u64;
    let fmt_h = spec_format_header(f.header, length);
    let body = match f.header.mask {
        Option::Some(k) => mask_seq(f.payload@, k),
        Option::None => f.payload@,
    };
    let s = spec_format_frame(f) + rest;
    lemma_header_format_parse(f.header, length, body + rest);
    assert(s =~= fmt_h + (body + rest));
    assert(s.subrange(fmt_h.len() as int, fmt_h.len() + length) =~= body);
    assert(s.skip(fmt_h.len() + length) =~= rest);
    match f.header.mask {
        Option::Some(k) => {
            lemma_mask_involution(f.payload@, k);
            assert(unmasked(f.header, body) =~= f.payload@);
        },
        Option::None => {},
    }
}

/// Chunk-boundary independence: what the codec does is a function of the
/// bytes that have arrived in total, never of how they were split into
/// reads. Once the bytes on hand resolve to a frame, later arrivals
/// leave it untouched and join the leftover; so feeding an encoded
/// stream one byte at a time yields the same frames, in the same order,
/// as feeding it whole.
pub proof fn lemma_next_frame_extend(s: Seq<u8>, t: Seq<u8>, max: usize)
    ensures
        spec_next_frame(s, max) matches NextFrame::Ready { header, payload, rest }
            ==> spec_next_frame(s + t, max) == (NextFrame::Ready {
            header,
            payload,
            rest: rest + t,
        }),
        spec_next_frame(s, max) is Malformed ==> spec_next_frame(s + t, max) is Malformed,
        spec_next_frame(s, max) matches NextFrame::TooLong { size } ==> spec_next_frame(
            s + t,
            max,
        ) == (NextFrame::TooLong { size }),
{
    lemma_parse_prefix_stable(s, t);
    match spec_parse_header(s) {
        HeaderParse::Done { header, length, consumed } => {
            if length <= max as u64 && s.len() >= consumed + length {
                assert((s + t).subrange(consumed, consumed + length) =~= s.subrange(
                    consumed,
                    consumed + length,
                ));
                assert((s + t).skip(consumed + length) =~= s.skip(consumed + length) + t);
            }
        },
        _ => {},
    }
}

/// The wire encoding of a sequence of frames, in order.
pub open spec fn spec_encode_frames(fs: Seq<Frame>) -> Seq<u8>
    decreases fs.len(),
{
    if fs.len() == 0 {
        Seq::empty()
    } else {
        spec_format_frame(fs[0]) + spec_encode_frames(fs.drop_first())
    }
}

/// A stream holding the encodings of several frames yields exactly those
/// frames, in order: the first one comes out whole, and what is left is
/// exactly the encoding of the others. With chunk-boundary independence
/// (`lemma_next_frame_extend`) this holds however the bytes arrive.
pub proof fn lemma_frames_in_order(fs: Seq<Frame>, max: usize)
    requires
        fs.len() > 0,
        fs[0].wf(),
        fs[0].payload@.len() <= max,
    ensures
        spec_next_frame(spec_encode_frames(fs), max) == (NextFrame::Ready {
            header: fs[0].header,
            payload: fs[0].payload@,
            rest: spec_encode_frames(fs.drop_first()),
        }),
{
    lemma_frame_round_trip(fs[0], spec_encode_frames(fs.drop_first()), max);
}

} // verus!
