//! A thin facade binding a frame codec to a concrete stream.

use vstd::prelude::*;
use crate::buffer::bm_bytes;
use crate::codec::FrameCodec;
use crate::codec::ReadStream;
use crate::codec::WriteStream;
use crate::codec::drained;
use crate::codec::spec_max_size;
use crate::codec::spec_next_frame;
use crate::codec::spec_prompt_result;
use crate::codec::spec_read_result;
use crate::error::Error;
use crate::frame::Frame;
use crate::frame::spec_format_frame;

verus! {

/// A reader and writer for frames: owns the underlying stream and a
/// codec instance, and delegates to the codec.
pub struct FrameSocket<S> {
    /// The underlying network stream.
    stream: S,
    /// Codec for reading and writing frames.
    codec: FrameCodec,
}

impl<S> FrameSocket<S> {
    /// The codec this socket drives, as a value for contracts.
    pub closed spec fn spec_codec(self) -> FrameCodec {
        self.codec
    }

    /// The stream this socket owns, as a value for contracts.
    pub closed spec fn spec_stream(self) -> S {
        self.stream
    }

    /// The stream bytes read but not yet consumed into a frame.
    pub open spec fn pending(self) -> Seq<u8> {
        self.spec_codec().pending()
    }

    /// The bytes sitting in the input buffer.
    pub open spec fn in_bytes(self) -> Seq<u8> {
        self.spec_codec().in_bytes()
    }

    /// The formatted bytes not yet written to the stream.
    pub open spec fn out_bytes(self) -> Seq<u8> {
        self.spec_codec().out_bytes()
    }

    pub open spec fn wf(self) -> bool {
        self.spec_codec().wf()
    }

    /// Creates a new frame socket.
    pub fn new(stream: S) -> (r: Self)
        ensures
            r.spec_stream() == stream,
            r.wf(),
            r.pending() == Seq::<u8>::empty(),
            r.spec_codec().header_state() is None,
            r.out_bytes() == Seq::<u8>::empty(),
            r.spec_codec().max_out() == usize::MAX,
            r.spec_codec().write_thresh() == 0,
    {
        FrameSocket { stream, codec: FrameCodec::new() }
    }

    /// Creates a new frame socket whose input buffer is seeded with data
    /// an upstream sniffer already read from the stream.
    pub fn from_partially_read(stream: S, part: Vec<u8>) -> (r: Self)
        ensures
            r.spec_stream() == stream,
            r.wf(),
            r.pending() == part@,
            r.spec_codec().header_state() is None,
            r.out_bytes() == Seq::<u8>::empty(),
            r.spec_codec().max_out() == usize::MAX,
            r.spec_codec().write_thresh() == 0,
    {
        FrameSocket { stream, codec: FrameCodec::from_partially_read(part) }
    }

    /// Extracts the stream from the socket, together with the bytes read
    /// ahead of the last consumed frame, so that another protocol layer
    /// can take over without losing them.
    pub fn into_inner(self) -> (r: (S, bytes::BytesMut))
        ensures
            r.0 == self.spec_stream(),
            bm_bytes(r.1) == self.in_bytes(),
    {
        (self.stream, self.codec.into_in_buffer())
    }

    /// Returns a shared reference to the inner stream.
    pub fn get_ref(&self) -> (r: &S)
        ensures
            *r == self.spec_stream(),
    {
        &self.stream
    }

    /// Returns a mutable reference to the inner stream.
    pub fn get_mut(&mut self) -> (r: &mut S)
        ensures
            *r == old(self).spec_stream(),
            final(self).spec_stream() == *final(r),
            final(self).spec_codec() == old(self).spec_codec(),
    {
        &mut self.stream
    }

    /// Sets the output buffer's hard cap.
    pub fn set_max_out_buffer_len(&mut self, max: usize)
        ensures
            final(self).spec_codec().max_out() == max as int,
            final(self).spec_codec().write_thresh() == old(self).spec_codec().write_thresh(),
            final(self).pending() == old(self).pending(),
            final(self).spec_codec().header_state() == old(self).spec_codec().header_state(),
            final(self).out_bytes() == old(self).out_bytes(),
            final(self).spec_stream() == old(self).spec_stream(),
    {
        self.codec.set_max_out_buffer_len(max)
    }

    /// Sets the coalescing threshold the output buffer must exceed
    /// before a buffered frame triggers a write.
    pub fn set_out_buffer_write_len(&mut self, len: usize)
        ensures
            final(self).spec_codec().write_thresh() == len as int,
            final(self).spec_codec().max_out() == old(self).spec_codec().max_out(),
            final(self).pending() == old(self).pending(),
            final(self).spec_codec().header_state() == old(self).spec_codec().header_state(),
            final(self).out_bytes() == old(self).out_bytes(),
            final(self).spec_stream() == old(self).spec_stream(),
    {
        self.codec.set_out_buffer_write_len(len)
    }
}

impl<S: ReadStream> FrameSocket<S> {
    /// Reads a frame from the stream; see `FrameCodec::read_frame`.
    pub fn read(&mut self, max_size: Option<usize>) -> (r: Result<Option<Frame>, Error>)
        requires
            old(self).wf(),
        ensures
            final(self).wf(),
            exists|arrived: Seq<u8>|
                spec_read_result(
                    old(self).pending(),
                    arrived,
                    spec_max_size(max_size),
                    r,
                    final(self).pending(),
                ),
            spec_prompt_result(
                old(self).pending(),
                spec_max_size(max_size),
                r,
                final(self).pending(),
            ),
            // When the buffered bytes already decide the outcome, the
            // stream is never touched.
            !(spec_next_frame(old(self).pending(), spec_max_size(max_size)) is NeedMore)
                ==> final(self).spec_stream() == old(self).spec_stream(),
            match r {
                Result::Ok(Option::Some(_)) => final(self).spec_codec().header_state() is None,
                _ => true,
            },
            final(self).out_bytes() == old(self).out_bytes(),
            final(self).spec_codec().max_out() == old(self).spec_codec().max_out(),
            final(self).spec_codec().write_thresh() == old(self).spec_codec().write_thresh(),
    {
        let r = self.codec.read_frame(&mut self.stream, max_size);
        proof {
            let pre = old(self).spec_codec().pending();
            let a = choose|a: Seq<u8>|
                spec_read_result(
                    pre,
                    a,
                    spec_max_size(max_size),
                    r,
                    self.spec_codec().pending(),
                );
            assert(spec_read_result(
                old(self).pending(),
                a,
                spec_max_size(max_size),
                r,
                self.pending(),
            ));
        }
        r
    }
}

impl<S: WriteStream> FrameSocket<S> {
    /// Buffers a frame for writing; see `FrameCodec::buffer_frame`. The
    /// frame is queued unless the output buffer would exceed its cap, in
    /// which case the error hands it back.
    pub fn write(&mut self, frame: Frame) -> (r: Result<(), Error>)
        requires
            frame.wf(),
        ensures
            // Coalescing: as long as the buffer stays at or below the
            // threshold, the stream is never touched.
            old(self).out_bytes().len() + spec_format_frame(frame).len() <= old(
                self,
            ).spec_codec().write_thresh() ==> final(self).spec_stream() == old(self).spec_stream(),
            final(self).wf() == old(self).wf(),
            final(self).pending() == old(self).pending(),
            final(self).spec_codec().header_state() == old(self).spec_codec().header_state(),
            final(self).spec_codec().max_out() == old(self).spec_codec().max_out(),
            final(self).spec_codec().write_thresh() == old(self).spec_codec().write_thresh(),
            ({
                let appended = old(self).out_bytes() + spec_format_frame(frame);
                match r {
                    Result::Ok(()) => {
                        &&& old(self).out_bytes().len() + frame.spec_wire_len() <= old(
                            self,
                        ).spec_codec().max_out()
                        &&& if appended.len() <= old(self).spec_codec().write_thresh() {
                            final(self).out_bytes() == appended
                        } else {
                            final(self).out_bytes().len() == 0
                        }
                    },
                    Result::Err(e) => match e {
                        Error::WriteBufferFull(g) => {
                            &&& g == frame
                            &&& final(self).out_bytes() == old(self).out_bytes()
                            &&& old(self).out_bytes().len() + frame.spec_wire_len() > old(
                                self,
                            ).spec_codec().max_out()
                        },
                        Error::Io(_) => {
                            &&& old(self).out_bytes().len() + frame.spec_wire_len() <= old(
                                self,
                            ).spec_codec().max_out()
                            &&& drained(appended, final(self).out_bytes())
                        },
                        _ => false,
                    },
                }
            }),
    {
        self.codec.buffer_frame(&mut self.stream, frame)
    }

    /// Drains the output buffer, then flushes the underlying stream.
    pub fn flush(&mut self) -> (r: Result<(), Error>)
        ensures
            final(self).wf() == old(self).wf(),
            final(self).pending() == old(self).pending(),
            final(self).spec_codec().header_state() == old(self).spec_codec().header_state(),
            final(self).spec_codec().max_out() == old(self).spec_codec().max_out(),
            final(self).spec_codec().write_thresh() == old(self).spec_codec().write_thresh(),
            // On an already-empty buffer the drain is a no-op; only the
            // sink's own unconditional flush can still fail.
            old(self).out_bytes().len() == 0 ==> final(self).out_bytes().len() == 0,
            match r {
                Result::Ok(()) => final(self).out_bytes().len() == 0,
                Result::Err(e) => e is Io && drained(old(self).out_bytes(), final(self).out_bytes()),
            },
    {
        match self.codec.write_out_buffer(&mut self.stream) {
            Err(e) => Err(e),
            Ok(()) => match self.stream.flush_stream() {
                Ok(()) => {
                    proof {
                        assert(self.out_bytes() =~= old(self).out_bytes().skip(
                            old(self).out_bytes().len() as int,
                        ));
                    }
                    Ok(())
                },
                Err(k) => {
                    proof {
                        assert(self.out_bytes() =~= old(self).out_bytes().skip(
                            old(self).out_bytes().len() as int,
                        ));
                    }
                    Err(Error::Io(k))
                },
            },
        }
    }

    /// Writes and immediately flushes a frame: `write` then `flush`.
    pub fn send(&mut self, frame: Frame) -> (r: Result<(), Error>)
        requires
            frame.wf(),
        ensures
            final(self).wf() == old(self).wf(),
            final(self).pending() == old(self).pending(),
            final(self).spec_codec().header_state() == old(self).spec_codec().header_state(),
            final(self).spec_codec().max_out() == old(self).spec_codec().max_out(),
            final(self).spec_codec().write_thresh() == old(self).spec_codec().write_thresh(),
            match r {
                Result::Ok(()) => final(self).out_bytes().len() == 0 && old(
                    self,
                ).out_bytes().len() + frame.spec_wire_len() <= old(self).spec_codec().max_out(),
                Result::Err(e) => match e {
                    Error::WriteBufferFull(g) => {
                        &&& g == frame
                        &&& final(self).out_bytes() == old(self).out_bytes()
                        &&& old(self).out_bytes().len() + frame.spec_wire_len() > old(
                            self,
                        ).spec_codec().max_out()
                    },
                    Error::Io(_) => {
                        &&& old(self).out_bytes().len() + frame.spec_wire_len() <= old(
                            self,
                        ).spec_codec().max_out()
                        &&& drained(
                            old(self).out_bytes() + spec_format_frame(frame),
                            final(self).out_bytes(),
                        )
                    },
                    _ => false,
                },
            },
    {
        let ghost appended = self.out_bytes() + spec_format_frame(frame);
        match self.write(frame) {
            Err(e) => Err(e),
            Ok(()) => {
                let ghost mid = self.out_bytes();
                proof {
                    if mid.len() == 0 {
                        assert(mid == appended.skip(appended.len() as int));
                    } else {
                        assert(mid == appended.skip(0));
                    }
                    assert(drained(appended, mid));
                }
                match self.flush() {
                    Ok(()) => Ok(()),
                    Err(e) => {
                        proof {
                            lemma_drained_trans(appended, mid, self.out_bytes());
                        }
                        Err(e)
                    },
                }
            },
        }
    }
}

/// Removing a prefix of a sequence that already had a prefix removed
/// still leaves a suffix of the original.
proof fn lemma_drained_trans(a: Seq<u8>, b: Seq<u8>, c: Seq<u8>)
    requires
        drained(a, b),
        drained(b, c),
    ensures
        drained(a, c),
{
    let n = choose|n: int| 0 <= n <= a.len() && b == a.skip(n);
    let m = choose|m: int| 0 <= m <= b.len() && c == b.skip(m);
    assert(c =~= a.skip(n + m));
}

} // verus!
