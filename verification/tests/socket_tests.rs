use ws_frame::codec::ReadStream;
use ws_frame::codec::WriteStream;
use ws_frame::coding::OpCode;
use ws_frame::error::CapacityError;
use ws_frame::error::Error;
use ws_frame::error::IoKind;
use ws_frame::frame::Frame;
use ws_frame::socket::FrameSocket;

/// A stream that serves a fixed byte script, at most `chunk` bytes per
/// read, then reports end of stream.
struct ChunkReader {
    data: Vec<u8>,
    pos: usize,
    chunk: usize,
}

impl ChunkReader {
    fn new(data: Vec<u8>) -> Self {
        ChunkReader { data, pos: 0, chunk: usize::MAX }
    }

    fn with_chunk(data: Vec<u8>, chunk: usize) -> Self {
        ChunkReader { data, pos: 0, chunk }
    }
}

impl ReadStream for ChunkReader {
    fn read_chunk(&mut self, max: usize) -> Result<Vec<u8>, IoKind> {
        let left = self.data.len() - self.pos;
        let n = max.min(self.chunk).min(left);
        let out = self.data[self.pos..self.pos + n].to_vec();
        self.pos += n;
        Ok(out)
    }
}

/// A sink that records everything written and counts the write calls.
struct VecWriter {
    data: Vec<u8>,
    writes: usize,
}

impl VecWriter {
    fn new() -> Self {
        VecWriter { data: Vec::new(), writes: 0 }
    }
}

impl WriteStream for VecWriter {
    fn write_chunk(&mut self, buf: &Vec<u8>) -> Result<usize, IoKind> {
        self.data.extend_from_slice(buf);
        self.writes += 1;
        Ok(buf.len())
    }

    fn flush_stream(&mut self) -> Result<(), IoKind> {
        Ok(())
    }
}

#[test]
fn read_frames() {
    let raw = ChunkReader::new(vec![
        0x82, 0x07, 0x01, 0x02, 0x03, 0x04, 0x05, 0x06, 0x07, 0x82, 0x03, 0x03, 0x02, 0x01, 0x99,
    ]);
    let mut sock = FrameSocket::new(raw);

    assert_eq!(
        sock.read(None).unwrap().unwrap().into_payload().as_slice(),
        &[0x01, 0x02, 0x03, 0x04, 0x05, 0x06, 0x07]
    );
    assert_eq!(sock.read(None).unwrap().unwrap().into_payload().as_slice(), &[0x03, 0x02, 0x01]);
    assert!(sock.read(None).unwrap().is_none());

    let (_, rest) = sock.into_inner();
    assert_eq!(rest, vec![0x99]);
}

#[test]
fn from_partially_read() {
    let raw = ChunkReader::new(vec![0x02, 0x03, 0x04, 0x05, 0x06, 0x07]);
    let mut sock = FrameSocket::from_partially_read(raw, vec![0x82, 0x07, 0x01]);
    assert_eq!(
        sock.read(None).unwrap().unwrap().into_payload().as_slice(),
        &[0x01, 0x02, 0x03, 0x04, 0x05, 0x06, 0x07]
    );
}

#[test]
fn write_frames() {
    let mut sock = FrameSocket::new(VecWriter::new());

    let frame = Frame::ping(vec![0x04, 0x05]);
    sock.send(frame).unwrap();

    let frame = Frame::pong(vec![0x01]);
    sock.send(frame).unwrap();

    let (buf, _) = sock.into_inner();
    assert_eq!(buf.data, vec![0x89, 0x02, 0x04, 0x05, 0x8a, 0x01, 0x01]);
}

#[test]
fn parse_overflow() {
    let raw = ChunkReader::new(vec![
        0x83, 0xff, 0xff, 0xff, 0xff, 0xff, 0xff, 0xff, 0xff, 0xff, 0x00, 0x00, 0x00, 0x00,
    ]);
    let mut sock = FrameSocket::new(raw);
    let _ = sock.read(None); // should not crash
}

#[test]
fn size_limit_hit() {
    let raw = ChunkReader::new(vec![0x82, 0x07, 0x01, 0x02, 0x03, 0x04, 0x05, 0x06, 0x07]);
    let mut sock = FrameSocket::new(raw);
    assert!(matches!(
        sock.read(Some(5)),
        Err(Error::Capacity(CapacityError::MessageTooLong { size: 7, max_size: 5 }))
    ));
}

#[test]
fn size_limit_boundary() {
    // A payload of length 7 read with max_size 6 fails reporting both
    // numbers; the very same frame with max_size 7 succeeds.
    let bytes = vec![0x82, 0x07, 0x01, 0x02, 0x03, 0x04, 0x05, 0x06, 0x07];
    let mut sock = FrameSocket::new(ChunkReader::new(bytes.clone()));
    assert!(matches!(
        sock.read(Some(6)),
        Err(Error::Capacity(CapacityError::MessageTooLong { size: 7, max_size: 6 }))
    ));
    let mut sock = FrameSocket::new(ChunkReader::new(bytes));
    let frame = sock.read(Some(7)).unwrap().unwrap();
    assert_eq!(frame.into_payload().as_slice(), &[0x01, 0x02, 0x03, 0x04, 0x05, 0x06, 0x07]);
}

#[test]
fn fragmented_delivery_one_byte_at_a_time() {
    // Two frames fed one byte per stream read come out identical to the
    // same bytes fed in a single chunk.
    let bytes = vec![
        0x82, 0x07, 0x01, 0x02, 0x03, 0x04, 0x05, 0x06, 0x07, 0x89, 0x02, 0x0a, 0x0b,
    ];
    let mut whole = FrameSocket::new(ChunkReader::new(bytes.clone()));
    let mut dribble = FrameSocket::new(ChunkReader::with_chunk(bytes, 1));
    for _ in 0..2 {
        let a = whole.read(None).unwrap().unwrap();
        let b = dribble.read(None).unwrap().unwrap();
        assert_eq!(a.header.is_final, b.header.is_final);
        assert!(a.header.opcode.same(b.header.opcode));
        assert_eq!(a.into_payload(), b.into_payload());
    }
    assert!(whole.read(None).unwrap().is_none());
    assert!(dribble.read(None).unwrap().is_none());
}

#[test]
fn leftover_preserved_after_frame() {
    // A complete frame followed by three stray bytes: after reading the
    // frame, into_inner hands back exactly those three bytes.
    let raw = ChunkReader::new(vec![0x89, 0x01, 0x42, 0xde, 0xad, 0xbe]);
    let mut sock = FrameSocket::new(raw);
    let frame = sock.read(None).unwrap().unwrap();
    assert_eq!(frame.into_payload().as_slice(), &[0x42]);
    let (_, rest) = sock.into_inner();
    assert_eq!(rest, vec![0xde, 0xad, 0xbe]);
}

#[test]
fn masked_frame_is_delivered_unmasked() {
    // Payload [0x10, 0x20] masked with key [1, 2, 3, 4].
    let raw = ChunkReader::new(vec![0x82, 0x82, 0x01, 0x02, 0x03, 0x04, 0x11, 0x22]);
    let mut sock = FrameSocket::new(raw);
    let frame = sock.read(None).unwrap().unwrap();
    assert_eq!(frame.into_payload().as_slice(), &[0x10, 0x20]);
}

#[test]
fn non_minimal_length_is_rejected() {
    // A 16-bit length field holding 16, which fits the inline class.
    let mut data = vec![0x82, 0x7e, 0x00, 0x10];
    data.extend_from_slice(&[0u8; 16]);
    let mut sock = FrameSocket::new(ChunkReader::new(data));
    assert!(matches!(sock.read(None), Err(Error::Protocol(_))));
}

#[test]
fn sixteen_bit_length_round_trips() {
    let payload: Vec<u8> = (0..300u32).map(|i| (i % 251) as u8).collect();
    let mut sock = FrameSocket::new(VecWriter::new());
    sock.send(Frame::message(payload.clone(), OpCode::Binary, true)).unwrap();
    let (writer, _) = sock.into_inner();
    assert_eq!(writer.data[0], 0x82);
    assert_eq!(writer.data[1], 0x7e);
    assert_eq!(writer.data[2], 0x01);
    assert_eq!(writer.data[3], 0x2c);

    let mut back = FrameSocket::new(ChunkReader::new(writer.data));
    let frame = back.read(None).unwrap().unwrap();
    assert!(frame.header.is_final);
    assert!(frame.header.opcode.same(OpCode::Binary));
    assert_eq!(frame.into_payload(), payload);
}

#[test]
fn masked_round_trip_through_socket() {
    let mut frame = Frame::message(vec![0xaa, 0xbb, 0xcc], OpCode::Text, false);
    frame.set_mask([0x01, 0x02, 0x03, 0x04]);
    let mut sock = FrameSocket::new(VecWriter::new());
    sock.send(frame).unwrap();
    let (writer, _) = sock.into_inner();

    let mut back = FrameSocket::new(ChunkReader::new(writer.data));
    let frame = back.read(None).unwrap().unwrap();
    assert!(!frame.header.is_final);
    assert!(frame.header.opcode.same(OpCode::Text));
    assert_eq!(frame.into_payload().as_slice(), &[0xaa, 0xbb, 0xcc]);
}

#[test]
fn write_coalescing_holds_small_frames() {
    // Threshold 16: two small frames (7 bytes total) trigger no stream
    // write until the explicit flush; a frame that pushes the buffer past
    // the threshold triggers an automatic drain.
    let mut sock = FrameSocket::new(VecWriter::new());
    sock.set_out_buffer_write_len(16);
    sock.write(Frame::ping(vec![0x04, 0x05])).unwrap();
    sock.write(Frame::pong(vec![0x01])).unwrap();
    assert_eq!(sock.get_ref().writes, 0);
    assert!(sock.get_ref().data.is_empty());
    sock.flush().unwrap();
    assert_eq!(sock.get_ref().data, vec![0x89, 0x02, 0x04, 0x05, 0x8a, 0x01, 0x01]);
    assert!(sock.get_ref().writes > 0);

    let mut sock = FrameSocket::new(VecWriter::new());
    sock.set_out_buffer_write_len(4);
    sock.write(Frame::ping(vec![0x01, 0x02, 0x03, 0x04])).unwrap();
    assert!(sock.get_ref().writes > 0);
    assert_eq!(sock.get_ref().data, vec![0x89, 0x04, 0x01, 0x02, 0x03, 0x04]);
}

#[test]
fn backpressure_returns_frame_unsent() {
    let mut sock = FrameSocket::new(VecWriter::new());
    sock.set_out_buffer_write_len(1024);
    sock.set_max_out_buffer_len(8);
    sock.write(Frame::ping(vec![0x01, 0x02])).unwrap(); // 4 bytes buffered
    // 4 buffered + 6 more would exceed the cap of 8.
    let big = Frame::ping(vec![0x0a, 0x0b, 0x0c, 0x0d]);
    match sock.write(big) {
        Err(Error::WriteBufferFull(frame)) => {
            assert_eq!(frame.into_payload().as_slice(), &[0x0a, 0x0b, 0x0c, 0x0d]);
        }
        other => panic!("expected WriteBufferFull, got {:?}", other.map(|_| ())),
    }
    // The buffer kept only the first frame: a flush writes exactly it.
    sock.flush().unwrap();
    assert_eq!(sock.get_ref().data, vec![0x89, 0x02, 0x01, 0x02]);
}

#[test]
fn flush_of_empty_buffer_is_a_no_op() {
    // Nothing buffered: flushing succeeds and issues no stream write.
    let mut sock = FrameSocket::new(VecWriter::new());
    sock.flush().unwrap();
    assert_eq!(sock.get_ref().writes, 0);
    assert!(sock.get_ref().data.is_empty());
}

#[test]
fn oversized_declaration_reads_nothing_further() {
    // The two header bytes already declare a payload over the limit: the
    // error comes at once and no byte of the payload is pulled in.
    let mut sock = FrameSocket::from_partially_read(
        ChunkReader::new(vec![0x11; 32]),
        vec![0x82, 0x1f],
    );
    assert!(matches!(
        sock.read(Some(8)),
        Err(Error::Capacity(CapacityError::MessageTooLong { size: 31, max_size: 8 }))
    ));
    let (reader, rest) = sock.into_inner();
    assert_eq!(reader.pos, 0);
    assert!(rest.is_empty());
}

#[test]
fn zero_byte_write_is_connection_reset() {
    struct StuckWriter;
    impl WriteStream for StuckWriter {
        fn write_chunk(&mut self, _buf: &Vec<u8>) -> Result<usize, IoKind> {
            Ok(0)
        }
        fn flush_stream(&mut self) -> Result<(), IoKind> {
            Ok(())
        }
    }
    let mut sock = FrameSocket::new(StuckWriter);
    assert!(matches!(
        sock.send(Frame::ping(vec![0x01])),
        Err(Error::Io(IoKind::ConnectionReset))
    ));
}

#[test]
fn would_block_is_propagated() {
    struct BlockedReader;
    impl ReadStream for BlockedReader {
        fn read_chunk(&mut self, _max: usize) -> Result<Vec<u8>, IoKind> {
            Err(IoKind::WouldBlock)
        }
    }
    let mut sock = FrameSocket::new(BlockedReader);
    assert!(matches!(sock.read(None), Err(Error::Io(IoKind::WouldBlock))));
}
