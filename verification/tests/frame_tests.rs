use ws_frame::coding::OpCode;
use ws_frame::frame::CloseFrame;
use ws_frame::frame::Frame;
use ws_frame::frame::FrameHeader;
use ws_frame::mask::apply_mask;
use ws_frame::utf8::Utf8Bytes;
use ws_frame::wire::push_be;
use ws_frame::wire::read_be;

#[test]
fn mask_twice_restores_payload() {
    let original = vec![0x00u8, 0x01, 0xfe, 0xff, 0x42, 0x99, 0x07];
    let key = [0xde, 0xad, 0xbe, 0xef];
    let mut buf = original.clone();
    apply_mask(&mut buf, key);
    assert_ne!(buf, original);
    apply_mask(&mut buf, key);
    assert_eq!(buf, original);
}

#[test]
fn mask_of_empty_payload() {
    let mut buf: Vec<u8> = Vec::new();
    apply_mask(&mut buf, [1, 2, 3, 4]);
    apply_mask(&mut buf, [1, 2, 3, 4]);
    assert!(buf.is_empty());
}

#[test]
fn mask_key_rotates_every_four_bytes() {
    let mut buf = vec![0u8; 6];
    apply_mask(&mut buf, [0x10, 0x20, 0x30, 0x40]);
    assert_eq!(buf, vec![0x10, 0x20, 0x30, 0x40, 0x10, 0x20]);
}

#[test]
fn header_parse_needs_whole_header() {
    // One byte: not even the length byte is there; nothing is consumed.
    let r = FrameHeader::parse(&vec![0x82]).unwrap();
    assert!(r.is_none());
    // Header complete at exactly two bytes for the inline class.
    let (h, len, consumed) = FrameHeader::parse(&vec![0x81, 0x05]).unwrap().unwrap();
    assert!(h.is_final);
    assert!(h.opcode.same(OpCode::Text));
    assert!(h.mask.is_none());
    assert_eq!(len, 5);
    assert_eq!(consumed, 2);
}

#[test]
fn header_parse_reads_mask_key() {
    let (h, len, consumed) =
        FrameHeader::parse(&vec![0x02, 0x83, 0x0a, 0x0b, 0x0c, 0x0d]).unwrap().unwrap();
    assert!(!h.is_final);
    assert!(h.opcode.same(OpCode::Binary));
    assert_eq!(h.mask, Some([0x0a, 0x0b, 0x0c, 0x0d]));
    assert_eq!(len, 3);
    assert_eq!(consumed, 6);
}

#[test]
fn header_parse_sixty_four_bit_length() {
    let bytes = vec![0x82, 0x7f, 0x00, 0x00, 0x00, 0x00, 0x00, 0x01, 0x00, 0x00];
    let (_, len, consumed) = FrameHeader::parse(&bytes).unwrap().unwrap();
    assert_eq!(len, 65536);
    assert_eq!(consumed, 10);
}

#[test]
fn header_parse_rejects_non_minimal_sixty_four_bit() {
    let bytes = vec![0x82, 0x7f, 0x00, 0x00, 0x00, 0x00, 0x00, 0x00, 0xff, 0xff];
    assert!(FrameHeader::parse(&bytes).is_err());
}

#[test]
fn header_format_is_minimal() {
    let h = FrameHeader {
        is_final: true,
        rsv1: false,
        rsv2: false,
        rsv3: false,
        opcode: OpCode::Binary,
        mask: None,
    };
    let mut out: Vec<u8> = Vec::new();
    h.format(125, &mut out);
    assert_eq!(out, vec![0x82, 0x7d]);
    let mut out: Vec<u8> = Vec::new();
    h.format(126, &mut out);
    assert_eq!(out, vec![0x82, 0x7e, 0x00, 0x7e]);
    let mut out: Vec<u8> = Vec::new();
    h.format(65536, &mut out);
    assert_eq!(out, vec![0x82, 0x7f, 0x00, 0x00, 0x00, 0x00, 0x00, 0x01, 0x00, 0x00]);
}

#[test]
fn reserved_bits_and_opcodes_survive_a_round_trip() {
    let h = FrameHeader {
        is_final: false,
        rsv1: true,
        rsv2: false,
        rsv3: true,
        opcode: OpCode::ReservedData(0x05),
        mask: None,
    };
    let mut out: Vec<u8> = Vec::new();
    h.format(1, &mut out);
    let (back, len, _) = FrameHeader::parse(&out).unwrap().unwrap();
    assert!(!back.is_final);
    assert!(back.rsv1);
    assert!(!back.rsv2);
    assert!(back.rsv3);
    assert!(back.opcode.same(OpCode::ReservedData(0x05)));
    assert_eq!(len, 1);
}

#[test]
fn frame_len_counts_header_and_payload() {
    let frame = Frame::ping(vec![0x01, 0x02, 0x03]);
    assert_eq!(frame.len(), 5);
    let mut masked = Frame::ping(vec![0x01, 0x02, 0x03]);
    masked.set_mask([9, 9, 9, 9]);
    assert_eq!(masked.len(), 9);
}

#[test]
fn close_frame_payload_is_code_then_reason() {
    let frame = Frame::close(Some(CloseFrame { code: 1000, reason: Utf8Bytes::from_static("bye") }));
    assert!(frame.header.is_final);
    assert!(frame.header.opcode.same(OpCode::Close));
    assert_eq!(frame.into_payload(), vec![0x03, 0xe8, b'b', b'y', b'e']);

    let empty = Frame::close(None);
    assert!(empty.into_payload().is_empty());
}

#[test]
fn utf8_payload_rejects_invalid_bytes() {
    assert!(Utf8Bytes::try_from_vec(vec![0xff, 0xfe]).is_err());
    let ok = Utf8Bytes::try_from_vec(vec![0x68, 0x69]).unwrap();
    assert_eq!(ok.as_str(), "hi");
    assert_eq!(ok.len(), 2);
    let s = Utf8Bytes::from_str("hello");
    assert_eq!(s.as_str(), "hello");
    let s = Utf8Bytes::from_string(String::from("world"));
    assert_eq!(s.as_str(), "world");
    let s = Utf8Bytes::from_static("grüße");
    assert_eq!(s.as_str(), "grüße");
    assert_eq!(s.into_bytes(), "grüße".as_bytes().to_vec());
}

#[test]
fn big_endian_fields_round_trip() {
    let mut out: Vec<u8> = Vec::new();
    push_be(&mut out, 0x0102030405060708, 8);
    assert_eq!(out, vec![0x01, 0x02, 0x03, 0x04, 0x05, 0x06, 0x07, 0x08]);
    assert_eq!(read_be(&out, 0, 8), 0x0102030405060708);
    let mut out: Vec<u8> = Vec::new();
    push_be(&mut out, 0xbeef, 2);
    assert_eq!(out, vec![0xbe, 0xef]);
    assert_eq!(read_be(&out, 0, 2), 0xbeef);
}

#[test]
fn opcode_nibbles_round_trip() {
    for n in 0u8..16 {
        let op = OpCode::from_number(n);
        assert_eq!(op.number(), n);
    }
    assert!(OpCode::from_number(0x09).same(OpCode::Ping));
    assert!(OpCode::from_number(0x0b).same(OpCode::ReservedControl(0x0b)));
}
