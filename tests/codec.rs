use zoku::codec::{decode_frame, Decoded, FrameReader, Message, ProtocolError, MAX_DATA_LEN};

#[test]
fn data_frame_round_trip() {
    let m = Message::Data(b"hello\n".to_vec());
    let bytes = m.encode();
    assert_eq!(bytes, vec![0x00, 0x06, b'h', b'e', b'l', b'l', b'o', b'\n']);
    assert_eq!(decode_frame(&bytes), Decoded::Frame(m, 8));
}

#[test]
fn data_frame_round_trip_with_trailing_bytes() {
    let m = Message::Data(vec![1, 2, 3]);
    let mut bytes = m.encode();
    bytes.extend_from_slice(&[0xFF, 0xFC, 0, 1]);
    assert_eq!(decode_frame(&bytes), Decoded::Frame(m, 5));
}

#[test]
fn largest_data_frame_round_trip() {
    let payload: Vec<u8> = (0..MAX_DATA_LEN).map(|i| (i % 251) as u8).collect();
    let m = Message::Data(payload.clone());
    let bytes = m.encode();
    assert_eq!(&bytes[..2], &[0x7F, 0xFF]);
    assert_eq!(bytes.len(), MAX_DATA_LEN + 2);
    assert_eq!(decode_frame(&bytes), Decoded::Frame(Message::Data(payload), MAX_DATA_LEN + 2));
}

#[test]
fn resize_frame_round_trip() {
    let m = Message::Resize(30, 100);
    let bytes = m.encode();
    assert_eq!(bytes, vec![0xFF, 0xFC, 0x00, 30, 0x00, 100]);
    assert_eq!(decode_frame(&bytes), Decoded::Frame(Message::Resize(30, 100), 6));
}

#[test]
fn resize_frame_round_trip_large_values() {
    let m = Message::Resize(0x1234, 0xFFFF);
    let bytes = m.encode();
    assert_eq!(bytes, vec![0xFF, 0xFC, 0x12, 0x34, 0xFF, 0xFF]);
    assert_eq!(decode_frame(&bytes), Decoded::Frame(Message::Resize(0x1234, 0xFFFF), 6));
}

#[test]
fn reserved_headers_are_invalid() {
    assert_eq!(decode_frame(&[0xFF, 0xFF, 0, 0, 0, 0]), Decoded::Invalid(-1));
    assert_eq!(decode_frame(&[0x80, 0x00]), Decoded::Invalid(-32768));
    assert_eq!(decode_frame(&[0xFF, 0xFD, 0, 0, 0, 0]), Decoded::Invalid(-3));
    assert_eq!(decode_frame(&[0x00, 0x00]), Decoded::Invalid(0));
}

#[test]
fn partial_frames_are_incomplete() {
    assert_eq!(decode_frame(&[]), Decoded::Incomplete);
    assert_eq!(decode_frame(&[0x00]), Decoded::Incomplete);
    assert_eq!(decode_frame(&[0x00, 0x05, 1, 2]), Decoded::Incomplete);
    assert_eq!(decode_frame(&[0xFF, 0xFC, 0, 24, 0]), Decoded::Incomplete);
}

#[test]
fn reader_reassembles_split_frames() {
    let mut stream = Message::Data(b"ls\n".to_vec()).encode();
    stream.extend(Message::Resize(24, 80).encode());
    let mut reader = FrameReader::new();
    reader.push(&stream[..3]);
    assert_eq!(reader.next_message(), Ok(None));
    reader.push(&stream[3..7]);
    assert_eq!(reader.next_message(), Ok(Some(Message::Data(b"ls\n".to_vec()))));
    assert_eq!(reader.next_message(), Ok(None));
    assert_eq!(reader.finish(), Err(ProtocolError::Truncated));
    reader.push(&stream[7..]);
    assert_eq!(reader.next_message(), Ok(Some(Message::Resize(24, 80))));
    assert_eq!(reader.next_message(), Ok(None));
    assert_eq!(reader.finish(), Ok(()));
}

#[test]
fn reader_rejects_reserved_length() {
    let mut reader = FrameReader::new();
    reader.push(&[0xFF, 0xFE, 0, 0]);
    assert_eq!(reader.next_message(), Err(ProtocolError::Reserved(-2)));
}

#[test]
fn reader_ends_cleanly_at_frame_boundary() {
    let reader = FrameReader::new();
    assert_eq!(reader.finish(), Ok(()));
    let mut reader = FrameReader::new();
    reader.push(&[0x00]);
    assert_eq!(reader.finish(), Err(ProtocolError::Truncated));
}
