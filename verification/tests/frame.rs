use montre::frame::{read_frame, write_frame, Cursor, MAX_PAYLOAD_SIZE};

#[test]
fn dispatch_framing_roundtrip() {
    let payload = b"hello world";
    let mut buf = Vec::new();
    write_frame(&mut buf, payload).unwrap();
    let read = read_frame(&mut Cursor::new(&buf)).unwrap();
    assert_eq!(&read[..], payload);
}

#[test]
fn dispatch_framing_roundtrip_empty_payload() {
    let mut buf = Vec::new();
    write_frame(&mut buf, b"").unwrap();
    let read = read_frame(&mut Cursor::new(&buf)).unwrap();
    assert_eq!(&read[..], b"");
}

#[test]
fn dispatch_framing_oversize_write_rejected() {
    let payload = vec![0u8; MAX_PAYLOAD_SIZE + 1];
    let mut buf = Vec::new();
    assert!(write_frame(&mut buf, &payload).is_err());
}

#[test]
fn dispatch_framing_oversize_length_header_rejected() {
    let mut buf = Vec::new();
    buf.extend_from_slice(&((MAX_PAYLOAD_SIZE + 1) as u32).to_be_bytes());
    assert!(read_frame(&mut Cursor::new(&buf)).is_err());
}

#[test]
fn dispatch_framing_eof_before_length() {
    let buf: Vec<u8> = Vec::new();
    assert!(read_frame(&mut Cursor::new(&buf)).is_err());
}

#[test]
fn dispatch_framing_partial_length() {
    let buf: Vec<u8> = vec![0, 0];
    assert!(read_frame(&mut Cursor::new(&buf)).is_err());
}

#[test]
fn dispatch_framing_truncated_payload() {
    let mut buf = Vec::new();
    buf.extend_from_slice(&10u32.to_be_bytes());
    buf.extend_from_slice(b"hi");
    assert!(read_frame(&mut Cursor::new(&buf)).is_err());
}

#[test]
fn rpc_framing_roundtrip() {
    let payload = b"hello world";
    let mut buf = Vec::new();
    write_frame(&mut buf, payload).unwrap();
    let read = read_frame(&mut Cursor::new(&buf)).unwrap();
    assert_eq!(&read[..], payload);
}

#[test]
fn rpc_framing_roundtrip_empty_payload() {
    let mut buf = Vec::new();
    write_frame(&mut buf, b"").unwrap();
    let read = read_frame(&mut Cursor::new(&buf)).unwrap();
    assert_eq!(&read[..], b"");
}

#[test]
fn rpc_framing_oversize_write_rejected() {
    let payload = vec![0u8; MAX_PAYLOAD_SIZE + 1];
    let mut buf = Vec::new();
    assert!(write_frame(&mut buf, &payload).is_err());
}

#[test]
fn rpc_framing_oversize_length_header_rejected() {
    let mut buf = Vec::new();
    buf.extend_from_slice(&((MAX_PAYLOAD_SIZE + 1) as u32).to_be_bytes());
    assert!(read_frame(&mut Cursor::new(&buf)).is_err());
}

#[test]
fn rpc_framing_eof_before_length() {
    let buf: Vec<u8> = Vec::new();
    assert!(read_frame(&mut Cursor::new(&buf)).is_err());
}

#[test]
fn rpc_framing_partial_length() {
    let buf: Vec<u8> = vec![0, 0];
    assert!(read_frame(&mut Cursor::new(&buf)).is_err());
}

#[test]
fn rpc_framing_truncated_payload() {
    let mut buf = Vec::new();
    buf.extend_from_slice(&10u32.to_be_bytes());
    buf.extend_from_slice(b"hi");
    assert!(read_frame(&mut Cursor::new(&buf)).is_err());
}

#[test]
fn frame_layout_is_big_endian_length_then_payload() {
    let mut buf = Vec::new();
    write_frame(&mut buf, b"abc").unwrap();
    assert_eq!(buf, vec![0, 0, 0, 3, b'a', b'b', b'c']);
}

#[test]
fn frames_read_back_in_sequence() {
    let mut buf = Vec::new();
    write_frame(&mut buf, b"one").unwrap();
    write_frame(&mut buf, b"").unwrap();
    write_frame(&mut buf, b"three").unwrap();
    let mut c = Cursor::new(&buf);
    assert_eq!(read_frame(&mut c).unwrap(), b"one".to_vec());
    assert_eq!(read_frame(&mut c).unwrap(), b"".to_vec());
    assert_eq!(read_frame(&mut c).unwrap(), b"three".to_vec());
    assert_eq!(c.position(), buf.len());
    assert!(read_frame(&mut c).is_err());
}

#[test]
fn frame_at_exact_limit_is_written() {
    let payload = vec![7u8; MAX_PAYLOAD_SIZE];
    let mut buf = Vec::new();
    assert!(write_frame(&mut buf, &payload).is_ok());
    assert_eq!(buf.len(), MAX_PAYLOAD_SIZE + 4);
    let read = read_frame(&mut Cursor::new(&buf)).unwrap();
    assert_eq!(read.len(), MAX_PAYLOAD_SIZE);
}

#[test]
fn oversize_write_leaves_buffer_unchanged() {
    let payload = vec![0u8; MAX_PAYLOAD_SIZE + 1];
    let mut buf = vec![9u8];
    assert!(write_frame(&mut buf, &payload).is_err());
    assert_eq!(buf, vec![9u8]);
}
