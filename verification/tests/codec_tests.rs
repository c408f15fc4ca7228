use catbus::tarball_codec::{parse_frame_prefix, read_tarball, write_tarball, CodecError};

#[test]
fn frame_round_trip() {
    let payload: Vec<u8> = b"hello world \x00 with a NUL inside".to_vec();
    let framed = write_tarball(&payload);
    assert_eq!(&framed[..3], b"31\0");
    let (back, used) = read_tarball(framed.as_slice()).unwrap();
    assert_eq!(back, payload);
    assert_eq!(used, framed.len());
}

#[test]
fn frame_round_trip_empty_payload() {
    let payload: Vec<u8> = Vec::new();
    let framed = write_tarball(&payload);
    assert_eq!(framed, b"0\0".to_vec());
    let (back, used) = read_tarball(framed.as_slice()).unwrap();
    assert_eq!(back, payload);
    assert_eq!(used, 2);
}

#[test]
fn frame_round_trip_leaves_rest() {
    let payload: Vec<u8> = b"abc".to_vec();
    let mut framed = write_tarball(&payload);
    framed.extend_from_slice(b"trailing");
    let (back, used) = read_tarball(framed.as_slice()).unwrap();
    assert_eq!(back, b"abc".to_vec());
    assert_eq!(&framed[used..], b"trailing");
}

#[test]
fn malformed_prefix_is_rejected() {
    // A letter inside the decimal prefix.
    let input = b"12x\0abcdefghijkl".to_vec();
    assert_eq!(read_tarball(input.as_slice()), Err(CodecError::MalformedPrefix));
}

#[test]
fn missing_nul_is_rejected() {
    let input = b"123456".to_vec();
    assert_eq!(read_tarball(input.as_slice()), Err(CodecError::MalformedPrefix));
}

#[test]
fn empty_prefix_is_rejected() {
    let input = b"\0abc".to_vec();
    assert_eq!(read_tarball(input.as_slice()), Err(CodecError::MalformedPrefix));
}

#[test]
fn short_payload_is_rejected() {
    let input = b"10\0abc".to_vec();
    assert_eq!(read_tarball(input.as_slice()), Err(CodecError::ShortPayload));
}

#[test]
fn huge_length_is_rejected_not_wrapped() {
    // Far beyond any machine limit: must fail, never truncate silently.
    let input = b"99999999999999999999999999\0abc".to_vec();
    assert_eq!(read_tarball(input.as_slice()), Err(CodecError::ShortPayload));
}

#[test]
fn prefix_parsing() {
    assert_eq!(parse_frame_prefix(b"42\0"), Some(42));
    assert_eq!(parse_frame_prefix(b"0\0"), Some(0));
    assert_eq!(parse_frame_prefix(b"\0"), None);
    assert_eq!(parse_frame_prefix(b"4a\0"), None);
    assert_eq!(parse_frame_prefix(b"42"), None);
    assert_eq!(parse_frame_prefix(b"99999999999999999999999999\0"), None);
}
