use kv_server::codec::{decode, encode, FrameBuffer};
use kv_server::frame::{Frame, FrameDecodeError};

fn sample_frames() -> Vec<Frame> {
    vec![
        Frame::Simple("OK".to_string()),
        Frame::Simple(String::new()),
        Frame::Error("ERR unsupported command 'FOO'".to_string()),
        Frame::Simple("héllo wörld ✓".to_string()),
        Frame::Bulk(b"bar".to_vec()),
        Frame::Bulk(Vec::new()),
        Frame::Bulk(vec![b'\r', b'\n', 0, 255, b'$', b'*']),
        Frame::Null,
        Frame::Array(Vec::new()),
        Frame::Array(vec![b"SET".to_vec(), b"foo".to_vec(), b"bar".to_vec()]),
        Frame::Array(vec![Vec::new(), vec![0u8; 1000]]),
    ]
}

#[test]
fn bulk_encoding_is_exact() {
    assert_eq!(encode(&Frame::Bulk(b"bar".to_vec())), vec![b'$', 0, 0, 0, 3, b'b', b'a', b'r']);
}

#[test]
fn simple_and_null_encodings_are_exact() {
    assert_eq!(encode(&Frame::Simple("OK".to_string())), vec![b'+', 0, 0, 0, 2, b'O', b'K']);
    assert_eq!(encode(&Frame::Null), vec![b'_']);
    assert_eq!(encode(&Frame::Error("E".to_string())), vec![b'-', 0, 0, 0, 1, b'E']);
}

#[test]
fn text_length_counts_utf8_bytes() {
    assert_eq!(encode(&Frame::Simple("é".to_string())), vec![b'+', 0, 0, 0, 2, 0xc3, 0xa9]);
}

#[test]
fn array_encoding_is_exact() {
    let f = Frame::Array(vec![b"GET".to_vec(), b"k".to_vec()]);
    assert_eq!(
        encode(&f),
        vec![
            b'*', 0, 0, 0, 2, b'$', 0, 0, 0, 3, b'G', b'E', b'T', b'$', 0, 0, 0, 1, b'k'
        ]
    );
}

#[test]
fn length_prefix_is_big_endian() {
    let bytes = encode(&Frame::Bulk(vec![7u8; 0x0102]));
    assert_eq!(&bytes[..5], &[b'$', 0, 0, 1, 2]);
    assert_eq!(bytes.len(), 5 + 0x0102);
}

#[test]
fn round_trip_every_variant() {
    for f in sample_frames() {
        let bytes = encode(&f);
        assert_eq!(decode(&bytes), Ok(Some((f.clone(), bytes.len()))));
    }
}

#[test]
fn round_trip_ignores_trailing_bytes() {
    for f in sample_frames() {
        let mut bytes = encode(&f);
        let n = bytes.len();
        bytes.extend_from_slice(&[b'_', b'$', 9]);
        assert_eq!(decode(&bytes), Ok(Some((f.clone(), n))));
    }
}

#[test]
fn every_proper_prefix_is_incomplete() {
    for f in sample_frames() {
        let bytes = encode(&f);
        for n in 0..bytes.len() {
            assert_eq!(decode(&bytes[..n]), Ok(None));
        }
    }
}

#[test]
fn byte_at_a_time_yields_frame_only_at_the_end() {
    for f in sample_frames() {
        let bytes = encode(&f);
        let mut buf = FrameBuffer::new();
        for (i, b) in bytes.iter().enumerate() {
            buf.extend(&[*b]);
            let got = buf.next_frame();
            if i + 1 < bytes.len() {
                assert_eq!(got, Ok(None));
            } else {
                assert_eq!(got, Ok(Some(f.clone())));
            }
        }
        assert!(buf.is_empty());
    }
}

#[test]
fn buffer_yields_many_frames_from_one_chunk() {
    let mut bytes = encode(&Frame::Null);
    bytes.extend(encode(&Frame::Bulk(b"x".to_vec())));
    bytes.extend(&encode(&Frame::Simple("OK".to_string()))[..3]);
    let mut buf = FrameBuffer::new();
    buf.extend(&bytes);
    assert_eq!(buf.next_frame(), Ok(Some(Frame::Null)));
    assert_eq!(buf.next_frame(), Ok(Some(Frame::Bulk(b"x".to_vec()))));
    assert_eq!(buf.next_frame(), Ok(None));
    assert!(!buf.is_empty());
    buf.extend(&[0, 2, b'O', b'K']);
    assert_eq!(buf.next_frame(), Ok(Some(Frame::Simple("OK".to_string()))));
    assert!(buf.is_empty());
}

#[test]
fn unknown_tag_is_rejected() {
    assert_eq!(decode(b"!abc"), Err(FrameDecodeError::UnknownTag(b'!')));
    assert_eq!(decode(b"S"), Err(FrameDecodeError::UnknownTag(b'S')));
}

#[test]
fn array_element_must_be_bulk() {
    assert_eq!(decode(&[b'*', 0, 0, 0, 1, b'+']), Err(FrameDecodeError::BadElementTag(b'+')));
}

#[test]
fn text_must_be_utf8() {
    assert_eq!(decode(&[b'+', 0, 0, 0, 1, 0xff]), Err(FrameDecodeError::InvalidText));
}

#[test]
fn empty_buffer_is_incomplete() {
    assert_eq!(decode(&[]), Ok(None));
}

#[test]
fn failed_decode_keeps_the_buffer() {
    let mut buf = FrameBuffer::new();
    buf.extend(b"?");
    assert_eq!(buf.next_frame(), Err(FrameDecodeError::UnknownTag(b'?')));
    assert!(!buf.is_empty());
}
