use bytes::Bytes;
use my_redis::error::Error;
use my_redis::frame::Frame;

fn bulk(text: &str) -> Frame {
    Frame::Bulk(Bytes::from(text.to_string()))
}

#[test]
fn simple_string_is_a_line() {
    assert_eq!(Frame::Simple("OK".to_string()).encode(), b"+OK\r\n".to_vec());
}

#[test]
fn error_is_a_line() {
    assert_eq!(Frame::Error("ERR no".to_string()).encode(), b"-ERR no\r\n".to_vec());
}

#[test]
fn integer_is_a_decimal_line() {
    assert_eq!(Frame::Integer(0).encode(), b":0\r\n".to_vec());
    assert_eq!(Frame::Integer(1234567890).encode(), b":1234567890\r\n".to_vec());
    assert_eq!(Frame::Integer(u64::MAX).encode(), b":18446744073709551615\r\n".to_vec());
}

#[test]
fn bulk_carries_its_length() {
    assert_eq!(bulk("hello").encode(), b"$5\r\nhello\r\n".to_vec());
    assert_eq!(bulk("").encode(), b"$0\r\n\r\n".to_vec());
}

#[test]
fn null_is_a_bulk_of_length_minus_one() {
    assert_eq!(Frame::Null.encode(), b"$-1\r\n".to_vec());
}

#[test]
fn array_carries_its_count_and_items() {
    let frame = Frame::Array(vec![bulk("GET"), bulk("k")]);
    assert_eq!(frame.encode(), b"*2\r\n$3\r\nGET\r\n$1\r\nk\r\n".to_vec());
    assert_eq!(Frame::Array(vec![]).encode(), b"*0\r\n".to_vec());
}

#[test]
fn decode_undoes_encode_for_every_kind() {
    let frames = vec![
        Frame::Simple("OK".to_string()),
        Frame::Simple("".to_string()),
        Frame::Simple("ends with a return\r".to_string()),
        Frame::Error("WRONGTYPE bad".to_string()),
        Frame::Integer(0),
        Frame::Integer(u64::MAX),
        bulk("with\r\nbreak"),
        bulk(""),
        Frame::Bulk(Bytes::from(vec![0u8, 255, 13, 10, 36])),
        Frame::Null,
        Frame::Array(vec![]),
        Frame::Array(vec![bulk("a"), Frame::Integer(7), Frame::Null]),
        Frame::Array(vec![Frame::Array(vec![bulk("x"), Frame::Array(vec![])]), Frame::Simple("y".to_string())]),
    ];
    for frame in frames {
        let bytes = frame.encode();
        let len = bytes.len();
        assert_eq!(Frame::decode(&bytes), Ok(Some((frame, len))));
    }
}

#[test]
fn decode_leaves_what_follows_a_frame() {
    let mut bytes = Frame::Integer(42).encode();
    bytes.extend_from_slice(b"+next");
    assert_eq!(Frame::decode(&bytes), Ok(Some((Frame::Integer(42), 5))));
}

#[test]
fn decode_wants_more_bytes_for_a_partial_frame() {
    for partial in [&b""[..], b"+OK", b"+OK\r", b":12", b"$5\r\nhel", b"$5\r\nhello", b"$5\r\nhello\r", b"*2\r\n:1\r\n", b"*2\r\n:1\r\n$3\r\nab", b"$"] {
        assert_eq!(Frame::decode(partial), Ok(None), "{:?}", partial);
    }
}

#[test]
fn decode_refuses_what_begins_no_frame() {
    for broken in [
        &b"x"[..],
        b"GET k\r\n",
        b":12a\r\n",
        b":\r\n",
        b":-1\r\n",
        b":18446744073709551616\r\n",
        b"$-2\r\n",
        b"$x\r\n",
        b"*-1\r\n",
        b"*x\r\n",
        b"$3\r\nabcde",
        b"+\xff\r\n",
        b"*2\r\n:1\r\n?",
    ] {
        assert_eq!(Frame::decode(broken), Err(Error::Protocol), "{:?}", broken);
    }
}

#[test]
fn decode_accepts_leading_zeros() {
    assert_eq!(Frame::decode(b":007\r\n"), Ok(Some((Frame::Integer(7), 6))));
    assert_eq!(Frame::decode(b"$01\r\na\r\n"), Ok(Some((bulk("a"), 8))));
}

#[test]
fn simple_string_with_a_line_break_does_not_come_back() {
    let frame = Frame::Simple("a\r\nb".to_string());
    let bytes = frame.encode();
    assert_eq!(Frame::decode(&bytes), Ok(Some((Frame::Simple("a".to_string()), 4))));
}

#[test]
fn sendable_frames_are_those_that_come_back() {
    let sendable = vec![
        Frame::Simple("OK".to_string()),
        Frame::Simple("a\rb\nc\r".to_string()),
        Frame::Error("".to_string()),
        Frame::Integer(9),
        bulk("a\r\nb"),
        Frame::Null,
        Frame::Array(vec![bulk("\r\n"), Frame::Array(vec![Frame::Simple("x".to_string())])]),
    ];
    for frame in sendable {
        assert!(frame.is_sendable(), "{:?}", frame);
        let bytes = frame.encode();
        let len = bytes.len();
        assert_eq!(Frame::decode(&bytes), Ok(Some((frame, len))));
    }
    let others = vec![
        Frame::Simple("a\r\nb".to_string()),
        Frame::Error("\r\n".to_string()),
        Frame::Array(vec![Frame::Null, Frame::Array(vec![Frame::Simple("x\r\n".to_string())])]),
    ];
    for frame in others {
        assert!(!frame.is_sendable(), "{:?}", frame);
        let bytes = frame.encode();
        assert_ne!(Frame::decode(&bytes), Ok(Some((frame, bytes.len()))));
    }
}

#[test]
fn text_beyond_ascii_comes_back() {
    let frame = Frame::Simple("gr\u{fc}\u{df} \u{4e16}\u{754c} \u{1f600}".to_string());
    let bytes = frame.encode();
    assert_eq!(bytes.len(), 1 + 18 + 2);
    assert_eq!(Frame::decode(&bytes), Ok(Some((frame, 21))));
}

#[test]
fn every_cut_off_frame_wants_more_bytes() {
    let frames = vec![
        Frame::Simple("OK\r".to_string()),
        Frame::Error("ERR \u{fc}".to_string()),
        Frame::Integer(1234567890),
        bulk("with\r\nbreak"),
        bulk(""),
        Frame::Null,
        Frame::Array(vec![]),
        Frame::Array(vec![bulk("a"), Frame::Array(vec![Frame::Null, bulk("\r\n")]), Frame::Integer(7)]),
    ];
    for frame in frames {
        let bytes = frame.encode();
        for n in 0..bytes.len() {
            assert_eq!(Frame::decode(&bytes[..n]), Ok(None), "{:?} cut at {}", frame, n);
        }
    }
}
