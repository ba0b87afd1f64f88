use redis_protocol::resp2::types::{OwnedFrame, Resp2Frame};
use rusteze::classify::{class_of_upper, monitor_command, CommandClass};
use rusteze::codec::{decode, encode, encode_into, encode_len, Decoded, Frame};

fn bulk(s: &[u8]) -> Frame {
    Frame::BulkString(s.to_vec())
}

fn command(words: &[&[u8]]) -> Frame {
    Frame::Array(words.iter().map(|w| bulk(w)).collect())
}

fn complete(bytes: &[u8]) -> (Frame, usize) {
    match decode(bytes) {
        Decoded::Complete(f, n) => (f, n),
        Decoded::Incomplete => panic!("incomplete"),
        Decoded::Invalid => panic!("invalid"),
    }
}

fn is_incomplete(bytes: &[u8]) -> bool {
    matches!(decode(bytes), Decoded::Incomplete)
}

fn is_invalid(bytes: &[u8]) -> bool {
    matches!(decode(bytes), Decoded::Invalid)
}

fn sample_frames() -> Vec<Frame> {
    vec![
        Frame::SimpleString(b"OK".to_vec()),
        Frame::SimpleString(Vec::new()),
        Frame::Error(b"ERR unknown command".to_vec()),
        Frame::Integer(0),
        Frame::Integer(-1),
        Frame::Integer(i64::MAX),
        Frame::Integer(i64::MIN),
        bulk(b""),
        bulk(b"a\r\nb"),
        Frame::Null,
        Frame::NullArray,
        Frame::Array(Vec::new()),
        command(&[b"SET", b"key", b"value"]),
        Frame::Array(vec![Frame::Integer(7), Frame::Array(vec![Frame::Null, bulk(b"x")])]),
    ]
}

#[test]
fn encode_exact_bytes() {
    assert_eq!(encode(&Frame::SimpleString(b"PONG".to_vec())), b"+PONG\r\n".to_vec());
    assert_eq!(encode(&Frame::Error(b"ERR x".to_vec())), b"-ERR x\r\n".to_vec());
    assert_eq!(encode(&Frame::Integer(-42)), b":-42\r\n".to_vec());
    assert_eq!(encode(&Frame::Integer(i64::MIN)), b":-9223372036854775808\r\n".to_vec());
    assert_eq!(encode(&bulk(b"hello")), b"$5\r\nhello\r\n".to_vec());
    assert_eq!(encode(&Frame::Null), b"$-1\r\n".to_vec());
    assert_eq!(encode(&Frame::NullArray), b"*-1\r\n".to_vec());
    assert_eq!(encode(&command(&[b"PING"])), b"*1\r\n$4\r\nPING\r\n".to_vec());
}

#[test]
fn encode_into_appends() {
    let mut out = b"xy".to_vec();
    encode_into(&mut out, &Frame::Integer(10));
    assert_eq!(out, b"xy:10\r\n".to_vec());
}

#[test]
fn round_trip_of_canonical_frames() {
    for f in sample_frames() {
        let bytes = encode(&f);
        let mut longer = bytes.clone();
        longer.extend_from_slice(b"+next\r\n");
        let (g, n) = complete(&longer);
        assert_eq!(n, bytes.len());
        assert_eq!(encode(&g), bytes);
    }
}

#[test]
fn every_prefix_is_incomplete() {
    for f in sample_frames() {
        let bytes = encode(&f);
        for m in 1..bytes.len() {
            assert!(is_incomplete(&bytes[..m]), "prefix {} of {:?}", m, bytes);
        }
    }
}

#[test]
fn empty_buffer_is_incomplete() {
    assert!(is_incomplete(b""));
}

#[test]
fn malformed_input_is_invalid() {
    assert!(is_invalid(b"GET key\r\n"));
    assert!(is_invalid(b":12a\r\n"));
    assert!(is_invalid(b":007\r\n"));
    assert!(is_invalid(b":-0\r\n"));
    assert!(is_invalid(b":9223372036854775808\r\n"));
    assert!(is_invalid(b"$-2\r\n"));
    assert!(is_invalid(b"$3\r\nabcd\r\n"));
    assert!(is_invalid(b"+a\nb\r\n"));
    assert!(is_invalid(b"+ab\rc"));
    assert!(is_invalid(b"*2\r\n:1\r\n?\r\n"));
}

#[test]
fn largest_and_smallest_integers_decode() {
    let (f, n) = complete(b":9223372036854775807\r\n");
    assert_eq!(n, 22);
    assert!(matches!(f, Frame::Integer(i64::MAX)));
    let (g, _) = complete(b":-9223372036854775808\r\n");
    assert!(matches!(g, Frame::Integer(i64::MIN)));
}

#[test]
fn null_lengths_decode() {
    assert!(matches!(complete(b"$-1\r\n"), (Frame::Null, 5)));
    assert!(matches!(complete(b"*-1\r\n"), (Frame::NullArray, 5)));
}

#[test]
fn bulk_string_in_two_writes() {
    let whole = b"*2\r\n$3\r\nGET\r\n$5\r\nhello\r\n";
    assert!(is_incomplete(&whole[..17]));
    let (f, n) = complete(whole);
    assert_eq!(n, whole.len());
    assert_eq!(encode(&f), whole.to_vec());
}

#[test]
fn classification_by_name() {
    assert_eq!(monitor_command(&command(&[b"flushall"])), CommandClass::Destructive);
    assert_eq!(monitor_command(&command(&[b"FlushDB", b"ASYNC"])), CommandClass::Destructive);
    assert_eq!(monitor_command(&command(&[b"keys", b"*"])), CommandClass::Expensive);
    assert_eq!(monitor_command(&command(&[b"GET", b"k"])), CommandClass::Ordinary);
    assert_eq!(monitor_command(&command(&[b"FLUSHALLX"])), CommandClass::Ordinary);
    assert_eq!(monitor_command(&Frame::SimpleString(b"KEYS".to_vec())), CommandClass::Ordinary);
    assert_eq!(monitor_command(&Frame::Array(Vec::new())), CommandClass::Ordinary);
}

fn to_owned_frame(f: &Frame) -> Option<OwnedFrame> {
    Some(match f {
        Frame::SimpleString(s) => OwnedFrame::SimpleString(s.clone()),
        Frame::Error(s) => OwnedFrame::Error(String::from_utf8(s.clone()).unwrap()),
        Frame::Integer(i) => OwnedFrame::Integer(*i),
        Frame::BulkString(b) => OwnedFrame::BulkString(b.clone()),
        Frame::Array(items) => {
            let mut out = Vec::new();
            for i in items {
                out.push(to_owned_frame(i)?);
            }
            OwnedFrame::Array(out)
        }
        Frame::Null => OwnedFrame::Null,
        Frame::NullArray => return None,
    })
}

#[test]
fn encoding_agrees_with_redis_protocol() {
    // redis_protocol's length computation negates the integer, which
    // overflows on i64::MIN, so that one value is left out here.
    for f in sample_frames().into_iter().filter(|f| !matches!(f, Frame::Integer(i64::MIN))) {
        if let Some(owned) = to_owned_frame(&f) {
            let mut buf = vec![0u8; owned.encode_len()];
            let n = redis_protocol::resp2::encode::encode(&mut buf, &owned).unwrap();
            assert_eq!(buf[..n].to_vec(), encode(&f));
            let (back, used) = redis_protocol::resp2::decode::decode(&buf).unwrap().unwrap();
            assert_eq!(used, n);
            assert_eq!(back, owned);
        }
    }
}

#[test]
fn encode_len_is_exact() {
    assert_eq!(encode_len(&Frame::Integer(-42)), Some(6));
    assert_eq!(encode_len(&Frame::Integer(i64::MIN)), Some(23));
    assert_eq!(encode_len(&bulk(b"hello")), Some(11));
    assert_eq!(encode_len(&command(&[b"PING"])), Some(14));
    for f in sample_frames() {
        assert_eq!(encode_len(&f), Some(encode(&f).len()));
    }
}

#[test]
fn classification_follows_unicode_upper_case() {
    // "keyſ": the long s upper-cases to S
    assert_eq!(monitor_command(&command(&["keyſ".as_bytes()])), CommandClass::Expensive);
    // "ﬂushall": the fl ligature upper-cases to FL
    assert_eq!(monitor_command(&command(&["ﬂushall".as_bytes()])), CommandClass::Destructive);
    assert_eq!(monitor_command(&command(&[b"KEYS\xff"])), CommandClass::Ordinary);
}

#[test]
fn upper_case_names_classify_exactly() {
    assert_eq!(class_of_upper(&"KEYS".to_string()), CommandClass::Expensive);
    assert_eq!(class_of_upper(&"FLUSHALL".to_string()), CommandClass::Destructive);
    assert_eq!(class_of_upper(&"FLUSHDB".to_string()), CommandClass::Destructive);
    assert_eq!(class_of_upper(&"keys".to_string()), CommandClass::Ordinary);
    assert_eq!(class_of_upper(&"GET".to_string()), CommandClass::Ordinary);
}
