//! Tests of the line-protocol serializer, deserializer, and the ping
//! round trip.

use kvs::de::Deserializer;
use kvs::ping::ping_from_bytes;
use kvs::ping::ping_response_from_bytes;
use kvs::ping::ping_response_to_bytes;
use kvs::ping::ping_to_bytes;
use kvs::Error;
use kvs::Ping;
use kvs::PingResponse;
use kvs::Serializer;

#[test]
fn test_command() {
    let ping = Ping::with_msg(b"test".to_vec());
    let buffer = ping_to_bytes(&ping);
    assert_eq!(&buffer, b"*2\r\n$4\r\nPING\r\n$4\r\ntest\r\n");
}

#[test]
fn empty_ping_frames_as_null_message() {
    let buffer = ping_to_bytes(&Ping::empty());
    assert_eq!(&buffer, b"*2\r\n$4\r\nPING\r\n$-1\r\n");
}

#[test]
fn ping_round_trips() {
    let with_msg = ping_to_bytes(&Ping::with_msg(b"hello there".to_vec()));
    match ping_from_bytes(with_msg) {
        Ok(Ping { msg: Some(m) }) => assert_eq!(m, b"hello there".to_vec()),
        other => panic!("bad parse: {:?}", other.map(|p| p.msg)),
    }
    let bare = ping_to_bytes(&Ping::empty());
    match ping_from_bytes(bare) {
        Ok(Ping { msg: None }) => {},
        other => panic!("bad parse: {:?}", other.map(|p| p.msg)),
    }
}

#[test]
fn ping_response_round_trips() {
    let pong = ping_response_to_bytes(&PingResponse::Pong);
    assert_eq!(&pong, b"$4\r\nPONG\r\n");
    match ping_response_from_bytes(pong) {
        Ok(PingResponse::Pong) => {},
        _ => panic!("expected the plain answer"),
    }
    let echo = ping_response_to_bytes(&PingResponse::Echo(b"hi".to_vec()));
    assert_eq!(&echo, b"$2\r\nhi\r\n");
    match ping_response_from_bytes(echo) {
        Ok(PingResponse::Echo(m)) => assert_eq!(m, b"hi".to_vec()),
        _ => panic!("expected an echo"),
    }
}

#[test]
fn malformed_pings_are_refused() {
    assert!(ping_from_bytes(b"".to_vec()).is_err());
    assert!(ping_from_bytes(b":1\r\n".to_vec()).is_err());
    assert!(ping_from_bytes(b"*2\r\n$4\r\nPONG\r\n$-1\r\n".to_vec()).is_err());
    assert!(ping_from_bytes(b"*0\r\n".to_vec()).is_err());
}

#[test]
fn integers_serialize_in_signed_decimal() {
    let mut s = Serializer::new();
    s.serialize_i64(1000);
    assert_eq!(&s.writer, b":1000");
    let mut s = Serializer::new();
    s.serialize_i64(i64::MIN);
    assert_eq!(&s.writer, b":-9223372036854775808");
    let mut s = Serializer::new();
    s.serialize_i8(-7);
    assert_eq!(&s.writer, b":-7");
    let mut s = Serializer::new();
    s.serialize_u32(0);
    assert_eq!(&s.writer, b":0");
}

#[test]
fn bulk_and_null_frames() {
    let mut s = Serializer::new();
    s.serialize_bytes(b"foobar");
    s.serialize_none();
    assert_eq!(&s.writer, b"$6\r\nfoobar\r\n$-1\r\n");
}

#[test]
fn sequence_of_unknown_length_is_refused() {
    let mut s = Serializer::new();
    match s.serialize_seq(None) {
        Err(Error::LenNotAvailable) => {},
        _ => panic!("expected LenNotAvailable"),
    }
    assert!(s.writer.is_empty());
    s.serialize_seq(Some(3)).unwrap();
    assert_eq!(&s.writer, b"*3\r\n");
}

#[test]
fn variant_names_are_uppercased() {
    let mut s = Serializer::new();
    s.serialize_unit_variant(b"Pong");
    assert_eq!(&s.writer, b"$4\r\nPONG\r\n");
    let mut s = Serializer::new();
    s.serialize_struct(b"Ping", 1);
    assert_eq!(&s.writer, b"*2\r\n$4\r\nPING\r\n");
}

#[test]
fn lines_are_read_one_at_a_time() {
    let mut d = Deserializer::new(b"+OK\r\n:42\r\n".to_vec());
    d.read_next_item().unwrap();
    assert_eq!(&d.buffer, b"+OK");
    d.read_next_item().unwrap();
    assert_eq!(&d.buffer, b":42");
    match d.read_next_item() {
        Err(Error::Eof) => {},
        _ => panic!("expected Eof at the end"),
    }
}

#[test]
fn a_line_must_end_in_crlf() {
    let mut d = Deserializer::new(b"+OK\n".to_vec());
    match d.read_next_item() {
        Err(Error::InvalidFormat(10)) => {},
        _ => panic!("expected InvalidFormat"),
    }
    let mut d = Deserializer::new(b"+OK".to_vec());
    match d.read_next_item() {
        Err(Error::InvalidFormat(10)) => {},
        _ => panic!("expected InvalidFormat"),
    }
}

#[test]
fn bulk_payloads_are_read_by_declared_length() {
    let mut d = Deserializer::new(b"$6\r\nfoobar\r\n".to_vec());
    d.read_next_item().unwrap();
    match d.parse_bulk_string() {
        Ok(Some(data)) => assert_eq!(data, b"foobar".to_vec()),
        other => panic!("bad bulk: {:?}", other),
    }
    let mut d = Deserializer::new(b"$-1\r\n".to_vec());
    d.read_next_item().unwrap();
    assert_eq!(d.parse_bulk_string().unwrap(), None);
    let mut d = Deserializer::new(b"$6\r\nfoo\r\n".to_vec());
    d.read_next_item().unwrap();
    assert!(d.parse_bulk_string().is_err());
}

#[test]
fn any_string_form_is_accepted() {
    let mut d = Deserializer::new(b"+simple\r\n".to_vec());
    d.read_next_item().unwrap();
    assert_eq!(d.parse_any_str().unwrap(), b"simple".to_vec());
    let mut d = Deserializer::new(b"$4\r\nbulk\r\n".to_vec());
    d.read_next_item().unwrap();
    assert_eq!(d.parse_any_str().unwrap(), b"bulk".to_vec());
    let mut d = Deserializer::new(b":5\r\n".to_vec());
    d.read_next_item().unwrap();
    match d.parse_any_str() {
        Err(Error::InvalidFormat(58)) => {},
        other => panic!("expected InvalidFormat, got {:?}", other),
    }
}
