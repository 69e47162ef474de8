//! Tests of the line-protocol parser: one per value kind, on complete
//! frames.

use kvs::resp::value;
use kvs::resp::RedisValue;

fn test_complete_value(s: &[u8], expected: RedisValue) {
    let (val, used) = value(s).unwrap();
    assert_eq!(used, s.len());
    assert_eq!(val, expected);
}

#[test]
fn error() {
    test_complete_value(
        b"-This is an error\r\n",
        RedisValue::Error(b"This is an error".to_vec()),
    );
}

#[test]
fn simple_string() {
    test_complete_value(b"+OK\r\n", RedisValue::Str(b"OK".to_vec()))
}

#[test]
fn bulk_string() {
    test_complete_value(b"$6\r\nfoobar\r\n", RedisValue::Str(b"foobar".to_vec()));
    test_complete_value(b"$0\r\n\r\n", RedisValue::Str(b"".to_vec()));
}

#[test]
fn null() {
    test_complete_value(b"$-1\r\n", RedisValue::Null);
    test_complete_value(b"*-1\r\n", RedisValue::Null)
}

#[test]
fn integer() {
    test_complete_value(b":1000\r\n", RedisValue::Int(1000))
}

#[test]
fn array() {
    test_complete_value(b"*0\r\n", RedisValue::Array(vec![]));
    test_complete_value(
        b"*2\r\n$3\r\nfoo\r\n$3\r\nbar\r\n",
        RedisValue::Array(vec![
            RedisValue::Str(b"foo".to_vec()),
            RedisValue::Str(b"bar".to_vec()),
        ]),
    );
    test_complete_value(
        b"*5\r\n:1\r\n:2\r\n:3\r\n:4\r\n$6\r\nfoobar\r\n",
        RedisValue::Array(vec![
            RedisValue::Int(1),
            RedisValue::Int(2),
            RedisValue::Int(3),
            RedisValue::Int(4),
            RedisValue::Str(b"foobar".to_vec()),
        ]),
    );
    test_complete_value(
        b"*2\r\n*3\r\n:1\r\n:2\r\n:3\r\n*2\r\n+Foo\r\n-Bar\r\n",
        RedisValue::Array(vec![
            RedisValue::Array(vec![
                RedisValue::Int(1),
                RedisValue::Int(2),
                RedisValue::Int(3),
            ]),
            RedisValue::Array(vec![
                RedisValue::Str(b"Foo".to_vec()),
                RedisValue::Error(b"Bar".to_vec()),
            ]),
        ]),
    );
}

#[test]
fn incomplete_and_malformed_frames_are_refused() {
    assert!(value(b"").is_none());
    assert!(value(b"+OK").is_none());
    assert!(value(b"$6\r\nfoo\r\n").is_none());
    assert!(value(b"$-2\r\n").is_none());
    assert!(value(b":12x\r\n").is_none());
    assert!(value(b"*1\r\n").is_none());
    assert!(value(b"hello\r\n").is_none());
    assert!(value(b":9223372036854775808\r\n").is_none());
}

#[test]
fn trailing_bytes_are_left_unconsumed() {
    let (val, used) = value(b"+OK\r\n:1\r\n").unwrap();
    assert_eq!(val, RedisValue::Str(b"OK".to_vec()));
    assert_eq!(used, 5);
}

#[test]
fn integer_extremes() {
    test_complete_value(b":-9223372036854775808\r\n", RedisValue::Int(i64::MIN));
    test_complete_value(b":9223372036854775807\r\n", RedisValue::Int(i64::MAX));
    test_complete_value(b":-1\r\n", RedisValue::Int(-1));
    test_complete_value(b":0\r\n", RedisValue::Int(0));
}
