use redis_rs::frame::Frame;
use redis_rs::RedisErr;

#[test]
fn frame_test_parse_request() {
    let data = "$7\r\nSET a b\r\n".as_bytes();
    let command = Frame::from_bytes(&data.to_vec());
    assert_eq!(command.is_ok(), true);
    assert_eq!(
        command.unwrap(),
        Frame::BulkString("SET a b".as_bytes().to_vec())
    );

    let data = "+OK\r\n".as_bytes();
    let command = Frame::from_bytes(&data.to_vec());
    assert_eq!(command.is_ok(), true);
    assert_eq!(command.unwrap(), Frame::SimpleString("OK".to_string()));

    let data = "-ERR unknown command 'foobar'\r\n".as_bytes();
    let command = Frame::from_bytes(&data.to_vec());
    assert_eq!(command.is_ok(), true);
    assert_eq!(
        command.unwrap(),
        Frame::Error("ERR unknown command 'foobar'".to_string())
    );

    let data = ":1000\r\n".as_bytes();
    let command = Frame::from_bytes(&data.to_vec());
    assert_eq!(command.is_ok(), true);
    assert_eq!(command.unwrap(), Frame::Integer(1000));

    let data = "*2\r\n$5\r\nhello\r\n$5\r\nworld\r\n".as_bytes();
    let command = Frame::from_bytes(&data.to_vec());
    assert_eq!(command.is_ok(), true);
    assert_eq!(
        command.unwrap(),
        Frame::Array(vec![
            Frame::BulkString("hello".as_bytes().to_vec()),
            Frame::BulkString("world".as_bytes().to_vec())
        ])
    );

    // inline command
    let data = "SET a b 1".as_bytes();
    let command = Frame::from_bytes(&data.to_vec());
    assert_eq!(command.is_ok(), true);
    assert_eq!(
        command.unwrap(),
        Frame::Array(vec![
            Frame::SimpleString("SET".to_string()),
            Frame::SimpleString("a".to_string()),
            Frame::SimpleString("b".to_string()),
            Frame::Integer(1),
        ])
    );

    // bad case
    let data = "$7\r\nSET a ba\r\n".as_bytes();
    let command = Frame::from_bytes(&data.to_vec());
    assert_eq!(command.is_ok(), false);
    assert_eq!(command.unwrap_err(), RedisErr::FrameMalformed);
}

fn sample() -> Frame {
    Frame::Array(vec![
        Frame::SimpleString("OK".to_string()),
        Frame::Error("ERR no".to_string()),
        Frame::Integer(-42),
        Frame::BulkString(b"a\r\nb".to_vec()),
        Frame::Nil,
        Frame::Array(vec![]),
    ])
}

#[test]
fn round_trip_of_each_kind() {
    let bytes = sample().serialize();
    assert_eq!(Frame::from_bytes(&bytes), Ok(sample()));
}

#[test]
fn serialize_writes_exact_bytes() {
    assert_eq!(Frame::Nil.serialize(), b"$-1\r\n".to_vec());
    assert_eq!(Frame::Integer(i64::MIN).serialize(), b":-9223372036854775808\r\n".to_vec());
    assert_eq!(Frame::BulkString(b"hello".to_vec()).serialize(), b"$5\r\nhello\r\n".to_vec());
    assert_eq!(
        Frame::Array(vec![Frame::BulkString(b"3".to_vec())]).serialize(),
        b"*1\r\n$1\r\n3\r\n".to_vec()
    );
}

#[test]
fn len_matches_serialized_length() {
    let f = sample();
    let n = f.len();
    assert_eq!(n, sample().serialize().len());
    assert_eq!(Frame::Integer(1000).len(), 7);
    assert_eq!(Frame::BulkString(b"hello".to_vec()).len(), 11);
    assert_eq!(Frame::Nil.len(), 5);
}

#[test]
fn every_strict_prefix_is_incomplete() {
    let bytes = sample().serialize();
    for n in 0..bytes.len() {
        assert_eq!(Frame::from_bytes(&bytes[..n]), Err(RedisErr::FrameIncomplete), "prefix {}", n);
    }
}

#[test]
fn empty_buffer_is_incomplete() {
    assert_eq!(Frame::from_bytes(b""), Err(RedisErr::FrameIncomplete));
}

#[test]
fn unknown_type_byte_is_malformed() {
    assert_eq!(Frame::from_bytes(b"?x\r\n"), Err(RedisErr::FrameMalformed));
}

#[test]
fn bad_integer_is_malformed() {
    assert_eq!(Frame::from_bytes(b":12a\r\n"), Err(RedisErr::FrameMalformed));
    assert_eq!(Frame::from_bytes(b":99999999999999999999\r\n"), Err(RedisErr::FrameMalformed));
}

#[test]
fn bulk_waiting_for_bytes_is_incomplete() {
    assert_eq!(Frame::from_bytes(b"$5\r\nhel"), Err(RedisErr::FrameIncomplete));
}

#[test]
fn nil_bulk_reads_as_nil() {
    assert_eq!(Frame::from_bytes(b"$-1\r\n"), Ok(Frame::Nil));
}

#[test]
fn inline_words_split_on_spaces() {
    assert_eq!(
        Frame::from_bytes(b"PING  hello\r\n"),
        Ok(Frame::Array(vec![
            Frame::SimpleString("PING".to_string()),
            Frame::SimpleString("hello".to_string()),
        ]))
    );
    assert_eq!(
        Frame::from_bytes(b"get 1a\r\n"),
        Ok(Frame::Array(vec![
            Frame::SimpleString("get".to_string()),
            Frame::SimpleString("1a".to_string()),
        ]))
    );
}
