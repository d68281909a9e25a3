use redis_rs::protocol::{Protocol, ProtocolError};

#[test]
fn protocol_test_parse_request() {
    let data = "$7\r\nSET a b\r\n".as_bytes();
    let command = Protocol::from_bytes(&data.to_vec());
    assert_eq!(command.is_ok(), true);
    assert_eq!(
        command.unwrap(),
        Protocol::BulkStrings("SET a b".as_bytes().to_vec())
    );

    let data = "+OK\r\n".as_bytes();
    let command = Protocol::from_bytes(&data.to_vec());
    assert_eq!(command.is_ok(), true);
    assert_eq!(command.unwrap(), Protocol::SimpleString("OK".to_string()));

    let data = "-ERR unknown command 'foobar'\r\n".as_bytes();
    let command = Protocol::from_bytes(&data.to_vec());
    assert_eq!(command.is_ok(), true);
    assert_eq!(
        command.unwrap(),
        Protocol::Errors("ERR unknown command 'foobar'".to_string())
    );

    let data = ":1000\r\n".as_bytes();
    let command = Protocol::from_bytes(&data.to_vec());
    assert_eq!(command.is_ok(), true);
    assert_eq!(command.unwrap(), Protocol::Integers(1000));

    let data = "*2\r\n$5\r\nhello\r\n$5\r\nworld\r\n".as_bytes();
    let command = Protocol::from_bytes(&data.to_vec());
    assert_eq!(command.is_ok(), true);
    assert_eq!(
        command.unwrap(),
        Protocol::Arrays(vec![
            Protocol::BulkStrings("hello".as_bytes().to_vec()),
            Protocol::BulkStrings("world".as_bytes().to_vec())
        ])
    );

    // bad case
    let data = "$7\r\nSET a ba\r\n".as_bytes();
    let command = Protocol::from_bytes(&data.to_vec());
    assert_eq!(command.is_ok(), false);
    assert_eq!(command.unwrap_err(), ProtocolError::Malformed);
}

#[test]
fn protocol_round_trip() {
    let p = Protocol::Arrays(vec![Protocol::Integers(-7), Protocol::Errors("e".to_string())]);
    let bytes = p.serialize();
    assert_eq!(bytes, b"*2\r\n:-7\r\n-e\r\n".to_vec());
    assert_eq!(
        Protocol::from_bytes(&bytes),
        Ok(Protocol::Arrays(vec![Protocol::Integers(-7), Protocol::Errors("e".to_string())]))
    );
}

#[test]
fn protocol_refuses_nil_and_inline() {
    assert_eq!(Protocol::from_bytes(&b"$-1\r\n".to_vec()), Err(ProtocolError::Malformed));
    assert_eq!(Protocol::from_bytes(&b"GET a\r\n".to_vec()), Err(ProtocolError::Malformed));
    assert_eq!(Protocol::from_bytes(&b"+OK".to_vec()), Err(ProtocolError::Incomplete));
}
