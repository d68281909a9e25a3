use redis_rs::db::DB;
use redis_rs::frame::Frame;
use redis_rs::parser::{error_frame, Parser};
use redis_rs::RedisErr;

/// Feeds one request, as an array of bulk strings, through the registry and
/// the keyspace at time `now`; a request that cannot be read gets its error.
fn request(db: &mut DB, words: &[&str], now: u64) -> Frame {
    let frames = words.iter().map(|w| Frame::BulkString(w.as_bytes().to_vec())).collect();
    let parser = Parser::new();
    match parser.parse(Frame::Array(frames)) {
        Ok(cmd) => cmd.apply_at(db, now).unwrap(),
        Err(e) => error_frame(e),
    }
}

fn parser_error(frames: Vec<Frame>) -> Option<RedisErr> {
    Parser::new().parse(Frame::Array(frames)).err()
}

fn is_error(f: &Frame) -> bool {
    matches!(f, Frame::Error(s) if s.starts_with("ERR"))
}

#[test]
fn set_get_del_get() {
    let mut db = DB::new();
    let replies: Vec<Vec<u8>> = vec![
        request(&mut db, &["SET", "a", "hello"], 0).serialize(),
        request(&mut db, &["GET", "a"], 0).serialize(),
        request(&mut db, &["DEL", "a"], 0).serialize(),
        request(&mut db, &["GET", "a"], 0).serialize(),
    ];
    assert_eq!(replies[0], b"+OK\r\n".to_vec());
    assert_eq!(replies[1], b"$5\r\nhello\r\n".to_vec());
    assert_eq!(replies[2], b":1\r\n".to_vec());
    assert_eq!(replies[3], b"$-1\r\n".to_vec());
}

#[test]
fn lpush_then_lrange() {
    let mut db = DB::new();
    assert_eq!(request(&mut db, &["LPUSH", "l", "1", "2", "3"], 0).serialize(), b":3\r\n".to_vec());
    assert_eq!(
        request(&mut db, &["LRANGE", "l", "0", "-1"], 0).serialize(),
        b"*3\r\n$1\r\n3\r\n$1\r\n2\r\n$1\r\n1\r\n".to_vec()
    );
}

#[test]
fn zadd_zcard_zrem() {
    let mut db = DB::new();
    assert_eq!(request(&mut db, &["ZADD", "z", "NX", "1", "m"], 0), Frame::Integer(1));
    assert_eq!(request(&mut db, &["ZADD", "z", "XX", "CH", "2", "m"], 0), Frame::Integer(1));
    assert_eq!(request(&mut db, &["ZCARD", "z"], 0), Frame::Integer(1));
    assert_eq!(request(&mut db, &["ZREM", "z", "m"], 0), Frame::Integer(1));
}

#[test]
fn set_syntax_errors() {
    let mut db = DB::new();
    assert!(is_error(&request(&mut db, &["SET", "k", "x", "EX", "0"], 0)));
    assert!(is_error(&request(&mut db, &["SET", "k", "x", "NX", "XX"], 0)));
    assert_eq!(request(&mut db, &["SET", "k", "x", "NX", "XX"], 0), error_frame(RedisErr::SyntaxError));
    assert_eq!(request(&mut db, &["GET", "k"], 0), Frame::Nil);
}

#[test]
fn hset_on_string_is_wrong_type() {
    let mut db = DB::new();
    assert_eq!(request(&mut db, &["SET", "k", "v"], 0), Frame::SimpleString("OK".to_string()));
    assert_eq!(
        request(&mut db, &["HSET", "k", "f", "v"], 0),
        Frame::Error("WRONGTYPE Operation against a key holding the wrong kind of value".to_string())
    );
}

#[test]
fn get_after_set() {
    let mut db = DB::new();
    request(&mut db, &["SET", "k", "v"], 5);
    assert_eq!(request(&mut db, &["GET", "k"], 1_000_000_000), Frame::BulkString(b"v".to_vec()));
}

#[test]
fn expiry_after_ex_seconds() {
    let mut db = DB::new();
    request(&mut db, &["SET", "k", "v", "EX", "2"], 1_000);
    assert_eq!(request(&mut db, &["GET", "k"], 2_999), Frame::BulkString(b"v".to_vec()));
    assert_eq!(request(&mut db, &["GET", "k"], 3_000), Frame::Nil);
    assert_eq!(request(&mut db, &["TYPE", "k"], 3_000), Frame::SimpleString("none".to_string()));
}

#[test]
fn zadd_nx_gt_lt() {
    let mut db = DB::new();
    assert_eq!(request(&mut db, &["ZADD", "k", "NX", "1", "m"], 0), Frame::Integer(1));
    assert_eq!(request(&mut db, &["ZADD", "k", "NX", "2", "m"], 0), Frame::Integer(0));
    // the score stayed 1: GT 1 changes nothing
    assert_eq!(request(&mut db, &["ZADD", "k", "GT", "CH", "1", "m"], 0), Frame::Integer(0));
    assert_eq!(request(&mut db, &["ZADD", "k", "GT", "2", "m"], 0), Frame::Integer(0));
    assert_eq!(request(&mut db, &["ZADD", "k", "GT", "CH", "3", "m"], 0), Frame::Integer(1));
    assert_eq!(request(&mut db, &["ZADD", "k", "LT", "CH", "0", "m"], 0), Frame::Integer(1));
    // the score is 0 now: LT 0 changes nothing
    assert_eq!(request(&mut db, &["ZADD", "k", "LT", "CH", "0", "m"], 0), Frame::Integer(0));
}

#[test]
fn flush_clears_everything() {
    let mut db = DB::new();
    request(&mut db, &["SET", "a", "1"], 0);
    request(&mut db, &["LPUSH", "b", "1"], 0);
    assert_eq!(request(&mut db, &["FLUSH"], 0), Frame::SimpleString("OK".to_string()));
    assert_eq!(request(&mut db, &["GET", "a"], 0), Frame::Nil);
    assert_eq!(request(&mut db, &["TYPE", "b"], 0), Frame::SimpleString("none".to_string()));
}

#[test]
fn inline_request_reads_like_an_array() {
    let mut db = DB::new();
    let parser = Parser::new();
    let frame = Frame::from_bytes(b"SET k hello\r\n").unwrap();
    let cmd = parser.parse(frame).unwrap();
    assert_eq!(cmd.apply_at(&mut db, 0), Some(Frame::SimpleString("OK".to_string())));
    assert_eq!(request(&mut db, &["GET", "k"], 0), Frame::BulkString(b"hello".to_vec()));
    // a word of digits reads as an integer frame, which is no value
    let frame = Frame::from_bytes(b"SET k 12\r\n").unwrap();
    assert_eq!(parser.parse(frame).err(), Some(RedisErr::InvalidProtocol));
}

#[test]
fn request_errors() {
    let mut db = DB::new();
    assert_eq!(request(&mut db, &["NOPE"], 0), error_frame(RedisErr::UnknownCommand));
    assert_eq!(request(&mut db, &["GET"], 0), error_frame(RedisErr::WrongNumberOfArguments));
    assert_eq!(request(&mut db, &["LRANGE", "l", "x", "1"], 0), error_frame(RedisErr::InvalidProtocol));
    assert_eq!(request(&mut db, &["MGET"], 0), error_frame(RedisErr::WrongNumberOfArguments));
    assert_eq!(request(&mut db, &["MSET"], 0), error_frame(RedisErr::WrongNumberOfArguments));
    let frames = vec![Frame::BulkString(b"GET".to_vec()), Frame::Integer(7)];
    assert_eq!(parser_error(frames), Some(RedisErr::InvalidProtocol));
    assert_eq!(error_frame(RedisErr::SyntaxError), Frame::Error("ERR SyntaxError".to_string()));
    let parser = Parser::new();
    assert_eq!(parser.parse(Frame::Integer(1)).err(), Some(RedisErr::InvalidProtocol));
    assert_eq!(
        parser.parse(Frame::Array(vec![Frame::Integer(1)])).err(),
        Some(RedisErr::InvalidProtocol)
    );
}

#[test]
fn set_get_option_returns_previous() {
    let mut db = DB::new();
    assert_eq!(request(&mut db, &["SET", "k", "a", "GET"], 0), Frame::Nil);
    assert_eq!(request(&mut db, &["SET", "k", "b", "GET"], 0), Frame::BulkString(b"a".to_vec()));
    assert_eq!(request(&mut db, &["SET", "k", "c", "NX"], 0), Frame::Nil);
    assert_eq!(request(&mut db, &["GET", "k"], 0), Frame::BulkString(b"b".to_vec()));
}

#[test]
fn mget_and_mset() {
    let mut db = DB::new();
    assert_eq!(request(&mut db, &["MSET", "a", "1", "b", "2"], 0), Frame::SimpleString("OK".to_string()));
    assert_eq!(
        request(&mut db, &["MGET", "a", "x", "b"], 0),
        Frame::Array(vec![Frame::BulkString(b"1".to_vec()), Frame::Nil, Frame::BulkString(b"2".to_vec())])
    );
}

#[test]
fn object_and_ping() {
    let mut db = DB::new();
    request(&mut db, &["SET", "k", "v"], 1_000);
    assert_eq!(request(&mut db, &["OBJECT", "idletime", "k"], 4_500), Frame::Integer(3));
    assert_eq!(request(&mut db, &["OBJECT", "ENCODING", "k"], 0), Frame::SimpleString("raw".to_string()));
    assert_eq!(request(&mut db, &["OBJECT", "what", "k"], 0), error_frame(RedisErr::UnknownCommand));
    assert_eq!(request(&mut db, &["PING"], 0), Frame::SimpleString("PONG".to_string()));
    assert_eq!(request(&mut db, &["PING", "hi"], 0), Frame::BulkString(b"hi".to_vec()));
    assert_eq!(request(&mut db, &["QUIT"], 0), Frame::SimpleString("OK".to_string()));
}

#[test]
fn expire_sets_a_deadline() {
    let mut db = DB::new();
    request(&mut db, &["SET", "k", "v"], 0);
    assert_eq!(request(&mut db, &["EXPIRE", "k", "1"], 0), Frame::Integer(1));
    assert_eq!(request(&mut db, &["GET", "k"], 999), Frame::BulkString(b"v".to_vec()));
    assert_eq!(request(&mut db, &["GET", "k"], 1_000), Frame::Nil);
    assert_eq!(request(&mut db, &["EXPIRE", "k", "1"], 1_000), Frame::Integer(0));
}

#[test]
fn text_arguments_must_be_utf8() {
    let mut db = DB::new();
    let parser = Parser::new();
    let frames = vec![Frame::BulkString(b"GET".to_vec()), Frame::BulkString(vec![0xff, 0xfe])];
    let cmd = parser.parse(Frame::Array(frames));
    assert_eq!(cmd.err(), Some(RedisErr::InvalidArgument));
    assert_eq!(Frame::from_bytes(b"+\xff\r\n"), Err(RedisErr::FrameMalformed));
    assert_eq!(Frame::from_bytes(b"+caf\xc3\xa9\r\n"), Ok(Frame::SimpleString("café".to_string())));
    assert_eq!(request(&mut db, &["SET", "clé", "v"], 0), Frame::SimpleString("OK".to_string()));
    assert_eq!(request(&mut db, &["GET", "clé"], 0), Frame::BulkString(b"v".to_vec()));
}
