use redis_rs::config::{Arg, ServerBuilder};
use redis_rs::db::DB;
use redis_rs::frame::Frame;
use redis_rs::parser::Parser;
use redis_rs::session::{message_frame, take_frame, SubscribedAction, Subscriptions};
use redis_rs::value::ValueType;
use redis_rs::RedisErr;

fn ack(kind: &str, channel: &str, n: i64) -> Frame {
    Frame::Array(vec![
        Frame::BulkString(kind.as_bytes().to_vec()),
        Frame::BulkString(channel.as_bytes().to_vec()),
        Frame::Integer(n),
    ])
}

#[test]
fn take_frame_shifts_the_buffer() {
    let mut buf = b"+OK\r\n:5\r\n+pa".to_vec();
    assert_eq!(take_frame(&mut buf), Ok(Some(Frame::SimpleString("OK".to_string()))));
    assert_eq!(buf, b":5\r\n+pa".to_vec());
    assert_eq!(take_frame(&mut buf), Ok(Some(Frame::Integer(5))));
    assert_eq!(take_frame(&mut buf), Ok(None));
    assert_eq!(buf, b"+pa".to_vec());
    buf.extend_from_slice(b"rtial\r\n");
    assert_eq!(take_frame(&mut buf), Ok(Some(Frame::SimpleString("partial".to_string()))));
    assert!(buf.is_empty());
}

#[test]
fn take_frame_drops_malformed_bytes() {
    let mut buf = b"!!\r\n".to_vec();
    assert_eq!(take_frame(&mut buf), Err(RedisErr::FrameMalformed));
    assert!(buf.is_empty());
}

#[test]
fn subscribe_acks_count_channels() {
    let mut subs = Subscriptions::new();
    assert_eq!(subs.subscribe("c".to_string()), ack("subscribe", "c", 1));
    assert_eq!(subs.subscribe("d".to_string()), ack("subscribe", "d", 2));
    assert_eq!(subs.subscribe("c".to_string()), ack("subscribe", "c", 2));
    assert_eq!(subs.unsubscribe("c"), ack("unsubscribe", "c", 1));
    assert_eq!(subs.unsubscribe("x"), ack("unsubscribe", "x", 1));
    assert_eq!(subs.len(), 1);
    assert_eq!(subs.channel(0), "d");
}

#[test]
fn message_frame_shape() {
    assert_eq!(
        message_frame("c", b"hi".to_vec()).serialize(),
        b"*3\r\n$7\r\nmessage\r\n$1\r\nc\r\n$2\r\nhi\r\n".to_vec()
    );
}

#[test]
fn purge_drops_expired_and_gives_next_deadline() {
    let mut db = DB::new();
    db.set("a".to_string(), b"1".to_vec(), false, false, false, false, Some(10), 0).unwrap();
    db.set("b".to_string(), b"2".to_vec(), false, false, false, false, Some(30), 0).unwrap();
    db.set("c".to_string(), b"3".to_vec(), false, false, false, false, Some(20), 0).unwrap();
    db.set("d".to_string(), b"4".to_vec(), false, false, false, false, None, 0).unwrap();
    assert_eq!(db.purge_expired(15), Some(20));
    assert_eq!(db.get_type("a", 0), None);
    assert_eq!(db.get_type("c", 0), Some("string"));
    assert_eq!(db.purge_expired(100), None);
    assert_eq!(db.get_type("d", 100), Some("string"));
}

#[test]
fn server_builder_settings() {
    let b = ServerBuilder::new();
    assert_eq!(b.get_addr(), "127.0.0.1");
    assert_eq!(b.get_port(), 6379);
    assert_eq!(b.get_max_client(), 1024);
    let b = b.addr("0.0.0.0").port(7000).max_client(3);
    assert_eq!(b.get_addr(), "0.0.0.0");
    assert_eq!(b.get_port(), 7000);
    assert_eq!(b.get_max_client(), 3);
    let arg = Arg { host: "h".to_string(), port: 1, max_clients: 2 };
    let b = ServerBuilder::new_with_arg(arg);
    assert_eq!(b.get_addr(), "h");
    assert_eq!(b.get_port(), 1);
    assert_eq!(b.get_max_client(), 2);
}

#[test]
fn value_type_names() {
    assert_eq!(ValueType::KV.to_str(), "string");
    assert_eq!(ValueType::List.to_str(), "list");
    assert_eq!(ValueType::Hash.to_str(), "hash");
    assert_eq!(ValueType::ZSet.to_str(), "zset");
    assert_eq!(ValueType::BloomFilter.to_str(), "bloomfilter");
    assert_eq!(RedisErr::WrongType.name(), "WrongType");
}

#[test]
fn subscribed_mode_actions() {
    let parser = Parser::new();
    let req = |words: &[&str]| {
        let frames = words.iter().map(|w| Frame::BulkString(w.as_bytes().to_vec())).collect();
        parser.parse(Frame::Array(frames)).unwrap()
    };
    let mut subs = Subscriptions::new();
    subs.subscribe("a".to_string());
    subs.subscribe("b".to_string());
    match subs.action(req(&["UNSUBSCRIBE"])) {
        SubscribedAction::Leave(v) => assert_eq!(v, vec!["a".to_string(), "b".to_string()]),
        _ => panic!("expected leave"),
    }
    match subs.action(req(&["SUBSCRIBE", "c"])) {
        SubscribedAction::Join(v) => assert_eq!(v, vec!["c".to_string()]),
        _ => panic!("expected join"),
    }
    match subs.action(req(&["PING"])) {
        SubscribedAction::Reply(f) => assert_eq!(f, Frame::SimpleString("PONG".to_string())),
        _ => panic!("expected reply"),
    }
    assert!(matches!(subs.action(req(&["QUIT"])), SubscribedAction::Close));
    assert!(matches!(subs.action(req(&["GET", "k"])), SubscribedAction::Ignore));
}

#[test]
fn expiry_index_follows_writes() {
    let mut db = DB::new();
    db.set("a".to_string(), b"1".to_vec(), false, false, false, false, Some(10), 0).unwrap();
    db.set("b".to_string(), b"2".to_vec(), false, false, false, false, Some(20), 0).unwrap();
    // overwriting without a deadline takes `a` out of the index
    db.set("a".to_string(), b"3".to_vec(), false, false, false, false, None, 0).unwrap();
    assert_eq!(db.purge_expired(0), Some(20));
    db.expire("a", 5, 0).unwrap();
    assert_eq!(db.purge_expired(0), Some(5));
    db.del("a", 0);
    assert_eq!(db.purge_expired(0), Some(20));
    db.flush();
    assert_eq!(db.purge_expired(0), None);
}
