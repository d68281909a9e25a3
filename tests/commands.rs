use redis_rs::cmd::{
    BFAdd, BFExists, Del, Expire, Flush, Get, HGet, HSet, LPush, LRange, MGet, MSet, Publish,
    SetCmd, Subscribe, Type, ZAdd, ZCard, ZRem,
};
use redis_rs::db::DB;
use redis_rs::frame::Frame;
use redis_rs::parser::{Command, Parser};

fn bulk(s: &[u8]) -> Frame {
    Frame::BulkString(s.to_vec())
}

fn run(db: &mut DB, frames: Vec<Frame>) -> Frame {
    let parser = Parser::new();
    let cmd = parser.parse(Frame::Array(frames)).unwrap();
    cmd.apply_at(db, 1_000_000).unwrap()
}

#[test]
fn cmd_test_get() {
    let mut db = DB::new();
    let result = run(&mut db, vec![bulk(b"get"), bulk(b"key")]);
    assert_eq!(result, Frame::Nil);
}

#[test]
fn cmd_test_set() {
    let mut db = DB::new();
    let result = run(&mut db, vec![bulk(b"set"), bulk(b"key"), bulk(b"value")]);
    assert_eq!(result, Frame::SimpleString("OK".to_string()));
}

#[test]
fn cmd_test_del() {
    let mut db = DB::new();
    let result = run(&mut db, vec![bulk(b"del"), bulk(b"key")]);
    assert_eq!(result, Frame::Integer(0));
}

#[test]
fn cmd_test_expire() {
    let mut db = DB::new();
    let result = run(&mut db, vec![bulk(b"expire"), bulk(b"key"), Frame::Integer(10)]);
    assert_eq!(result, Frame::Integer(0));
}

#[test]
fn cmd_test_lpush() {
    let mut db = DB::new();
    let result = run(&mut db, vec![bulk(b"lpush"), bulk(b"key"), bulk(b"1"), bulk(b"2"), bulk(b"3")]);
    assert_eq!(result, Frame::Integer(3));
}

#[test]
fn cmd_test_lrange() {
    let mut db = DB::new();
    let result = run(&mut db, vec![bulk(b"lrange"), bulk(b"key"), Frame::Integer(0), Frame::Integer(-1)]);
    assert_eq!(result, Frame::Array(vec![]));
}

#[test]
fn cmd_test_zadd() {
    let mut db = DB::new();
    let result = run(&mut db, vec![bulk(b"zadd"), bulk(b"key"), bulk(b"1"), bulk(b"one")]);
    assert_eq!(result, Frame::Integer(1));
}

#[test]
fn cmd_test_zcard() {
    let mut db = DB::new();
    let result = run(&mut db, vec![bulk(b"zcard"), bulk(b"key")]);
    assert_eq!(result, Frame::Integer(0));
}

#[test]
fn cmd_test_zrem() {
    let mut db = DB::new();
    let result = run(&mut db, vec![bulk(b"zrem"), bulk(b"key"), bulk(b"one")]);
    assert_eq!(result, Frame::Integer(0));
}

#[test]
fn cmd_test_flush() {
    let mut db = DB::new();
    let parser = Parser::new();
    let cmd = parser.parse(Frame::Array(vec![bulk(b"flush")]));
    assert_eq!(cmd.is_ok(), true);
    let cmd = cmd.unwrap();

    match cmd {
        Command::Flush(_) => {}
        _ => panic!("expect flush"),
    }

    let result = cmd.apply_at(&mut db, 0).unwrap();
    assert_eq!(result, Frame::SimpleString("OK".to_string()));
}

#[test]
fn db_test_flush() {
    let mut db = DB::new();
    let cmd = Flush::from_frames(vec![bulk(b"flush")]);
    assert_eq!(cmd.is_ok(), true);
    let cmd: Flush = cmd.unwrap();

    let result = cmd.apply(&mut db);
    assert_eq!(result, Frame::SimpleString("OK".to_string()));
}

#[test]
fn test_hset() {
    let mut db = DB::new();
    let cmd = HSet::from_frames(vec![bulk(b"hset"), bulk(b"key"), bulk(b"field"), bulk(b"value")]).unwrap();
    let result = cmd.apply(&mut db);
    assert_eq!(result, Frame::Integer(1));
}

#[test]
fn test_hget() {
    let mut db = DB::new();
    let cmd = HGet::from_frames(vec![bulk(b"hget"), bulk(b"key"), bulk(b"field")]).unwrap();
    let result = cmd.apply(&mut db);
    assert_eq!(result, Frame::Nil);
}

#[test]
fn kv_test_get() {
    let mut db = DB::new();
    let cmd = Get::from_frames(vec![bulk(b"get"), bulk(b"key")]).unwrap();
    let result = cmd.apply(&mut db);
    assert_eq!(result, Frame::Nil);
}

#[test]
fn test_mget() {
    let mut db = DB::new();
    let cmd = MGet::from_frames(vec![bulk(b"mget"), bulk(b"key1"), bulk(b"key2")]).unwrap();

    let result = cmd.apply(&mut db);
    assert_eq!(result, Frame::Array(vec![Frame::Nil, Frame::Nil]));
}

#[test]
fn test_mset() {
    let mut db = DB::new();
    let cmd = MSet::from_frames(vec![
        bulk(b"mset"),
        bulk(b"key1"),
        bulk(b"value1"),
        bulk(b"key2"),
        bulk(b"value2"),
    ])
    .unwrap();

    let result = cmd.apply(&mut db);
    // success strings are `+OK`
    assert_eq!(result, Frame::SimpleString("OK".to_string()));
}

#[test]
fn kv_test_set() {
    let mut db = DB::new();
    let cmd = SetCmd::from_frames(vec![
        Frame::SimpleString("set".to_string()),
        Frame::SimpleString("key".to_string()),
        bulk(b"value"),
    ])
    .unwrap();
    let result = cmd.apply(&mut db);
    assert_eq!(result, Frame::SimpleString("OK".to_string()));
}

#[test]
fn list_test_lpush() {
    let mut db = DB::new();
    let cmd = LPush::from_frames(vec![bulk(b"lpush"), bulk(b"key"), bulk(b"1"), bulk(b"2"), bulk(b"3")]).unwrap();
    let result = cmd.apply(&mut db);
    assert_eq!(result, Frame::Integer(3));
}

#[test]
fn list_test_lrange() {
    let mut db = DB::new();
    let cmd = LRange::from_frames(vec![bulk(b"lrange"), bulk(b"key"), Frame::Integer(0), Frame::Integer(-1)]).unwrap();
    let result = cmd.apply(&mut db);
    assert_eq!(result, Frame::Array(vec![]));
}

#[test]
fn meta_test_del() {
    let mut db = DB::new();
    let cmd = Del::from_frames(vec![bulk(b"del"), bulk(b"key")]).unwrap();
    let result = cmd.apply(&mut db);
    assert_eq!(result, Frame::Integer(0));
}

#[test]
fn meta_test_expire() {
    let mut db = DB::new();
    let cmd = Expire::from_frames(vec![bulk(b"expire"), bulk(b"key"), Frame::Integer(10)]).unwrap();
    let result = cmd.apply(&mut db);
    assert_eq!(result, Frame::Integer(0));
}

#[test]
fn test_type() {
    let mut db = DB::new();
    let cmd = Type::from_frames(vec![bulk(b"type"), bulk(b"key")]).unwrap();
    let result = cmd.apply(&mut db);
    assert_eq!(result, Frame::SimpleString("none".to_string()));
}

#[test]
fn test_from_frames() {
    let cmd = Publish::from_frames(vec![bulk(b"PUBLISH"), bulk(b"channel"), bulk(b"message")]);
    assert_eq!(
        cmd.unwrap().channel,
        Publish::new("channel".to_string(), b"message".to_vec()).channel
    );

    let cmd = Subscribe::from_frames(vec![bulk(b"SUBSCRIBE"), bulk(b"channel")]);
    assert_eq!(
        cmd.unwrap().channels,
        Subscribe::new(vec!["channel".to_string()]).channels
    );
}

#[test]
fn sort_set_test_zadd() {
    let mut db = DB::new();
    let cmd = ZAdd::from_frames(vec![bulk(b"zadd"), bulk(b"key"), bulk(b"1"), bulk(b"one")]).unwrap();
    let result = cmd.apply(&mut db);
    assert_eq!(result, Frame::Integer(1));
}

#[test]
fn sort_set_test_zcard() {
    let mut db = DB::new();
    let cmd = ZCard::from_frames(vec![bulk(b"zcard"), bulk(b"key")]).unwrap();
    let result = cmd.apply(&mut db);
    assert_eq!(result, Frame::Integer(0));
}

#[test]
fn sort_set_test_zrem() {
    let mut db = DB::new();
    let cmd = ZRem::from_frames(vec![bulk(b"zrem"), bulk(b"key"), bulk(b"one")]).unwrap();
    let result = cmd.apply(&mut db);
    assert_eq!(result, Frame::Integer(0));
}

#[test]
fn bloom_add_then_exists() {
    let mut db = DB::new();
    let add = BFAdd::from_frames(vec![bulk(b"BF.ADD"), bulk(b"f"), bulk(b"x")]).unwrap();
    assert_eq!(add.apply_at(&mut db, 0), Frame::Integer(1));
    let yes = BFExists::from_frames(vec![bulk(b"bf.exists"), bulk(b"f"), bulk(b"x")]).unwrap();
    assert_eq!(yes.apply_at(&mut db, 0), Frame::Integer(1));
    let no = BFExists::from_frames(vec![bulk(b"bf.exists"), bulk(b"f"), bulk(b"y")]).unwrap();
    assert_eq!(no.apply_at(&mut db, 0), Frame::Integer(0));
}
