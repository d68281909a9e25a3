use redis_rs::db::DB;
use redis_rs::RedisErr;

const NOW: u64 = 1_000_000;

#[test]
fn test_get_set() {
    let key = "key".to_string();
    let val = b"value".to_vec();
    let mut db = DB::new();
    let res = db.set(key.clone(), val.clone(), false, false, false, false, None, NOW);
    assert_eq!(res, Ok(None));
    assert_eq!(db.get(&key, NOW), Ok(val.clone()));
    let res = db.set(key.clone(), val.clone(), false, true, false, false, None, NOW);
    assert_eq!(res, Ok(None));
    let res = db.set(key.clone(), val.clone(), true, false, false, false, None, NOW);
    assert_eq!(res, Err(RedisErr::NoAction));
    assert_eq!(db.get(&key, NOW), Ok(val.clone()));

    let res = db.set(key.clone(), b"new_val".to_vec(), false, false, true, false, None, NOW);
    assert_eq!(res, Ok(Some(val.clone())));
    assert_eq!(db.get(&key, NOW), Ok(b"new_val".to_vec()));

    let res = db.set(
        key.clone(),
        b"new_val".to_vec(),
        false,
        false,
        false,
        false,
        Some(NOW + 60_000),
        NOW,
    );
    assert_eq!(res, Ok(None));
    assert_eq!(db.get_expire_at(&key, NOW).unwrap().is_some(), true);

    let _res = db.set(key.clone(), val.clone(), false, false, false, false, None, NOW);
    assert_eq!(db.get_expire_at(&key, NOW).unwrap().is_some(), false);
    assert_eq!(db.expire(&key, NOW + 60_000, NOW), Ok(()));
    let res = db.set(key.clone(), val.clone(), false, false, false, true, None, NOW);
    assert_eq!(res, Ok(None));
    assert_eq!(db.get_expire_at(&key, NOW).unwrap().is_some(), true);
}

#[test]
fn db_test_del() {
    let key = "key".to_string();
    let val = b"value".to_vec();
    let mut db = DB::new();
    let res = db.set(key.clone(), val, false, false, false, false, None, NOW);
    assert_eq!(res, Ok(None));

    db.del(&key, NOW);
    assert_eq!(db.get(&key, NOW), Err(RedisErr::KeyNotFound));
}

#[test]
fn db_test_expire() {
    let key = "key".to_string();
    let val = b"value".to_vec();
    let expire_from_now: u64 = 10_000;
    let mut db = DB::new();
    let res = db.set(key.clone(), val.clone(), false, false, false, false, Some(NOW + expire_from_now), NOW);
    assert_eq!(res, Ok(None));
    assert_eq!(db.get(&key, NOW), Ok(val));
    // ten seconds later
    assert_eq!(db.get(&key, NOW + expire_from_now), Err(RedisErr::KeyNotFound));
}

#[test]
fn db_test_zadd() {
    let key = "key".to_string();
    let mut db = DB::new();
    let res = db.zadd(&key, true, false, false, false, false, false, vec![(1, b"one".to_vec())], NOW);
    assert_eq!(res, Ok(1));

    let res = db.zadd(
        &key,
        true,
        false,
        false,
        false,
        false,
        false,
        vec![(2, b"one".to_vec()), (2, b"two".to_vec())],
        NOW,
    );
    assert_eq!(res, Ok(1));

    let res = db.zadd(
        &key,
        false,
        true,
        false,
        false,
        true,
        false,
        vec![(3, b"two".to_vec()), (3, b"three".to_vec())],
        NOW,
    );
    assert_eq!(res, Ok(1));

    let res = db.zadd(
        &key,
        false,
        false,
        true,
        false,
        true,
        false,
        vec![(1, b"two".to_vec()), (3, b"three".to_vec())],
        NOW,
    );
    assert_eq!(res, Ok(2));

    let res = db.zadd(
        &key,
        false,
        false,
        false,
        true,
        true,
        false,
        vec![(2, b"two".to_vec()), (4, b"four".to_vec())],
        NOW,
    );
    assert_eq!(res, Ok(2));

    let res = db.zadd(
        &key,
        false,
        false,
        false,
        false,
        true,
        true,
        vec![(1, b"one".to_vec()), (5, b"five".to_vec())],
        NOW,
    );
    assert_eq!(res, Ok(2));
    assert_eq!(db.zcard(&key, NOW), Ok(5));
}

#[test]
fn wrong_kind_is_refused() {
    let mut db = DB::new();
    db.lpush("l", vec![b"a".to_vec()], NOW).unwrap();
    assert_eq!(db.get("l", NOW), Err(RedisErr::WrongType));
    assert_eq!(db.hget("l", "f", NOW), Err(RedisErr::WrongType));
    assert_eq!(db.zcard("l", NOW), Err(RedisErr::WrongType));
    assert_eq!(db.bf_exists("l", "x", NOW), Err(RedisErr::WrongType));
}

#[test]
fn lrange_counts_from_both_ends() {
    let mut db = DB::new();
    db.lpush("l", vec![b"1".to_vec(), b"2".to_vec(), b"3".to_vec(), b"4".to_vec()], NOW).unwrap();
    // the list is 4 3 2 1
    assert_eq!(db.lrange("l", 1, 2, NOW), Ok(vec![b"3".to_vec(), b"2".to_vec()]));
    assert_eq!(db.lrange("l", -2, -1, NOW), Ok(vec![b"2".to_vec(), b"1".to_vec()]));
    assert_eq!(db.lrange("l", 2, 100, NOW), Ok(vec![b"2".to_vec(), b"1".to_vec()]));
    assert_eq!(db.lrange("l", 3, 1, NOW), Ok(vec![]));
    assert_eq!(db.lrange("l", 9, 10, NOW), Ok(vec![]));
    assert_eq!(db.lrange("missing", 0, -1, NOW), Ok(vec![]));
}

#[test]
fn hash_fields_are_replaced() {
    let mut db = DB::new();
    let pairs = vec![("f".to_string(), b"1".to_vec()), ("f".to_string(), b"2".to_vec())];
    assert_eq!(db.hset("h".to_string(), pairs, NOW), Ok(2));
    assert_eq!(db.hget("h", "f", NOW), Ok(Some(b"2".to_vec())));
    assert_eq!(db.hget("h", "g", NOW), Ok(None));
    assert_eq!(db.hget("nope", "g", NOW), Err(RedisErr::KeyNotFound));
}

#[test]
fn zrem_counts_members_there() {
    let mut db = DB::new();
    db.zadd("z", false, false, false, false, false, false, vec![(1, b"a".to_vec()), (2, b"b".to_vec())], NOW)
        .unwrap();
    assert_eq!(db.zrem("z", vec![b"a".to_vec(), b"c".to_vec(), b"a".to_vec()], NOW), Ok(1));
    assert_eq!(db.zcard("z", NOW), Ok(1));
    assert_eq!(db.zrem("none", vec![b"a".to_vec()], NOW), Err(RedisErr::KeyNotFound));
}

#[test]
fn zadd_xx_on_absent_key_creates_nothing() {
    let mut db = DB::new();
    assert_eq!(db.zadd("z", false, true, false, false, false, false, vec![(1, b"a".to_vec())], NOW), Ok(0));
    assert_eq!(db.get_type("z", NOW), None);
}

#[test]
fn zadd_incr_adds_to_score() {
    let mut db = DB::new();
    db.zadd("z", false, false, false, false, false, false, vec![(5, b"a".to_vec())], NOW).unwrap();
    db.zadd("z", false, false, false, false, false, true, vec![(3, b"a".to_vec())], NOW).unwrap();
    assert_eq!(db.zadd("z", false, false, false, false, true, false, vec![(8, b"a".to_vec())], NOW), Ok(0));
    assert_eq!(db.zadd("z", false, false, false, false, true, false, vec![(9, b"a".to_vec())], NOW), Ok(1));
}

#[test]
fn set_get_on_other_kind_is_wrong_type() {
    let mut db = DB::new();
    db.lpush("l", vec![b"a".to_vec()], NOW).unwrap();
    assert_eq!(
        db.set("l".to_string(), b"v".to_vec(), false, false, true, false, None, NOW),
        Err(RedisErr::WrongType)
    );
}

#[test]
fn object_last_touch_is_write_time() {
    let mut db = DB::new();
    db.set("k".to_string(), b"v".to_vec(), false, false, false, false, None, 77).unwrap();
    assert_eq!(db.get_object_last_touch("k", 100), Some(77));
    assert_eq!(db.get_object_last_touch("x", 100), None);
}

#[test]
fn keepttl_keeps_a_passed_deadline() {
    let mut db = DB::new();
    db.set("k".to_string(), b"1".to_vec(), false, false, false, false, Some(10), 0).unwrap();
    // at 20 the entry is past its deadline, but a write does not ask
    assert_eq!(db.set("k".to_string(), b"2".to_vec(), true, false, false, false, None, 20), Err(RedisErr::NoAction));
    assert_eq!(db.set("k".to_string(), b"2".to_vec(), false, false, false, true, None, 20), Ok(None));
    assert_eq!(db.get_expire_at("k", 5), Some(Some(10)));
    assert_eq!(db.get("k", 20), Err(RedisErr::KeyNotFound));
}

#[test]
fn zadd_incr_with_lt_and_gt_compares_the_new_score() {
    let mut db = DB::new();
    db.zadd("z", false, false, false, false, false, false, vec![(5, b"m".to_vec())], NOW).unwrap();
    // 5 + 1 = 6 is not lower than 5: LT refuses
    assert_eq!(db.zadd("z", false, false, true, false, true, true, vec![(1, b"m".to_vec())], NOW), Ok(0));
    // 5 - 1 = 4 is not higher than 5: GT refuses
    assert_eq!(db.zadd("z", false, false, false, true, true, true, vec![(-1, b"m".to_vec())], NOW), Ok(0));
    // 5 + 1 = 6 is higher: GT takes it
    assert_eq!(db.zadd("z", false, false, false, true, true, true, vec![(1, b"m".to_vec())], NOW), Ok(1));
    // 6 - 2 = 4 is lower: LT takes it
    assert_eq!(db.zadd("z", false, false, true, false, true, true, vec![(-2, b"m".to_vec())], NOW), Ok(1));
    // the score is 4 now: setting 4 changes nothing
    assert_eq!(db.zadd("z", false, false, false, false, true, false, vec![(4, b"m".to_vec())], NOW), Ok(0));
}

#[test]
fn every_access_marks_the_entry_as_read() {
    let mut db = DB::new();
    db.set("k".to_string(), b"v".to_vec(), false, false, false, false, None, 0).unwrap();
    assert_eq!(db.get_object_last_touch("k", 1_000), Some(0));
    db.get("k", 3_000).unwrap();
    assert_eq!(db.get_object_last_touch("k", 4_000), Some(3_000));
    db.lpush("l", vec![b"a".to_vec()], 0).unwrap();
    db.lrange("l", 0, -1, 50).unwrap();
    assert_eq!(db.get_object_last_touch("l", 60), Some(50));
    db.lpush("l", vec![b"b".to_vec()], 70).unwrap();
    assert_eq!(db.get_object_last_touch("l", 80), Some(70));
}
