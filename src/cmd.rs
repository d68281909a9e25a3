//! The commands: each one read from the frames of a request, then applied
//! to the keyspace for one reply frame.
use vstd::prelude::*;

use crate::args::{
    ascii_upper, bytes_arg, check_cmd, integer_arg, is_word, next_bytes, next_integer, next_string,
    string_arg, upper_is, word_arg,
};
use vstd::utf8::encode_utf8;
use crate::db::{
    byte_strings, field_pairs, insert_fields, live, range_of, seen, scored_members, zadd_all, zrem_all,
    EntryView, ValueView, DB,
};
use crate::err::RedisErr;
use crate::frame::{views, Frame, FrameView};
use crate::value::kind_name;
use crate::db::kind_of;

verus! {

pub open spec fn wrong_type_reply() -> FrameView {
    FrameView::Error("WRONGTYPE Operation against a key holding the wrong kind of value"@)
}

pub open spec fn ok_reply() -> FrameView {
    FrameView::Simple("OK"@)
}

pub fn wrong_type_frame() -> (r: Frame)
    ensures
        r@ == wrong_type_reply(),
{
    Frame::Error("WRONGTYPE Operation against a key holding the wrong kind of value".to_string())
}

pub fn ok_frame() -> (r: Frame)
    ensures
        r@ == ok_reply(),
{
    Frame::SimpleString("OK".to_string())
}

/// Relies on std::time::SystemTime::now: the wall-clock time, in
/// milliseconds since the Unix epoch.
#[verifier::external_body]
pub(crate) fn now_ms() -> (r: u64) {
    match std::time::SystemTime::now().duration_since(std::time::UNIX_EPOCH) {
        Ok(d) => d.as_millis() as u64,
        Err(_) => 0,
    }
}

/// `now + ms`, held to the range of a `u64`.
pub open spec fn later(now: u64, ms: int) -> u64 {
    if now + ms > u64::MAX {
        u64::MAX
    } else if now + ms < 0 {
        0
    } else {
        (now + ms) as u64
    }
}

fn later_by(now: u64, ms: i128) -> (r: u64)
    requires
        -100_000_000_000_000_000_000_000i128 <= ms <= 100_000_000_000_000_000_000_000i128,
    ensures
        r == later(now, ms as int),
{
    let t: i128 = now as i128 + ms;
    if t > u64::MAX as i128 {
        u64::MAX
    } else if t < 0 {
        0
    } else {
        t as u64
    }
}

/// A count as an integer reply, held to the range of an `i64`.
pub open spec fn count(n: int) -> int {
    if n > i64::MAX {
        i64::MAX as int
    } else {
        n
    }
}

pub fn count_frame(n: usize) -> (r: Frame)
    ensures
        r@ == FrameView::Integer(count(n as int)),
{
    if n as u64 > i64::MAX as u64 {
        Frame::Integer(i64::MAX)
    } else {
        Frame::Integer(n as i64)
    }
}

/// The reply to a read of a string value.
pub open spec fn string_reply(e: Option<EntryView>) -> FrameView {
    match e {
        None => FrameView::Nil,
        Some(e) => match e.value {
            ValueView::KV(b) => FrameView::Bulk(b),
            _ => wrong_type_reply(),
        },
    }
}

fn string_frame(r: Result<Vec<u8>, RedisErr>) -> (f: Frame)
    requires
        r is Ok || r == Err::<Vec<u8>, RedisErr>(RedisErr::KeyNotFound) || r == Err::<Vec<u8>, RedisErr>(RedisErr::WrongType),
    ensures
        match r {
            Ok(v) => f@ == FrameView::Bulk(v@),
            Err(RedisErr::KeyNotFound) => f@ == FrameView::Nil,
            _ => f@ == wrong_type_reply(),
        },
{
    match r {
        Ok(v) => Frame::BulkString(v),
        Err(RedisErr::KeyNotFound) => Frame::Nil,
        Err(_) => wrong_type_frame(),
    }
}

/// What `GET key` at `now` does: the keyspace after, and the reply.
pub open spec fn get_effect(m: Map<Seq<char>, EntryView>, k: Seq<char>, now: u64) -> (
    Map<Seq<char>, EntryView>,
    FrameView,
) {
    (seen(m, k, now), string_reply(live(m, k, now).get(k)))
}

/// What `DEL key` at `now` does.
pub open spec fn del_effect(m: Map<Seq<char>, EntryView>, k: Seq<char>, now: u64) -> (
    Map<Seq<char>, EntryView>,
    FrameView,
) {
    (
        live(m, k, now).remove(k),
        FrameView::Integer(
            if live(m, k, now).contains_key(k) {
                1
            } else {
                0
            },
        ),
    )
}

/// What `TYPE key` at `now` does.
pub open spec fn type_effect(m: Map<Seq<char>, EntryView>, k: Seq<char>, now: u64) -> (
    Map<Seq<char>, EntryView>,
    FrameView,
) {
    (
        seen(m, k, now),
        FrameView::Simple(
            match live(m, k, now).get(k) {
                None => "none"@,
                Some(e) => kind_name(kind_of(e.value)),
            },
        ),
    )
}

/// What `LPUSH key values...` at `now` does.
pub open spec fn lpush_effect(
    m0: Map<Seq<char>, EntryView>,
    k: Seq<char>,
    vs: Seq<Seq<u8>>,
    now: u64,
) -> (Map<Seq<char>, EntryView>, FrameView) {
    let m = live(m0, k, now);
    match m.get(k) {
        None => (
            m.insert(
                k,
                EntryView { value: ValueView::List(vs.reverse()), expire_at: None, touch_at: now },
            ),
            FrameView::Integer(count(vs.len() as int)),
        ),
        Some(e) => match e.value {
            ValueView::List(l) => (
                m.insert(k, EntryView { value: ValueView::List(vs.reverse() + l), touch_at: now, ..e }),
                FrameView::Integer(count((vs.len() + l.len()) as int)),
            ),
            _ => (m, wrong_type_reply()),
        },
    }
}

/// What `LRANGE key start stop` at `now` does.
pub open spec fn lrange_effect(
    m: Map<Seq<char>, EntryView>,
    k: Seq<char>,
    start: int,
    stop: int,
    now: u64,
) -> (Map<Seq<char>, EntryView>, FrameView) {
    (
        seen(m, k, now),
        match live(m, k, now).get(k) {
            None => FrameView::Array(Seq::empty()),
            Some(e) => match e.value {
                ValueView::List(l) => {
                    let (lo, hi) = range_of(l.len() as int, start, stop);
                    FrameView::Array(l.subrange(lo, hi).map_values(|b: Seq<u8>| FrameView::Bulk(b)))
                },
                _ => wrong_type_reply(),
            },
        },
    )
}

/// What `SET key value options...` at `now` does. A write does not ask
/// whether the entry there has expired.
pub open spec fn set_effect(
    m0: Map<Seq<char>, EntryView>,
    k: Seq<char>,
    v: Seq<u8>,
    o: SetOptions,
    now: u64,
) -> (Map<Seq<char>, EntryView>, FrameView) {
    let m = m0;
    let present = m.contains_key(k);
    if (o.nx && present) || (o.xx && !present) {
        (m, FrameView::Nil)
    } else if o.get && present && !(m[k].value is KV) {
        (m, wrong_type_reply())
    } else {
        (
            m.insert(
                k,
                EntryView {
                    value: ValueView::KV(v),
                    expire_at: if o.keepttl && present {
                        m[k].expire_at
                    } else {
                        set_deadline(o, now)
                    },
                    touch_at: now,
                },
            ),
            if o.get {
                if present {
                    FrameView::Bulk(m[k].value->KV_0)
                } else {
                    FrameView::Nil
                }
            } else {
                ok_reply()
            },
        )
    }
}

/// What reading a `GET` request gives.
#[verifier::opaque]
pub open spec fn get_parsed(fs: Seq<FrameView>, r: Result<Get, RedisErr>) -> bool {
    match word_arg(fs, 0, "GET"@) {
        Err(e) => r == Err::<Get, RedisErr>(e),
        Ok(_) => match string_arg(fs, 1) {
            Err(e) => r == Err::<Get, RedisErr>(e),
            Ok(k) => r matches Ok(c) && c.key@ == k,
        },
    }
}

/// What `Get` does at time `now`: the keyspace before and after, and the reply.
#[verifier::opaque]
pub open spec fn get_applied(
    c: Get,
    before: Map<Seq<char>, EntryView>,
    after: Map<Seq<char>, EntryView>,
    reply: FrameView,
    now: u64,
) -> bool {
    &&& (after, reply) == get_effect(before, c.key@, now)
}

/// `GET key`
pub struct Get {
    pub key: String,
}

impl Get {
    pub fn new(key: String) -> (r: Self)
        ensures
            r.key == key,
    {
        Self { key }
    }

    pub fn key(&self) -> (r: &String)
        ensures
            r == &self.key,
    {
        &self.key
    }

    pub fn from_frames(frames: Vec<Frame>) -> (r: Result<Self, RedisErr>)
        ensures
            get_parsed(views(frames@), r),
    {
        proof {
            reveal(get_parsed);
        }
        check_cmd(&frames, "GET")?;
        let key = next_string(&frames, 1)?;
        Ok(Self::new(key))
    }

    /// The reply at time `now`.
    pub fn apply_at(self, db: &mut DB, now: u64) -> (r: Frame)
        requires
            old(db).wf(),
        ensures
            final(db).wf(),
            get_applied(self, old(db)@, final(db)@, r@, now),
    {
        proof {
            reveal(get_applied);
        }
        string_frame(db.get(self.key.as_str(), now))
    }

    /// Applies the command at the current time.
    pub fn apply(self, db: &mut DB) -> (r: Frame)
        requires
            old(db).wf(),
        ensures
            final(db).wf(),
            exists|t: u64| #[trigger] get_applied(self, old(db)@, final(db)@, r@, t),
    {
        self.apply_at(db, now_ms())
    }
}

/// The texts of the arguments from `i` on.
pub open spec fn strings_from(fs: Seq<FrameView>, i: int) -> Result<Seq<Seq<char>>, RedisErr>
    decreases fs.len() - i,
{
    if i < 0 || i >= fs.len() {
        Ok(Seq::empty())
    } else {
        match string_arg(fs, i) {
            Err(e) => Err(e),
            Ok(s) => match strings_from(fs, i + 1) {
                Err(e) => Err(e),
                Ok(rest) => Ok(seq![s] + rest),
            },
        }
    }
}

/// The byte strings of the arguments from `i` on.
pub open spec fn bytes_from(fs: Seq<FrameView>, i: int) -> Result<Seq<Seq<u8>>, RedisErr>
    decreases fs.len() - i,
{
    if i < 0 || i >= fs.len() {
        Ok(Seq::empty())
    } else {
        match bytes_arg(fs, i) {
            Err(e) => Err(e),
            Ok(b) => match bytes_from(fs, i + 1) {
                Err(e) => Err(e),
                Ok(rest) => Ok(seq![b] + rest),
            },
        }
    }
}

pub open spec fn texts(v: Seq<String>) -> Seq<Seq<char>> {
    v.map_values(|s: String| s@)
}

/// Reads the texts of the arguments from `start` on.
fn read_strings(frames: &Vec<Frame>, start: usize) -> (r: Result<Vec<String>, RedisErr>)
    requires
        1 <= start <= frames@.len(),
    ensures
        match strings_from(views(frames@), start as int) {
            Err(e) => r == Err::<Vec<String>, RedisErr>(e),
            Ok(ss) => r matches Ok(v) && texts(v@) == ss,
        },
{
    let ghost fs = views(frames@);
    let mut out: Vec<String> = Vec::new();
    let mut i: usize = start;
    while i < frames.len()
        invariant
            start <= i <= frames@.len(),
            fs == views(frames@),
            strings_from(fs, start as int) == (match strings_from(fs, i as int) {
                Err(e) => Err(e),
                Ok(rest) => Ok(texts(out@) + rest),
            }),
        decreases frames@.len() - i,
    {
        let ghost before = out@;
        let s = next_string(frames, i)?;
        out.push(s);
        proof {
            assert(texts(out@) =~= texts(before).push(s@));
            match strings_from(fs, i + 1) {
                Ok(rest) => {
                    assert(texts(before) + (seq![s@] + rest) =~= texts(out@) + rest);
                },
                Err(_) => {},
            }
        }
        i = i + 1;
    }
    proof {
        assert(texts(out@) + Seq::<Seq<char>>::empty() =~= texts(out@));
    }
    Ok(out)
}

/// Reads the byte strings of the arguments from `start` on.
fn read_bytes_list(frames: &Vec<Frame>, start: usize) -> (r: Result<Vec<Vec<u8>>, RedisErr>)
    requires
        1 <= start <= frames@.len(),
    ensures
        match bytes_from(views(frames@), start as int) {
            Err(e) => r == Err::<Vec<Vec<u8>>, RedisErr>(e),
            Ok(bs) => r matches Ok(v) && byte_strings(v@) == bs,
        },
{
    let ghost fs = views(frames@);
    let mut out: Vec<Vec<u8>> = Vec::new();
    let mut i: usize = start;
    while i < frames.len()
        invariant
            start <= i <= frames@.len(),
            fs == views(frames@),
            bytes_from(fs, start as int) == (match bytes_from(fs, i as int) {
                Err(e) => Err(e),
                Ok(rest) => Ok(byte_strings(out@) + rest),
            }),
        decreases frames@.len() - i,
    {
        let ghost before = out@;
        let b = next_bytes(frames, i)?;
        out.push(b);
        proof {
            assert(byte_strings(out@) =~= byte_strings(before).push(b@));
            match bytes_from(fs, i + 1) {
                Ok(rest) => {
                    assert(byte_strings(before) + (seq![b@] + rest) =~= byte_strings(out@) + rest);
                },
                Err(_) => {},
            }
        }
        i = i + 1;
    }
    proof {
        assert(byte_strings(out@) + Seq::<Seq<u8>>::empty() =~= byte_strings(out@));
    }
    Ok(out)
}

/// What reading a `DEL` request gives.
#[verifier::opaque]
pub open spec fn del_parsed(fs: Seq<FrameView>, r: Result<Del, RedisErr>) -> bool {
    match word_arg(fs, 0, "DEL"@) {
        Err(e) => r == Err::<Del, RedisErr>(e),
        Ok(_) => match string_arg(fs, 1) {
            Err(e) => r == Err::<Del, RedisErr>(e),
            Ok(k) => r matches Ok(c) && c.key@ == k,
        },
    }
}

/// What `Del` does at time `now`: the keyspace before and after, and the reply.
#[verifier::opaque]
pub open spec fn del_applied(
    c: Del,
    before: Map<Seq<char>, EntryView>,
    after: Map<Seq<char>, EntryView>,
    reply: FrameView,
    now: u64,
) -> bool {
    &&& (after, reply) == del_effect(before, c.key@, now)
}

/// `DEL key`
pub struct Del {
    pub key: String,
}

impl Del {
    pub fn new(key: String) -> (r: Self)
        ensures
            r.key == key,
    {
        Self { key }
    }

    pub fn key(&self) -> (r: &String)
        ensures
            r == &self.key,
    {
        &self.key
    }

    pub fn from_frames(frames: Vec<Frame>) -> (r: Result<Self, RedisErr>)
        ensures
            del_parsed(views(frames@), r),
    {
        proof {
            reveal(del_parsed);
        }
        check_cmd(&frames, "DEL")?;
        let key = next_string(&frames, 1)?;
        Ok(Self::new(key))
    }

    pub fn apply_at(self, db: &mut DB, now: u64) -> (r: Frame)
        requires
            old(db).wf(),
        ensures
            final(db).wf(),
            del_applied(self, old(db)@, final(db)@, r@, now),
    {
        proof {
            reveal(del_applied);
        }
        match db.del(self.key.as_str(), now) {
            Some(_) => Frame::Integer(1),
            None => Frame::Integer(0),
        }
    }

    /// Applies the command at the current time.
    pub fn apply(self, db: &mut DB) -> (r: Frame)
        requires
            old(db).wf(),
        ensures
            final(db).wf(),
            exists|t: u64| #[trigger] del_applied(self, old(db)@, final(db)@, r@, t),
    {
        self.apply_at(db, now_ms())
    }
}

/// What reading a `EXPIRE` request gives.
#[verifier::opaque]
pub open spec fn expire_parsed(fs: Seq<FrameView>, r: Result<Expire, RedisErr>) -> bool {
    match word_arg(fs, 0, "EXPIRE"@) {
        Err(e) => r == Err::<Expire, RedisErr>(e),
        Ok(_) => match string_arg(fs, 1) {
            Err(e) => r == Err::<Expire, RedisErr>(e),
            Ok(k) => match integer_arg(fs, 2) {
                Err(e) => r == Err::<Expire, RedisErr>(e),
                Ok(n) => r matches Ok(c) && c.key@ == k && c.seconds == n,
            },
        },
    }
}

/// What `Expire` does at time `now`: the keyspace before and after, and the reply.
#[verifier::opaque]
pub open spec fn expire_applied(
    c: Expire,
    before: Map<Seq<char>, EntryView>,
    after: Map<Seq<char>, EntryView>,
    reply: FrameView,
    now: u64,
) -> bool {
    &&& ({
        let m = live(before, c.key@, now);
        if m.contains_key(c.key@) {
            reply == FrameView::Integer(1) && after == m.insert(
                c.key@,
                EntryView {
                    expire_at: Some(later(now, c.seconds * 1000)),
                    touch_at: now,
                    ..m[c.key@]
                },
            )
        } else {
            reply == FrameView::Integer(0) && after == m
        }
    })
}

/// `EXPIRE key seconds`
pub struct Expire {
    pub key: String,
    pub seconds: i64,
}

impl Expire {
    pub fn new(key: String, seconds: i64) -> (r: Self)
        ensures
            r.key == key,
            r.seconds == seconds,
    {
        Self { key, seconds }
    }

    pub fn key(&self) -> (r: &String)
        ensures
            r == &self.key,
    {
        &self.key
    }

    pub fn expire(&self) -> (r: i64)
        ensures
            r == self.seconds,
    {
        self.seconds
    }

    pub fn from_frames(frames: Vec<Frame>) -> (r: Result<Self, RedisErr>)
        ensures
            expire_parsed(views(frames@), r),
    {
        proof {
            reveal(expire_parsed);
        }
        check_cmd(&frames, "EXPIRE")?;
        let key = next_string(&frames, 1)?;
        let seconds = next_integer(&frames, 2)?;
        Ok(Self::new(key, seconds))
    }

    /// A key that is there gets the deadline `now + seconds` and the reply
    /// 1; an absent key gets 0.
    pub fn apply_at(self, db: &mut DB, now: u64) -> (r: Frame)
        requires
            old(db).wf(),
        ensures
            final(db).wf(),
            expire_applied(self, old(db)@, final(db)@, r@, now),
    {
        proof {
            reveal(expire_applied);
        }
        let deadline = later_by(now, self.seconds as i128 * 1000);
        match db.expire(self.key.as_str(), deadline, now) {
            Ok(()) => Frame::Integer(1),
            Err(_) => Frame::Integer(0),
        }
    }

    /// Applies the command at the current time.
    pub fn apply(self, db: &mut DB) -> (r: Frame)
        requires
            old(db).wf(),
        ensures
            final(db).wf(),
            exists|t: u64| #[trigger] expire_applied(self, old(db)@, final(db)@, r@, t),
    {
        self.apply_at(db, now_ms())
    }
}

/// What reading a `TYPE` request gives.
#[verifier::opaque]
pub open spec fn type_parsed(fs: Seq<FrameView>, r: Result<Type, RedisErr>) -> bool {
    if fs.len() != 2 {
        r == Err::<Type, RedisErr>(RedisErr::WrongNumberOfArguments)
    } else {
        match word_arg(fs, 0, "TYPE"@) {
            Err(e) => r == Err::<Type, RedisErr>(e),
            Ok(_) => match string_arg(fs, 1) {
                Err(e) => r == Err::<Type, RedisErr>(e),
                Ok(k) => r matches Ok(c) && c.key@ == k,
            },
        }
    }
}

/// What `Type` does at time `now`: the keyspace before and after, and the reply.
#[verifier::opaque]
pub open spec fn type_applied(
    c: Type,
    before: Map<Seq<char>, EntryView>,
    after: Map<Seq<char>, EntryView>,
    reply: FrameView,
    now: u64,
) -> bool {
    &&& (after, reply) == type_effect(before, c.key@, now)
}

/// `TYPE key`
pub struct Type {
    pub key: String,
}

impl Type {
    pub fn new(key: String) -> (r: Self)
        ensures
            r.key == key,
    {
        Self { key }
    }

    pub fn from_frames(frames: Vec<Frame>) -> (r: Result<Self, RedisErr>)
        ensures
            type_parsed(views(frames@), r),
    {
        proof {
            reveal(type_parsed);
        }
        if frames.len() != 2 {
            return Err(RedisErr::WrongNumberOfArguments);
        }
        check_cmd(&frames, "TYPE")?;
        let key = next_string(&frames, 1)?;
        Ok(Self::new(key))
    }

    /// Replies with the kind of the value under the key, or `none`.
    pub fn apply_at(self, db: &mut DB, now: u64) -> (r: Frame)
        requires
            old(db).wf(),
        ensures
            final(db).wf(),
            type_applied(self, old(db)@, final(db)@, r@, now),
    {
        proof {
            reveal(type_applied);
        }
        match db.get_type(self.key.as_str(), now) {
            Some(t) => Frame::SimpleString(t.to_string()),
            None => Frame::SimpleString("none".to_string()),
        }
    }

    /// Applies the command at the current time.
    pub fn apply(self, db: &mut DB) -> (r: Frame)
        requires
            old(db).wf(),
        ensures
            final(db).wf(),
            exists|t: u64| #[trigger] type_applied(self, old(db)@, final(db)@, r@, t),
    {
        self.apply_at(db, now_ms())
    }
}

/// What reading a `FLUSH` request gives.
#[verifier::opaque]
pub open spec fn flush_parsed(fs: Seq<FrameView>, r: Result<Flush, RedisErr>) -> bool {
    if fs.len() != 1 {
        r == Err::<Flush, RedisErr>(RedisErr::WrongNumberOfArguments)
    } else {
        match word_arg(fs, 0, "FLUSH"@) {
            Err(e) => r == Err::<Flush, RedisErr>(e),
            Ok(_) => r is Ok,
        }
    }
}

/// `FLUSH`
pub struct Flush {}

impl Flush {
    pub fn new() -> Self {
        Flush {}
    }

    pub fn from_frames(frames: Vec<Frame>) -> (r: Result<Self, RedisErr>)
        ensures
            flush_parsed(views(frames@), r),
    {
        proof {
            reveal(flush_parsed);
        }
        if frames.len() != 1 {
            return Err(RedisErr::WrongNumberOfArguments);
        }
        check_cmd(&frames, "FLUSH")?;
        Ok(Self::new())
    }

    /// Empties the keyspace.
    pub fn apply(self, db: &mut DB) -> (r: Frame)
        ensures
            final(db).wf(),
            final(db)@ == Map::<Seq<char>, EntryView>::empty(),
            r@ == ok_reply(),
    {
        db.flush();
        ok_frame()
    }
}

/// What reading a `QUIT` request gives.
#[verifier::opaque]
pub open spec fn quit_parsed(fs: Seq<FrameView>, r: Result<Quit, RedisErr>) -> bool {
    match word_arg(fs, 0, "QUIT"@) {
        Err(e) => r == Err::<Quit, RedisErr>(e),
        Ok(_) => r is Ok,
    }
}

/// `QUIT`: the session replies `+OK` and closes.
pub struct Quit {}

impl Quit {
    pub fn new() -> Quit {
        Quit {}
    }

    pub fn from_frames(frames: Vec<Frame>) -> (r: Result<Quit, RedisErr>)
        ensures
            quit_parsed(views(frames@), r),
    {
        proof {
            reveal(quit_parsed);
        }
        check_cmd(&frames, "QUIT")?;
        Ok(Quit::new())
    }

    pub fn apply(self, db: &mut DB) -> (r: Frame)
        ensures
            r@ == ok_reply(),
            *final(db) == *old(db),
    {
        ok_frame()
    }
}

/// What reading a `PING` request gives.
#[verifier::opaque]
pub open spec fn ping_parsed(fs: Seq<FrameView>, r: Result<Ping, RedisErr>) -> bool {
    if fs.len() > 2 {
        r == Err::<Ping, RedisErr>(RedisErr::WrongNumberOfArguments)
    } else {
        match word_arg(fs, 0, "PING"@) {
            Err(e) => r == Err::<Ping, RedisErr>(e),
            Ok(_) => if fs.len() == 2 {
                match bytes_arg(fs, 1) {
                    Err(e) => r == Err::<Ping, RedisErr>(e),
                    Ok(b) => r matches Ok(c) && c.message matches Some(m) && m@ == b,
                }
            } else {
                r matches Ok(c) && c.message is None
            },
        }
    }
}

/// `PING [message]`
pub struct Ping {
    pub message: Option<Vec<u8>>,
}

impl Ping {
    pub fn new(message: Option<Vec<u8>>) -> (r: Self)
        ensures
            r.message == message,
    {
        Self { message }
    }

    pub fn from_frames(frames: Vec<Frame>) -> (r: Result<Self, RedisErr>)
        ensures
            ping_parsed(views(frames@), r),
    {
        proof {
            reveal(ping_parsed);
        }
        if frames.len() > 2 {
            return Err(RedisErr::WrongNumberOfArguments);
        }
        check_cmd(&frames, "PING")?;
        let message = if frames.len() == 2 {
            Some(next_bytes(&frames, 1)?)
        } else {
            None
        };
        Ok(Self::new(message))
    }

    /// Replies with the message, or `PONG`.
    pub fn apply(self, db: &mut DB) -> (r: Frame)
        ensures
            *final(db) == *old(db),
            r@ == match self.message {
                Some(m) => FrameView::Bulk(m@),
                None => FrameView::Simple("PONG"@),
            },
    {
        match self.message {
            Some(m) => Frame::BulkString(m),
            None => Frame::SimpleString("PONG".to_string()),
        }
    }
}


/// What `GET` on each key in turn does: the keyspace after, and the replies.
pub open spec fn mget_replies(m: Map<Seq<char>, EntryView>, keys: Seq<Seq<char>>, now: u64) -> (
    Map<Seq<char>, EntryView>,
    Seq<FrameView>,
)
    decreases keys.len(),
{
    if keys.len() == 0 {
        (m, Seq::empty())
    } else {
        let (m1, rs) = mget_replies(m, keys.drop_last(), now);
        let l = live(m1, keys.last(), now);
        (seen(m1, keys.last(), now), rs.push(string_reply(l.get(keys.last()))))
    }
}

/// What reading a `MGET` request gives.
#[verifier::opaque]
pub open spec fn mget_parsed(fs: Seq<FrameView>, r: Result<MGet, RedisErr>) -> bool {
    match word_arg(fs, 0, "MGET"@) {
        Err(e) => r == Err::<MGet, RedisErr>(e),
        Ok(_) => match strings_from(fs, 1) {
            Err(e) => r == Err::<MGet, RedisErr>(e),
            Ok(ks) => if ks.len() == 0 {
                r == Err::<MGet, RedisErr>(RedisErr::WrongNumberOfArguments)
            } else {
                r matches Ok(c) && texts(c.keys@) == ks
            },
        },
    }
}

/// What `MGet` does at time `now`: the keyspace before and after, and the reply.
#[verifier::opaque]
pub open spec fn mget_applied(
    c: MGet,
    before: Map<Seq<char>, EntryView>,
    after: Map<Seq<char>, EntryView>,
    reply: FrameView,
    now: u64,
) -> bool {
    &&& after == mget_replies(before, texts(c.keys@), now).0
    &&& reply == FrameView::Array(mget_replies(before, texts(c.keys@), now).1)
}

/// `MGET key [key ...]`
pub struct MGet {
    pub keys: Vec<String>,
}

impl MGet {
    pub fn new(keys: Vec<String>) -> (r: Self)
        ensures
            r.keys == keys,
    {
        Self { keys }
    }

    pub fn from_frames(frames: Vec<Frame>) -> (r: Result<Self, RedisErr>)
        ensures
            mget_parsed(views(frames@), r),
    {
        proof {
            reveal(mget_parsed);
        }
        check_cmd(&frames, "MGET")?;
        let keys = read_strings(&frames, 1)?;
        if keys.len() == 0 {
            return Err(RedisErr::WrongNumberOfArguments);
        }
        Ok(Self::new(keys))
    }

    /// Replies with an array: for each key what `GET` would reply.
    pub fn apply_at(self, db: &mut DB, now: u64) -> (r: Frame)
        requires
            old(db).wf(),
        ensures
            final(db).wf(),
            mget_applied(self, old(db)@, final(db)@, r@, now),
    {
        proof {
            reveal(mget_applied);
        }
        let ghost m0 = db@;
        let mut out: Vec<Frame> = Vec::new();
        let mut i: usize = 0;
        while i < self.keys.len()
            invariant
                i <= self.keys@.len(),
                db.wf(),
                (db@, views(out@)) == mget_replies(m0, texts(self.keys@).subrange(0, i as int), now),
            decreases self.keys@.len() - i,
        {
            let ghost before = out@;
            let f = string_frame(db.get(self.keys[i].as_str(), now));
            out.push(f);
            proof {
                let ks = texts(self.keys@);
                assert(ks.subrange(0, i + 1).drop_last() =~= ks.subrange(0, i as int));
                assert(views(out@) =~= views(before).push(f@));
            }
            i = i + 1;
        }
        proof {
            assert(texts(self.keys@).subrange(0, self.keys@.len() as int) =~= texts(self.keys@));
        }
        let r = Frame::Array(out);
        proof {
            crate::frame::lemma_array_view(r);
        }
        r
    }

    /// Applies the command at the current time.
    pub fn apply(self, db: &mut DB) -> (r: Frame)
        requires
            old(db).wf(),
        ensures
            final(db).wf(),
            exists|t: u64| #[trigger] mget_applied(self, old(db)@, final(db)@, r@, t),
    {
        self.apply_at(db, now_ms())
    }
}

/// What reading a `LPUSH` request gives.
#[verifier::opaque]
pub open spec fn lpush_parsed(fs: Seq<FrameView>, r: Result<LPush, RedisErr>) -> bool {
    match word_arg(fs, 0, "LPUSH"@) {
        Err(e) => r == Err::<LPush, RedisErr>(e),
        Ok(_) => match string_arg(fs, 1) {
            Err(e) => r == Err::<LPush, RedisErr>(e),
            Ok(k) => match bytes_from(fs, 2) {
                Err(e) => r == Err::<LPush, RedisErr>(e),
                Ok(vs) => if vs.len() == 0 {
                    r == Err::<LPush, RedisErr>(RedisErr::WrongNumberOfArguments)
                } else {
                    r matches Ok(c) && c.key@ == k && byte_strings(c.values@) == vs
                },
            },
        },
    }
}

/// What `LPush` does at time `now`: the keyspace before and after, and the reply.
#[verifier::opaque]
pub open spec fn lpush_applied(
    c: LPush,
    before: Map<Seq<char>, EntryView>,
    after: Map<Seq<char>, EntryView>,
    reply: FrameView,
    now: u64,
) -> bool {
    &&& (after, reply) == lpush_effect(before, c.key@, byte_strings(c.values@), now)
}

/// `LPUSH key value [value ...]`
pub struct LPush {
    pub key: String,
    pub values: Vec<Vec<u8>>,
}

impl LPush {
    pub fn new(key: String, values: Vec<Vec<u8>>) -> (r: Self)
        ensures
            r.key == key,
            r.values == values,
    {
        Self { key, values }
    }

    pub fn key(&self) -> (r: &String)
        ensures
            r == &self.key,
    {
        &self.key
    }

    pub fn value(&self) -> (r: &Vec<Vec<u8>>)
        ensures
            r == &self.values,
    {
        &self.values
    }

    pub fn from_frames(frames: Vec<Frame>) -> (r: Result<Self, RedisErr>)
        ensures
            lpush_parsed(views(frames@), r),
    {
        proof {
            reveal(lpush_parsed);
        }
        check_cmd(&frames, "LPUSH")?;
        let key = next_string(&frames, 1)?;
        let values = read_bytes_list(&frames, 2)?;
        if values.len() == 0 {
            return Err(RedisErr::WrongNumberOfArguments);
        }
        Ok(Self::new(key, values))
    }

    /// Pushes the values at the head, one by one; replies with the new length.
    pub fn apply_at(self, db: &mut DB, now: u64) -> (r: Frame)
        requires
            old(db).wf(),
        ensures
            final(db).wf(),
            lpush_applied(self, old(db)@, final(db)@, r@, now),
    {
        proof {
            reveal(lpush_applied);
        }
        let ghost vs = byte_strings(self.values@);
        let _given = self.values.len();
        match db.lpush(self.key.as_str(), self.values, now) {
            Ok(n) => count_frame(n),
            Err(_) => wrong_type_frame(),
        }
    }

    /// Applies the command at the current time.
    pub fn apply(self, db: &mut DB) -> (r: Frame)
        requires
            old(db).wf(),
        ensures
            final(db).wf(),
            exists|t: u64| #[trigger] lpush_applied(self, old(db)@, final(db)@, r@, t),
    {
        self.apply_at(db, now_ms())
    }
}


/// What reading a `LRANGE` request gives.
#[verifier::opaque]
pub open spec fn lrange_parsed(fs: Seq<FrameView>, r: Result<LRange, RedisErr>) -> bool {
    match word_arg(fs, 0, "LRANGE"@) {
        Err(e) => r == Err::<LRange, RedisErr>(e),
        Ok(_) => match string_arg(fs, 1) {
            Err(e) => r == Err::<LRange, RedisErr>(e),
            Ok(k) => match integer_arg(fs, 2) {
                Err(e) => r == Err::<LRange, RedisErr>(e),
                Ok(a) => match integer_arg(fs, 3) {
                    Err(e) => r == Err::<LRange, RedisErr>(e),
                    Ok(b) => r matches Ok(c) && c.key@ == k && c.start == a && c.stop
                        == b,
                },
            },
        },
    }
}

/// What `LRange` does at time `now`: the keyspace before and after, and the reply.
#[verifier::opaque]
pub open spec fn lrange_applied(
    c: LRange,
    before: Map<Seq<char>, EntryView>,
    after: Map<Seq<char>, EntryView>,
    reply: FrameView,
    now: u64,
) -> bool {
    &&& (after, reply) == lrange_effect(before, c.key@, c.start as int, c.stop as int, now)
}

/// `LRANGE key start stop`
pub struct LRange {
    pub key: String,
    pub start: i64,
    pub stop: i64,
}

impl LRange {
    pub fn new(key: String, start: i64, stop: i64) -> (r: Self)
        ensures
            r.key == key,
            r.start == start,
            r.stop == stop,
    {
        Self { key, start, stop }
    }

    pub fn key(&self) -> (r: &String)
        ensures
            r == &self.key,
    {
        &self.key
    }

    pub fn start(&self) -> (r: i64)
        ensures
            r == self.start,
    {
        self.start
    }

    pub fn stop(&self) -> (r: i64)
        ensures
            r == self.stop,
    {
        self.stop
    }

    pub fn from_frames(frames: Vec<Frame>) -> (r: Result<Self, RedisErr>)
        ensures
            lrange_parsed(views(frames@), r),
    {
        proof {
            reveal(lrange_parsed);
        }
        check_cmd(&frames, "LRANGE")?;
        let key = next_string(&frames, 1)?;
        let start = next_integer(&frames, 2)?;
        let stop = next_integer(&frames, 3)?;
        Ok(Self::new(key, start, stop))
    }

    /// Replies with the elements in the range as bulk strings.
    pub fn apply_at(self, db: &mut DB, now: u64) -> (r: Frame)
        requires
            old(db).wf(),
        ensures
            final(db).wf(),
            lrange_applied(self, old(db)@, final(db)@, r@, now),
    {
        proof {
            reveal(lrange_applied);
        }
        match db.lrange(self.key.as_str(), self.start, self.stop, now) {
            Ok(values) => {
                let ghost vs = values@;
                let r = bulk_array(values);
                proof {
                    if vs.len() == 0 {
                        assert(byte_strings(vs).map_values(|b: Seq<u8>| FrameView::Bulk(b)) =~= Seq::<
                            FrameView,
                        >::empty());
                    }
                }
                r
            },
            Err(_) => wrong_type_frame(),
        }
    }

    /// Applies the command at the current time.
    pub fn apply(self, db: &mut DB) -> (r: Frame)
        requires
            old(db).wf(),
        ensures
            final(db).wf(),
            exists|t: u64| #[trigger] lrange_applied(self, old(db)@, final(db)@, r@, t),
    {
        self.apply_at(db, now_ms())
    }
}

/// An array of bulk strings.
pub fn bulk_array(values: Vec<Vec<u8>>) -> (r: Frame)
    ensures
        r@ == FrameView::Array(byte_strings(values@).map_values(|b: Seq<u8>| FrameView::Bulk(b))),
{
    let mut values = values;
    let ghost all = byte_strings(values@);
    let mut out: Vec<Frame> = Vec::new();
    let mut rest: Vec<Vec<u8>> = Vec::new();
    // take the values from the back, then put the frames in order
    while values.len() > 0
        invariant
            byte_strings(values@) + byte_strings(rest@).reverse() == all,
            out@.len() == 0,
        decreases values@.len(),
    {
        let ghost before = rest@;
        let ghost vb = values@;
        let b = values.pop().unwrap();
        rest.push(b);
        proof {
            assert(vb =~= values@.push(b));
            assert(byte_strings(vb) =~= byte_strings(values@).push(b@));
            assert(byte_strings(rest@) =~= byte_strings(before).push(b@));
            assert(byte_strings(rest@).reverse() =~= seq![b@] + byte_strings(before).reverse());
            assert(byte_strings(values@) + byte_strings(rest@).reverse() =~= byte_strings(vb)
                + byte_strings(before).reverse());
        }
    }
    proof {
        assert(byte_strings(values@) =~= Seq::<Seq<u8>>::empty());
        assert(byte_strings(rest@).reverse() =~= all);
    }
    let ghost rv = rest@;
    while rest.len() > 0
        invariant
            views(out@) + byte_strings(rest@).reverse().map_values(|b: Seq<u8>| FrameView::Bulk(b))
                == all.map_values(|b: Seq<u8>| FrameView::Bulk(b)),
        decreases rest@.len(),
    {
        let ghost before = out@;
        let ghost rb = rest@;
        let b = rest.pop().unwrap();
        let ghost bv = b@;
        out.push(Frame::BulkString(b));
        proof {
            assert(rb =~= rest@.push(b));
            assert(byte_strings(rb) =~= byte_strings(rest@).push(bv));
            assert(byte_strings(rb).reverse() =~= seq![bv] + byte_strings(rest@).reverse());
            assert(views(out@) =~= views(before).push(FrameView::Bulk(bv)));
            assert(byte_strings(rb).reverse().map_values(|b: Seq<u8>| FrameView::Bulk(b)) =~= seq![
                FrameView::Bulk(bv)
            ] + byte_strings(rest@).reverse().map_values(|b: Seq<u8>| FrameView::Bulk(b)));
            assert(views(out@) + byte_strings(rest@).reverse().map_values(
                |b: Seq<u8>| FrameView::Bulk(b),
            ) =~= views(before) + byte_strings(rb).reverse().map_values(
                |b: Seq<u8>| FrameView::Bulk(b),
            ));
        }
    }
    proof {
        assert(byte_strings(rest@).reverse().map_values(|b: Seq<u8>| FrameView::Bulk(b)) =~= Seq::<
            FrameView,
        >::empty());
        assert(views(out@) =~= all.map_values(|b: Seq<u8>| FrameView::Bulk(b)));
    }
    let r = Frame::Array(out);
    proof {
        crate::frame::lemma_array_view(r);
    }
    r
}

/// What reading a `HSET` request gives.
#[verifier::opaque]
pub open spec fn hset_parsed(fs: Seq<FrameView>, r: Result<HSet, RedisErr>) -> bool {
    match word_arg(fs, 0, "HSET"@) {
        Err(e) => r == Err::<HSet, RedisErr>(e),
        Ok(_) => match string_arg(fs, 1) {
            Err(e) => r == Err::<HSet, RedisErr>(e),
            Ok(k) => match pairs_from(fs, 2) {
                Err(e) => r == Err::<HSet, RedisErr>(e),
                Ok(ps) => if ps.len() == 0 {
                    r == Err::<HSet, RedisErr>(RedisErr::WrongNumberOfArguments)
                } else {
                    r matches Ok(c) && c.key@ == k && field_pairs(c.field_values@) == ps
                },
            },
        },
    }
}

/// What `HSet` does at time `now`: the keyspace before and after, and the reply.
#[verifier::opaque]
pub open spec fn hset_applied(
    c: HSet,
    before: Map<Seq<char>, EntryView>,
    after: Map<Seq<char>, EntryView>,
    reply: FrameView,
    now: u64,
) -> bool {
    &&& ({
        let m = live(before, c.key@, now);
        let ps = field_pairs(c.field_values@);
        match m.get(c.key@) {
            None => reply == FrameView::Integer(count(ps.len() as int)) && after
                == m.insert(
                c.key@,
                EntryView {
                    value: ValueView::Hash(insert_fields(Map::empty(), ps)),
                    expire_at: None,
                    touch_at: now,
                },
            ),
            Some(e) => match e.value {
                ValueView::Hash(h) => reply == FrameView::Integer(count(ps.len() as int))
                    && after == m.insert(
                    c.key@,
                    EntryView { value: ValueView::Hash(insert_fields(h, ps)), touch_at: now, ..e },
                ),
                _ => reply == wrong_type_reply() && after == m,
            },
        }
    })
}

/// `HSET key field value [field value ...]`
pub struct HSet {
    pub key: String,
    pub field_values: Vec<(String, Vec<u8>)>,
}

/// The field/value pairs of the arguments from `i` on.
pub open spec fn pairs_from(fs: Seq<FrameView>, i: int) -> Result<
    Seq<(Seq<char>, Seq<u8>)>,
    RedisErr,
>
    decreases fs.len() - i,
{
    if i < 0 || i >= fs.len() {
        Ok(Seq::empty())
    } else {
        match string_arg(fs, i) {
            Err(e) => Err(e),
            Ok(f) => match bytes_arg(fs, i + 1) {
                Err(e) => Err(e),
                Ok(v) => match pairs_from(fs, i + 2) {
                    Err(e) => Err(e),
                    Ok(rest) => Ok(seq![(f, v)] + rest),
                },
            },
        }
    }
}

impl HSet {
    pub fn new(key: String, field_values: Vec<(String, Vec<u8>)>) -> (r: Self)
        ensures
            r.key == key,
            r.field_values == field_values,
    {
        Self { key, field_values }
    }

    #[verifier::loop_isolation(false)]
    pub fn from_frames(frames: Vec<Frame>) -> (r: Result<Self, RedisErr>)
        ensures
            hset_parsed(views(frames@), r),
    {
        proof {
            reveal(hset_parsed);
        }
        check_cmd(&frames, "HSET")?;
        let key = next_string(&frames, 1)?;
        let ghost fs = views(frames@);
        let mut out: Vec<(String, Vec<u8>)> = Vec::new();
        let mut i: usize = 2;
        while i < frames.len()
            invariant
                2 <= i,
                fs == views(frames@),
                word_arg(fs, 0, "HSET"@) is Ok,
                string_arg(fs, 1) matches Ok(k) && k == key@,
                pairs_from(fs, 2) == (match pairs_from(fs, i as int) {
                    Err(e) => Err(e),
                    Ok(rest) => Ok(field_pairs(out@) + rest),
                }),
            decreases frames@.len() - i,
        {
            let ghost before = out@;
            let f = next_string(&frames, i)?;
            let v = next_bytes(&frames, i + 1)?;
            let ghost pv = (f@, v@);
            out.push((f, v));
            proof {
                assert(field_pairs(out@) =~= field_pairs(before).push(pv));
                match pairs_from(fs, i + 2) {
                    Ok(rest) => {
                        assert(field_pairs(before) + (seq![pv] + rest) =~= field_pairs(out@) + rest);
                    },
                    Err(_) => {},
                }
            }
            i = i + 2;
        }
        proof {
            assert(pairs_from(fs, i as int) == Ok::<Seq<(Seq<char>, Seq<u8>)>, RedisErr>(Seq::empty()));
            assert(field_pairs(out@) + Seq::<(Seq<char>, Seq<u8>)>::empty() =~= field_pairs(out@));
        }
        if out.len() == 0 {
            return Err(RedisErr::WrongNumberOfArguments);
        }
        Ok(Self::new(key, out))
    }

    /// Sets the fields; replies with the number of pairs given.
    pub fn apply_at(self, db: &mut DB, now: u64) -> (r: Frame)
        requires
            old(db).wf(),
        ensures
            final(db).wf(),
            hset_applied(self, old(db)@, final(db)@, r@, now),
    {
        proof {
            reveal(hset_applied);
        }
        let _given = self.field_values.len();
        match db.hset(self.key, self.field_values, now) {
            Ok(n) => count_frame(n),
            Err(_) => wrong_type_frame(),
        }
    }

    /// Applies the command at the current time.
    pub fn apply(self, db: &mut DB) -> (r: Frame)
        requires
            old(db).wf(),
        ensures
            final(db).wf(),
            exists|t: u64| #[trigger] hset_applied(self, old(db)@, final(db)@, r@, t),
    {
        self.apply_at(db, now_ms())
    }
}

/// What reading a `HGET` request gives.
#[verifier::opaque]
pub open spec fn hget_parsed(fs: Seq<FrameView>, r: Result<HGet, RedisErr>) -> bool {
    match word_arg(fs, 0, "HGET"@) {
        Err(e) => r == Err::<HGet, RedisErr>(e),
        Ok(_) => match string_arg(fs, 1) {
            Err(e) => r == Err::<HGet, RedisErr>(e),
            Ok(k) => match string_arg(fs, 2) {
                Err(e) => r == Err::<HGet, RedisErr>(e),
                Ok(f) => r matches Ok(c) && c.key@ == k && c.field@ == f,
            },
        },
    }
}

/// What `HGet` does at time `now`: the keyspace before and after, and the reply.
#[verifier::opaque]
pub open spec fn hget_applied(
    c: HGet,
    before: Map<Seq<char>, EntryView>,
    after: Map<Seq<char>, EntryView>,
    reply: FrameView,
    now: u64,
) -> bool {
    &&& after == seen(before, c.key@, now)
    &&& reply == (match live(before, c.key@, now).get(c.key@) {
        None => FrameView::Nil,
        Some(e) => match e.value {
            ValueView::Hash(h) => match h.get(c.field@) {
                None => FrameView::Nil,
                Some(b) => FrameView::Bulk(b),
            },
            _ => wrong_type_reply(),
        },
    })
}

/// `HGET key field`
pub struct HGet {
    pub key: String,
    pub field: String,
}

impl HGet {
    pub fn new(key: String, field: String) -> (r: Self)
        ensures
            r.key == key,
            r.field == field,
    {
        Self { key, field }
    }

    pub fn from_frames(frames: Vec<Frame>) -> (r: Result<Self, RedisErr>)
        ensures
            hget_parsed(views(frames@), r),
    {
        proof {
            reveal(hget_parsed);
        }
        check_cmd(&frames, "HGET")?;
        let key = next_string(&frames, 1)?;
        let field = next_string(&frames, 2)?;
        Ok(Self::new(key, field))
    }

    /// Replies with the field's value, or nil when the key or the field is absent.
    pub fn apply_at(self, db: &mut DB, now: u64) -> (r: Frame)
        requires
            old(db).wf(),
        ensures
            final(db).wf(),
            hget_applied(self, old(db)@, final(db)@, r@, now),
    {
        proof {
            reveal(hget_applied);
        }
        match db.hget(self.key.as_str(), self.field.as_str(), now) {
            Ok(Some(v)) => Frame::BulkString(v),
            Ok(None) => Frame::Nil,
            Err(RedisErr::KeyNotFound) => Frame::Nil,
            Err(_) => wrong_type_frame(),
        }
    }

    /// Applies the command at the current time.
    pub fn apply(self, db: &mut DB) -> (r: Frame)
        requires
            old(db).wf(),
        ensures
            final(db).wf(),
            exists|t: u64| #[trigger] hget_applied(self, old(db)@, final(db)@, r@, t),
    {
        self.apply_at(db, now_ms())
    }
}

/// What reading a `ZCARD` request gives.
#[verifier::opaque]
pub open spec fn zcard_parsed(fs: Seq<FrameView>, r: Result<ZCard, RedisErr>) -> bool {
    if fs.len() != 2 {
        r == Err::<ZCard, RedisErr>(RedisErr::WrongNumberOfArguments)
    } else {
        match word_arg(fs, 0, "ZCARD"@) {
            Err(e) => r == Err::<ZCard, RedisErr>(e),
            Ok(_) => match string_arg(fs, 1) {
                Err(e) => r == Err::<ZCard, RedisErr>(e),
                Ok(k) => r matches Ok(c) && c.key@ == k,
            },
        }
    }
}

/// What `ZCard` does at time `now`: the keyspace before and after, and the reply.
#[verifier::opaque]
pub open spec fn zcard_applied(
    c: ZCard,
    before: Map<Seq<char>, EntryView>,
    after: Map<Seq<char>, EntryView>,
    reply: FrameView,
    now: u64,
) -> bool {
    &&& after == seen(before, c.key@, now)
    &&& reply == (match live(before, c.key@, now).get(c.key@) {
        None => FrameView::Integer(0),
        Some(e) => match e.value {
            ValueView::ZSet(z) => FrameView::Integer(count(z.len() as int)),
            _ => wrong_type_reply(),
        },
    })
}

/// `ZCARD key`
pub struct ZCard {
    pub key: String,
}

impl ZCard {
    pub fn new(key: String) -> (r: Self)
        ensures
            r.key == key,
    {
        Self { key }
    }

    pub fn from_frames(frames: Vec<Frame>) -> (r: Result<Self, RedisErr>)
        ensures
            zcard_parsed(views(frames@), r),
    {
        proof {
            reveal(zcard_parsed);
        }
        if frames.len() != 2 {
            return Err(RedisErr::WrongNumberOfArguments);
        }
        check_cmd(&frames, "ZCARD")?;
        let key = next_string(&frames, 1)?;
        Ok(Self::new(key))
    }

    /// Replies with the number of members; 0 for an absent key.
    pub fn apply_at(self, db: &mut DB, now: u64) -> (r: Frame)
        requires
            old(db).wf(),
        ensures
            final(db).wf(),
            zcard_applied(self, old(db)@, final(db)@, r@, now),
    {
        proof {
            reveal(zcard_applied);
        }
        match db.zcard(self.key.as_str(), now) {
            Ok(n) => count_frame(n),
            Err(RedisErr::KeyNotFound) => Frame::Integer(0),
            Err(_) => wrong_type_frame(),
        }
    }

    /// Applies the command at the current time.
    pub fn apply(self, db: &mut DB) -> (r: Frame)
        requires
            old(db).wf(),
        ensures
            final(db).wf(),
            exists|t: u64| #[trigger] zcard_applied(self, old(db)@, final(db)@, r@, t),
    {
        self.apply_at(db, now_ms())
    }
}

/// What reading a `ZREM` request gives.
#[verifier::opaque]
pub open spec fn zrem_parsed(fs: Seq<FrameView>, r: Result<ZRem, RedisErr>) -> bool {
    if fs.len() < 3 {
        r == Err::<ZRem, RedisErr>(RedisErr::WrongNumberOfArguments)
    } else {
        match word_arg(fs, 0, "ZREM"@) {
            Err(e) => r == Err::<ZRem, RedisErr>(e),
            Ok(_) => match string_arg(fs, 1) {
                Err(e) => r == Err::<ZRem, RedisErr>(e),
                Ok(k) => match bytes_from(fs, 2) {
                    Err(e) => r == Err::<ZRem, RedisErr>(e),
                    Ok(ms) => r matches Ok(c) && c.key@ == k && byte_strings(c.members@)
                        == ms,
                },
            },
        }
    }
}

/// What `ZRem` does at time `now`: the keyspace before and after, and the reply.
#[verifier::opaque]
pub open spec fn zrem_applied(
    c: ZRem,
    before: Map<Seq<char>, EntryView>,
    after: Map<Seq<char>, EntryView>,
    reply: FrameView,
    now: u64,
) -> bool {
    &&& ({
        let m = live(before, c.key@, now);
        match m.get(c.key@) {
            None => reply == FrameView::Integer(0) && after == m,
            Some(e) => match e.value {
                ValueView::ZSet(z0) => {
                    let (z, n) = zrem_all(z0, byte_strings(c.members@));
                    reply == FrameView::Integer(count(n as int)) && after == m.insert(
                        c.key@,
                        EntryView { value: ValueView::ZSet(z), touch_at: now, ..e },
                    )
                },
                _ => reply == wrong_type_reply() && after == m,
            },
        }
    })
}

/// `ZREM key member [member ...]`
pub struct ZRem {
    pub key: String,
    pub members: Vec<Vec<u8>>,
}

impl ZRem {
    pub fn new(key: String, members: Vec<Vec<u8>>) -> (r: Self)
        ensures
            r.key == key,
            r.members == members,
    {
        Self { key, members }
    }

    pub fn from_frames(frames: Vec<Frame>) -> (r: Result<Self, RedisErr>)
        ensures
            zrem_parsed(views(frames@), r),
    {
        proof {
            reveal(zrem_parsed);
        }
        if frames.len() < 3 {
            return Err(RedisErr::WrongNumberOfArguments);
        }
        check_cmd(&frames, "ZREM")?;
        let key = next_string(&frames, 1)?;
        let members = read_bytes_list(&frames, 2)?;
        Ok(Self::new(key, members))
    }

    /// Removes the members; replies with how many were there, 0 for an absent key.
    pub fn apply_at(self, db: &mut DB, now: u64) -> (r: Frame)
        requires
            old(db).wf(),
        ensures
            final(db).wf(),
            zrem_applied(self, old(db)@, final(db)@, r@, now),
    {
        proof {
            reveal(zrem_applied);
        }
        let ghost ms = byte_strings(self.members@);
        proof {
            lemma_zrem_count(live(db@, self.key@, now), ms);
        }
        let _given = self.members.len();
        match db.zrem(self.key.as_str(), self.members, now) {
            Ok(n) => count_frame(n),
            Err(RedisErr::KeyNotFound) => Frame::Integer(0),
            Err(_) => wrong_type_frame(),
        }
    }

    /// Applies the command at the current time.
    pub fn apply(self, db: &mut DB) -> (r: Frame)
        requires
            old(db).wf(),
        ensures
            final(db).wf(),
            exists|t: u64| #[trigger] zrem_applied(self, old(db)@, final(db)@, r@, t),
    {
        self.apply_at(db, now_ms())
    }
}

/// `ZREM` never counts more members than it was given.
proof fn lemma_zrem_count(m: Map<Seq<char>, EntryView>, ms: Seq<Seq<u8>>)
    ensures
        forall|z: Map<Seq<u8>, int>| #[trigger] zrem_all(z, ms).1 <= ms.len(),
    decreases ms.len(),
{
    if ms.len() > 0 {
        lemma_zrem_count(m, ms.drop_last());
        assert forall|z: Map<Seq<u8>, int>| #[trigger] zrem_all(z, ms).1 <= ms.len() by {
            assert(zrem_all(z, ms.drop_last()).1 <= ms.drop_last().len());
        }
    }
}

/// What reading a `BF.ADD` request gives.
#[verifier::opaque]
pub open spec fn bf_add_parsed(fs: Seq<FrameView>, r: Result<BFAdd, RedisErr>) -> bool {
    match word_arg(fs, 0, "BF.ADD"@) {
        Err(e) => r == Err::<BFAdd, RedisErr>(e),
        Ok(_) => match string_arg(fs, 1) {
            Err(e) => r == Err::<BFAdd, RedisErr>(e),
            Ok(k) => match string_arg(fs, 2) {
                Err(e) => r == Err::<BFAdd, RedisErr>(e),
                Ok(v) => r matches Ok(c) && c.key@ == k && c.value@ == v,
            },
        },
    }
}

/// What `BFAdd` does at time `now`: the keyspace before and after, and the reply.
#[verifier::opaque]
pub open spec fn bf_add_applied(
    c: BFAdd,
    before: Map<Seq<char>, EntryView>,
    after: Map<Seq<char>, EntryView>,
    reply: FrameView,
    now: u64,
) -> bool {
    &&& ({
        let m = live(before, c.key@, now);
        match m.get(c.key@) {
            None => reply == FrameView::Integer(1) && after == m.insert(
                c.key@,
                EntryView {
                    value: ValueView::BloomFilter(Set::empty().insert(c.value@)),
                    expire_at: None,
                    touch_at: now,
                },
            ),
            Some(e) => match e.value {
                ValueView::BloomFilter(b) => reply == FrameView::Integer(1) && after
                    == m.insert(
                    c.key@,
                    EntryView { value: ValueView::BloomFilter(b.insert(c.value@)), touch_at: now, ..e },
                ),
                _ => reply == wrong_type_reply() && after == m,
            },
        }
    })
}

/// `BF.ADD key item`
pub struct BFAdd {
    pub key: String,
    pub value: String,
}

impl BFAdd {
    pub fn new(key: String, value: String) -> (r: Self)
        ensures
            r.key == key,
            r.value == value,
    {
        Self { key, value }
    }

    pub fn from_frames(frames: Vec<Frame>) -> (r: Result<Self, RedisErr>)
        ensures
            bf_add_parsed(views(frames@), r),
    {
        proof {
            reveal(bf_add_parsed);
        }
        check_cmd(&frames, "BF.ADD")?;
        let key = next_string(&frames, 1)?;
        let value = next_string(&frames, 2)?;
        Ok(Self::new(key, value))
    }

    /// Adds the item; replies 1.
    pub fn apply_at(self, db: &mut DB, now: u64) -> (r: Frame)
        requires
            old(db).wf(),
        ensures
            final(db).wf(),
            bf_add_applied(self, old(db)@, final(db)@, r@, now),
    {
        proof {
            reveal(bf_add_applied);
        }
        match db.bf_add(self.key, self.value, now) {
            Ok(()) => Frame::Integer(1),
            Err(_) => wrong_type_frame(),
        }
    }

    /// Applies the command at the current time.
    pub fn apply(self, db: &mut DB) -> (r: Frame)
        requires
            old(db).wf(),
        ensures
            final(db).wf(),
            exists|t: u64| #[trigger] bf_add_applied(self, old(db)@, final(db)@, r@, t),
    {
        self.apply_at(db, now_ms())
    }
}

/// What reading a `BF.EXISTS` request gives.
#[verifier::opaque]
pub open spec fn bf_exists_parsed(fs: Seq<FrameView>, r: Result<BFExists, RedisErr>) -> bool {
    match word_arg(fs, 0, "BF.EXISTS"@) {
        Err(e) => r == Err::<BFExists, RedisErr>(e),
        Ok(_) => match string_arg(fs, 1) {
            Err(e) => r == Err::<BFExists, RedisErr>(e),
            Ok(k) => match string_arg(fs, 2) {
                Err(e) => r == Err::<BFExists, RedisErr>(e),
                Ok(v) => r matches Ok(c) && c.key@ == k && c.value@ == v,
            },
        },
    }
}

/// What `BFExists` does at time `now`: the keyspace before and after, and the reply.
#[verifier::opaque]
pub open spec fn bf_exists_applied(
    c: BFExists,
    before: Map<Seq<char>, EntryView>,
    after: Map<Seq<char>, EntryView>,
    reply: FrameView,
    now: u64,
) -> bool {
    &&& after == seen(before, c.key@, now)
    &&& reply == (match live(before, c.key@, now).get(c.key@) {
        None => FrameView::Integer(0),
        Some(e) => match e.value {
            ValueView::BloomFilter(b) => FrameView::Integer(
                if b.contains(c.value@) {
                    1
                } else {
                    0
                },
            ),
            _ => wrong_type_reply(),
        },
    })
}

/// `BF.EXISTS key item`
pub struct BFExists {
    pub key: String,
    pub value: String,
}

impl BFExists {
    pub fn new(key: String, value: String) -> (r: Self)
        ensures
            r.key == key,
            r.value == value,
    {
        Self { key, value }
    }

    pub fn from_frames(frames: Vec<Frame>) -> (r: Result<Self, RedisErr>)
        ensures
            bf_exists_parsed(views(frames@), r),
    {
        proof {
            reveal(bf_exists_parsed);
        }
        check_cmd(&frames, "BF.EXISTS")?;
        let key = next_string(&frames, 1)?;
        let value = next_string(&frames, 2)?;
        Ok(Self::new(key, value))
    }

    /// Replies 1 when the filter holds the item, else 0.
    pub fn apply_at(self, db: &mut DB, now: u64) -> (r: Frame)
        requires
            old(db).wf(),
        ensures
            final(db).wf(),
            bf_exists_applied(self, old(db)@, final(db)@, r@, now),
    {
        proof {
            reveal(bf_exists_applied);
        }
        match db.bf_exists(self.key.as_str(), self.value.as_str(), now) {
            Ok(true) => Frame::Integer(1),
            Ok(false) => Frame::Integer(0),
            Err(_) => wrong_type_frame(),
        }
    }

    /// Applies the command at the current time.
    pub fn apply(self, db: &mut DB) -> (r: Frame)
        requires
            old(db).wf(),
        ensures
            final(db).wf(),
            exists|t: u64| #[trigger] bf_exists_applied(self, old(db)@, final(db)@, r@, t),
    {
        self.apply_at(db, now_ms())
    }
}


/// The options of `SET`. `ex` is a time to live in milliseconds, `exat` a
/// deadline in milliseconds since the Unix epoch.
#[derive(Clone, Copy)]
pub struct SetOptions {
    pub nx: bool,
    pub xx: bool,
    pub get: bool,
    pub keepttl: bool,
    pub ex: Option<u64>,
    pub exat: Option<u64>,
}

/// The largest count of seconds or milliseconds that an expiry option takes.
pub const MAX_EXPIRE: i64 = 1_000_000_000_000_000;

pub open spec fn is_option(w: Seq<char>, name: Seq<char>) -> bool {
    ascii_upper(encode_utf8(w)) == encode_utf8(name)
}

pub open spec fn check_set_options(o: SetOptions) -> Result<SetOptions, RedisErr> {
    if (o.nx && o.xx) || (o.ex is Some && o.exat is Some) || (o.keepttl && (o.ex is Some
        || o.exat is Some)) {
        Err(RedisErr::SyntaxError)
    } else {
        Ok(o)
    }
}

/// The options of `SET` from argument `i` on, read at time `now`.
pub open spec fn set_options(fs: Seq<FrameView>, i: int, o: SetOptions, now: u64) -> Result<
    SetOptions,
    RedisErr,
>
    decreases fs.len() - i,
{
    if i < 0 || i >= fs.len() {
        check_set_options(o)
    } else {
        match string_arg(fs, i) {
            Err(e) => Err(e),
            Ok(w) => if is_option(w, "NX"@) {
                set_options(fs, i + 1, SetOptions { nx: true, ..o }, now)
            } else if is_option(w, "XX"@) {
                set_options(fs, i + 1, SetOptions { xx: true, ..o }, now)
            } else if is_option(w, "GET"@) {
                set_options(fs, i + 1, SetOptions { get: true, ..o }, now)
            } else if is_option(w, "KEEPTTL"@) {
                set_options(fs, i + 1, SetOptions { keepttl: true, ..o }, now)
            } else if is_option(w, "EX"@) || is_option(w, "PX"@) || is_option(w, "EXAT"@)
                || is_option(w, "PXAT"@) {
                match integer_arg(fs, i + 1) {
                    Err(e) => Err(e),
                    Ok(n) => {
                        let unit: int = if is_option(w, "EX"@) || is_option(w, "EXAT"@) {
                            1000
                        } else {
                            1
                        };
                        if n <= 0 || n > MAX_EXPIRE {
                            Err(RedisErr::SyntaxError)
                        } else if is_option(w, "EX"@) || is_option(w, "PX"@) {
                            set_options(fs, i + 2, SetOptions { ex: Some((n * unit) as u64), ..o }, now)
                        } else if n * unit < now {
                            Err(RedisErr::SyntaxError)
                        } else {
                            set_options(
                                fs,
                                i + 2,
                                SetOptions { exat: Some((n * unit) as u64), ..o },
                                now,
                            )
                        }
                    },
                }
            } else {
                Err(RedisErr::SyntaxError)
            },
        }
    }
}

pub open spec fn no_options() -> SetOptions {
    SetOptions { nx: false, xx: false, get: false, keepttl: false, ex: None, exat: None }
}

/// A `SET` request read at time `now`: key, value and options.
pub open spec fn set_request(fs: Seq<FrameView>, now: u64) -> Result<
    (Seq<char>, Seq<u8>, SetOptions),
    RedisErr,
> {
    match word_arg(fs, 0, "SET"@) {
        Err(e) => Err(e),
        Ok(_) => match string_arg(fs, 1) {
            Err(e) => Err(e),
            Ok(k) => match bytes_arg(fs, 2) {
                Err(e) => Err(e),
                Ok(v) => match set_options(fs, 3, no_options(), now) {
                    Err(e) => Err(e),
                    Ok(o) => Ok((k, v, o)),
                },
            },
        },
    }
}

/// The deadline that `SET` gives at time `now`.
pub open spec fn set_deadline(o: SetOptions, now: u64) -> Option<u64> {
    match o.ex {
        Some(d) => Some(later(now, d as int)),
        None => o.exat,
    }
}

/// What reading a `SET` request at time `now` gives.
#[verifier::opaque]
pub open spec fn set_parsed(fs: Seq<FrameView>, now: u64, r: Result<SetCmd, RedisErr>) -> bool {
    match set_request(fs, now) {
        Err(e) => r == Err::<SetCmd, RedisErr>(e),
        Ok((k, v, o)) => r matches Ok(c) && c.key@ == k && c.value@ == v && c.options
            == o,
    }
}

/// What `SetCmd` does at time `now`: the keyspace before and after, and the reply.
#[verifier::opaque]
pub open spec fn set_applied(
    c: SetCmd,
    before: Map<Seq<char>, EntryView>,
    after: Map<Seq<char>, EntryView>,
    reply: FrameView,
    now: u64,
) -> bool {
    &&& (after, reply) == set_effect(before, c.key@, c.value@, c.options, now)
}

/// `SET key value [NX|XX] [GET] [EX s|PX ms|EXAT s|PXAT ms] [KEEPTTL]`
pub struct SetCmd {
    pub key: String,
    pub value: Vec<u8>,
    pub options: SetOptions,
}

impl SetCmd {
    pub fn new(key: String, value: Vec<u8>, options: SetOptions) -> (r: Self)
        ensures
            r.key == key,
            r.value == value,
            r.options == options,
    {
        Self { key, value, options }
    }

    pub fn key(&self) -> (r: &String)
        ensures
            r == &self.key,
    {
        &self.key
    }

    pub fn value(&self) -> (r: &Vec<u8>)
        ensures
            r == &self.value,
    {
        &self.value
    }

    /// Reads a `SET` request at time `now`; a deadline in the past is refused.
    #[verifier::loop_isolation(false)]
    pub fn from_frames_at(frames: Vec<Frame>, now: u64) -> (r: Result<Self, RedisErr>)
        ensures
            set_parsed(views(frames@), now, r),
    {
        proof {
            reveal(set_parsed);
        }
        let ghost fs = views(frames@);
        check_cmd(&frames, "SET")?;
        let key = next_string(&frames, 1)?;
        let value = next_bytes(&frames, 2)?;
        let mut o = SetOptions { nx: false, xx: false, get: false, keepttl: false, ex: None, exat: None };
        let mut i: usize = 3;
        while i < frames.len()
            invariant
                3 <= i,
                fs == views(frames@),
                set_request(fs, now) == (match set_options(fs, i as int, o, now) {
                    Err(e) => Err(e),
                    Ok(o2) => Ok((key@, value@, o2)),
                }),
            decreases frames@.len() - i,
        {
            let w = next_string(&frames, i)?;
            let ws = w.as_str();
            if is_word(ws, "NX") {
                o.nx = true;
                i = i + 1;
            } else if is_word(ws, "XX") {
                o.xx = true;
                i = i + 1;
            } else if is_word(ws, "GET") {
                o.get = true;
                i = i + 1;
            } else if is_word(ws, "KEEPTTL") {
                o.keepttl = true;
                i = i + 1;
            } else if is_word(ws, "EX") || is_word(ws, "PX") || is_word(ws, "EXAT") || is_word(ws, "PXAT") {
                let n = next_integer(&frames, i + 1)?;
                let seconds = is_word(ws, "EX") || is_word(ws, "EXAT");
                let unit: u64 = if seconds {
                    1000
                } else {
                    1
                };
                if n <= 0 || n > MAX_EXPIRE {
                    return Err(RedisErr::SyntaxError);
                }
                let ms: u64 = n as u64 * unit;
                if is_word(ws, "EX") || is_word(ws, "PX") {
                    o.ex = Some(ms);
                } else {
                    if ms < now {
                        return Err(RedisErr::SyntaxError);
                    }
                    o.exat = Some(ms);
                }
                i = i + 2;
            } else {
                return Err(RedisErr::SyntaxError);
            }
        }
        if (o.nx && o.xx) || (o.ex.is_some() && o.exat.is_some()) || (o.keepttl && (o.ex.is_some()
            || o.exat.is_some())) {
            return Err(RedisErr::SyntaxError);
        }
        Ok(Self::new(key, value, o))
    }

    /// Reads a `SET` request at the current time.
    pub fn from_frames(frames: Vec<Frame>) -> (r: Result<Self, RedisErr>)
        ensures
            exists|now: u64| #[trigger] set_parsed(views(frames@), now, r),
    {
        let now = now_ms();
        Self::from_frames_at(frames, now)
    }

    /// Writes the value as the options say. The reply is `+OK`, or with
    /// `GET` the earlier string (nil when there was none); nil when `NX` or
    /// `XX` stopped the write.
    pub fn apply_at(self, db: &mut DB, now: u64) -> (r: Frame)
        requires
            old(db).wf(),
        ensures
            final(db).wf(),
            set_applied(self, old(db)@, final(db)@, r@, now),
    {
        proof {
            reveal(set_applied);
        }
        let o = self.options;
        let deadline = match o.ex {
            Some(d) => Some(later_by(now, d as i128)),
            None => o.exat,
        };
        match db.set(self.key, self.value, o.nx, o.xx, o.get, o.keepttl, deadline, now) {
            Ok(Some(v)) => Frame::BulkString(v),
            Ok(None) => if o.get {
                Frame::Nil
            } else {
                ok_frame()
            },
            Err(RedisErr::NoAction) => Frame::Nil,
            Err(_) => wrong_type_frame(),
        }
    }

    /// Applies the command at the current time.
    pub fn apply(self, db: &mut DB) -> (r: Frame)
        requires
            old(db).wf(),
        ensures
            final(db).wf(),
            exists|t: u64| #[trigger] set_applied(self, old(db)@, final(db)@, r@, t),
    {
        self.apply_at(db, now_ms())
    }
}

/// What `MSET` does: each pair written in turn, with no deadline.
pub open spec fn mset_all(
    m: Map<Seq<char>, EntryView>,
    ps: Seq<(Seq<char>, Seq<u8>)>,
    now: u64,
) -> Map<Seq<char>, EntryView>
    decreases ps.len(),
{
    if ps.len() == 0 {
        m
    } else {
        let m1 = mset_all(m, ps.drop_last(), now);
        live(m1, ps.last().0, now).insert(
            ps.last().0,
            EntryView { value: ValueView::KV(ps.last().1), expire_at: None, touch_at: now },
        )
    }
}

/// What reading a `MSET` request gives.
#[verifier::opaque]
pub open spec fn mset_parsed(fs: Seq<FrameView>, r: Result<MSet, RedisErr>) -> bool {
    match word_arg(fs, 0, "MSET"@) {
        Err(e) => r == Err::<MSet, RedisErr>(e),
        Ok(_) => match pairs_from(fs, 1) {
            Err(e) => r == Err::<MSet, RedisErr>(e),
            Ok(ps) => if ps.len() == 0 {
                r == Err::<MSet, RedisErr>(RedisErr::WrongNumberOfArguments)
            } else {
                r matches Ok(c) && field_pairs(c.pairs@) == ps
            },
        },
    }
}

/// What `MSet` does at time `now`: the keyspace before and after, and the reply.
#[verifier::opaque]
pub open spec fn mset_applied(
    c: MSet,
    before: Map<Seq<char>, EntryView>,
    after: Map<Seq<char>, EntryView>,
    reply: FrameView,
    now: u64,
) -> bool {
    &&& after == mset_all(before, field_pairs(c.pairs@), now)
    &&& reply == ok_reply()
}

/// `MSET key value [key value ...]`
pub struct MSet {
    pub pairs: Vec<(String, Vec<u8>)>,
}

impl MSet {
    pub fn new(pairs: Vec<(String, Vec<u8>)>) -> (r: Self)
        ensures
            r.pairs == pairs,
    {
        Self { pairs }
    }

    #[verifier::loop_isolation(false)]
    pub fn from_frames(frames: Vec<Frame>) -> (r: Result<Self, RedisErr>)
        ensures
            mset_parsed(views(frames@), r),
    {
        proof {
            reveal(mset_parsed);
        }
        check_cmd(&frames, "MSET")?;
        let ghost fs = views(frames@);
        let mut out: Vec<(String, Vec<u8>)> = Vec::new();
        let mut i: usize = 1;
        while i < frames.len()
            invariant
                1 <= i,
                fs == views(frames@),
                word_arg(fs, 0, "MSET"@) is Ok,
                pairs_from(fs, 1) == (match pairs_from(fs, i as int) {
                    Err(e) => Err(e),
                    Ok(rest) => Ok(field_pairs(out@) + rest),
                }),
            decreases frames@.len() - i,
        {
            let ghost before = out@;
            let f = next_string(&frames, i)?;
            let v = next_bytes(&frames, i + 1)?;
            let ghost pv = (f@, v@);
            out.push((f, v));
            proof {
                assert(field_pairs(out@) =~= field_pairs(before).push(pv));
                match pairs_from(fs, i + 2) {
                    Ok(rest) => {
                        assert(field_pairs(before) + (seq![pv] + rest) =~= field_pairs(out@) + rest);
                    },
                    Err(_) => {},
                }
            }
            i = i + 2;
        }
        proof {
            assert(pairs_from(fs, i as int) == Ok::<Seq<(Seq<char>, Seq<u8>)>, RedisErr>(Seq::empty()));
            assert(field_pairs(out@) + Seq::<(Seq<char>, Seq<u8>)>::empty() =~= field_pairs(out@));
        }
        if out.len() == 0 {
            return Err(RedisErr::WrongNumberOfArguments);
        }
        Ok(Self::new(out))
    }

    /// Writes every pair in turn; replies `+OK`.
    pub fn apply_at(self, db: &mut DB, now: u64) -> (r: Frame)
        requires
            old(db).wf(),
        ensures
            final(db).wf(),
            mset_applied(self, old(db)@, final(db)@, r@, now),
    {
        proof {
            reveal(mset_applied);
        }
        let ghost m0 = db@;
        let ghost ps = field_pairs(self.pairs@);
        let _given = self.pairs.len();
        let mut pairs = self.pairs;
        let mut rest: Vec<(String, Vec<u8>)> = Vec::new();
        // reverse, so that popping gives the pairs in order
        while pairs.len() > 0
            invariant
                field_pairs(pairs@) + field_pairs(rest@).reverse() == ps,
            decreases pairs@.len(),
        {
            let ghost pb = pairs@;
            let ghost rb = rest@;
            let p = pairs.pop().unwrap();
            let ghost pv = (p.0@, p.1@);
            rest.push(p);
            proof {
                assert(pb =~= pairs@.push(p));
                assert(field_pairs(pb) =~= field_pairs(pairs@).push(pv));
                assert(field_pairs(rest@) =~= field_pairs(rb).push(pv));
                assert(field_pairs(rest@).reverse() =~= seq![pv] + field_pairs(rb).reverse());
                assert(field_pairs(pairs@) + field_pairs(rest@).reverse() =~= field_pairs(pb)
                    + field_pairs(rb).reverse());
            }
        }
        proof {
            assert(field_pairs(pairs@) =~= Seq::<(Seq<char>, Seq<u8>)>::empty());
            assert(field_pairs(rest@).reverse() =~= ps);
        }
        let mut done: usize = 0;
        while rest.len() > 0
            invariant
                db.wf(),
                ps.len() <= usize::MAX,
                done + rest@.len() == ps.len(),
                field_pairs(rest@).reverse() == ps.subrange(done as int, ps.len() as int),
                db@ == mset_all(m0, ps.subrange(0, done as int), now),
            decreases rest@.len(),
        {
            let ghost rb = rest@;
            let (k, v) = rest.pop().unwrap();
            let ghost kv = k@;
            let ghost vv = v@;
            proof {
                assert(rb =~= rest@.push((k, v)));
                assert(field_pairs(rb) =~= field_pairs(rest@).push((kv, vv)));
                assert(field_pairs(rb).reverse() =~= seq![(kv, vv)] + field_pairs(rest@).reverse());
                let t = ps.subrange(done as int, ps.len() as int);
                assert(t == seq![(kv, vv)] + field_pairs(rest@).reverse());
                assert(ps[done as int] == t[0]);
                assert(t.subrange(1, t.len() as int) =~= field_pairs(rest@).reverse());
                assert(ps.subrange(done + 1, ps.len() as int) =~= t.subrange(1, t.len() as int));
                assert(ps.subrange(0, done + 1).drop_last() =~= ps.subrange(0, done as int));
            }
            let _ = db.set(k, v, false, false, false, false, None, now);
            done = done + 1;
        }
        proof {
            assert(ps.subrange(0, ps.len() as int) =~= ps);
        }
        ok_frame()
    }

    /// Applies the command at the current time.
    pub fn apply(self, db: &mut DB) -> (r: Frame)
        requires
            old(db).wf(),
        ensures
            final(db).wf(),
            exists|t: u64| #[trigger] mset_applied(self, old(db)@, final(db)@, r@, t),
    {
        self.apply_at(db, now_ms())
    }
}


/// The options of `ZADD`.
#[derive(Clone, Copy)]
pub struct ZAddOptions {
    pub nx: bool,
    pub xx: bool,
    pub lt: bool,
    pub gt: bool,
    pub ch: bool,
    pub incr: bool,
}

/// Whether a frame is the word `name`, in any case.
pub open spec fn is_word_frame(f: FrameView, name: Seq<char>) -> bool {
    match f {
        FrameView::Simple(s) => ascii_upper(encode_utf8(s)) == encode_utf8(name),
        FrameView::Bulk(b) => ascii_upper(b) == encode_utf8(name),
        _ => false,
    }
}

/// The option words of `ZADD` from argument `i` on, and where the scores start.
pub open spec fn zadd_flags(fs: Seq<FrameView>, i: int, o: ZAddOptions) -> (ZAddOptions, int)
    decreases fs.len() - i,
{
    if i < 0 || i >= fs.len() {
        (o, i)
    } else if is_word_frame(fs[i], "NX"@) {
        zadd_flags(fs, i + 1, ZAddOptions { nx: true, ..o })
    } else if is_word_frame(fs[i], "XX"@) {
        zadd_flags(fs, i + 1, ZAddOptions { xx: true, ..o })
    } else if is_word_frame(fs[i], "LT"@) {
        zadd_flags(fs, i + 1, ZAddOptions { lt: true, ..o })
    } else if is_word_frame(fs[i], "GT"@) {
        zadd_flags(fs, i + 1, ZAddOptions { gt: true, ..o })
    } else if is_word_frame(fs[i], "CH"@) {
        zadd_flags(fs, i + 1, ZAddOptions { ch: true, ..o })
    } else if is_word_frame(fs[i], "INCR"@) {
        zadd_flags(fs, i + 1, ZAddOptions { incr: true, ..o })
    } else {
        (o, i)
    }
}

/// The score/member pairs from argument `i` on.
pub open spec fn zadd_pairs(fs: Seq<FrameView>, i: int) -> Result<Seq<(int, Seq<u8>)>, RedisErr>
    decreases fs.len() - i,
{
    if i < 0 || i >= fs.len() {
        Ok(Seq::empty())
    } else {
        match integer_arg(fs, i) {
            Err(e) => Err(e),
            Ok(n) => match bytes_arg(fs, i + 1) {
                Err(e) => Err(e),
                Ok(m) => match zadd_pairs(fs, i + 2) {
                    Err(e) => Err(e),
                    Ok(rest) => Ok(seq![(n as int, m)] + rest),
                },
            },
        }
    }
}

pub open spec fn no_zadd_options() -> ZAddOptions {
    ZAddOptions { nx: false, xx: false, lt: false, gt: false, ch: false, incr: false }
}

/// A `ZADD` request: key, options and score/member pairs.
pub open spec fn zadd_request(fs: Seq<FrameView>) -> Result<
    (Seq<char>, ZAddOptions, Seq<(int, Seq<u8>)>),
    RedisErr,
> {
    if fs.len() < 3 {
        Err(RedisErr::WrongNumberOfArguments)
    } else {
        match word_arg(fs, 0, "ZADD"@) {
            Err(e) => Err(e),
            Ok(_) => match string_arg(fs, 1) {
                Err(e) => Err(e),
                Ok(k) => {
                    let (o, p) = zadd_flags(fs, 2, no_zadd_options());
                    if (o.nx && o.xx) || (o.lt && o.gt) {
                        Err(RedisErr::SyntaxError)
                    } else if p >= fs.len() {
                        Err(RedisErr::WrongNumberOfArguments)
                    } else {
                        match zadd_pairs(fs, p) {
                            Err(e) => Err(e),
                            Ok(ps) => if o.incr && ps.len() != 1 {
                                Err(RedisErr::SyntaxError)
                            } else {
                                Ok((k, o, ps))
                            },
                        }
                    }
                },
            },
        }
    }
}

/// Whether frame `f` is the word `name`.
fn frame_is_word(f: &Frame, name: &str) -> (r: bool)
    ensures
        r == is_word_frame(f@, name@),
{
    match f {
        Frame::SimpleString(s) => upper_is(s.as_str().as_bytes(), name),
        Frame::BulkString(b) => upper_is(b.as_slice(), name),
        _ => false,
    }
}

/// What reading a `ZADD` request gives.
#[verifier::opaque]
pub open spec fn zadd_parsed(fs: Seq<FrameView>, r: Result<ZAdd, RedisErr>) -> bool {
    match zadd_request(fs) {
        Err(e) => r == Err::<ZAdd, RedisErr>(e),
        Ok((k, o, ps)) => r matches Ok(c) && c.key@ == k && c.options == o
            && scored_members(c.pairs@) == ps,
    }
}

/// What `ZAdd` does at time `now`: the keyspace before and after, and the reply.
#[verifier::opaque]
pub open spec fn zadd_applied(
    c: ZAdd,
    before: Map<Seq<char>, EntryView>,
    after: Map<Seq<char>, EntryView>,
    reply: FrameView,
    now: u64,
) -> bool {
    &&& ({
        let m = live(before, c.key@, now);
        let ps = scored_members(c.pairs@);
        let o = c.options;
        match m.get(c.key@) {
            None => {
                let (z, n) = zadd_all(Map::empty(), o.nx, o.xx, o.lt, o.gt, o.ch, o.incr, ps);
                reply == FrameView::Integer(count(n as int)) && after == (if z.len() == 0 {
                    m
                } else {
                    m.insert(
                        c.key@,
                        EntryView { value: ValueView::ZSet(z), expire_at: None, touch_at: now },
                    )
                })
            },
            Some(e) => match e.value {
                ValueView::ZSet(z0) => {
                    let (z, n) = zadd_all(z0, o.nx, o.xx, o.lt, o.gt, o.ch, o.incr, ps);
                    reply == FrameView::Integer(count(n as int)) && after == m.insert(
                        c.key@,
                        EntryView { value: ValueView::ZSet(z), touch_at: now, ..e },
                    )
                },
                _ => reply == wrong_type_reply() && after == m,
            },
        }
    })
}

/// `ZADD key [NX|XX] [LT|GT] [CH] [INCR] score member [score member ...]`
pub struct ZAdd {
    pub key: String,
    pub options: ZAddOptions,
    pub pairs: Vec<(i64, Vec<u8>)>,
}

impl ZAdd {
    pub fn new(key: String, options: ZAddOptions, pairs: Vec<(i64, Vec<u8>)>) -> (r: Self)
        ensures
            r.key == key,
            r.options == options,
            r.pairs == pairs,
    {
        Self { key, options, pairs }
    }

    #[verifier::loop_isolation(false)]
    pub fn from_frames(frames: Vec<Frame>) -> (r: Result<Self, RedisErr>)
        ensures
            zadd_parsed(views(frames@), r),
    {
        proof {
            reveal(zadd_parsed);
        }
        let ghost fs = views(frames@);
        if frames.len() < 3 {
            return Err(RedisErr::WrongNumberOfArguments);
        }
        check_cmd(&frames, "ZADD")?;
        let key = next_string(&frames, 1)?;
        let mut o = ZAddOptions { nx: false, xx: false, lt: false, gt: false, ch: false, incr: false };
        let mut i: usize = 2;
        let mut done = false;
        while !done && i < frames.len()
            invariant
                2 <= i <= frames@.len(),
                fs == views(frames@),
                fs.len() >= 3,
                word_arg(fs, 0, "ZADD"@) is Ok,
                string_arg(fs, 1) matches Ok(k) && k == key@,
                zadd_flags(fs, 2, no_zadd_options()) == zadd_flags(fs, i as int, o),
                done ==> zadd_flags(fs, i as int, o) == (o, i as int),
            decreases frames@.len() - i, if done { 0int } else { 1int },
        {
            let f = &frames[i];
            proof {
                assert(fs[i as int] == f@);
            }
            if frame_is_word(f, "NX") {
                o.nx = true;
                i = i + 1;
            } else if frame_is_word(f, "XX") {
                o.xx = true;
                i = i + 1;
            } else if frame_is_word(f, "LT") {
                o.lt = true;
                i = i + 1;
            } else if frame_is_word(f, "GT") {
                o.gt = true;
                i = i + 1;
            } else if frame_is_word(f, "CH") {
                o.ch = true;
                i = i + 1;
            } else if frame_is_word(f, "INCR") {
                o.incr = true;
                i = i + 1;
            } else {
                done = true;
            }
        }
        if (o.nx && o.xx) || (o.lt && o.gt) {
            return Err(RedisErr::SyntaxError);
        }
        if i >= frames.len() {
            return Err(RedisErr::WrongNumberOfArguments);
        }
        let ghost p = i as int;
        let ghost o0 = o;
        let mut pairs: Vec<(i64, Vec<u8>)> = Vec::new();
        while i < frames.len()
            invariant
                p <= i,
                fs == views(frames@),
                o == o0,
                fs.len() >= 3,
                p < fs.len(),
                word_arg(fs, 0, "ZADD"@) is Ok,
                string_arg(fs, 1) matches Ok(k) && k == key@,
                zadd_flags(fs, 2, no_zadd_options()) == (o, p),
                !((o.nx && o.xx) || (o.lt && o.gt)),
                zadd_pairs(fs, p) == (match zadd_pairs(fs, i as int) {
                    Err(e) => Err(e),
                    Ok(rest) => Ok(scored_members(pairs@) + rest),
                }),
            decreases frames@.len() - i,
        {
            let ghost before = pairs@;
            let n = next_integer(&frames, i)?;
            let m = next_bytes(&frames, i + 1)?;
            let ghost pv = (n as int, m@);
            pairs.push((n, m));
            proof {
                assert(scored_members(pairs@) =~= scored_members(before).push(pv));
                match zadd_pairs(fs, i + 2) {
                    Ok(rest) => {
                        assert(scored_members(before) + (seq![pv] + rest) =~= scored_members(pairs@)
                            + rest);
                    },
                    Err(_) => {},
                }
            }
            i = i + 2;
        }
        proof {
            assert(zadd_pairs(fs, i as int) == Ok::<Seq<(int, Seq<u8>)>, RedisErr>(Seq::empty()));
            assert(scored_members(pairs@) + Seq::<(int, Seq<u8>)>::empty() =~= scored_members(pairs@));
        }
        if o.incr && pairs.len() != 1 {
            return Err(RedisErr::SyntaxError);
        }
        Ok(Self::new(key, o, pairs))
    }

    /// Adds or updates the members; replies with the sum of the per-member counts.
    pub fn apply_at(self, db: &mut DB, now: u64) -> (r: Frame)
        requires
            old(db).wf(),
        ensures
            final(db).wf(),
            zadd_applied(self, old(db)@, final(db)@, r@, now),
    {
        proof {
            reveal(zadd_applied);
        }
        let o = self.options;
        let ghost ps = scored_members(self.pairs@);
        proof {
            lemma_zadd_count(o, ps);
        }
        let _given = self.pairs.len();
        match db.zadd(self.key.as_str(), o.nx, o.xx, o.lt, o.gt, o.ch, o.incr, self.pairs, now) {
            Ok(n) => count_frame(n),
            Err(_) => wrong_type_frame(),
        }
    }

    /// Applies the command at the current time.
    pub fn apply(self, db: &mut DB) -> (r: Frame)
        requires
            old(db).wf(),
        ensures
            final(db).wf(),
            exists|t: u64| #[trigger] zadd_applied(self, old(db)@, final(db)@, r@, t),
    {
        self.apply_at(db, now_ms())
    }
}

/// `ZADD` never counts more members than it was given.
proof fn lemma_zadd_count(o: ZAddOptions, ps: Seq<(int, Seq<u8>)>)
    ensures
        forall|z: Map<Seq<u8>, int>| #[trigger] zadd_all(z, o.nx, o.xx, o.lt, o.gt, o.ch, o.incr, ps).1 <= ps.len(),
    decreases ps.len(),
{
    if ps.len() > 0 {
        lemma_zadd_count(o, ps.drop_last());
        assert forall|z: Map<Seq<u8>, int>| #[trigger] zadd_all(z, o.nx, o.xx, o.lt, o.gt, o.ch, o.incr, ps).1 <= ps.len() by {
            assert(zadd_all(z, o.nx, o.xx, o.lt, o.gt, o.ch, o.incr, ps.drop_last()).1 <= ps.drop_last().len());
        }
    }
}

pub enum ObjectOption {
    Encoding,
    Idletime,
    Refcount,
    Frequency,
}

/// The option of `OBJECT` that a word names.
pub open spec fn object_option(w: Seq<char>) -> Option<ObjectOption> {
    if is_option(w, "ENCODING"@) {
        Some(ObjectOption::Encoding)
    } else if is_option(w, "IDLETIME"@) {
        Some(ObjectOption::Idletime)
    } else if is_option(w, "REFCOUNT"@) {
        Some(ObjectOption::Refcount)
    } else if is_option(w, "FREQUENCY"@) {
        Some(ObjectOption::Frequency)
    } else {
        None
    }
}

/// What reading a `OBJECT` request gives.
#[verifier::opaque]
pub open spec fn object_parsed(fs: Seq<FrameView>, r: Result<Object, RedisErr>) -> bool {
    if fs.len() != 3 {
        r == Err::<Object, RedisErr>(RedisErr::WrongNumberOfArguments)
    } else {
        match word_arg(fs, 0, "OBJECT"@) {
            Err(e) => r == Err::<Object, RedisErr>(e),
            Ok(_) => match string_arg(fs, 1) {
                Err(e) => r == Err::<Object, RedisErr>(e),
                Ok(w) => match object_option(w) {
                    None => r == Err::<Object, RedisErr>(RedisErr::UnknownCommand),
                    Some(opt) => match string_arg(fs, 2) {
                        Err(e) => r == Err::<Object, RedisErr>(e),
                        Ok(k) => r matches Ok(c) && c.key@ == k && c.option == opt,
                    },
                },
            },
        }
    }
}

/// What `Object` does at time `now`: the keyspace before and after, and the reply.
#[verifier::opaque]
pub open spec fn object_applied(
    c: Object,
    before: Map<Seq<char>, EntryView>,
    after: Map<Seq<char>, EntryView>,
    reply: FrameView,
    now: u64,
) -> bool {
    &&& match c.option {
        ObjectOption::Encoding => reply == FrameView::Simple("raw"@) && after == before,
        ObjectOption::Idletime => after == live(before, c.key@, now) && reply == (
        match live(before, c.key@, now).get(c.key@) {
            None => FrameView::Nil,
            Some(e) => FrameView::Integer(
                if now >= e.touch_at {
                    (now - e.touch_at) / 1000
                } else {
                    0
                },
            ),
        }),
        _ => reply == FrameView::Integer(0) && after == before,
    }
}

/// `OBJECT ENCODING|IDLETIME|REFCOUNT|FREQUENCY key`
pub struct Object {
    pub key: String,
    pub option: ObjectOption,
}

impl Object {
    pub fn new(key: String, option: ObjectOption) -> (r: Self)
        ensures
            r.key == key,
            r.option == option,
    {
        Self { key, option }
    }

    pub fn from_frames(frames: Vec<Frame>) -> (r: Result<Self, RedisErr>)
        ensures
            object_parsed(views(frames@), r),
    {
        proof {
            reveal(object_parsed);
        }
        if frames.len() != 3 {
            return Err(RedisErr::WrongNumberOfArguments);
        }
        check_cmd(&frames, "OBJECT")?;
        let w = next_string(&frames, 1)?;
        let ws = w.as_str();
        let option = if is_word(ws, "ENCODING") {
            ObjectOption::Encoding
        } else if is_word(ws, "IDLETIME") {
            ObjectOption::Idletime
        } else if is_word(ws, "REFCOUNT") {
            ObjectOption::Refcount
        } else if is_word(ws, "FREQUENCY") {
            ObjectOption::Frequency
        } else {
            return Err(RedisErr::UnknownCommand);
        };
        let key = next_string(&frames, 2)?;
        Ok(Self::new(key, option))
    }

    /// `ENCODING` replies `raw`; `IDLETIME` the whole seconds since the key
    /// was written (nil when absent); the others 0.
    pub fn apply_at(self, db: &mut DB, now: u64) -> (r: Frame)
        requires
            old(db).wf(),
        ensures
            final(db).wf(),
            object_applied(self, old(db)@, final(db)@, r@, now),
    {
        proof {
            reveal(object_applied);
        }
        match self.option {
            ObjectOption::Encoding => Frame::SimpleString("raw".to_string()),
            ObjectOption::Idletime => match db.get_object_last_touch(self.key.as_str(), now) {
                Some(t) => {
                    let secs: u64 = if now >= t {
                        (now - t) / 1000
                    } else {
                        0
                    };
                    Frame::Integer(secs as i64)
                },
                None => Frame::Nil,
            },
            _ => Frame::Integer(0),
        }
    }

    /// Applies the command at the current time.
    pub fn apply(self, db: &mut DB) -> (r: Frame)
        requires
            old(db).wf(),
        ensures
            final(db).wf(),
            exists|t: u64| #[trigger] object_applied(self, old(db)@, final(db)@, r@, t),
    {
        self.apply_at(db, now_ms())
    }
}

/// What reading a `SUBSCRIBE` request gives.
#[verifier::opaque]
pub open spec fn subscribe_parsed(fs: Seq<FrameView>, r: Result<Subscribe, RedisErr>) -> bool {
    match word_arg(fs, 0, "SUBSCRIBE"@) {
        Err(e) => r == Err::<Subscribe, RedisErr>(e),
        Ok(_) => match strings_from(fs, 1) {
            Err(e) => r == Err::<Subscribe, RedisErr>(e),
            Ok(cs) => if cs.len() == 0 {
                r == Err::<Subscribe, RedisErr>(RedisErr::WrongNumberOfArguments)
            } else {
                r matches Ok(c) && texts(c.channels@) == cs
            },
        },
    }
}

/// `SUBSCRIBE channel [channel ...]`
pub struct Subscribe {
    pub channels: Vec<String>,
}

impl Subscribe {
    pub fn new(channels: Vec<String>) -> (r: Self)
        ensures
            r.channels == channels,
    {
        Subscribe { channels }
    }

    pub fn from_frames(frames: Vec<Frame>) -> (r: Result<Self, RedisErr>)
        ensures
            subscribe_parsed(views(frames@), r),
    {
        proof {
            reveal(subscribe_parsed);
        }
        check_cmd(&frames, "SUBSCRIBE")?;
        let channels = read_strings(&frames, 1)?;
        if channels.len() == 0 {
            return Err(RedisErr::WrongNumberOfArguments);
        }
        Ok(Subscribe { channels })
    }
}

/// What reading a `UNSUBSCRIBE` request gives.
#[verifier::opaque]
pub open spec fn unsubscribe_parsed(fs: Seq<FrameView>, r: Result<Unsubscribe, RedisErr>) -> bool {
    match word_arg(fs, 0, "UNSUBSCRIBE"@) {
        Err(e) => r == Err::<Unsubscribe, RedisErr>(e),
        Ok(_) => match strings_from(fs, 1) {
            Err(e) => r == Err::<Unsubscribe, RedisErr>(e),
            Ok(cs) => r matches Ok(c) && texts(c.channels@) == cs,
        },
    }
}

/// `UNSUBSCRIBE [channel ...]`: no channel means all of them.
pub struct Unsubscribe {
    pub channels: Vec<String>,
}

impl Unsubscribe {
    pub fn new(channels: Vec<String>) -> (r: Self)
        ensures
            r.channels == channels,
    {
        Unsubscribe { channels }
    }

    pub fn from_frames(frames: Vec<Frame>) -> (r: Result<Self, RedisErr>)
        ensures
            unsubscribe_parsed(views(frames@), r),
    {
        proof {
            reveal(unsubscribe_parsed);
        }
        check_cmd(&frames, "UNSUBSCRIBE")?;
        let channels = read_strings(&frames, 1)?;
        Ok(Unsubscribe { channels })
    }

    pub fn channels(&self) -> (r: &Vec<String>)
        ensures
            r == &self.channels,
    {
        &self.channels
    }
}

/// What reading a `PUBLISH` request gives.
#[verifier::opaque]
pub open spec fn publish_parsed(fs: Seq<FrameView>, r: Result<Publish, RedisErr>) -> bool {
    match word_arg(fs, 0, "PUBLISH"@) {
        Err(e) => r == Err::<Publish, RedisErr>(e),
        Ok(_) => match string_arg(fs, 1) {
            Err(e) => r == Err::<Publish, RedisErr>(e),
            Ok(ch) => match bytes_arg(fs, 2) {
                Err(e) => r == Err::<Publish, RedisErr>(e),
                Ok(m) => r matches Ok(c) && c.channel@ == ch && c.message@ == m,
            },
        },
    }
}

/// `PUBLISH channel message`
pub struct Publish {
    pub channel: String,
    pub message: Vec<u8>,
}

impl Publish {
    pub fn new(channel: String, message: Vec<u8>) -> (r: Self)
        ensures
            r.channel == channel,
            r.message == message,
    {
        Publish { channel, message }
    }

    pub fn from_frames(frames: Vec<Frame>) -> (r: Result<Self, RedisErr>)
        ensures
            publish_parsed(views(frames@), r),
    {
        proof {
            reveal(publish_parsed);
        }
        check_cmd(&frames, "PUBLISH")?;
        let channel = next_string(&frames, 1)?;
        let message = next_bytes(&frames, 2)?;
        Ok(Publish { channel, message })
    }
}

} // verus!
