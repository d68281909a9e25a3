//! The command registry: command names, upper case, to the command that
//! reads the rest of the request.
use vstd::prelude::*;
use vstd::string::StringExecFns;
use vstd::utf8::*;

use crate::args::ascii_upper;
use crate::cmd::{
    BFAdd, BFExists, Del, Expire, Flush, Get, HGet, HSet, LPush, LRange, MGet, MSet, Object, Ping,
    Publish, Quit, SetCmd, Subscribe, Type, Unsubscribe, ZAdd, ZCard, ZRem,
};
use crate::cmd::{
    bf_add_applied, bf_exists_applied, del_applied, expire_applied, get_applied, hget_applied,
    hset_applied, lpush_applied, lrange_applied, mget_applied, mset_applied, object_applied,
    ok_reply, set_applied, type_applied, zadd_applied, zcard_applied, zrem_applied,
};
use crate::cmd::{
    bf_add_parsed, bf_exists_parsed, del_parsed, expire_parsed, flush_parsed, get_parsed, hget_parsed,
    hset_parsed, lpush_parsed, lrange_parsed, mget_parsed, mset_parsed, object_parsed, ping_parsed,
    publish_parsed, quit_parsed, set_parsed, subscribe_parsed, type_parsed, unsubscribe_parsed,
    zadd_parsed, zcard_parsed, zrem_parsed,
};
use crate::db::{EntryView, DB};
use crate::err::{err_name, RedisErr};
use crate::frame::{utf8_text, views, Frame, FrameView};
use crate::trie::Trie;

verus! {

broadcast use vstd::utf8::group_utf8_lib;

#[derive(Clone, Copy, PartialEq, Eq, Structural)]
pub enum CommandKind {
    Get,
    MGet,
    SetCmd,
    MSet,
    LPush,
    LRange,
    HSet,
    HGet,
    ZAdd,
    ZCard,
    ZRem,
    BFAdd,
    BFExists,
    Publish,
    Subscribe,
    Unsubscribe,
    Del,
    Expire,
    Type,
    Object,
    Quit,
    Ping,
    Flush,
}

/// The command names and what they name.
pub open spec fn command_table() -> Map<Seq<char>, CommandKind> {
    map![
        "GET"@ => CommandKind::Get,
        "MGET"@ => CommandKind::MGet,
        "SET"@ => CommandKind::SetCmd,
        "MSET"@ => CommandKind::MSet,
        "LPUSH"@ => CommandKind::LPush,
        "LRANGE"@ => CommandKind::LRange,
        "HSET"@ => CommandKind::HSet,
        "HGET"@ => CommandKind::HGet,
        "ZADD"@ => CommandKind::ZAdd,
        "ZCARD"@ => CommandKind::ZCard,
        "ZREM"@ => CommandKind::ZRem,
        "BF.ADD"@ => CommandKind::BFAdd,
        "BF.EXISTS"@ => CommandKind::BFExists,
        "PUBLISH"@ => CommandKind::Publish,
        "SUBSCRIBE"@ => CommandKind::Subscribe,
        "UNSUBSCRIBE"@ => CommandKind::Unsubscribe,
        "DEL"@ => CommandKind::Del,
        "EXPIRE"@ => CommandKind::Expire,
        "TYPE"@ => CommandKind::Type,
        "OBJECT"@ => CommandKind::Object,
        "QUIT"@ => CommandKind::Quit,
        "PING"@ => CommandKind::Ping,
        "FLUSH"@ => CommandKind::Flush
    ]
}

/// The bytes of a command name as it stands in a request.
pub open spec fn name_bytes(f: FrameView) -> Result<Seq<u8>, RedisErr> {
    match f {
        FrameView::Simple(s) => Ok(encode_utf8(s)),
        FrameView::Bulk(b) => if valid_utf8(b) {
            Ok(b)
        } else {
            Err(RedisErr::InvalidArgument)
        },
        _ => Err(RedisErr::InvalidProtocol),
    }
}

/// Which command a request names.
pub open spec fn request_kind(f: FrameView) -> Result<CommandKind, RedisErr> {
    match f {
        FrameView::Array(fs) => if fs.len() == 0 {
            Err(RedisErr::WrongNumberOfArguments)
        } else {
            match name_bytes(fs[0]) {
                Err(e) => Err(e),
                Ok(b) => {
                    let u = ascii_upper(b);
                    if valid_utf8(u) && command_table().contains_key(decode_utf8(u)) {
                        Ok(command_table()[decode_utf8(u)])
                    } else {
                        Err(RedisErr::UnknownCommand)
                    }
                },
            }
        },
        _ => Err(RedisErr::InvalidProtocol),
    }
}

pub enum Command {
    Get(Get),
    MGet(MGet),
    SetCmd(SetCmd),
    MSet(MSet),
    LPush(LPush),
    LRange(LRange),
    HSet(HSet),
    HGet(HGet),
    ZAdd(ZAdd),
    ZCard(ZCard),
    ZRem(ZRem),
    BFAdd(BFAdd),
    BFExists(BFExists),
    Publish(Publish),
    Subscribe(Subscribe),
    Unsubscribe(Unsubscribe),
    Del(Del),
    Expire(Expire),
    Type(Type),
    Object(Object),
    Quit(Quit),
    Ping(Ping),
    Flush(Flush),
}

/// What reading a `SET` request at time `now` gives, as a command.
pub open spec fn set_command_parsed(fs: Seq<FrameView>, now: u64, r: Result<Command, RedisErr>) -> bool {
    match r {
        Ok(Command::SetCmd(c)) => set_parsed(fs, now, Ok(c)),
        Err(e) => set_parsed(fs, now, Err(e)),
        _ => false,
    }
}

/// The commands whose work the session does itself: the ones of pub/sub.
pub open spec fn is_session_command(c: Command) -> bool {
    c is Publish || c is Subscribe || c is Unsubscribe
}

impl Command {
    /// Applies a command to the keyspace at time `now`; the pub/sub
    /// commands are left to the session and give no reply here.
    pub fn apply_at(self, db: &mut DB, now: u64) -> (r: Option<Frame>)
        requires
            old(db).wf(),
        ensures
            final(db).wf(),
            r is None <==> is_session_command(self),
            match self {
                Command::Get(c) => r matches Some(f) && get_applied(c, old(db)@, final(db)@, f@, now),
                Command::MGet(c) => r matches Some(f) && mget_applied(c, old(db)@, final(db)@, f@, now),
                Command::SetCmd(c) => r matches Some(f) && set_applied(c, old(db)@, final(db)@, f@, now),
                Command::MSet(c) => r matches Some(f) && mset_applied(c, old(db)@, final(db)@, f@, now),
                Command::LPush(c) => r matches Some(f) && lpush_applied(c, old(db)@, final(db)@, f@, now),
                Command::LRange(c) => r matches Some(f) && lrange_applied(c, old(db)@, final(db)@, f@, now),
                Command::HSet(c) => r matches Some(f) && hset_applied(c, old(db)@, final(db)@, f@, now),
                Command::HGet(c) => r matches Some(f) && hget_applied(c, old(db)@, final(db)@, f@, now),
                Command::ZAdd(c) => r matches Some(f) && zadd_applied(c, old(db)@, final(db)@, f@, now),
                Command::ZCard(c) => r matches Some(f) && zcard_applied(c, old(db)@, final(db)@, f@, now),
                Command::ZRem(c) => r matches Some(f) && zrem_applied(c, old(db)@, final(db)@, f@, now),
                Command::BFAdd(c) => r matches Some(f) && bf_add_applied(c, old(db)@, final(db)@, f@, now),
                Command::BFExists(c) => r matches Some(f) && bf_exists_applied(c, old(db)@, final(db)@, f@, now),
                Command::Del(c) => r matches Some(f) && del_applied(c, old(db)@, final(db)@, f@, now),
                Command::Expire(c) => r matches Some(f) && expire_applied(c, old(db)@, final(db)@, f@, now),
                Command::Type(c) => r matches Some(f) && type_applied(c, old(db)@, final(db)@, f@, now),
                Command::Object(c) => r matches Some(f) && object_applied(c, old(db)@, final(db)@, f@, now),
                Command::Flush(_) => r matches Some(f) && f@ == ok_reply() && final(db)@ == Map::<
                    Seq<char>,
                    EntryView,
                >::empty(),
                Command::Quit(_) => r matches Some(f) && f@ == ok_reply() && final(db)@ == old(db)@,
                Command::Ping(c) => r matches Some(f) && final(db)@ == old(db)@ && f@ == match c.message {
                    Some(m) => FrameView::Bulk(m@),
                    None => FrameView::Simple("PONG"@),
                },
                _ => r is None && final(db)@ == old(db)@,
            },
    {
        match self {
            Command::Get(c) => Some(c.apply_at(db, now)),
            Command::MGet(c) => Some(c.apply_at(db, now)),
            Command::SetCmd(c) => Some(c.apply_at(db, now)),
            Command::MSet(c) => Some(c.apply_at(db, now)),
            Command::LPush(c) => Some(c.apply_at(db, now)),
            Command::LRange(c) => Some(c.apply_at(db, now)),
            Command::HSet(c) => Some(c.apply_at(db, now)),
            Command::HGet(c) => Some(c.apply_at(db, now)),
            Command::ZAdd(c) => Some(c.apply_at(db, now)),
            Command::ZCard(c) => Some(c.apply_at(db, now)),
            Command::ZRem(c) => Some(c.apply_at(db, now)),
            Command::BFAdd(c) => Some(c.apply_at(db, now)),
            Command::BFExists(c) => Some(c.apply_at(db, now)),
            Command::Del(c) => Some(c.apply_at(db, now)),
            Command::Expire(c) => Some(c.apply_at(db, now)),
            Command::Type(c) => Some(c.apply_at(db, now)),
            Command::Object(c) => Some(c.apply_at(db, now)),
            Command::Quit(c) => Some(c.apply(db)),
            Command::Ping(c) => Some(c.apply(db)),
            Command::Flush(c) => Some(c.apply(db)),
            Command::Publish(_) => None,
            Command::Subscribe(_) => None,
            Command::Unsubscribe(_) => None,
        }
    }
}

/// The reply for a request that could not be read or applied.
pub fn error_frame(e: RedisErr) -> (r: Frame)
    ensures
        r@ == FrameView::Error("ERR "@ + err_name(e)),
{
    let s = "ERR ".to_string();
    Frame::Error(s.concat(e.name()))
}

/// Reads requests into commands by their names.
pub struct Parser {
    trie: Trie<CommandKind>,
}

impl Parser {
    pub closed spec fn wf(&self) -> bool {
        self.trie.wf() && self.trie@ == command_table()
    }

    pub fn new() -> (r: Self)
        ensures
            r.wf(),
    {
        let mut trie: Trie<CommandKind> = Trie::new();
        trie.insert("GET", CommandKind::Get);
        trie.insert("MGET", CommandKind::MGet);
        trie.insert("SET", CommandKind::SetCmd);
        trie.insert("MSET", CommandKind::MSet);
        trie.insert("LPUSH", CommandKind::LPush);
        trie.insert("LRANGE", CommandKind::LRange);
        trie.insert("HSET", CommandKind::HSet);
        trie.insert("HGET", CommandKind::HGet);
        trie.insert("ZADD", CommandKind::ZAdd);
        trie.insert("ZCARD", CommandKind::ZCard);
        trie.insert("ZREM", CommandKind::ZRem);
        trie.insert("BF.ADD", CommandKind::BFAdd);
        trie.insert("BF.EXISTS", CommandKind::BFExists);
        trie.insert("PUBLISH", CommandKind::Publish);
        trie.insert("SUBSCRIBE", CommandKind::Subscribe);
        trie.insert("UNSUBSCRIBE", CommandKind::Unsubscribe);
        trie.insert("DEL", CommandKind::Del);
        trie.insert("EXPIRE", CommandKind::Expire);
        trie.insert("TYPE", CommandKind::Type);
        trie.insert("OBJECT", CommandKind::Object);
        trie.insert("QUIT", CommandKind::Quit);
        trie.insert("PING", CommandKind::Ping);
        trie.insert("FLUSH", CommandKind::Flush);
        let r = Parser { trie };
        proof {
            assert(r.trie@ =~= command_table());
        }
        r
    }

    /// Which command a request names.
    pub fn kind(&self, frame: &Frame) -> (r: Result<CommandKind, RedisErr>)
        requires
            self.wf(),
        ensures
            r == request_kind(frame@),
    {
        match frame {
            Frame::Array(frames) => {
                proof {
                    crate::frame::lemma_array_view(*frame);
                }
                if frames.len() == 0 {
                    return Err(RedisErr::WrongNumberOfArguments);
                }
                let ghost f0 = frames@[0]@;
                let name: &[u8] = match &frames[0] {
                    Frame::SimpleString(s) => s.as_str().as_bytes(),
                    Frame::BulkString(b) => {
                        proof {
                            assert(b@.subrange(0, b@.len() as int) =~= b@);
                        }
                        match utf8_text(b.as_slice(), 0, b.len()) {
                            Some(_) => b.as_slice(),
                            None => {
                                return Err(RedisErr::InvalidArgument);
                            },
                        }
                    },
                    _ => {
                        return Err(RedisErr::InvalidProtocol);
                    },
                };
                let mut upper: Vec<u8> = Vec::new();
                let mut i: usize = 0;
                while i < name.len()
                    invariant
                        i <= name@.len(),
                        upper@ == ascii_upper(name@).subrange(0, i as int),
                    decreases name@.len() - i,
                {
                    let c = name[i];
                    let u: u8 = if 97u8 <= c && c <= 122u8 {
                        c - 32
                    } else {
                        c
                    };
                    upper.push(u);
                    proof {
                        assert(upper@ =~= ascii_upper(name@).subrange(0, i + 1));
                    }
                    i = i + 1;
                }
                proof {
                    assert(ascii_upper(name@).subrange(0, name@.len() as int) =~= ascii_upper(name@));
                    assert(upper@.subrange(0, upper@.len() as int) =~= upper@);
                }
                match utf8_text(upper.as_slice(), 0, upper.len()) {
                    None => Err(RedisErr::UnknownCommand),
                    Some(s) => {
                        proof {
                            encode_utf8_decode_utf8(s@);
                        }
                        match self.trie.get(s.as_str()) {
                            Some(k) => Ok(*k),
                            None => Err(RedisErr::UnknownCommand),
                        }
                    },
                }
            },
            _ => Err(RedisErr::InvalidProtocol),
        }
    }

    /// Reads a request, an array whose first frame names the command, into
    /// the command it names.
    #[verifier::rlimit(60)]
    pub fn parse(&self, frame: Frame) -> (r: Result<Command, RedisErr>)
        requires
            self.wf(),
        ensures
            match request_kind(frame@) {
                Err(e) => r == Err::<Command, RedisErr>(e),
                Ok(k) => frame@ matches FrameView::Array(fs) && match k {
                    CommandKind::Get => match r {
                        Ok(Command::Get(c)) => get_parsed(fs, Ok(c)),
                        Err(e) => get_parsed(fs, Err(e)),
                        _ => false,
                    },
                    CommandKind::MGet => match r {
                        Ok(Command::MGet(c)) => mget_parsed(fs, Ok(c)),
                        Err(e) => mget_parsed(fs, Err(e)),
                        _ => false,
                    },
                    CommandKind::SetCmd => exists|now: u64|
                        #[trigger] set_command_parsed(frame@->Array_0, now, r),
                    CommandKind::MSet => match r {
                        Ok(Command::MSet(c)) => mset_parsed(fs, Ok(c)),
                        Err(e) => mset_parsed(fs, Err(e)),
                        _ => false,
                    },
                    CommandKind::LPush => match r {
                        Ok(Command::LPush(c)) => lpush_parsed(fs, Ok(c)),
                        Err(e) => lpush_parsed(fs, Err(e)),
                        _ => false,
                    },
                    CommandKind::LRange => match r {
                        Ok(Command::LRange(c)) => lrange_parsed(fs, Ok(c)),
                        Err(e) => lrange_parsed(fs, Err(e)),
                        _ => false,
                    },
                    CommandKind::HSet => match r {
                        Ok(Command::HSet(c)) => hset_parsed(fs, Ok(c)),
                        Err(e) => hset_parsed(fs, Err(e)),
                        _ => false,
                    },
                    CommandKind::HGet => match r {
                        Ok(Command::HGet(c)) => hget_parsed(fs, Ok(c)),
                        Err(e) => hget_parsed(fs, Err(e)),
                        _ => false,
                    },
                    CommandKind::ZAdd => match r {
                        Ok(Command::ZAdd(c)) => zadd_parsed(fs, Ok(c)),
                        Err(e) => zadd_parsed(fs, Err(e)),
                        _ => false,
                    },
                    CommandKind::ZCard => match r {
                        Ok(Command::ZCard(c)) => zcard_parsed(fs, Ok(c)),
                        Err(e) => zcard_parsed(fs, Err(e)),
                        _ => false,
                    },
                    CommandKind::ZRem => match r {
                        Ok(Command::ZRem(c)) => zrem_parsed(fs, Ok(c)),
                        Err(e) => zrem_parsed(fs, Err(e)),
                        _ => false,
                    },
                    CommandKind::BFAdd => match r {
                        Ok(Command::BFAdd(c)) => bf_add_parsed(fs, Ok(c)),
                        Err(e) => bf_add_parsed(fs, Err(e)),
                        _ => false,
                    },
                    CommandKind::BFExists => match r {
                        Ok(Command::BFExists(c)) => bf_exists_parsed(fs, Ok(c)),
                        Err(e) => bf_exists_parsed(fs, Err(e)),
                        _ => false,
                    },
                    CommandKind::Publish => match r {
                        Ok(Command::Publish(c)) => publish_parsed(fs, Ok(c)),
                        Err(e) => publish_parsed(fs, Err(e)),
                        _ => false,
                    },
                    CommandKind::Subscribe => match r {
                        Ok(Command::Subscribe(c)) => subscribe_parsed(fs, Ok(c)),
                        Err(e) => subscribe_parsed(fs, Err(e)),
                        _ => false,
                    },
                    CommandKind::Unsubscribe => match r {
                        Ok(Command::Unsubscribe(c)) => unsubscribe_parsed(fs, Ok(c)),
                        Err(e) => unsubscribe_parsed(fs, Err(e)),
                        _ => false,
                    },
                    CommandKind::Del => match r {
                        Ok(Command::Del(c)) => del_parsed(fs, Ok(c)),
                        Err(e) => del_parsed(fs, Err(e)),
                        _ => false,
                    },
                    CommandKind::Expire => match r {
                        Ok(Command::Expire(c)) => expire_parsed(fs, Ok(c)),
                        Err(e) => expire_parsed(fs, Err(e)),
                        _ => false,
                    },
                    CommandKind::Type => match r {
                        Ok(Command::Type(c)) => type_parsed(fs, Ok(c)),
                        Err(e) => type_parsed(fs, Err(e)),
                        _ => false,
                    },
                    CommandKind::Object => match r {
                        Ok(Command::Object(c)) => object_parsed(fs, Ok(c)),
                        Err(e) => object_parsed(fs, Err(e)),
                        _ => false,
                    },
                    CommandKind::Quit => match r {
                        Ok(Command::Quit(c)) => quit_parsed(fs, Ok(c)),
                        Err(e) => quit_parsed(fs, Err(e)),
                        _ => false,
                    },
                    CommandKind::Ping => match r {
                        Ok(Command::Ping(c)) => ping_parsed(fs, Ok(c)),
                        Err(e) => ping_parsed(fs, Err(e)),
                        _ => false,
                    },
                    CommandKind::Flush => match r {
                        Ok(Command::Flush(c)) => flush_parsed(fs, Ok(c)),
                        Err(e) => flush_parsed(fs, Err(e)),
                        _ => false,
                    },
                },
            },
    {
        let k = self.kind(&frame)?;
        proof {
            crate::frame::lemma_array_view(frame);
        }
        let frames = match frame {
            Frame::Array(frames) => frames,
            _ => Vec::new(),
        };
        match k {
            CommandKind::Get => Ok(Command::Get(Get::from_frames(frames)?)),
            CommandKind::MGet => Ok(Command::MGet(MGet::from_frames(frames)?)),
            CommandKind::SetCmd => {
                let ghost fs = views(frames@);
                let res = SetCmd::from_frames(frames);
                let r = match res {
                    Ok(c) => Ok(Command::SetCmd(c)),
                    Err(e) => Err(e),
                };
                proof {
                    let now = choose|now: u64| #[trigger] set_parsed(fs, now, res);
                    assert(set_command_parsed(fs, now, r));
                }
                r
            },
            CommandKind::MSet => Ok(Command::MSet(MSet::from_frames(frames)?)),
            CommandKind::LPush => Ok(Command::LPush(LPush::from_frames(frames)?)),
            CommandKind::LRange => Ok(Command::LRange(LRange::from_frames(frames)?)),
            CommandKind::HSet => Ok(Command::HSet(HSet::from_frames(frames)?)),
            CommandKind::HGet => Ok(Command::HGet(HGet::from_frames(frames)?)),
            CommandKind::ZAdd => Ok(Command::ZAdd(ZAdd::from_frames(frames)?)),
            CommandKind::ZCard => Ok(Command::ZCard(ZCard::from_frames(frames)?)),
            CommandKind::ZRem => Ok(Command::ZRem(ZRem::from_frames(frames)?)),
            CommandKind::BFAdd => Ok(Command::BFAdd(BFAdd::from_frames(frames)?)),
            CommandKind::BFExists => Ok(Command::BFExists(BFExists::from_frames(frames)?)),
            CommandKind::Publish => Ok(Command::Publish(Publish::from_frames(frames)?)),
            CommandKind::Subscribe => Ok(Command::Subscribe(Subscribe::from_frames(frames)?)),
            CommandKind::Unsubscribe => Ok(Command::Unsubscribe(Unsubscribe::from_frames(frames)?)),
            CommandKind::Del => Ok(Command::Del(Del::from_frames(frames)?)),
            CommandKind::Expire => Ok(Command::Expire(Expire::from_frames(frames)?)),
            CommandKind::Type => Ok(Command::Type(Type::from_frames(frames)?)),
            CommandKind::Object => Ok(Command::Object(Object::from_frames(frames)?)),
            CommandKind::Quit => Ok(Command::Quit(Quit::from_frames(frames)?)),
            CommandKind::Ping => Ok(Command::Ping(Ping::from_frames(frames)?)),
            CommandKind::Flush => Ok(Command::Flush(Flush::from_frames(frames)?)),
        }
    }
}

} // verus!
