//! The decisions of a client session: taking requests off the read buffer,
//! and the channels of a subscriber with the frames it is sent.
use vstd::prelude::*;

use crate::err::RedisErr;
use crate::frame::{parse_at, read_frame_at, Frame, FrameView, Parsed};
use crate::cmd::texts;
use crate::parser::Command;
use crate::value::{copy_bytes, text_eq};

verus! {

/// Takes the first request off the read buffer. A complete frame leaves the
/// buffer without its bytes; an incomplete one leaves the buffer as it is,
/// to be read into further; malformed bytes are dropped, and the session
/// replies with an error and goes on.
pub fn take_frame(buf: &mut Vec<u8>) -> (r: Result<Option<Frame>, RedisErr>)
    ensures
        match parse_at(old(buf)@, 0) {
            Parsed::Done(f, e) => r matches Ok(Some(g)) && g@ == f && final(buf)@ == old(buf)@.subrange(
                e,
                old(buf)@.len() as int,
            ),
            Parsed::Incomplete => r == Ok::<Option<Frame>, RedisErr>(None) && final(buf)@ == old(buf)@,
            Parsed::Malformed => r == Err::<Option<Frame>, RedisErr>(RedisErr::FrameMalformed)
                && final(buf)@.len() == 0,
        },
{
    match read_frame_at(buf.as_slice(), 0) {
        Ok((f, e)) => {
            let rest = copy_tail(buf.as_slice(), e);
            *buf = rest;
            Ok(Some(f))
        },
        Err(RedisErr::FrameIncomplete) => Ok(None),
        Err(_) => {
            *buf = Vec::new();
            Err(RedisErr::FrameMalformed)
        },
    }
}

fn copy_tail(b: &[u8], from: usize) -> (r: Vec<u8>)
    requires
        from <= b@.len(),
    ensures
        r@ == b@.subrange(from as int, b@.len() as int),
{
    let mut r: Vec<u8> = Vec::new();
    let mut i: usize = from;
    while i < b.len()
        invariant
            from <= i <= b@.len(),
            r@ == b@.subrange(from as int, i as int),
        decreases b@.len() - i,
    {
        r.push(b[i]);
        proof {
            assert(b@.subrange(from as int, i + 1) =~= b@.subrange(from as int, i as int).push(b@[i as int]));
        }
        i = i + 1;
    }
    r
}

pub open spec fn text_bytes(s: Seq<char>) -> Seq<u8> {
    vstd::utf8::encode_utf8(s)
}

/// `[kind, channel, count]`: the acknowledgement of a subscribe or an
/// unsubscribe.
pub open spec fn ack(kind: Seq<char>, channel: Seq<char>, count: int) -> FrameView {
    FrameView::Array(
        seq![
            FrameView::Bulk(text_bytes(kind)),
            FrameView::Bulk(text_bytes(channel)),
            FrameView::Integer(count),
        ],
    )
}

/// `["message", channel, payload]`: a published message as a subscriber gets it.
pub open spec fn message(channel: Seq<char>, payload: Seq<u8>) -> FrameView {
    FrameView::Array(
        seq![
            FrameView::Bulk(text_bytes("message"@)),
            FrameView::Bulk(text_bytes(channel)),
            FrameView::Bulk(payload),
        ],
    )
}

fn three(a: Frame, b: Frame, c: Frame) -> (r: Frame)
    ensures
        r@ == FrameView::Array(seq![a@, b@, c@]),
{
    let ghost (av, bv, cv) = (a@, b@, c@);
    let mut v: Vec<Frame> = Vec::new();
    v.push(a);
    v.push(b);
    v.push(c);
    let r = Frame::Array(v);
    proof {
        crate::frame::lemma_array_view(r);
        assert(crate::frame::views(v@) =~= seq![av, bv, cv]);
    }
    r
}

/// The frame that carries a published message to a subscriber.
pub fn message_frame(channel: &str, payload: Vec<u8>) -> (r: Frame)
    ensures
        r@ == message(channel@, payload@),
{
    let kind = Frame::BulkString(copy_bytes("message".as_bytes()));
    let ch = Frame::BulkString(copy_bytes(channel.as_bytes()));
    three(kind, ch, Frame::BulkString(payload))
}

fn ack_frame(kind: &str, channel: &str, count: usize) -> (r: Frame)
    requires
        count <= i64::MAX,
    ensures
        r@ == ack(kind@, channel@, count as int),
{
    let k = Frame::BulkString(copy_bytes(kind.as_bytes()));
    let ch = Frame::BulkString(copy_bytes(channel.as_bytes()));
    three(k, ch, Frame::Integer(count as i64))
}

/// The channels that a subscriber session listens to, each once, in the
/// order it joined them.
pub struct Subscriptions {
    channels: Vec<String>,
}

impl Subscriptions {
    pub closed spec fn view(&self) -> Seq<Seq<char>> {
        texts(self.channels@)
    }

    pub open spec fn wf(&self) -> bool {
        self@.no_duplicates() && self@.len() < i64::MAX
    }

    pub fn new() -> (r: Self)
        ensures
            r.wf(),
            r@ == Seq::<Seq<char>>::empty(),
    {
        let r = Subscriptions { channels: Vec::new() };
        proof {
            assert(r@ =~= Seq::<Seq<char>>::empty());
        }
        r
    }

    pub fn len(&self) -> (r: usize)
        ensures
            r == self@.len(),
    {
        self.channels.len()
    }

    fn position(&self, channel: &str) -> (r: Option<usize>)
        ensures
            match r {
                Some(i) => i < self@.len() && self@[i as int] == channel@,
                None => !self@.contains(channel@),
            },
    {
        let mut i: usize = 0;
        while i < self.channels.len()
            invariant
                i <= self.channels@.len(),
                forall|j: int| 0 <= j < i ==> self@[j] != channel@,
            decreases self.channels@.len() - i,
        {
            if text_eq(self.channels[i].as_str(), channel) {
                return Some(i);
            }
            i = i + 1;
        }
        None
    }

    /// Joins a channel; the acknowledgement carries the number of channels
    /// joined.
    pub fn subscribe(&mut self, channel: String) -> (r: Frame)
        requires
            old(self).wf(),
            old(self)@.len() + 1 < i64::MAX,
        ensures
            final(self).wf(),
            final(self)@ == (if old(self)@.contains(channel@) {
                old(self)@
            } else {
                old(self)@.push(channel@)
            }),
            r@ == ack("subscribe"@, channel@, final(self)@.len() as int),
    {
        let ghost before = self@;
        if self.position(channel.as_str()).is_none() {
            let ghost c = channel@;
            let copy = channel.clone();
            self.channels.push(copy);
            proof {
                assert(self@ =~= before.push(c));
                assert forall|i: int, j: int| 0 <= i < j < self@.len() implies self@[i] != self@[j] by {
                    if j == before.len() {
                        assert(before[i] != c) by {
                            assert(before.contains(before[i]));
                        }
                    }
                }
            }
        }
        ack_frame("subscribe", channel.as_str(), self.channels.len())
    }

    /// Leaves a channel; the acknowledgement carries the number of channels
    /// left.
    pub fn unsubscribe(&mut self, channel: &str) -> (r: Frame)
        requires
            old(self).wf(),
        ensures
            final(self).wf(),
            !final(self)@.contains(channel@),
            final(self)@.to_set() == old(self)@.to_set().remove(channel@),
            r@ == ack("unsubscribe"@, channel@, final(self)@.len() as int),
    {
        let ghost before = self@;
        match self.position(channel) {
            Some(i) => {
                self.channels.remove(i);
                proof {
                    assert(self@ =~= before.remove(i as int));
                    assert forall|x: Seq<char>| self@.to_set().contains(x) == before.to_set().remove(channel@).contains(x) by {
                        if before.contains(x) && x != channel@ {
                            let j = choose|j: int| 0 <= j < before.len() && before[j] == x;
                            if j < i {
                                assert(self@[j] == x);
                            } else {
                                assert(self@[j - 1] == x);
                            }
                        }
                        if self@.contains(x) {
                            let j = choose|j: int| 0 <= j < self@.len() && self@[j] == x;
                            if j < i {
                                assert(before[j] == x);
                            } else {
                                assert(before[j + 1] == x);
                            }
                        }
                    }
                    assert(self@.to_set() =~= before.to_set().remove(channel@));
                    assert forall|a: int, b: int| 0 <= a < b < self@.len() implies self@[a] != self@[b] by {
                        let a1 = if a < i { a } else { a + 1 };
                        let b1 = if b < i { b } else { b + 1 };
                        assert(self@[a] == before[a1]);
                        assert(self@[b] == before[b1]);
                    }
                    assert(!self@.contains(channel@)) by {
                        if self@.contains(channel@) {
                            let j = choose|j: int| 0 <= j < self@.len() && self@[j] == channel@;
                            let j1 = if j < i { j } else { j + 1 };
                            assert(before[j1] == channel@);
                        }
                    }
                }
            },
            None => {
                proof {
                    assert(before.to_set().remove(channel@) =~= before.to_set());
                }
            },
        }
        ack_frame("unsubscribe", channel, self.channels.len())
    }

    /// The channel joined at position `i`.
    pub fn channel(&self, i: usize) -> (r: &String)
        requires
            i < self@.len(),
        ensures
            r@ == self@[i as int],
    {
        &self.channels[i]
    }
}

/// What a session in subscribed mode does with a request: only `SUBSCRIBE`,
/// `UNSUBSCRIBE`, `PING` and `QUIT` are honoured there.
pub enum SubscribedAction {
    /// Join these channels, in order.
    Join(Vec<String>),
    /// Leave these channels, in order.
    Leave(Vec<String>),
    /// Send this frame.
    Reply(Frame),
    /// End the session.
    Close,
    /// Drop the request.
    Ignore,
}

impl Subscriptions {
    /// The channels joined, in order, as owned texts.
    fn all(&self) -> (r: Vec<String>)
        ensures
            texts(r@) == self@,
    {
        let mut r: Vec<String> = Vec::new();
        let mut i: usize = 0;
        while i < self.channels.len()
            invariant
                i <= self.channels@.len(),
                texts(r@) == texts(self.channels@).subrange(0, i as int),
            decreases self.channels@.len() - i,
        {
            let ghost before = r@;
            let c = self.channels[i].clone();
            r.push(c);
            proof {
                assert(r@ == before.push(self.channels@[i as int]));
                assert(texts(r@) =~= texts(before).push(self.channels@[i as int]@));
                assert(texts(r@) =~= texts(self.channels@).subrange(0, i + 1));
            }
            i = i + 1;
        }
        proof {
            assert(texts(self.channels@).subrange(0, self.channels@.len() as int) =~= self@);
        }
        r
    }

    /// Decides what a request received in subscribed mode asks for; an
    /// `UNSUBSCRIBE` without channels leaves all of them.
    pub fn action(&self, cmd: Command) -> (r: SubscribedAction)
        ensures
            match cmd {
                Command::Subscribe(c) => r matches SubscribedAction::Join(v) && v == c.channels,
                Command::Unsubscribe(c) => r matches SubscribedAction::Leave(v) && texts(v@) == (if c.channels@.len() == 0 {
                    self@
                } else {
                    texts(c.channels@)
                }),
                Command::Ping(_) => r matches SubscribedAction::Reply(f) && f@ == FrameView::Simple("PONG"@),
                Command::Quit(_) => r is Close,
                _ => r is Ignore,
            },
    {
        match cmd {
            Command::Subscribe(c) => SubscribedAction::Join(c.channels),
            Command::Unsubscribe(c) => {
                if c.channels.len() == 0 {
                    SubscribedAction::Leave(self.all())
                } else {
                    SubscribedAction::Leave(c.channels)
                }
            },
            Command::Ping(_) => SubscribedAction::Reply(Frame::SimpleString("PONG".to_string())),
            Command::Quit(_) => SubscribedAction::Close,
            _ => SubscribedAction::Ignore,
        }
    }
}

} // verus!
