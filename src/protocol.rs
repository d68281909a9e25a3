//! The plain RESP codec: the five typed frames, without nil and without
//! inline commands.
use vstd::prelude::*;

use crate::decimal::{push_decimal, read_unsigned};
use crate::err::RedisErr;
use crate::frame::{
    agrees, count_text, encode, encode_items, find_crlf, first_crlf, lemma_first_crlf,
    parse_bulk, parse_integer, parse_line, prepend, read_bulk, read_integer, read_line, Frame,
    FrameView, Parsed,
};

verus! {

#[derive(Debug, PartialEq)]
pub enum ProtocolError {
    Incomplete,
    Malformed,
}

#[derive(Debug, PartialEq)]
pub enum Protocol {
    SimpleString(String),
    Errors(String),
    Integers(i64),
    BulkStrings(Vec<u8>),
    Arrays(Vec<Protocol>),
}

impl View for Protocol {
    type V = FrameView;

    open spec fn view(&self) -> FrameView
        decreases self,
    {
        match self {
            Protocol::SimpleString(s) => FrameView::Simple(s@),
            Protocol::Errors(s) => FrameView::Error(s@),
            Protocol::Integers(i) => FrameView::Integer(*i as int),
            Protocol::BulkStrings(b) => FrameView::Bulk(b@),
            Protocol::Arrays(v) => FrameView::Array(
                Seq::new(v@.len(), |i: int| if 0 <= i < v@.len() { v@[i].view() } else { FrameView::Nil }),
            ),
        }
    }
}

pub open spec fn protocol_views(s: Seq<Protocol>) -> Seq<FrameView> {
    Seq::new(s.len(), |i: int| s[i]@)
}

proof fn lemma_arrays_view(p: Protocol)
    ensures
        p matches Protocol::Arrays(v) ==> p@ == FrameView::Array(protocol_views(v@)),
{
    if let Protocol::Arrays(v) = p {
        if let FrameView::Array(w) = p@ {
            assert(protocol_views(v@) =~= w);
        }
    }
}

/// Reads one frame at `pos`: like a frame of the store, but a nil bulk
/// string, and any byte other than `+ - : $ *` in front, are malformed.
pub open spec fn proto_at(d: Seq<u8>, pos: int) -> Parsed
    decreases d.len() - pos, 0int,
{
    if pos < 0 || pos >= d.len() {
        Parsed::Incomplete
    } else {
        let t = d[pos];
        if t == 43 || t == 45 {
            parse_line(d, pos)
        } else if t == 58 {
            parse_integer(d, pos)
        } else if t == 36 {
            match parse_bulk(d, pos) {
                Parsed::Done(FrameView::Nil, _) => Parsed::Malformed,
                other => other,
            }
        } else if t == 42 {
            match first_crlf(d, pos + 1) {
                None => Parsed::Incomplete,
                Some(j) => match count_text(d.subrange(pos + 1, j)) {
                    None => Parsed::Malformed,
                    Some(k) => {
                        proof {
                            lemma_first_crlf(d, pos + 1);
                        }
                        proto_items(d, j + 2, k)
                    },
                },
            }
        } else {
            Parsed::Malformed
        }
    }
}

pub open spec fn proto_items(d: Seq<u8>, pos: int, k: nat) -> Parsed
    decreases d.len() - pos, k + 1,
{
    if k == 0 {
        Parsed::Done(FrameView::Array(Seq::empty()), pos)
    } else if pos < 0 || pos >= d.len() {
        Parsed::Incomplete
    } else {
        match proto_at(d, pos) {
            Parsed::Done(f, e) => if pos < e <= d.len() {
                prepend(seq![f], proto_items(d, e, (k - 1) as nat))
            } else {
                Parsed::Malformed
            },
            other => other,
        }
    }
}

pub open spec fn proto_agrees(r: Result<(Protocol, usize), ProtocolError>, p: Parsed) -> bool {
    match r {
        Ok((f, e)) => p == Parsed::Done(f@, e as int),
        Err(ProtocolError::Incomplete) => p == Parsed::Incomplete,
        Err(ProtocolError::Malformed) => p == Parsed::Malformed,
    }
}

/// A frame read by the shared readers, as a protocol value.
fn from_read(r: Result<(Frame, usize), RedisErr>, Ghost(p): Ghost<Parsed>) -> (q: Result<
    (Protocol, usize),
    ProtocolError,
>)
    requires
        agrees(r, p),
        r matches Ok((f, _)) ==> !(f is Array),
    ensures
        proto_agrees(
            q,
            match p {
                Parsed::Done(FrameView::Nil, _) => Parsed::Malformed,
                other => other,
            },
        ),
{
    match r {
        Ok((Frame::SimpleString(s), e)) => Ok((Protocol::SimpleString(s), e)),
        Ok((Frame::Error(s), e)) => Ok((Protocol::Errors(s), e)),
        Ok((Frame::Integer(i), e)) => Ok((Protocol::Integers(i), e)),
        Ok((Frame::BulkString(b), e)) => Ok((Protocol::BulkStrings(b), e)),
        Ok(_) => Err(ProtocolError::Malformed),
        Err(RedisErr::FrameIncomplete) => Err(ProtocolError::Incomplete),
        Err(_) => Err(ProtocolError::Malformed),
    }
}

fn read_at(data: &[u8], pos: usize) -> (r: Result<(Protocol, usize), ProtocolError>)
    ensures
        proto_agrees(r, proto_at(data@, pos as int)),
        r matches Ok((_, e)) ==> pos < e <= data@.len(),
    decreases data@.len() - pos,
{
    let len = data.len();
    if pos >= len {
        return Err(ProtocolError::Incomplete);
    }
    let t = data[pos];
    if t == 43u8 || t == 45u8 {
        let r = read_line(data, pos);
        from_read(r, Ghost(parse_line(data@, pos as int)))
    } else if t == 58u8 {
        let r = read_integer(data, pos);
        from_read(r, Ghost(parse_integer(data@, pos as int)))
    } else if t == 36u8 {
        let r = read_bulk(data, pos);
        from_read(r, Ghost(parse_bulk(data@, pos as int)))
    } else if t == 42u8 {
        match find_crlf(data, pos + 1) {
            None => Err(ProtocolError::Incomplete),
            Some(j) => {
                proof {
                    lemma_first_crlf(data@, pos + 1);
                }
                match read_unsigned(data, pos + 1, j) {
                    None => Err(ProtocolError::Malformed),
                    Some(k) => {
                        let ghost d = data@;
                        let mut items: Vec<Protocol> = Vec::new();
                        let mut p: usize = j + 2;
                        let mut i: u64 = 0;
                        while i < k
                            invariant
                                d == data@,
                                pos < j + 2 <= p <= d.len(),
                                i <= k,
                                proto_at(d, pos as int) == prepend(
                                    protocol_views(items@),
                                    proto_items(d, p as int, (k - i) as nat),
                                ),
                            decreases k - i,
                        {
                            let ghost before = items@;
                            match read_at(data, p) {
                                Err(e) => {
                                    return Err(e);
                                },
                                Ok((f, e)) => {
                                    proof {
                                        lemma_prepend_assoc(
                                            protocol_views(before),
                                            seq![f@],
                                            proto_items(d, e as int, (k - i - 1) as nat),
                                        );
                                    }
                                    items.push(f);
                                    proof {
                                        assert(protocol_views(items@) =~= protocol_views(before) + seq![f@]);
                                    }
                                    p = e;
                                },
                            }
                            i = i + 1;
                        }
                        let r = Protocol::Arrays(items);
                        proof {
                            lemma_arrays_view(r);
                            assert(protocol_views(items@) + Seq::<FrameView>::empty() =~= protocol_views(items@));
                        }
                        Ok((r, p))
                    },
                }
            },
        }
    } else {
        Err(ProtocolError::Malformed)
    }
}

proof fn lemma_prepend_assoc(a: Seq<FrameView>, b: Seq<FrameView>, x: Parsed)
    ensures
        prepend(a, prepend(b, x)) == prepend(a + b, x),
{
    match x {
        Parsed::Done(FrameView::Array(items), e) => {
            assert(a + (b + items) =~= (a + b) + items);
        },
        _ => {},
    }
}

impl Protocol {
    /// Reads the frame at the start of `data`.
    pub fn from_bytes(data: &Vec<u8>) -> (r: Result<Protocol, ProtocolError>)
        ensures
            match proto_at(data@, 0) {
                Parsed::Done(f, _) => r matches Ok(g) && g@ == f,
                Parsed::Incomplete => r == Err::<Protocol, ProtocolError>(ProtocolError::Incomplete),
                Parsed::Malformed => r == Err::<Protocol, ProtocolError>(ProtocolError::Malformed),
            },
    {
        match read_at(data.as_slice(), 0) {
            Ok((f, _)) => Ok(f),
            Err(e) => Err(e),
        }
    }

    fn write_to(&self, out: &mut Vec<u8>)
        ensures
            final(out)@ == old(out)@ + encode(self@),
        decreases self,
    {
        let ghost start = out@;
        match self {
            Protocol::SimpleString(s) => {
                let f = Frame::SimpleString(s.clone());
                f.write_to(out);
            },
            Protocol::Errors(s) => {
                let f = Frame::Error(s.clone());
                f.write_to(out);
            },
            Protocol::Integers(i) => {
                let f = Frame::Integer(*i);
                f.write_to(out);
            },
            Protocol::BulkStrings(b) => {
                out.push(36u8);
                push_decimal(out, b.len() as u64);
                out.push(13u8);
                out.push(10u8);
                let mut i: usize = 0;
                let ghost head = out@;
                while i < b.len()
                    invariant
                        i <= b@.len(),
                        out@ == head + b@.subrange(0, i as int),
                    decreases b@.len() - i,
                {
                    out.push(b[i]);
                    proof {
                        assert(b@.subrange(0, i + 1) =~= b@.subrange(0, i as int).push(b@[i as int]));
                    }
                    i = i + 1;
                }
                out.push(13u8);
                out.push(10u8);
                proof {
                    assert(b@.subrange(0, b@.len() as int) =~= b@);
                    assert(out@ =~= start + encode(self@));
                }
            },
            Protocol::Arrays(v) => {
                let ghost items = protocol_views(v@);
                proof {
                    lemma_arrays_view(*self);
                }
                out.push(42u8);
                push_decimal(out, v.len() as u64);
                out.push(13u8);
                out.push(10u8);
                let ghost head = out@;
                let mut i: usize = 0;
                while i < v.len()
                    invariant
                        i <= v@.len(),
                        items == protocol_views(v@),
                        *self == Protocol::Arrays(*v),
                        out@ == head + encode_items(items.subrange(0, i as int)),
                    decreases v@.len() - i,
                {
                    proof {
                        let t = items.subrange(0, i + 1);
                        assert(t.drop_last() =~= items.subrange(0, i as int));
                        vstd::std_specs::vec::axiom_vec_index_decreases(*v, i as int);
                        assert(decreases_to!(*self => (*self)->Arrays_0));
                        assert(decreases_to!(*self => v[i as int]));
                    }
                    v[i].write_to(out);
                    proof {
                        assert(out@ =~= head + encode_items(items.subrange(0, i + 1)));
                    }
                    i = i + 1;
                }
                proof {
                    assert(items.subrange(0, v@.len() as int) =~= items);
                    assert(out@ =~= start + encode(self@));
                }
            },
        }
    }

    /// The bytes of this value on the wire.
    pub fn serialize(self) -> (r: Vec<u8>)
        ensures
            r@ == encode(self@),
    {
        let mut out: Vec<u8> = Vec::new();
        self.write_to(&mut out);
        proof {
            assert(out@ =~= encode(self@));
        }
        out
    }
}

} // verus!
