//! RESP frames: the values of the wire protocol, their encoding and a
//! resumable parser over a byte buffer.
use vstd::prelude::*;
use vstd::utf8::*;

use crate::decimal::{
    all_digits, decimal, decimal_len, i64_text, is_digit, push_decimal, push_signed_decimal,
    read_signed, read_unsigned, signed_decimal, signed_decimal_len, unsigned_text,
};
use crate::err::RedisErr;

verus! {

broadcast use vstd::utf8::group_utf8_lib;

#[derive(Debug, PartialEq)]
pub enum Frame {
    /// `$-1\r\n`
    Nil,
    /// `+OK\r\n`
    SimpleString(String),
    /// `-message\r\n`
    Error(String),
    /// `:1000\r\n`
    Integer(i64),
    /// `$6\r\nfoobar\r\n`
    BulkString(Vec<u8>),
    /// `*2\r\n$3\r\nfoo\r\n$3\r\nbar\r\n`
    Array(Vec<Frame>),
}

/// What a frame holds, as mathematical values.
pub enum FrameView {
    Nil,
    Simple(Seq<char>),
    Error(Seq<char>),
    Integer(int),
    Bulk(Seq<u8>),
    Array(Seq<FrameView>),
}

impl View for Frame {
    type V = FrameView;

    open spec fn view(&self) -> FrameView
        decreases self,
    {
        match self {
            Frame::Nil => FrameView::Nil,
            Frame::SimpleString(s) => FrameView::Simple(s@),
            Frame::Error(s) => FrameView::Error(s@),
            Frame::Integer(i) => FrameView::Integer(*i as int),
            Frame::BulkString(b) => FrameView::Bulk(b@),
            Frame::Array(v) => FrameView::Array(
                Seq::new(v@.len(), |i: int| if 0 <= i < v@.len() { v@[i].view() } else { FrameView::Nil }),
            ),
        }
    }
}

pub open spec fn crlf() -> Seq<u8> {
    seq![13u8, 10u8]
}

/// The bytes that stand for a frame on the wire.
pub open spec fn encode(f: FrameView) -> Seq<u8>
    decreases f,
{
    match f {
        FrameView::Nil => seq![36u8, 45u8, 49u8, 13u8, 10u8],
        FrameView::Simple(s) => seq![43u8] + encode_utf8(s) + crlf(),
        FrameView::Error(s) => seq![45u8] + encode_utf8(s) + crlf(),
        FrameView::Integer(i) => seq![58u8] + signed_decimal(i) + crlf(),
        FrameView::Bulk(b) => seq![36u8] + decimal(b.len()) + crlf() + b + crlf(),
        FrameView::Array(items) => seq![42u8] + decimal(items.len()) + crlf() + encode_items(items),
    }
}

/// The encodings of `items`, one after another.
pub open spec fn encode_items(items: Seq<FrameView>) -> Seq<u8>
    decreases items,
{
    if items.len() == 0 {
        Seq::empty()
    } else {
        encode_items(items.drop_last()) + encode(items.last())
    }
}


/// What reading one frame from a buffer at a position gives: the frame and
/// the position just past it, or the reason there is none.
pub enum Parsed {
    Done(FrameView, int),
    Incomplete,
    Malformed,
}

pub open spec fn crlf_at(d: Seq<u8>, k: int) -> bool {
    0 <= k && k + 1 < d.len() && d[k] == 13 && d[k + 1] == 10
}

/// The position of the first `\r\n` in `d` at or after `from`.
pub open spec fn first_crlf(d: Seq<u8>, from: int) -> Option<int>
    decreases d.len() - from,
{
    if from < 0 || from + 1 >= d.len() {
        None
    } else if crlf_at(d, from) {
        Some(from)
    } else {
        first_crlf(d, from + 1)
    }
}

/// A count or a length in a header: digits whose value fits in a `u64`.
pub open spec fn count_text(s: Seq<u8>) -> Option<nat> {
    match unsigned_text(s) {
        Some(v) => if v <= u64::MAX {
            Some(v)
        } else {
            None
        },
        None => None,
    }
}

/// A simple string or an error: UTF-8 text up to the first `\r\n`.
pub open spec fn parse_line(d: Seq<u8>, pos: int) -> Parsed {
    match first_crlf(d, pos + 1) {
        None => Parsed::Incomplete,
        Some(j) => {
            let body = d.subrange(pos + 1, j);
            if !valid_utf8(body) {
                Parsed::Malformed
            } else if d[pos] == 43 {
                Parsed::Done(FrameView::Simple(decode_utf8(body)), j + 2)
            } else {
                Parsed::Done(FrameView::Error(decode_utf8(body)), j + 2)
            }
        },
    }
}

/// An integer frame: a signed decimal `i64` up to the first `\r\n`.
pub open spec fn parse_integer(d: Seq<u8>, pos: int) -> Parsed {
    match first_crlf(d, pos + 1) {
        None => Parsed::Incomplete,
        Some(j) => match i64_text(d.subrange(pos + 1, j)) {
            Some(i) => Parsed::Done(FrameView::Integer(i as int), j + 2),
            None => Parsed::Malformed,
        },
    }
}

/// A bulk string: a length `n` (or `-1` for nil), then `n` bytes and `\r\n`.
pub open spec fn parse_bulk(d: Seq<u8>, pos: int) -> Parsed {
    match first_crlf(d, pos + 1) {
        None => Parsed::Incomplete,
        Some(j) => {
            let head = d.subrange(pos + 1, j);
            if head == seq![45u8, 49u8] {
                Parsed::Done(FrameView::Nil, j + 2)
            } else {
                match count_text(head) {
                    None => Parsed::Malformed,
                    Some(n) => if d.len() < j + 4 + n {
                        Parsed::Incomplete
                    } else if crlf_at(d, j + 2 + n) {
                        Parsed::Done(FrameView::Bulk(d.subrange(j + 2, j + 2 + n)), j + 4 + n)
                    } else {
                        Parsed::Malformed
                    },
                }
            }
        },
    }
}

pub open spec fn is_alnum(b: u8) -> bool {
    is_digit(b) || (65 <= b && b <= 90) || (97 <= b && b <= 122)
}

/// The runs of non-space bytes of `s`, in order.
pub open spec fn split_spaces(s: Seq<u8>) -> Seq<Seq<u8>>
    decreases s.len(),
{
    if s.len() == 0 {
        Seq::empty()
    } else {
        let p = split_spaces(s.drop_last());
        if s.last() == 32 {
            p
        } else if s.len() == 1 || s[s.len() - 2] == 32 {
            p.push(seq![s.last()])
        } else {
            p.drop_last().push(p.last().push(s.last()))
        }
    }
}

/// One word of an inline command: an integer when it is all digits, else text.
pub open spec fn inline_word(t: Seq<u8>) -> Option<FrameView> {
    if all_digits(t) {
        match i64_text(t) {
            Some(i) => Some(FrameView::Integer(i as int)),
            None => None,
        }
    } else if valid_utf8(t) {
        Some(FrameView::Simple(decode_utf8(t)))
    } else {
        None
    }
}

pub open spec fn inline_words(ts: Seq<Seq<u8>>) -> Option<Seq<FrameView>>
    decreases ts.len(),
{
    if ts.len() == 0 {
        Some(Seq::empty())
    } else {
        match (inline_words(ts.drop_last()), inline_word(ts.last())) {
            (Some(a), Some(f)) => Some(a.push(f)),
            _ => None,
        }
    }
}

/// An inline command: the line up to `\r\n` (or the end of the buffer),
/// split on spaces.
pub open spec fn parse_inline(d: Seq<u8>, pos: int) -> Parsed {
    let (end, next) = match first_crlf(d, pos) {
        Some(j) => (j, j + 2),
        None => (d.len() as int, d.len() as int),
    };
    match inline_words(split_spaces(d.subrange(pos, end))) {
        Some(items) => Parsed::Done(FrameView::Array(items), next),
        None => Parsed::Malformed,
    }
}

/// Reads one frame of `d` that starts at `pos`.
pub open spec fn parse_at(d: Seq<u8>, pos: int) -> Parsed
    decreases d.len() - pos, 0int,
{
    if pos < 0 || pos >= d.len() {
        Parsed::Incomplete
    } else {
        let t = d[pos];
        if t == 43 || t == 45 {
            parse_line(d, pos)
        } else if t == 58 {
            parse_integer(d, pos)
        } else if t == 36 {
            parse_bulk(d, pos)
        } else if t == 42 {
            match first_crlf(d, pos + 1) {
                None => Parsed::Incomplete,
                Some(j) => match count_text(d.subrange(pos + 1, j)) {
                    None => Parsed::Malformed,
                    Some(k) => {
                        proof {
                            lemma_first_crlf(d, pos + 1);
                        }
                        parse_items(d, j + 2, k)
                    },
                },
            }
        } else if is_alnum(t) {
            parse_inline(d, pos)
        } else {
            Parsed::Malformed
        }
    }
}

/// Puts `first` in front of the items of an array that was read.
pub open spec fn prepend(first: Seq<FrameView>, rest: Parsed) -> Parsed {
    match rest {
        Parsed::Done(FrameView::Array(items), e) => Parsed::Done(FrameView::Array(first + items), e),
        other => other,
    }
}

/// Reads `k` frames one after another from `pos`, as an array.
pub open spec fn parse_items(d: Seq<u8>, pos: int, k: nat) -> Parsed
    decreases d.len() - pos, k + 1,
{
    if k == 0 {
        Parsed::Done(FrameView::Array(Seq::empty()), pos)
    } else if pos < 0 || pos >= d.len() {
        Parsed::Incomplete
    } else {
        match parse_at(d, pos) {
            Parsed::Done(f, e) => if pos < e <= d.len() {
                prepend(seq![f], parse_items(d, e, (k - 1) as nat))
            } else {
                Parsed::Malformed
            },
            other => other,
        }
    }
}

pub proof fn lemma_first_crlf(d: Seq<u8>, from: int)
    requires
        from >= 0,
    ensures
        match first_crlf(d, from) {
            Some(j) => from <= j && j + 2 <= d.len() && crlf_at(d, j) && forall|k: int|
                from <= k < j ==> !#[trigger] crlf_at(d, k),
            None => forall|k: int| from <= k ==> !#[trigger] crlf_at(d, k),
        },
    decreases d.len() - from,
{
    if from + 1 < d.len() && !crlf_at(d, from) {
        lemma_first_crlf(d, from + 1);
    }
}

/// How an executable reading relates to the spec reading.
pub open spec fn agrees(r: Result<(Frame, usize), RedisErr>, p: Parsed) -> bool {
    match r {
        Ok((f, e)) => p == Parsed::Done(f@, e as int),
        Err(RedisErr::FrameIncomplete) => p == Parsed::Incomplete,
        Err(RedisErr::FrameMalformed) => p == Parsed::Malformed,
        Err(_) => false,
    }
}

/// Relies on std::str::from_utf8: it accepts exactly the valid UTF-8 byte
/// strings, and the text it gives back is made of those bytes.
#[verifier::external_body]
pub(crate) fn utf8_text(data: &[u8], lo: usize, hi: usize) -> (r: Option<String>)
    requires
        lo <= hi <= data@.len(),
    ensures
        r is Some <==> valid_utf8(data@.subrange(lo as int, hi as int)),
        r matches Some(s) ==> encode_utf8(s@) == data@.subrange(lo as int, hi as int),
{
    std::str::from_utf8(&data[lo..hi]).ok().map(|s| s.to_string())
}

/// The position of the first `\r\n` at or after `from`.
pub(crate) fn find_crlf(data: &[u8], from: usize) -> (r: Option<usize>)
    ensures
        match first_crlf(data@, from as int) {
            Some(j) => r == Some(j as usize),
            None => r is None,
        },
{
    let mut i: usize = from;
    while i < data.len() && i + 1 < data.len()
        invariant
            from <= i,
            first_crlf(data@, from as int) == first_crlf(data@, i as int),
        decreases data@.len() - i,
    {
        if data[i] == 13u8 && data[i + 1] == 10u8 {
            return Some(i);
        }
        i = i + 1;
    }
    None
}

/// Copies `data[lo..hi]` into a new vector.
fn copy_range(data: &[u8], lo: usize, hi: usize) -> (r: Vec<u8>)
    requires
        lo <= hi <= data@.len(),
    ensures
        r@ == data@.subrange(lo as int, hi as int),
{
    let mut r: Vec<u8> = Vec::new();
    let mut i: usize = lo;
    while i < hi
        invariant
            lo <= i <= hi <= data@.len(),
            r@ == data@.subrange(lo as int, i as int),
        decreases hi - i,
    {
        r.push(data[i]);
        proof {
            assert(data@.subrange(lo as int, i + 1) =~= data@.subrange(lo as int, i as int).push(data@[i as int]));
        }
        i = i + 1;
    }
    r
}

pub(crate) fn read_line(data: &[u8], pos: usize) -> (r: Result<(Frame, usize), RedisErr>)
    requires
        pos < data@.len(),
        data@[pos as int] == 43 || data@[pos as int] == 45,
    ensures
        agrees(r, parse_line(data@, pos as int)),
        r matches Ok((_, e)) ==> pos < e <= data@.len(),
{
    let _len = data.len();
    match find_crlf(data, pos + 1) {
        None => Err(RedisErr::FrameIncomplete),
        Some(j) => {
            proof {
                lemma_first_crlf(data@, pos + 1);
            }
            match utf8_text(data, pos + 1, j) {
                None => Err(RedisErr::FrameMalformed),
                Some(s) => {
                    proof {
                        encode_utf8_decode_utf8(s@);
                    }
                    if data[pos] == 43u8 {
                        Ok((Frame::SimpleString(s), j + 2))
                    } else {
                        Ok((Frame::Error(s), j + 2))
                    }
                },
            }
        },
    }
}

pub(crate) fn read_integer(data: &[u8], pos: usize) -> (r: Result<(Frame, usize), RedisErr>)
    requires
        pos < data@.len(),
    ensures
        agrees(r, parse_integer(data@, pos as int)),
        r matches Ok((_, e)) ==> pos < e <= data@.len(),
{
    let _len = data.len();
    match find_crlf(data, pos + 1) {
        None => Err(RedisErr::FrameIncomplete),
        Some(j) => {
            proof {
                lemma_first_crlf(data@, pos + 1);
            }
            match read_signed(data, pos + 1, j) {
                Some(i) => Ok((Frame::Integer(i), j + 2)),
                None => Err(RedisErr::FrameMalformed),
            }
        },
    }
}

pub(crate) fn read_bulk(data: &[u8], pos: usize) -> (r: Result<(Frame, usize), RedisErr>)
    requires
        pos < data@.len(),
    ensures
        agrees(r, parse_bulk(data@, pos as int)),
        r matches Ok((_, e)) ==> pos < e <= data@.len(),
{
    let _len = data.len();
    match find_crlf(data, pos + 1) {
        None => Err(RedisErr::FrameIncomplete),
        Some(j) => {
            proof {
                lemma_first_crlf(data@, pos + 1);
            }
            let ghost head = data@.subrange(pos + 1, j as int);
            if j == pos + 3 && data[pos + 1] == 45u8 && data[pos + 2] == 49u8 {
                proof {
                    assert(head =~= seq![45u8, 49u8]);
                }
                return Ok((Frame::Nil, j + 2));
            }
            proof {
                if head == seq![45u8, 49u8] {
                    assert(head.len() == 2);
                    assert(head[0] == data@[pos + 1]);
                }
            }
            match read_unsigned(data, pos + 1, j) {
                None => Err(RedisErr::FrameMalformed),
                Some(n) => {
                    let avail: usize = data.len() - (j + 2);
                    if (avail as u64) < n || avail - (n as usize) < 2 {
                        proof {
                            assert(data@.len() < j + 4 + n);
                        }
                        Err(RedisErr::FrameIncomplete)
                    } else {
                        let m: usize = n as usize;
                        let end: usize = j + 2 + m;
                        if data[end] == 13u8 && data[end + 1] == 10u8 {
                            let b = copy_range(data, j + 2, end);
                            Ok((Frame::BulkString(b), end + 2))
                        } else {
                            Err(RedisErr::FrameMalformed)
                        }
                    }
                },
            }
        },
    }
}


/// The views of a sequence of frames.
pub open spec fn views(s: Seq<Frame>) -> Seq<FrameView> {
    Seq::new(s.len(), |i: int| s[i]@)
}

pub proof fn lemma_array_view(f: Frame)
    ensures
        f matches Frame::Array(v) ==> f@ == FrameView::Array(views(v@)),
{
    if let Frame::Array(v) = f {
        if let FrameView::Array(w) = f@ {
            assert(views(v@) =~= w);
        }
    }
}

/// The words that `bounds` mark in `d`.
pub open spec fn marked(d: Seq<u8>, bounds: Seq<(usize, usize)>) -> Seq<Seq<u8>> {
    Seq::new(bounds.len(), |k: int| d.subrange(bounds[k].0 as int, bounds[k].1 as int))
}

proof fn lemma_inline_words(ts: Seq<Seq<u8>>)
    ensures
        (forall|k: int| 0 <= k < ts.len() ==> (#[trigger] inline_word(ts[k])) is Some) ==> inline_words(
            ts,
        ) == Some(Seq::new(ts.len(), |k: int| inline_word(ts[k])->0)),
        (exists|k: int| 0 <= k < ts.len() && (#[trigger] inline_word(ts[k])) is None) ==> inline_words(
            ts,
        ) is None,
    decreases ts.len(),
{
    if ts.len() > 0 {
        let p = ts.drop_last();
        lemma_inline_words(p);
        assert forall|k: int| 0 <= k < p.len() implies p[k] == ts[k] by {}
        if forall|k: int| 0 <= k < ts.len() ==> (#[trigger] inline_word(ts[k])) is Some {
            assert(inline_word(ts[ts.len() - 1]) is Some);
            assert forall|k: int| 0 <= k < p.len() implies (#[trigger] inline_word(p[k])) is Some by {
                assert(inline_word(ts[k]) is Some);
            }
            assert(inline_words(ts)->0 =~= Seq::new(ts.len(), |k: int| inline_word(ts[k])->0));
        }
        if exists|k: int| 0 <= k < ts.len() && (#[trigger] inline_word(ts[k])) is None {
            let k = choose|k: int| 0 <= k < ts.len() && (#[trigger] inline_word(ts[k])) is None;
            if k < ts.len() - 1 {
                assert(inline_word(p[k]) is None);
            }
        }
    }
}

/// One word of an inline command.
fn read_word(data: &[u8], lo: usize, hi: usize) -> (r: Option<Frame>)
    requires
        lo < hi <= data@.len(),
    ensures
        match inline_word(data@.subrange(lo as int, hi as int)) {
            Some(f) => r matches Some(g) && g@ == f,
            None => r is None,
        },
{
    let ghost t = data@.subrange(lo as int, hi as int);
    let mut i: usize = lo;
    let mut digits = true;
    while i < hi
        invariant
            lo <= i <= hi <= data@.len(),
            t == data@.subrange(lo as int, hi as int),
            digits == all_digits(data@.subrange(lo as int, i as int)),
        decreases hi - i,
    {
        let b = data[i];
        proof {
            let u = data@.subrange(lo as int, i + 1);
            assert(u.drop_last() =~= data@.subrange(lo as int, i as int));
            if all_digits(u) {
                assert(is_digit(u[i - lo]));
            }
            assert forall|k: int| 0 <= k < u.len() - 1 implies u[k] == data@.subrange(lo as int, i as int)[k] by {}
        }
        digits = digits && 48 <= b && b <= 57;
        i = i + 1;
    }
    proof {
        assert(data@.subrange(lo as int, hi as int) =~= t);
    }
    if digits {
        proof {
            assert(t[0] != 45u8) by {
                assert(is_digit(t[0]));
            }
        }
        match read_signed(data, lo, hi) {
            Some(i) => Some(Frame::Integer(i)),
            None => None,
        }
    } else {
        match utf8_text(data, lo, hi) {
            Some(s) => {
                proof {
                    encode_utf8_decode_utf8(s@);
                }
                Some(Frame::SimpleString(s))
            },
            None => None,
        }
    }
}

fn read_inline(data: &[u8], pos: usize) -> (r: Result<(Frame, usize), RedisErr>)
    requires
        pos < data@.len(),
        is_alnum(data@[pos as int]),
    ensures
        agrees(r, parse_inline(data@, pos as int)),
        r matches Ok((_, e)) ==> pos < e <= data@.len(),
{
    let len = data.len();
    proof {
        lemma_first_crlf(data@, pos as int);
    }
    let (end, next) = match find_crlf(data, pos) {
        Some(j) => (j, j + 2),
        None => (len, len),
    };
    proof {
        if end < len {
            assert(end != pos) by {
                assert(data@[pos as int] != 13);
            }
        }
    }
    let ghost d = data@;
    let mut bounds: Vec<(usize, usize)> = Vec::new();
    let mut start: usize = pos;
    let mut i: usize = pos;
    while i < end
        invariant
            pos <= start <= i <= end <= d.len(),
            d == data@,
            forall|k: int| start <= k < i ==> d[k] != 32,
            start == i ==> (i == pos || d[i - 1] == 32),
            forall|k: int|
                0 <= k < bounds@.len() ==> pos <= (#[trigger] bounds@[k]).0 < bounds@[k].1 <= i,
            split_spaces(d.subrange(pos as int, i as int)) == marked(d, bounds@) + (if start < i {
                seq![d.subrange(start as int, i as int)]
            } else {
                Seq::empty()
            }),
        decreases end - i,
    {
        let ghost before = bounds@;
        let ghost s1 = d.subrange(pos as int, i + 1);
        proof {
            assert(s1.drop_last() =~= d.subrange(pos as int, i as int));
            assert(s1.last() == d[i as int]);
            if i > pos {
                assert(s1[s1.len() - 2] == d[i - 1]);
            }
        }
        if data[i] == 32u8 {
            if start < i {
                bounds.push((start, i));
                proof {
                    assert(marked(d, bounds@) =~= marked(d, before).push(d.subrange(start as int, i as int)));
                }
            }
            start = i + 1;
        } else {
            proof {
                if start < i {
                    let p = split_spaces(d.subrange(pos as int, i as int));
                    assert(p.drop_last() =~= marked(d, bounds@));
                    assert(d.subrange(start as int, i + 1) =~= d.subrange(start as int, i as int).push(d[i as int]));
                    assert(split_spaces(s1) =~= marked(d, bounds@).push(d.subrange(start as int, i + 1)));
                } else {
                    assert(d.subrange(start as int, i + 1) =~= seq![d[i as int]]);
                    assert(split_spaces(s1) =~= marked(d, bounds@).push(d.subrange(start as int, i + 1)));
                }
            }
        }
        i = i + 1;
    }
    let ghost before = bounds@;
    if start < end {
        bounds.push((start, end));
        proof {
            assert(marked(d, bounds@) =~= marked(d, before).push(d.subrange(start as int, end as int)));
        }
    }
    proof {
        assert(split_spaces(d.subrange(pos as int, end as int)) =~= marked(d, bounds@));
        lemma_inline_words(marked(d, bounds@));
    }
    let ghost ws = marked(d, bounds@);
    let ghost whole = match inline_words(ws) {
        Some(items) => Parsed::Done(FrameView::Array(items), next as int),
        None => Parsed::Malformed,
    };
    assert(parse_inline(d, pos as int) == whole);
    let mut items: Vec<Frame> = Vec::new();
    let mut k: usize = 0;
    while k < bounds.len()
        invariant
            k <= bounds@.len(),
            ws == marked(d, bounds@),
            parse_inline(d, pos as int) == whole,
            whole == (match inline_words(ws) {
                Some(items) => Parsed::Done(FrameView::Array(items), next as int),
                None => Parsed::Malformed,
            }),
            d == data@,
            forall|m: int|
                0 <= m < bounds@.len() ==> pos <= (#[trigger] bounds@[m]).0 < bounds@[m].1 <= d.len(),
            forall|m: int| 0 <= m < k ==> (#[trigger] inline_word(ws[m])) is Some,
            views(items@) =~= Seq::new(k as nat, |m: int| inline_word(ws[m])->0),
        decreases bounds@.len() - k,
    {
        let (a, b) = bounds[k];
        proof {
            assert(ws[k as int] == d.subrange(a as int, b as int));
        }
        match read_word(data, a, b) {
            Some(f) => {
                let ghost before = items@;
                items.push(f);
                proof {
                    assert(views(items@) =~= views(before).push(f@));
                }
            },
            None => {
                proof {
                    assert(inline_word(data@.subrange(a as int, b as int)) is None);
                    assert(ws[k as int] == data@.subrange(a as int, b as int));
                    assert(inline_word(ws[k as int]) is None);
                    lemma_inline_words(ws);
                }
                return Err(RedisErr::FrameMalformed);
            },
        }
        k = k + 1;
    }
    let ghost v = items@;
    let r = Frame::Array(items);
    proof {
        lemma_inline_words(ws);
        lemma_array_view(r);
        assert(views(v) =~= Seq::new(ws.len(), |m: int| inline_word(ws[m])->0));
    }
    Ok((r, next))
}

proof fn lemma_prepend_prepend(a: Seq<FrameView>, b: Seq<FrameView>, x: Parsed)
    ensures
        prepend(a, prepend(b, x)) == prepend(a + b, x),
{
    match x {
        Parsed::Done(FrameView::Array(items), e) => {
            assert(a + (b + items) =~= (a + b) + items);
        },
        _ => {},
    }
}

/// Reads one frame that starts at `pos`, and the position just past it.
pub(crate) fn read_frame_at(data: &[u8], pos: usize) -> (r: Result<(Frame, usize), RedisErr>)
    ensures
        agrees(r, parse_at(data@, pos as int)),
        r matches Ok((_, e)) ==> pos < e <= data@.len(),
    decreases data@.len() - pos,
{
    let len = data.len();
    if pos >= len {
        return Err(RedisErr::FrameIncomplete);
    }
    let t = data[pos];
    if t == 43u8 || t == 45u8 {
        read_line(data, pos)
    } else if t == 58u8 {
        read_integer(data, pos)
    } else if t == 36u8 {
        read_bulk(data, pos)
    } else if t == 42u8 {
        match find_crlf(data, pos + 1) {
            None => Err(RedisErr::FrameIncomplete),
            Some(j) => {
                proof {
                    lemma_first_crlf(data@, pos + 1);
                }
                match read_unsigned(data, pos + 1, j) {
                    None => Err(RedisErr::FrameMalformed),
                    Some(k) => {
                        let ghost d = data@;
                        let mut items: Vec<Frame> = Vec::new();
                        let mut p: usize = j + 2;
                        let mut i: u64 = 0;
                        while i < k
                            invariant
                                d == data@,
                                pos < j + 2 <= p <= d.len(),
                                i <= k,
                                parse_at(d, pos as int) == prepend(
                                    views(items@),
                                    parse_items(d, p as int, (k - i) as nat),
                                ),
                            decreases k - i,
                        {
                            let ghost before = items@;
                            match read_frame_at(data, p) {
                                Err(e) => {
                                    return Err(e);
                                },
                                Ok((f, e)) => {
                                    proof {
                                        lemma_prepend_prepend(
                                            views(before),
                                            seq![f@],
                                            parse_items(d, e as int, (k - i - 1) as nat),
                                        );
                                    }
                                    items.push(f);
                                    proof {
                                        assert(views(items@) =~= views(before) + seq![f@]);
                                    }
                                    p = e;
                                },
                            }
                            i = i + 1;
                        }
                        let ghost v = items@;
                        let r = Frame::Array(items);
                        proof {
                            lemma_array_view(r);
                            assert(views(items@) + Seq::<FrameView>::empty() =~= views(items@));
                        }
                        Ok((r, p))
                    },
                }
            },
        }
    } else if (48u8 <= t && t <= 57u8) || (65u8 <= t && t <= 90u8) || (97u8 <= t && t <= 122u8) {
        read_inline(data, pos)
    } else {
        Err(RedisErr::FrameMalformed)
    }
}

impl Frame {
    /// Reads the frame at the start of `data`, without consuming anything:
    /// `FrameIncomplete` when more bytes could complete it, `FrameMalformed`
    /// when no continuation could.
    pub fn from_bytes(data: &[u8]) -> (r: Result<Frame, RedisErr>)
        ensures
            match parse_at(data@, 0) {
                Parsed::Done(f, _) => r matches Ok(g) && g@ == f,
                Parsed::Incomplete => r == Err::<Frame, RedisErr>(RedisErr::FrameIncomplete),
                Parsed::Malformed => r == Err::<Frame, RedisErr>(RedisErr::FrameMalformed),
            },
    {
        match read_frame_at(data, 0) {
            Ok((f, _)) => Ok(f),
            Err(e) => Err(e),
        }
    }
}


/// The encodings of the first `i` items come first in the encoding of all of them.
proof fn lemma_encode_items_prefix(items: Seq<FrameView>, i: int)
    requires
        0 <= i <= items.len(),
    ensures
        encode_items(items.subrange(0, i)).len() <= encode_items(items).len(),
        i < items.len() ==> encode_items(items.subrange(0, i + 1)) == encode_items(
            items.subrange(0, i),
        ) + encode(items[i]),
    decreases items.len(),
{
    if i < items.len() {
        let t = items.subrange(0, i + 1);
        assert(t.drop_last() =~= items.subrange(0, i));
        assert(t.last() == items[i]);
        let p = items.drop_last();
        assert(p.subrange(0, i) =~= items.subrange(0, i));
        lemma_encode_items_prefix(p, i);
        if i + 1 < items.len() {
            assert(p.subrange(0, i + 1) =~= t);
        } else {
            assert(t =~= items);
        }
    } else {
        assert(items.subrange(0, i) =~= items);
    }
}

/// Appends all of `src`.
fn push_all(out: &mut Vec<u8>, src: &[u8])
    ensures
        final(out)@ == old(out)@ + src@,
{
    let ghost start = out@;
    let mut i: usize = 0;
    while i < src.len()
        invariant
            i <= src@.len(),
            out@ == start + src@.subrange(0, i as int),
        decreases src@.len() - i,
    {
        out.push(src[i]);
        proof {
            assert(src@.subrange(0, i + 1) =~= src@.subrange(0, i as int).push(src@[i as int]));
        }
        i = i + 1;
    }
    proof {
        assert(src@.subrange(0, src@.len() as int) =~= src@);
    }
}

fn push_crlf(out: &mut Vec<u8>)
    ensures
        final(out)@ == old(out)@ + crlf(),
{
    out.push(13u8);
    out.push(10u8);
    proof {
        assert(final(out)@ =~= old(out)@ + crlf());
    }
}

impl Frame {
    /// Appends the encoding of this frame.
    pub fn write_to(&self, out: &mut Vec<u8>)
        ensures
            final(out)@ == old(out)@ + encode(self@),
        decreases self,
    {
        let ghost start = out@;
        match self {
            Frame::Nil => {
                out.push(36u8);
                out.push(45u8);
                out.push(49u8);
                push_crlf(out);
                proof {
                    assert(out@ =~= start + encode(self@));
                }
            },
            Frame::SimpleString(s) => {
                out.push(43u8);
                push_all(out, s.as_str().as_bytes());
                push_crlf(out);
                proof {
                    assert(out@ =~= start + encode(self@));
                }
            },
            Frame::Error(s) => {
                out.push(45u8);
                push_all(out, s.as_str().as_bytes());
                push_crlf(out);
                proof {
                    assert(out@ =~= start + encode(self@));
                }
            },
            Frame::Integer(i) => {
                out.push(58u8);
                push_signed_decimal(out, *i);
                push_crlf(out);
                proof {
                    assert(out@ =~= start + encode(self@));
                }
            },
            Frame::BulkString(b) => {
                out.push(36u8);
                push_decimal(out, b.len() as u64);
                push_crlf(out);
                push_all(out, b.as_slice());
                push_crlf(out);
                proof {
                    assert(out@ =~= start + encode(self@));
                }
            },
            Frame::Array(v) => {
                let ghost items = views(v@);
                proof {
                    lemma_array_view(*self);
                }
                out.push(42u8);
                push_decimal(out, v.len() as u64);
                push_crlf(out);
                let ghost head = out@;
                let mut i: usize = 0;
                while i < v.len()
                    invariant
                        i <= v@.len(),
                        items == views(v@),
                        *self == Frame::Array(*v),
                        out@ == head + encode_items(items.subrange(0, i as int)),
                    decreases v@.len() - i,
                {
                    proof {
                        lemma_encode_items_prefix(items, i as int);
                        vstd::std_specs::vec::axiom_vec_index_decreases(*v, i as int);
                        assert(decreases_to!(*self => (*self)->Array_0));
                        assert(decreases_to!(*self => v[i as int]));
                    }
                    v[i].write_to(out);
                    proof {
                        assert(out@ =~= head + encode_items(items.subrange(0, i + 1)));
                    }
                    i = i + 1;
                }
                proof {
                    assert(items.subrange(0, v@.len() as int) =~= items);
                    assert(out@ =~= start + encode(self@));
                }
            },
        }
    }

    /// The bytes of this frame on the wire.
    pub fn serialize(self) -> (r: Vec<u8>)
        ensures
            r@ == encode(self@),
    {
        let mut out: Vec<u8> = Vec::new();
        self.write_to(&mut out);
        proof {
            assert(out@ =~= encode(self@));
        }
        out
    }

    /// The number of bytes that `serialize` writes for this frame.
    pub fn len(&self) -> (r: usize)
        requires
            encode(self@).len() <= usize::MAX,
        ensures
            r == encode(self@).len(),
        decreases self,
    {
        match self {
            Frame::Nil => {
                proof {
                    assert(encode(self@) =~= seq![36u8, 45u8, 49u8, 13u8, 10u8]);
                }
                5
            },
            Frame::SimpleString(s) => s.as_str().len() + 3,
            Frame::Error(s) => s.as_str().len() + 3,
            Frame::Integer(i) => signed_decimal_len(*i) + 3,
            Frame::BulkString(b) => b.len() + 5 + decimal_len(b.len() as u64),
            Frame::Array(v) => {
                let ghost items = views(v@);
                proof {
                    lemma_array_view(*self);
                }
                let mut sum: usize = 0;
                let mut i: usize = 0;
                while i < v.len()
                    invariant
                        i <= v@.len(),
                        items == views(v@),
                        *self == Frame::Array(*v),
                        encode(self@) == seq![42u8] + decimal(v@.len() as nat) + crlf() + encode_items(items),
                        encode(self@).len() <= usize::MAX,
                        sum == encode_items(items.subrange(0, i as int)).len(),
                    decreases v@.len() - i,
                {
                    proof {
                        lemma_encode_items_prefix(items, i as int);
                        lemma_encode_items_prefix(items, i + 1);
                    }
                    proof {
                        vstd::std_specs::vec::axiom_vec_index_decreases(*v, i as int);
                        assert(decreases_to!(*self => (*self)->Array_0));
                        assert(decreases_to!(*self => v[i as int]));
                    }
                    let k = v[i].len();
                    sum = sum + k;
                    i = i + 1;
                }
                proof {
                    assert(items.subrange(0, v@.len() as int) =~= items);
                }
                sum + 3 + decimal_len(v.len() as u64)
            },
        }
    }
}

} // verus!
