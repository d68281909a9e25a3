//! Reading the arguments of a request: the frames of an array, by position.
use vstd::prelude::*;
use vstd::utf8::*;

use crate::decimal::{i64_text, read_signed};
use crate::err::RedisErr;
use crate::frame::{utf8_text, views, Frame, FrameView};
use crate::value::copy_bytes;

verus! {

broadcast use vstd::utf8::group_utf8_lib;

/// ASCII letters made upper case, other bytes kept.
pub open spec fn ascii_upper(b: Seq<u8>) -> Seq<u8> {
    b.map_values(|c: u8| if 97 <= c && c <= 122 {
        (c - 32) as u8
    } else {
        c
    })
}

/// The text of argument `i`: a simple string, or a bulk string in UTF-8.
/// Any other frame is refused, an integer too: an inline request turns a
/// word of digits into an integer frame, and such a word cannot stand where
/// a text or a value is read.
pub open spec fn string_arg(fs: Seq<FrameView>, i: int) -> Result<Seq<char>, RedisErr> {
    if i < 0 || i >= fs.len() {
        Err(RedisErr::WrongNumberOfArguments)
    } else {
        match fs[i] {
            FrameView::Simple(s) => Ok(s),
            FrameView::Bulk(b) => if valid_utf8(b) {
                Ok(decode_utf8(b))
            } else {
                Err(RedisErr::InvalidArgument)
            },
            _ => Err(RedisErr::InvalidProtocol),
        }
    }
}

/// The bytes of argument `i`: a bulk string, or the UTF-8 of a simple string.
pub open spec fn bytes_arg(fs: Seq<FrameView>, i: int) -> Result<Seq<u8>, RedisErr> {
    if i < 0 || i >= fs.len() {
        Err(RedisErr::WrongNumberOfArguments)
    } else {
        match fs[i] {
            FrameView::Simple(s) => Ok(encode_utf8(s)),
            FrameView::Bulk(b) => Ok(b),
            _ => Err(RedisErr::InvalidProtocol),
        }
    }
}

/// The integer of argument `i`: an integer frame, or a string that writes
/// one; a string that does not is of the wrong type.
pub open spec fn integer_arg(fs: Seq<FrameView>, i: int) -> Result<i64, RedisErr> {
    if i < 0 || i >= fs.len() {
        Err(RedisErr::WrongNumberOfArguments)
    } else {
        match fs[i] {
            FrameView::Integer(n) => Ok(n as i64),
            FrameView::Simple(s) => match i64_text(encode_utf8(s)) {
                Some(v) => Ok(v),
                None => Err(RedisErr::InvalidProtocol),
            },
            FrameView::Bulk(b) => match i64_text(b) {
                Some(v) => Ok(v),
                None => Err(RedisErr::InvalidProtocol),
            },
            _ => Err(RedisErr::InvalidProtocol),
        }
    }
}

/// Whether argument `i` is the word `name`, in any case.
pub open spec fn word_arg(fs: Seq<FrameView>, i: int, name: Seq<char>) -> Result<(), RedisErr> {
    if i < 0 || i >= fs.len() {
        Err(RedisErr::WrongNumberOfArguments)
    } else {
        match fs[i] {
            FrameView::Simple(s) => if ascii_upper(encode_utf8(s)) == encode_utf8(name) {
                Ok(())
            } else {
                Err(RedisErr::InvalidProtocol)
            },
            FrameView::Bulk(b) => if ascii_upper(b) == encode_utf8(name) {
                Ok(())
            } else {
                Err(RedisErr::InvalidProtocol)
            },
            _ => Err(RedisErr::InvalidProtocol),
        }
    }
}

/// Whether `b`, with ASCII letters made upper case, is `name`.
pub fn upper_is(b: &[u8], name: &str) -> (r: bool)
    ensures
        r == (ascii_upper(b@) == encode_utf8(name@)),
{
    let n = name.as_bytes();
    if b.len() != n.len() {
        proof {
            assert(ascii_upper(b@).len() == b@.len());
        }
        return false;
    }
    let mut i: usize = 0;
    while i < b.len()
        invariant
            b@.len() == n@.len(),
            n@ == encode_utf8(name@),
            i <= b@.len(),
            forall|k: int| 0 <= k < i ==> ascii_upper(b@)[k] == n@[k],
        decreases b@.len() - i,
    {
        let c = b[i];
        let u: u8 = if 97u8 <= c && c <= 122u8 {
            c - 32
        } else {
            c
        };
        if u != n[i] {
            proof {
                assert(ascii_upper(b@)[i as int] == u);
            }
            return false;
        }
        i = i + 1;
    }
    proof {
        assert(ascii_upper(b@) =~= n@);
    }
    true
}

/// Whether the text `s` is the word `name`, in any case.
pub fn is_word(s: &str, name: &str) -> (r: bool)
    ensures
        r == (ascii_upper(encode_utf8(s@)) == encode_utf8(name@)),
{
    upper_is(s.as_bytes(), name)
}

/// The text of argument `i`.
pub fn next_string(frames: &Vec<Frame>, i: usize) -> (r: Result<String, RedisErr>)
    ensures
        match string_arg(views(frames@), i as int) {
            Ok(s) => r matches Ok(t) && t@ == s,
            Err(e) => r == Err::<String, RedisErr>(e),
        },
{
    if i >= frames.len() {
        return Err(RedisErr::WrongNumberOfArguments);
    }
    match &frames[i] {
        Frame::SimpleString(s) => Ok(s.clone()),
        Frame::BulkString(b) => match utf8_text(b.as_slice(), 0, b.len()) {
            Some(s) => {
                proof {
                    assert(b@.subrange(0, b@.len() as int) =~= b@);
                    encode_utf8_decode_utf8(s@);
                }
                Ok(s)
            },
            None => {
                proof {
                    assert(b@.subrange(0, b@.len() as int) =~= b@);
                }
                Err(RedisErr::InvalidArgument)
            },
        },
        _ => Err(RedisErr::InvalidProtocol),
    }
}

/// The bytes of argument `i`.
pub fn next_bytes(frames: &Vec<Frame>, i: usize) -> (r: Result<Vec<u8>, RedisErr>)
    ensures
        match bytes_arg(views(frames@), i as int) {
            Ok(b) => r matches Ok(v) && v@ == b,
            Err(e) => r == Err::<Vec<u8>, RedisErr>(e),
        },
{
    if i >= frames.len() {
        return Err(RedisErr::WrongNumberOfArguments);
    }
    match &frames[i] {
        Frame::SimpleString(s) => Ok(copy_bytes(s.as_str().as_bytes())),
        Frame::BulkString(b) => Ok(copy_bytes(b.as_slice())),
        _ => Err(RedisErr::InvalidProtocol),
    }
}

/// The integer of argument `i`.
pub fn next_integer(frames: &Vec<Frame>, i: usize) -> (r: Result<i64, RedisErr>)
    ensures
        r == integer_arg(views(frames@), i as int),
{
    if i >= frames.len() {
        return Err(RedisErr::WrongNumberOfArguments);
    }
    match &frames[i] {
        Frame::Integer(n) => Ok(*n),
        Frame::SimpleString(s) => {
            let b = s.as_str().as_bytes();
            proof {
                assert(b@.subrange(0, b@.len() as int) =~= b@);
            }
            match read_signed(b, 0, b.len()) {
                Some(v) => Ok(v),
                None => Err(RedisErr::InvalidProtocol),
            }
        },
        Frame::BulkString(b) => {
            proof {
                assert(b@.subrange(0, b@.len() as int) =~= b@);
            }
            match read_signed(b.as_slice(), 0, b.len()) {
                Some(v) => Ok(v),
                None => Err(RedisErr::InvalidProtocol),
            }
        },
        _ => Err(RedisErr::InvalidProtocol),
    }
}

/// Checks that argument `i` is the word `name`, in any case.
pub fn check_word(frames: &Vec<Frame>, i: usize, name: &str) -> (r: Result<(), RedisErr>)
    ensures
        r == word_arg(views(frames@), i as int, name@),
{
    if i >= frames.len() {
        return Err(RedisErr::WrongNumberOfArguments);
    }
    match &frames[i] {
        Frame::SimpleString(s) => if is_word(s.as_str(), name) {
            Ok(())
        } else {
            Err(RedisErr::InvalidProtocol)
        },
        Frame::BulkString(b) => if upper_is(b.as_slice(), name) {
            Ok(())
        } else {
            Err(RedisErr::InvalidProtocol)
        },
        _ => Err(RedisErr::InvalidProtocol),
    }
}

/// Checks that the request starts with the command name `name`.
pub fn check_cmd(frames: &Vec<Frame>, name: &str) -> (r: Result<(), RedisErr>)
    ensures
        r == word_arg(views(frames@), 0, name@),
{
    check_word(frames, 0, name)
}

} // verus!
