//! Laws of the frame codec: reading an encoding gives the frame back, and
//! every strict prefix of an encoding asks for more bytes.
use vstd::prelude::*;
use vstd::utf8::*;

use crate::decimal::{decimal, i64_text, is_digit, lemma_decimal, lemma_signed_decimal, signed_decimal};
use crate::frame::{
    count_text, crlf, crlf_at, encode, encode_items, first_crlf, parse_at, parse_items, FrameView,
    Parsed,
};

verus! {

broadcast use vstd::utf8::group_utf8_lib;

/// No `\r\n` inside `b`.
pub open spec fn no_crlf(b: Seq<u8>) -> bool {
    forall|k: int| 0 <= k && k + 1 < b.len() ==> !(b[k] == 13 && #[trigger] b[k + 1] == 10)
}

/// The frames whose encoding reads back as the same frame: a simple string
/// or an error holds no `\r\n`, an integer fits in an `i64`, and counts fit
/// in a `u64`.
pub open spec fn well_formed(f: FrameView) -> bool
    decreases f,
{
    match f {
        FrameView::Nil => true,
        FrameView::Simple(s) => no_crlf(encode_utf8(s)),
        FrameView::Error(s) => no_crlf(encode_utf8(s)),
        FrameView::Integer(i) => i64::MIN <= i && i <= i64::MAX,
        FrameView::Bulk(b) => b.len() <= u64::MAX,
        FrameView::Array(items) => items.len() <= u64::MAX && forall|k: int|
            0 <= k < items.len() ==> well_formed(#[trigger] items[k]),
    }
}

/// `e` stands in `d` from `pos` on.
pub open spec fn sits_at(d: Seq<u8>, pos: int, e: Seq<u8>) -> bool {
    0 <= pos && pos + e.len() <= d.len() && d.subrange(pos, pos + e.len()) == e
}

/// `d` ends inside `e`, which starts at `pos`: what stands from `pos` on is a
/// strict prefix of `e`.
pub open spec fn ends_inside(d: Seq<u8>, pos: int, e: Seq<u8>) -> bool {
    0 <= pos <= d.len() && d.len() < pos + e.len() && d.subrange(pos, d.len() as int) == e.subrange(
        0,
        d.len() - pos,
    )
}

/// The bytes of `d` from `pos` on agree with `e`, as far as both go.
pub open spec fn agrees_from(d: Seq<u8>, pos: int, e: Seq<u8>) -> bool {
    forall|k: int| pos <= k < d.len() && k < pos + e.len() ==> #[trigger] d[k] == e[k - pos]
}

proof fn lemma_sits_agrees(d: Seq<u8>, pos: int, e: Seq<u8>)
    requires
        sits_at(d, pos, e),
    ensures
        agrees_from(d, pos, e),
{
    assert forall|k: int| pos <= k < d.len() && k < pos + e.len() implies #[trigger] d[k] == e[k
        - pos] by {
        assert(d.subrange(pos, pos + e.len())[k - pos] == d[k]);
    }
}

proof fn lemma_cut_agrees(d: Seq<u8>, pos: int, e: Seq<u8>)
    requires
        ends_inside(d, pos, e),
    ensures
        agrees_from(d, pos, e),
{
    assert forall|k: int| pos <= k < d.len() && k < pos + e.len() implies #[trigger] d[k] == e[k
        - pos] by {
        assert(d.subrange(pos, d.len() as int)[k - pos] == d[k]);
        assert(e.subrange(0, d.len() - pos)[k - pos] == e[k - pos]);
    }
}

/// Agreement with `x + y` is agreement with `x`, then with `y` past it.
proof fn lemma_split(d: Seq<u8>, pos: int, x: Seq<u8>, y: Seq<u8>)
    requires
        agrees_from(d, pos, x + y),
    ensures
        agrees_from(d, pos, x),
        agrees_from(d, pos + x.len(), y),
{
    assert forall|k: int| pos <= k < d.len() && k < pos + x.len() implies #[trigger] d[k] == x[k
        - pos] by {
        assert((x + y)[k - pos] == x[k - pos]);
    }
    assert forall|k: int|
        pos + x.len() <= k < d.len() && k < pos + x.len() + y.len() implies #[trigger] d[k] == y[k
        - (pos + x.len())] by {
        assert((x + y)[k - pos] == y[k - pos - x.len()]);
    }
}

proof fn lemma_agrees_subrange(d: Seq<u8>, pos: int, e: Seq<u8>)
    requires
        agrees_from(d, pos, e),
        0 <= pos,
        pos + e.len() <= d.len(),
    ensures
        d.subrange(pos, pos + e.len()) == e,
{
    assert(d.subrange(pos, pos + e.len()) =~= e);
}

proof fn lemma_first_crlf_is(d: Seq<u8>, from: int, j: int)
    requires
        0 <= from <= j,
        crlf_at(d, j),
        forall|k: int| from <= k < j ==> !#[trigger] crlf_at(d, k),
    ensures
        first_crlf(d, from) == Some(j),
    decreases j - from,
{
    if from < j {
        assert(!crlf_at(d, from));
        lemma_first_crlf_is(d, from + 1, j);
    }
}

proof fn lemma_first_crlf_none(d: Seq<u8>, from: int)
    requires
        0 <= from,
        forall|k: int| from <= k ==> !#[trigger] crlf_at(d, k),
    ensures
        first_crlf(d, from) is None,
    decreases d.len() - from,
{
    if from + 1 < d.len() {
        assert(!crlf_at(d, from));
        lemma_first_crlf_none(d, from + 1);
    }
}

/// A line `b` and its `\r\n`: when the buffer holds all of it, the line ends
/// at the first `\r\n`; when it stops before, there is no `\r\n` from the
/// start of the line on.
proof fn lemma_line(d: Seq<u8>, start: int, b: Seq<u8>)
    requires
        0 <= start <= d.len(),
        agrees_from(d, start, b + crlf()),
        no_crlf(b),
    ensures
        d.len() >= start + b.len() + 2 ==> first_crlf(d, start) == Some(start + b.len()) && d.subrange(
            start,
            start + b.len(),
        ) == b,
        d.len() < start + b.len() + 2 ==> first_crlf(d, start) is None,
{
    let e = b + crlf();
    assert forall|k: int| start <= k implies !(#[trigger] crlf_at(d, k) && k < start + b.len()) by {
        if crlf_at(d, k) && k < start + b.len() {
            let i = k - start;
            assert(d[k] == e[i]);
            assert(d[k + 1] == e[i + 1]);
            if i + 1 < b.len() {
                assert(e[i] == b[i]);
                assert(e[i + 1] == b[i + 1]);
                assert(!(b[i] == 13 && b[i + 1] == 10));
            } else {
                assert(e[i + 1] == 13);
            }
        }
    }
    if d.len() >= start + b.len() + 2 {
        assert(crlf_at(d, start + b.len())) by {
            assert(d[start + b.len()] == e[b.len() as int]);
            assert(d[start + b.len() + 1] == e[b.len() + 1int]);
        }
        lemma_first_crlf_is(d, start, start + b.len());
        lemma_split(d, start, b, crlf());
        lemma_agrees_subrange(d, start, b);
    } else {
        assert forall|k: int| start <= k implies !#[trigger] crlf_at(d, k) by {
            if crlf_at(d, k) && k >= start + b.len() {
                assert(k + 1 >= d.len());
            }
        }
        lemma_first_crlf_none(d, start);
    }
}

proof fn lemma_digits_no_crlf(s: Seq<u8>)
    requires
        forall|k: int| 0 <= k < s.len() ==> is_digit(#[trigger] s[k]) || s[k] == 45,
    ensures
        no_crlf(s),
{
    assert forall|k: int| 0 <= k && k + 1 < s.len() implies !(s[k] == 13 && #[trigger] s[k + 1]
        == 10) by {
        assert(is_digit(s[k]) || s[k] == 45);
    }
}

proof fn lemma_decimal_line(n: nat)
    ensures
        no_crlf(decimal(n)),
        count_text(decimal(n)) == (if n <= u64::MAX {
            Some(n)
        } else {
            None::<nat>
        }),
        decimal(n) != seq![45u8, 49u8],
{
    lemma_decimal(n);
    let s = decimal(n);
    assert forall|k: int| 0 <= k < s.len() implies is_digit(#[trigger] s[k]) || s[k] == 45 by {}
    lemma_digits_no_crlf(s);
    assert(is_digit(s[0]));
}

/// The encodings of the items, read from the front.
proof fn lemma_encode_items_front(items: Seq<FrameView>)
    requires
        items.len() > 0,
    ensures
        encode_items(items) == encode(items[0]) + encode_items(items.drop_first()),
    decreases items.len(),
{
    if items.len() == 1 {
        assert(items.drop_last() =~= Seq::<FrameView>::empty());
        assert(items.drop_first() =~= Seq::<FrameView>::empty());
        assert(encode_items(items) == encode_items(items.drop_last()) + encode(items.last()));
        assert(encode_items(Seq::<FrameView>::empty()) == Seq::<u8>::empty());
        assert(encode_items(items) =~= encode(items[0]));
        assert(encode_items(items.drop_first()) == Seq::<u8>::empty());
        assert(encode(items[0]) + Seq::<u8>::empty() =~= encode(items[0]));
    } else {
        let p = items.drop_last();
        lemma_encode_items_front(p);
        assert(p.drop_first() =~= items.drop_first().drop_last());
        assert(items.drop_first().last() == items.last());
        assert(encode_items(items) =~= encode(items[0]) + encode_items(items.drop_first()));
    }
}

/// A frame read as a line after its type byte: simple strings, errors and integers.
proof fn lemma_line_frame(d: Seq<u8>, pos: int, t: u8, b: Seq<u8>)
    requires
        0 <= pos < d.len(),
        agrees_from(d, pos, seq![t] + b + crlf()),
        no_crlf(b),
    ensures
        d[pos] == t,
        d.len() >= pos + b.len() + 3 ==> first_crlf(d, pos + 1) == Some(pos + 1 + b.len())
            && d.subrange(pos + 1, pos + 1 + b.len()) == b,
        d.len() < pos + b.len() + 3 ==> first_crlf(d, pos + 1) is None,
{
    assert((seq![t] + b + crlf()) =~= seq![t] + (b + crlf()));
    lemma_split(d, pos, seq![t], b + crlf());
    assert(d[pos] == seq![t][0]);
    lemma_line(d, pos + 1, b);
}

/// A frame with a count line after its type byte: bulk strings and arrays.
proof fn lemma_counted_frame(d: Seq<u8>, pos: int, t: u8, n: nat, rest: Seq<u8>)
    requires
        0 <= pos < d.len(),
        agrees_from(d, pos, seq![t] + decimal(n) + crlf() + rest),
    ensures
        d[pos] == t,
        ({
            let j = pos + 1 + decimal(n).len();
            &&& d.len() >= j + 2 ==> first_crlf(d, pos + 1) == Some(j) && d.subrange(pos + 1, j)
                == decimal(n) && agrees_from(d, j + 2, rest)
            &&& d.len() < j + 2 ==> first_crlf(d, pos + 1) is None
        }),
        decimal(n) != seq![45u8, 49u8],
        count_text(decimal(n)) == (if n <= u64::MAX {
            Some(n)
        } else {
            None::<nat>
        }),
{
    let h = decimal(n);
    lemma_decimal_line(n);
    assert(seq![t] + h + crlf() + rest =~= seq![t] + ((h + crlf()) + rest));
    lemma_split(d, pos, seq![t], (h + crlf()) + rest);
    assert(d[pos] == seq![t][0]);
    lemma_split(d, pos + 1, h + crlf(), rest);
    lemma_line(d, pos + 1, h);
}

/// Reading the encoding of a well-formed frame, wherever it stands in a
/// buffer, gives the frame and the position just past its bytes.
#[verifier::rlimit(80)]
pub proof fn lemma_parse_encoded(d: Seq<u8>, pos: int, f: FrameView)
    requires
        well_formed(f),
        sits_at(d, pos, encode(f)),
    ensures
        parse_at(d, pos) == Parsed::Done(f, pos + encode(f).len()),
    decreases f,
{
    let e = encode(f);
    lemma_sits_agrees(d, pos, e);
    match f {
        FrameView::Nil => {
            assert(e =~= seq![36u8] + seq![45u8, 49u8] + crlf());
            lemma_line_frame(d, pos, 36u8, seq![45u8, 49u8]);
        },
        FrameView::Simple(s) => {
            lemma_line_frame(d, pos, 43u8, encode_utf8(s));
        },
        FrameView::Error(s) => {
            lemma_line_frame(d, pos, 45u8, encode_utf8(s));
        },
        FrameView::Integer(i) => {
            let b = signed_decimal(i);
            lemma_signed_decimal(i);
            lemma_digits_no_crlf(b);
            lemma_line_frame(d, pos, 58u8, b);
            assert(i64_text(b) == Some(i as i64));
        },
        FrameView::Bulk(b) => {
            lemma_counted_frame(d, pos, 36u8, b.len(), b + crlf());
            let j = pos + 1 + decimal(b.len()).len();
            lemma_split(d, j + 2, b, crlf());
            lemma_agrees_subrange(d, j + 2, b);
            let n = b.len() as int;
            assert(crlf_at(d, j + 2 + n)) by {
                assert(d[j + 2 + n] == crlf()[0]);
                assert(d[j + 3 + n] == crlf()[1]);
            }
        },
        FrameView::Array(items) => {
            let rest = encode_items(items);
            lemma_counted_frame(d, pos, 42u8, items.len(), rest);
            let j = pos + 1 + decimal(items.len()).len();
            assert(sits_at(d, j + 2, rest)) by {
                lemma_agrees_subrange(d, j + 2, rest);
            }
            lemma_parse_encoded_items(d, j + 2, items);
            assert(Seq::<FrameView>::empty() + items =~= items);
        },
    }
}

/// Reading the encodings of well-formed items one after another gives them
/// back as an array.
#[verifier::rlimit(40)]
pub proof fn lemma_parse_encoded_items(d: Seq<u8>, pos: int, items: Seq<FrameView>)
    requires
        forall|k: int| 0 <= k < items.len() ==> well_formed(#[trigger] items[k]),
        sits_at(d, pos, encode_items(items)),
    ensures
        parse_items(d, pos, items.len()) == Parsed::Done(
            FrameView::Array(items),
            pos + encode_items(items).len(),
        ),
    decreases items,
{
    if items.len() == 0 {
        assert(items =~= Seq::<FrameView>::empty());
    } else {
        let f = items[0];
        let rest = items.drop_first();
        lemma_encode_items_front(items);
        let ef = encode(f);
        let er = encode_items(rest);
        lemma_sits_agrees(d, pos, encode_items(items));
        lemma_split(d, pos, ef, er);
        lemma_agrees_subrange(d, pos, ef);
        lemma_agrees_subrange(d, pos + ef.len(), er);
        assert(well_formed(f));
        lemma_parse_encoded(d, pos, f);
        assert(ef.len() > 0) by {
            reveal_with_fuel(encode, 1);
        }
        assert forall|k: int| 0 <= k < rest.len() implies well_formed(#[trigger] rest[k]) by {
            assert(rest[k] == items[k + 1]);
        }
        lemma_parse_encoded_items(d, pos + ef.len(), rest);
        assert((items.len() - 1) as nat == rest.len());
        assert(seq![f] + rest =~= items);
    }
}

/// Round trip: reading the encoding of a well-formed frame gives the frame
/// back, and takes up exactly the encoded bytes.
pub proof fn lemma_round_trip(f: FrameView)
    requires
        well_formed(f),
    ensures
        parse_at(encode(f), 0) == Parsed::Done(f, encode(f).len() as int),
{
    assert(encode(f).subrange(0, encode(f).len() as int) =~= encode(f));
    lemma_parse_encoded(encode(f), 0, f);
}

/// Reading a complete encoding takes up as many bytes as serialising what
/// was read writes again.
pub proof fn lemma_read_length(f: FrameView)
    requires
        well_formed(f),
    ensures
        parse_at(encode(f), 0) matches Parsed::Done(g, n) && n == encode(g).len() && n == encode(
            f,
        ).len(),
{
    lemma_round_trip(f);
}

/// A buffer that stops inside the encoding of a well-formed frame reads as
/// incomplete.
pub proof fn lemma_prefix_incomplete(d: Seq<u8>, pos: int, f: FrameView)
    requires
        well_formed(f),
        ends_inside(d, pos, encode(f)),
    ensures
        parse_at(d, pos) == Parsed::Incomplete,
    decreases f,
{
    let e = encode(f);
    if pos < d.len() {
        lemma_cut_agrees(d, pos, e);
        match f {
            FrameView::Nil => {
                assert(e =~= seq![36u8] + seq![45u8, 49u8] + crlf());
                lemma_line_frame(d, pos, 36u8, seq![45u8, 49u8]);
            },
            FrameView::Simple(s) => {
                lemma_line_frame(d, pos, 43u8, encode_utf8(s));
            },
            FrameView::Error(s) => {
                lemma_line_frame(d, pos, 45u8, encode_utf8(s));
            },
            FrameView::Integer(i) => {
                let b = signed_decimal(i);
                lemma_signed_decimal(i);
                lemma_digits_no_crlf(b);
                lemma_line_frame(d, pos, 58u8, b);
            },
            FrameView::Bulk(b) => {
                lemma_counted_frame(d, pos, 36u8, b.len(), b + crlf());
            },
            FrameView::Array(items) => {
                let rest = encode_items(items);
                lemma_counted_frame(d, pos, 42u8, items.len(), rest);
                let j = pos + 1 + decimal(items.len()).len();
                if d.len() >= j + 2 {
                    assert(ends_inside(d, j + 2, rest)) by {
                        assert(d.subrange(j + 2, d.len() as int) =~= rest.subrange(
                            0,
                            d.len() - (j + 2),
                        ));
                    }
                    lemma_items_prefix_incomplete(d, j + 2, items);
                }
            },
        }
    }
}

/// A buffer that stops inside the encodings of well-formed items reads as
/// incomplete.
pub proof fn lemma_items_prefix_incomplete(d: Seq<u8>, pos: int, items: Seq<FrameView>)
    requires
        forall|k: int| 0 <= k < items.len() ==> well_formed(#[trigger] items[k]),
        ends_inside(d, pos, encode_items(items)),
    ensures
        parse_items(d, pos, items.len()) == Parsed::Incomplete,
    decreases items,
{
    if items.len() == 0 {
        assert(encode_items(items).len() == 0);
    } else if pos < d.len() {
        let f = items[0];
        let rest = items.drop_first();
        lemma_encode_items_front(items);
        let ef = encode(f);
        let er = encode_items(rest);
        lemma_cut_agrees(d, pos, encode_items(items));
        lemma_split(d, pos, ef, er);
        assert(well_formed(f));
        if d.len() < pos + ef.len() {
            assert(ends_inside(d, pos, ef)) by {
                assert(d.subrange(pos, d.len() as int) =~= ef.subrange(0, d.len() - pos));
            }
            lemma_prefix_incomplete(d, pos, f);
        } else {
            lemma_agrees_subrange(d, pos, ef);
            lemma_parse_encoded(d, pos, f);
            assert(ef.len() > 0) by {
                reveal_with_fuel(encode, 1);
            }
            assert forall|k: int| 0 <= k < rest.len() implies well_formed(#[trigger] rest[k]) by {
                assert(rest[k] == items[k + 1]);
            }
            assert(ends_inside(d, pos + ef.len(), er)) by {
                assert(d.subrange(pos + ef.len(), d.len() as int) =~= er.subrange(
                    0,
                    d.len() - (pos + ef.len()),
                ));
            }
            lemma_items_prefix_incomplete(d, pos + ef.len(), rest);
            assert((items.len() - 1) as nat == rest.len());
        }
    }
}

/// Every strict prefix of the encoding of a well-formed frame reads as
/// incomplete.
pub proof fn lemma_strict_prefix_incomplete(f: FrameView, n: int)
    requires
        well_formed(f),
        0 <= n < encode(f).len(),
    ensures
        parse_at(encode(f).subrange(0, n), 0) == Parsed::Incomplete,
{
    let d = encode(f).subrange(0, n);
    assert(d.subrange(0, n) =~= encode(f).subrange(0, n));
    lemma_prefix_incomplete(d, 0, f);
}

} // verus!
