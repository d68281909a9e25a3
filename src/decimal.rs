//! Decimal text of integers, as it appears in frame headers and integer frames.
use vstd::prelude::*;

verus! {

pub open spec fn is_digit(b: u8) -> bool {
    48 <= b && b <= 57
}

pub open spec fn all_digits(s: Seq<u8>) -> bool {
    forall|i: int| 0 <= i < s.len() ==> is_digit(#[trigger] s[i])
}

/// The number that a string of decimal digits denotes.
pub open spec fn digits_value(s: Seq<u8>) -> nat
    decreases s.len(),
{
    if s.len() == 0 {
        0
    } else {
        digits_value(s.drop_last()) * 10 + (s.last() - 48) as nat
    }
}

/// The shortest decimal text of `n`.
pub open spec fn decimal(n: nat) -> Seq<u8>
    decreases n,
{
    if n < 10 {
        seq![(48 + n) as u8]
    } else {
        decimal(n / 10).push((48 + n % 10) as u8)
    }
}

/// The decimal text of `i`, with a leading `-` when it is negative.
pub open spec fn signed_decimal(i: int) -> Seq<u8> {
    if i < 0 {
        seq![45u8] + decimal((-i) as nat)
    } else {
        decimal(i as nat)
    }
}

/// The unsigned number that `s` writes, when `s` is a non-empty run of digits.
pub open spec fn unsigned_text(s: Seq<u8>) -> Option<nat> {
    if s.len() > 0 && all_digits(s) {
        Some(digits_value(s))
    } else {
        None
    }
}

/// The integer that `s` writes: digits with an optional leading `-`.
pub open spec fn signed_text(s: Seq<u8>) -> Option<int> {
    if s.len() > 0 && s[0] == 45 {
        match unsigned_text(s.drop_first()) {
            Some(v) => Some(-(v as int)),
            None => None,
        }
    } else {
        match unsigned_text(s) {
            Some(v) => Some(v as int),
            None => None,
        }
    }
}

/// The `i64` that `s` writes, if it writes one in range.
pub open spec fn i64_text(s: Seq<u8>) -> Option<i64> {
    match signed_text(s) {
        Some(v) => if i64::MIN <= v && v <= i64::MAX {
            Some(v as i64)
        } else {
            None
        },
        None => None,
    }
}

pub open spec fn pow10(k: nat) -> nat
    decreases k,
{
    if k == 0 {
        1
    } else {
        10 * pow10((k - 1) as nat)
    }
}

proof fn lemma_decimal_len_bound(n: nat, k: nat)
    requires
        k >= 1,
        n < pow10(k),
    ensures
        decimal(n).len() <= k,
    decreases n,
{
    if n >= 10 {
        assert(k >= 2) by {
            if k == 1 {
                assert(pow10(1) == 10 * pow10(0));
            }
        }
        assert(pow10(k) == 10 * pow10((k - 1) as nat));
        assert(n / 10 < pow10((k - 1) as nat));
        lemma_decimal_len_bound(n / 10, (k - 1) as nat);
    }
}

pub proof fn lemma_decimal(n: nat)
    ensures
        decimal(n).len() >= 1,
        all_digits(decimal(n)),
        digits_value(decimal(n)) == n,
        n <= u64::MAX ==> decimal(n).len() <= 20,
    decreases n,
{
    if n >= 10 {
        lemma_decimal(n / 10);
        let d = decimal(n);
        let c = (48 + n % 10) as u8;
        assert(d == decimal(n / 10).push(c));
        assert(d.drop_last() =~= decimal(n / 10));
        assert(d.last() == c);
        assert((c - 48) as nat == n % 10);
        assert(digits_value(d) == (n / 10) * 10 + n % 10);
        assert(all_digits(d)) by {
            assert forall|i: int| 0 <= i < d.len() implies is_digit(#[trigger] d[i]) by {
                if i < d.len() - 1 {
                    assert(d[i] == decimal(n / 10)[i]);
                }
            }
        }
    } else {
        let d = decimal(n);
        assert(d.drop_last().len() == 0);
        assert(digits_value(d.drop_last()) == 0);
    }
    if n <= u64::MAX {
        reveal_with_fuel(pow10, 21);
        assert(pow10(20) == 100000000000000000000nat);
        lemma_decimal_len_bound(n, 20);
    }
}

pub proof fn lemma_signed_decimal(i: int)
    ensures
        signed_text(signed_decimal(i)) == Some(i),
        signed_decimal(i).len() >= 1,
        forall|k: int| 0 <= k < signed_decimal(i).len() ==> {
            let b = #[trigger] signed_decimal(i)[k];
            is_digit(b) || b == 45
        },
{
    if i < 0 {
        lemma_decimal((-i) as nat);
        let s = signed_decimal(i);
        assert(s.drop_first() =~= decimal((-i) as nat));
    } else {
        lemma_decimal(i as nat);
        let s = decimal(i as nat);
        assert(is_digit(s[0]));
    }
}

/// The value of a longer run of digits is at least that of its prefix.
proof fn lemma_digits_prefix_le(s: Seq<u8>, i: int)
    requires
        0 <= i <= s.len(),
        all_digits(s),
    ensures
        digits_value(s.subrange(0, i)) <= digits_value(s),
    decreases s.len(),
{
    if i < s.len() {
        assert(s.drop_last() =~= s.subrange(0, s.len() - 1));
        assert(s.drop_last().subrange(0, i) =~= s.subrange(0, i));
        lemma_digits_prefix_le(s.drop_last(), i);
    } else {
        assert(s.subrange(0, i) =~= s);
    }
}

/// Appends the decimal text of `n`.
pub fn push_decimal(out: &mut Vec<u8>, n: u64)
    ensures
        final(out)@ == old(out)@ + decimal(n as nat),
    decreases n,
{
    if n >= 10 {
        push_decimal(out, n / 10);
    }
    out.push((48 + n % 10) as u8);
    proof {
        if n >= 10 {
            assert(decimal(n as nat) == decimal((n / 10) as nat).push((48 + n % 10) as u8));
        }
    }
}

/// Appends the decimal text of `i`, signed.
pub fn push_signed_decimal(out: &mut Vec<u8>, i: i64)
    ensures
        final(out)@ == old(out)@ + signed_decimal(i as int),
{
    if i < 0 {
        out.push(45u8);
        let m: u64 = (-(i as i128)) as u64;
        push_decimal(out, m);
    } else {
        push_decimal(out, i as u64);
    }
}

/// The number of bytes of the decimal text of `n`.
pub fn decimal_len(n: u64) -> (r: usize)
    ensures
        r == decimal(n as nat).len(),
        1 <= r <= 20,
    decreases n,
{
    proof {
        lemma_decimal(n as nat);
    }
    if n >= 10 {
        let k = decimal_len(n / 10);
        k + 1
    } else {
        1
    }
}

/// The number of bytes of the signed decimal text of `i`.
pub fn signed_decimal_len(i: i64) -> (r: usize)
    ensures
        r == signed_decimal(i as int).len(),
        1 <= r <= 21,
{
    if i < 0 {
        let m: u64 = (-(i as i128)) as u64;
        1 + decimal_len(m)
    } else {
        decimal_len(i as u64)
    }
}

/// Reads the digits `data[lo..hi]` as an unsigned number that fits in a `u64`.
pub fn read_unsigned(data: &[u8], lo: usize, hi: usize) -> (r: Option<u64>)
    requires
        lo <= hi <= data@.len(),
    ensures
        r == (match unsigned_text(data@.subrange(lo as int, hi as int)) {
            Some(v) => if v <= u64::MAX {
                Some(v as u64)
            } else {
                None
            },
            None => None,
        }),
{
    let ghost s = data@.subrange(lo as int, hi as int);
    if lo == hi {
        return None;
    }
    let mut acc: u64 = 0;
    let mut i: usize = lo;
    while i < hi
        invariant
            lo <= i <= hi <= data@.len(),
            s == data@.subrange(lo as int, hi as int),
            all_digits(s.subrange(0, i - lo)),
            acc as nat == digits_value(s.subrange(0, i - lo)),
        decreases hi - i,
    {
        let b = data[i];
        proof {
            assert(s[i - lo] == b);
        }
        if b < 48 || b > 57 {
            proof {
                assert(!all_digits(s)) by {
                    assert(!is_digit(s[i - lo]));
                }
            }
            return None;
        }
        let d: u64 = (b - 48) as u64;
        proof {
            let p = s.subrange(0, i - lo + 1);
            assert(p.drop_last() =~= s.subrange(0, i - lo));
            assert(p.last() == b);
            assert(all_digits(p));
        }
        if acc > (u64::MAX - d) / 10 {
            proof {
                let p = s.subrange(0, i - lo + 1);
                assert(digits_value(p) == acc * 10 + d);
                assert(digits_value(p) > u64::MAX) by (nonlinear_arith)
                    requires
                        acc > (u64::MAX - d) / 10,
                        digits_value(p) == acc * 10 + d,
                        d <= 9,
                ;
                if all_digits(s) {
                    assert(s.subrange(0, s.len() as int).subrange(0, i - lo + 1) =~= p);
                    lemma_digits_prefix_le(s, i - lo + 1);
                }
            }
            return None;
        }
        acc = acc * 10 + d;
        i = i + 1;
    }
    proof {
        assert(s.subrange(0, hi - lo) =~= s);
    }
    Some(acc)
}

/// Reads `data[lo..hi]` as a signed decimal `i64`.
pub fn read_signed(data: &[u8], lo: usize, hi: usize) -> (r: Option<i64>)
    requires
        lo <= hi <= data@.len(),
    ensures
        r == i64_text(data@.subrange(lo as int, hi as int)),
{
    let ghost s = data@.subrange(lo as int, hi as int);
    if lo < hi && data[lo] == 45u8 {
        proof {
            assert(s.drop_first() =~= data@.subrange(lo + 1, hi as int));
        }
        match read_unsigned(data, lo + 1, hi) {
            Some(m) => {
                if m <= 9223372036854775808u64 {
                    Some((-(m as i128)) as i64)
                } else {
                    None
                }
            },
            None => None,
        }
    } else {
        match read_unsigned(data, lo, hi) {
            Some(m) => {
                if m <= 9223372036854775807u64 {
                    Some(m as i64)
                } else {
                    None
                }
            },
            None => None,
        }
    }
}

} // verus!
