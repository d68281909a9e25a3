//! Laws of the keyspace commands, stated over what the commands promise.
use vstd::prelude::*;

use crate::cmd::{
    del_effect, get_effect, lpush_effect, lrange_effect, no_options, set_effect, type_effect, later,
    SetOptions,
};
use crate::db::{range_of, zadd_all, EntryView};
use crate::frame::FrameView;
use crate::value::zadd_step;

verus! {

/// After `SET k v`, `GET k` replies with `v`, at any later time.
pub proof fn lemma_get_after_set(
    m: Map<Seq<char>, EntryView>,
    k: Seq<char>,
    v: Seq<u8>,
    t1: u64,
    t2: u64,
)
    ensures
        get_effect(set_effect(m, k, v, no_options(), t1).0, k, t2).1 == FrameView::Bulk(v),
{
}

/// After `SET k v` then `DEL k`, `GET k` replies nil.
pub proof fn lemma_get_after_del(
    m: Map<Seq<char>, EntryView>,
    k: Seq<char>,
    v: Seq<u8>,
    t1: u64,
    t2: u64,
    t3: u64,
)
    ensures
        get_effect(del_effect(set_effect(m, k, v, no_options(), t1).0, k, t2).0, k, t3).1
            == FrameView::Nil,
{
    let m1 = set_effect(m, k, v, no_options(), t1).0;
    let m2 = del_effect(m1, k, t2).0;
    assert(!m2.contains_key(k));
}

/// After `SET k v` with a time to live of `ms` milliseconds (`EX n` gives
/// `n * 1000`), from then on `GET k` replies nil and then `TYPE k` replies
/// `none`.
pub proof fn lemma_expired_after_ex(
    m: Map<Seq<char>, EntryView>,
    k: Seq<char>,
    v: Seq<u8>,
    ms: u64,
    t1: u64,
    t2: u64,
    t3: u64,
)
    requires
        t2 >= later(t1, ms as int),
    ensures
        ({
            let o = SetOptions { ex: Some(ms), ..no_options() };
            let m1 = set_effect(m, k, v, o, t1).0;
            let (m2, reply) = get_effect(m1, k, t2);
            &&& reply == FrameView::Nil
            &&& type_effect(m2, k, t3).1 == FrameView::Simple("none"@)
        }),
{
    let o = SetOptions { ex: Some(ms), ..no_options() };
    let m1 = set_effect(m, k, v, o, t1).0;
    assert(m1[k].expire_at == Some(later(t1, ms as int)));
    let m2 = get_effect(m1, k, t2).0;
    assert(!m2.contains_key(k));
}

/// `LPUSH k a b c` on an absent key, then `LRANGE k 0 -1`, gives `c b a`:
/// the values in the reverse order.
pub proof fn lemma_lpush_then_lrange(
    m: Map<Seq<char>, EntryView>,
    k: Seq<char>,
    vs: Seq<Seq<u8>>,
    t1: u64,
    t2: u64,
)
    requires
        vs.len() > 0,
        !m.contains_key(k),
    ensures
        lrange_effect(lpush_effect(m, k, vs, t1).0, k, 0int, -1int, t2).1 == FrameView::Array(
            vs.reverse().map_values(|b: Seq<u8>| FrameView::Bulk(b)),
        ),
{
    let m1 = lpush_effect(m, k, vs, t1).0;
    assert(m1[k].expire_at is None);
    let l = vs.reverse();
    assert(range_of(l.len() as int, 0int, -1int) == (0int, l.len() as int));
    assert(l.subrange(0, l.len() as int) =~= l);
}

/// `ZADD NX` leaves a member that is there as it is, and reports 0.
pub proof fn lemma_zadd_nx_keeps(m: Map<Seq<u8>, int>, member: Seq<u8>, score: int, ch: bool)
    requires
        m.contains_key(member),
    ensures
        zadd_step(m, true, false, false, false, ch, false, score, member) == (m, 0nat),
{
}

/// `ZADD NX 1 m` then `ZADD NX 2 m`: the second reports 0 and the score
/// stays 1.
pub proof fn lemma_zadd_nx_twice(m: Map<Seq<u8>, int>, member: Seq<u8>)
    ensures
        ({
            let (m1, _) = zadd_step(m, true, false, false, false, false, false, 1, member);
            let (m2, c2) = zadd_step(m1, true, false, false, false, false, false, 2, member);
            &&& m1.contains_key(member)
            &&& c2 == 0
            &&& m2 == m1
            &&& (!m.contains_key(member) ==> m2[member] == 1)
        }),
{
}

/// `ZADD GT` raises a lower score, and reports 1 under `CH`, 0 without.
pub proof fn lemma_zadd_gt_raises(
    m: Map<Seq<u8>, int>,
    member: Seq<u8>,
    score: int,
    ch: bool,
)
    requires
        m.contains_key(member),
        m[member] < score,
    ensures
        zadd_step(m, false, false, false, true, ch, false, score, member) == (
            m.insert(member, score),
            if ch {
                1nat
            } else {
                0nat
            },
        ),
{
}

/// `ZADD LT` lowers a higher score.
pub proof fn lemma_zadd_lt_lowers(m: Map<Seq<u8>, int>, member: Seq<u8>, score: int, ch: bool)
    requires
        m.contains_key(member),
        score < m[member],
    ensures
        zadd_step(m, false, false, true, false, ch, false, score, member).0 == m.insert(
            member,
            score,
        ),
{
}

/// Under `INCR`, `LT` and `GT` look at the score the member would get:
/// `LT` refuses an increment that does not lower it, `GT` one that does not
/// raise it.
pub proof fn lemma_zadd_incr_compares_new_score(
    m: Map<Seq<u8>, int>,
    member: Seq<u8>,
    inc: int,
    ch: bool,
)
    requires
        m.contains_key(member),
        i64::MIN <= m[member] + inc <= i64::MAX,
    ensures
        inc >= 0 ==> zadd_step(m, false, false, true, false, ch, true, inc, member) == (m, 0nat),
        inc <= 0 ==> zadd_step(m, false, false, false, true, ch, true, inc, member) == (m, 0nat),
        inc < 0 ==> zadd_step(m, false, false, true, false, ch, true, inc, member).0 == m.insert(
            member,
            m[member] + inc,
        ),
        inc > 0 ==> zadd_step(m, false, false, false, true, ch, true, inc, member).0 == m.insert(
            member,
            m[member] + inc,
        ),
{
}

/// `ZADD` with one score and member does what the per-member step does,
/// so the laws above hold of the command as well.
pub proof fn lemma_zadd_one_member(
    z: Map<Seq<u8>, int>,
    nx: bool,
    xx: bool,
    lt: bool,
    gt: bool,
    ch: bool,
    incr: bool,
    score: int,
    member: Seq<u8>,
)
    ensures
        zadd_all(z, nx, xx, lt, gt, ch, incr, seq![(score, member)]) == zadd_step(
            z,
            nx,
            xx,
            lt,
            gt,
            ch,
            incr,
            score,
            member,
        ),
{
    let ps = seq![(score, member)];
    assert(ps.drop_last() =~= Seq::<(int, Seq<u8>)>::empty());
    let (m1, c1) = zadd_all(z, nx, xx, lt, gt, ch, incr, ps.drop_last());
    assert(m1 == z && c1 == 0);
    let (m2, c2) = zadd_step(z, nx, xx, lt, gt, ch, incr, score, member);
    assert(0 + c2 == c2);
}

/// After `FLUSH`, every `GET` replies nil and every `TYPE` replies `none`.
pub proof fn lemma_flush_empties(k: Seq<char>, now: u64)
    ensures
        get_effect(Map::<Seq<char>, EntryView>::empty(), k, now).1 == FrameView::Nil,
        type_effect(Map::<Seq<char>, EntryView>::empty(), k, now).1 == FrameView::Simple(
            "none"@,
        ),
{
}

} // verus!
