//! The keyspace: typed values under text keys, with optional deadlines.
//!
//! Time is a number of milliseconds that the caller passes in. An entry whose
//! deadline is at or before that time is gone for every read; `SET` takes
//! the entry as it stands. Each access marks the entry with its time, which
//! `OBJECT IDLETIME` reads without marking.
use std::collections::VecDeque;

use vstd::prelude::*;

use crate::assoc::{
    assoc_map, has_key, lemma_assoc_absent, lemma_assoc_empty, lemma_assoc_index, lemma_assoc_push,
    lemma_assoc_remove, lemma_assoc_update, unique_keys,
};
use crate::err::RedisErr;
use crate::value::{
    copy_bytes, kind_name, text_eq, zadd_step, Bloom, BloomFilter, ValueType, ZSet,
};

verus! {

pub enum Value {
    KV(Vec<u8>),
    List(VecDeque<Vec<u8>>),
    Hash(Vec<(String, Vec<u8>)>),
    ZSet(ZSet),
    BloomFilter(Bloom),
}

/// What a value holds, as mathematical values.
pub enum ValueView {
    KV(Seq<u8>),
    List(Seq<Seq<u8>>),
    Hash(Map<Seq<char>, Seq<u8>>),
    ZSet(Map<Seq<u8>, int>),
    BloomFilter(Set<Seq<char>>),
}

pub open spec fn byte_strings(l: Seq<Vec<u8>>) -> Seq<Seq<u8>> {
    l.map_values(|b: Vec<u8>| b@)
}

pub open spec fn field_pairs(s: Seq<(String, Vec<u8>)>) -> Seq<(Seq<char>, Seq<u8>)> {
    s.map_values(|p: (String, Vec<u8>)| (p.0@, p.1@))
}

pub open spec fn kind_of(v: ValueView) -> ValueType {
    match v {
        ValueView::KV(_) => ValueType::KV,
        ValueView::List(_) => ValueType::List,
        ValueView::Hash(_) => ValueType::Hash,
        ValueView::ZSet(_) => ValueType::ZSet,
        ValueView::BloomFilter(_) => ValueType::BloomFilter,
    }
}

impl Value {
    pub open spec fn view(&self) -> ValueView {
        match self {
            Value::KV(b) => ValueView::KV(b@),
            Value::List(l) => ValueView::List(byte_strings(l@)),
            Value::Hash(h) => ValueView::Hash(assoc_map(field_pairs(h@))),
            Value::ZSet(z) => ValueView::ZSet(z@),
            Value::BloomFilter(b) => ValueView::BloomFilter(b.contents()),
        }
    }

    pub open spec fn wf(&self) -> bool {
        match self {
            Value::Hash(h) => unique_keys(field_pairs(h@)),
            Value::ZSet(z) => z.wf(),
            _ => true,
        }
    }

    /// The kind of this value.
    pub fn get_type(&self) -> (r: ValueType)
        ensures
            r == kind_of(self@),
    {
        match self {
            Value::KV(_) => ValueType::KV,
            Value::List(_) => ValueType::List,
            Value::Hash(_) => ValueType::Hash,
            Value::ZSet(_) => ValueType::ZSet,
            Value::BloomFilter(_) => ValueType::BloomFilter,
        }
    }
}

/// A value with its deadline and the time it was written.
pub struct Entry {
    key: String,
    value: Value,
    expire_at: Option<u64>,
    touch_at: u64,
}

pub struct EntryView {
    pub value: ValueView,
    pub expire_at: Option<u64>,
    pub touch_at: u64,
}

impl Entry {
    pub closed spec fn view(&self) -> EntryView {
        EntryView { value: self.value@, expire_at: self.expire_at, touch_at: self.touch_at }
    }

    pub fn get_value(&self) -> (r: &Value)
        ensures
            r@ == self@.value,
    {
        &self.value
    }

    pub fn get_expire_at(&self) -> (r: Option<u64>)
        ensures
            r == self@.expire_at,
    {
        self.expire_at
    }

    pub fn get_touched_at(&self) -> (r: u64)
        ensures
            r == self@.touch_at,
    {
        self.touch_at
    }
}

/// An entry whose deadline is at or before `now` is gone.
pub open spec fn expired(e: EntryView, now: u64) -> bool {
    e.expire_at matches Some(d) && d <= now
}

/// The keyspace as an operation on `k` at `now` sees it: `k` dropped when
/// its deadline has passed.
pub open spec fn live(m: Map<Seq<char>, EntryView>, k: Seq<char>, now: u64) -> Map<
    Seq<char>,
    EntryView,
> {
    if m.contains_key(k) && expired(m[k], now) {
        m.remove(k)
    } else {
        m
    }
}

/// The keyspace without the entries whose deadline has passed.
pub open spec fn unexpired(m: Map<Seq<char>, EntryView>, now: u64) -> Map<Seq<char>, EntryView> {
    Map::new(|k: Seq<char>| m.contains_key(k) && !expired(m[k], now), |k: Seq<char>| m[k])
}

/// The keyspace after `k` was read at `now`: dropped when its deadline has
/// passed, else marked as read then.
pub open spec fn seen(m: Map<Seq<char>, EntryView>, k: Seq<char>, now: u64) -> Map<
    Seq<char>,
    EntryView,
> {
    let l = live(m, k, now);
    if l.contains_key(k) {
        l.insert(k, EntryView { touch_at: now, ..l[k] })
    } else {
        l
    }
}

pub open spec fn fresh_entry(v: ValueView, now: u64) -> EntryView {
    EntryView { value: v, expire_at: None, touch_at: now }
}

spec fn entry_pairs(s: Seq<Entry>) -> Seq<(Seq<char>, EntryView)> {
    s.map_values(|e: Entry| (e.key@, e@))
}

spec fn entries_wf(s: Seq<Entry>) -> bool {
    &&& unique_keys(entry_pairs(s))
    &&& forall|i: int| 0 <= i < s.len() ==> (#[trigger] s[i]).value.wf()
}

proof fn lemma_entries_update(s: Seq<Entry>, i: int, e: Entry)
    requires
        entries_wf(s),
        0 <= i < s.len(),
        e.key@ == s[i].key@,
        e.value.wf(),
    ensures
        entries_wf(s.update(i, e)),
        assoc_map(entry_pairs(s.update(i, e))) == assoc_map(entry_pairs(s)).insert(e.key@, e@),
{
    let p = entry_pairs(s);
    assert(entry_pairs(s.update(i, e)) =~= p.update(i, (p[i].0, e@)));
    lemma_assoc_update(p, i, e@);
}

proof fn lemma_entries_remove(s: Seq<Entry>, i: int)
    requires
        entries_wf(s),
        0 <= i < s.len(),
    ensures
        entries_wf(s.remove(i)),
        assoc_map(entry_pairs(s.remove(i))) == assoc_map(entry_pairs(s)).remove(s[i].key@),
{
    let p = entry_pairs(s);
    assert(entry_pairs(s.remove(i)) =~= p.remove(i));
    lemma_assoc_remove(p, i);
    let t = s.remove(i);
    assert forall|k: int| 0 <= k < t.len() implies (#[trigger] t[k]).value.wf() by {
        if k < i {
            assert(t[k] == s[k]);
        } else {
            assert(t[k] == s[k + 1]);
        }
    }
}

proof fn lemma_entries_push(s: Seq<Entry>, e: Entry)
    requires
        entries_wf(s),
        !assoc_map(entry_pairs(s)).contains_key(e.key@),
        e.value.wf(),
    ensures
        entries_wf(s.push(e)),
        assoc_map(entry_pairs(s.push(e))) == assoc_map(entry_pairs(s)).insert(e.key@, e@),
{
    let p = entry_pairs(s);
    assert(entry_pairs(s.push(e)) =~= p.push((e.key@, e@)));
    lemma_assoc_push(p, e.key@, e@);
    let t = s.push(e);
    assert forall|k: int| 0 <= k < t.len() implies (#[trigger] t[k]).value.wf() by {
        if k < s.len() {
            assert(t[k] == s[k]);
        }
    }
}

proof fn lemma_entries_index(s: Seq<Entry>, i: int)
    requires
        entries_wf(s),
        0 <= i < s.len(),
    ensures
        assoc_map(entry_pairs(s)).contains_key(s[i].key@),
        assoc_map(entry_pairs(s))[s[i].key@] == s[i]@,
        s[i].value.wf(),
{
    lemma_assoc_index(entry_pairs(s), i);
}


/// The keyspace holds key `p.1` with deadline `p.0`.
pub open spec fn has_deadline(m: Map<Seq<char>, EntryView>, p: (u64, Seq<char>)) -> bool {
    m.contains_key(p.1) && m[p.1].expire_at == Some(p.0)
}

spec fn idx_view(x: Seq<(u64, String)>) -> Seq<(u64, Seq<char>)> {
    x.map_values(|p: (u64, String)| (p.0, p.1@))
}

spec fn idx_sorted(x: Seq<(u64, String)>) -> bool {
    forall|i: int, j: int| 0 <= i <= j < x.len() ==> (#[trigger] x[i]).0 <= (#[trigger] x[j]).0
}

/// The expiry index of a keyspace: its (deadline, key) pairs, each once, by
/// deadline; a key is in it exactly when its entry has a deadline.
spec fn index_ok(m: Map<Seq<char>, EntryView>, x: Seq<(u64, String)>) -> bool {
    &&& idx_sorted(x)
    &&& idx_view(x).no_duplicates()
    &&& forall|p: (u64, Seq<char>)| #[trigger] idx_view(x).contains(p) <==> has_deadline(m, p)
}

/// Adds `(d, key)` to the index, in deadline order.
fn idx_insert(x: &mut Vec<(u64, String)>, d: u64, key: String)
    requires
        idx_sorted(old(x)@),
        idx_view(old(x)@).no_duplicates(),
        !idx_view(old(x)@).contains((d, key@)),
    ensures
        idx_sorted(final(x)@),
        idx_view(final(x)@).no_duplicates(),
        forall|p: (u64, Seq<char>)|
            #[trigger] idx_view(final(x)@).contains(p) <==> (idx_view(old(x)@).contains(p) || p == (
                d,
                key@,
            )),
{
    let ghost o = x@;
    let ghost k = key@;
    let mut i: usize = 0;
    while i < x.len() && x[i].0 <= d
        invariant
            i <= x@.len(),
            x@ == o,
            o == old(x)@,
            forall|j: int| 0 <= j < i ==> (#[trigger] x@[j]).0 <= d,
        decreases x@.len() - i,
    {
        i = i + 1;
    }
    x.insert(i, (d, key));
    proof {
        let n = x@;
        assert(idx_view(n) =~= idx_view(o).insert(i as int, (d, k)));
        assert forall|a: int, b: int| 0 <= a <= b < n.len() implies (#[trigger] n[a]).0 <= (
        #[trigger] n[b]).0 by {
            if b < i {
                assert(n[a] == o[a] && n[b] == o[b]);
            } else if b == i {
                if a < i {
                    assert(n[a] == o[a]);
                }
            } else {
                assert(n[b] == o[b - 1]);
                assert(o[i as int].0 > d);
                if a < i {
                    assert(n[a] == o[a]);
                } else if a > i {
                    assert(n[a] == o[a - 1]);
                }
            }
        }
        let vo = idx_view(o);
        let vn = idx_view(n);
        assert forall|p: (u64, Seq<char>)| #[trigger] vn.contains(p) <==> (vo.contains(p) || p == (d, k)) by {
            if vn.contains(p) {
                let j = choose|j: int| 0 <= j < vn.len() && vn[j] == p;
                if j < i {
                    assert(vo[j] == p);
                } else if j > i {
                    assert(vo[j - 1] == p);
                }
            }
            if vo.contains(p) {
                let j = choose|j: int| 0 <= j < vo.len() && vo[j] == p;
                if j < i {
                    assert(vn[j] == p);
                } else {
                    assert(vn[j + 1] == p);
                }
            }
            if p == (d, k) {
                assert(vn[i as int] == p);
            }
        }
        assert forall|a: int, b: int| 0 <= a < vn.len() && 0 <= b < vn.len() && a != b implies vn[a]
            != vn[b] by {
            if a != i && b != i {
                let a1 = if a < i { a } else { a - 1 };
                let b1 = if b < i { b } else { b - 1 };
                assert(vn[a] == vo[a1] && vn[b] == vo[b1]);
            } else if a == i {
                let b1 = if b < i { b } else { b - 1 };
                assert(vn[b] == vo[b1]);
                assert(vo.contains(vo[b1]));
            } else {
                let a1 = if a < i { a } else { a - 1 };
                assert(vn[a] == vo[a1]);
                assert(vo.contains(vo[a1]));
            }
        }
    }
}

/// Removes `(d, key)` from the index.
fn idx_remove(x: &mut Vec<(u64, String)>, d: u64, key: &str)
    requires
        idx_sorted(old(x)@),
        idx_view(old(x)@).no_duplicates(),
        idx_view(old(x)@).contains((d, key@)),
    ensures
        idx_sorted(final(x)@),
        idx_view(final(x)@).no_duplicates(),
        final(x)@.len() + 1 == old(x)@.len(),
        forall|p: (u64, Seq<char>)|
            #[trigger] idx_view(final(x)@).contains(p) <==> (idx_view(old(x)@).contains(p) && p != (
                d,
                key@,
            )),
{
    let ghost o = x@;
    let ghost vo = idx_view(o);
    let mut i: usize = 0;
    while i < x.len()
        invariant
            i <= x@.len(),
            x@ == o,
            o == old(x)@,
            vo == idx_view(o),
            idx_sorted(o),
            vo.no_duplicates(),
            vo.contains((d, key@)),
            forall|j: int| 0 <= j < i ==> vo[j] != (d, key@),
        decreases x@.len() - i,
    {
        if x[i].0 == d && text_eq(x[i].1.as_str(), key) {
            x.remove(i);
            proof {
                let n = x@;
                let vn = idx_view(n);
                assert(vo[i as int] == (d, key@));
                assert(vn =~= vo.remove(i as int));
                assert forall|a: int, b: int| 0 <= a <= b < n.len() implies (#[trigger] n[a]).0 <= (
                #[trigger] n[b]).0 by {
                    let a1 = if a < i { a } else { a + 1 };
                    let b1 = if b < i { b } else { b + 1 };
                    assert(n[a] == o[a1] && n[b] == o[b1]);
                }
                assert forall|p: (u64, Seq<char>)| #[trigger] vn.contains(p) <==> (vo.contains(p) && p != (d, key@)) by {
                    if vn.contains(p) {
                        let j = choose|j: int| 0 <= j < vn.len() && vn[j] == p;
                        let j1 = if j < i { j } else { j + 1 };
                        assert(vo[j1] == p);
                        assert(j1 != i);
                    }
                    if vo.contains(p) && p != (d, key@) {
                        let j = choose|j: int| 0 <= j < vo.len() && vo[j] == p;
                        if j < i {
                            assert(vn[j] == p);
                        } else {
                            assert(j != i);
                            assert(vn[j - 1] == p);
                        }
                    }
                }
                assert forall|a: int, b: int| 0 <= a < vn.len() && 0 <= b < vn.len() && a != b implies vn[a]
                    != vn[b] by {
                    let a1 = if a < i { a } else { a + 1 };
                    let b1 = if b < i { b } else { b + 1 };
                    assert(vn[a] == vo[a1] && vn[b] == vo[b1]);
                }
            }
            return;
        }
        proof {
            if vo[i as int] == (d, key@) {
                assert(o[i as int].0 == d);
            }
        }
        i = i + 1;
    }
    proof {
        let j = choose|j: int| 0 <= j < vo.len() && vo[j] == (d, key@);
        assert(vo[j] != (d, key@));
    }
}

/// The store's keyspace, with its expiry index.
pub struct DB {
    entries: Vec<Entry>,
    expiry: Vec<(u64, String)>,
}

impl DB {
    pub closed spec fn view(&self) -> Map<Seq<char>, EntryView> {
        assoc_map(entry_pairs(self.entries@))
    }

    pub closed spec fn wf(&self) -> bool {
        entries_wf(self.entries@) && index_ok(self@, self.expiry@)
    }

    pub fn new() -> (r: DB)
        ensures
            r.wf(),
            r@ == Map::<Seq<char>, EntryView>::empty(),
    {
        let r = DB { entries: Vec::new(), expiry: Vec::new() };
        proof {
            assert(entry_pairs(r.entries@) =~= Seq::empty());
            lemma_assoc_empty::<Seq<char>, EntryView>();
            assert(idx_view(r.expiry@) =~= Seq::empty());
        }
        r
    }

    fn find(&self, key: &str) -> (r: Option<usize>)
        requires
            self.wf(),
        ensures
            match r {
                Some(i) => i < self.entries@.len() && self.entries@[i as int].key@ == key@,
                None => !self@.contains_key(key@),
            },
    {
        let mut i: usize = 0;
        while i < self.entries.len()
            invariant
                i <= self.entries@.len(),
                forall|k: int| 0 <= k < i ==> self.entries@[k].key@ != key@,
            decreases self.entries@.len() - i,
        {
            if text_eq(self.entries[i].key.as_str(), key) {
                return Some(i);
            }
            i = i + 1;
        }
        proof {
            let p = entry_pairs(self.entries@);
            assert forall|k: int| 0 <= k < p.len() implies p[k].0 != key@ by {
                assert(p[k].0 == self.entries@[k].key@);
            }
            lemma_assoc_absent(p, key@);
        }
        None
    }

    /// Drops `key` if its deadline has passed; gives the position of its
    /// entry if it is still there.
    fn prune(&mut self, key: &str, now: u64) -> (r: Option<usize>)
        requires
            old(self).wf(),
        ensures
            final(self).wf(),
            final(self)@ == live(old(self)@, key@, now),
            match r {
                Some(i) => i < final(self).entries@.len() && final(self).entries@[i as int].key@
                    == key@ && final(self)@.contains_key(key@) && final(self)@[key@]
                    == final(self).entries@[i as int]@ && final(self).entries@[i as int].value.wf(),
                None => !final(self)@.contains_key(key@),
            },
    {
        match self.find(key) {
            None => None,
            Some(i) => {
                proof {
                    lemma_entries_index(self.entries@, i as int);
                }
                let gone = match self.entries[i].expire_at {
                    Some(d) => d <= now,
                    None => false,
                };
                if gone {
                    self.remove_entry(i);
                    None
                } else {
                    Some(i)
                }
            },
        }
    }

    /// `prune`, then marks the entry that is still there as read at `now`.
    fn access(&mut self, key: &str, now: u64) -> (r: Option<usize>)
        requires
            old(self).wf(),
        ensures
            final(self).wf(),
            final(self)@ == seen(old(self)@, key@, now),
            match r {
                Some(i) => i < final(self).entries@.len() && final(self).entries@[i as int].key@
                    == key@ && final(self)@.contains_key(key@) && final(self)@[key@]
                    == final(self).entries@[i as int]@ && final(self).entries@[i as int].value.wf()
                    && final(self)@[key@].value == live(old(self)@, key@, now)[key@].value,
                None => !final(self)@.contains_key(key@),
            },
    {
        match self.prune(key, now) {
            None => None,
            Some(i) => {
                let ghost s = self.entries@;
                let ghost m = self@;
                proof {
                    lemma_entries_index(s, i as int);
                }
                let Entry { key: k, value, expire_at, touch_at: _ } = self.take_at(i);
                let e = Entry { key: k, value, expire_at, touch_at: now };
                self.restore(i, e, Ghost(s));
                proof {
                    assert(self@ =~= m.insert(key@, EntryView { touch_at: now, ..m[key@] }));
                    assert(self.entries@[i as int] == e);
                    lemma_entries_index(self.entries@, i as int);
                }
                Some(i)
            },
        }
    }

    /// Takes the entry at `i` out of the keyspace and of the index.
    fn remove_entry(&mut self, i: usize) -> (r: Entry)
        requires
            old(self).wf(),
            i < old(self).entries@.len(),
        ensures
            final(self).wf(),
            r == old(self).entries@[i as int],
            final(self)@ == old(self)@.remove(r.key@),
            r.expire_at is Some ==> final(self).expiry@.len() + 1 == old(self).expiry@.len(),
    {
        let ghost s = self.entries@;
        let ghost m = self@;
        proof {
            lemma_entries_index(s, i as int);
            lemma_entries_remove(s, i as int);
        }
        match self.entries[i].expire_at {
            Some(d) => {
                proof {
                    assert(has_deadline(m, (d, s[i as int].key@)));
                }
                idx_remove(&mut self.expiry, d, self.entries[i].key.as_str());
            },
            None => {},
        }
        let r = self.entries.remove(i);
        proof {
            let k = r.key@;
            assert forall|p: (u64, Seq<char>)| #[trigger] idx_view(self.expiry@).contains(p) <==> has_deadline(self@, p) by {
                if p.1 == k {
                    assert(!self@.contains_key(k));
                }
            }
        }
        r
    }

    /// Puts `e` in place of the entry at `i`, which has the same key.
    fn replace_at(&mut self, i: usize, e: Entry)
        requires
            old(self).wf(),
            i < old(self).entries@.len(),
            e.key@ == old(self).entries@[i as int].key@,
            e.value.wf(),
        ensures
            final(self).wf(),
            final(self)@ == old(self)@.insert(e.key@, e@),
    {
        let ghost m = self@;
        let ghost k = e.key@;
        let ghost ev = e@;
        let old_entry = self.remove_entry(i);
        proof {
            assert(!self@.contains_key(k));
        }
        self.add_entry(e);
        proof {
            assert(self@ =~= m.insert(k, ev));
        }
    }

    /// Adds an entry under a key that is not in the keyspace.
    fn add_entry(&mut self, e: Entry)
        requires
            old(self).wf(),
            !old(self)@.contains_key(e.key@),
            e.value.wf(),
        ensures
            final(self).wf(),
            final(self)@ == old(self)@.insert(e.key@, e@),
    {
        let ghost m = self@;
        let ghost k = e.key@;
        match e.expire_at {
            Some(d) => {
                proof {
                    assert(!has_deadline(m, (d, k)));
                }
                idx_insert(&mut self.expiry, d, e.key.clone());
            },
            None => {},
        }
        proof {
            lemma_entries_push(self.entries@, e);
        }
        self.entries.push(e);
        proof {
            assert forall|p: (u64, Seq<char>)| #[trigger] idx_view(self.expiry@).contains(p) <==> has_deadline(self@, p) by {
                if p.1 != k {
                    assert(has_deadline(self@, p) == has_deadline(m, p));
                }
            }
        }
    }

    /// The string under `key`.
    pub fn get(&mut self, key: &str, now: u64) -> (r: Result<Vec<u8>, RedisErr>)
        requires
            old(self).wf(),
        ensures
            final(self).wf(),
            final(self)@ == seen(old(self)@, key@, now),
            match live(old(self)@, key@, now).get(key@) {
                None => r == Err::<Vec<u8>, RedisErr>(RedisErr::KeyNotFound),
                Some(e) => match e.value {
                    ValueView::KV(b) => r matches Ok(v) && v@ == b,
                    _ => r == Err::<Vec<u8>, RedisErr>(RedisErr::WrongType),
                },
            },
    {
        match self.access(key, now) {
            None => Err(RedisErr::KeyNotFound),
            Some(i) => match &self.entries[i].value {
                Value::KV(b) => Ok(copy_bytes(b.as_slice())),
                _ => Err(RedisErr::WrongType),
            },
        }
    }

    /// Writes a string under `key`, as `SET` does with its options. Like
    /// every write it does not ask whether the entry there has expired:
    /// `NX`, `XX`, `GET` and `KEEPTTL` see it as it stands.
    pub fn set(
        &mut self,
        key: String,
        value: Vec<u8>,
        nx: bool,
        xx: bool,
        get: bool,
        keepttl: bool,
        expire_at: Option<u64>,
        now: u64,
    ) -> (r: Result<Option<Vec<u8>>, RedisErr>)
        requires
            old(self).wf(),
        ensures
            final(self).wf(),
            ({
                let m = old(self)@;
                let present = m.contains_key(key@);
                if (nx && present) || (xx && !present) {
                    r == Err::<Option<Vec<u8>>, RedisErr>(RedisErr::NoAction) && final(self)@ == m
                } else if get && present && !(m[key@].value is KV) {
                    r == Err::<Option<Vec<u8>>, RedisErr>(RedisErr::WrongType) && final(self)@ == m
                } else {
                    &&& final(self)@ == m.insert(
                        key@,
                        EntryView {
                            value: ValueView::KV(value@),
                            expire_at: if keepttl && present {
                                m[key@].expire_at
                            } else {
                                expire_at
                            },
                            touch_at: now,
                        },
                    )
                    &&& r matches Ok(prev) && (if get && present {
                        prev matches Some(p) && m[key@].value == ValueView::KV(p@)
                    } else {
                        prev is None
                    })
                }
            }),
    {
        let ghost vb = value@;
        match self.find(key.as_str()) {
            None => {
                if xx {
                    return Err(RedisErr::NoAction);
                }
                let e = Entry { key, value: Value::KV(value), expire_at, touch_at: now };
                self.add_entry(e);
                Ok(None)
            },
            Some(i) => {
                proof {
                    lemma_entries_index(self.entries@, i as int);
                }
                if nx {
                    return Err(RedisErr::NoAction);
                }
                let prev: Option<Vec<u8>> = if get {
                    match &self.entries[i].value {
                        Value::KV(b) => Some(copy_bytes(b.as_slice())),
                        _ => {
                            return Err(RedisErr::WrongType);
                        },
                    }
                } else {
                    None
                };
                let deadline = if keepttl {
                    self.entries[i].expire_at
                } else {
                    expire_at
                };
                let e = Entry { key, value: Value::KV(value), expire_at: deadline, touch_at: now };
                self.replace_at(i, e);
                Ok(prev)
            },
        }
    }

    /// Removes `key`; gives its value if it was there.
    pub fn del(&mut self, key: &str, now: u64) -> (r: Option<Value>)
        requires
            old(self).wf(),
        ensures
            final(self).wf(),
            final(self)@ == live(old(self)@, key@, now).remove(key@),
            r is Some <==> live(old(self)@, key@, now).contains_key(key@),
            r matches Some(v) ==> v@ == live(old(self)@, key@, now)[key@].value,
    {
        match self.prune(key, now) {
            None => {
                proof {
                    assert(self@.remove(key@) =~= self@);
                }
                None
            },
            Some(i) => {
                let e = self.remove_entry(i);
                Some(e.value)
            },
        }
    }

    /// Gives `key` the deadline `deadline`.
    pub fn expire(&mut self, key: &str, deadline: u64, now: u64) -> (r: Result<(), RedisErr>)
        requires
            old(self).wf(),
        ensures
            final(self).wf(),
            ({
                let m = live(old(self)@, key@, now);
                if m.contains_key(key@) {
                    r is Ok && final(self)@ == m.insert(
                        key@,
                        EntryView { expire_at: Some(deadline), touch_at: now, ..m[key@] },
                    )
                } else {
                    r == Err::<(), RedisErr>(RedisErr::KeyNotFound) && final(self)@ == m
                }
            }),
    {
        match self.prune(key, now) {
            None => Err(RedisErr::KeyNotFound),
            Some(i) => {
                let ghost m = self@;
                let Entry { key: k, value, expire_at: _, touch_at: _ } = self.remove_entry(i);
                let e = Entry { key: k, value, expire_at: Some(deadline), touch_at: now };
                self.add_entry(e);
                proof {
                    assert(self@ =~= m.insert(key@, EntryView { expire_at: Some(deadline), touch_at: now, ..m[key@] }));
                }
                Ok(())
            },
        }
    }

    /// The kind of the value under `key`, by name.
    pub fn get_type(&mut self, key: &str, now: u64) -> (r: Option<&'static str>)
        requires
            old(self).wf(),
        ensures
            final(self).wf(),
            final(self)@ == seen(old(self)@, key@, now),
            match live(old(self)@, key@, now).get(key@) {
                None => r is None,
                Some(e) => r matches Some(t) && t@ == kind_name(kind_of(e.value)),
            },
    {
        match self.access(key, now) {
            None => None,
            Some(i) => Some(self.entries[i].value.get_type().to_str()),
        }
    }

    /// When the value under `key` was written.
    pub fn get_object_last_touch(&mut self, key: &str, now: u64) -> (r: Option<u64>)
        requires
            old(self).wf(),
        ensures
            final(self).wf(),
            final(self)@ == live(old(self)@, key@, now),
            match live(old(self)@, key@, now).get(key@) {
                None => r is None,
                Some(e) => r == Some(e.touch_at),
            },
    {
        match self.prune(key, now) {
            None => None,
            Some(i) => Some(self.entries[i].touch_at),
        }
    }

    /// The deadline of `key`, if it is there.
    pub fn get_expire_at(&mut self, key: &str, now: u64) -> (r: Option<Option<u64>>)
        requires
            old(self).wf(),
        ensures
            final(self).wf(),
            final(self)@ == live(old(self)@, key@, now),
            match live(old(self)@, key@, now).get(key@) {
                None => r is None,
                Some(e) => r == Some(e.expire_at),
            },
    {
        match self.prune(key, now) {
            None => None,
            Some(i) => Some(self.entries[i].expire_at),
        }
    }

    /// Drops every entry whose deadline has passed, and gives the earliest
    /// deadline of the entries left, if any has one: when the reaper is to
    /// run next.
    pub fn purge_expired(&mut self, now: u64) -> (r: Option<u64>)
        requires
            old(self).wf(),
        ensures
            final(self).wf(),
            final(self)@ == unexpired(old(self)@, now),
            match r {
                Some(d) => (exists|k: Seq<char>|
                    #[trigger] final(self)@.contains_key(k) && final(self)@[k].expire_at == Some(d))
                    && forall|k: Seq<char>|
                    #[trigger] final(self)@.contains_key(k) ==> (final(self)@[k].expire_at matches Some(
                        d2,
                    ) ==> d <= d2),
                None => forall|k: Seq<char>|
                    #[trigger] final(self)@.contains_key(k) ==> final(self)@[k].expire_at is None,
            },
    {
        let ghost m0 = self@;
        while self.expiry.len() > 0 && self.expiry[0].0 <= now
            invariant
                self.wf(),
                forall|k: Seq<char>| #[trigger] self@.contains_key(k) ==> m0.contains_key(k) && self@[k] == m0[k],
                forall|k: Seq<char>| #[trigger] m0.contains_key(k) && !expired(m0[k], now) ==> self@.contains_key(k),
            decreases self.expiry@.len(),
        {
            let ghost p0 = idx_view(self.expiry@)[0];
            proof {
                assert(idx_view(self.expiry@).contains(p0));
                assert(has_deadline(self@, p0));
            }
            let ghost v0 = self@;
            let found = self.find(self.expiry[0].1.as_str());
            match found {
                Some(i) => {
                    proof {
                        lemma_entries_index(self.entries@, i as int);
                    }
                    let e = self.remove_entry(i);
                    proof {
                        assert(e.key@ == p0.1);
                        assert forall|k: Seq<char>| #[trigger] self@.contains_key(k) implies m0.contains_key(k)
                            && self@[k] == m0[k] by {
                            assert(v0.contains_key(k));
                        }
                        assert forall|k: Seq<char>| #[trigger] m0.contains_key(k) && !expired(m0[k], now)
                            implies self@.contains_key(k) by {
                            assert(v0.contains_key(k));
                            if k == p0.1 {
                                assert(v0[k] == m0[k]);
                            }
                        }
                    }
                },
                None => {
                    proof {
                        assert(false);
                    }
                },
            }
        }
        let r = if self.expiry.len() > 0 {
            Some(self.expiry[0].0)
        } else {
            None
        };
        proof {
            let x = self.expiry@;
            let vx = idx_view(x);
            assert forall|k: Seq<char>| #[trigger] self@.contains_key(k) && self@[k].expire_at is Some
                implies vx.len() > 0 && self@[k].expire_at->0 >= x[0].0 by {
                let d = self@[k].expire_at->0;
                assert(has_deadline(self@, (d, k)));
                assert(vx.contains((d, k)));
                let j = choose|j: int| 0 <= j < vx.len() && vx[j] == (d, k);
                assert(x[j].0 == d);
                assert(x[0].0 <= x[j].0);
            }
            assert forall|k: Seq<char>| #[trigger] self@.contains_key(k) implies !expired(self@[k], now) by {
                if self@[k].expire_at is Some {
                    assert(self@[k].expire_at->0 >= x[0].0);
                }
            }
            assert(self@ =~= unexpired(m0, now));
            if x.len() > 0 {
                assert(vx.contains(vx[0]));
                assert(has_deadline(self@, vx[0]));
                assert(self@.contains_key(vx[0].1) && self@[vx[0].1].expire_at == Some(x[0].0));
            }
        }
        r
    }

    /// Empties the keyspace.
    pub fn flush(&mut self)
        ensures
            final(self).wf(),
            final(self)@ == Map::<Seq<char>, EntryView>::empty(),
    {
        self.entries = Vec::new();
        self.expiry = Vec::new();
        proof {
            assert(entry_pairs(self.entries@) =~= Seq::empty());
            lemma_assoc_empty::<Seq<char>, EntryView>();
            assert(idx_view(self.expiry@) =~= Seq::empty());
        }
    }

    /// Takes the entry at `i` out, to be put back with `restore`.
    fn take_at(&mut self, i: usize) -> (r: Entry)
        requires
            i < old(self).entries@.len(),
        ensures
            r == old(self).entries@[i as int],
            final(self).entries@ == old(self).entries@.remove(i as int),
            final(self).expiry@ == old(self).expiry@,
    {
        self.entries.remove(i)
    }

    /// Puts an entry with the same key back where `take_at` took one.
    fn restore(&mut self, i: usize, e: Entry, Ghost(s): Ghost<Seq<Entry>>)
        requires
            entries_wf(s),
            i < s.len(),
            old(self).entries@ == s.remove(i as int),
            index_ok(assoc_map(entry_pairs(s)), old(self).expiry@),
            e.key@ == s[i as int].key@,
            e.expire_at == s[i as int].expire_at,
            e.value.wf(),
        ensures
            final(self).wf(),
            final(self)@ == assoc_map(entry_pairs(s)).insert(e.key@, e@),
            final(self).entries@ == s.update(i as int, e),
    {
        proof {
            lemma_entries_update(s, i as int, e);
        }
        self.entries.insert(i, e);
        proof {
            assert(self.entries@ =~= s.update(i as int, e));
            let m = assoc_map(entry_pairs(s));
            lemma_entries_index(s, i as int);
            assert forall|p: (u64, Seq<char>)| #[trigger] idx_view(self.expiry@).contains(p) <==> has_deadline(self@, p) by {
                assert(has_deadline(self@, p) == has_deadline(m, p));
            }
        }
    }

    /// Pushes `values` one by one at the head of the list under `key`.
    pub fn lpush(&mut self, key: &str, values: Vec<Vec<u8>>, now: u64) -> (r: Result<
        usize,
        RedisErr,
    >)
        requires
            old(self).wf(),
        ensures
            final(self).wf(),
            ({
                let m = live(old(self)@, key@, now);
                let vs = byte_strings(values@);
                match m.get(key@) {
                    None => r == Ok::<usize, RedisErr>(values@.len() as usize) && final(self)@
                        == m.insert(key@, fresh_entry(ValueView::List(vs.reverse()), now)),
                    Some(e) => match e.value {
                        ValueView::List(l) => vs.len() + l.len() <= usize::MAX && r == Ok::<
                            usize,
                            RedisErr,
                        >((vs.len() + l.len()) as usize) && final(self)@ == m.insert(
                            key@,
                            EntryView { value: ValueView::List(vs.reverse() + l), touch_at: now, ..e },
                        ),
                        _ => r == Err::<usize, RedisErr>(RedisErr::WrongType) && final(self)@ == m,
                    },
                }
            }),
    {
        let found = self.prune(key, now);
        let ghost s = self.entries@;
        let (mut list, entry) = match found {
            None => (VecDeque::new(), None),
            Some(i) => {
                match &self.entries[i].value {
                    Value::List(_) => {},
                    _ => {
                        return Err(RedisErr::WrongType);
                    },
                }
                let Entry { key: k, value, expire_at, touch_at: _ } = self.take_at(i);
                match value {
                    Value::List(l) => (l, Some((i, k, expire_at))),
                    _ => (VecDeque::new(), None),
                }
            },
        };
        let ghost start = byte_strings(list@);
        let mut j: usize = 0;
        while j < values.len()
            invariant
                j <= values@.len(),
                byte_strings(list@) == byte_strings(values@).subrange(0, j as int).reverse()
                    + start,
                list@.len() == j + start.len(),
            decreases values@.len() - j,
        {
            let ghost before = list@;
            list.push_front(copy_bytes(values[j].as_slice()));
            proof {
                let vs = byte_strings(values@);
                assert(vs.subrange(0, j + 1) =~= vs.subrange(0, j as int).push(vs[j as int]));
                assert(vs.subrange(0, j + 1).reverse() =~= seq![vs[j as int]] + vs.subrange(
                    0,
                    j as int,
                ).reverse());
                assert(byte_strings(list@) =~= seq![vs[j as int]] + byte_strings(before));
            }
            j = j + 1;
        }
        proof {
            assert(byte_strings(values@).subrange(0, values@.len() as int) =~= byte_strings(values@));
        }
        let n = list.len();
        match entry {
            None => {
                let e = Entry { key: key.to_string(), value: Value::List(list), expire_at: None, touch_at: now };
                proof {
                    assert(start =~= Seq::<Seq<u8>>::empty());
                    assert(byte_strings(values@).reverse() + start =~= byte_strings(values@).reverse());
                }
                self.add_entry(e);
            },
            Some((i, k, expire_at)) => {
                let e = Entry { key: k, value: Value::List(list), expire_at, touch_at: now };
                proof {
                    lemma_entries_index(s, i as int);
                }
                self.restore(i, e, Ghost(s));
            },
        }
        Ok(n)
    }

    /// The elements of the list under `key` between `start` and `stop`, as
    /// `LRANGE` counts them; an absent key holds an empty list.
    pub fn lrange(&mut self, key: &str, start: i64, stop: i64, now: u64) -> (r: Result<
        Vec<Vec<u8>>,
        RedisErr,
    >)
        requires
            old(self).wf(),
        ensures
            final(self).wf(),
            final(self)@ == seen(old(self)@, key@, now),
            match live(old(self)@, key@, now).get(key@) {
                None => r matches Ok(v) && v@.len() == 0,
                Some(e) => match e.value {
                    ValueView::List(l) => r matches Ok(v) && byte_strings(v@) == l.subrange(
                        range_of(l.len() as int, start as int, stop as int).0,
                        range_of(l.len() as int, start as int, stop as int).1,
                    ),
                    _ => r == Err::<Vec<Vec<u8>>, RedisErr>(RedisErr::WrongType),
                },
            },
    {
        match self.access(key, now) {
            None => Ok(Vec::new()),
            Some(i) => match &self.entries[i].value {
                Value::List(l) => {
                    let len: i128 = l.len() as i128;
                    let (lo, hi) = range_bounds(len, start as i128, stop as i128);
                    let mut out: Vec<Vec<u8>> = Vec::new();
                    let mut k: usize = lo as usize;
                    while k < hi as usize
                        invariant
                            0 <= lo <= hi <= l@.len(),
                            lo <= k <= hi,
                            byte_strings(out@) == byte_strings(l@).subrange(lo as int, k as int),
                        decreases hi - k,
                    {
                        let ghost before = out@;
                        out.push(copy_bytes(l[k].as_slice()));
                        proof {
                            assert(byte_strings(out@) =~= byte_strings(before).push(l@[k as int]@));
                            assert(byte_strings(l@).subrange(lo as int, k + 1) =~= byte_strings(
                                l@,
                            ).subrange(lo as int, k as int).push(l@[k as int]@));
                        }
                        k = k + 1;
                    }
                    Ok(out)
                },
                _ => Err(RedisErr::WrongType),
            },
        }
    }

    /// Sets fields of the hash under `key`; replies with the number of
    /// pairs given.
    pub fn hset(&mut self, key: String, pairs: Vec<(String, Vec<u8>)>, now: u64) -> (r: Result<
        usize,
        RedisErr,
    >)
        requires
            old(self).wf(),
        ensures
            final(self).wf(),
            ({
                let m = live(old(self)@, key@, now);
                let ps = field_pairs(pairs@);
                match m.get(key@) {
                    None => r == Ok::<usize, RedisErr>(pairs@.len() as usize) && final(self)@
                        == m.insert(
                        key@,
                        fresh_entry(ValueView::Hash(insert_fields(Map::empty(), ps)), now),
                    ),
                    Some(e) => match e.value {
                        ValueView::Hash(h) => r == Ok::<usize, RedisErr>(pairs@.len() as usize)
                            && final(self)@ == m.insert(
                            key@,
                            EntryView { value: ValueView::Hash(insert_fields(h, ps)), touch_at: now, ..e },
                        ),
                        _ => r == Err::<usize, RedisErr>(RedisErr::WrongType) && final(self)@ == m,
                    },
                }
            }),
    {
        let found = self.prune(key.as_str(), now);
        let ghost s = self.entries@;
        let (mut fields, entry) = match found {
            None => (Vec::new(), None),
            Some(i) => {
                match &self.entries[i].value {
                    Value::Hash(_) => {},
                    _ => {
                        return Err(RedisErr::WrongType);
                    },
                }
                let Entry { key: k, value, expire_at, touch_at: _ } = self.take_at(i);
                match value {
                    Value::Hash(h) => (h, Some((i, k, expire_at))),
                    _ => (Vec::new(), None),
                }
            },
        };
        let ghost start = assoc_map(field_pairs(fields@));
        proof {
            if let Some((i, _, _)) = entry {
                lemma_entries_index(s, i as int);
            } else {
                assert(field_pairs(fields@) =~= Seq::empty());
                lemma_assoc_empty::<Seq<char>, Seq<u8>>();
            }
        }
        let mut j: usize = 0;
        while j < pairs.len()
            invariant
                j <= pairs@.len(),
                unique_keys(field_pairs(fields@)),
                assoc_map(field_pairs(fields@)) == insert_fields(
                    start,
                    field_pairs(pairs@).subrange(0, j as int),
                ),
            decreases pairs@.len() - j,
        {
            let field = pairs[j].0.clone();
            let value = copy_bytes(pairs[j].1.as_slice());
            hash_put(&mut fields, field, value);
            proof {
                let ps = field_pairs(pairs@);
                assert(ps.subrange(0, j + 1).drop_last() =~= ps.subrange(0, j as int));
            }
            j = j + 1;
        }
        proof {
            assert(field_pairs(pairs@).subrange(0, pairs@.len() as int) =~= field_pairs(pairs@));
        }
        match entry {
            None => {
                let e = Entry { key, value: Value::Hash(fields), expire_at: None, touch_at: now };
                self.add_entry(e);
            },
            Some((i, k, expire_at)) => {
                let e = Entry { key: k, value: Value::Hash(fields), expire_at, touch_at: now };
                self.restore(i, e, Ghost(s));
            },
        }
        Ok(pairs.len())
    }

    /// The value of `field` in the hash under `key`.
    pub fn hget(&mut self, key: &str, field: &str, now: u64) -> (r: Result<Option<Vec<u8>>, RedisErr>)
        requires
            old(self).wf(),
        ensures
            final(self).wf(),
            final(self)@ == seen(old(self)@, key@, now),
            match live(old(self)@, key@, now).get(key@) {
                None => r == Err::<Option<Vec<u8>>, RedisErr>(RedisErr::KeyNotFound),
                Some(e) => match e.value {
                    ValueView::Hash(h) => r matches Ok(v) && match h.get(field@) {
                        None => v is None,
                        Some(b) => v matches Some(w) && w@ == b,
                    },
                    _ => r == Err::<Option<Vec<u8>>, RedisErr>(RedisErr::WrongType),
                },
            },
    {
        match self.access(key, now) {
            None => Err(RedisErr::KeyNotFound),
            Some(i) => match &self.entries[i].value {
                Value::Hash(h) => Ok(hash_lookup(h, field)),
                _ => Err(RedisErr::WrongType),
            },
        }
    }

    /// Adds or updates members of the sorted set under `key`, as `ZADD`
    /// does; replies with the sum of the per-member counts. An absent key is
    /// created only when some member went in.
    pub fn zadd(
        &mut self,
        key: &str,
        nx: bool,
        xx: bool,
        lt: bool,
        gt: bool,
        ch: bool,
        incr: bool,
        pairs: Vec<(i64, Vec<u8>)>,
        now: u64,
    ) -> (r: Result<usize, RedisErr>)
        requires
            old(self).wf(),
        ensures
            final(self).wf(),
            ({
                let m = live(old(self)@, key@, now);
                let ps = scored_members(pairs@);
                match m.get(key@) {
                    None => {
                        let (z, c) = zadd_all(Map::empty(), nx, xx, lt, gt, ch, incr, ps);
                        r == Ok::<usize, RedisErr>(c as usize) && final(self)@ == (if z.len() == 0 {
                            m
                        } else {
                            m.insert(key@, fresh_entry(ValueView::ZSet(z), now))
                        })
                    },
                    Some(e) => match e.value {
                        ValueView::ZSet(z0) => {
                            let (z, c) = zadd_all(z0, nx, xx, lt, gt, ch, incr, ps);
                            r == Ok::<usize, RedisErr>(c as usize) && final(self)@ == m.insert(
                                key@,
                                EntryView { value: ValueView::ZSet(z), touch_at: now, ..e },
                            )
                        },
                        _ => r == Err::<usize, RedisErr>(RedisErr::WrongType) && final(self)@ == m,
                    },
                }
            }),
    {
        let found = self.prune(key, now);
        let ghost s = self.entries@;
        let (mut z, entry) = match found {
            None => (ZSet::new(), None),
            Some(i) => {
                match &self.entries[i].value {
                    Value::ZSet(_) => {},
                    _ => {
                        return Err(RedisErr::WrongType);
                    },
                }
                let Entry { key: k, value, expire_at, touch_at: _ } = self.take_at(i);
                match value {
                    Value::ZSet(z) => (z, Some((i, k, expire_at))),
                    _ => (ZSet::new(), None),
                }
            },
        };
        let ghost start = z@;
        proof {
            if let Some((i, _, _)) = entry {
                lemma_entries_index(s, i as int);
            }
        }
        let mut count: usize = 0;
        let mut j: usize = 0;
        while j < pairs.len()
            invariant
                j <= pairs@.len(),
                z.wf(),
                count <= j,
                (z@, count as nat) == zadd_all(
                    start,
                    nx,
                    xx,
                    lt,
                    gt,
                    ch,
                    incr,
                    scored_members(pairs@).subrange(0, j as int),
                ),
            decreases pairs@.len() - j,
        {
            let score = pairs[j].0;
            let member = copy_bytes(pairs[j].1.as_slice());
            let c = z.zadd(nx, xx, lt, gt, ch, incr, score, member);
            proof {
                let ps = scored_members(pairs@);
                assert(ps.subrange(0, j + 1).drop_last() =~= ps.subrange(0, j as int));
            }
            count = count + c;
            j = j + 1;
        }
        proof {
            assert(scored_members(pairs@).subrange(0, pairs@.len() as int) =~= scored_members(pairs@));
        }
        match entry {
            None => {
                if z.len() > 0 {
                    let e = Entry { key: key.to_string(), value: Value::ZSet(z), expire_at: None, touch_at: now };
                    self.add_entry(e);
                }
            },
            Some((i, k, expire_at)) => {
                let e = Entry { key: k, value: Value::ZSet(z), expire_at, touch_at: now };
                self.restore(i, e, Ghost(s));
            },
        }
        Ok(count)
    }

    /// The number of members of the sorted set under `key`.
    pub fn zcard(&mut self, key: &str, now: u64) -> (r: Result<usize, RedisErr>)
        requires
            old(self).wf(),
        ensures
            final(self).wf(),
            final(self)@ == seen(old(self)@, key@, now),
            match live(old(self)@, key@, now).get(key@) {
                None => r == Err::<usize, RedisErr>(RedisErr::KeyNotFound),
                Some(e) => match e.value {
                    ValueView::ZSet(z) => z.len() <= usize::MAX && r == Ok::<usize, RedisErr>(
                        z.len() as usize,
                    ),
                    _ => r == Err::<usize, RedisErr>(RedisErr::WrongType),
                },
            },
    {
        match self.access(key, now) {
            None => Err(RedisErr::KeyNotFound),
            Some(i) => match &self.entries[i].value {
                Value::ZSet(z) => Ok(z.len()),
                _ => Err(RedisErr::WrongType),
            },
        }
    }

    /// Removes members of the sorted set under `key`; replies with how many
    /// were there.
    pub fn zrem(&mut self, key: &str, members: Vec<Vec<u8>>, now: u64) -> (r: Result<
        usize,
        RedisErr,
    >)
        requires
            old(self).wf(),
        ensures
            final(self).wf(),
            ({
                let m = live(old(self)@, key@, now);
                match m.get(key@) {
                    None => r == Err::<usize, RedisErr>(RedisErr::KeyNotFound) && final(self)@ == m,
                    Some(e) => match e.value {
                        ValueView::ZSet(z0) => {
                            let (z, c) = zrem_all(z0, byte_strings(members@));
                            r == Ok::<usize, RedisErr>(c as usize) && final(self)@ == m.insert(
                                key@,
                                EntryView { value: ValueView::ZSet(z), touch_at: now, ..e },
                            )
                        },
                        _ => r == Err::<usize, RedisErr>(RedisErr::WrongType) && final(self)@ == m,
                    },
                }
            }),
    {
        let found = self.prune(key, now);
        let ghost s = self.entries@;
        let i = match found {
            None => {
                return Err(RedisErr::KeyNotFound);
            },
            Some(i) => i,
        };
        match &self.entries[i].value {
            Value::ZSet(_) => {},
            _ => {
                return Err(RedisErr::WrongType);
            },
        }
        proof {
            lemma_entries_index(s, i as int);
        }
        let Entry { key: k, value, expire_at, touch_at: _ } = self.take_at(i);
        let mut z = match value {
            Value::ZSet(z) => z,
            _ => ZSet::new(),
        };
        let ghost start = z@;
        let mut count: usize = 0;
        let mut j: usize = 0;
        while j < members.len()
            invariant
                j <= members@.len(),
                z.wf(),
                count <= j,
                (z@, count as nat) == zrem_all(start, byte_strings(members@).subrange(0, j as int)),
            decreases members@.len() - j,
        {
            let gone = z.remove(members[j].as_slice());
            proof {
                let ms = byte_strings(members@);
                assert(ms.subrange(0, j + 1).drop_last() =~= ms.subrange(0, j as int));
            }
            if gone {
                count = count + 1;
            }
            j = j + 1;
        }
        proof {
            assert(byte_strings(members@).subrange(0, members@.len() as int) =~= byte_strings(members@));
        }
        let e = Entry { key: k, value: Value::ZSet(z), expire_at, touch_at: now };
        self.restore(i, e, Ghost(s));
        Ok(count)
    }

    /// Adds `value` to the bloom filter under `key`.
    pub fn bf_add(&mut self, key: String, value: String, now: u64) -> (r: Result<(), RedisErr>)
        requires
            old(self).wf(),
        ensures
            final(self).wf(),
            ({
                let m = live(old(self)@, key@, now);
                match m.get(key@) {
                    None => r is Ok && final(self)@ == m.insert(
                        key@,
                        fresh_entry(ValueView::BloomFilter(Set::empty().insert(value@)), now),
                    ),
                    Some(e) => match e.value {
                        ValueView::BloomFilter(b) => r is Ok && final(self)@ == m.insert(
                            key@,
                            EntryView { value: ValueView::BloomFilter(b.insert(value@)), touch_at: now, ..e },
                        ),
                        _ => r == Err::<(), RedisErr>(RedisErr::WrongType) && final(self)@ == m,
                    },
                }
            }),
    {
        let found = self.prune(key.as_str(), now);
        let ghost s = self.entries@;
        match found {
            None => {
                let mut b = Bloom::new();
                b.insert(value.as_str());
                let e = Entry { key, value: Value::BloomFilter(b), expire_at: None, touch_at: now };
                self.add_entry(e);
                Ok(())
            },
            Some(i) => {
                match &self.entries[i].value {
                    Value::BloomFilter(_) => {},
                    _ => {
                        return Err(RedisErr::WrongType);
                    },
                }
                proof {
                    lemma_entries_index(s, i as int);
                }
                let Entry { key: k, value: v, expire_at, touch_at: _ } = self.take_at(i);
                let mut b = match v {
                    Value::BloomFilter(b) => b,
                    _ => Bloom::new(),
                };
                b.insert(value.as_str());
                let e = Entry { key: k, value: Value::BloomFilter(b), expire_at, touch_at: now };
                self.restore(i, e, Ghost(s));
                Ok(())
            },
        }
    }

    /// Whether the bloom filter under `key` holds `value`; an absent key
    /// holds nothing.
    pub fn bf_exists(&mut self, key: &str, value: &str, now: u64) -> (r: Result<bool, RedisErr>)
        requires
            old(self).wf(),
        ensures
            final(self).wf(),
            final(self)@ == seen(old(self)@, key@, now),
            match live(old(self)@, key@, now).get(key@) {
                None => r == Ok::<bool, RedisErr>(false),
                Some(e) => match e.value {
                    ValueView::BloomFilter(b) => r == Ok::<bool, RedisErr>(b.contains(value@)),
                    _ => r == Err::<bool, RedisErr>(RedisErr::WrongType),
                },
            },
    {
        match self.access(key, now) {
            None => Ok(false),
            Some(i) => match &self.entries[i].value {
                Value::BloomFilter(b) => Ok(b.contains(value)),
                _ => Err(RedisErr::WrongType),
            },
        }
    }
}

/// The value under `field`.
fn hash_lookup(h: &Vec<(String, Vec<u8>)>, field: &str) -> (r: Option<Vec<u8>>)
    requires
        unique_keys(field_pairs(h@)),
    ensures
        match assoc_map(field_pairs(h@)).get(field@) {
            None => r is None,
            Some(b) => r matches Some(w) && w@ == b,
        },
{
    let mut j: usize = 0;
    while j < h.len()
        invariant
            j <= h@.len(),
            unique_keys(field_pairs(h@)),
            forall|k: int| 0 <= k < j ==> h@[k].0@ != field@,
        decreases h@.len() - j,
    {
        if text_eq(h[j].0.as_str(), field) {
            proof {
                lemma_assoc_index(field_pairs(h@), j as int);
            }
            return Some(copy_bytes(h[j].1.as_slice()));
        }
        j = j + 1;
    }
    proof {
        let p = field_pairs(h@);
        assert forall|k: int| 0 <= k < p.len() implies p[k].0 != field@ by {
            assert(p[k].0 == h@[k].0@);
        }
        lemma_assoc_absent(p, field@);
    }
    None
}

/// Puts `value` under `field`, in place of any earlier value.
fn hash_put(h: &mut Vec<(String, Vec<u8>)>, field: String, value: Vec<u8>)
    requires
        unique_keys(field_pairs(old(h)@)),
    ensures
        unique_keys(field_pairs(final(h)@)),
        assoc_map(field_pairs(final(h)@)) == assoc_map(field_pairs(old(h)@)).insert(field@, value@),
{
    let ghost p = field_pairs(h@);
    let mut j: usize = 0;
    while j < h.len()
        invariant
            j <= h@.len(),
            h@ == old(h)@,
            p == field_pairs(h@),
            unique_keys(p),
            forall|k: int| 0 <= k < j ==> h@[k].0@ != field@,
        decreases h@.len() - j,
    {
        if text_eq(h[j].0.as_str(), field.as_str()) {
            proof {
                assert(p[j as int].0 == field@);
                lemma_assoc_update(p, j as int, value@);
            }
            let ghost fv = field@;
            let ghost vv = value@;
            h.remove(j);
            h.insert(j, (field, value));
            proof {
                assert(field_pairs(h@) =~= p.update(j as int, (p[j as int].0, vv)));
                assert(vv == value@);
            }
            return;
        }
        j = j + 1;
    }
    proof {
        assert(!has_key(p, field@)) by {
            if has_key(p, field@) {
                let k = choose|k: int| 0 <= k < p.len() && p[k].0 == field@;
                assert(p[k].0 == h@[k].0@);
            }
        }
        lemma_assoc_push(p, field@, value@);
    }
    let ghost fv = field@;
    let ghost vv = value@;
    h.push((field, value));
    proof {
        assert(field_pairs(h@) =~= p.push((fv, vv)));
    }
}

/// A hash with the pairs set in order: a later pair for a field wins.
pub open spec fn insert_fields(h: Map<Seq<char>, Seq<u8>>, ps: Seq<(Seq<char>, Seq<u8>)>) -> Map<
    Seq<char>,
    Seq<u8>,
>
    decreases ps.len(),
{
    if ps.len() == 0 {
        h
    } else {
        insert_fields(h, ps.drop_last()).insert(ps.last().0, ps.last().1)
    }
}

pub open spec fn scored_members(s: Seq<(i64, Vec<u8>)>) -> Seq<(int, Seq<u8>)> {
    s.map_values(|p: (i64, Vec<u8>)| (p.0 as int, p.1@))
}

/// `ZADD` over several members in order: the final scores and the sum of
/// the per-member counts.
pub open spec fn zadd_all(
    m: Map<Seq<u8>, int>,
    nx: bool,
    xx: bool,
    lt: bool,
    gt: bool,
    ch: bool,
    incr: bool,
    ps: Seq<(int, Seq<u8>)>,
) -> (Map<Seq<u8>, int>, nat)
    decreases ps.len(),
{
    if ps.len() == 0 {
        (m, 0)
    } else {
        let (m1, c1) = zadd_all(m, nx, xx, lt, gt, ch, incr, ps.drop_last());
        let (m2, c2) = zadd_step(m1, nx, xx, lt, gt, ch, incr, ps.last().0, ps.last().1);
        (m2, c1 + c2)
    }
}

/// `ZREM` over several members in order: the scores left and how many of
/// the members were there.
pub open spec fn zrem_all(m: Map<Seq<u8>, int>, ms: Seq<Seq<u8>>) -> (Map<Seq<u8>, int>, nat)
    decreases ms.len(),
{
    if ms.len() == 0 {
        (m, 0)
    } else {
        let (m1, c1) = zrem_all(m, ms.drop_last());
        if m1.contains_key(ms.last()) {
            (m1.remove(ms.last()), c1 + 1)
        } else {
            (m1, c1)
        }
    }
}

/// The half-open range of positions that `LRANGE start stop` covers in a
/// list of `len` elements: negative positions count from the end, both ends
/// are held to `[0, len - 1]`, and an empty range is `(0, 0)`.
pub open spec fn range_of(len: int, start: int, stop: int) -> (int, int) {
    let s0 = if start < 0 {
        len + start
    } else {
        start
    };
    let e0 = if stop < 0 {
        len + stop
    } else {
        stop
    };
    let s = if s0 < 0 {
        0
    } else {
        s0
    };
    let e = if e0 < 0 {
        0
    } else if e0 >= len {
        len - 1
    } else {
        e0
    };
    if s > e || s >= len {
        (0, 0)
    } else {
        (s, e + 1)
    }
}

fn range_bounds(len: i128, start: i128, stop: i128) -> (r: (i128, i128))
    requires
        0 <= len <= usize::MAX,
        i64::MIN <= start <= i64::MAX,
        i64::MIN <= stop <= i64::MAX,
    ensures
        r.0 == range_of(len as int, start as int, stop as int).0,
        r.1 == range_of(len as int, start as int, stop as int).1,
        0 <= r.0 <= r.1 <= len,
{
    let s0 = if start < 0 {
        len + start
    } else {
        start
    };
    let e0 = if stop < 0 {
        len + stop
    } else {
        stop
    };
    let s = if s0 < 0 {
        0
    } else {
        s0
    };
    let e = if e0 < 0 {
        0
    } else if e0 >= len {
        len - 1
    } else {
        e0
    };
    if s > e || s >= len {
        (0, 0)
    } else {
        (s, e + 1)
    }
}

} // verus!
