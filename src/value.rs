//! The kinds of values a key can hold, with the sorted set and the bloom
//! filter.
use vstd::prelude::*;
use vstd::multiset::Multiset;
use vstd::utf8::*;

use skiplist::OrderedSkipList;

use crate::assoc::{
    assoc_map, has_key, lemma_assoc_absent, lemma_assoc_empty, lemma_assoc_index, lemma_assoc_len,
    lemma_assoc_push, lemma_assoc_remove, lemma_assoc_update, unique_keys,
};

verus! {

broadcast use vstd::utf8::group_utf8_lib, vstd::seq_lib::group_to_multiset_ensures;

/// skiplist's ordered skip list; what it holds is known only through
/// `ordered_items`.
#[verifier::external_type_specification]
#[verifier::external_body]
#[verifier::reject_recursive_types(T)]
pub struct ExOrderedSkipList<T>(OrderedSkipList<T>);

/// The items of an ordered skip list of scores and members.
pub uninterp spec fn ordered_items(l: OrderedSkipList<(i64, Vec<u8>)>) -> Multiset<(int, Seq<u8>)>;

/// Relies on skiplist::OrderedSkipList::new: a list with no items.
#[verifier::external_body]
fn order_new() -> (r: OrderedSkipList<(i64, Vec<u8>)>)
    ensures
        ordered_items(r) == Multiset::<(int, Seq<u8>)>::empty(),
{
    OrderedSkipList::new()
}

/// Relies on skiplist::OrderedSkipList::insert: the item is added. Its
/// default ordering is `partial_cmp`, which pairs of an integer and bytes
/// always have, so it does not panic.
#[verifier::external_body]
fn order_insert(l: &mut OrderedSkipList<(i64, Vec<u8>)>, score: i64, member: Vec<u8>)
    ensures
        ordered_items(*final(l)) == ordered_items(*old(l)).insert((score as int, member@)),
{
    l.insert((score, member))
}

/// Relies on skiplist::OrderedSkipList::remove: one item that compares equal
/// to the given one goes, if there is one; pairs compare equal exactly when
/// they are equal.
#[verifier::external_body]
fn order_remove(l: &mut OrderedSkipList<(i64, Vec<u8>)>, score: i64, member: &[u8]) -> (r: bool)
    ensures
        r == ordered_items(*old(l)).contains((score as int, member@)),
        ordered_items(*final(l)) == ordered_items(*old(l)).remove((score as int, member@)),
{
    l.remove(&(score, member.to_vec())).is_some()
}

/// Whether two byte strings are equal.
pub fn bytes_eq(a: &[u8], b: &[u8]) -> (r: bool)
    ensures
        r == (a@ == b@),
{
    if a.len() != b.len() {
        return false;
    }
    let mut i: usize = 0;
    while i < a.len()
        invariant
            a@.len() == b@.len(),
            i <= a@.len(),
            forall|k: int| 0 <= k < i ==> a@[k] == b@[k],
        decreases a@.len() - i,
    {
        if a[i] != b[i] {
            return false;
        }
        i = i + 1;
    }
    proof {
        assert(a@ =~= b@);
    }
    true
}

/// Whether two texts are equal.
pub fn text_eq(a: &str, b: &str) -> (r: bool)
    ensures
        r == (a@ == b@),
{
    let r = bytes_eq(a.as_bytes(), b.as_bytes());
    proof {
        encode_utf8_decode_utf8(a@);
        encode_utf8_decode_utf8(b@);
    }
    r
}

/// A copy of a byte string.
pub fn copy_bytes(b: &[u8]) -> (r: Vec<u8>)
    ensures
        r@ == b@,
{
    let mut r: Vec<u8> = Vec::new();
    let mut i: usize = 0;
    while i < b.len()
        invariant
            i <= b@.len(),
            r@ == b@.subrange(0, i as int),
        decreases b@.len() - i,
    {
        r.push(b[i]);
        proof {
            assert(b@.subrange(0, i + 1) =~= b@.subrange(0, i as int).push(b@[i as int]));
        }
        i = i + 1;
    }
    proof {
        assert(b@.subrange(0, b@.len() as int) =~= b@);
    }
    r
}

#[derive(Debug, PartialEq, Eq, Clone, Copy, Structural)]
pub enum ValueType {
    KV,
    List,
    Hash,
    ZSet,
    BloomFilter,
}

pub open spec fn kind_name(t: ValueType) -> Seq<char> {
    match t {
        ValueType::KV => "string"@,
        ValueType::List => "list"@,
        ValueType::Hash => "hash"@,
        ValueType::ZSet => "zset"@,
        ValueType::BloomFilter => "bloomfilter"@,
    }
}

impl ValueType {
    /// The name that `TYPE` replies with.
    pub fn to_str(&self) -> (r: &'static str)
        ensures
            r@ == kind_name(*self),
    {
        match self {
            ValueType::KV => "string",
            ValueType::List => "list",
            ValueType::Hash => "hash",
            ValueType::ZSet => "zset",
            ValueType::BloomFilter => "bloomfilter",
        }
    }
}

/// The members of a sorted set with their scores, as mathematical values.
pub open spec fn score_pairs(s: Seq<(Vec<u8>, i64)>) -> Seq<(Seq<u8>, int)> {
    s.map_values(|p: (Vec<u8>, i64)| (p.0@, p.1 as int))
}

/// A score plus an increment, held to the range of an `i64`.
pub open spec fn add_score(a: int, b: int) -> int {
    if a + b > i64::MAX {
        i64::MAX as int
    } else if a + b < i64::MIN {
        i64::MIN as int
    } else {
        a + b
    }
}

/// What `ZADD` with the given options does to one member: the new scores
/// and the count it reports. The new score is the old one plus the given one
/// under `INCR`, else the given one; `LT` and `GT` compare it with the old.
pub open spec fn zadd_step(
    m: Map<Seq<u8>, int>,
    nx: bool,
    xx: bool,
    lt: bool,
    gt: bool,
    ch: bool,
    incr: bool,
    score: int,
    member: Seq<u8>,
) -> (Map<Seq<u8>, int>, nat) {
    if !m.contains_key(member) {
        if xx {
            (m, 0)
        } else {
            (m.insert(member, score), 1)
        }
    } else {
        let old = m[member];
        let new = if incr {
            add_score(old, score)
        } else {
            score
        };
        if nx || (lt && new >= old) || (gt && new <= old) || (old == score && !incr) {
            (m, 0)
        } else {
            (m.insert(member, new), if ch {
                1
            } else {
                0
            })
        }
    }
}

/// The (score, member) items that a sorted set orders.
pub open spec fn score_items(s: Seq<(Vec<u8>, i64)>) -> Multiset<(int, Seq<u8>)> {
    s.map_values(|p: (Vec<u8>, i64)| (p.1 as int, p.0@)).to_multiset()
}

/// A sorted set: members with integer scores, each member once, and the
/// same pairs kept in score order.
pub struct ZSet {
    members: Vec<(Vec<u8>, i64)>,
    order: OrderedSkipList<(i64, Vec<u8>)>,
}

impl ZSet {
    pub closed spec fn view(&self) -> Map<Seq<u8>, int> {
        assoc_map(score_pairs(self.members@))
    }

    pub closed spec fn wf(&self) -> bool {
        &&& unique_keys(score_pairs(self.members@))
        &&& ordered_items(self.order) == score_items(self.members@)
    }

    pub fn new() -> (r: ZSet)
        ensures
            r.wf(),
            r@ == Map::<Seq<u8>, int>::empty(),
    {
        let r = ZSet { members: Vec::new(), order: order_new() };
        proof {
            assert(score_pairs(r.members@) =~= Seq::empty());
            assert(r.members@.map_values(|p: (Vec<u8>, i64)| (p.1 as int, p.0@)) =~= Seq::empty());
            assert(score_items(r.members@) =~= Multiset::empty());
            lemma_assoc_empty::<Seq<u8>, int>();
        }
        r
    }

    /// The number of members.
    pub fn len(&self) -> (r: usize)
        requires
            self.wf(),
        ensures
            r == self@.len(),
    {
        proof {
            lemma_assoc_len(score_pairs(self.members@));
        }
        self.members.len()
    }

    fn find(&self, member: &[u8]) -> (r: Option<usize>)
        requires
            self.wf(),
        ensures
            match r {
                Some(i) => i < self.members@.len() && self.members@[i as int].0@ == member@,
                None => !self@.contains_key(member@),
            },
    {
        let mut i: usize = 0;
        while i < self.members.len()
            invariant
                i <= self.members@.len(),
                forall|k: int| 0 <= k < i ==> self.members@[k].0@ != member@,
            decreases self.members@.len() - i,
        {
            if bytes_eq(self.members[i].0.as_slice(), member) {
                return Some(i);
            }
            i = i + 1;
        }
        proof {
            let s = score_pairs(self.members@);
            assert forall|k: int| 0 <= k < s.len() implies s[k].0 != member@ by {
                assert(s[k].0 == self.members@[k].0@);
            }
            lemma_assoc_absent(s, member@);
        }
        None
    }

    /// The score of a member, if it is in the set.
    pub fn score(&self, member: &[u8]) -> (r: Option<i64>)
        requires
            self.wf(),
        ensures
            r matches Some(s) ==> self@.contains_key(member@) && self@[member@] == s as int,
            r is None ==> !self@.contains_key(member@),
    {
        match self.find(member) {
            Some(i) => {
                proof {
                    lemma_assoc_index(score_pairs(self.members@), i as int);
                }
                Some(self.members[i].1)
            },
            None => None,
        }
    }

    /// Adds or updates one member as `ZADD` does, and returns the count that
    /// `ZADD` reports for it.
    pub fn zadd(
        &mut self,
        nx: bool,
        xx: bool,
        lt: bool,
        gt: bool,
        ch: bool,
        incr: bool,
        score: i64,
        member: Vec<u8>,
    ) -> (r: usize)
        requires
            old(self).wf(),
        ensures
            final(self).wf(),
            (final(self)@, r as nat) == zadd_step(
                old(self)@,
                nx,
                xx,
                lt,
                gt,
                ch,
                incr,
                score as int,
                member@,
            ),
    {
        let ghost s = score_pairs(self.members@);
        match self.find(member.as_slice()) {
            None => {
                if xx {
                    return 0;
                }
                proof {
                    assert(!has_key(s, member@));
                    lemma_assoc_push(s, member@, score as int);
                }
                let ghost m = member@;
                let ghost before = self.members@;
                let copy = copy_bytes(member.as_slice());
                self.members.push((member, score));
                order_insert(&mut self.order, score, copy);
                proof {
                    assert(score_pairs(self.members@) =~= s.push((m, score as int)));
                    lemma_items_push(before, self.members@.last());
                    assert(self.members@ =~= before.push(self.members@.last()));
                }
                1
            },
            Some(i) => {
                proof {
                    lemma_assoc_index(s, i as int);
                }
                let old = self.members[i].1;
                let new: i64 = if incr {
                    let t: i128 = old as i128 + score as i128;
                    if t > i64::MAX as i128 {
                        i64::MAX
                    } else if t < i64::MIN as i128 {
                        i64::MIN
                    } else {
                        t as i64
                    }
                } else {
                    score
                };
                // `LT` and `GT` compare the score the member would get
                if nx || (lt && new >= old) || (gt && new <= old) || (old == score && !incr) {
                    return 0;
                }
                let ghost before = self.members@;
                let (k, _) = self.members.remove(i);
                let ghost mid = self.members@;
                proof {
                    lemma_items_remove(before, i as int);
                }
                order_remove(&mut self.order, old, k.as_slice());
                let copy = copy_bytes(k.as_slice());
                self.members.insert(i, (k, new));
                order_insert(&mut self.order, new, copy);
                proof {
                    lemma_items_insert(mid, i as int, self.members@[i as int]);
                    assert(self.members@ =~= mid.insert(i as int, self.members@[i as int]));
                    assert(score_pairs(self.members@) =~= s.update(i as int, (s[i as int].0, new as int)));
                    lemma_assoc_update(s, i as int, new as int);
                }
                if ch {
                    1
                } else {
                    0
                }
            },
        }
    }

    /// Removes a member; tells whether it was there.
    pub fn remove(&mut self, member: &[u8]) -> (r: bool)
        requires
            old(self).wf(),
        ensures
            final(self).wf(),
            r == old(self)@.contains_key(member@),
            final(self)@ == old(self)@.remove(member@),
    {
        let ghost s = score_pairs(self.members@);
        match self.find(member) {
            None => {
                proof {
                    assert(self@.remove(member@) =~= self@);
                }
                false
            },
            Some(i) => {
                proof {
                    lemma_assoc_index(s, i as int);
                    lemma_assoc_remove(s, i as int);
                }
                let ghost before = self.members@;
                let old = self.members[i].1;
                self.members.remove(i);
                order_remove(&mut self.order, old, member);
                proof {
                    assert(score_pairs(self.members@) =~= s.remove(i as int));
                    lemma_items_remove(before, i as int);
                }
                true
            },
        }
    }
}

proof fn lemma_items_push(s: Seq<(Vec<u8>, i64)>, p: (Vec<u8>, i64))
    ensures
        score_items(s.push(p)) == score_items(s).insert((p.1 as int, p.0@)),
{
    let f = |p: (Vec<u8>, i64)| (p.1 as int, p.0@);
    assert(s.push(p).map_values(f) =~= s.map_values(f).push(f(p)));
}

proof fn lemma_items_remove(s: Seq<(Vec<u8>, i64)>, i: int)
    requires
        0 <= i < s.len(),
    ensures
        score_items(s.remove(i)) == score_items(s).remove((s[i].1 as int, s[i].0@)),
        score_items(s).contains((s[i].1 as int, s[i].0@)),
{
    let f = |p: (Vec<u8>, i64)| (p.1 as int, p.0@);
    assert(s.remove(i).map_values(f) =~= s.map_values(f).remove(i));
    assert(s.map_values(f)[i] == f(s[i]));
    assert(s.map_values(f).contains(f(s[i])));
}

proof fn lemma_items_insert(s: Seq<(Vec<u8>, i64)>, i: int, p: (Vec<u8>, i64))
    requires
        0 <= i <= s.len(),
    ensures
        score_items(s.insert(i, p)) == score_items(s).insert((p.1 as int, p.0@)),
{
    let f = |p: (Vec<u8>, i64)| (p.1 as int, p.0@);
    assert(s.insert(i, p).map_values(f) =~= s.map_values(f).insert(i, f(p)));
}

/// An add/check set of texts, as a bloom filter offers it.
pub trait BloomFilter: Sized {
    spec fn contents(&self) -> Set<Seq<char>>;

    fn new() -> (r: Self)
        ensures
            r.contents() == Set::<Seq<char>>::empty(),
    ;

    fn insert(&mut self, key: &str)
        ensures
            final(self).contents() == old(self).contents().insert(key@),
    ;

    fn contains(&self, key: &str) -> (r: bool)
        ensures
            r == self.contents().contains(key@),
    ;
}

/// A bloom filter without false positives: it keeps every text it was given.
pub struct Bloom {
    items: Vec<String>,
}

impl BloomFilter for Bloom {
    closed spec fn contents(&self) -> Set<Seq<char>> {
        Set::new(|t: Seq<char>| exists|i: int| 0 <= i < self.items@.len() && self.items@[i]@ == t)
    }

    fn new() -> (r: Self) {
        let r = Bloom { items: Vec::new() };
        proof {
            assert(r.contents() =~= Set::<Seq<char>>::empty());
        }
        r
    }

    fn insert(&mut self, key: &str) {
        let ghost before = *self;
        self.items.push(key.to_string());
        proof {
            assert forall|t: Seq<char>| self.contents().contains(t) == before.contents().insert(
                key@,
            ).contains(t) by {
                if before.contents().contains(t) {
                    let i = choose|i: int| 0 <= i < before.items@.len() && before.items@[i]@ == t;
                    assert(self.items@[i] == before.items@[i]);
                }
                if self.contents().contains(t) {
                    let i = choose|i: int| 0 <= i < self.items@.len() && self.items@[i]@ == t;
                    if i < before.items@.len() {
                        assert(self.items@[i] == before.items@[i]);
                    }
                }
                if t == key@ {
                    assert(self.items@[before.items@.len() as int]@ == t);
                }
            }
            assert(self.contents() =~= before.contents().insert(key@));
        }
    }

    fn contains(&self, key: &str) -> (r: bool) {
        let mut i: usize = 0;
        while i < self.items.len()
            invariant
                i <= self.items@.len(),
                forall|k: int| 0 <= k < i ==> self.items@[k]@ != key@,
            decreases self.items@.len() - i,
        {
            if text_eq(self.items[i].as_str(), key) {
                return true;
            }
            i = i + 1;
        }
        false
    }
}

} // verus!
