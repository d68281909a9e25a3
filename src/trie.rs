//! A prefix tree from texts to values, kept as an array of nodes whose
//! edges name the next character.
use vstd::prelude::*;
use vstd::string::StrSliceExecFns;

use crate::assoc::{
    assoc_map, has_key, lemma_assoc_absent, lemma_assoc_index, lemma_assoc_push, unique_keys,
};

verus! {

pub struct TrieNode<V> {
    children: Vec<(char, usize)>,
    value: Option<V>,
}

impl<V> TrieNode<V> {
    pub fn new(value: V) -> (r: Self)
        ensures
            r.value() == Some(value),
            r.children().len() == 0,
    {
        TrieNode { children: Vec::new(), value: Some(value) }
    }

    pub fn new_empty() -> (r: Self)
        ensures
            r.value() is None,
            r.children().len() == 0,
    {
        TrieNode { children: Vec::new(), value: None }
    }

    pub closed spec fn value(&self) -> Option<V> {
        self.value
    }

    pub closed spec fn children(&self) -> Seq<(char, usize)> {
        self.children@
    }
}

/// The node that an edge from `n` by `c` leads to.
spec fn child<V>(n: TrieNode<V>, c: char) -> Option<usize> {
    if has_key(n.children@, c) {
        Some(assoc_map(n.children@)[c])
    } else {
        None
    }
}

/// The node that the path `p` leads to from the root.
spec fn node_at<V>(nodes: Seq<TrieNode<V>>, p: Seq<char>) -> Option<usize>
    decreases p.len(),
{
    if p.len() == 0 {
        if nodes.len() > 0 {
            Some(0usize)
        } else {
            None
        }
    } else {
        match node_at(nodes, p.drop_last()) {
            None => None,
            Some(i) => if i < nodes.len() {
                child(nodes[i as int], p.last())
            } else {
                None
            },
        }
    }
}

/// An edge from node `a` by `c` to node `t`.
spec fn edge<V>(nodes: Seq<TrieNode<V>>, a: int, c: char, t: usize) -> bool {
    0 <= a < nodes.len() && child(nodes[a], c) == Some(t)
}

spec fn trie_wf<V>(nodes: Seq<TrieNode<V>>) -> bool {
    &&& nodes.len() > 0
    &&& forall|i: int| 0 <= i < nodes.len() ==> unique_keys(#[trigger] nodes[i].children@)
    &&& forall|i: int, k: int|
        0 <= i < nodes.len() && 0 <= k < nodes[i].children@.len() ==> 0 < (
        #[trigger] nodes[i].children@[k]).1 < nodes.len()
    &&& forall|a: int, c: char, b: int, d: char, t: usize|
        #[trigger] edge(nodes, a, c, t) && #[trigger] edge(nodes, b, d, t) ==> a == b && c == d
}

spec fn trie_view<V>(nodes: Seq<TrieNode<V>>) -> Map<Seq<char>, V> {
    Map::new(
        |p: Seq<char>|
            node_at(nodes, p) matches Some(i) && i < nodes.len() && nodes[i as int].value is Some,
        |p: Seq<char>| nodes[node_at(nodes, p)->0 as int].value->0,
    )
}

proof fn lemma_child_in_range<V>(nodes: Seq<TrieNode<V>>, i: int, c: char)
    requires
        trie_wf(nodes),
        0 <= i < nodes.len(),
    ensures
        child(nodes[i], c) matches Some(t) ==> 0 < t < nodes.len() && edge(nodes, i, c, t),
{
    if has_key(nodes[i].children@, c) {
        let k = choose|k: int| 0 <= k < nodes[i].children@.len() && nodes[i].children@[k].0 == c;
        lemma_assoc_index(nodes[i].children@, k);
    }
}

proof fn lemma_node_at_range<V>(nodes: Seq<TrieNode<V>>, p: Seq<char>)
    requires
        trie_wf(nodes),
    ensures
        node_at(nodes, p) matches Some(i) ==> i < nodes.len(),
        p.len() > 0 ==> (node_at(nodes, p) matches Some(i) ==> i > 0),
    decreases p.len(),
{
    if p.len() > 0 {
        lemma_node_at_range(nodes, p.drop_last());
        if let Some(i) = node_at(nodes, p.drop_last()) {
            lemma_child_in_range(nodes, i as int, p.last());
        }
    }
}

/// Each node is reached by one path at most.
proof fn lemma_node_at_injective<V>(nodes: Seq<TrieNode<V>>, p: Seq<char>, q: Seq<char>)
    requires
        trie_wf(nodes),
        node_at(nodes, p) is Some,
        node_at(nodes, p) == node_at(nodes, q),
    ensures
        p == q,
    decreases p.len(),
{
    lemma_node_at_range(nodes, p);
    lemma_node_at_range(nodes, q);
    if p.len() == 0 || q.len() == 0 {
        assert(p.len() == 0 && q.len() == 0);
        assert(p =~= q);
    } else {
        let a = node_at(nodes, p.drop_last())->0;
        let b = node_at(nodes, q.drop_last())->0;
        let t = node_at(nodes, p)->0;
        lemma_node_at_range(nodes, p.drop_last());
        lemma_node_at_range(nodes, q.drop_last());
        lemma_child_in_range(nodes, a as int, p.last());
        lemma_child_in_range(nodes, b as int, q.last());
        assert(edge(nodes, a as int, p.last(), t));
        assert(edge(nodes, b as int, q.last(), t));
        lemma_node_at_injective(nodes, p.drop_last(), q.drop_last());
        assert(p =~= p.drop_last().push(p.last()));
        assert(q =~= q.drop_last().push(q.last()));
    }
}

/// Adding a fresh empty node `f`, reached from node `cur` by `c`, keeps
/// every old path where it led and adds no value.
proof fn lemma_extend<V>(old: Seq<TrieNode<V>>, new: Seq<TrieNode<V>>, cur: int, c: char)
    requires
        trie_wf(old),
        old.len() < usize::MAX,
        0 <= cur < old.len(),
        child(old[cur], c) is None,
        new.len() == old.len() + 1,
        new[old.len() as int].value is None,
        new[old.len() as int].children@.len() == 0,
        forall|i: int| 0 <= i < old.len() && i != cur ==> new[i] == old[i],
        new[cur].value == old[cur].value,
        new[cur].children@ == old[cur].children@.push((c, old.len() as usize)),
    ensures
        trie_wf(new),
        trie_view(new) == trie_view(old),
        forall|p: Seq<char>| #[trigger] node_at(old, p) is Some ==> node_at(new, p) == node_at(old, p),
{
    let f = old.len() as usize;
    assert(!has_key(old[cur].children@, c));
    lemma_assoc_push(old[cur].children@, c, f);
    assert forall|i: int| 0 <= i < new.len() implies unique_keys(#[trigger] new[i].children@) by {
        if i == f {
            assert(new[i].children@.len() == 0);
        } else if i != cur {
            assert(new[i] == old[i]);
        }
    }
    assert forall|i: int, k: int|
        0 <= i < new.len() && 0 <= k < new[i].children@.len() implies 0 < (
        #[trigger] new[i].children@[k]).1 < new.len() by {
        if i != cur && i != f {
            assert(new[i] == old[i]);
            assert(0 < old[i].children@[k].1 < old.len());
        } else if i == cur && k < old[cur].children@.len() {
            assert(new[i].children@[k] == old[cur].children@[k]);
            assert(0 < old[cur].children@[k].1 < old.len());
        }
    }
    // the edges of the new array: the old ones and one into `f`
    assert forall|a: int, d: char, t: usize| #[trigger] edge(new, a, d, t) implies (edge(old, a, d, t)
        && t != f) || (a == cur && d == c && t == f) by {
        if a == f {
            assert(!has_key(new[a].children@, d));
        } else if a != cur {
            assert(new[a] == old[a]);
            lemma_child_in_range(old, a, d);
        } else {
            let k = choose|k: int| 0 <= k < new[a].children@.len() && new[a].children@[k].0 == d;
            lemma_assoc_index(new[a].children@, k);
            if d != c {
                assert(k < old[cur].children@.len());
                assert(has_key(old[cur].children@, d));
                let k2 = choose|k2: int|
                    0 <= k2 < old[cur].children@.len() && old[cur].children@[k2].0 == d;
                lemma_assoc_index(old[cur].children@, k2);
                assert(assoc_map(new[a].children@)[d] == assoc_map(old[cur].children@)[d]);
                lemma_child_in_range(old, a, d);
            }
        }
    }
    assert forall|a: int, d: char, t: usize| #[trigger] edge(old, a, d, t) implies edge(new, a, d, t) by {
        lemma_child_in_range(old, a, d);
        if a != cur {
            assert(new[a] == old[a]);
        } else {
            assert(d != c);
            let k = choose|k: int| 0 <= k < old[a].children@.len() && old[a].children@[k].0 == d;
            assert(new[a].children@[k] == old[a].children@[k]);
            assert(has_key(new[a].children@, d));
        }
    }
    assert(edge(new, cur, c, f)) by {
        assert(new[cur].children@[old[cur].children@.len() as int] == (c, f));
        assert(has_key(new[cur].children@, c));
    }
    assert forall|a: int, d: char, b: int, e: char, t: usize|
        #[trigger] edge(new, a, d, t) && #[trigger] edge(new, b, e, t) implies a == b && d == e by {
        if t == f {
        } else {
            assert(edge(old, a, d, t));
            assert(edge(old, b, e, t));
        }
    }
    assert(trie_wf(new));
    assert forall|p: Seq<char>| #[trigger] node_at(old, p) is Some implies node_at(new, p) == node_at(
        old,
        p,
    ) by {
        lemma_extend_path(old, new, cur, c, p);
    }
    assert forall|p: Seq<char>| trie_view(new).contains_key(p) == trie_view(old).contains_key(p) by {
        lemma_extend_path(old, new, cur, c, p);
        lemma_node_at_range(old, p);
    }
    assert forall|p: Seq<char>| trie_view(new).contains_key(p) implies trie_view(new)[p] == trie_view(
        old,
    )[p] by {
        lemma_extend_path(old, new, cur, c, p);
        lemma_node_at_range(old, p);
    }
    assert(trie_view(new) =~= trie_view(old));
}

/// A path of the extended array leads where it led before, or to the fresh node.
proof fn lemma_extend_path<V>(
    old: Seq<TrieNode<V>>,
    new: Seq<TrieNode<V>>,
    cur: int,
    c: char,
    p: Seq<char>,
)
    requires
        trie_wf(old),
        trie_wf(new),
        old.len() < usize::MAX,
        0 <= cur < old.len(),
        child(old[cur], c) is None,
        new.len() == old.len() + 1,
        new[old.len() as int].children@.len() == 0,
        forall|i: int| 0 <= i < old.len() && i != cur ==> new[i] == old[i],
        new[cur].children@ == old[cur].children@.push((c, old.len() as usize)),
        forall|a: int, d: char, t: usize| #[trigger] edge(new, a, d, t) ==> (edge(old, a, d, t)
            && t != old.len()) || (a == cur && d == c && t == old.len()),
        forall|a: int, d: char, t: usize| #[trigger] edge(old, a, d, t) ==> edge(new, a, d, t),
    ensures
        node_at(old, p) is Some ==> node_at(new, p) == node_at(old, p),
        node_at(new, p) matches Some(j) ==> (j == old.len() || node_at(old, p) == Some(j)),
    decreases p.len(),
{
    if p.len() > 0 {
        let q = p.drop_last();
        lemma_extend_path(old, new, cur, c, q);
        lemma_node_at_range(old, q);
        lemma_node_at_range(new, q);
        if let Some(a) = node_at(old, q) {
            lemma_child_in_range(old, a as int, p.last());
            lemma_child_in_range(new, a as int, p.last());
            if let Some(t) = child(old[a as int], p.last()) {
                assert(edge(old, a as int, p.last(), t));
                assert(edge(new, a as int, p.last(), t));
            }
            if let Some(t) = child(new[a as int], p.last()) {
                assert(edge(new, a as int, p.last(), t));
            }
        }
        if let Some(a) = node_at(new, q) {
            if a == old.len() {
                assert(!has_key(new[a as int].children@, p.last()));
            }
        }
    }
}

/// A map from texts to values.
pub struct Trie<V> {
    nodes: Vec<TrieNode<V>>,
}

impl<V> Trie<V> {
    pub closed spec fn view(&self) -> Map<Seq<char>, V> {
        trie_view(self.nodes@)
    }

    pub closed spec fn wf(&self) -> bool {
        trie_wf(self.nodes@)
    }

    pub fn new() -> (r: Self)
        ensures
            r.wf(),
            r@ == Map::<Seq<char>, V>::empty(),
    {
        let mut nodes: Vec<TrieNode<V>> = Vec::new();
        nodes.push(TrieNode::new_empty());
        let r = Trie { nodes };
        proof {
            assert(unique_keys(r.nodes@[0].children@)) by {
                assert(r.nodes@[0].children@.len() == 0);
            }
            assert forall|p: Seq<char>| !trie_view(r.nodes@).contains_key(p) by {
                if p.len() > 0 {
                    lemma_node_at_range(r.nodes@, p);
                }
            }
            assert(r@ =~= Map::<Seq<char>, V>::empty());
        }
        r
    }

    fn find_child(&self, i: usize, c: char) -> (r: Option<usize>)
        requires
            self.wf(),
            i < self.nodes@.len(),
        ensures
            r == child(self.nodes@[i as int], c),
    {
        let ch = &self.nodes[i].children;
        let mut k: usize = 0;
        while k < ch.len()
            invariant
                k <= ch@.len(),
                ch@ == self.nodes@[i as int].children@,
                unique_keys(ch@),
                forall|j: int| 0 <= j < k ==> ch@[j].0 != c,
            decreases ch@.len() - k,
        {
            if ch[k].0 == c {
                proof {
                    lemma_assoc_index(ch@, k as int);
                }
                return Some(ch[k].1);
            }
            k = k + 1;
        }
        proof {
            lemma_assoc_absent(ch@, c);
        }
        None
    }

    /// Puts `value` under `key`, in place of any earlier value.
    pub fn insert(&mut self, key: &str, value: V)
        requires
            old(self).wf(),
        ensures
            final(self).wf(),
            final(self)@ == old(self)@.insert(key@, value),
    {
        let n = key.unicode_len();
        let mut cur: usize = 0;
        let mut k: usize = 0;
        let ghost m0 = self@;
        while k < n
            invariant
                self.wf(),
                self@ == m0,
                n == key@.len(),
                k <= n,
                node_at(self.nodes@, key@.subrange(0, k as int)) == Some(cur),
                cur < self.nodes@.len(),
            decreases n - k,
        {
            let c = key.get_char(k);
            let ghost p = key@.subrange(0, k + 1);
            proof {
                assert(p.drop_last() =~= key@.subrange(0, k as int));
                assert(p.last() == c);
            }
            match self.find_child(cur, c) {
                Some(t) => {
                    proof {
                        lemma_child_in_range(self.nodes@, cur as int, c);
                    }
                    cur = t;
                },
                None => {
                    let ghost old_nodes = self.nodes@;
                    let f = self.nodes.len();
                    self.nodes.push(TrieNode::new_empty());
                    let _grown = self.nodes.len();
                    let mut node = self.nodes.remove(cur);
                    node.children.push((c, f));
                    self.nodes.insert(cur, node);
                    proof {
                        let new_nodes = self.nodes@;
                        assert forall|i: int| 0 <= i < old_nodes.len() && i != cur implies new_nodes[i]
                            == old_nodes[i] by {}
                        lemma_extend(old_nodes, new_nodes, cur as int, c);
                        assert(node_at(new_nodes, p) == Some(f)) by {
                            assert(node_at(new_nodes, key@.subrange(0, k as int)) == Some(cur));
                            assert(has_key(new_nodes[cur as int].children@, c)) by {
                                assert(new_nodes[cur as int].children@[old_nodes[cur as int].children@.len() as int] == (c, f));
                            }
                            lemma_child_in_range(new_nodes, cur as int, c);
                            let t = child(new_nodes[cur as int], c)->0;
                            assert(edge(new_nodes, cur as int, c, t));
                        }
                    }
                    cur = f;
                },
            }
            k = k + 1;
        }
        proof {
            assert(key@.subrange(0, n as int) =~= key@);
        }
        let ghost before = self.nodes@;
        let mut node = self.nodes.remove(cur);
        node.value = Some(value);
        self.nodes.insert(cur, node);
        proof {
            let after = self.nodes@;
            assert(after =~= before.update(cur as int, node));
            assert forall|i: int| 0 <= i < after.len() && i != cur implies after[i] == before[i] by {}
            assert(after[cur as int].children@ == before[cur as int].children@);
            // the structure is the same: only a value changed
            assert forall|q: Seq<char>| #[trigger] node_at(after, q) == node_at(before, q) by {
                lemma_same_shape(before, after, q);
            }
            assert forall|a: int, d: char, t: usize| #[trigger] edge(after, a, d, t) == edge(before, a, d, t) by {
                if 0 <= a < after.len() {
                    assert(after[a].children@ == before[a].children@);
                }
            }
            assert forall|i: int| 0 <= i < after.len() implies unique_keys(#[trigger] after[i].children@) by {
                assert(after[i].children@ == before[i].children@);
            }
            assert forall|i: int, j: int|
                0 <= i < after.len() && 0 <= j < after[i].children@.len() implies 0 < (
                #[trigger] after[i].children@[j]).1 < after.len() by {
                assert(after[i].children@ == before[i].children@);
            }
            assert forall|q: Seq<char>| trie_view(after).contains_key(q) == m0.insert(key@, value).contains_key(q) by {
                if q != key@ && node_at(before, q) == Some(cur) {
                    lemma_node_at_injective(before, q, key@);
                }
            }
            assert forall|q: Seq<char>| trie_view(after).contains_key(q) implies trie_view(after)[q] == m0.insert(key@, value)[q] by {
                if q != key@ && node_at(before, q) == Some(cur) {
                    lemma_node_at_injective(before, q, key@);
                }
            }
            assert(trie_view(after) =~= m0.insert(key@, value));
        }
    }

    /// The value under `key`.
    pub fn get(&self, key: &str) -> (r: Option<&V>)
        requires
            self.wf(),
        ensures
            match self@.get(key@) {
                None => r is None,
                Some(v) => r matches Some(x) && *x == v,
            },
    {
        let n = key.unicode_len();
        let mut cur: usize = 0;
        let mut k: usize = 0;
        while k < n
            invariant
                self.wf(),
                n == key@.len(),
                k <= n,
                node_at(self.nodes@, key@.subrange(0, k as int)) == Some(cur),
                cur < self.nodes@.len(),
            decreases n - k,
        {
            let c = key.get_char(k);
            let ghost p = key@.subrange(0, k + 1);
            proof {
                assert(p.drop_last() =~= key@.subrange(0, k as int));
                assert(p.last() == c);
            }
            match self.find_child(cur, c) {
                Some(t) => {
                    proof {
                        lemma_child_in_range(self.nodes@, cur as int, c);
                    }
                    cur = t;
                },
                None => {
                    proof {
                        let rest = key@;
                        lemma_none_after(self.nodes@, p, key@);
                    }
                    return None;
                },
            }
            k = k + 1;
        }
        proof {
            assert(key@.subrange(0, n as int) =~= key@);
        }
        match &self.nodes[cur].value {
            Some(v) => Some(v),
            None => None,
        }
    }
}

/// Paths that agree on the nodes lead to the same place.
proof fn lemma_same_shape<V>(a: Seq<TrieNode<V>>, b: Seq<TrieNode<V>>, q: Seq<char>)
    requires
        a.len() == b.len(),
        forall|i: int| 0 <= i < a.len() ==> (#[trigger] a[i]).children@ == b[i].children@,
    ensures
        node_at(a, q) == node_at(b, q),
    decreases q.len(),
{
    if q.len() > 0 {
        lemma_same_shape(a, b, q.drop_last());
        if let Some(i) = node_at(a, q.drop_last()) {
            if i < a.len() {
                assert(a[i as int].children@ == b[i as int].children@);
            }
        }
    }
}

/// When a prefix of `key` leads nowhere, neither does `key`.
proof fn lemma_none_after<V>(nodes: Seq<TrieNode<V>>, p: Seq<char>, key: Seq<char>)
    requires
        node_at(nodes, p) is None,
        p.len() <= key.len(),
        key.subrange(0, p.len() as int) == p,
    ensures
        node_at(nodes, key) is None,
    decreases key.len() - p.len(),
{
    if p.len() < key.len() {
        let p2 = key.subrange(0, p.len() + 1int);
        assert(p2.drop_last() =~= p);
        lemma_none_after(nodes, p2, key);
    } else {
        assert(key =~= p);
    }
}

} // verus!
