use vstd::prelude::*;

use crate::item::{pairs, lemma_pairs_concat, IterItem};
use crate::token::Token;

verus! {

broadcast use vstd::std_specs::vec::group_vec_axioms;

/// A node of the trie, and the trie rooted at it.
///
/// Each node holds an optional value and one edge per distinct next token,
/// leading to the child node that owns the rest of the keys below it.
pub struct Trie<K, V> {
    value: Option<V>,
    children: Vec<(K, Trie<K, V>)>,
}

impl<K, V> Trie<K, V> {
    /// The value stored at this node.
    pub closed spec fn spec_value(self) -> Option<V> {
        self.value
    }

    /// The edges leaving this node, in the order they are stored.
    pub closed spec fn edges(self) -> Seq<(K, Trie<K, V>)> {
        self.children@
    }

    /// A node with neither a value nor children.
    pub open spec fn is_dead(self) -> bool {
        self.spec_value() is None && self.edges().len() == 0
    }

    /// `i` is the first edge of this node labelled `k`.
    pub open spec fn is_first_edge(self, i: int, k: K) -> bool {
        &&& 0 <= i < self.edges().len()
        &&& self.edges()[i].0 == k
        &&& forall|m: int| 0 <= m < i ==> self.edges()[m].0 != k
    }

    /// The child reached from this node over the token `k`, if any.
    pub open spec fn child(self, k: K) -> Option<Trie<K, V>> {
        if exists|i: int| self.is_first_edge(i, k) {
            Some(self.edges()[choose|i: int| self.is_first_edge(i, k)].1)
        } else {
            None
        }
    }

    /// The node reached from this one by following the tokens of `s`.
    pub open spec fn node_at(self, s: Seq<K>) -> Option<Trie<K, V>>
        decreases s.len(),
    {
        if s.len() == 0 {
            Some(self)
        } else {
            match self.child(s[0]) {
                Some(c) => c.node_at(s.drop_first()),
                None => None,
            }
        }
    }

    /// The path `s` exists in the trie.
    pub open spec fn has_path(self, s: Seq<K>) -> bool {
        self.node_at(s) is Some
    }

    /// The value stored under the key `s`.
    pub open spec fn lookup(self, s: Seq<K>) -> Option<V> {
        match self.node_at(s) {
            Some(n) => n.spec_value(),
            None => None,
        }
    }

    /// The first edge labelled `k` is the one that `child` follows.
    pub proof fn lemma_first_edge(self, i: int, k: K)
        requires
            self.is_first_edge(i, k),
        ensures
            self.child(k) == Some(self.edges()[i].1),
    {
        assert forall|j: int| self.is_first_edge(j, k) implies j == i by {
            if j < i {
                assert(self.edges()[j].0 != k);
            } else if j > i {
                assert(self.edges()[i].0 != k);
            }
        }
    }

    /// Following `s` and then `t` reaches the node that `s + t` reaches.
    pub proof fn lemma_node_at_concat(self, s: Seq<K>, t: Seq<K>)
        ensures
            self.node_at(s + t) == match self.node_at(s) {
                Some(n) => n.node_at(t),
                None => None,
            },
        decreases s.len(),
    {
        if s.len() == 0 {
            assert(s + t =~= t);
        } else {
            assert((s + t)[0] == s[0]);
            assert((s + t).drop_first() =~= s.drop_first() + t);
            if let Some(c) = self.child(s[0]) {
                c.lemma_node_at_concat(s.drop_first(), t);
            }
        }
    }

    /// One more token steps from the node at `s` to its child.
    pub proof fn lemma_node_at_push(self, s: Seq<K>, k: K)
        ensures
            self.node_at(s.push(k)) == match self.node_at(s) {
                Some(n) => n.child(k),
                None => None,
            },
    {
        self.lemma_node_at_concat(s, seq![k]);
        assert(s + seq![k] =~= s.push(k));
        if let Some(n) = self.node_at(s) {
            assert(seq![k].drop_first() =~= Seq::<K>::empty());
            if let Some(c) = n.child(k) {
                assert(c.node_at(Seq::<K>::empty()) == Some(c));
            }
        }
    }

    /// Two nodes whose edges carry the same labels, and the same child under
    /// every edge labelled `k`, reach the same child over `k`.
    pub proof fn lemma_child_same_labels(self, other: Self, k: K)
        requires
            self.edges().len() == other.edges().len(),
            forall|i: int|
                0 <= i < self.edges().len() ==> #[trigger] self.edges()[i].0 == other.edges()[i].0,
            forall|i: int|
                0 <= i < self.edges().len() && #[trigger] self.edges()[i].0 == k
                    ==> self.edges()[i].1 == other.edges()[i].1,
        ensures
            self.child(k) == other.child(k),
    {
        if exists|i: int| self.is_first_edge(i, k) {
            let i = choose|i: int| self.is_first_edge(i, k);
            assert forall|m: int| 0 <= m < i implies other.edges()[m].0 != k by {
                assert(self.edges()[m].0 == other.edges()[m].0);
            }
            assert(self.edges()[i].0 == other.edges()[i].0);
            assert(other.is_first_edge(i, k));
            self.lemma_first_edge(i, k);
            other.lemma_first_edge(i, k);
        } else if exists|i: int| other.is_first_edge(i, k) {
            let i = choose|i: int| other.is_first_edge(i, k);
            assert forall|m: int| 0 <= m < i implies self.edges()[m].0 != k by {
                assert(self.edges()[m].0 == other.edges()[m].0);
            }
            assert(self.edges()[i].0 == other.edges()[i].0);
            assert(self.is_first_edge(i, k));
        }
    }

    /// Appending an edge with a fresh label adds that child and changes no
    /// other.
    pub proof fn lemma_child_push(self, other: Self, e: (K, Trie<K, V>), k: K)
        requires
            other.edges() == self.edges().push(e),
            forall|i: int| 0 <= i < self.edges().len() ==> self.edges()[i].0 != e.0,
        ensures
            other.child(k) == if k == e.0 {
                Some(e.1)
            } else {
                self.child(k)
            },
    {
        let n = self.edges().len() as int;
        if k == e.0 {
            assert(other.is_first_edge(n, k));
            other.lemma_first_edge(n, k);
        } else if exists|i: int| self.is_first_edge(i, k) {
            let i = choose|i: int| self.is_first_edge(i, k);
            assert(other.is_first_edge(i, k));
            self.lemma_first_edge(i, k);
            other.lemma_first_edge(i, k);
        } else if exists|i: int| other.is_first_edge(i, k) {
            let i = choose|i: int| other.is_first_edge(i, k);
            assert(i != n);
            assert(forall|m: int| 0 <= m <= i ==> other.edges()[m] == self.edges()[m]);
            assert(self.is_first_edge(i, k));
        }
    }

    /// The edges of this node carry distinct labels.
    pub open spec fn distinct_labels(self) -> bool {
        forall|i: int, j: int|
            0 <= i < j < self.edges().len() ==> self.edges()[i].0 != self.edges()[j].0
    }

    /// Where labels are distinct, the edge labelled `k` is the one followed.
    pub proof fn lemma_child_distinct(self, i: int, k: K)
        requires
            self.distinct_labels(),
            0 <= i < self.edges().len(),
            self.edges()[i].0 == k,
        ensures
            self.child(k) == Some(self.edges()[i].1),
    {
        assert(self.is_first_edge(i, k));
        self.lemma_first_edge(i, k);
    }

    /// Dropping the edge at `j` removes that child and changes no other.
    pub proof fn lemma_child_remove(self, other: Self, j: int, k: K)
        requires
            self.distinct_labels(),
            0 <= j < self.edges().len(),
            other.edges() == self.edges().remove(j),
        ensures
            other.distinct_labels(),
            other.child(k) == if k == self.edges()[j].0 {
                None
            } else {
                self.child(k)
            },
    {
        let e = self.edges();
        let f = other.edges();
        assert forall|a: int| 0 <= a < f.len() implies #[trigger] f[a] == if a < j {
            e[a]
        } else {
            e[a + 1]
        } by {}
        assert forall|a: int, b: int| 0 <= a < b < f.len() implies f[a].0 != f[b].0 by {
            assert(f[a] == if a < j { e[a] } else { e[a + 1] });
            assert(f[b] == if b < j { e[b] } else { e[b + 1] });
        }
        if exists|i: int| 0 <= i < f.len() && f[i].0 == k {
            let i = choose|i: int| 0 <= i < f.len() && f[i].0 == k;
            other.lemma_child_distinct(i, k);
            if i < j {
                self.lemma_child_distinct(i, k);
            } else {
                self.lemma_child_distinct(i + 1, k);
            }
            assert(k != e[j].0);
        } else {
            assert(!exists|i: int| other.is_first_edge(i, k));
            if k != e[j].0 && exists|i: int| 0 <= i < e.len() && e[i].0 == k {
                let i = choose|i: int| 0 <= i < e.len() && e[i].0 == k;
                if i < j {
                    assert(f[i].0 == k);
                } else {
                    assert(i != j);
                    assert(f[i - 1].0 == k);
                }
            }
            assert(k != e[j].0 ==> !exists|i: int| self.is_first_edge(i, k));
        }
    }

    /// `items` holds every key of this trie exactly once, with its value:
    /// the pairs it lists are exactly the entries.
    pub open spec fn is_enumeration(self, items: Seq<(Seq<K>, V)>) -> bool {
        &&& forall|i: int, j: int| 0 <= i < j < items.len() ==> items[i].0 != items[j].0
        &&& forall|i: int|
            0 <= i < items.len() ==> self.lookup((#[trigger] items[i]).0) == Some(items[i].1)
        &&& forall|k: Seq<K>| #[trigger]
            self.lookup(k) is Some ==> exists|i: int| 0 <= i < items.len() && items[i].0 == k
    }

    /// `items` holds every key of this trie exactly once, each written after
    /// `p`, with its value.
    pub open spec fn lists_under(self, p: Seq<K>, items: Seq<(Seq<K>, V)>) -> bool {
        &&& forall|i: int, j: int| 0 <= i < j < items.len() ==> items[i].0 != items[j].0
        &&& forall|i: int|
            0 <= i < items.len() ==> {
                &&& p.is_prefix_of((#[trigger] items[i]).0)
                &&& self.lookup(items[i].0.skip(p.len() as int)) == Some(items[i].1)
            }
        &&& forall|t: Seq<K>| #[trigger]
            self.lookup(t) is Some ==> exists|i: int| 0 <= i < items.len() && items[i].0 == p + t
    }

    /// The key `t` is the empty one, or starts with the label of one of the
    /// first `c` edges.
    pub open spec fn covered_by(self, t: Seq<K>, c: int) -> bool {
        t.len() == 0 || exists|m: int| 0 <= m < c && self.edges()[m].0 == t[0]
    }

    /// The values stored on the path of `s`, from the root down, as far as
    /// that path exists.
    pub open spec fn values_along(self, s: Seq<K>) -> Seq<V>
        decreases s.len(),
    {
        let here = match self.spec_value() {
            Some(v) => seq![v],
            None => Seq::empty(),
        };
        if s.len() == 0 {
            here
        } else {
            match self.child(s[0]) {
                Some(c) => here + c.values_along(s.drop_first()),
                None => here,
            }
        }
    }

    /// The value stored under `s` once the node at the path `p` is replaced
    /// by `n`.
    pub open spec fn lookup_grafted(self, p: Seq<K>, n: Trie<K, V>, s: Seq<K>) -> Option<V> {
        if p.is_prefix_of(s) {
            n.lookup(s.skip(p.len() as int))
        } else {
            self.lookup(s)
        }
    }

    /// Replacing the child at edge `j` by one in which the node at the rest
    /// of `ks` is replaced by `n` replaces the node at `ks` by `n`.
    pub proof fn lemma_graft_step(self, j: int, ks: Seq<K>, f: Self, n: Self, s: Seq<K>)
        requires
            ks.len() > 0,
            self.is_first_edge(j, ks[0]),
            f.spec_value() == self.spec_value(),
            f.edges() == self.edges().update(j, (ks[0], f.edges()[j].1)),
            forall|t: Seq<K>| #[trigger]
                f.edges()[j].1.lookup(t) == self.edges()[j].1.lookup_grafted(
                    ks.drop_first(),
                    n,
                    t,
                ),
        ensures
            f.lookup(s) == self.lookup_grafted(ks, n, s),
    {
        let k = ks[0];
        let c0 = self.edges()[j].1;
        let c1 = f.edges()[j].1;
        assert(f.is_first_edge(j, k));
        f.lemma_first_edge(j, k);
        self.lemma_first_edge(j, k);
        if s.len() == 0 {
            assert(!ks.is_prefix_of(s));
        } else if s[0] == k {
            let t = s.drop_first();
            lemma_same_head(ks, s);
            assert(f.lookup(s) == c1.lookup(t));
            assert(self.lookup(s) == c0.lookup(t));
            if ks.is_prefix_of(s) {
                assert(s.skip(ks.len() as int) =~= t.skip(ks.drop_first().len() as int));
            }
        } else {
            assert(ks[0] != s[0]);
            assert(!ks.is_prefix_of(s));
            f.lemma_child_same_labels(self, s[0]);
        }
    }

    /// The map from keys to values that the trie holds.
    pub open spec fn entries(self) -> Map<Seq<K>, V> {
        Map::new(|s: Seq<K>| self.lookup(s) is Some, |s: Seq<K>| self.lookup(s)->0)
    }

    /// The value under a key is what the map of entries holds for it.
    pub proof fn lemma_lookup_entries(self, k: Seq<K>)
        ensures
            self.lookup(k) == if self.entries().contains_key(k) {
                Some(self.entries()[k])
            } else {
                None
            },
    {
        if self.lookup(k) is Some {
            assert(self.entries().contains_key(k));
        } else {
            assert(!self.entries().contains_key(k));
        }
    }

    /// Edge labels of one node are distinct, every child is well formed,
    /// and no child is dead.
    pub closed spec fn wf(self) -> bool
        decreases self,
    {
        &&& forall|i: int, j: int|
            0 <= i < j < self.children@.len() ==> self.children@[i].0 != self.children@[j].0
        &&& forall|i: int|
            0 <= i < self.children@.len() ==> {
                &&& (#[trigger] self.children@[i]).1.wf()
                &&& !self.children@[i].1.is_dead()
            }
    }
}

impl<K, V> Trie<K, V> {
    /// Every node of a well-formed trie is well formed, and none but the
    /// root is dead.
    pub proof fn lemma_wf_node_at(self, s: Seq<K>)
        requires
            self.wf(),
            self.has_path(s),
        ensures
            self.node_at(s)->0.wf(),
            s.len() > 0 ==> !self.node_at(s)->0.is_dead(),
        decreases s.len(),
    {
        if s.len() > 0 {
            let i = choose|i: int| self.is_first_edge(i, s[0]);
            self.lemma_first_edge(i, s[0]);
            let c = self.children@[i].1;
            assert(c.wf() && !c.is_dead());
            assert(self.node_at(s) == c.node_at(s.drop_first()));
            if s.drop_first().len() > 0 {
                c.lemma_wf_node_at(s.drop_first());
            } else {
                assert(c.node_at(s.drop_first()) == Some(c));
            }
        }
    }

    /// A well-formed node that is not dead holds some key.
    pub proof fn lemma_live_has_entry(self) -> (t: Seq<K>)
        requires
            self.wf(),
            !self.is_dead(),
        ensures
            self.lookup(t) is Some,
        decreases self,
    {
        if self.value is Some {
            Seq::empty()
        } else {
            let e = self.children@[0];
            assert(e.1.wf() && !e.1.is_dead());
            let u = e.1.lemma_live_has_entry();
            let t = seq![e.0] + u;
            assert(self.is_first_edge(0, e.0));
            self.lemma_first_edge(0, e.0);
            assert(t[0] == e.0);
            assert(t.drop_first() =~= u);
            t
        }
    }

    /// In a well-formed trie a path exists exactly when it is empty or
    /// leads on to a stored key: pruning leaves no path that ends nowhere.
    pub proof fn lemma_paths_are_prefixes(self, s: Seq<K>)
        requires
            self.wf(),
        ensures
            self.has_path(s) == (s.len() == 0 || exists|k: Seq<K>|
                self.entries().contains_key(k) && s.is_prefix_of(k)),
    {
        if s.len() == 0 {
            return;
        }
        if self.has_path(s) {
            self.lemma_wf_node_at(s);
            let n = self.node_at(s)->0;
            let t = n.lemma_live_has_entry();
            self.lemma_node_at_concat(s, t);
            let k = s + t;
            assert(self.entries().contains_key(k));
            assert(s =~= k.subrange(0, s.len() as int));
            assert(self.entries().contains_key(k) && s.is_prefix_of(k));
        }
        if exists|k: Seq<K>| self.entries().contains_key(k) && s.is_prefix_of(k) {
            let k = choose|k: Seq<K>| self.entries().contains_key(k) && s.is_prefix_of(k);
            let t = k.skip(s.len() as int);
            assert(s + t =~= k);
            self.lemma_node_at_concat(s, t);
        }
    }
}

impl<K: Token, V> Trie<K, V> {
    /// An empty trie: no value at the root and no edges.
    pub fn new() -> (r: Self)
        ensures
            r.wf(),
            r.is_dead(),
            r.entries() == Map::<Seq<K>, V>::empty(),
            forall|s: Seq<K>| #[trigger] r.node_at(s) == if s.len() == 0 {
                Some(r)
            } else {
                None
            },
    {
        let r = Trie { value: None, children: Vec::new() };
        assert forall|s: Seq<K>| #[trigger] r.node_at(s) == if s.len() == 0 {
            Some(r)
        } else {
            None
        } by {
            if s.len() > 0 {
                assert(!exists|i: int| r.is_first_edge(i, s[0]));
            }
        }
        assert(r.entries() =~= Map::<Seq<K>, V>::empty());
        r
    }

    /// The node holds no value and has no children.
    pub fn is_empty(&self) -> (r: bool)
        ensures
            r == self.is_dead(),
    {
        self.value.is_none() && self.children.len() == 0
    }

    /// Index of the first edge labelled `k`, if there is one.
    fn find_edge(&self, k: &K) -> (r: Option<usize>)
        ensures
            match r {
                Some(i) => self.is_first_edge(i as int, *k) && self.child(*k) == Some(
                    self.edges()[i as int].1,
                ),
                None => self.child(*k) is None && forall|i: int|
                    0 <= i < self.edges().len() ==> self.edges()[i].0 != *k,
            },
    {
        let mut i: usize = 0;
        while i < self.children.len()
            invariant
                i <= self.children@.len(),
                forall|m: int| 0 <= m < i ==> self.children@[m].0 != *k,
            decreases self.children@.len() - i,
        {
            if self.children[i].0.same(k) {
                proof {
                    self.lemma_first_edge(i as int, *k);
                }
                return Some(i);
            }
            i += 1;
        }
        None
    }

    /// Stores `value` under the key `key[i..]`, creating the nodes that are
    /// missing on its path.
    fn insert_from(&mut self, key: &[K], i: usize, value: V)
        requires
            old(self).wf(),
            i <= key@.len(),
        ensures
            final(self).wf(),
            !final(self).is_dead(),
            forall|s: Seq<K>| #[trigger]
                final(self).lookup(s) == if s == key@.skip(i as int) {
                    Some(value)
                } else {
                    old(self).lookup(s)
                },
            forall|s: Seq<K>| #[trigger]
                final(self).has_path(s) == (old(self).has_path(s) || s.is_prefix_of(
                    key@.skip(i as int),
                )),
        decreases key@.len() - i,
    {
        let ghost s0 = *self;
        let ghost ks = key@.skip(i as int);
        if i == key.len() {
            self.value = Some(value);
            assert forall|s: Seq<K>| s.len() > 0 implies #[trigger] self.node_at(s) == s0.node_at(s) by {
                self.lemma_child_same_labels(s0, s[0]);
            }
            assert forall|s: Seq<K>| #[trigger]
                self.lookup(s) == if s == ks { Some(value) } else { s0.lookup(s) } by {
                if s.len() == 0 {
                    assert(s =~= ks);
                }
            }
            assert forall|s: Seq<K>| #[trigger]
                self.has_path(s) == (s0.has_path(s) || s.is_prefix_of(ks)) by {
                if s.len() > 0 {
                    assert(!s.is_prefix_of(ks));
                }
            }
            return;
        }
        let k = key[i];
        let ghost kt = key@.skip(i + 1);
        assert(ks.drop_first() =~= kt);
        assert(ks[0] == k);
        match self.find_edge(&k) {
            Some(j) => {
                let ghost c0 = self.children@[j as int].1;
                self.children[j].1.insert_from(key, i + 1, value);
                let ghost c1 = self.children@[j as int].1;
                assert(self.children@ == s0.children@.update(j as int, (k, c1)));
                assert forall|m: int| 0 <= m < self.children@.len() implies {
                    &&& (#[trigger] self.children@[m]).1.wf()
                    &&& !self.children@[m].1.is_dead()
                } by {
                    if m != j {
                        assert(self.children@[m] == s0.children@[m]);
                    }
                }
                assert(self.wf());
                assert forall|s: Seq<K>| s.len() > 0 && s[0] != k implies #[trigger] self.node_at(s)
                    == s0.node_at(s) by {
                    self.lemma_child_same_labels(s0, s[0]);
                }
                proof {
                    self.lemma_first_edge(j as int, k);
                }
                assert forall|s: Seq<K>|
                    #![trigger self.lookup(s)]
                    #![trigger self.has_path(s)]
                    {
                        &&& self.lookup(s) == if s == ks {
                            Some(value)
                        } else {
                            s0.lookup(s)
                        }
                        &&& self.has_path(s) == (s0.has_path(s) || s.is_prefix_of(ks))
                    } by {
                    if s.len() > 0 && s[0] == k {
                        let t = s.drop_first();
                        lemma_same_head(s, ks);
                        assert(self.node_at(s) == c1.node_at(t));
                        assert(s0.node_at(s) == c0.node_at(t));
                        assert(c1.lookup(t) == if t == kt {
                            Some(value)
                        } else {
                            c0.lookup(t)
                        });
                        assert(c1.has_path(t) == (c0.has_path(t) || t.is_prefix_of(kt)));
                    } else if s.len() > 0 {
                        assert(s[0] != ks[0]);
                    }
                }
            },
            None => {
                let mut c = Trie::new();
                let ghost c0 = c;
                c.insert_from(key, i + 1, value);
                let ghost c1 = c;
                self.children.push((k, c));
                assert forall|m: int| 0 <= m < self.children@.len() implies {
                    &&& (#[trigger] self.children@[m]).1.wf()
                    &&& !self.children@[m].1.is_dead()
                } by {
                    if m < s0.children@.len() {
                        assert(self.children@[m] == s0.children@[m]);
                    }
                }
                assert forall|a: int, b: int| 0 <= a < b < self.children@.len() implies self.children@[a].0
                    != self.children@[b].0 by {
                    assert(self.children@[a] == s0.children@[a]);
                    if b < s0.children@.len() {
                        assert(self.children@[b] == s0.children@[b]);
                    } else {
                        assert(s0.edges()[a].0 != k);
                    }
                }
                assert(self.wf());
                assert forall|s: Seq<K>| s.len() > 0 implies #[trigger] self.child(s[0]) == if s[0]
                    == k {
                    Some(c1)
                } else {
                    s0.child(s[0])
                } by {
                    s0.lemma_child_push(*self, (k, c1), s[0]);
                }
                assert forall|s: Seq<K>|
                    #![trigger self.lookup(s)]
                    #![trigger self.has_path(s)]
                    {
                        &&& self.lookup(s) == if s == ks {
                            Some(value)
                        } else {
                            s0.lookup(s)
                        }
                        &&& self.has_path(s) == (s0.has_path(s) || s.is_prefix_of(ks))
                    } by {
                    if s.len() > 0 && s[0] == k {
                        let t = s.drop_first();
                        lemma_same_head(s, ks);
                        assert(self.node_at(s) == c1.node_at(t));
                        assert(s0.node_at(s) is None);
                        assert(c0.node_at(t) == if t.len() == 0 {
                            Some(c0)
                        } else {
                            None
                        });
                        assert(c1.lookup(t) == if t == kt {
                            Some(value)
                        } else {
                            c0.lookup(t)
                        });
                        assert(c1.has_path(t) == (c0.has_path(t) || t.is_prefix_of(kt)));
                        if t.len() == 0 {
                            assert(t.is_prefix_of(kt));
                        }
                    } else if s.len() > 0 {
                        assert(s[0] != ks[0]);
                    }
                }
            },
        }
    }

    /// Stores `value` under `key`, replacing the value that was there. The
    /// nodes missing on the path of `key` are created.
    pub fn insert(&mut self, key: &[K], value: V)
        requires
            old(self).wf(),
        ensures
            final(self).wf(),
            final(self).entries() == old(self).entries().insert(key@, value),
            forall|s: Seq<K>| #[trigger]
                final(self).has_path(s) == (old(self).has_path(s) || s.is_prefix_of(key@)),
    {
        self.insert_from(key, 0, value);
        assert(key@.skip(0) =~= key@);
        assert(self.entries() =~= old(self).entries().insert(key@, value));
    }

    /// Removes the value stored under `key[i..]`, then drops each node on
    /// its path that was left dead, from the deepest one up.
    fn remove_from(&mut self, key: &[K], i: usize) -> (r: Option<V>)
        requires
            old(self).wf(),
            i <= key@.len(),
        ensures
            final(self).wf(),
            r == old(self).lookup(key@.skip(i as int)),
            forall|s: Seq<K>| #[trigger]
                final(self).lookup(s) == if s == key@.skip(i as int) {
                    None
                } else {
                    old(self).lookup(s)
                },
        decreases key@.len() - i,
    {
        let ghost s0 = *self;
        let ghost ks = key@.skip(i as int);
        if i == key.len() {
            let r = self.value.take();
            assert forall|s: Seq<K>| s.len() > 0 implies #[trigger] self.node_at(s) == s0.node_at(s) by {
                self.lemma_child_same_labels(s0, s[0]);
            }
            assert forall|s: Seq<K>| #[trigger]
                self.lookup(s) == if s == ks { None } else { s0.lookup(s) } by {
                if s.len() == 0 {
                    assert(s =~= ks);
                }
            }
            return r;
        }
        let k = key[i];
        let ghost kt = key@.skip(i + 1);
        assert(ks.drop_first() =~= kt);
        assert(ks[0] == k);
        match self.find_edge(&k) {
            None => {
                assert forall|s: Seq<K>| #[trigger]
                    self.lookup(s) == if s == ks { None } else { s0.lookup(s) } by {
                    if s == ks {
                        assert(s[0] == k);
                    }
                }
                None
            },
            Some(j) => {
                let ghost c0 = self.children@[j as int].1;
                let r = self.children[j].1.remove_from(key, i + 1);
                let ghost c1 = self.children@[j as int].1;
                assert(self.children@ == s0.children@.update(j as int, (k, c1)));
                proof {
                    assert(s0.distinct_labels());
                    assert(s0.edges()[j as int].0 == k);
                    assert forall|m: int| 0 <= m < self.children@.len() implies
                        (#[trigger] self.children@[m]).1.wf() by {
                        if m != j {
                            assert(self.children@[m] == s0.children@[m]);
                        }
                    }
                    assert forall|s: Seq<K>| s.len() > 0 && s[0] != k implies #[trigger] self.node_at(s)
                        == s0.node_at(s) by {
                        self.lemma_child_same_labels(s0, s[0]);
                    }
                    assert(s0.node_at(ks) == c0.node_at(kt));
                }
                if self.children[j].1.is_empty() {
                    self.children.remove(j);
                    proof {
                        let s1 = s0.children@.update(j as int, (k, c1));
                        assert(self.children@ =~= s1.remove(j as int));
                        assert(self.children@ =~= s0.children@.remove(j as int));
                        assert(s0.distinct_labels());
                        assert forall|s: Seq<K>| s.len() > 0 implies #[trigger] self.child(s[0]) == if s[0]
                            == k {
                            None
                        } else {
                            s0.child(s[0])
                        } by {
                            assert(self.children@ =~= s1.remove(j as int));
                            assert(s0.distinct_labels());
                            assert(self.children@ =~= s0.children@.remove(j as int));
                            s0.lemma_child_remove(*self, j as int, s[0]);
                        }
                        assert forall|s: Seq<K>| #[trigger] c1.node_at(s) == if s.len() == 0 {
                            Some(c1)
                        } else {
                            None
                        } by {
                            if s.len() > 0 {
                                assert(!exists|a: int| c1.is_first_edge(a, s[0]));
                            }
                        }
                        assert forall|a: int, b: int| 0 <= a < b < self.children@.len() implies
                            self.children@[a].0 != self.children@[b].0 by {
                            s0.lemma_child_remove(*self, j as int, k);
                        }
                        assert forall|m: int| 0 <= m < self.children@.len() implies {
                            &&& (#[trigger] self.children@[m]).1.wf()
                            &&& !self.children@[m].1.is_dead()
                        } by {
                            if m < j {
                                assert(self.children@[m] == s0.children@[m]);
                            } else {
                                assert(self.children@[m] == s0.children@[m + 1]);
                            }
                        }
                        assert forall|s: Seq<K>| #[trigger]
                            self.lookup(s) == if s == ks { None } else { s0.lookup(s) } by {
                            if s.len() > 0 && s[0] == k {
                                let t = s.drop_first();
                                lemma_same_head(s, ks);
                                assert(s0.node_at(s) == c0.node_at(t));
                                assert(c1.lookup(t) == if t == kt {
                                    None
                                } else {
                                    c0.lookup(t)
                                });
                            } else if s.len() > 0 {
                                assert(s[0] != ks[0]);
                            }
                        }
                    }
                } else {
                    proof {
                        assert(self.is_first_edge(j as int, k));
                        self.lemma_first_edge(j as int, k);
                        assert forall|s: Seq<K>| #[trigger]
                            self.lookup(s) == if s == ks { None } else { s0.lookup(s) } by {
                            if s.len() > 0 && s[0] == k {
                                let t = s.drop_first();
                                lemma_same_head(s, ks);
                                assert(self.node_at(s) == c1.node_at(t));
                                assert(s0.node_at(s) == c0.node_at(t));
                                assert(c1.lookup(t) == if t == kt {
                                    None
                                } else {
                                    c0.lookup(t)
                                });
                            } else if s.len() > 0 {
                                assert(s[0] != ks[0]);
                            }
                        }
                    }
                }
                r
            },
        }
    }

    /// Removes the value stored under `key` and returns it. Each node on the
    /// path of `key` that is left with neither a value nor children is
    /// dropped; the root is only ever emptied, never dropped.
    pub fn remove(&mut self, key: &[K]) -> (r: Option<V>)
        requires
            old(self).wf(),
        ensures
            final(self).wf(),
            r == old(self).lookup(key@),
            final(self).entries() == old(self).entries().remove(key@),
    {
        let r = self.remove_from(key, 0);
        assert(key@.skip(0) =~= key@);
        assert(self.entries() =~= old(self).entries().remove(key@));
        r
    }

    /// A copy of the tokens of `v`.
    fn copy_tokens(v: &Vec<K>) -> (r: Vec<K>)
        ensures
            r@ == v@,
    {
        let mut r: Vec<K> = Vec::new();
        let mut i: usize = 0;
        while i < v.len()
            invariant
                i <= v@.len(),
                r@ == v@.take(i as int),
            decreases v@.len() - i,
        {
            r.push(v[i]);
            i += 1;
            assert(r@ =~= v@.take(i as int));
        }
        assert(v@.take(i as int) =~= v@);
        r
    }

    /// Walks the trie depth first and lists each stored key, written after
    /// the tokens in `path`, with its value.
    fn walk<'a>(&'a self, path: &mut Vec<K>) -> (r: Vec<IterItem<'a, K, V>>)
        requires
            self.wf(),
        ensures
            final(path)@ == old(path)@,
            self.lists_under(old(path)@, pairs(r@)),
        decreases self,
    {
        let ghost p = path@;
        let mut out: Vec<IterItem<'a, K, V>> = Vec::new();
        match &self.value {
            Some(v) => {
                out.push(IterItem::new(Self::copy_tokens(path), v));
                proof {
                    assert(pairs(out@)[0] == (p, *v));
                    assert(p.skip(p.len() as int) =~= Seq::<K>::empty());
                    assert(p + Seq::<K>::empty() =~= p);
                    assert(p =~= p.subrange(0, p.len() as int));
                }
            },
            None => {},
        }
        proof {
            assert(self.distinct_labels());
        }
        let mut c: usize = 0;
        while c < self.children.len()
            invariant
                self.wf(),
                self.distinct_labels(),
                path@ == p,
                c <= self.children@.len(),
                forall|i: int, j: int|
                    0 <= i < j < pairs(out@).len() ==> pairs(out@)[i].0 != pairs(out@)[j].0,
                forall|i: int|
                    0 <= i < pairs(out@).len() ==> {
                        &&& p.is_prefix_of((#[trigger] pairs(out@)[i]).0)
                        &&& self.lookup(pairs(out@)[i].0.skip(p.len() as int)) == Some(
                            pairs(out@)[i].1,
                        )
                        &&& self.covered_by(pairs(out@)[i].0.skip(p.len() as int), c as int)
                    },
                forall|t: Seq<K>|
                    #[trigger] self.lookup(t) is Some && self.covered_by(t, c as int) ==> exists|
                        i: int,
                    |
                        0 <= i < pairs(out@).len() && pairs(out@)[i].0 == p + t,
            decreases self.children@.len() - c,
        {
            let l = self.children[c].0;
            let ghost child = self.children@[c as int].1;
            let ghost old_items = pairs(out@);
            path.push(l);
            let mut sub = self.children[c].1.walk(path);
            path.pop();
            proof {
                assert(path@ =~= p);
                self.lemma_child_distinct(c as int, l);
            }
            let ghost sub_items = pairs(sub@);
            let ghost out0 = out@;
            let ghost sub0 = sub@;
            out.append(&mut sub);
            proof {
                lemma_pairs_concat(out0, sub0);
                let items = pairs(out@);
                let q = p.push(l);
                assert(items =~= old_items + sub_items);
                assert forall|i: int| 0 <= i < sub_items.len() implies {
                    let t = (#[trigger] sub_items[i]).0.skip(p.len() as int);
                    &&& p.is_prefix_of(sub_items[i].0)
                    &&& t.len() > 0
                    &&& t[0] == l
                    &&& self.lookup(t) == Some(sub_items[i].1)
                } by {
                    let x = sub_items[i].0;
                    let t = x.skip(p.len() as int);
                    assert(q.is_prefix_of(x));
                    assert(x[p.len() as int] == q[p.len() as int]);
                    assert(t.drop_first() =~= x.skip(q.len() as int));
                    assert forall|m: int| 0 <= m < p.len() implies x[m] == p[m] by {
                        assert(x[m] == x.subrange(0, q.len() as int)[m]);
                    }
                    assert(p =~= x.subrange(0, p.len() as int));
                    assert(self.node_at(t) == child.node_at(t.drop_first()));
                }
                assert forall|i: int| 0 <= i < items.len() implies {
                    &&& p.is_prefix_of((#[trigger] items[i]).0)
                    &&& self.lookup(items[i].0.skip(p.len() as int)) == Some(items[i].1)
                    &&& self.covered_by(items[i].0.skip(p.len() as int), c + 1)
                } by {
                    if i < old_items.len() {
                        assert(items[i] == old_items[i]);
                    } else {
                        assert(items[i] == sub_items[i - old_items.len()]);
                        assert(self.edges()[c as int].0 == l);
                    }
                }
                assert forall|i: int, j: int| 0 <= i < j < items.len() implies items[i].0
                    != items[j].0 by {
                    if j >= old_items.len() {
                        let tj = items[j].0.skip(p.len() as int);
                        assert(items[j] == sub_items[j - old_items.len()]);
                        if i < old_items.len() {
                            assert(items[i] == old_items[i]);
                            let ti = items[i].0.skip(p.len() as int);
                            if items[i].0 == items[j].0 {
                                assert(ti == tj);
                                assert(self.covered_by(ti, c as int));
                                let m = choose|m: int| 0 <= m < c && self.edges()[m].0 == ti[0];
                                assert(self.edges()[m].0 != self.edges()[c as int].0);
                            }
                        } else {
                            assert(items[i] == sub_items[i - old_items.len()]);
                        }
                    } else {
                        assert(items[i] == old_items[i]);
                        assert(items[j] == old_items[j]);
                    }
                }
                assert forall|t: Seq<K>| #[trigger]
                    self.lookup(t) is Some && self.covered_by(t, c + 1) implies exists|i: int|
                    0 <= i < items.len() && items[i].0 == p + t by {
                    if self.covered_by(t, c as int) {
                        let i = choose|i: int| 0 <= i < old_items.len() && old_items[i].0 == p + t;
                        assert(items[i] == old_items[i]);
                    } else {
                        let m = choose|m: int| 0 <= m < c + 1 && self.edges()[m].0 == t[0];
                        assert(m == c);
                        let u = t.drop_first();
                        assert(self.node_at(t) == child.node_at(u));
                        assert(child.lookup(u) is Some);
                        let j = choose|j: int| 0 <= j < sub_items.len() && sub_items[j].0 == q + u;
                        assert(q + u =~= p + t);
                        assert(items[old_items.len() + j] == sub_items[j]);
                    }
                }
            }
            c += 1;
        }
        proof {
            let items = pairs(out@);
            assert forall|t: Seq<K>| #[trigger] self.lookup(t) is Some implies exists|i: int|
                0 <= i < items.len() && items[i].0 == p + t by {
                if t.len() > 0 {
                    let m = choose|m: int| self.is_first_edge(m, t[0]);
                    assert(self.covered_by(t, c as int));
                }
            }
        }
        out
    }

    /// Every stored key with its value, found by a depth-first walk that
    /// rebuilds each key from the root. Sibling order is unspecified.
    pub fn iter(&self) -> (r: Vec<IterItem<'_, K, V>>)
        requires
            self.wf(),
        ensures
            self.is_enumeration(pairs(r@)),
    {
        let mut path: Vec<K> = Vec::new();
        let r = self.walk(&mut path);
        proof {
            let items = pairs(r@);
            let e = Seq::<K>::empty();
            assert forall|i: int| 0 <= i < items.len() implies self.lookup((#[trigger] items[i]).0)
                == Some(items[i].1) by {
                assert(items[i].0.skip(0) =~= items[i].0);
            }
            assert forall|k: Seq<K>| #[trigger] self.lookup(k) is Some implies exists|i: int|
                0 <= i < items.len() && items[i].0 == k by {
                assert(e + k =~= k);
            }
        }
        r
    }

    /// The value of every stored key, in the order of a depth-first walk.
    pub fn values_vec(&self) -> (r: Vec<&V>)
        requires
            self.wf(),
        ensures
            exists|items: Seq<(Seq<K>, V)>|
                {
                    &&& self.is_enumeration(items)
                    &&& r@.len() == items.len()
                    &&& forall|i: int| 0 <= i < items.len() ==> *r@[i] == items[i].1
                },
    {
        let items = self.iter();
        let mut r: Vec<&V> = Vec::new();
        let mut i: usize = 0;
        while i < items.len()
            invariant
                i <= items@.len(),
                r@.len() == i,
                forall|m: int| 0 <= m < i ==> *r@[m] == pairs(items@)[m].1,
            decreases items@.len() - i,
        {
            r.push(items[i].value);
            i += 1;
        }
        assert(self.is_enumeration(pairs(items@)));
        assert(pairs(items@).len() == items@.len());
        assert(r@.len() == pairs(items@).len());
        r
    }

    /// The value of every stored key; the same as `values_vec`.
    pub fn values(&self) -> (r: Vec<&V>)
        requires
            self.wf(),
        ensures
            exists|items: Seq<(Seq<K>, V)>|
                {
                    &&& self.is_enumeration(items)
                    &&& r@.len() == items.len()
                    &&& forall|i: int| 0 <= i < items.len() ==> *r@[i] == items[i].1
                },
    {
        self.values_vec()
    }

    /// The values stored at `prefix` and at each of its prefixes, shortest
    /// first, as far as the path of `prefix` exists.
    pub fn values_prefix(&self, prefix: &[K]) -> (r: Vec<&V>)
        ensures
            r@.len() == self.values_along(prefix@).len(),
            forall|i: int| 0 <= i < r@.len() ==> *r@[i] == self.values_along(prefix@)[i],
    {
        let mut node = self;
        let mut r: Vec<&V> = Vec::new();
        let ghost mut rv: Seq<V> = Seq::empty();
        let mut i: usize = 0;
        assert(prefix@.skip(0) =~= prefix@);
        while i < prefix.len()
            invariant
                i <= prefix@.len(),
                r@.len() == rv.len(),
                forall|m: int| 0 <= m < r@.len() ==> *r@[m] == rv[m],
                rv + node.values_along(prefix@.skip(i as int)) == self.values_along(prefix@),
            decreases prefix@.len() - i,
        {
            let ghost rest = prefix@.skip(i as int);
            let ghost here = match node.spec_value() {
                Some(v) => seq![v],
                None => Seq::<V>::empty(),
            };
            assert(rest.drop_first() =~= prefix@.skip(i + 1));
            assert(rest[0] == prefix@[i as int]);
            match &node.value {
                Some(v) => {
                    r.push(v);
                },
                None => {},
            }
            proof {
                rv = rv + here;
            }
            match node.find_edge(&prefix[i]) {
                Some(j) => {
                    node = &node.children[j].1;
                    assert(rv + node.values_along(prefix@.skip(i + 1)) =~= self.values_along(prefix@));
                },
                None => {
                    assert(rv =~= self.values_along(prefix@));
                    return r;
                },
            }
            i += 1;
        }
        assert(rv + node.values_along(prefix@.skip(i as int)) == self.values_along(prefix@));
        match &node.value {
            Some(v) => {
                r.push(v);
            },
            None => {},
        }
        r
    }

    /// The value stored at this node.
    pub fn value(&self) -> (r: Option<&V>)
        ensures
            match r {
                Some(v) => self.spec_value() == Some(*v),
                None => self.spec_value() is None,
            },
    {
        match &self.value {
            Some(v) => Some(v),
            None => None,
        }
    }

    /// The node at the path `key[i..]`, which exists, borrowed mutably.
    fn descend_mut(&mut self, key: &[K], i: usize) -> (r: &mut Trie<K, V>)
        requires
            i <= key@.len(),
            old(self).has_path(key@.skip(i as int)),
        ensures
            old(self).node_at(key@.skip(i as int)) == Some(*r),
            forall|s: Seq<K>| #[trigger]
                final(self).lookup(s) == old(self).lookup_grafted(key@.skip(i as int), *final(r), s),
        decreases key@.len() - i,
    {
        let ghost s0 = *self;
        let ghost ks = key@.skip(i as int);
        if i == key.len() {
            assert forall|s: Seq<K>| s.skip(0) == s by {
                assert(s.skip(0) =~= s);
            }
            return self;
        }
        let k = key[i];
        let ghost kt = key@.skip(i + 1);
        assert(ks.drop_first() =~= kt);
        assert(ks[0] == k);
        let j = self.find_edge(&k).unwrap();
        let ghost c0 = self.children@[j as int].1;
        proof {
            assert forall|f: Trie<K, V>, n: Trie<K, V>, s: Seq<K>|
                #![trigger f.lookup(s), s0.lookup_grafted(ks, n, s)]
                f.value == s0.value && f.children@ == s0.children@.update(
                    j as int,
                    (k, f.children@[j as int].1),
                ) && (forall|t: Seq<K>| #[trigger]
                    f.children@[j as int].1.lookup(t) == c0.lookup_grafted(kt, n, t))
                    implies f.lookup(s) == s0.lookup_grafted(ks, n, s) by {
                s0.lemma_graft_step(j as int, ks, f, n, s);
            }
        }
        self.children[j].1.descend_mut(key, i + 1)
    }

    /// The node at the end of the path `prefix`, borrowed mutably, if that
    /// path exists. Whatever is done to that node is done to the trie at
    /// that path.
    pub fn get_mut(&mut self, prefix: &[K]) -> (r: Option<&mut Trie<K, V>>)
        ensures
            r is Some ==> old(self).node_at(prefix@) == Some(*r.unwrap()),
            r is Some ==> forall|s: Seq<K>| #[trigger]
                final(self).lookup(s) == old(self).lookup_grafted(prefix@, *final(r.unwrap()), s),
            r is None ==> old(self).node_at(prefix@) is None,
            r is None ==> *final(self) == *old(self),
    {
        assert(prefix@.skip(0) =~= prefix@);
        if self.contains_prefix(prefix) {
            Some(self.descend_mut(prefix, 0))
        } else {
            None
        }
    }

    /// The node at the end of the path `prefix`, if that path exists.
    pub fn get_ref(&self, prefix: &[K]) -> (r: Option<&Trie<K, V>>)
        ensures
            match r {
                Some(n) => self.node_at(prefix@) == Some(*n),
                None => self.node_at(prefix@) is None,
            },
    {
        let mut node = self;
        let mut i: usize = 0;
        while i < prefix.len()
            invariant
                i <= prefix@.len(),
                self.node_at(prefix@.take(i as int)) == Some(*node),
            decreases prefix@.len() - i,
        {
            proof {
                self.lemma_node_at_push(prefix@.take(i as int), prefix@[i as int]);
                assert(prefix@.take(i as int).push(prefix@[i as int]) =~= prefix@.take(i + 1));
            }
            match node.find_edge(&prefix[i]) {
                Some(j) => {
                    node = &node.children[j].1;
                },
                None => {
                    proof {
                        self.lemma_node_at_concat(prefix@.take(i + 1), prefix@.skip(i + 1));
                        assert(prefix@.take(i + 1) + prefix@.skip(i + 1) =~= prefix@);
                    }
                    return None;
                },
            }
            i += 1;
        }
        assert(prefix@.take(i as int) =~= prefix@);
        Some(node)
    }

    /// Every token of `prefix` can be followed from the root: the path exists,
    /// whether or not a value is stored along it.
    pub fn contains_prefix(&self, prefix: &[K]) -> (r: bool)
        ensures
            r == self.has_path(prefix@),
            self.wf() ==> (r == (prefix@.len() == 0 || exists|k: Seq<K>|
                self.entries().contains_key(k) && prefix@.is_prefix_of(k))),
    {
        proof {
            if self.wf() {
                self.lemma_paths_are_prefixes(prefix@);
            }
        }
        self.get_ref(prefix).is_some()
    }
}

impl<K: Token, V> Default for Trie<K, V> {
    /// An empty trie.
    fn default() -> (r: Self)
        ensures
            r.wf(),
            r.is_dead(),
            r.entries() == Map::<Seq<K>, V>::empty(),
    {
        Self::new()
    }
}

/// Two sequences with the same first element are equal, or one a prefix of
/// the other, exactly when their tails are.
pub proof fn lemma_same_head<T>(s: Seq<T>, u: Seq<T>)
    requires
        s.len() > 0,
        u.len() > 0,
        s[0] == u[0],
    ensures
        (s == u) == (s.drop_first() == u.drop_first()),
        s.is_prefix_of(u) == s.drop_first().is_prefix_of(u.drop_first()),
{
    let t = s.drop_first();
    let w = u.drop_first();
    assert(t.len() == s.len() - 1 && w.len() == u.len() - 1);
    assert(forall|m: int| 0 <= m < t.len() ==> #[trigger] t[m] == s[m + 1]);
    assert(forall|m: int| 0 <= m < w.len() ==> #[trigger] w[m] == u[m + 1]);
    if t == w {
        assert(s.len() == u.len());
        assert forall|m: int| 0 <= m < s.len() implies s[m] == u[m] by {
            if m > 0 {
                assert(s[m] == t[m - 1]);
                assert(u[m] == w[m - 1]);
            }
        }
        assert(s =~= u);
    }
    if t.is_prefix_of(w) {
        assert forall|m: int| 0 <= m < s.len() implies s[m] == u[m] by {
            if m > 0 {
                assert(s[m] == t[m - 1]);
                assert(t[m - 1] == w.subrange(0, t.len() as int)[m - 1]);
                assert(u[m] == w[m - 1]);
            }
        }
        assert(s =~= u.subrange(0, s.len() as int));
    }
    if s.is_prefix_of(u) {
        assert forall|m: int| 0 <= m < t.len() implies t[m] == w[m] by {
            assert(t[m] == s[m + 1]);
            assert(s[m + 1] == u.subrange(0, s.len() as int)[m + 1]);
            assert(u[m + 1] == w[m]);
        }
        assert(t =~= w.subrange(0, t.len() as int));
    }
}

} // verus!
