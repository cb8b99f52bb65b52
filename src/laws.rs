use vstd::prelude::*;

use crate::trie::Trie;

verus! {

/// After `insert(s, v)` the key `s` holds `v` and its path exists.
pub proof fn law_insert_round_trip<K, V>(before: Trie<K, V>, after: Trie<K, V>, s: Seq<K>, v: V)
    requires
        after.entries() == before.entries().insert(s, v),
        forall|p: Seq<K>| #[trigger]
            after.has_path(p) == (before.has_path(p) || p.is_prefix_of(s)),
    ensures
        after.has_path(s),
        after.node_at(s)->0.spec_value() == Some(v),
        after.lookup(s) == Some(v),
{
    after.lemma_lookup_entries(s);
    assert(s.is_prefix_of(s));
    assert(after.has_path(s));
}

/// Inserting `s` with `v1` and then with `v2` leaves one value under `s`,
/// `v2`: every enumeration lists `s` exactly once, with `v2`.
pub proof fn law_insert_overwrites<K, V>(
    before: Trie<K, V>,
    middle: Trie<K, V>,
    after: Trie<K, V>,
    s: Seq<K>,
    v1: V,
    v2: V,
)
    requires
        middle.entries() == before.entries().insert(s, v1),
        after.entries() == middle.entries().insert(s, v2),
    ensures
        after.lookup(s) == Some(v2),
        after.entries() == before.entries().insert(s, v2),
        forall|items: Seq<(Seq<K>, V)>|
            #[trigger] after.is_enumeration(items) ==> exists|i: int|
                {
                    &&& 0 <= i < items.len()
                    &&& items[i] == (s, v2)
                    &&& forall|j: int| 0 <= j < items.len() && j != i ==> items[j].0 != s
                },
{
    after.lemma_lookup_entries(s);
    assert(after.entries() =~= before.entries().insert(s, v2));
    assert forall|items: Seq<(Seq<K>, V)>| #[trigger] after.is_enumeration(items) implies exists|
        i: int,
    |
        {
            &&& 0 <= i < items.len()
            &&& items[i] == (s, v2)
            &&& forall|j: int| 0 <= j < items.len() && j != i ==> items[j].0 != s
        } by {
        after.lemma_lookup_entries(s);
        assert(after.lookup(s) is Some);
        let i = choose|i: int| 0 <= i < items.len() && items[i].0 == s;
        assert(after.lookup(items[i].0) == Some(items[i].1));
        assert forall|j: int| 0 <= j < items.len() && j != i implies items[j].0 != s by {
            if j < i {
                assert(items[j].0 != items[i].0);
            } else {
                assert(items[i].0 != items[j].0);
            }
        }
    }
}

/// Every prefix of an existing path exists, the empty one included.
pub proof fn law_prefix_monotone<K, V>(t: Trie<K, V>, s: Seq<K>, p: Seq<K>)
    requires
        t.has_path(s),
        p.is_prefix_of(s),
    ensures
        t.has_path(p),
{
    let rest = s.skip(p.len() as int);
    assert(p + rest =~= s);
    t.lemma_node_at_concat(p, rest);
}

/// Removing a key that holds no value returns nothing and changes nothing
/// that can be observed: the same entries, paths and enumerations.
pub proof fn law_remove_absent<K, V>(
    before: Trie<K, V>,
    after: Trie<K, V>,
    s: Seq<K>,
    r: Option<V>,
)
    requires
        before.wf(),
        before.lookup(s) is None,
        after.wf(),
        r == before.lookup(s),
        after.entries() == before.entries().remove(s),
    ensures
        r is None,
        after.entries() == before.entries(),
        forall|p: Seq<K>| #[trigger] after.has_path(p) == before.has_path(p),
        forall|items: Seq<(Seq<K>, V)>| #[trigger]
            after.is_enumeration(items) == before.is_enumeration(items),
{
    assert(!before.entries().contains_key(s));
    assert(after.entries() =~= before.entries());
    assert forall|k: Seq<K>| #[trigger] after.lookup(k) == before.lookup(k) by {
        before.lemma_lookup_entries(k);
        after.lemma_lookup_entries(k);
    }
    before.lemma_lookup_entries(s);
    assert forall|items: Seq<(Seq<K>, V)>| #[trigger]
        after.is_enumeration(items) == before.is_enumeration(items) by {
        if after.is_enumeration(items) {
            assert forall|k: Seq<K>| #[trigger] before.lookup(k) is Some implies exists|i: int|
                0 <= i < items.len() && items[i].0 == k by {
                assert(after.lookup(k) is Some);
            }
        }
        if before.is_enumeration(items) {
            assert forall|k: Seq<K>| #[trigger] after.lookup(k) is Some implies exists|i: int|
                0 <= i < items.len() && items[i].0 == k by {
                assert(before.lookup(k) is Some);
            }
        }
    }
    assert forall|p: Seq<K>| #[trigger] after.has_path(p) == before.has_path(p) by {
        after.lemma_paths_are_prefixes(p);
        before.lemma_paths_are_prefixes(p);
    }
}

/// Inserting `s` with `v` and then removing `s` returns `v` and leaves no
/// value under `s`.
pub proof fn law_remove_round_trip<K, V>(
    before: Trie<K, V>,
    middle: Trie<K, V>,
    after: Trie<K, V>,
    s: Seq<K>,
    v: V,
    r: Option<V>,
)
    requires
        middle.entries() == before.entries().insert(s, v),
        r == middle.lookup(s),
        after.entries() == middle.entries().remove(s),
    ensures
        r == Some(v),
        after.lookup(s) is None,
        after.node_at(s) is None || after.node_at(s)->0.spec_value() is None,
{
    middle.lemma_lookup_entries(s);
    after.lemma_lookup_entries(s);
}

/// Once no stored key passes through the non-empty path `p`, the nodes of
/// that branch are gone: no path that starts with `p` exists, and no
/// enumeration lists a key that starts with `p`. Removal keeps a trie well
/// formed, so this holds after removing every key of the branch.
pub proof fn law_pruned_branch<K, V>(t: Trie<K, V>, p: Seq<K>)
    requires
        t.wf(),
        p.len() > 0,
        forall|k: Seq<K>| #[trigger] t.entries().contains_key(k) ==> !p.is_prefix_of(k),
    ensures
        forall|q: Seq<K>| p.is_prefix_of(q) ==> !#[trigger] t.has_path(q),
        forall|items: Seq<(Seq<K>, V)>, i: int|
            #[trigger] t.is_enumeration(items) && 0 <= i < items.len() ==> !p.is_prefix_of(
                #[trigger] items[i].0,
            ),
{
    assert forall|q: Seq<K>| p.is_prefix_of(q) implies !#[trigger] t.has_path(q) by {
        t.lemma_paths_are_prefixes(q);
        if t.has_path(q) {
            let k = choose|k: Seq<K>| t.entries().contains_key(k) && q.is_prefix_of(k);
            assert(p =~= k.subrange(0, p.len() as int));
            assert(p.is_prefix_of(k));
        }
    }
    assert forall|items: Seq<(Seq<K>, V)>, i: int|
        #[trigger] t.is_enumeration(items) && 0 <= i < items.len() implies !p.is_prefix_of(
        #[trigger] items[i].0,
    ) by {
        assert(t.lookup(items[i].0) == Some(items[i].1));
        t.lemma_lookup_entries(items[i].0);
    }
}

/// An enumeration lists, as a multiset, exactly the stored pairs: each
/// stored key once with its value, and nothing else.
pub proof fn law_enumeration_complete<K, V>(t: Trie<K, V>, items: Seq<(Seq<K>, V)>)
    requires
        t.is_enumeration(items),
    ensures
        forall|k: Seq<K>, v: V| #[trigger]
            items.to_multiset().count((k, v)) == if t.entries().contains_key(k)
                && t.entries()[k] == v {
                1nat
            } else {
                0nat
            },
{
    assert(items.no_duplicates()) by {
        assert forall|i: int, j: int| 0 <= i < items.len() && 0 <= j < items.len() && i != j implies items[i]
            != items[j] by {
            if i < j {
                assert(items[i].0 != items[j].0);
            } else {
                assert(items[j].0 != items[i].0);
            }
        }
    }
    items.lemma_multiset_has_no_duplicates();
    items.to_multiset_ensures();
    assert forall|k: Seq<K>, v: V| #[trigger]
        items.to_multiset().count((k, v)) == if t.entries().contains_key(k) && t.entries()[k]
            == v {
            1nat
        } else {
            0nat
        } by {
        t.lemma_lookup_entries(k);
        if t.entries().contains_key(k) && t.entries()[k] == v {
            assert(t.lookup(k) is Some);
            let i = choose|i: int| 0 <= i < items.len() && items[i].0 == k;
            assert(t.lookup(items[i].0) == Some(items[i].1));
            assert(items[i] == (k, v));
            assert(items.contains((k, v)));
        } else if items.contains((k, v)) {
            let i = choose|i: int| 0 <= i < items.len() && items[i] == (k, v);
            assert(t.lookup(items[i].0) == Some(items[i].1));
        }
    }
}

} // verus!
