use vstd::prelude::*;

verus! {

/// One stored entry met by an enumeration: its key, rebuilt from the root,
/// and a reference to its value.
#[derive(Debug)]
pub struct IterItem<'a, K, V> {
    pub prefix: Vec<K>,
    pub value: &'a V,
}

impl<'a, K, V> IterItem<'a, K, V> {
    pub fn new(prefix: Vec<K>, value: &'a V) -> (r: Self)
        ensures
            r.prefix@ == prefix@,
            *r.value == *value,
    {
        IterItem { prefix, value }
    }
}

/// The key and value of each item, in order.
pub open spec fn pairs<'a, K, V>(items: Seq<IterItem<'a, K, V>>) -> Seq<(Seq<K>, V)> {
    items.map_values(|it: IterItem<'a, K, V>| (it.prefix@, *it.value))
}

/// The pairs of two lists put end to end are those of the first, then those
/// of the second.
pub proof fn lemma_pairs_concat<'a, K, V>(a: Seq<IterItem<'a, K, V>>, b: Seq<IterItem<'a, K, V>>)
    ensures
        pairs(a + b) == pairs(a) + pairs(b),
{
    assert(pairs(a + b) =~= pairs(a) + pairs(b));
}

} // verus!
