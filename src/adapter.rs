use vstd::prelude::*;
use vstd::string::StrSliceExecFns;

use crate::trie::Trie;

verus! {

/// The characters of `s`, in order.
fn chars_of(s: &str) -> (r: Vec<char>)
    ensures
        r@ == s@,
{
    let n = s.unicode_len();
    let mut r: Vec<char> = Vec::new();
    let mut i: usize = 0;
    while i < n
        invariant
            n == s@.len(),
            i <= n,
            r@ == s@.take(i as int),
        decreases n - i,
    {
        r.push(s.get_char(i));
        i += 1;
        assert(r@ =~= s@.take(i as int));
    }
    assert(s@.take(n as int) =~= s@);
    r
}

/// Keys written as text: each character is one token.
impl<V> Trie<char, V> {
    /// Stores `value` under the characters of `prefix`.
    pub fn insert_str(&mut self, prefix: &str, value: V)
        requires
            old(self).wf(),
        ensures
            final(self).wf(),
            final(self).entries() == old(self).entries().insert(prefix@, value),
            forall|s: Seq<char>| #[trigger]
                final(self).has_path(s) == (old(self).has_path(s) || s.is_prefix_of(prefix@)),
    {
        let key = chars_of(prefix);
        self.insert(key.as_slice(), value)
    }

    /// The node at the path of the characters of `prefix`, if it exists.
    pub fn get_ref_str(&self, prefix: &str) -> (r: Option<&Trie<char, V>>)
        ensures
            match r {
                Some(n) => self.node_at(prefix@) == Some(*n),
                None => self.node_at(prefix@) is None,
            },
    {
        let key = chars_of(prefix);
        self.get_ref(key.as_slice())
    }

    /// The node at the path of the characters of `prefix`, borrowed mutably,
    /// if it exists.
    pub fn get_mut_str(&mut self, prefix: &str) -> (r: Option<&mut Trie<char, V>>)
        ensures
            r is Some ==> old(self).node_at(prefix@) == Some(*r.unwrap()),
            r is Some ==> forall|s: Seq<char>| #[trigger]
                final(self).lookup(s) == old(self).lookup_grafted(prefix@, *final(r.unwrap()), s),
            r is None ==> old(self).node_at(prefix@) is None,
            r is None ==> *final(self) == *old(self),
    {
        let key = chars_of(prefix);
        self.get_mut(key.as_slice())
    }

    /// Removes and returns the value stored under the characters of
    /// `prefix`, pruning the nodes left dead.
    pub fn remove_str(&mut self, prefix: &str) -> (r: Option<V>)
        requires
            old(self).wf(),
        ensures
            final(self).wf(),
            r == old(self).lookup(prefix@),
            final(self).entries() == old(self).entries().remove(prefix@),
    {
        let key = chars_of(prefix);
        self.remove(key.as_slice())
    }
}

/// Keys written as bytes: each byte is one token.
impl<V> Trie<u8, V> {
    /// Stores `value` under the bytes of `prefix`.
    pub fn insert_bytes(&mut self, prefix: &[u8], value: V)
        requires
            old(self).wf(),
        ensures
            final(self).wf(),
            final(self).entries() == old(self).entries().insert(prefix@, value),
            forall|s: Seq<u8>| #[trigger]
                final(self).has_path(s) == (old(self).has_path(s) || s.is_prefix_of(prefix@)),
    {
        self.insert(prefix, value)
    }

    /// The node at the path of the bytes of `prefix`, if it exists.
    pub fn get_ref_str(&self, prefix: &[u8]) -> (r: Option<&Trie<u8, V>>)
        ensures
            match r {
                Some(n) => self.node_at(prefix@) == Some(*n),
                None => self.node_at(prefix@) is None,
            },
    {
        self.get_ref(prefix)
    }

    /// The node at the path of the bytes of `prefix`, borrowed mutably, if
    /// it exists.
    pub fn get_mut_str(&mut self, prefix: &[u8]) -> (r: Option<&mut Trie<u8, V>>)
        ensures
            r is Some ==> old(self).node_at(prefix@) == Some(*r.unwrap()),
            r is Some ==> forall|s: Seq<u8>| #[trigger]
                final(self).lookup(s) == old(self).lookup_grafted(prefix@, *final(r.unwrap()), s),
            r is None ==> old(self).node_at(prefix@) is None,
            r is None ==> *final(self) == *old(self),
    {
        self.get_mut(prefix)
    }

    /// Removes and returns the value stored under the bytes of `prefix`,
    /// pruning the nodes left dead.
    pub fn remove_str(&mut self, prefix: &[u8]) -> (r: Option<V>)
        requires
            old(self).wf(),
        ensures
            final(self).wf(),
            r == old(self).lookup(prefix@),
            final(self).entries() == old(self).entries().remove(prefix@),
    {
        self.remove(prefix)
    }
}

} // verus!
