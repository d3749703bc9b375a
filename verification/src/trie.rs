//! A trie for byte sequences without associated values: a thin wrapper that
//! stores `()` for every key and exposes the search API over the key set.

use crate::inc_search::IncSearch;
use crate::louds::{
    all_keys, has_key, postfix_keys, predictive_keys, prefix_keys, walk, TrieView,
};
use crate::map_trie;
use vstd::prelude::*;

verus! {

/// A trie for byte sequences.
#[derive(Clone, Debug)]
pub struct Trie(pub map_trie::Trie<()>);

/// A trie builder for [`Trie`].
#[derive(Debug)]
pub struct TrieBuilder(map_trie::TrieBuilder<()>);

impl View for Trie {
    type V = TrieView<()>;

    closed spec fn view(&self) -> TrieView<()> {
        self.0@
    }
}

impl View for TrieBuilder {
    type V = Set<Seq<u8>>;

    closed spec fn view(&self) -> Set<Seq<u8>> {
        self.0@.dom()
    }
}

impl TrieBuilder {
    pub closed spec fn wf(&self) -> bool {
        self.0.wf()
    }

    /// Return a [`TrieBuilder`] holding no keys.
    pub fn new() -> (r: Self)
        ensures
            r.wf(),
            r@ == Set::<Seq<u8>>::empty(),
    {
        let r = TrieBuilder(map_trie::TrieBuilder::new());
        proof {
            assert(r@ =~= Set::<Seq<u8>>::empty());
        }
        r
    }

    /// Insert the given key; true iff it was already present.
    pub fn insert(&mut self, key: &Vec<u8>) -> (was_present: bool)
        requires
            old(self).wf(),
            key@.len() > 0,
        ensures
            final(self).wf(),
            final(self)@ == old(self)@.insert(key@),
            was_present == old(self)@.contains(key@),
    {
        let prev = self.0.insert(key, ());
        proof {
            assert(self@ =~= old(self)@.insert(key@));
        }
        prev.is_some()
    }

    /// Build a [`Trie`], consuming the builder: its keys are exactly the
    /// keys inserted.
    pub fn build(self) -> (t: Trie)
        requires
            self.wf(),
        ensures
            t.wf(),
            crate::louds::no_bare_leaf(t@),
            forall|k: Seq<u8>| #[trigger] has_key(t@, k) <==> self@.contains(k),
    {
        Trie(self.0.build())
    }
}

impl Trie {
    /// The wrapped map trie is well formed.
    pub closed spec fn wf(&self) -> bool {
        self.0.wf()
    }

    /// Return true iff `query` is a key of the trie.
    pub fn exact_match(&self, query: &Vec<u8>) -> (r: bool)
        requires
            self.wf(),
        ensures
            r == has_key(self@, query@),
    {
        self.0.exact_match(query).is_some()
    }

    /// Return true iff `query` is the empty sequence, a key, or a strict
    /// prefix of a path of the trie.
    pub fn is_prefix(&self, query: &Vec<u8>) -> (r: bool)
        requires
            self.wf(),
        ensures
            r == (walk(self@, query@) is Some),
    {
        self.0.is_prefix(query)
    }

    /// Return the keys that are prefixes of `query`, shortest first.
    pub fn common_prefix_search(&self, query: &Vec<u8>) -> (r: Vec<Vec<u8>>)
        requires
            self.wf(),
        ensures
            r@.map_values(|x: Vec<u8>| x@) == prefix_keys(self@, query@),
    {
        self.0.common_prefix_search(query)
    }

    /// Return every key that has `query` as a prefix, in lexicographic order.
    pub fn predictive_search(&self, query: &Vec<u8>) -> (r: Vec<Vec<u8>>)
        requires
            self.wf(),
        ensures
            r@.map_values(|x: Vec<u8>| x@) == predictive_keys(self@, query@),
    {
        self.0.predictive_search(query)
    }

    /// Return the suffixes past `query` of every key extending `query`, in
    /// lexicographic order; the empty suffix stands for `query` itself.
    pub fn postfix_search(&self, query: &Vec<u8>) -> (r: Vec<Vec<u8>>)
        requires
            self.wf(),
        ensures
            r@.map_values(|x: Vec<u8>| x@) == postfix_keys(self@, query@),
    {
        self.0.postfix_search(query)
    }

    /// Enumerate every key of the trie, in lexicographic order.
    pub fn iter(&self) -> (r: Vec<Vec<u8>>)
        requires
            self.wf(),
        ensures
            r@.map_values(|x: Vec<u8>| x@) == all_keys(self@),
    {
        self.0.iter()
    }

    /// Return the longest key that is a prefix of `query`, if any key is.
    pub fn longest_prefix(&self, query: &Vec<u8>) -> (r: Option<Vec<u8>>)
        requires
            self.wf(),
        ensures
            r is Some <==> prefix_keys(self@, query@).len() > 0,
            r matches Some(x) ==> x@ == prefix_keys(self@, query@).last(),
    {
        self.0.longest_prefix(query)
    }

    /// Create an incremental search bound to this trie, for feeding one
    /// label at a time.
    pub fn inc_search(&self) -> (r: IncSearch<'_, ()>)
        requires
            self.wf(),
        ensures
            r.wf(),
            r.live(),
            r.matched() == Seq::<u8>::empty(),
            r.trie_view() == self@,
    {
        self.0.inc_search()
    }
}

} // verus!
