//! Incremental search: a cursor over a trie that consumes one label per
//! step. A failed step puts the cursor into a permanent dead state; a fresh
//! cursor must be created to search again.

use crate::louds::{
    has_child, has_key, is_term, key_val, lemma_root_node, lemma_val_idx, lemma_walk_snoc, nnodes,
    walk, TrieView,
};
use crate::map_trie::Trie;
use vstd::prelude::*;

verus! {

/// Status of a successful step: the labels fed so far always form a valid
/// prefix; they may in addition be a complete key.
#[derive(Clone, Copy, Debug, PartialEq, Eq, Structural)]
pub enum Answer {
    Prefix,
    PrefixAndMatch,
}

impl Answer {
    /// A successful step always leaves the cursor on a valid prefix.
    pub fn is_prefix(&self) -> (r: bool)
        ensures
            r == true,
    {
        true
    }

    /// Whether the labels fed so far are a complete key.
    pub fn is_match(&self) -> (r: bool)
        ensures
            r == (*self is PrefixAndMatch),
    {
        match self {
            Answer::Prefix => false,
            Answer::PrefixAndMatch => true,
        }
    }
}

/// A cursor bound to a trie; it holds the node reached by the labels fed so
/// far, or a dead marker after a failed step.
pub struct IncSearch<'a, V> {
    trie: &'a Trie<V>,
    node: u64,
    alive: bool,
    prefix: Ghost<Seq<u8>>,
}

impl<'a, V> IncSearch<'a, V> {
    /// The labels fed so far, up to the step that failed, if one did.
    pub closed spec fn matched(&self) -> Seq<u8> {
        self.prefix@
    }

    /// False once a step has failed.
    pub closed spec fn live(&self) -> bool {
        self.alive
    }

    /// The trie this cursor reads.
    pub closed spec fn trie_view(&self) -> TrieView<V> {
        (*self.trie)@
    }

    pub closed spec fn wf(&self) -> bool {
        &&& self.trie.wf()
        &&& self.alive ==> {
            &&& walk(self.trie_view(), self.prefix@) == Some(self.node as int)
            &&& 1 <= self.node as int <= nnodes(self.trie_view())
        }
    }

    /// Start a cursor at the root of `trie`.
    pub fn new(trie: &'a Trie<V>) -> (r: Self)
        requires
            trie.wf(),
        ensures
            r.wf(),
            r.live(),
            r.matched() == Seq::<u8>::empty(),
            r.trie_view() == trie@,
    {
        proof {
            lemma_root_node(trie@);
        }
        IncSearch { trie, node: 1, alive: true, prefix: Ghost(Seq::empty()) }
    }

    /// Feed one label. On success the cursor advances and reports whether
    /// the labels fed so far form a key; on failure the cursor dies for
    /// good.
    pub fn step(&mut self, label: u8) -> (r: Option<Answer>)
        requires
            old(self).wf(),
        ensures
            final(self).wf(),
            final(self).trie_view() == old(self).trie_view(),
            old(self).live() && has_child(
                old(self).trie_view(),
                walk(old(self).trie_view(), old(self).matched())->0,
                label,
            ) ==> {
                &&& final(self).live()
                &&& final(self).matched() == old(self).matched().push(label)
                &&& r == Some(
                    if has_key(final(self).trie_view(), final(self).matched()) {
                        Answer::PrefixAndMatch
                    } else {
                        Answer::Prefix
                    },
                )
            },
            !(old(self).live() && has_child(
                old(self).trie_view(),
                walk(old(self).trie_view(), old(self).matched())->0,
                label,
            )) ==> {
                &&& !final(self).live()
                &&& final(self).matched() == old(self).matched()
                &&& r is None
            },
    {
        if !self.alive {
            return None;
        }
        proof {
            lemma_walk_snoc(self.trie_view(), 1, self.prefix@, label);
        }
        match self.trie.child_with_label(self.node, label) {
            Some(m) => {
                self.node = m;
                self.prefix = Ghost(self.prefix@.push(label));
                if self.trie.terminal(self.node) {
                    Some(Answer::PrefixAndMatch)
                } else {
                    Some(Answer::Prefix)
                }
            },
            None => {
                self.alive = false;
                None
            },
        }
    }

    /// Whether the labels fed so far form a key of the trie.
    pub fn is_match(&self) -> (r: bool)
        requires
            self.wf(),
        ensures
            r == (self.live() && has_key(self.trie_view(), self.matched())),
    {
        if !self.alive {
            return false;
        }
        self.trie.terminal(self.node)
    }

    /// The value stored for the labels fed so far, if they form a key.
    pub fn value(&self) -> (r: Option<&'a V>)
        requires
            self.wf(),
        ensures
            self.live() && has_key(self.trie_view(), self.matched()) ==> (r matches Some(x) && *x
                == key_val(self.trie_view(), self.matched())),
            !(self.live() && has_key(self.trie_view(), self.matched())) ==> r is None,
    {
        if !self.alive {
            return None;
        }
        self.trie.value_of_node(self.node)
    }
}

} // verus!
