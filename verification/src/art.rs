//! The tree handle.

use vstd::prelude::*;
use crate::laws::ascending;
use crate::laws::covers;
use crate::laws::held;
use crate::laws::lemma_entries;
use crate::laws::lemma_inserted_map;
use crate::laws::lemma_removed_map;
use crate::laws::same_layout;
use crate::node::pairs;
use crate::node::Node;
use crate::tree::Tree;

verus! {

/// An adaptive radix tree from byte strings to `u64` values.
///
/// Mathematically it is the finite map `self@`; the shape
/// of the tree behind it is `self.shape()`.
pub struct Art {
    root: Node,
}

impl View for Art {
    type V = Map<Seq<u8>, u64>;

    closed spec fn view(&self) -> Map<Seq<u8>, u64> {
        self.root.shape().as_map()
    }
}

impl Art {
    /// Every handle holds a valid tree.
    #[verifier::type_invariant]
    spec fn valid(&self) -> bool {
        self.root.wf()
    }

    /// The tree behind the handle.
    pub closed spec fn shape(&self) -> Tree {
        self.root.shape()
    }

    /// The map of a handle is the map of its tree.
    pub proof fn lemma_view(&self)
        ensures
            self@ == self.shape().as_map(),
    {
    }

    /// An empty tree.
    pub fn new() -> (r: Art)
        ensures
            r.shape() is Empty,
            r@ == Map::<Seq<u8>, u64>::empty(),
    {
        Art { root: Node::new() }
    }

    /// Sets `input` to `value`, and returns the value that `input` had
    /// before, if any.
    pub fn insert(&mut self, input: &[u8], value: u64) -> (r: Option<u64>)
        ensures
            final(self)@ == old(self)@.insert(input@, value),
            r == (if old(self)@.contains_key(input@) {
                Some(old(self)@[input@])
            } else {
                None
            }),
            old(self).shape().wf_root(),
            final(self).shape() == old(self).shape().inserted(input@, value),
            final(self).shape().wf(),
            r is Some ==> same_layout(final(self).shape(), old(self).shape()),
            r is Some ==> final(self).shape().count() == old(self).shape().count(),
    {
        proof {
            use_type_invariant(&*self);
            lemma_inserted_map(self.root.shape(), input@, value);
        }
        let mut this = Node::new();
        std::mem::swap(&mut this, &mut self.root);
        let (root, old_value) = this.insert(input, value);
        self.root = root;
        old_value
    }

    /// The value stored under `key`, if any.
    pub fn get(&self, key: &[u8]) -> (r: Option<u64>)
        ensures
            r == (if self@.contains_key(key@) {
                Some(self@[key@])
            } else {
                None
            }),
            r == self.shape().lookup(key@),
    {
        proof {
            use_type_invariant(self);
        }
        self.root.get(key)
    }

    /// Deletes `key`, and returns the value that it had, if any.
    pub fn delete(&mut self, key: &[u8]) -> (r: Option<u64>)
        ensures
            final(self)@ == old(self)@.remove(key@),
            r == (if old(self)@.contains_key(key@) {
                Some(old(self)@[key@])
            } else {
                None
            }),
            old(self).shape().wf_root(),
            final(self).shape() == old(self).shape().removed(key@),
            final(self).shape().wf_root(),
    {
        proof {
            use_type_invariant(&*self);
            lemma_removed_map(self.root.shape(), key@);
        }
        let mut this = Node::new();
        std::mem::swap(&mut this, &mut self.root);
        let (left, old_value) = this.delete(key);
        match left {
            Some(root) => {
                self.root = root;
            },
            None => {},
        }
        old_value
    }

    /// The keys and values of the tree, in strictly ascending lexicographic
    /// order of the keys: each key of the map once, with its value.
    pub fn iterate(&self) -> (r: Vec<(Vec<u8>, u64)>)
        ensures
            ascending(pairs(r@)),
            forall|i: int|
                0 <= i < r@.len() ==> self@.contains_key((#[trigger] r@[i]).0@) && self@[r@[i].0@]
                    == r@[i].1,
            forall|k: Seq<u8>| #[trigger] self@.contains_key(k) ==> covers(pairs(r@), k),
            pairs(r@) == self.shape().entries(Seq::empty()),
    {
        proof {
            use_type_invariant(self);
        }
        let mut out: Vec<(Vec<u8>, u64)> = Vec::new();
        let prefix: Vec<u8> = Vec::new();
        self.root.collect(prefix.as_slice(), &mut out);
        proof {
            let t = self.root.shape();
            let e = t.entries(Seq::empty());
            lemma_entries(t, Seq::empty());
            assert forall|i: int| 0 <= i < out@.len() implies self@.contains_key(
                (#[trigger] out@[i]).0@,
            ) && self@[out@[i].0@] == out@[i].1 by {
                assert(held(t, Seq::empty(), e[i]));
            }
        }
        out
    }

    /// The root node.
    pub fn root(&self) -> (r: &Node)
        ensures
            r.wf(),
            r.shape() == self.shape(),
    {
        proof {
            use_type_invariant(self);
        }
        &self.root
    }
}

impl Default for Art {
    /// An empty tree.
    fn default() -> (r: Art)
        ensures
            r.shape() is Empty,
            r@ == Map::<Seq<u8>, u64>::empty(),
    {
        Art::new()
    }
}

} // verus!
