//! The mathematical model of a radix tree.
//!
//! A [`Tree`] says what a node *is*, apart from how its dispatch table is
//! laid out in memory: a compressed path, and either a value or a finite map
//! from selectors to subtrees. A child's own path starts with the byte that
//! selects it, so the key of a leaf is the concatenation of the paths on the
//! route from the root.

use vstd::prelude::*;
use crate::bytes::common_prefix_len;
use crate::cell::Cell;

verus! {

/// A radix tree, as a mathematical value.
pub ghost enum Tree {
    /// No key at all. Only a root can be empty.
    Empty,
    /// One key, `path`, and its value.
    Leaf { path: Seq<u8>, value: u64 },
    /// A dispatch node: every key below starts with `path`, and what follows
    /// `path` in the key selects the child.
    Inner { path: Seq<u8>, kids: Map<Cell, Tree> },
}

/// The size class of a node's dispatch table.
#[derive(Clone, Copy, Debug, PartialEq, Eq, Structural)]
pub enum Kind {
    Empty,
    Leaf,
    Inner4,
    Inner16,
    Inner48,
    Inner256,
}

impl Kind {
    /// The smallest class that holds `count` children.
    pub open spec fn holding(count: nat) -> Kind {
        if count <= 4 {
            Kind::Inner4
        } else if count <= 16 {
            Kind::Inner16
        } else if count <= 48 {
            Kind::Inner48
        } else {
            Kind::Inner256
        }
    }
}

impl Tree {
    /// The compressed path stored at the root of this tree.
    pub open spec fn path(self) -> Seq<u8> {
        match self {
            Tree::Empty => Seq::empty(),
            Tree::Leaf { path, .. } => path,
            Tree::Inner { path, .. } => path,
        }
    }

    /// This tree with the path at its root replaced.
    pub open spec fn with_path(self, p: Seq<u8>) -> Tree {
        match self {
            Tree::Empty => Tree::Empty,
            Tree::Leaf { value, .. } => Tree::Leaf { path: p, value },
            Tree::Inner { kids, .. } => Tree::Inner { path: p, kids },
        }
    }

    /// The children count of the root node: the number of occupied entries
    /// of a dispatch node, one for a leaf, zero for an empty root.
    pub open spec fn count(self) -> nat {
        match self {
            Tree::Empty => 0,
            Tree::Leaf { .. } => 1,
            Tree::Inner { kids, .. } => kids.dom().len(),
        }
    }

    /// The size class of the root node, which its children count decides.
    pub open spec fn kind(self) -> Kind {
        match self {
            Tree::Empty => Kind::Empty,
            Tree::Leaf { .. } => Kind::Leaf,
            Tree::Inner { kids, .. } => Kind::holding(kids.dom().len()),
        }
    }

    /// Validity of a node that hangs somewhere in a tree.
    ///
    /// A dispatch node has at least one child and finitely many; no child is
    /// filed under the vacant selector; each child is itself valid and is
    /// filed under the selector that its own path begins with; what is filed
    /// under `End` is a leaf; and a dispatch node with a single child keeps
    /// it only under `End` (any other single child is merged into its
    /// parent's place).
    pub open spec fn wf(self) -> bool
        decreases self,
    {
        match self {
            Tree::Empty => false,
            Tree::Leaf { .. } => true,
            Tree::Inner { path, kids } => {
                &&& kids.dom().finite()
                &&& kids.dom().len() >= 1
                &&& !kids.contains_key(Cell::Vacant)
                &&& (kids.dom().len() == 1 ==> kids.contains_key(Cell::End))
                &&& forall|c: Cell| #[trigger]
                    kids.contains_key(c) ==> {
                        &&& kids[c].wf()
                        &&& Cell::of(kids[c].path()) == c
                        &&& (c is End ==> kids[c] is Leaf)
                    }
            },
        }
    }

    /// Validity of a whole tree: empty, or a valid node.
    pub open spec fn wf_root(self) -> bool {
        self is Empty || self.wf()
    }

    /// The value stored under `key`, if any.
    pub open spec fn lookup(self, key: Seq<u8>) -> Option<u64>
        decreases self,
    {
        match self {
            Tree::Empty => None,
            Tree::Leaf { path, value } => if key == path {
                Some(value)
            } else {
                None
            },
            Tree::Inner { path, kids } => {
                let rest = key.skip(path.len() as int);
                if path.is_prefix_of(key) && kids.contains_key(Cell::of(rest)) {
                    kids[Cell::of(rest)].lookup(rest)
                } else {
                    None
                }
            },
        }
    }

    /// The finite map from keys to values that this tree stands for.
    pub open spec fn as_map(self) -> Map<Seq<u8>, u64> {
        Map::new(|k: Seq<u8>| self.lookup(k) is Some, |k: Seq<u8>| self.lookup(k).unwrap())
    }

    /// A fresh two-way dispatch node that holds this tree and a new leaf for
    /// `key`, under the longest prefix that this tree's path shares with
    /// `key`. Meant for a `key` that is not this tree's path and does not
    /// pass through it.
    pub open spec fn split(self, key: Seq<u8>, value: u64) -> Tree {
        let n = common_prefix_len(self.path(), key) as int;
        let mine = self.path().skip(n);
        let theirs = key.skip(n);
        Tree::Inner {
            path: key.take(n),
            kids: Map::empty().insert(Cell::of(mine), self.with_path(mine)).insert(
                Cell::of(theirs),
                Tree::Leaf { path: theirs, value },
            ),
        }
    }

    /// The tree after `key` has been set to `value`.
    pub open spec fn inserted(self, key: Seq<u8>, value: u64) -> Tree
        decreases self,
    {
        match self {
            Tree::Empty => Tree::Leaf { path: key, value },
            Tree::Leaf { path, .. } => if key == path {
                Tree::Leaf { path, value }
            } else {
                self.split(key, value)
            },
            Tree::Inner { path, kids } => {
                let rest = key.skip(path.len() as int);
                let sel = Cell::of(rest);
                if !path.is_prefix_of(key) {
                    self.split(key, value)
                } else if kids.contains_key(sel) {
                    Tree::Inner { path, kids: kids.insert(sel, kids[sel].inserted(rest, value)) }
                } else {
                    Tree::Inner { path, kids: kids.insert(sel, Tree::Leaf { path: rest, value }) }
                }
            },
        }
    }

    /// What is left of a dispatch node with path `path` once a child has
    /// gone and `kids` remain: nothing, if none remains; the last child,
    /// with `path` put in front of its own, if it is the only one and is
    /// filed under a byte; else the dispatch node.
    pub open spec fn settled(path: Seq<u8>, kids: Map<Cell, Tree>) -> Tree {
        if kids.dom().len() == 0 {
            Tree::Empty
        } else if kids.dom().len() == 1 && !kids.contains_key(Cell::End) {
            let only = kids[kids.dom().choose()];
            only.with_path(path + only.path())
        } else {
            Tree::Inner { path, kids }
        }
    }

    /// The tree after `key` has been deleted.
    pub open spec fn removed(self, key: Seq<u8>) -> Tree
        decreases self,
    {
        match self {
            Tree::Empty => Tree::Empty,
            Tree::Leaf { path, .. } => if key == path {
                Tree::Empty
            } else {
                self
            },
            Tree::Inner { path, kids } => {
                let rest = key.skip(path.len() as int);
                let sel = Cell::of(rest);
                if path.is_prefix_of(key) && kids.contains_key(sel) {
                    let child = kids[sel].removed(rest);
                    if child is Empty {
                        Tree::settled(path, kids.remove(sel))
                    } else {
                        Tree::Inner { path, kids: kids.insert(sel, child) }
                    }
                } else {
                    self
                }
            },
        }
    }

    /// `key` runs through a leaf and goes on behind it: the path of the leaf
    /// that the descent for `key` ends at is a proper prefix of what is left
    /// of `key` there.
    pub open spec fn extends_leaf(self, key: Seq<u8>) -> bool
        decreases self,
    {
        match self {
            Tree::Empty => false,
            Tree::Leaf { path, .. } => path.is_prefix_of(key) && path.len() < key.len(),
            Tree::Inner { path, kids } => {
                let rest = key.skip(path.len() as int);
                path.is_prefix_of(key) && kids.contains_key(Cell::of(rest)) && kids[Cell::of(
                    rest,
                )].extends_leaf(rest)
            },
        }
    }

    /// The keys and values of this tree in traversal order, each key with
    /// `prefix` in front: a dispatch node gives the child under `End` first
    /// and then the children under the bytes, in ascending order.
    pub open spec fn entries(self, prefix: Seq<u8>) -> Seq<(Seq<u8>, u64)>
        decreases self, 258nat,
    {
        match self {
            Tree::Empty => Seq::empty(),
            Tree::Leaf { path, value } => seq![(prefix + path, value)],
            Tree::Inner { .. } => self.entries_below(prefix, 257),
        }
    }

    /// The part of `entries` that the children of a dispatch node with a
    /// selector of rank below `hi` give.
    pub open spec fn entries_below(self, prefix: Seq<u8>, hi: nat) -> Seq<(Seq<u8>, u64)>
        decreases self, hi,
    {
        match self {
            Tree::Inner { path, kids } => if hi == 0 || hi > 257 {
                Seq::empty()
            } else {
                let cell = Cell::at(hi - 1);
                self.entries_below(prefix, (hi - 1) as nat) + (if kids.contains_key(cell) {
                    kids[cell].entries(prefix + path)
                } else {
                    Seq::empty()
                })
            },
            _ => Seq::empty(),
        }
    }
}

} // verus!
