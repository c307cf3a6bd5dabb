//! Nodes: a compressed path, a children count and a body.

use vstd::prelude::*;
use crate::bytes::common_prefix;
use crate::bytes::head;
use crate::bytes::joined;
use crate::bytes::lemma_common_prefix;
use crate::bytes::same_bytes;
use crate::bytes::starts_with;
use crate::bytes::tail;
use crate::cell::Cell;
use crate::laws::law_replacement;
use crate::laws::lemma_entries_gap;
use crate::laws::lemma_inserted_wf;
use crate::laws::lemma_removed_wf;
use crate::laws::lemma_settled_wf;
use crate::laws::lemma_singleton;
use crate::laws::lemma_split_wf;
use crate::laws::same_layout;
use crate::laws::splits;
use crate::node256::Node256;
use crate::node48::Node48;
use crate::static_node::Node16;
use crate::static_node::Node4;
use crate::static_node::StaticNode;
use crate::tree::Kind;
use crate::tree::Tree;

verus! {

/// A vertex of the tree.
pub struct Node {
    nb_childrens: u64,
    path: Vec<u8>,
    inner: InnerNode,
}

/// The body of a node.
pub enum InnerNode {
    Empty,
    SingleValueLeaf(u64),
    Node4(Node4),
    Node16(Node16),
    Node48(Node48),
    Node256(Node256),
}

/// The keys and values of `entries`, as mathematical sequences.
pub open spec fn pairs(entries: Seq<(Vec<u8>, u64)>) -> Seq<(Seq<u8>, u64)> {
    Seq::new(entries.len(), |i: int| (entries[i].0@, entries[i].1))
}

impl InnerNode {
    /// The children of a dispatch body, by selector.
    pub closed spec fn kids(&self) -> Map<Cell, Tree>
        decreases self,
    {
        match self {
            InnerNode::Empty => Map::empty(),
            InnerNode::SingleValueLeaf(_) => Map::empty(),
            InnerNode::Node4(n) => n.kids(),
            InnerNode::Node16(n) => n.kids(),
            InnerNode::Node48(n) => n.kids(),
            InnerNode::Node256(n) => n.kids(),
        }
    }

    /// The size class of the body.
    pub closed spec fn kind(&self) -> Kind {
        match self {
            InnerNode::Empty => Kind::Empty,
            InnerNode::SingleValueLeaf(_) => Kind::Leaf,
            InnerNode::Node4(_) => Kind::Inner4,
            InnerNode::Node16(_) => Kind::Inner16,
            InnerNode::Node48(_) => Kind::Inner48,
            InnerNode::Node256(_) => Kind::Inner256,
        }
    }

    /// The body is laid out as its class demands, each child laid out in
    /// turn, but for the child under `hole`, which has been taken out.
    pub closed spec fn layout_with(&self, hole: Option<Cell>) -> bool
        decreases self,
    {
        match self {
            InnerNode::Empty => hole is None,
            InnerNode::SingleValueLeaf(_) => hole is None,
            InnerNode::Node4(x) => x.layout_with(hole),
            InnerNode::Node16(x) => x.layout_with(hole),
            InnerNode::Node48(x) => x.layout_with(hole),
            InnerNode::Node256(x) => x.layout_with(hole),
        }
    }

    /// The body accounts for `n` children, where it keeps account at all.
    pub closed spec fn counts(&self, n: nat) -> bool {
        match self {
            InnerNode::Empty => n == 0,
            InnerNode::SingleValueLeaf(_) => n == 1,
            InnerNode::Node4(x) => x.count() == n,
            InnerNode::Node16(x) => x.count() == n,
            InnerNode::Node48(x) => x.count() == n,
            InnerNode::Node256(_) => true,
        }
    }

    /// The body is a dispatch table.
    pub open spec fn is_dispatch(&self) -> bool {
        !(self is Empty) && !(self is SingleValueLeaf)
    }
}

impl InnerNode {
    /// The value of a leaf body, for reading and writing.
    pub fn unwrap_leaf(&mut self) -> (r: &mut u64)
        requires
            *old(self) is SingleValueLeaf,
        ensures
            *r == old(self)->SingleValueLeaf_0,
            *final(self) == InnerNode::SingleValueLeaf(*final(r)),
    {
        match self {
            InnerNode::SingleValueLeaf(value) => value,
            _ => vstd::pervasive::unreached(),
        }
    }
}

impl InnerNode {
    /// Whether a child is filed under `cell`.
    pub(crate) fn has(&self, cell: Cell) -> (r: bool)
        requires
            self.layout_with(None),
        ensures
            r == self.kids().contains_key(cell),
    {
        match self {
            InnerNode::Empty => false,
            InnerNode::SingleValueLeaf(_) => false,
            InnerNode::Node4(x) => x.has(cell),
            InnerNode::Node16(x) => x.has(cell),
            InnerNode::Node48(x) => x.has(cell),
            InnerNode::Node256(x) => x.has(cell),
        }
    }

    /// The child filed under `cell`, if there is one.
    pub(crate) fn child(&self, cell: Cell) -> (r: Option<&Node>)
        requires
            self.layout_with(None),
        ensures
            r is Some == self.kids().contains_key(cell),
            r matches Some(c) ==> c.layout(),
            r matches Some(c) ==> c.shape() == self.kids()[cell],
            r matches Some(c) ==> decreases_to!(self => c),
    {
        match self {
            InnerNode::Empty => None,
            InnerNode::SingleValueLeaf(_) => None,
            InnerNode::Node4(x) => x.child(cell),
            InnerNode::Node16(x) => x.child(cell),
            InnerNode::Node48(x) => x.child(cell),
            InnerNode::Node256(x) => x.child(cell),
        }
    }

    /// Takes out the child filed under the byte selector `cell`, and leaves
    /// its slot as a hole.
    pub(crate) fn take_child(&mut self, cell: Cell) -> (r: Box<Node>)
        requires
            old(self).layout_with(None),
            cell is Byte,
            old(self).kids().contains_key(cell),
        ensures
            final(self).layout_with(Some(cell)),
            final(self).kids() == old(self).kids().remove(cell),
            final(self).kind() == old(self).kind(),
            forall|n: nat| old(self).counts(n) ==> final(self).counts(n),
            r.layout(),
            r.shape() == old(self).kids()[cell],
            decreases_to!(*old(self) => *r),
    {
        match self {
            InnerNode::Node4(x) => x.take_child(cell),
            InnerNode::Node16(x) => x.take_child(cell),
            InnerNode::Node48(x) => x.take_child(cell),
            InnerNode::Node256(x) => x.take_child(cell),
            _ => vstd::pervasive::unreached(),
        }
    }

    /// Puts `node` into the hole under `cell`.
    pub(crate) fn put_child(&mut self, cell: Cell, node: Box<Node>)
        requires
            old(self).layout_with(Some(cell)),
            node.layout(),
        ensures
            final(self).layout_with(None),
            final(self).kids() == old(self).kids().insert(cell, node.shape()),
            final(self).kind() == old(self).kind(),
            forall|n: nat| old(self).counts(n) ==> final(self).counts(n),
    {
        match self {
            InnerNode::Node4(x) => x.put_child(cell, node),
            InnerNode::Node16(x) => x.put_child(cell, node),
            InnerNode::Node48(x) => x.put_child(cell, node),
            InnerNode::Node256(x) => x.put_child(cell, node),
            _ => vstd::pervasive::unreached(),
        }
    }

    /// Gives up the hole under `cell`, so that one child less is accounted
    /// for.
    pub(crate) fn close(&mut self, cell: Cell)
        requires
            old(self).layout_with(Some(cell)),
        ensures
            final(self).layout_with(None),
            final(self).kids() == old(self).kids(),
            final(self).kind() == old(self).kind(),
            forall|n: nat| n >= 1 && old(self).counts(n) ==> final(self).counts((n - 1) as nat),
    {
        match self {
            InnerNode::Node4(x) => x.close(cell),
            InnerNode::Node16(x) => x.close(cell),
            InnerNode::Node48(x) => x.close(cell),
            InnerNode::Node256(x) => x.close(cell),
            _ => vstd::pervasive::unreached(),
        }
    }
}

impl InnerNode {
    /// Replaces the value of the leaf under `End`, and returns the one it
    /// held.
    pub(crate) fn replace_end_value(&mut self, value: u64) -> (r: u64)
        requires
            old(self).layout_with(None),
            old(self).kids().contains_key(Cell::End),
            old(self).kids()[Cell::End] is Leaf,
        ensures
            final(self).layout_with(None),
            final(self).kids() == old(self).kids().insert(
                Cell::End,
                Tree::Leaf { path: old(self).kids()[Cell::End].path(), value },
            ),
            final(self).kind() == old(self).kind(),
            forall|n: nat| old(self).counts(n) ==> final(self).counts(n),
            Some(r) == old(self).kids()[Cell::End].lookup(old(self).kids()[Cell::End].path()),
    {
        match self {
            InnerNode::Node4(x) => x.replace_end_value(value),
            InnerNode::Node16(x) => x.replace_end_value(value),
            InnerNode::Node48(x) => x.replace_end_value(value),
            InnerNode::Node256(x) => x.replace_end_value(value),
            _ => vstd::pervasive::unreached(),
        }
    }

    /// Takes out the child under `End`, so that one child less is accounted
    /// for.
    pub(crate) fn remove_end(&mut self) -> (r: Box<Node>)
        requires
            old(self).layout_with(None),
            old(self).kids().contains_key(Cell::End),
        ensures
            final(self).layout_with(None),
            final(self).kids() == old(self).kids().remove(Cell::End),
            final(self).kind() == old(self).kind(),
            forall|n: nat| n >= 1 && old(self).counts(n) ==> final(self).counts((n - 1) as nat),
            r.layout(),
            r.shape() == old(self).kids()[Cell::End],
    {
        match self {
            InnerNode::Node4(x) => x.remove_end(),
            InnerNode::Node16(x) => x.remove_end(),
            InnerNode::Node48(x) => x.remove_end(),
            InnerNode::Node256(x) => x.remove_end(),
            _ => vstd::pervasive::unreached(),
        }
    }

    /// The body with a fresh leaf for `path` and `value` filed under `cell`:
    /// in place where the class has room for one more than its `n`
    /// children, else in the next class.
    pub(crate) fn add_leaf(self, n: u64, path: &[u8], cell: Cell, value: u64) -> (r: InnerNode)
        requires
            self.is_dispatch(),
            self.layout_with(None),
            self.counts(n as nat),
            n >= 1,
            self.kind() == Kind::holding(n as nat),
            cell != Cell::Vacant,
            !self.kids().contains_key(cell),
        ensures
            r.is_dispatch(),
            r.layout_with(None),
            r.counts((n + 1) as nat),
            r.kind() == Kind::holding((n + 1) as nat),
            r.kids() == self.kids().insert(cell, Tree::Leaf { path: path@, value }),
    {
        match self {
            InnerNode::Node4(mut x) => {
                let start = x.insertion_point(cell);
                if n == 4 {
                    InnerNode::Node16(x.promote(start, path, cell, value))
                } else {
                    x.insert(start, path, cell, value);
                    InnerNode::Node4(x)
                }
            },
            InnerNode::Node16(mut x) => {
                let start = x.insertion_point(cell);
                if n == 16 {
                    InnerNode::Node48(x.promote(start, path, cell, value))
                } else {
                    x.insert(start, path, cell, value);
                    InnerNode::Node16(x)
                }
            },
            InnerNode::Node48(mut x) => {
                if n == 48 {
                    InnerNode::Node256(x.promote(path, cell, value))
                } else {
                    x.insert(path, cell, value);
                    InnerNode::Node48(x)
                }
            },
            InnerNode::Node256(mut x) => {
                x.insert(path, cell, value);
                InnerNode::Node256(x)
            },
            _ => vstd::pervasive::unreached(),
        }
    }

    /// The body in the smallest class that holds its `n` children, after one
    /// has left.
    pub(crate) fn shrink(self, n: u64) -> (r: InnerNode)
        requires
            self.is_dispatch(),
            self.layout_with(None),
            self.counts(n as nat),
            n >= 1,
            self.kind() == Kind::holding((n + 1) as nat),
            self.kids().dom().finite(),
            self.kids().dom().len() == n,
        ensures
            r.is_dispatch(),
            r.layout_with(None),
            r.counts(n as nat),
            r.kind() == Kind::holding(n as nat),
            r.kids() == self.kids(),
    {
        match self {
            InnerNode::Node16(x) => {
                if n == 4 {
                    InnerNode::Node4(x.demote())
                } else {
                    InnerNode::Node16(x)
                }
            },
            InnerNode::Node48(x) => {
                if n == 16 {
                    InnerNode::Node16(x.demote())
                } else {
                    InnerNode::Node48(x)
                }
            },
            InnerNode::Node256(x) => {
                if n == 48 {
                    InnerNode::Node48(x.demote())
                } else {
                    InnerNode::Node256(x)
                }
            },
            other => other,
        }
    }

    /// The single child of a body that holds just one, and its selector.
    pub(crate) fn into_sole(self) -> (r: (Cell, Box<Node>))
        requires
            self.is_dispatch(),
            self.layout_with(None),
            self.counts(1),
            self.kind() == Kind::Inner4,
        ensures
            self.kids().contains_key(r.0),
            r.1.layout(),
            r.1.shape() == self.kids()[r.0],
    {
        match self {
            InnerNode::Node4(x) => x.into_first(),
            _ => vstd::pervasive::unreached(),
        }
    }
}

impl Node {
    /// The tree that this node stands for.
    pub closed spec fn shape(&self) -> Tree
        decreases self,
    {
        match self.inner {
            InnerNode::Empty => Tree::Empty,
            InnerNode::SingleValueLeaf(value) => Tree::Leaf { path: self.path@, value },
            _ => Tree::Inner { path: self.path@, kids: self.inner.kids() },
        }
    }

    /// The node and everything below it is laid out as the size classes
    /// demand: each body is in the smallest class that holds its children,
    /// and each children count is the number of children.
    pub closed spec fn layout(&self) -> bool
        decreases self,
    {
        &&& self.inner.layout_with(None)
        &&& self.inner.counts(self.nb_childrens as nat)
        &&& self.nb_childrens == self.shape().count()
        &&& self.inner is Empty ==> self.path@.len() == 0
        &&& self.inner.is_dispatch() ==> self.nb_childrens >= 1 && self.inner.kind()
            == Kind::holding(self.nb_childrens as nat)
    }

    /// Validity: the layout is sound and the tree it stands for is valid.
    pub open spec fn wf(&self) -> bool {
        self.layout() && self.shape().wf_root()
    }

    /// Replaces the value of a leaf, and returns the one it held.
    pub fn set_value(&mut self, value: u64) -> (r: u64)
        requires
            old(self).layout(),
            old(self).shape() is Leaf,
        ensures
            final(self).layout(),
            final(self).shape() == (Tree::Leaf { path: old(self).shape().path(), value }),
            Some(r) == old(self).shape().lookup(old(self).shape().path()),
    {
        let slot = self.inner.unwrap_leaf();
        let r = *slot;
        *slot = value;
        r
    }

    /// A leaf that holds `value` under `path`.
    pub fn leaf(path: &[u8], value: u64) -> (r: Node)
        ensures
            r.layout(),
            r.shape() == (Tree::Leaf { path: path@, value }),
    {
        Node {
            nb_childrens: 1,
            path: vstd::slice::slice_to_vec(path),
            inner: InnerNode::SingleValueLeaf(value),
        }
    }

    /// An empty root.
    pub fn new() -> (r: Node)
        ensures
            r.wf(),
            r.shape() is Empty,
    {
        Node { nb_childrens: 0, path: Vec::new(), inner: InnerNode::Empty }
    }

    /// A two-way dispatch node that holds this node and a fresh leaf for
    /// `input`, under the longest prefix that this node's path shares with
    /// `input`.
    pub fn split(self, input: &[u8], value: u64) -> (r: Node)
        requires
            self.wf(),
            splits(self.shape(), input@),
        ensures
            r.wf(),
            r.shape() == self.shape().split(input@, value),
    {
        let ghost t = self.shape();
        proof {
            lemma_common_prefix(self.path@, input@);
            lemma_split_wf(t, input@, value);
        }
        let Node { nb_childrens, path, inner } = self;
        let n = common_prefix(path.as_slice(), input);
        let mine = tail(path.as_slice(), n);
        let theirs = tail(input, n);
        let mine_cell = Cell::select(mine);
        let theirs_cell = Cell::select(theirs);
        let shortened = Node { nb_childrens, path: vstd::slice::slice_to_vec(mine), inner };
        let leaf = Node::leaf(theirs, value);
        let mut table = Node4::new();
        if mine_cell.order() < theirs_cell.order() {
            table.push(mine_cell, Box::new(shortened));
            table.push(theirs_cell, Box::new(leaf));
        } else {
            assert(theirs_cell.rank() != mine_cell.rank()) by {
                if theirs_cell.rank() == mine_cell.rank() {
                    Cell::lemma_rank_injective(theirs_cell, mine_cell);
                }
            }
            table.push(theirs_cell, Box::new(leaf));
            table.push(mine_cell, Box::new(shortened));
        }
        let ghost want = Map::<Cell, Tree>::empty().insert(mine_cell, t.with_path(mine@)).insert(
            theirs_cell,
            Tree::Leaf { path: theirs@, value },
        );
        assert(table.kids() =~= want);
        Node { nb_childrens: 2, path: head(input, n), inner: InnerNode::Node4(table) }
    }

    /// Sets `input` to `value` below this node. Returns the node that takes
    /// this one's place, and the value that `input` had before, if any.
    pub fn insert(self, input: &[u8], value: u64) -> (r: (Node, Option<u64>))
        requires
            self.wf(),
        ensures
            r.0.wf(),
            r.0.shape() == self.shape().inserted(input@, value),
            r.1 == self.shape().lookup(input@),
            r.1 is Some ==> same_layout(r.0.shape(), self.shape()) && r.0.shape().count()
                == self.shape().count(),
        decreases self,
    {
        let ghost t = self.shape();
        proof {
            lemma_inserted_wf(t, input@, value);
            if t.lookup(input@) is Some {
                law_replacement(t, input@, value);
            }
        }
        let Node { nb_childrens, path, mut inner } = self;
        match inner {
            InnerNode::Empty => (Node::leaf(input, value), None),
            InnerNode::SingleValueLeaf(old) => {
                if same_bytes(input, path.as_slice()) {
                    (
                        Node { nb_childrens, path, inner: InnerNode::SingleValueLeaf(value) },
                        Some(old),
                    )
                } else {
                    let node = Node { nb_childrens, path, inner: InnerNode::SingleValueLeaf(old) };
                    (node.split(input, value), None)
                }
            },
            _ => {
                if !starts_with(input, path.as_slice()) {
                    let node = Node { nb_childrens, path, inner };
                    return (node.split(input, value), None);
                }
                let rest = tail(input, path.len());
                let cell = Cell::select(rest);
                let ghost kids = inner.kids();
                if !inner.has(cell) {
                    proof {
                        Cell::lemma_at_most_257(kids.dom());
                    }
                    let grown = inner.add_leaf(nb_childrens, rest, cell, value);
                    let r = Node { nb_childrens: nb_childrens + 1, path, inner: grown };
                    return (r, None);
                }
                match cell {
                    Cell::End => {
                        let old = inner.replace_end_value(value);
                        let r = Node { nb_childrens, path, inner };
                        (r, Some(old))
                    },
                    _ => {
                        let child = inner.take_child(cell);
                        let (grown, old) = (*child).insert(rest, value);
                        inner.put_child(cell, Box::new(grown));
                        assert(inner.kids() =~= kids.insert(cell, kids[cell].inserted(rest@, value)));
                        let r = Node { nb_childrens, path, inner };
                        (r, old)
                    },
                }
            },
        }
    }

    /// What is left of a dispatch node once a child has gone: nothing, if no
    /// child remains; the last child with `path` in front of its own, if it
    /// is the only one and is filed under a byte; else the node, in the
    /// smallest class that holds the `count` children that remain.
    fn settle(count: u64, path: Vec<u8>, inner: InnerNode) -> (r: Option<Node>)
        requires
            inner.is_dispatch(),
            inner.layout_with(None),
            inner.counts(count as nat),
            inner.kind() == Kind::holding((count + 1) as nat),
            inner.kids().dom().finite(),
            inner.kids().dom().len() == count,
            !inner.kids().contains_key(Cell::Vacant),
            forall|c: Cell| #[trigger]
                inner.kids().contains_key(c) ==> {
                    &&& inner.kids()[c].wf()
                    &&& Cell::of(inner.kids()[c].path()) == c
                    &&& (c is End ==> inner.kids()[c] is Leaf)
                },
        ensures
            match r {
                Some(n) => n.wf() && n.shape().wf() && n.shape() == Tree::settled(
                    path@,
                    inner.kids(),
                ),
                None => Tree::settled(path@, inner.kids()) is Empty,
            },
    {
        let ghost kids = inner.kids();
        proof {
            lemma_settled_wf(path@, kids);
        }
        if count == 0 {
            None
        } else if count == 1 && !inner.has(Cell::End) {
            let (cell, child) = inner.into_sole();
            proof {
                lemma_singleton(kids.dom(), cell);
            }
            let Node { nb_childrens, path: below, inner: body } = *child;
            let r = Node {
                nb_childrens,
                path: joined(path.as_slice(), below.as_slice()),
                inner: body,
            };
            Some(r)
        } else {
            let r = Node { nb_childrens: count, path, inner: inner.shrink(count) };
            Some(r)
        }
    }

    /// Deletes `key` below this node. Returns the node that takes this
    /// one's place, if anything is left of it, and the value that `key` had,
    /// if any.
    pub fn delete(self, key: &[u8]) -> (r: (Option<Node>, Option<u64>))
        requires
            self.wf(),
        ensures
            match r.0 {
                Some(n) => n.wf() && n.shape().wf() && n.shape() == self.shape().removed(key@),
                None => self.shape().removed(key@) is Empty,
            },
            r.1 == self.shape().lookup(key@),
        decreases self,
    {
        let ghost t = self.shape();
        proof {
            lemma_removed_wf(t, key@);
        }
        let Node { nb_childrens, path, mut inner } = self;
        match inner {
            InnerNode::Empty => (None, None),
            InnerNode::SingleValueLeaf(old) => {
                if same_bytes(key, path.as_slice()) {
                    (None, Some(old))
                } else {
                    (Some(Node { nb_childrens, path, inner: InnerNode::SingleValueLeaf(old) }), None)
                }
            },
            _ => {
                if !starts_with(key, path.as_slice()) {
                    return (Some(Node { nb_childrens, path, inner }), None);
                }
                let rest = tail(key, path.len());
                let cell = Cell::select(rest);
                if !inner.has(cell) {
                    return (Some(Node { nb_childrens, path, inner }), None);
                }
                let ghost kids = inner.kids();
                match cell {
                    Cell::End => {
                        assert(rest@ =~= kids[Cell::End].path());
                        let leaf = inner.remove_end();
                        let old = (*leaf).value();
                        (Node::settle(nb_childrens - 1, path, inner), old)
                    },
                    _ => {
                        let child = inner.take_child(cell);
                        let (left, old) = (*child).delete(rest);
                        match left {
                            Some(node) => {
                                inner.put_child(cell, Box::new(node));
                                assert(inner.kids() =~= kids.insert(cell, kids[cell].removed(rest@)));
                                let r = Node { nb_childrens, path, inner };
                                (Some(r), old)
                            },
                            None => {
                                inner.close(cell);
                                (Node::settle(nb_childrens - 1, path, inner), old)
                            },
                        }
                    },
                }
            },
        }
    }

    /// The rank up to which the first `i` slots of a sorted table reach:
    /// one beyond the rank of the selector in slot `i - 1`.
    pub open spec fn reach<const SIZE: usize>(table: &StaticNode<SIZE>, i: int) -> nat {
        if i <= 0 {
            0
        } else {
            (table.key(i - 1).rank() + 1) as nat
        }
    }

    /// Appends what the children in the slots of a small table give, slot
    /// by slot, which is their traversal order since the slots are sorted.
    fn collect_slots<const SIZE: usize>(
        table: &StaticNode<SIZE>,
        Ghost(t): Ghost<Tree>,
        Ghost(prefix): Ghost<Seq<u8>>,
        full: &[u8],
        out: &mut Vec<(Vec<u8>, u64)>,
    )
        requires
            table.layout_with(None),
            t.wf(),
            t is Inner,
            t->kids == table.kids(),
            full@ == prefix + t.path(),
        ensures
            pairs(final(out)@) == pairs(old(out)@) + t.entries_below(prefix, 257),
        decreases table,
    {
        let ghost start = pairs(out@);
        proof {
            table.lemma_keys();
            assert(pairs(out@) =~= start + t.entries_below(prefix, 0));
        }
        let mut i: usize = 0;
        while i < SIZE && !table.key_at(i).is_none()
            invariant
                i <= table.count() <= SIZE,
                table.layout_with(None),
                t.wf(),
                t is Inner,
                t->kids == table.kids(),
                full@ == prefix + t.path(),
                Node::reach(table, i as int) <= 257,
                pairs(out@) == start + t.entries_below(prefix, Node::reach(table, i as int)),
            decreases SIZE - i,
        {
            proof {
                table.lemma_keys();
            }
            let ghost cell = table.key(i as int);
            let ghost lo = Node::reach(table, i as int);
            let ghost rank = cell.rank() as nat;
            assert(i < table.count());
            assert(t->kids.contains_key(cell));
            proof {
                Cell::lemma_at_rank(cell);
                assert(lo <= rank) by {
                    if i > 0 {
                        assert(table.key(i - 1).rank() < table.key(i as int).rank());
                    }
                }
                assert forall|c: Cell| #[trigger] t->kids.contains_key(c) implies !(lo <= c.rank()
                    < rank) by {
                    let j = choose|j: int| 0 <= j < table.count() && #[trigger] table.key(j) == c;
                    if j < i {
                        if j < i - 1 {
                            assert(table.key(j).rank() < table.key(i - 1).rank());
                        }
                    } else if j > i {
                        assert(table.key(i as int).rank() < table.key(j).rank());
                    }
                }
                lemma_entries_gap(t, prefix, lo, rank);
            }
            match table.child_at(i) {
                Some(child) => {
                    child.collect(full, out);
                },
                None => {},
            }
            i += 1;
            assert(pairs(out@) =~= start + t.entries_below(prefix, Node::reach(table, i as int)));
        }
        proof {
            table.lemma_keys();
            let lo = Node::reach(table, i as int);
            assert(i == table.count()) by {
                if i < table.count() {
                    assert(t->kids.contains_key(table.key(i as int)));
                }
            }
            assert forall|c: Cell| #[trigger] t->kids.contains_key(c) implies !(lo <= c.rank()
                < 257) by {
                let j = choose|j: int| 0 <= j < table.count() && #[trigger] table.key(j) == c;
                if j < i - 1 {
                    assert(table.key(j).rank() < table.key(i - 1).rank());
                }
            }
            lemma_entries_gap(t, prefix, lo, 257);
        }
    }

    /// Appends the keys and values below this node to `out` in traversal
    /// order, each key with `prefix` in front.
    pub fn collect(&self, prefix: &[u8], out: &mut Vec<(Vec<u8>, u64)>)
        requires
            self.wf(),
        ensures
            pairs(final(out)@) == pairs(old(out)@) + self.shape().entries(prefix@),
        decreases self,
    {
        let ghost start = pairs(out@);
        let ghost t = self.shape();
        match &self.inner {
            InnerNode::Empty => {},
            InnerNode::SingleValueLeaf(value) => {
                out.push((joined(prefix, self.path.as_slice()), *value));
            },
            InnerNode::Node4(table) => {
                let full = joined(prefix, self.path.as_slice());
                Node::collect_slots(table, Ghost(t), Ghost(prefix@), full.as_slice(), out);
            },
            InnerNode::Node16(table) => {
                let full = joined(prefix, self.path.as_slice());
                Node::collect_slots(table, Ghost(t), Ghost(prefix@), full.as_slice(), out);
            },
            _ => {
                let full = joined(prefix, self.path.as_slice());
                let mut rank: u16 = 0;
                while rank < 257
                    invariant
                        rank <= 257,
                        self.wf(),
                        self.inner.is_dispatch(),
                        t == self.shape(),
                        full@ == prefix@ + self.path@,
                        pairs(out@) == start + t.entries_below(prefix@, rank as nat),
                    decreases 257 - rank,
                {
                    let cell = Cell::from_rank(rank);
                    match self.inner.child(cell) {
                        Some(child) => {
                            child.collect(full.as_slice(), out);
                        },
                        None => {},
                    }
                    rank += 1;
                }
            },
        }
    }

    /// The value stored under `key` below this node, if any.
    pub fn get(&self, key: &[u8]) -> (r: Option<u64>)
        requires
            self.wf(),
        ensures
            r == self.shape().lookup(key@),
        decreases self,
    {
        match &self.inner {
            InnerNode::Empty => None,
            InnerNode::SingleValueLeaf(value) => {
                if same_bytes(key, self.path.as_slice()) {
                    Some(*value)
                } else {
                    None
                }
            },
            _ => {
                if !starts_with(key, self.path.as_slice()) {
                    return None;
                }
                let rest = tail(key, self.path.len());
                match self.inner.child(Cell::select(rest)) {
                    Some(child) => child.get(rest),
                    None => None,
                }
            },
        }
    }

    /// The selector in slot `i` of a node of one of the two small classes,
    /// whose slots are packed and sorted; vacant for every other node and
    /// beyond the table.
    pub closed spec fn slot(&self, i: int) -> Cell {
        match self.inner {
            InnerNode::Node4(x) => x.key(i),
            InnerNode::Node16(x) => x.key(i),
            _ => Cell::Vacant,
        }
    }

    /// In the two small classes the occupied selectors stand in the first
    /// slots, in strictly ascending order, and they are the selectors of the
    /// node's children.
    pub proof fn lemma_slots(&self)
        requires
            self.wf(),
            self.shape().kind() == Kind::Inner4 || self.shape().kind() == Kind::Inner16,
        ensures
            forall|i: int|
                0 <= i < self.shape().count() ==> self.shape()->kids.contains_key(
                    #[trigger] self.slot(i),
                ),
            forall|i: int| self.shape().count() <= i ==> #[trigger] self.slot(i) == Cell::Vacant,
            forall|i: int, j: int|
                0 <= i < j < self.shape().count() ==> (#[trigger] self.slot(i)).rank()
                    < (#[trigger] self.slot(j)).rank(),
            forall|c: Cell|
                self.shape()->kids.contains_key(c) ==> exists|i: int|
                    0 <= i < self.shape().count() && #[trigger] self.slot(i) == c,
    {
        match self.inner {
            InnerNode::Node4(x) => {
                x.lemma_keys();
                assert forall|c: Cell| self.shape()->kids.contains_key(c) implies exists|i: int|
                    0 <= i < self.shape().count() && #[trigger] self.slot(i) == c by {
                    let i = choose|i: int| 0 <= i < x.count() && #[trigger] x.key(i) == c;
                    assert(self.slot(i) == c);
                }
            },
            InnerNode::Node16(x) => {
                x.lemma_keys();
                assert forall|c: Cell| self.shape()->kids.contains_key(c) implies exists|i: int|
                    0 <= i < self.shape().count() && #[trigger] self.slot(i) == c by {
                    let i = choose|i: int| 0 <= i < x.count() && #[trigger] x.key(i) == c;
                    assert(self.slot(i) == c);
                }
            },
            _ => {},
        }
    }

    /// The children count of the node.
    pub fn children_count(&self) -> (r: u64)
        requires
            self.wf(),
        ensures
            r == self.shape().count(),
    {
        self.nb_childrens
    }

    /// The compressed path of the node.
    pub fn path(&self) -> (r: &[u8])
        requires
            self.wf(),
        ensures
            r@ == self.shape().path(),
    {
        self.path.as_slice()
    }

    /// The size class of the node.
    pub fn kind(&self) -> (r: Kind)
        requires
            self.wf(),
        ensures
            r == self.shape().kind(),
    {
        match &self.inner {
            InnerNode::Empty => Kind::Empty,
            InnerNode::SingleValueLeaf(_) => Kind::Leaf,
            InnerNode::Node4(_) => Kind::Inner4,
            InnerNode::Node16(_) => Kind::Inner16,
            InnerNode::Node48(_) => Kind::Inner48,
            InnerNode::Node256(_) => Kind::Inner256,
        }
    }

    /// The value of a leaf.
    pub fn value(&self) -> (r: Option<u64>)
        requires
            self.wf(),
        ensures
            r == (match self.shape() {
                Tree::Leaf { value, .. } => Some(value),
                _ => None,
            }),
    {
        match &self.inner {
            InnerNode::SingleValueLeaf(v) => Some(*v),
            _ => None,
        }
    }

    /// The child filed under `cell`, if there is one.
    pub fn child(&self, cell: Cell) -> (r: Option<&Node>)
        requires
            self.wf(),
        ensures
            r is Some == (self.shape() is Inner && self.shape()->kids.contains_key(cell)),
            r matches Some(c) ==> c.wf() && c.shape() == self.shape()->kids[cell],
    {
        self.inner.child(cell)
    }

    /// The selector in slot `i`.
    pub fn selector_at(&self, i: usize) -> (r: Cell)
        requires
            self.wf(),
        ensures
            r == self.slot(i as int),
    {
        match &self.inner {
            InnerNode::Node4(x) => x.key_at(i),
            InnerNode::Node16(x) => x.key_at(i),
            _ => Cell::Vacant,
        }
    }
}

impl Default for InnerNode {
    /// The body of an empty root.
    fn default() -> (r: InnerNode)
        ensures
            r is Empty,
    {
        InnerNode::Empty
    }
}

impl Default for Node {
    /// An empty root.
    fn default() -> (r: Node)
        ensures
            r.wf(),
            r.shape() is Empty,
    {
        Node::new()
    }
}

} // verus!
