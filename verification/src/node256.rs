//! The largest size class: one slot for each byte, addressed directly, and a
//! slot of its own for the child under `End`.

use vstd::prelude::*;
use crate::cell::Cell;
use crate::node::Node;
use crate::node48::Node48;
use crate::tree::Tree;

verus! {

/// A dispatch table for up to 257 children.
pub struct Node256 {
    values: Vec<Option<Box<Node>>>,
    /// The child under `End`.
    end: Option<Box<Node>>,
}

impl Node256 {
    /// A child is filed under `c`.
    pub closed spec fn filled(&self, c: Cell) -> bool {
        match c {
            Cell::End => self.end is Some,
            Cell::Vacant => false,
            Cell::Byte(b) => b < self.values@.len() && self.values@[b as int] is Some,
        }
    }

    /// The children, by selector.
    pub closed spec fn kids(&self) -> Map<Cell, Tree>
        decreases self,
    {
        Map::new(
            |c: Cell| self.filled(c),
            |c: Cell|
                match c {
                    Cell::End => match self.end {
                        Some(e) => e.shape(),
                        None => Tree::Empty,
                    },
                    Cell::Vacant => Tree::Empty,
                    Cell::Byte(b) => if b < self.values@.len() {
                        match self.values@[b as int] {
                            Some(x) => x.shape(),
                            None => Tree::Empty,
                        }
                    } else {
                        Tree::Empty
                    },
                },
        )
    }

    /// There is a slot for each byte, and every child is laid out in turn;
    /// the slot of `hole` is empty.
    pub closed spec fn layout_with(&self, hole: Option<Cell>) -> bool
        decreases self,
    {
        &&& self.values@.len() == 256
        &&& forall|b: int|
            0 <= b < 256 && b < self.values@.len() ==> match #[trigger] self.values@[b] {
                Some(x) => x.layout(),
                None => true,
            }
        &&& match self.end {
            Some(e) => e.layout(),
            None => true,
        }
        &&& hole matches Some(h) ==> h matches Cell::Byte(b) && self.values@[b as int] is None
    }

    /// `kids` after one slot has changed.
    proof fn lemma_update(&self, before: Node256, cell: Cell, want: Map<Cell, Tree>)
        requires
            self.layout_with(None) || self.layout_with(Some(cell)),
            before.layout_with(None) || before.layout_with(Some(cell)),
            forall|c: Cell| c != cell ==> self.filled(c) == before.filled(c),
            forall|b: u8| Cell::Byte(b) != cell ==> self.values@[b as int] == before.values@[b as int],
            cell != Cell::End ==> self.end == before.end,
            forall|c: Cell| c != cell ==> want.contains_key(c) == before.kids().contains_key(c),
            forall|c: Cell| c != cell && want.contains_key(c) ==> want[c] == before.kids()[c],
            want.contains_key(cell) == self.kids().contains_key(cell),
            want.contains_key(cell) ==> want[cell] == self.kids()[cell],
        ensures
            self.kids() == want,
    {}

    /// A table with no child.
    pub fn new() -> (r: Self)
        ensures
            r.layout_with(None),
            r.kids() == Map::<Cell, Tree>::empty(),
    {
        let mut values: Vec<Option<Box<Node>>> = Vec::new();
        let mut i: usize = 0;
        while i < 256
            invariant
                i <= 256,
                values@.len() == i,
                forall|j: int| 0 <= j < i ==> values@[j] is None,
            decreases 256 - i,
        {
            values.push(None);
            i += 1;
        }
        Node256 { values, end: None }
    }

    /// Whether a child is filed under `cell`.
    pub fn has(&self, cell: Cell) -> (r: bool)
        requires
            self.layout_with(None),
        ensures
            r == self.kids().contains_key(cell),
    {
        match cell {
            Cell::End => self.end.is_some(),
            Cell::Vacant => false,
            Cell::Byte(b) => self.values[b as usize].is_some(),
        }
    }

    /// The child filed under `cell`, if there is one.
    pub fn child(&self, cell: Cell) -> (r: Option<&Node>)
        requires
            self.layout_with(None),
        ensures
            r is Some == self.kids().contains_key(cell),
            r matches Some(c) ==> c.layout(),
            r matches Some(c) ==> c.shape() == self.kids()[cell],
            r matches Some(c) ==> decreases_to!(self => c),
    {
        match cell {
            Cell::End => match &self.end {
                Some(e) => Some(&**e),
                None => None,
            },
            Cell::Vacant => None,
            Cell::Byte(b) => match &self.values[b as usize] {
                Some(x) => Some(&**x),
                None => None,
            },
        }
    }

    /// Files `node` under `cell`.
    pub fn add(&mut self, cell: Cell, node: Box<Node>)
        requires
            old(self).layout_with(None),
            cell != Cell::Vacant,
            !old(self).kids().contains_key(cell),
            node.layout(),
        ensures
            final(self).layout_with(None),
            final(self).kids() == old(self).kids().insert(cell, node.shape()),
    {
        match cell {
            Cell::End => {
                self.end = Some(node);
            },
            Cell::Byte(b) => {
                self.values[b as usize] = Some(node);
            },
            Cell::Vacant => {},
        }
    }

    /// Files a fresh leaf for `path` and `value` under `cell`.
    pub fn insert(&mut self, path: &[u8], cell: Cell, value: u64)
        requires
            old(self).layout_with(None),
            cell != Cell::Vacant,
            !old(self).kids().contains_key(cell),
        ensures
            final(self).layout_with(None),
            final(self).kids() == old(self).kids().insert(
                cell,
                Tree::Leaf { path: path@, value },
            ),
    {
        self.add(cell, Box::new(Node::leaf(path, value)));
    }

    /// Takes out the child filed under the byte selector `cell`, and leaves
    /// its slot as a hole.
    pub fn take_child(&mut self, cell: Cell) -> (r: Box<Node>)
        requires
            old(self).layout_with(None),
            cell is Byte,
            old(self).kids().contains_key(cell),
        ensures
            final(self).layout_with(Some(cell)),
            final(self).kids() == old(self).kids().remove(cell),
            r.layout(),
            r.shape() == old(self).kids()[cell],
            decreases_to!(*old(self) => *r),
    {
        let b = cell.unwrap();
        self.values[b].take().unwrap()
    }

    /// Puts `node` into the hole under `cell`.
    pub fn put_child(&mut self, cell: Cell, node: Box<Node>)
        requires
            old(self).layout_with(Some(cell)),
            node.layout(),
        ensures
            final(self).layout_with(None),
            final(self).kids() == old(self).kids().insert(cell, node.shape()),
    {
        let b = cell.unwrap();
        self.values[b] = Some(node);
    }

    /// Gives up the hole under `cell`.
    pub fn close(&mut self, cell: Cell)
        requires
            old(self).layout_with(Some(cell)),
        ensures
            final(self).layout_with(None),
            final(self).kids() == old(self).kids(),
    {}

    /// Replaces the value of the leaf under `End`, and returns the one it
    /// held.
    pub fn replace_end_value(&mut self, value: u64) -> (r: u64)
        requires
            old(self).layout_with(None),
            old(self).kids().contains_key(Cell::End),
            old(self).kids()[Cell::End] is Leaf,
        ensures
            final(self).layout_with(None),
            final(self).kids() == old(self).kids().insert(
                Cell::End,
                Tree::Leaf { path: old(self).kids()[Cell::End].path(), value },
            ),
            Some(r) == old(self).kids()[Cell::End].lookup(old(self).kids()[Cell::End].path()),
    {
        let ghost before = *self;
        let mut leaf = self.end.take().unwrap();
        let r = (&mut *leaf).set_value(value);
        self.end = Some(leaf);
        proof {
            self.lemma_update(
                before,
                Cell::End,
                before.kids().insert(
                    Cell::End,
                    Tree::Leaf { path: before.kids()[Cell::End].path(), value },
                ),
            );
        }
        r
    }

    /// Takes out the child under `End`.
    pub fn remove_end(&mut self) -> (r: Box<Node>)
        requires
            old(self).layout_with(None),
            old(self).kids().contains_key(Cell::End),
        ensures
            final(self).layout_with(None),
            final(self).kids() == old(self).kids().remove(Cell::End),
            r.layout(),
            r.shape() == old(self).kids()[Cell::End],
    {
        self.end.take().unwrap()
    }

    /// The table in the next smaller size class.
    pub fn demote(self) -> (r: Node48)
        requires
            self.layout_with(None),
            self.kids().dom().finite(),
            self.kids().dom().len() <= 48,
        ensures
            r.layout_with(None),
            r.count() == self.kids().dom().len(),
            r.kids() == self.kids(),
    {
        let Node256 { mut values, end } = self;
        let mut r = Node48::new();
        if let Some(e) = end {
            r.add(Cell::End, e);
        }
        let mut i: usize = 0;
        while i < 256
            invariant
                i <= 256,
                self.layout_with(None),
                self.kids().dom().finite(),
                self.kids().dom().len() <= 48,
                values@.len() == 256,
                r.layout_with(None),
                r.kids().dom().finite(),
                r.count() == r.kids().dom().len(),
                forall|c: Cell| #[trigger]
                    r.kids().contains_key(c) <==> self.kids().contains_key(c) && c.rank() <= i,
                forall|c: Cell| #[trigger]
                    r.kids().contains_key(c) ==> r.kids()[c] == self.kids()[c],
                forall|b: int| i <= b < 256 ==> values@[b] == self.values@[b],
            decreases 256 - i,
        {
            let ghost cur = Cell::Byte(i as u8);
            if values[i].is_some() {
                let node = values[i].take().unwrap();
                proof {
                    let grown = r.kids().dom().insert(cur);
                    vstd::set_lib::lemma_len_subset(grown, self.kids().dom());
                }
                r.add(Cell::Byte(i as u8), node);
            }
            proof {
                assert forall|c: Cell| #[trigger]
                    r.kids().contains_key(c) <==> self.kids().contains_key(c) && c.rank() <= i
                        + 1 by {}
            }
            i += 1;
        }
        proof {
            assert(r.kids() =~= self.kids());
        }
        r
    }
}

} // verus!
