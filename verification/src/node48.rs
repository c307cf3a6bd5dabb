//! The third size class: a byte-indexed array of slot numbers into a child
//! array of 48 slots, filled from slot 0, and a slot of its own for the
//! child under `End`.

use vstd::prelude::*;
use crate::cell::Cell;
use crate::node::Node;
use crate::node256::Node256;
use crate::static_node::Node16;
use crate::tree::Tree;

verus! {

/// A dispatch table for up to 48 children.
pub struct Node48 {
    /// For each byte, the slot of its child.
    keys: [Option<u8>; 256],
    /// For each slot in use, the byte that it serves.
    bytes: [u8; 48],
    /// The number of slots in use.
    used: usize,
    values: Vec<Option<Box<Node>>>,
    /// The child under `End`.
    end: Option<Box<Node>>,
}

impl Node48 {
    /// A child is filed under `c`.
    pub closed spec fn filled(&self, c: Cell) -> bool {
        match c {
            Cell::End => self.end is Some,
            Cell::Vacant => false,
            Cell::Byte(b) => self.keys[b as int] matches Some(s) && s < self.values@.len()
                && self.values@[s as int] is Some,
        }
    }

    /// The children, by selector.
    pub closed spec fn kids(&self) -> Map<Cell, Tree>
        decreases self,
    {
        Map::new(
            |c: Cell| self.filled(c),
            |c: Cell|
                match c {
                    Cell::End => match self.end {
                        Some(e) => e.shape(),
                        None => Tree::Empty,
                    },
                    Cell::Vacant => Tree::Empty,
                    Cell::Byte(b) => match self.keys[b as int] {
                        Some(s) => if s < self.values@.len() {
                            match self.values@[s as int] {
                                Some(x) => x.shape(),
                                None => Tree::Empty,
                            }
                        } else {
                            Tree::Empty
                        },
                        None => Tree::Empty,
                    },
                },
        )
    }

    /// The number of children, the one taken out (if any) included.
    pub closed spec fn count(&self) -> nat {
        if self.end is Some {
            (self.used + 1) as nat
        } else {
            self.used as nat
        }
    }

    /// The two index arrays are inverse to each other on the slots in use.
    pub closed spec fn indexed(&self) -> bool {
        &&& self.values@.len() == 48
        &&& self.used <= 48
        &&& forall|b: int|
            0 <= b < 256 ==> (#[trigger] self.keys[b] matches Some(s) ==> s < self.used
                && self.bytes[s as int] == b)
        &&& forall|s: int|
            0 <= s < self.used ==> self.keys[#[trigger] self.bytes[s] as int] == Some(s as u8)
    }

    /// The index arrays agree, every slot in use holds a child that is laid
    /// out in turn, but for the slot that serves `hole`, and so does the
    /// slot for `End` if it is taken.
    pub closed spec fn layout_with(&self, hole: Option<Cell>) -> bool
        decreases self,
    {
        &&& self.indexed()
        &&& forall|s: int|
            0 <= s < self.used && s < self.values@.len() ==> if hole == Some(
                Cell::Byte(self.bytes[s]),
            ) {
                self.values@[s] is None
            } else {
                match #[trigger] self.values@[s] {
                    Some(x) => x.layout(),
                    None => false,
                }
            }
        &&& forall|s: int| self.used <= s < 48 ==> self.values@[s] is None
        &&& match self.end {
            Some(e) => e.layout(),
            None => true,
        }
        &&& hole matches Some(h) ==> h matches Cell::Byte(b) && self.keys[b as int] is Some
    }

    /// A table with no child.
    pub fn new() -> (r: Self)
        ensures
            r.layout_with(None),
            r.count() == 0,
            r.kids() == Map::<Cell, Tree>::empty(),
    {
        let mut values: Vec<Option<Box<Node>>> = Vec::new();
        let mut i: usize = 0;
        while i < 48
            invariant
                i <= 48,
                values@.len() == i,
                forall|j: int| 0 <= j < i ==> values@[j] is None,
            decreases 48 - i,
        {
            values.push(None);
            i += 1;
        }
        let r = Node48 { keys: [None; 256], bytes: [0u8; 48], used: 0, values, end: None };
        r
    }

    /// Whether a child is filed under `cell`.
    pub fn has(&self, cell: Cell) -> (r: bool)
        requires
            self.layout_with(None),
        ensures
            r == self.kids().contains_key(cell),
    {
        match cell {
            Cell::End => self.end.is_some(),
            Cell::Vacant => false,
            Cell::Byte(b) => self.keys[b as usize].is_some(),
        }
    }

    /// The child filed under `cell`, if there is one.
    pub fn child(&self, cell: Cell) -> (r: Option<&Node>)
        requires
            self.layout_with(None),
        ensures
            r is Some == self.kids().contains_key(cell),
            r matches Some(c) ==> c.layout(),
            r matches Some(c) ==> c.shape() == self.kids()[cell],
            r matches Some(c) ==> decreases_to!(self => c),
    {
        match cell {
            Cell::End => match &self.end {
                Some(e) => {
                    Some(&**e)
                },
                None => None,
            },
            Cell::Vacant => None,
            Cell::Byte(b) => match self.keys[b as usize] {
                Some(s) => {
                    match &self.values[s as usize] {
                        Some(x) => Some(&**x),
                        None => None,
                    }
                },
                None => None,
            },
        }
    }

    /// Files `node` under `cell`, in the next free slot.
    pub fn add(&mut self, cell: Cell, node: Box<Node>)
        requires
            old(self).layout_with(None),
            old(self).count() < 48,
            cell != Cell::Vacant,
            !old(self).kids().contains_key(cell),
            node.layout(),
        ensures
            final(self).layout_with(None),
            final(self).count() == old(self).count() + 1,
            final(self).kids() == old(self).kids().insert(cell, node.shape()),
    {
        let ghost before = *self;
        match cell {
            Cell::End => {
                self.end = Some(node);
            },
            Cell::Byte(b) => {
                let s = self.used;
                self.keys[b as usize] = Some(s as u8);
                self.bytes[s] = b;
                self.values[s] = Some(node);
                self.used = s + 1;
            },
            Cell::Vacant => {},
        }
        proof {
            let want = before.kids().insert(cell, node.shape());
            assert forall|c: Cell| self.kids().contains_key(c) == want.contains_key(c) by {}
            assert forall|c: Cell| self.kids().contains_key(c) implies self.kids()[c]
                == want[c] by {}
        }
    }

    /// Files a fresh leaf for `path` and `value` under `cell`.
    pub fn insert(&mut self, path: &[u8], cell: Cell, value: u64)
        requires
            old(self).layout_with(None),
            old(self).count() < 48,
            cell != Cell::Vacant,
            !old(self).kids().contains_key(cell),
        ensures
            final(self).layout_with(None),
            final(self).count() == old(self).count() + 1,
            final(self).kids() == old(self).kids().insert(
                cell,
                Tree::Leaf { path: path@, value },
            ),
    {
        self.add(cell, Box::new(Node::leaf(path, value)));
    }

    /// Takes out the child filed under the byte selector `cell`, and leaves
    /// its slot as a hole.
    pub fn take_child(&mut self, cell: Cell) -> (r: Box<Node>)
        requires
            old(self).layout_with(None),
            cell is Byte,
            old(self).kids().contains_key(cell),
        ensures
            final(self).layout_with(Some(cell)),
            final(self).count() == old(self).count(),
            final(self).kids() == old(self).kids().remove(cell),
            r.layout(),
            r.shape() == old(self).kids()[cell],
            decreases_to!(*old(self) => *r),
    {
        let ghost before = *self;
        let b = cell.unwrap() as u8;
        let s = self.keys[b as usize].unwrap() as usize;
        let r = self.values[s].take().unwrap();
        proof {
            let want = before.kids().remove(cell);
            assert forall|c: Cell| self.kids().contains_key(c) == want.contains_key(c) by {
                match c {
                    Cell::Byte(x) => {
                        assert(self.kids().contains_key(Cell::Byte(x)) <==> self.keys[x as int] is Some
                            && Some(cell) != Some(Cell::Byte(x)));
                    },
                    _ => {},
                }
            }
            assert forall|c: Cell| self.kids().contains_key(c) implies self.kids()[c]
                == want[c] by {}
        }
        r
    }

    /// Puts `node` into the hole under `cell`.
    pub fn put_child(&mut self, cell: Cell, node: Box<Node>)
        requires
            old(self).layout_with(Some(cell)),
            node.layout(),
        ensures
            final(self).layout_with(None),
            final(self).count() == old(self).count(),
            final(self).kids() == old(self).kids().insert(cell, node.shape()),
    {
        let ghost before = *self;
        let b = cell.unwrap() as u8;
        let s = self.keys[b as usize].unwrap() as usize;
        self.values[s] = Some(node);
        proof {
            let want = before.kids().insert(cell, node.shape());
            assert forall|c: Cell| self.kids().contains_key(c) == want.contains_key(c) by {
                match c {
                    Cell::Byte(x) => {
                        assert(before.kids().contains_key(Cell::Byte(x)) <==> before.keys[x as int] is Some
                            && Some(cell) != Some(Cell::Byte(x)));
                    },
                    _ => {},
                }
            }
            assert forall|c: Cell| self.kids().contains_key(c) implies self.kids()[c]
                == want[c] by {}
        }
    }

    /// Gives up the hole under `cell`: the child in the last slot in use
    /// moves into it.
    pub fn close(&mut self, cell: Cell)
        requires
            old(self).layout_with(Some(cell)),
        ensures
            final(self).layout_with(None),
            final(self).count() == old(self).count() - 1,
            final(self).kids() == old(self).kids(),
    {
        let ghost before = *self;
        let b = cell.unwrap() as u8;
        let s = self.keys[b as usize].unwrap() as usize;
        let last = self.used - 1;
        let moved = self.bytes[last];
        if s != last {
            let node = self.values[last].take();
            self.values[s] = node;
            self.keys[moved as usize] = Some(s as u8);
            self.bytes[s] = moved;
        }
        self.keys[b as usize] = None;
        self.used = last;
        proof {
            let want = before.kids();
            assert forall|c: Cell| self.kids().contains_key(c) == want.contains_key(c) by {
                match c {
                    Cell::Byte(x) => {
                        assert(before.kids().contains_key(Cell::Byte(x)) <==> before.keys[x as int] is Some
                            && Some(cell) != Some(Cell::Byte(x)));
                    },
                    _ => {},
                }
            }
            assert forall|c: Cell| self.kids().contains_key(c) implies self.kids()[c]
                == want[c] by {}
        }
    }

    /// Replaces the value of the leaf under `End`, and returns the one it
    /// held.
    pub fn replace_end_value(&mut self, value: u64) -> (r: u64)
        requires
            old(self).layout_with(None),
            old(self).kids().contains_key(Cell::End),
            old(self).kids()[Cell::End] is Leaf,
        ensures
            final(self).layout_with(None),
            final(self).count() == old(self).count(),
            final(self).kids() == old(self).kids().insert(
                Cell::End,
                Tree::Leaf { path: old(self).kids()[Cell::End].path(), value },
            ),
            Some(r) == old(self).kids()[Cell::End].lookup(old(self).kids()[Cell::End].path()),
    {
        let ghost before = *self;
        let mut leaf = self.end.take().unwrap();
        let r = (&mut *leaf).set_value(value);
        self.end = Some(leaf);
        proof {
            let want = before.kids().insert(
                Cell::End,
                Tree::Leaf { path: before.kids()[Cell::End].path(), value },
            );
            assert forall|c: Cell| self.kids().contains_key(c) == want.contains_key(c) by {}
            assert forall|c: Cell| self.kids().contains_key(c) implies self.kids()[c]
                == want[c] by {}
        }
        r
    }

    /// Takes out the child under `End`.
    pub fn remove_end(&mut self) -> (r: Box<Node>)
        requires
            old(self).layout_with(None),
            old(self).kids().contains_key(Cell::End),
        ensures
            final(self).layout_with(None),
            final(self).count() == old(self).count() - 1,
            final(self).kids() == old(self).kids().remove(Cell::End),
            r.layout(),
            r.shape() == old(self).kids()[Cell::End],
    {
        let ghost before = *self;
        let r = self.end.take().unwrap();
        proof {
            let want = before.kids().remove(Cell::End);
            assert forall|c: Cell| self.kids().contains_key(c) == want.contains_key(c) by {}
            assert forall|c: Cell| self.kids().contains_key(c) implies self.kids()[c]
                == want[c] by {}
        }
        r
    }

    /// The same children in a table of the next size class: each child under
    /// a byte goes to the slot of that byte, the one under `End` to the slot
    /// kept for it.
    pub fn into_node256(self) -> (r: Node256)
        requires
            self.layout_with(None),
        ensures
            r.layout_with(None),
            r.kids() == self.kids(),
    {
        let Node48 { keys, bytes, used, mut values, end } = self;
        let mut r = Node256::new();
        if let Some(e) = end {
            r.add(Cell::End, e);
        }
        let mut i: usize = 0;
        while i < 256
            invariant
                i <= 256,
                self.layout_with(None),
                self.keys == keys,
                values@.len() == 48,
                r.layout_with(None),
                forall|c: Cell| #[trigger]
                    r.kids().contains_key(c) <==> self.kids().contains_key(c) && c.rank() <= i,
                forall|c: Cell| #[trigger]
                    r.kids().contains_key(c) ==> r.kids()[c] == self.kids()[c],
                forall|b: int|
                    i <= b < 256 ==> (#[trigger] self.keys[b] matches Some(s) ==> values@[s as int]
                        == self.values@[s as int]),
            decreases 256 - i,
        {
            if let Some(s) = keys[i] {
                let node = values[s as usize].take().unwrap();
                r.add(Cell::Byte(i as u8), node);
            }
            proof {
                assert forall|c: Cell| #[trigger]
                    r.kids().contains_key(c) <==> self.kids().contains_key(c) && c.rank() <= i
                        + 1 by {}
            }
            i += 1;
        }
        r
    }

    /// The table in the next size class, with a fresh leaf for `path` and
    /// `value` filed under `cell`.
    pub fn promote(self, path: &[u8], cell: Cell, value: u64) -> (r: Node256)
        requires
            self.layout_with(None),
            cell != Cell::Vacant,
            !self.kids().contains_key(cell),
        ensures
            r.layout_with(None),
            r.kids() == self.kids().insert(cell, Tree::Leaf { path: path@, value }),
    {
        let mut r = self.into_node256();
        r.insert(path, cell, value);
        r
    }

    /// The table in the next smaller size class.
    pub fn demote(self) -> (r: Node16)
        requires
            self.layout_with(None),
            self.kids().dom().finite(),
            self.kids().dom().len() <= 16,
        ensures
            r.layout_with(None),
            r.count() == self.kids().dom().len(),
            r.kids() == self.kids(),
    {
        let Node48 { keys, bytes, used, mut values, end } = self;
        let mut r = Node16::new();
        if let Some(e) = end {
            r.push(Cell::End, e);
        }
        let mut i: usize = 0;
        while i < 256
            invariant
                i <= 256,
                self.layout_with(None),
                self.kids().dom().finite(),
                self.kids().dom().len() <= 16,
                self.keys == keys,
                values@.len() == 48,
                r.layout_with(None),
                r.kids().dom().finite(),
                r.count() == r.kids().dom().len(),
                forall|c: Cell| c.rank() > i ==> r.below(c),
                forall|c: Cell| #[trigger]
                    r.kids().contains_key(c) <==> self.kids().contains_key(c) && c.rank() <= i,
                forall|c: Cell| #[trigger]
                    r.kids().contains_key(c) ==> r.kids()[c] == self.kids()[c],
                forall|b: int|
                    i <= b < 256 ==> (#[trigger] self.keys[b] matches Some(s) ==> values@[s as int]
                        == self.values@[s as int]),
            decreases 256 - i,
        {
            let ghost cur = Cell::Byte(i as u8);
            if let Some(s) = keys[i] {
                let node = values[s as usize].take().unwrap();
                proof {
                    let grown = r.kids().dom().insert(cur);
                    vstd::set_lib::lemma_len_subset(grown, self.kids().dom());
                }
                r.push(Cell::Byte(i as u8), node);
            }
            proof {
                assert forall|c: Cell| #[trigger]
                    r.kids().contains_key(c) <==> self.kids().contains_key(c) && c.rank() <= i
                        + 1 by {}
            }
            i += 1;
        }
        proof {
            assert(r.kids() =~= self.kids());
        }
        r
    }
}

} // verus!
