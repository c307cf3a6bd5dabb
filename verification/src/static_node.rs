//! The two small size classes: selectors and children in parallel arrays,
//! packed from index 0 and sorted by selector.

use vstd::prelude::*;
use crate::cell::Cell;
use crate::node::Node;
use crate::node48::Node48;
use crate::tree::Tree;

verus! {

/// A dispatch table of `SIZE` slots, searched linearly.
pub struct StaticNode<const SIZE: usize> {
    keys: [Cell; SIZE],
    values: Vec<Option<Box<Node>>>,
}

/// The smallest class: up to 4 children.
pub type Node4 = StaticNode<4>;

/// The second class: up to 16 children.
pub type Node16 = StaticNode<16>;

impl<const SIZE: usize> StaticNode<SIZE> {
    /// Slot `i` is filed under `c` and holds a child.
    pub closed spec fn filled(&self, i: int, c: Cell) -> bool {
        &&& 0 <= i < SIZE
        &&& i < self.values@.len()
        &&& self.keys[i] == c
        &&& c != Cell::Vacant
        &&& self.values@[i] is Some
    }

    /// The children, by selector.
    pub closed spec fn kids(&self) -> Map<Cell, Tree>
        decreases self,
    {
        Map::new(
            |c: Cell| exists|i: int| self.filled(i, c),
            |c: Cell|
                {
                    let i = choose|i: int| self.filled(i, c);
                    if 0 <= i < self.values@.len() {
                        match self.values@[i] {
                            Some(b) => b.shape(),
                            None => Tree::Empty,
                        }
                    } else {
                        Tree::Empty
                    }
                },
        )
    }

    /// The first `n` selectors are occupied and strictly ascending; the rest
    /// are vacant.
    pub closed spec fn packed(&self, n: nat) -> bool {
        &&& n <= SIZE
        &&& self.values@.len() == SIZE
        &&& forall|i: int| 0 <= i < n ==> self.keys[i] != Cell::Vacant
        &&& forall|i: int| n <= i < SIZE ==> self.keys[i] == Cell::Vacant
        &&& forall|i: int, j: int| 0 <= i < j < n ==> self.keys[i].rank() < self.keys[j].rank()
    }

    /// The number of occupied selectors.
    pub closed spec fn count(&self) -> nat {
        choose|n: nat| self.packed(n)
    }

    /// The table is packed and sorted, and every occupied slot holds a child
    /// that is laid out in turn, but for the slot filed under `hole`, which
    /// is empty as the vacant slots are.
    pub closed spec fn layout_with(&self, hole: Option<Cell>) -> bool
        decreases self,
    {
        &&& self.packed(self.count())
        &&& forall|i: int| self.count() <= i < SIZE ==> self.values@[i] is None
        &&& forall|i: int|
            0 <= i < self.count() && i < self.values@.len() ==> if hole == Some(self.keys[i]) {
                self.values@[i] is None
            } else {
                match #[trigger] self.values@[i] {
                    Some(b) => b.layout(),
                    None => false,
                }
            }
        &&& hole matches Some(h) ==> exists|i: int| 0 <= i < self.count() && self.keys[i] == h
    }

    /// `start` is where `cell` belongs among the selectors: all before it are
    /// smaller, all from it on are larger or vacant.
    pub closed spec fn sorts_at(&self, start: int, cell: Cell) -> bool {
        &&& 0 <= start <= self.count()
        &&& forall|i: int| 0 <= i < start ==> self.keys[i].rank() < cell.rank()
        &&& forall|i: int| start <= i < SIZE ==> self.keys[i].rank() > cell.rank()
    }

    /// Only one `n` can make a table `packed`.
    proof fn lemma_count(&self, n: nat)
        requires
            self.packed(n),
        ensures
            self.count() == n,
    {
        let m = self.count();
        if m < n {
            assert(self.keys[m as int] == Cell::Vacant);
        }
        if n < m {
            assert(self.keys[n as int] == Cell::Vacant);
        }
    }

    /// In a laid-out table a selector is filed at most once, so the child
    /// that `kids` gives for it is the one in its slot.
    proof fn lemma_kids(&self, hole: Option<Cell>)
        requires
            self.layout_with(hole),
        ensures
            forall|i: int, j: int, c: Cell| self.filled(i, c) && self.filled(j, c) ==> i == j,
            forall|i: int, c: Cell| #[trigger]
                self.filled(i, c) ==> self.kids().contains_key(c) && self.kids()[c]
                    == self.values@[i].unwrap().shape() && i < self.count() && Some(c) != hole,
            forall|i: int|
                0 <= i < self.count() && Some(self.keys[i]) != hole ==> #[trigger] self.filled(
                    i,
                    self.keys[i],
                ),
            forall|c: Cell| #[trigger]
                self.kids().contains_key(c) ==> c != Cell::Vacant && exists|i: int|
                    self.filled(i, c),
            hole matches Some(h) ==> !self.kids().contains_key(h),
    {
        assert forall|i: int, c: Cell| #[trigger] self.filled(i, c) implies self.kids().contains_key(
            c,
        ) && self.kids()[c] == self.values@[i].unwrap().shape() && i < self.count() && Some(c)
            != hole by {}
    }

    /// A table with every slot vacant.
    pub fn new() -> (r: Self)
        ensures
            r.layout_with(None),
            r.count() == 0,
            r.kids() == Map::<Cell, Tree>::empty(),
            forall|c: Cell| r.below(c),
    {
        let mut values: Vec<Option<Box<Node>>> = Vec::new();
        let mut i: usize = 0;
        while i < SIZE
            invariant
                i <= SIZE,
                values@.len() == i,
                forall|j: int| 0 <= j < i ==> values@[j] is None,
            decreases SIZE - i,
        {
            values.push(None);
            i += 1;
        }
        let r = StaticNode { keys: [Cell::Vacant; SIZE], values };
        proof {
            r.lemma_count(0);
        }
        r
    }

    /// The slot filed under `cell`, if there is one.
    fn find(&self, cell: Cell) -> (r: Option<usize>)
        requires
            cell != Cell::Vacant,
            self.packed(self.count()),
        ensures
            match r {
                Some(i) => i < self.count() && self.keys[i as int] == cell,
                None => forall|i: int| 0 <= i < SIZE ==> self.keys[i] != cell,
            },
    {
        let mut i: usize = 0;
        while i < SIZE
            invariant
                i <= SIZE,
                cell != Cell::Vacant,
                self.packed(self.count()),
                forall|j: int| 0 <= j < i ==> self.keys[j] != cell,
            decreases SIZE - i,
        {
            if self.keys[i] == cell {
                return Some(i);
            }
            i += 1;
        }
        None
    }

    /// Whether a child is filed under `cell`.
    pub fn has(&self, cell: Cell) -> (r: bool)
        requires
            self.layout_with(None),
        ensures
            r == self.kids().contains_key(cell),
    {
        if cell.is_none() {
            return false;
        }
        match self.find(cell) {
            Some(i) => {
                assert(self.filled(i as int, self.keys[i as int]));
                true
            },
            None => false,
        }
    }

    /// The child filed under `cell`, if there is one.
    pub fn child(&self, cell: Cell) -> (r: Option<&Node>)
        requires
            self.layout_with(None),
        ensures
            r is Some == self.kids().contains_key(cell),
            r matches Some(c) ==> c.layout() && c.shape() == self.kids()[cell] && decreases_to!(
                self => c
            ),
    {
        if cell.is_none() {
            return None;
        }
        match self.find(cell) {
            Some(i) => {
                assert(self.filled(i as int, self.keys[i as int]));
                match &self.values[i] {
                    Some(b) => Some(&**b),
                    None => None,
                }
            },
            None => None,
        }
    }

    /// Where `cell` belongs among the selectors.
    pub fn insertion_point(&self, cell: Cell) -> (r: usize)
        requires
            self.layout_with(None),
            cell != Cell::Vacant,
            !self.kids().contains_key(cell),
        ensures
            self.sorts_at(r as int, cell),
    {
        let rank = cell.order();
        let mut i: usize = 0;
        while i < SIZE && self.keys[i].order() < rank
            invariant
                i <= SIZE,
                i <= self.count(),
                rank == cell.rank(),
                self.packed(self.count()),
                forall|j: int| 0 <= j < i ==> self.keys[j].rank() < cell.rank(),
            decreases SIZE - i,
        {
            i += 1;
        }
        proof {
            let n = self.count();
            assert forall|j: int| i <= j < SIZE implies self.keys[j].rank() > cell.rank() by {
                if j < n {
                    assert(self.filled(j, self.keys[j]));
                }
            }
        }
        i
    }

    /// Files `node` under `cell` at slot `start`, moving the slots from
    /// `start` on one place to the right.
    pub fn place(&mut self, start: usize, cell: Cell, node: Box<Node>)
        requires
            old(self).layout_with(None),
            old(self).count() < SIZE,
            cell != Cell::Vacant,
            !old(self).kids().contains_key(cell),
            old(self).sorts_at(start as int, cell),
            node.layout(),
        ensures
            final(self).layout_with(None),
            final(self).count() == old(self).count() + 1,
            final(self).kids() == old(self).kids().insert(cell, node.shape()),
    {
        let ghost n = self.count();
        let ghost before = *self;
        proof {
            self.lemma_kids(None);
        }
        let mut i: usize = SIZE - 1;
        while i > start
            invariant
                start <= i < SIZE,
                self.values == before.values,
                forall|j: int| 0 <= j <= i ==> self.keys[j] == before.keys[j],
                forall|j: int| i < j < SIZE ==> self.keys[j] == before.keys[j - 1],
            decreases i,
        {
            self.keys[i] = self.keys[i - 1];
            i -= 1;
        }
        self.keys[start] = cell;
        self.values.pop();
        self.values.insert(start, Some(node));
        proof {
            assert forall|j: int| 0 <= j < SIZE implies #[trigger] self.values@[j] == (if j
                < start {
                before.values@[j]
            } else if j == start {
                Some(node)
            } else {
                before.values@[j - 1]
            }) by {}
            assert(before.packed(n));
            assert(self.packed(n + 1)) by {
                assert forall|a: int, b: int| 0 <= a < b < n + 1 implies self.keys[a].rank()
                    < self.keys[b].rank() by {
                    let a0 = if a < start { a } else { a - 1 };
                    let b0 = if b < start { b } else { b - 1 };
                    if a != start && b != start {
                        assert(before.keys[a0].rank() < before.keys[b0].rank());
                    } else if a == start {
                        assert(before.keys[b0].rank() > cell.rank());
                    } else {
                        assert(before.keys[a0].rank() < cell.rank());
                    }
                }
                assert forall|j: int| 0 <= j < n + 1 implies self.keys[j] != Cell::Vacant by {
                    let j0 = if j < start { j } else { j - 1 };
                    if j != start {
                        assert(before.keys[j0] != Cell::Vacant);
                    }
                }
                assert forall|j: int| n + 1 <= j < SIZE implies self.keys[j] == Cell::Vacant by {
                    assert(before.keys[j - 1] == Cell::Vacant);
                }
            }
            self.lemma_count(n + 1);
            assert forall|j: int| 0 <= j < n + 1 implies match #[trigger] self.values@[j] {
                Some(b) => b.layout(),
                None => false,
            } by {
                if j < start {
                    assert(before.values@[j] is Some);
                } else if j > start {
                    assert(before.values@[j - 1] is Some);
                }
            }
            assert(self.layout_with(None));
            self.lemma_kids(None);
            let want = before.kids().insert(cell, node.shape());
            assert forall|c: Cell| self.kids().contains_key(c) == want.contains_key(c) by {
                if self.kids().contains_key(c) {
                    let j = choose|j: int| self.filled(j, c);
                    if j < start {
                        assert(before.filled(j, c));
                    } else if j > start {
                        assert(before.filled(j - 1, c));
                    }
                }
                if want.contains_key(c) {
                    if c == cell {
                        assert(self.filled(start as int, c));
                    } else {
                        let j = choose|j: int| before.filled(j, c);
                        if j < start {
                            assert(self.filled(j, c));
                        } else {
                            assert(self.filled(j + 1, c));
                        }
                    }
                }
            }
            assert forall|c: Cell| self.kids().contains_key(c) implies self.kids()[c]
                == want[c] by {
                let j = choose|j: int| self.filled(j, c);
                if j < start {
                    assert(before.filled(j, c));
                } else if j > start {
                    assert(before.filled(j - 1, c));
                } else {
                    assert(self.filled(start as int, cell));
                }
            }
            assert(self.kids() =~= want);
        }
    }

    /// Files a fresh leaf for `path` and `value` under `cell` at slot
    /// `start`, moving the slots from `start` on one place to the right.
    pub fn insert(&mut self, start: usize, path: &[u8], cell: Cell, value: u64)
        requires
            old(self).layout_with(None),
            old(self).count() < SIZE,
            cell != Cell::Vacant,
            !old(self).kids().contains_key(cell),
            old(self).sorts_at(start as int, cell),
        ensures
            final(self).layout_with(None),
            final(self).count() == old(self).count() + 1,
            final(self).kids() == old(self).kids().insert(
                cell,
                Tree::Leaf { path: path@, value },
            ),
    {
        self.place(start, cell, Box::new(Node::leaf(path, value)));
    }

    /// Takes out the child filed under `cell`, and leaves its slot as a hole.
    pub fn take_child(&mut self, cell: Cell) -> (r: Box<Node>)
        requires
            old(self).layout_with(None),
            old(self).kids().contains_key(cell),
        ensures
            final(self).layout_with(Some(cell)),
            final(self).count() == old(self).count(),
            final(self).kids() == old(self).kids().remove(cell),
            r.layout(),
            r.shape() == old(self).kids()[cell],
            decreases_to!(*old(self) => *r),
    {
        let ghost before = *self;
        let i = self.find(cell).unwrap();
        let r = self.values[i].take().unwrap();
        proof {
            let n = before.count();
            self.lemma_count(n);
            let want = before.kids().remove(cell);
            assert forall|c: Cell| self.kids().contains_key(c) == want.contains_key(c) by {
                if self.kids().contains_key(c) {
                    let j = choose|j: int| self.filled(j, c);
                    assert(before.filled(j, c));
                }
                if want.contains_key(c) {
                    let j = choose|j: int| before.filled(j, c);
                    assert(self.filled(j, c));
                }
            }
            assert forall|c: Cell| self.kids().contains_key(c) implies self.kids()[c]
                == want[c] by {
                let j = choose|j: int| self.filled(j, c);
                assert(before.filled(j, c));
            }
        }
        r
    }

    /// Puts `node` into the hole under `cell`.
    pub fn put_child(&mut self, cell: Cell, node: Box<Node>)
        requires
            old(self).layout_with(Some(cell)),
            node.layout(),
        ensures
            final(self).layout_with(None),
            final(self).count() == old(self).count(),
            final(self).kids() == old(self).kids().insert(cell, node.shape()),
    {
        let ghost before = *self;
        let i = self.find(cell).unwrap();
        self.values[i] = Some(node);
        proof {
            let n = before.count();
            self.lemma_count(n);
            let want = before.kids().insert(cell, node.shape());
            assert forall|c: Cell| self.kids().contains_key(c) == want.contains_key(c) by {
                if self.kids().contains_key(c) {
                    let j = choose|j: int| self.filled(j, c);
                    if j != i {
                        assert(before.filled(j, c));
                    }
                }
                if want.contains_key(c) {
                    if c == cell {
                        assert(self.filled(i as int, c));
                    } else {
                        let j = choose|j: int| before.filled(j, c);
                        assert(self.filled(j, c));
                    }
                }
            }
            assert forall|c: Cell| self.kids().contains_key(c) implies self.kids()[c]
                == want[c] by {
                let j = choose|j: int| self.filled(j, c);
                if j != i {
                    assert(before.filled(j, c));
                }
            }
        }
    }

    /// Gives up the hole under `cell`: the slots after it move one place to
    /// the left.
    pub fn close(&mut self, cell: Cell)
        requires
            old(self).layout_with(Some(cell)),
        ensures
            final(self).layout_with(None),
            final(self).count() == old(self).count() - 1,
            final(self).kids() == old(self).kids(),
    {
        let ghost before = *self;
        let ghost n = self.count();
        let at = self.find(cell).unwrap();
        let mut i: usize = at;
        while i + 1 < SIZE
            invariant
                at <= i < SIZE,
                self.values == before.values,
                forall|j: int| 0 <= j < at ==> self.keys[j] == before.keys[j],
                forall|j: int| at <= j < i ==> self.keys[j] == before.keys[j + 1],
                forall|j: int| i <= j < SIZE ==> self.keys[j] == before.keys[j],
            decreases SIZE - i,
        {
            self.keys[i] = self.keys[i + 1];
            i += 1;
        }
        self.keys[i] = Cell::Vacant;
        self.values.remove(at);
        self.values.push(None);
        proof {
            assert(self.packed((n - 1) as nat)) by {
                assert forall|a: int, b: int| 0 <= a < b < n - 1 implies self.keys[a].rank()
                    < self.keys[b].rank() by {
                    let a0 = if a < at { a } else { a + 1 };
                    let b0 = if b < at { b } else { b + 1 };
                    assert(before.keys[a0].rank() < before.keys[b0].rank());
                }
                assert forall|j: int| 0 <= j < n - 1 implies self.keys[j] != Cell::Vacant by {
                    let j0 = if j < at { j } else { j + 1 };
                    assert(before.keys[j0] != Cell::Vacant);
                }
            }
            self.lemma_count((n - 1) as nat);
            assert(self.layout_with(None)) by {
                assert forall|j: int| 0 <= j < n - 1 implies match #[trigger] self.values@[j] {
                    Some(b) => b.layout(),
                    None => false,
                } by {}
            }
            let want = before.kids();
            assert forall|c: Cell| self.kids().contains_key(c) == want.contains_key(c) by {
                if self.kids().contains_key(c) {
                    let j = choose|j: int| self.filled(j, c);
                    let j0 = if j < at { j } else { j + 1 };
                    assert(before.filled(j0, c));
                }
                if want.contains_key(c) {
                    let j = choose|j: int| before.filled(j, c);
                    let j1 = if j < at { j } else { j - 1 };
                    assert(self.filled(j1, c));
                }
            }
            assert forall|c: Cell| self.kids().contains_key(c) implies self.kids()[c]
                == want[c] by {
                let j = choose|j: int| self.filled(j, c);
                let j0 = if j < at { j } else { j + 1 };
                assert(before.filled(j0, c));
            }
        }
    }

    /// Every occupied selector comes before `cell`.
    pub closed spec fn below(&self, cell: Cell) -> bool {
        forall|i: int| 0 <= i < self.count() ==> self.keys[i].rank() < cell.rank()
    }

    /// Files `node` under `cell` behind all the others.
    pub fn push(&mut self, cell: Cell, node: Box<Node>)
        requires
            old(self).layout_with(None),
            old(self).count() < SIZE,
            cell != Cell::Vacant,
            old(self).below(cell),
            node.layout(),
        ensures
            final(self).layout_with(None),
            final(self).count() == old(self).count() + 1,
            final(self).kids() == old(self).kids().insert(cell, node.shape()),
            forall|c: Cell| cell.rank() < c.rank() ==> final(self).below(c),
    {
        let ghost n = self.count();
        let mut at: usize = 0;
        while at < SIZE && !self.keys[at].is_none()
            invariant
                at <= SIZE,
                at <= n,
                n == self.count(),
                self.packed(n),
            decreases SIZE - at,
        {
            at += 1;
        }
        self.place(at, cell, node);
        proof {
            self.lemma_kids(None);
            assert forall|c: Cell| cell.rank() < c.rank() implies self.below(c) by {
                assert forall|i: int| 0 <= i < self.count() implies self.keys[i].rank()
                    < c.rank() by {
                    assert(self.filled(i, self.keys[i]));
                }
            }
        }
    }

    /// The same table in another size.
    pub fn resized<const M: usize>(self) -> (r: StaticNode<M>)
        requires
            self.layout_with(None),
            self.count() <= M,
        ensures
            r.layout_with(None),
            r.count() == self.count(),
            r.kids() == self.kids(),
            forall|start: int, cell: Cell|
                cell != Cell::Vacant && self.sorts_at(start, cell) ==> r.sorts_at(start, cell),
    {
        let ghost n = self.count();
        let StaticNode { keys, mut values } = self;
        let mut r = StaticNode::<M>::new();
        let mut i: usize = 0;
        while i < SIZE && i < M
            invariant
                i <= SIZE,
                i <= M,
                values@.len() == SIZE,
                self.values@.len() == SIZE,
                self.keys == keys,
                r.values@.len() == M,
                forall|j: int| 0 <= j < i ==> r.keys[j] == keys[j],
                forall|j: int| 0 <= j < i ==> r.values@[j] == self.values@[j],
                forall|j: int| i <= j < M ==> r.keys[j] == Cell::Vacant,
                forall|j: int| i <= j < M ==> r.values@[j] is None,
                forall|j: int| i <= j < SIZE ==> values@[j] == self.values@[j],
            decreases SIZE - i,
        {
            r.keys[i] = keys[i];
            r.values[i] = values[i].take();
            i += 1;
        }
        proof {
            assert forall|j: int| 0 <= j < i implies r.keys[j] == self.keys[j] by {}
            r.lemma_count(n);
            assert forall|c: Cell| r.kids().contains_key(c) == self.kids().contains_key(c) by {
                if r.kids().contains_key(c) {
                    let j = choose|j: int| r.filled(j, c);
                    assert(self.filled(j, c));
                }
                if self.kids().contains_key(c) {
                    let j = choose|j: int| self.filled(j, c);
                    assert(r.filled(j, c));
                }
            }
            assert forall|c: Cell| r.kids().contains_key(c) implies r.kids()[c]
                == self.kids()[c] by {}
            assert forall|start: int, cell: Cell|
                cell != Cell::Vacant && self.sorts_at(start, cell) implies r.sorts_at(
                start,
                cell,
            ) by {}
        }
        r
    }
}

impl<const SIZE: usize> StaticNode<SIZE> {
    /// Replaces the value of the leaf under `End`, and returns the one it
    /// held.
    pub fn replace_end_value(&mut self, value: u64) -> (r: u64)
        requires
            old(self).layout_with(None),
            old(self).kids().contains_key(Cell::End),
            old(self).kids()[Cell::End] is Leaf,
        ensures
            final(self).layout_with(None),
            final(self).count() == old(self).count(),
            final(self).kids() == old(self).kids().insert(
                Cell::End,
                Tree::Leaf { path: old(self).kids()[Cell::End].path(), value },
            ),
            Some(r) == old(self).kids()[Cell::End].lookup(old(self).kids()[Cell::End].path()),
    {
        let mut leaf = self.take_child(Cell::End);
        let r = (&mut *leaf).set_value(value);
        self.put_child(Cell::End, leaf);
        r
    }

    /// Takes out the child under `End`.
    pub fn remove_end(&mut self) -> (r: Box<Node>)
        requires
            old(self).layout_with(None),
            old(self).kids().contains_key(Cell::End),
        ensures
            final(self).layout_with(None),
            final(self).count() == old(self).count() - 1,
            final(self).kids() == old(self).kids().remove(Cell::End),
            r.layout(),
            r.shape() == old(self).kids()[Cell::End],
    {
        let r = self.take_child(Cell::End);
        self.close(Cell::End);
        r
    }

    /// The first child and its selector, out of a table that is given up.
    pub fn into_first(self) -> (r: (Cell, Box<Node>))
        requires
            self.layout_with(None),
            self.count() >= 1,
        ensures
            self.kids().contains_key(r.0),
            r.1.layout(),
            r.1.shape() == self.kids()[r.0],
            forall|c: Cell| self.kids().contains_key(c) ==> r.0.rank() <= c.rank(),
    {
        let StaticNode { keys, mut values } = self;
        assert(self.filled(0, self.keys[0]));
        let node = values[0].take().unwrap();
        proof {
            assert forall|c: Cell| self.kids().contains_key(c) implies keys[0].rank()
                <= c.rank() by {}
        }
        (keys[0], node)
    }
}

impl<const SIZE: usize> StaticNode<SIZE> {
    /// The selector in slot `i`; vacant beyond the table.
    pub closed spec fn key(&self, i: int) -> Cell {
        if 0 <= i < SIZE {
            self.keys[i]
        } else {
            Cell::Vacant
        }
    }

    /// The slots are packed and sorted: the occupied selectors stand in the
    /// first `count()` slots in strictly ascending order, they are exactly
    /// the selectors that have a child, and all other slots are vacant.
    pub proof fn lemma_keys(&self)
        requires
            self.layout_with(None),
        ensures
            self.count() <= SIZE,
            forall|i: int| 0 <= i < self.count() ==> self.kids().contains_key(#[trigger] self.key(i)),
            forall|i: int| self.count() <= i ==> #[trigger] self.key(i) == Cell::Vacant,
            forall|i: int, j: int|
                0 <= i < j < self.count() ==> (#[trigger] self.key(i)).rank() < (#[trigger] self.key(
                    j,
                )).rank(),
            forall|c: Cell|
                self.kids().contains_key(c) ==> exists|i: int|
                    0 <= i < self.count() && #[trigger] self.key(i) == c,
    {
        assert forall|i: int| 0 <= i < self.count() implies self.kids().contains_key(
            #[trigger] self.key(i),
        ) by {
            assert(self.filled(i, self.keys[i]));
        }
        assert forall|c: Cell| self.kids().contains_key(c) implies exists|i: int|
            0 <= i < self.count() && #[trigger] self.key(i) == c by {
            let j = choose|j: int| self.filled(j, c);
            assert(self.key(j) == c);
        }
    }

    /// The selector in slot `i`.
    pub fn key_at(&self, i: usize) -> (r: Cell)
        ensures
            r == self.key(i as int),
    {
        if i < SIZE {
            self.keys[i]
        } else {
            Cell::Vacant
        }
    }

    /// The child in slot `i`, if the slot is occupied.
    pub fn child_at(&self, i: usize) -> (r: Option<&Node>)
        requires
            self.layout_with(None),
        ensures
            r is Some == (i < self.count()),
            r matches Some(c) ==> c.layout(),
            r matches Some(c) ==> c.shape() == self.kids()[self.key(i as int)],
            r matches Some(c) ==> decreases_to!(self => c),
    {
        if i < SIZE {
            proof {
                if i < self.count() {
                    assert(self.filled(i as int, self.keys[i as int]));
                }
            }
            match &self.values[i] {
                Some(b) => Some(&**b),
                None => None,
            }
        } else {
            None
        }
    }
}

impl Node4 {
    /// The table in the next size class, with a fresh leaf for `path` and
    /// `value` filed under `cell` at slot `start`.
    pub fn promote(self, start: usize, path: &[u8], cell: Cell, value: u64) -> (r: Node16)
        requires
            self.layout_with(None),
            cell != Cell::Vacant,
            !self.kids().contains_key(cell),
            self.sorts_at(start as int, cell),
        ensures
            r.layout_with(None),
            r.count() == self.count() + 1,
            r.kids() == self.kids().insert(cell, Tree::Leaf { path: path@, value }),
    {
        let mut r = self.resized::<16>();
        r.insert(start, path, cell, value);
        r
    }
}

impl Node16 {
    /// The same children in a table of the next size class: each child goes
    /// to the slot of its own that the byte index of the new table gives
    /// it, the one under `End` to the slot kept for it.
    pub fn into_node48(self) -> (r: Node48)
        requires
            self.layout_with(None),
        ensures
            r.layout_with(None),
            r.count() == self.count(),
            r.kids() == self.kids(),
    {
        let ghost n = self.count();
        let StaticNode { keys, mut values } = self;
        let mut r = Node48::new();
        let mut i: usize = 0;
        while i < 16
            invariant
                i <= 16,
                n == self.count(),
                self.layout_with(None),
                self.keys == keys,
                values@.len() == 16,
                r.layout_with(None),
                r.count() == (if i < n { i as nat } else { n }),
                forall|c: Cell| #[trigger]
                    r.kids().contains_key(c) <==> exists|j: int| 0 <= j < i && self.filled(j, c),
                forall|c: Cell| #[trigger]
                    r.kids().contains_key(c) ==> r.kids()[c] == self.kids()[c],
                forall|j: int| i <= j < 16 ==> values@[j] == self.values@[j],
            decreases 16 - i,
        {
            let k = keys[i];
            if !k.is_none() {
                assert(self.filled(i as int, k));
                let node = values[i].take().unwrap();
                r.add(k, node);
                proof {
                    assert forall|c: Cell| #[trigger]
                        r.kids().contains_key(c) <==> exists|j: int|
                            0 <= j < i + 1 && self.filled(j, c) by {}
                }
            } else {
                proof {
                    assert forall|c: Cell| #[trigger]
                        r.kids().contains_key(c) <==> exists|j: int|
                            0 <= j < i + 1 && self.filled(j, c) by {}
                }
            }
            i += 1;
        }
        proof {
            assert forall|c: Cell| r.kids().contains_key(c) == self.kids().contains_key(c) by {}
        }
        r
    }

    /// The table in the next size class, with a fresh leaf for `path` and
    /// `value` filed under `cell`. The larger class keeps no order, so
    /// `start` plays no part.
    pub fn promote(self, start: usize, path: &[u8], cell: Cell, value: u64) -> (r: Node48)
        requires
            self.layout_with(None),
            cell != Cell::Vacant,
            !self.kids().contains_key(cell),
        ensures
            r.layout_with(None),
            r.count() == self.count() + 1,
            r.kids() == self.kids().insert(cell, Tree::Leaf { path: path@, value }),
    {
        let mut r = self.into_node48();
        r.insert(path, cell, value);
        r
    }

    /// The table in the next smaller size class.
    pub fn demote(self) -> (r: Node4)
        requires
            self.layout_with(None),
            self.count() <= 4,
        ensures
            r.layout_with(None),
            r.count() == self.count(),
            r.kids() == self.kids(),
    {
        self.resized::<4>()
    }
}

impl<const SIZE: usize> Default for StaticNode<SIZE> {
    /// A table with every slot vacant.
    fn default() -> (r: Self)
        ensures
            r.layout_with(None),
            r.count() == 0,
            r.kids() == Map::<Cell, Tree>::empty(),
    {
        StaticNode::new()
    }
}

} // verus!
