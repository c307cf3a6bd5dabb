//! Selectors: the markers that pair a dispatch slot with a child.

use vstd::prelude::*;

verus! {

/// What a dispatch slot selects: nothing, the end of the key, or one byte.
///
/// Occupied selectors are totally ordered by [`Cell::rank`]: `End` comes
/// before every byte, and bytes follow their numeric order.
#[derive(Clone, Copy, Debug, PartialEq, Eq, Structural)]
pub enum Cell {
    /// The key terminates exactly at this node.
    End,
    /// The slot is unoccupied.
    Vacant,
    /// The key continues with this byte.
    Byte(u8),
}

impl Cell {
    /// Position of a selector in the dispatch order. A vacant slot ranks
    /// after every occupied one, so a packed, sorted array is sorted by rank
    /// over its whole length.
    pub open spec fn rank(self) -> int {
        match self {
            Cell::End => 0,
            Cell::Byte(b) => b as int + 1,
            Cell::Vacant => 257,
        }
    }

    /// The selector under which a node holding `rest` hangs: `End` when
    /// nothing of the key is left, else its first byte.
    pub open spec fn of(rest: Seq<u8>) -> Cell {
        if rest.len() == 0 {
            Cell::End
        } else {
            Cell::Byte(rest[0])
        }
    }

    /// The selector whose rank is `r`, for `0 <= r <= 256`.
    pub open spec fn at(r: int) -> Cell {
        if r == 0 {
            Cell::End
        } else {
            Cell::Byte((r - 1) as u8)
        }
    }

    /// Whether the slot is unoccupied.
    pub fn is_none(&self) -> (r: bool)
        ensures
            r == (*self is Vacant),
    {
        match self {
            Cell::Vacant => true,
            _ => false,
        }
    }

    /// The byte of a byte selector, as an index.
    pub fn unwrap(self) -> (r: usize)
        requires
            self is Byte,
        ensures
            r == self->Byte_0,
    {
        match self {
            Cell::Byte(i) => i as usize,
            _ => vstd::pervasive::unreached(),
        }
    }

    /// Executable form of [`Cell::of`].
    pub fn select(rest: &[u8]) -> (r: Cell)
        ensures
            r == Cell::of(rest@),
    {
        if rest.len() == 0 {
            Cell::End
        } else {
            Cell::Byte(rest[0])
        }
    }

    /// Executable form of [`Cell::at`].
    pub fn from_rank(r: u16) -> (c: Cell)
        requires
            r <= 256,
        ensures
            c == Cell::at(r as int),
    {
        if r == 0 {
            Cell::End
        } else {
            Cell::Byte((r - 1) as u8)
        }
    }

    /// Executable form of [`Cell::rank`].
    pub fn order(self) -> (r: u16)
        ensures
            r == self.rank(),
    {
        match self {
            Cell::End => 0,
            Cell::Byte(b) => b as u16 + 1,
            Cell::Vacant => 257,
        }
    }

    /// Two selectors of equal rank are the same selector.
    pub proof fn lemma_rank_injective(a: Cell, b: Cell)
        requires
            a.rank() == b.rank(),
        ensures
            a == b,
    {}

    /// There are 257 occupied selectors, so no set of them holds more.
    pub proof fn lemma_at_most_257(s: Set<Cell>)
        requires
            s.finite(),
            !s.contains(Cell::Vacant),
        ensures
            s.len() <= 257,
    {
        let f = |c: Cell| c.rank();
        let ranks = s.map(f);
        assert(vstd::relations::injective_on(f, s)) by {
            assert forall|a: Cell, b: Cell|
                s.contains(a) && s.contains(b) && #[trigger] f(a) == #[trigger] f(b) implies a
                == b by {}
        }
        vstd::set_lib::lemma_map_size(s, ranks, f);
        vstd::set_lib::lemma_int_range(0, 257);
        assert(ranks.subset_of(vstd::set_lib::set_int_range(0, 257))) by {
            assert forall|r: int| ranks.contains(r) implies 0 <= r < 257 by {}
        }
        vstd::set_lib::lemma_len_subset(ranks, vstd::set_lib::set_int_range(0, 257));
    }

    /// `at` inverts `rank` on occupied selectors.
    pub proof fn lemma_at_rank(c: Cell)
        requires
            c != Cell::Vacant,
        ensures
            Cell::at(c.rank()) == c,
            0 <= c.rank() <= 256,
    {}
}

impl Default for Cell {
    /// A slot starts out vacant.
    fn default() -> (r: Cell)
        ensures
            r == Cell::Vacant,
    {
        Cell::Vacant
    }
}

} // verus!
