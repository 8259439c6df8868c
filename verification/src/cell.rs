//! Grid coordinates and the Moore neighborhood.

use vstd::prelude::*;

verus! {

/// A position on the unbounded grid: an ordered pair of signed integers.
/// Equality is exact integer equality.
#[derive(Clone, Copy, PartialEq, Eq, Structural, Debug)]
pub struct Cell {
    pub x: i64,
    pub y: i64,
}

impl View for Cell {
    type V = (int, int);

    open spec fn view(&self) -> (int, int) {
        (self.x as int, self.y as int)
    }
}

impl Cell {
    pub fn new(x: i64, y: i64) -> (c: Cell)
        ensures
            c@ == (x as int, y as int),
    {
        Cell { x, y }
    }
}

/// The `i`-th of the 8 Moore-neighborhood positions around `p`,
/// in a fixed scan order (row by row, left to right).
pub open spec fn nbr_at(p: (int, int), i: int) -> (int, int) {
    if i == 0 {
        (p.0 - 1, p.1 - 1)
    } else if i == 1 {
        (p.0, p.1 - 1)
    } else if i == 2 {
        (p.0 + 1, p.1 - 1)
    } else if i == 3 {
        (p.0 - 1, p.1)
    } else if i == 4 {
        (p.0 + 1, p.1)
    } else if i == 5 {
        (p.0 - 1, p.1 + 1)
    } else if i == 6 {
        (p.0, p.1 + 1)
    } else {
        (p.0 + 1, p.1 + 1)
    }
}

/// `q` lies in the Moore neighborhood of `p`: the two positions are
/// distinct and differ by at most one in each coordinate.
pub open spec fn is_neighbor(p: (int, int), q: (int, int)) -> bool {
    &&& p != q
    &&& -1 <= q.0 - p.0 <= 1
    &&& -1 <= q.1 - p.1 <= 1
}

/// Both coordinates lie strictly inside the representable range, so all
/// 8 neighboring positions are representable as well.
pub open spec fn coord_in_interior(p: (int, int)) -> bool {
    &&& i64::MIN < p.0 < i64::MAX
    &&& i64::MIN < p.1 < i64::MAX
}

/// Every Moore-neighborhood position of `p` is a neighbor of `p`.
pub proof fn lemma_nbr_at_is_neighbor(p: (int, int), i: int)
    requires
        0 <= i < 8,
    ensures
        is_neighbor(p, nbr_at(p, i)),
{
}

/// Every neighbor of `p` appears in `p`'s Moore neighborhood.
pub proof fn lemma_neighbor_has_index(p: (int, int), q: (int, int))
    requires
        is_neighbor(p, q),
    ensures
        exists|i: int| 0 <= i < 8 && #[trigger] nbr_at(p, i) == q,
{
    let dx = q.0 - p.0;
    let dy = q.1 - p.1;
    if dy == -1 {
        if dx == -1 {
            assert(nbr_at(p, 0) == q);
        } else if dx == 0 {
            assert(nbr_at(p, 1) == q);
        } else {
            assert(nbr_at(p, 2) == q);
        }
    } else if dy == 0 {
        if dx == -1 {
            assert(nbr_at(p, 3) == q);
        } else {
            assert(nbr_at(p, 4) == q);
        }
    } else {
        if dx == -1 {
            assert(nbr_at(p, 5) == q);
        } else if dx == 0 {
            assert(nbr_at(p, 6) == q);
        } else {
            assert(nbr_at(p, 7) == q);
        }
    }
}

} // verus!
