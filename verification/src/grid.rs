//! The sparse grid of live cells and its operations: toggle, membership
//! query, neighborhood query, and the one-generation step.

use vstd::prelude::*;
use crate::cell::{coord_in_interior, is_neighbor, Cell};
use crate::cell::{lemma_nbr_at_is_neighbor, lemma_neighbor_has_index, nbr_at};
use crate::rules::{count_upto, dead_upto, live_neighbor_count, next_gen};
use crate::rules::{
    lemma_count_pos_has_witness, lemma_count_upto_full, lemma_dead_upto_complete,
    lemma_dead_upto_sound, lemma_survivors_complete, lemma_survivors_nodup,
    lemma_survivors_sound, survivors_upto,
};

verus! {

broadcast use vstd::seq_lib::lemma_seq_contains_after_push;

/// The positions named by a sequence of cells, in the same order.
pub open spec fn views_of(s: Seq<Cell>) -> Seq<(int, int)> {
    s.map_values(|c: Cell| c@)
}

/// What a toggle does to a set of live positions: a live position is
/// removed, a dead one is inserted.
pub open spec fn toggled(s: Set<(int, int)>, p: (int, int)) -> Set<(int, int)> {
    if s.contains(p) {
        s.remove(p)
    } else {
        s.insert(p)
    }
}

/// The set of live cells on an unbounded grid. The entire state of one
/// simulation is this set; its abstract value is a `Set` of integer
/// coordinate pairs.
pub struct LifeGrid {
    cells: Vec<Cell>,
}

impl View for LifeGrid {
    type V = Set<(int, int)>;

    closed spec fn view(&self) -> Set<(int, int)> {
        views_of(self.cells@).to_set()
    }
}

/// Find the index of a position in a cell vector by a linear scan.
fn find_in(v: &Vec<Cell>, pos: &Cell) -> (r: Option<usize>)
    ensures
        match r {
            Some(i) => i < v@.len() && v@[i as int]@ == pos@,
            None => forall|j: int| 0 <= j < v@.len() ==> (#[trigger] v@[j])@ != pos@,
        },
{
    let n: usize = v.len();
    let mut i: usize = 0;
    while i < n
        invariant
            i <= n,
            n == v@.len(),
            forall|j: int| 0 <= j < i ==> (#[trigger] v@[j])@ != pos@,
        decreases n - i,
    {
        let c = v[i];
        if c.x == pos.x && c.y == pos.y {
            assert(v@[i as int]@ == pos@);
            return Some(i);
        }
        i += 1;
    }
    None
}

impl LifeGrid {
    /// Each live position is held by exactly one cell: no duplicates.
    pub closed spec fn wf(&self) -> bool {
        forall|i: int, j: int|
            0 <= i < j < self.cells@.len() ==> (#[trigger] self.cells@[i])@ != (
            #[trigger] self.cells@[j])@
    }

    /// Every live position lies strictly inside the representable
    /// coordinate range, so each of its 8 neighbors is representable.
    pub open spec fn all_interior(&self) -> bool {
        forall|p: (int, int)| #[trigger] self@.contains(p) ==> coord_in_interior(p)
    }

    /// A position is live exactly when some held cell names it.
    proof fn lemma_view_iff(&self, p: (int, int))
        ensures
            self@.contains(p) <==> exists|i: int|
                0 <= i < self.cells@.len() && (#[trigger] self.cells@[i])@ == p,
    {
        let vs = views_of(self.cells@);
        if self@.contains(p) {
            let k: int = choose|k: int| 0 <= k < vs.len() && vs[k] == p;
            assert(self.cells@[k]@ == p);
        }
        if exists|i: int| 0 <= i < self.cells@.len() && (#[trigger] self.cells@[i])@ == p {
            let i: int = choose|i: int| 0 <= i < self.cells@.len() && (#[trigger] self.cells@[i])@ == p;
            assert(vs[i] == p);
            assert(vs.contains(p));
        }
    }

    /// Live positions are views of held cells, so both coordinates fit
    /// the machine range.
    proof fn lemma_view_in_range(&self, p: (int, int))
        ensures
            self@.contains(p) ==> i64::MIN <= p.0 <= i64::MAX && i64::MIN <= p.1 <= i64::MAX,
    {
        if self@.contains(p) {
            self.lemma_view_iff(p);
            let i: int = choose|i: int|
                0 <= i < self.cells@.len() && (#[trigger] self.cells@[i])@ == p;
            assert(p == self.cells@[i]@);
        }
    }

    /// A fresh grid: no cell is live.
    pub fn new() -> (g: LifeGrid)
        ensures
            g.wf(),
            g@ == Set::<(int, int)>::empty(),
    {
        let g = LifeGrid { cells: Vec::new() };
        proof {
            assert(g@ =~= Set::<(int, int)>::empty());
        }
        g
    }

    /// Pure membership query: is this position live?
    pub fn is_alive(&self, pos: Cell) -> (r: bool)
        ensures
            r == self@.contains(pos@),
    {
        let r = find_in(&self.cells, &pos);
        proof {
            self.lemma_view_iff(pos@);
        }
        match r {
            Some(_) => true,
            None => false,
        }
    }

    /// No cell at all is live exactly when the live set is empty.
    pub fn is_empty(&self) -> (r: bool)
        ensures
            r == (self@ == Set::<(int, int)>::empty()),
    {
        let r = self.cells.is_empty();
        proof {
            if self.cells@.len() == 0 {
                assert(self@ =~= Set::<(int, int)>::empty());
            } else {
                self.lemma_view_iff(self.cells@[0]@);
                assert(self@.contains(self.cells@[0]@));
            }
        }
        r
    }

    /// Flip one position: a live cell dies, a dead one is born. Always
    /// succeeds; the rest of the grid is untouched.
    pub fn toggle(&mut self, pos: Cell)
        requires
            old(self).wf(),
        ensures
            final(self).wf(),
            final(self)@ == toggled(old(self)@, pos@),
    {
        proof {
            old(self).lemma_view_iff(pos@);
        }
        match find_in(&self.cells, &pos) {
            Some(i) => {
                let ghost pre = self.cells@;
                self.cells.remove(i);
                proof {
                    pre.remove_ensures(i as int);
                    assert(old(self)@.contains(pos@));
                    assert forall|q: (int, int)| self@.contains(q) implies old(self)@.contains(q)
                        && q != pos@ by {
                        self.lemma_view_iff(q);
                        let m: int = choose|m: int|
                            0 <= m < self.cells@.len() && (#[trigger] self.cells@[m])@ == q;
                        let n: int = if m < i as int {
                            m
                        } else {
                            m + 1
                        };
                        assert(pre[n]@ == q);
                        old(self).lemma_view_iff(q);
                        assert(n != i as int);
                        assert(pre[i as int]@ == pos@);
                    }
                    assert forall|q: (int, int)|
                        old(self)@.contains(q) && q != pos@ implies self@.contains(q) by {
                        old(self).lemma_view_iff(q);
                        let n: int = choose|n: int| 0 <= n < pre.len() && (#[trigger] pre[n])@ == q;
                        assert(n != i as int);
                        let m: int = if n < i as int {
                            n
                        } else {
                            n - 1
                        };
                        assert(self.cells@[m]@ == q);
                        self.lemma_view_iff(q);
                    }
                    assert(self@ =~= toggled(old(self)@, pos@));
                    assert forall|m: int, n: int|
                        0 <= m < n < self.cells@.len() implies (#[trigger] self.cells@[m])@ != (
                        #[trigger] self.cells@[n])@ by {
                        let m0 = if m < i as int {
                            m
                        } else {
                            m + 1
                        };
                        let n0 = if n < i as int {
                            n
                        } else {
                            n + 1
                        };
                        assert(self.cells@[m] == pre[m0]);
                        assert(self.cells@[n] == pre[n0]);
                    }
                }
            },
            None => {
                let ghost pre = self.cells@;
                self.cells.push(pos);
                proof {
                    assert(!old(self)@.contains(pos@));
                    assert forall|q: (int, int)| self@.contains(q) implies old(self)@.insert(
                        pos@,
                    ).contains(q) by {
                        self.lemma_view_iff(q);
                        let m: int = choose|m: int|
                            0 <= m < self.cells@.len() && (#[trigger] self.cells@[m])@ == q;
                        if m < pre.len() {
                            old(self).lemma_view_iff(q);
                        }
                    }
                    assert forall|q: (int, int)|
                        old(self)@.insert(pos@).contains(q) implies self@.contains(q) by {
                        if q == pos@ {
                            assert(self.cells@[pre.len() as int]@ == q);
                        } else {
                            old(self).lemma_view_iff(q);
                            let n: int = choose|n: int| 0 <= n < pre.len() && (#[trigger] pre[n])@ == q;
                            assert(self.cells@[n]@ == q);
                        }
                        self.lemma_view_iff(q);
                    }
                    assert(self@ =~= toggled(old(self)@, pos@));
                }
            },
        }
    }
}

/// The 8 Moore-neighborhood cells of `pos`, in scan order.
fn neighbor_cells(pos: &Cell) -> (r: Vec<Cell>)
    requires
        coord_in_interior(pos@),
    ensures
        r@.len() == 8,
        forall|i: int| 0 <= i < 8 ==> (#[trigger] r@[i])@ == nbr_at(pos@, i),
{
    let x: i64 = pos.x;
    let y: i64 = pos.y;
    let mut v: Vec<Cell> = Vec::new();
    v.push(Cell { x: x - 1, y: y - 1 });
    v.push(Cell { x, y: y - 1 });
    v.push(Cell { x: x + 1, y: y - 1 });
    v.push(Cell { x: x - 1, y });
    v.push(Cell { x: x + 1, y });
    v.push(Cell { x: x - 1, y: y + 1 });
    v.push(Cell { x, y: y + 1 });
    v.push(Cell { x: x + 1, y: y + 1 });
    v
}

impl LifeGrid {
    /// Scan the 8 Moore neighbors of `pos` against the current live
    /// set: how many are live, and which positions are dead. The dead
    /// positions are the candidates for birth around `pos`.
    pub fn neighbors_of(&self, pos: Cell) -> (r: (usize, Vec<Cell>))
        requires
            coord_in_interior(pos@),
        ensures
            r.0 == live_neighbor_count(self@, pos@),
            views_of(r.1@) == dead_upto(self@, pos@, 8),
    {
        let ns = neighbor_cells(&pos);
        let mut count: usize = 0;
        let mut dead: Vec<Cell> = Vec::new();
        let mut i: usize = 0;
        while i < 8
            invariant
                i <= 8,
                ns@.len() == 8,
                forall|j: int| 0 <= j < 8 ==> (#[trigger] ns@[j])@ == nbr_at(pos@, j),
                count <= i,
                count == count_upto(self@, pos@, i as int),
                views_of(dead@) == dead_upto(self@, pos@, i as int),
            decreases 8 - i,
        {
            let c = ns[i];
            if self.is_alive(c) {
                count += 1;
            } else {
                let ghost pre = dead@;
                dead.push(c);
                proof {
                    assert(views_of(dead@) =~= views_of(pre).push(c@));
                }
            }
            i += 1;
        }
        proof {
            lemma_count_upto_full(self@, pos@);
        }
        (count, dead)
    }

    /// The live-neighbor count of an arbitrary representable position.
    /// A neighbor position that falls outside the representable range
    /// cannot be live, since every live position is a cell's view.
    fn live_count_at(&self, pos: &Cell) -> (r: usize)
        ensures
            r == live_neighbor_count(self@, pos@),
    {
        let x: i64 = pos.x;
        let y: i64 = pos.y;
        let ghost s = self@;
        let ghost p = pos@;
        let mut count: usize = 0;
        assert(count == count_upto(s, p, 0));
        if x > i64::MIN && y > i64::MIN {
            if self.is_alive(Cell { x: x - 1, y: y - 1 }) {
                count += 1;
            }
        } else {
            proof {
                self.lemma_view_in_range(nbr_at(p, 0));
            }
        }
        assert(count == count_upto(s, p, 1));
        if y > i64::MIN {
            if self.is_alive(Cell { x, y: y - 1 }) {
                count += 1;
            }
        } else {
            proof {
                self.lemma_view_in_range(nbr_at(p, 1));
            }
        }
        assert(count == count_upto(s, p, 2));
        if x < i64::MAX && y > i64::MIN {
            if self.is_alive(Cell { x: x + 1, y: y - 1 }) {
                count += 1;
            }
        } else {
            proof {
                self.lemma_view_in_range(nbr_at(p, 2));
            }
        }
        assert(count == count_upto(s, p, 3));
        if x > i64::MIN {
            if self.is_alive(Cell { x: x - 1, y }) {
                count += 1;
            }
        } else {
            proof {
                self.lemma_view_in_range(nbr_at(p, 3));
            }
        }
        assert(count == count_upto(s, p, 4));
        if x < i64::MAX {
            if self.is_alive(Cell { x: x + 1, y }) {
                count += 1;
            }
        } else {
            proof {
                self.lemma_view_in_range(nbr_at(p, 4));
            }
        }
        assert(count == count_upto(s, p, 5));
        if x > i64::MIN && y < i64::MAX {
            if self.is_alive(Cell { x: x - 1, y: y + 1 }) {
                count += 1;
            }
        } else {
            proof {
                self.lemma_view_in_range(nbr_at(p, 5));
            }
        }
        assert(count == count_upto(s, p, 6));
        if y < i64::MAX {
            if self.is_alive(Cell { x, y: y + 1 }) {
                count += 1;
            }
        } else {
            proof {
                self.lemma_view_in_range(nbr_at(p, 6));
            }
        }
        assert(count == count_upto(s, p, 7));
        if x < i64::MAX && y < i64::MAX {
            if self.is_alive(Cell { x: x + 1, y: y + 1 }) {
                count += 1;
            }
        } else {
            proof {
                self.lemma_view_in_range(nbr_at(p, 7));
            }
        }
        assert(count == count_upto(s, p, 8));
        proof {
            lemma_count_upto_full(s, p);
        }
        count
    }

    /// Advance the simulation by exactly one generation of Conway's
    /// rule. The whole next generation is computed against the set as
    /// it was on entry, then installed at once: no intermediate state
    /// is ever observable.
    ///
    /// Only positions adjacent to a live cell can change state, so the
    /// scan visits each live cell and its 8 neighbors instead of any
    /// bounded board.
    pub fn step(&mut self)
        requires
            old(self).wf(),
            old(self).all_interior(),
        ensures
            final(self).wf(),
            final(self)@ == next_gen(old(self)@),
    {
        let ghost s = self@;
        let ghost cs = views_of(self.cells@);
        proof {
            assert forall|j: int| 0 <= j < cs.len() implies s.contains(#[trigger] cs[j]) by {
                assert(views_of(self.cells@).contains(cs[j]));
            }
            assert forall|i: int, j: int| 0 <= i < j < cs.len() implies cs[i] != cs[j] by {
                assert(self.cells@[i]@ == cs[i]);
                assert(self.cells@[j]@ == cs[j]);
            }
        }
        let n: usize = self.cells.len();
        let mut survivors: Vec<Cell> = Vec::new();
        let mut births: Vec<Cell> = Vec::new();
        proof {
            assert(views_of(survivors@) =~= survivors_upto(cs, s, 0));
        }
        let mut i: usize = 0;
        while i < n
            invariant
                i <= n,
                self.wf(),
                self.all_interior(),
                s == self@,
                cs == views_of(self.cells@),
                n == self.cells@.len(),
                cs.len() == n,
                forall|j: int| 0 <= j < cs.len() ==> s.contains(#[trigger] cs[j]),
                views_of(survivors@) == survivors_upto(cs, s, i as int),
                forall|m: int|
                    0 <= m < views_of(births@).len() ==> !s.contains(
                        #[trigger] views_of(births@)[m],
                    ) && live_neighbor_count(s, views_of(births@)[m]) == 3,
                forall|m1: int, m2: int|
                    0 <= m1 < m2 < views_of(births@).len() ==> views_of(births@)[m1]
                        != views_of(births@)[m2],
                forall|j: int, t: int|
                    0 <= j < i && 0 <= t < 8 && !s.contains(#[trigger] nbr_at(cs[j], t))
                        && live_neighbor_count(s, nbr_at(cs[j], t)) == 3 ==> views_of(
                        births@,
                    ).contains(nbr_at(cs[j], t)),
            decreases n - i,
        {
            let c = self.cells[i];
            proof {
                assert(self.cells@[i as int]@ == cs[i as int]);
                assert(s.contains(cs[i as int]));
            }
            let (cnt, dead_list) = self.neighbors_of(c);
            if cnt == 2 || cnt == 3 {
                let ghost pre = survivors@;
                survivors.push(c);
                proof {
                    assert(views_of(survivors@) =~= views_of(pre).push(c@));
                }
            }
            proof {
                lemma_dead_upto_sound(s, c@, 8);
            }
            let dn: usize = dead_list.len();
            let mut m: usize = 0;
            while m < dn
                invariant
                    m <= dn,
                    0 <= i < n,
                    s == self@,
                    cs == views_of(self.cells@),
                    n == self.cells@.len(),
                    cs.len() == n,
                    c@ == cs[i as int],
                    dn == dead_list@.len(),
                    views_of(dead_list@) == dead_upto(s, c@, 8),
                    forall|mm: int|
                        0 <= mm < dead_upto(s, c@, 8).len() ==> !s.contains(
                            #[trigger] dead_upto(s, c@, 8)[mm],
                        ) && is_neighbor(c@, dead_upto(s, c@, 8)[mm]),
                    views_of(survivors@) == survivors_upto(cs, s, i + 1),
                    forall|mm: int|
                        0 <= mm < views_of(births@).len() ==> !s.contains(
                            #[trigger] views_of(births@)[mm],
                        ) && live_neighbor_count(s, views_of(births@)[mm]) == 3,
                    forall|m1: int, m2: int|
                        0 <= m1 < m2 < views_of(births@).len() ==> views_of(births@)[m1]
                            != views_of(births@)[m2],
                    forall|j: int, t: int|
                        0 <= j < i && 0 <= t < 8 && !s.contains(#[trigger] nbr_at(cs[j], t))
                            && live_neighbor_count(s, nbr_at(cs[j], t)) == 3 ==> views_of(
                            births@,
                        ).contains(nbr_at(cs[j], t)),
                    forall|mm: int|
                        0 <= mm < m && live_neighbor_count(
                            s,
                            #[trigger] views_of(dead_list@)[mm],
                        ) == 3 ==> views_of(births@).contains(views_of(dead_list@)[mm]),
                decreases dn - m,
            {
                let cand = dead_list[m];
                proof {
                    assert(views_of(dead_list@)[m as int] == cand@);
                    assert(!s.contains(cand@));
                }
                let bcnt: usize = self.live_count_at(&cand);
                if bcnt == 3 {
                    let already = find_in(&births, &cand);
                    proof {
                        if let Some(k) = already {
                            assert(views_of(births@)[k as int] == cand@);
                            assert(views_of(births@).contains(cand@));
                        }
                    }
                    if already.is_none() {
                        let ghost pre = births@;
                        births.push(cand);
                        proof {
                            assert(views_of(births@) =~= views_of(pre).push(cand@));
                            assert(views_of(births@)[pre.len() as int] == cand@);
                            assert(views_of(births@).contains(cand@));
                            assert forall|m1: int, m2: int|
                                0 <= m1 < m2 < views_of(births@).len() implies views_of(
                                births@,
                            )[m1] != views_of(births@)[m2] by {
                                if m2 == pre.len() as int {
                                    assert(views_of(births@)[m1] == views_of(pre)[m1]);
                                    assert(pre[m1]@ != cand@);
                                }
                            }
                        }
                    }
                }
                m += 1;
            }
            proof {
                assert forall|t: int|
                    0 <= t < 8 && !s.contains(#[trigger] nbr_at(cs[i as int], t))
                        && live_neighbor_count(s, nbr_at(cs[i as int], t)) == 3 implies views_of(
                    births@,
                ).contains(nbr_at(cs[i as int], t)) by {
                    lemma_dead_upto_complete(s, cs[i as int], 8, t);
                    let q = nbr_at(cs[i as int], t);
                    let mm: int = choose|mm: int|
                        0 <= mm < dead_upto(s, c@, 8).len() && dead_upto(s, c@, 8)[mm] == q;
                    assert(views_of(dead_list@)[mm] == q);
                    assert(live_neighbor_count(s, views_of(dead_list@)[mm]) == 3);
                }
            }
            i += 1;
        }
        let ghost sv = survivors_upto(cs, s, n as int);
        let ghost bv = views_of(births@);
        let mut result = survivors;
        let ghost rpre = result@;
        result.append(&mut births);
        proof {
            assert(views_of(result@) =~= views_of(rpre) + bv);
        }
        self.cells = result;
        proof {
            let rv = views_of(self.cells@);
            assert(rv == sv + bv);
            lemma_survivors_sound(cs, s, n as int);
            lemma_survivors_nodup(cs, s, n as int);
            // No position is held twice: survivors are pairwise
            // distinct, births are pairwise distinct, and no birth is a
            // survivor since births are dead in `s`.
            assert forall|a: int, b: int|
                0 <= a < b < self.cells@.len() implies (#[trigger] self.cells@[a])@ != (
                #[trigger] self.cells@[b])@ by {
                assert(self.cells@[a]@ == rv[a]);
                assert(self.cells@[b]@ == rv[b]);
                if a < sv.len() && b >= sv.len() {
                    assert(rv[b] == bv[b - sv.len()]);
                    assert(s.contains(rv[a]));
                    assert(!s.contains(rv[b]));
                } else if a >= sv.len() {
                    assert(rv[a] == bv[a - sv.len()]);
                    assert(rv[b] == bv[b - sv.len()]);
                }
            }
            // Everything held is in the next generation.
            assert forall|p: (int, int)| self@.contains(p) implies next_gen(s).contains(p) by {
                self.lemma_view_iff(p);
                let idx: int = choose|idx: int|
                    0 <= idx < self.cells@.len() && (#[trigger] self.cells@[idx])@ == p;
                assert(rv[idx] == p);
                if idx >= sv.len() {
                    assert(rv[idx] == bv[idx - sv.len()]);
                }
            }
            // Everything in the next generation is held.
            assert forall|p: (int, int)| next_gen(s).contains(p) implies self@.contains(p) by {
                if s.contains(p) {
                    let j: int = choose|j: int| 0 <= j < cs.len() && #[trigger] cs[j] == p;
                    lemma_survivors_complete(cs, s, n as int, j);
                    let m0: int = choose|m0: int| 0 <= m0 < sv.len() && #[trigger] sv[m0] == p;
                    assert(rv[m0] == p);
                    assert(self.cells@[m0]@ == p);
                    self.lemma_view_iff(p);
                } else {
                    lemma_count_pos_has_witness(s, p);
                    let t: int = choose|t: int| 0 <= t < 8 && s.contains(#[trigger] nbr_at(p, t));
                    let q = nbr_at(p, t);
                    lemma_nbr_at_is_neighbor(p, t);
                    lemma_neighbor_has_index(q, p);
                    let u: int = choose|u: int| 0 <= u < 8 && #[trigger] nbr_at(q, u) == p;
                    let j: int = choose|j: int| 0 <= j < cs.len() && #[trigger] cs[j] == q;
                    assert(nbr_at(cs[j], u) == p);
                    assert(bv.contains(p));
                    let mb: int = choose|mb: int| 0 <= mb < bv.len() && #[trigger] bv[mb] == p;
                    assert(rv[sv.len() + mb] == p);
                    assert(self.cells@[sv.len() + mb]@ == p);
                    self.lemma_view_iff(p);
                }
            }
            assert(self@ =~= next_gen(s));
        }
    }
}

/// Toggling the same position twice restores the original live set, and
/// with it the original liveness of that position.
pub proof fn lemma_toggle_twice(s: Set<(int, int)>, p: (int, int))
    ensures
        toggled(toggled(s, p), p) == s,
{
    assert(toggled(toggled(s, p), p) =~= s);
}

} // verus!
