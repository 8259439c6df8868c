//! The Game-of-Life update rule, stated over a mathematical set of live
//! positions, together with the laws that hold of it.

use vstd::prelude::*;
use crate::cell::{is_neighbor, lemma_nbr_at_is_neighbor, nbr_at};

verus! {

/// 1 if `q` is live in `s`, else 0.
pub open spec fn ind(s: Set<(int, int)>, q: (int, int)) -> int {
    if s.contains(q) {
        1
    } else {
        0
    }
}

/// How many of the 8 Moore neighbors of `p` are live in `s`.
pub open spec fn live_neighbor_count(s: Set<(int, int)>, p: (int, int)) -> int {
    ind(s, nbr_at(p, 0)) + ind(s, nbr_at(p, 1)) + ind(s, nbr_at(p, 2)) + ind(s, nbr_at(p, 3))
        + ind(s, nbr_at(p, 4)) + ind(s, nbr_at(p, 5)) + ind(s, nbr_at(p, 6)) + ind(
        s,
        nbr_at(p, 7),
    )
}

/// Conway's rule for one position: a live cell survives with exactly 2
/// or 3 live neighbors; a dead cell is born with exactly 3.
pub open spec fn in_next(s: Set<(int, int)>, p: (int, int)) -> bool {
    if s.contains(p) {
        live_neighbor_count(s, p) == 2 || live_neighbor_count(s, p) == 3
    } else {
        live_neighbor_count(s, p) == 3
    }
}

/// The generation that follows `s`: every position the rule keeps or
/// creates, computed simultaneously from the single snapshot `s`.
pub open spec fn next_gen(s: Set<(int, int)>) -> Set<(int, int)> {
    Set::new(|p: (int, int)| in_next(s, p))
}

/// A position with at least one live neighbor has a live neighbor in
/// its Moore neighborhood.
pub proof fn lemma_count_pos_has_witness(s: Set<(int, int)>, p: (int, int))
    requires
        live_neighbor_count(s, p) > 0,
    ensures
        exists|i: int| 0 <= i < 8 && s.contains(#[trigger] nbr_at(p, i)),
{
    if !(exists|i: int| 0 <= i < 8 && s.contains(#[trigger] nbr_at(p, i))) {
        assert(forall|i: int| 0 <= i < 8 ==> !s.contains(#[trigger] nbr_at(p, i)));
        assert(live_neighbor_count(s, p) == 0);
    }
}

/// A live cell with no live neighbors dies: isolation kills.
pub proof fn lemma_isolated_cell_dies(s: Set<(int, int)>, p: (int, int))
    requires
        s.contains(p),
        live_neighbor_count(s, p) == 0,
    ensures
        !next_gen(s).contains(p),
{
}

/// A live cell with 4 or more live neighbors dies: overcrowding kills.
pub proof fn lemma_overcrowded_cell_dies(s: Set<(int, int)>, p: (int, int))
    requires
        s.contains(p),
        live_neighbor_count(s, p) >= 4,
    ensures
        !next_gen(s).contains(p),
{
}

/// A dead cell joins the next generation exactly when it has 3 live
/// neighbors; in particular 2 or 4 live neighbors give no birth.
pub proof fn lemma_birth_rule(s: Set<(int, int)>, p: (int, int))
    requires
        !s.contains(p),
    ensures
        next_gen(s).contains(p) <==> live_neighbor_count(s, p) == 3,
{
}

/// How many of the first `k` Moore-neighborhood positions of `p` are
/// live in `s`: the running count of a neighborhood scan.
pub open spec fn count_upto(s: Set<(int, int)>, p: (int, int), k: int) -> int
    decreases k,
{
    if k <= 0 {
        0
    } else {
        count_upto(s, p, k - 1) + ind(s, nbr_at(p, k - 1))
    }
}

/// The dead positions among the first `k` Moore-neighborhood positions
/// of `p`, in scan order: the candidates a neighborhood scan collects.
pub open spec fn dead_upto(s: Set<(int, int)>, p: (int, int), k: int) -> Seq<(int, int)>
    decreases k,
{
    if k <= 0 {
        Seq::empty()
    } else if s.contains(nbr_at(p, k - 1)) {
        dead_upto(s, p, k - 1)
    } else {
        dead_upto(s, p, k - 1).push(nbr_at(p, k - 1))
    }
}

/// A full scan of the 8 neighbors yields the neighbor count.
pub proof fn lemma_count_upto_full(s: Set<(int, int)>, p: (int, int))
    ensures
        count_upto(s, p, 8) == live_neighbor_count(s, p),
{
    assert(count_upto(s, p, 0) == 0);
    assert(count_upto(s, p, 1) == count_upto(s, p, 0) + ind(s, nbr_at(p, 0)));
    assert(count_upto(s, p, 2) == count_upto(s, p, 1) + ind(s, nbr_at(p, 1)));
    assert(count_upto(s, p, 3) == count_upto(s, p, 2) + ind(s, nbr_at(p, 2)));
    assert(count_upto(s, p, 4) == count_upto(s, p, 3) + ind(s, nbr_at(p, 3)));
    assert(count_upto(s, p, 5) == count_upto(s, p, 4) + ind(s, nbr_at(p, 4)));
    assert(count_upto(s, p, 6) == count_upto(s, p, 5) + ind(s, nbr_at(p, 5)));
    assert(count_upto(s, p, 7) == count_upto(s, p, 6) + ind(s, nbr_at(p, 6)));
    assert(count_upto(s, p, 8) == count_upto(s, p, 7) + ind(s, nbr_at(p, 7)));
}

/// Everything a scan collects is a dead neighbor of the scanned cell.
pub proof fn lemma_dead_upto_sound(s: Set<(int, int)>, p: (int, int), k: int)
    requires
        k <= 8,
    ensures
        forall|m: int|
            0 <= m < dead_upto(s, p, k).len() ==> !s.contains(#[trigger] dead_upto(s, p, k)[m])
                && is_neighbor(p, dead_upto(s, p, k)[m]),
    decreases k,
{
    if k > 0 {
        lemma_dead_upto_sound(s, p, k - 1);
        lemma_nbr_at_is_neighbor(p, k - 1);
        let prev = dead_upto(s, p, k - 1);
        assert forall|m: int|
            0 <= m < dead_upto(s, p, k).len() implies !s.contains(
            #[trigger] dead_upto(s, p, k)[m],
        ) && is_neighbor(p, dead_upto(s, p, k)[m]) by {
            if !s.contains(nbr_at(p, k - 1)) && m < prev.len() {
                assert(dead_upto(s, p, k)[m] == prev[m]);
            }
        }
    }
}

/// A scan misses no dead neighbor: every dead position of the scanned
/// prefix of the neighborhood is collected.
pub proof fn lemma_dead_upto_complete(s: Set<(int, int)>, p: (int, int), k: int, i: int)
    requires
        0 <= i < k,
        !s.contains(nbr_at(p, i)),
    ensures
        dead_upto(s, p, k).contains(nbr_at(p, i)),
    decreases k,
{
    broadcast use vstd::seq_lib::lemma_seq_contains_after_push;

    if i == k - 1 {
        assert(dead_upto(s, p, k) == dead_upto(s, p, k - 1).push(nbr_at(p, k - 1)));
    } else {
        lemma_dead_upto_complete(s, p, k - 1, i);
    }
}

/// The live positions among the first `k` scanned positions of `cs`
/// that the rule keeps alive, in scan order.
pub open spec fn survivors_upto(cs: Seq<(int, int)>, s: Set<(int, int)>, k: int) -> Seq<
    (int, int),
>
    decreases k,
{
    if k <= 0 {
        Seq::empty()
    } else if live_neighbor_count(s, cs[k - 1]) == 2 || live_neighbor_count(s, cs[k - 1]) == 3 {
        survivors_upto(cs, s, k - 1).push(cs[k - 1])
    } else {
        survivors_upto(cs, s, k - 1)
    }
}

/// Every kept position is live and has 2 or 3 live neighbors.
pub proof fn lemma_survivors_sound(cs: Seq<(int, int)>, s: Set<(int, int)>, k: int)
    requires
        k <= cs.len(),
        forall|j: int| 0 <= j < cs.len() ==> s.contains(#[trigger] cs[j]),
    ensures
        forall|m: int|
            0 <= m < survivors_upto(cs, s, k).len() ==> s.contains(
                #[trigger] survivors_upto(cs, s, k)[m],
            ) && (live_neighbor_count(s, survivors_upto(cs, s, k)[m]) == 2
                || live_neighbor_count(s, survivors_upto(cs, s, k)[m]) == 3),
    decreases k,
{
    if k > 0 {
        lemma_survivors_sound(cs, s, k - 1);
        let prev = survivors_upto(cs, s, k - 1);
        assert forall|m: int| 0 <= m < survivors_upto(cs, s, k).len() implies s.contains(
            #[trigger] survivors_upto(cs, s, k)[m],
        ) && (live_neighbor_count(s, survivors_upto(cs, s, k)[m]) == 2 || live_neighbor_count(
            s,
            survivors_upto(cs, s, k)[m],
        ) == 3) by {
            if m < prev.len() {
                assert(survivors_upto(cs, s, k)[m] == prev[m]);
            }
        }
    }
}

/// The scan keeps every live position with 2 or 3 live neighbors: no
/// survivor is missed.
pub proof fn lemma_survivors_complete(cs: Seq<(int, int)>, s: Set<(int, int)>, k: int, j: int)
    requires
        0 <= j < k <= cs.len(),
        live_neighbor_count(s, cs[j]) == 2 || live_neighbor_count(s, cs[j]) == 3,
    ensures
        survivors_upto(cs, s, k).contains(cs[j]),
    decreases k,
{
    broadcast use vstd::seq_lib::lemma_seq_contains_after_push;

    if j == k - 1 {
        assert(survivors_upto(cs, s, k) == survivors_upto(cs, s, k - 1).push(cs[k - 1]));
    } else {
        lemma_survivors_complete(cs, s, k - 1, j);
    }
}

/// When the scanned positions are pairwise distinct, so are the kept
/// ones, and each kept position is one of the scanned ones.
pub proof fn lemma_survivors_nodup(cs: Seq<(int, int)>, s: Set<(int, int)>, k: int)
    requires
        k <= cs.len(),
        forall|i: int, j: int| 0 <= i < j < cs.len() ==> cs[i] != cs[j],
    ensures
        forall|m: int|
            0 <= m < survivors_upto(cs, s, k).len() ==> exists|j: int|
                0 <= j < k && #[trigger] cs[j] == #[trigger] survivors_upto(cs, s, k)[m],
        forall|m1: int, m2: int|
            0 <= m1 < m2 < survivors_upto(cs, s, k).len() ==> survivors_upto(cs, s, k)[m1]
                != survivors_upto(cs, s, k)[m2],
    decreases k,
{
    let sv = survivors_upto(cs, s, k);
    if k > 0 {
        lemma_survivors_nodup(cs, s, k - 1);
        let prev = survivors_upto(cs, s, k - 1);
        assert forall|m: int| #![trigger sv[m]] 0 <= m < sv.len() implies exists|j: int|
            0 <= j < k && #[trigger] cs[j] == sv[m] by {
            if m < prev.len() {
                assert(sv[m] == prev[m]);
                let j: int = choose|j: int| 0 <= j < k - 1 && #[trigger] cs[j] == prev[m];
                assert(cs[j] == sv[m]);
            } else {
                assert(sv[m] == cs[k - 1]);
            }
        }
        assert forall|m1: int, m2: int| 0 <= m1 < m2 < sv.len() implies sv[m1] != sv[m2] by {
            if m2 < prev.len() {
                assert(sv[m1] == prev[m1] && sv[m2] == prev[m2]);
            } else {
                assert(sv[m2] == cs[k - 1]);
                assert(sv[m1] == prev[m1]);
                let j: int = choose|j: int| 0 <= j < k - 1 && #[trigger] cs[j] == prev[m1];
                assert(cs[j] != cs[k - 1]);
            }
        }
    }
}

/// The empty grid is a fixed point of the rule.
pub proof fn lemma_empty_fixed_point()
    ensures
        next_gen(Set::<(int, int)>::empty()) == Set::<(int, int)>::empty(),
{
    assert forall|p: (int, int)| !next_gen(Set::<(int, int)>::empty()).contains(p) by {
        assert(live_neighbor_count(Set::<(int, int)>::empty(), p) == 0);
    }
    assert(next_gen(Set::<(int, int)>::empty()) =~= Set::<(int, int)>::empty());
}

} // verus!
