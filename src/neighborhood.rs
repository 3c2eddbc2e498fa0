//! The swap neighbourhood of a solution: take out the point at one position and
//! put at the end a point of the instance that the solution does not hold.
use vstd::prelude::*;
use std::collections::VecDeque;
use crate::instance::ProblemInstance;
use crate::point::{coords_bounded, Point};
use crate::pool::contains_point;
use crate::solution::{diversity, uniform, views, ProblemSolution, MAX_POINTS};
use crate::solver::{selection_of, solution_for};

verus! {

/// Which entering points a move may use, with respect to a tabu memory.
#[derive(Clone, Copy, PartialEq, Eq, Structural)]
pub enum MoveFilter {
    /// Any point outside the solution.
    Any,
    /// Points outside the solution that are not in the memory.
    AvoidTabu,
    /// Points outside the solution that are in the memory.
    OnlyTabu,
}

/// The solution after replacing the point at position `i` with `p` (put at the end).
pub open spec fn swapped(s: Seq<Seq<i64>>, i: int, p: Seq<i64>) -> Seq<Seq<i64>> {
    s.remove(i).push(p)
}

/// Point `p` may enter `s` under the filter.
pub open spec fn may_enter(s: Seq<Seq<i64>>, tabu: Seq<Seq<i64>>, filter: MoveFilter, p: Seq<i64>) -> bool {
    &&& !s.contains(p)
    &&& match filter {
        MoveFilter::Any => true,
        MoveFilter::AvoidTabu => !tabu.contains(p),
        MoveFilter::OnlyTabu => tabu.contains(p),
    }
}

/// Taking out position `i` of `s` and bringing in point `k` of `inst` is a move.
pub open spec fn is_move(
    inst: Seq<Seq<i64>>,
    s: Seq<Seq<i64>>,
    tabu: Seq<Seq<i64>>,
    filter: MoveFilter,
    i: int,
    k: int,
) -> bool {
    &&& 0 <= i < s.len()
    &&& 0 <= k < inst.len()
    &&& may_enter(s, tabu, filter, inst[k])
}

/// The diversity after a move.
pub open spec fn move_value(inst: Seq<Seq<i64>>, s: Seq<Seq<i64>>, i: int, k: int) -> int {
    diversity(swapped(s, i, inst[k]))
}

/// Move `(i1, k1)` is evaluated before move `(i2, k2)`: by position, then by point.
pub open spec fn earlier(i1: int, k1: int, i2: int, k2: int) -> bool {
    i1 < i2 || (i1 == i2 && k1 < k2)
}

/// `(i, k)` is the best move: no move gives more, and every earlier move gives less.
pub open spec fn is_best_move(
    inst: Seq<Seq<i64>>,
    s: Seq<Seq<i64>>,
    tabu: Seq<Seq<i64>>,
    filter: MoveFilter,
    i: int,
    k: int,
) -> bool {
    &&& is_move(inst, s, tabu, filter, i, k)
    &&& forall|i2: int, k2: int| #[trigger] is_move(inst, s, tabu, filter, i2, k2)
        ==> move_value(inst, s, i2, k2) <= move_value(inst, s, i, k)
    &&& forall|i2: int, k2: int| #[trigger] is_move(inst, s, tabu, filter, i2, k2) && earlier(i2, k2, i, k)
        ==> move_value(inst, s, i2, k2) < move_value(inst, s, i, k)
}

/// The solution and entering point of the best move, if there is a move.
pub open spec fn best_move(
    inst: Seq<Seq<i64>>,
    s: Seq<Seq<i64>>,
    tabu: Seq<Seq<i64>>,
    filter: MoveFilter,
) -> Option<(Seq<Seq<i64>>, Seq<i64>)> {
    if exists|i: int, k: int| is_best_move(inst, s, tabu, filter, i, k) {
        let (i, k) = choose|i: int, k: int| is_best_move(inst, s, tabu, filter, i, k);
        Some((swapped(s, i, inst[k]), inst[k]))
    } else {
        None
    }
}

/// There is at most one best move.
pub proof fn lemma_best_move_unique(
    inst: Seq<Seq<i64>>,
    s: Seq<Seq<i64>>,
    tabu: Seq<Seq<i64>>,
    filter: MoveFilter,
    i: int,
    k: int,
)
    requires
        is_best_move(inst, s, tabu, filter, i, k),
    ensures
        best_move(inst, s, tabu, filter) == Some((swapped(s, i, inst[k]), inst[k])),
{
    let (i2, k2) = choose|i2: int, k2: int| is_best_move(inst, s, tabu, filter, i2, k2);
    assert(is_move(inst, s, tabu, filter, i2, k2));
    assert(is_move(inst, s, tabu, filter, i, k));
    if earlier(i2, k2, i, k) {
        assert(move_value(inst, s, i2, k2) < move_value(inst, s, i, k));
    } else if earlier(i, k, i2, k2) {
        assert(move_value(inst, s, i, k) < move_value(inst, s, i2, k2));
    }
    assert(i == i2 && k == k2);
}

/// A move keeps a selection of the instance a selection of the same size.
pub proof fn lemma_move_selection(
    inst: Seq<Seq<i64>>,
    s: Seq<Seq<i64>>,
    tabu: Seq<Seq<i64>>,
    filter: MoveFilter,
    i: int,
    k: int,
)
    requires
        selection_of(inst, s),
        is_move(inst, s, tabu, filter, i, k),
    ensures
        selection_of(inst, swapped(s, i, inst[k])),
        swapped(s, i, inst[k]).len() == s.len(),
{
    let r = swapped(s, i, inst[k]);
    let a2 = s.remove(i);
    assert forall|a: int| 0 <= a < a2.len() implies #[trigger] a2[a] == s[if a < i { a } else { a + 1 }] by {}
    assert forall|a: int, b: int| 0 <= a < b < r.len() implies r[a] != r[b] by {
        if b == r.len() - 1 {
            let a1 = if a < i { a } else { a + 1 };
            assert(r[a] == s[a1]);
            assert(s.contains(s[a1]));
        } else {
            let a1 = if a < i { a } else { a + 1 };
            let b1 = if b < i { b } else { b + 1 };
            assert(r[a] == s[a1]);
            assert(r[b] == s[b1]);
        }
    }
    assert forall|a: int| 0 <= a < r.len() implies inst.contains(#[trigger] r[a]) by {
        if a == r.len() - 1 {
            assert(inst.contains(inst[k]));
        } else {
            let a1 = if a < i { a } else { a + 1 };
            assert(r[a] == s[a1]);
        }
    }
}

/// The solution with the point at `index` taken out and `point_to_swap` put at the end.
pub fn get_solution_after_swap(solution: &ProblemSolution, index: usize, point_to_swap: &Point) -> (r: ProblemSolution)
    requires
        index < solution.points@.len(),
        solution.points@.len() <= MAX_POINTS,
        uniform(solution@, point_to_swap@.len()),
        coords_bounded(point_to_swap@),
    ensures
        r@ == swapped(solution@, index as int, point_to_swap@),
        r.wf(),
        uniform(r@, point_to_swap@.len()),
{
    let mut r = solution.duplicate();
    r.points.remove(index);
    r.points.push(point_to_swap.duplicate());
    assert(r@ =~= swapped(solution@, index as int, point_to_swap@));
    proof {
        let d = point_to_swap@.len();
        assert forall|a: int| 0 <= a < r@.len() implies coords_bounded(#[trigger] r@[a]) && r@[a].len() == d by {
            if a < r@.len() - 1 {
                let a1 = if a < index { a } else { a + 1 };
                assert(r@[a] == solution@[a1]);
            }
        }
        assert(r@[0].len() == d);
    }
    r
}

/// Whether the point may enter the solution under the filter.
fn may_enter_exec(solution: &ProblemSolution, tabu: &VecDeque<Point>, filter: MoveFilter, p: &Point) -> (r: bool)
    ensures
        r == may_enter(solution@, views(tabu@), filter, p@),
{
    if contains_point(&solution.points, p) {
        return false;
    }
    match filter {
        MoveFilter::Any => true,
        MoveFilter::AvoidTabu => !deque_contains(tabu, p),
        MoveFilter::OnlyTabu => deque_contains(tabu, p),
    }
}

/// Whether the memory holds a point with the coordinates of `p`.
pub fn deque_contains(tabu: &VecDeque<Point>, p: &Point) -> (r: bool)
    ensures
        r == views(tabu@).contains(p@),
{
    let ghost v = views(tabu@);
    let mut i: usize = 0;
    while i < tabu.len()
        invariant
            v == views(tabu@),
            i <= tabu@.len(),
            forall|k: int| 0 <= k < i ==> v[k] != p@,
        decreases tabu@.len() - i,
    {
        if tabu[i].same_as(p) {
            assert(v[i as int] == p@);
            return true;
        }
        i = i + 1;
    }
    false
}

/// The best move of the neighbourhood under the filter, as the solution it gives
/// and the point that enters; `None` when there is no move.
pub fn best_swap(
    instance: &ProblemInstance,
    solution: &ProblemSolution,
    tabu: &VecDeque<Point>,
    filter: MoveFilter,
) -> (r: Option<(ProblemSolution, Point)>)
    requires
        instance.wf(),
        solution_for(instance, solution),
    ensures
        r is None <==> !exists|i: int, k: int| is_move(instance@, solution@, views(tabu@), filter, i, k),
        r matches Some((sol, p)) ==> exists|i: int, k: int|
            is_best_move(instance@, solution@, views(tabu@), filter, i, k)
                && sol@ == swapped(solution@, i, instance@[k]) && p@ == instance@[k],
        r matches Some((sol, p)) ==> solution_for(instance, &sol) && sol@.len() == solution@.len(),
        r matches Some((sol, p)) ==> best_move(instance@, solution@, views(tabu@), filter) == Some((sol@, p@)),
        r is None ==> best_move(instance@, solution@, views(tabu@), filter) is None,
{
    let ghost inst = instance@;
    let ghost s = solution@;
    let ghost tv = views(tabu@);
    let ghost d = instance.dimensionality as nat;
    let m = solution.points.len();
    let n = instance.points.len();
    let mut best: Option<(ProblemSolution, Point)> = None;
    let mut best_z: u64 = 0;
    let ghost mut bi: int = 0;
    let ghost mut bk: int = 0;
    let mut i: usize = 0;
    while i < m
        invariant
            inst == instance@,
            s == solution@,
            tv == views(tabu@),
            d == instance.dimensionality,
            instance.wf(),
            solution_for(instance, solution),
            m == s.len(),
            n == inst.len(),
            i <= m,
            best is None <==> !exists|i2: int, k2: int| #[trigger] is_move(inst, s, tv, filter, i2, k2) && i2 < i,
            best matches Some((sol, p)) ==> {
                &&& is_move(inst, s, tv, filter, bi, bk)
                &&& bi < i
                &&& sol@ == swapped(s, bi, inst[bk])
                &&& p@ == inst[bk]
                &&& best_z == move_value(inst, s, bi, bk)
                &&& solution_for(instance, &sol)
                &&& sol@.len() == s.len()
                &&& forall|i2: int, k2: int| #[trigger] is_move(inst, s, tv, filter, i2, k2) && i2 < i
                    ==> move_value(inst, s, i2, k2) <= best_z
                &&& forall|i2: int, k2: int| #[trigger] is_move(inst, s, tv, filter, i2, k2) && earlier(i2, k2, bi, bk)
                    ==> move_value(inst, s, i2, k2) < best_z
            },
        decreases m - i,
    {
        let mut k: usize = 0;
        while k < n
            invariant
                inst == instance@,
                s == solution@,
                tv == views(tabu@),
                d == instance.dimensionality,
                instance.wf(),
                solution_for(instance, solution),
                m == s.len(),
                n == inst.len(),
                i < m,
                k <= n,
                best is None <==> !exists|i2: int, k2: int| #[trigger] is_move(inst, s, tv, filter, i2, k2) && earlier(i2, k2, i as int, k as int),
                best matches Some((sol, p)) ==> {
                    &&& is_move(inst, s, tv, filter, bi, bk)
                    &&& earlier(bi, bk, i as int, k as int)
                    &&& sol@ == swapped(s, bi, inst[bk])
                    &&& p@ == inst[bk]
                    &&& best_z == move_value(inst, s, bi, bk)
                    &&& solution_for(instance, &sol)
                    &&& sol@.len() == s.len()
                    &&& forall|i2: int, k2: int| #[trigger] is_move(inst, s, tv, filter, i2, k2) && earlier(i2, k2, i as int, k as int)
                        ==> move_value(inst, s, i2, k2) <= best_z
                    &&& forall|i2: int, k2: int| #[trigger] is_move(inst, s, tv, filter, i2, k2) && earlier(i2, k2, bi, bk)
                        ==> move_value(inst, s, i2, k2) < best_z
                },
            decreases n - k,
        {
            let q = &instance.points[k];
            assert(q@ == inst[k as int]);
            if may_enter_exec(solution, tabu, filter, q) {
                assert(is_move(inst, s, tv, filter, i as int, k as int));
                assert(coords_bounded(inst[k as int]));
                let cand = get_solution_after_swap(solution, i, q);
                proof {
                    lemma_move_selection(inst, s, tv, filter, i as int, k as int);
                }
                let z = cand.get_z();
                let better = match &best {
                    None => true,
                    Some(_) => z > best_z,
                };
                if better {
                    best = Some((cand, q.duplicate()));
                    best_z = z;
                    proof {
                        bi = i as int;
                        bk = k as int;
                    }
                }
            }
            k = k + 1;
        }
        i = i + 1;
    }
    proof {
        if best is None {
            assert forall|i2: int, k2: int| !is_move(inst, s, tv, filter, i2, k2) by {
                if is_move(inst, s, tv, filter, i2, k2) {
                    assert(i2 < i);
                }
            }
        }
        if best is Some {
            assert forall|i2: int, k2: int| #[trigger] is_move(inst, s, tv, filter, i2, k2)
                implies move_value(inst, s, i2, k2) <= move_value(inst, s, bi, bk) by {
                assert(i2 < i);
            }
            assert(is_best_move(inst, s, tv, filter, bi, bk));
            lemma_best_move_unique(inst, s, tv, filter, bi, bk);
        }
    }
    best
}

} // verus!
