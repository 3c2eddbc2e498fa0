//! The deterministic greedy constructor: repeatedly take the available point
//! farthest from the centroid of the points selected so far (of all points, at
//! the start).
use vstd::prelude::*;
use crate::center::{
    calculate_center, center_gap, col_sums, first_max, first_max_index, gaps, gaps_to, ints,
    sums_int, MAX_SUM,
};
use crate::instance::ProblemInstance;
use crate::point::{coords_bounded, Point};
use crate::pool::{copy_points, lemma_split_move, split_of};
use crate::solution::{uniform, views, ProblemSolution, MAX_POINTS};
use crate::solver::{solution_for, ProblemSolver};

verus! {

/// The points that the greedy constructor selects, `steps` more of them, from
/// the available points `avail`, given the selection `sol` made so far.
pub open spec fn greedy_run(
    all: Seq<Seq<i64>>,
    d: nat,
    avail: Seq<Seq<i64>>,
    sol: Seq<Seq<i64>>,
    steps: nat,
) -> Seq<Seq<i64>>
    decreases steps,
{
    if steps == 0 || avail.len() == 0 {
        sol
    } else {
        let group = if sol.len() == 0 {
            all
        } else {
            sol
        };
        let j = first_max(gaps(avail, group, d));
        greedy_run(all, d, avail.remove(j), sol.push(avail[j]), (steps - 1) as nat)
    }
}

/// The group whose centroid guides the next choice: the selection, or every
/// point while nothing is selected.
pub open spec fn guide(all: Seq<Seq<i64>>, sol: Seq<Seq<i64>>) -> Seq<Seq<i64>> {
    if sol.len() == 0 {
        all
    } else {
        sol
    }
}

/// Centroid sums in range.
pub open spec fn sums_bounded(c: Seq<i64>) -> bool {
    forall|i: int| 0 <= i < c.len() ==> -MAX_SUM <= #[trigger] c[i] <= MAX_SUM
}

/// Removes from `available` the point farthest from the centroid `center / count`
/// (the first such point, in order) and returns it.
pub fn get_furthest_point(
    available: &mut Vec<Point>,
    center: &Vec<i64>,
    count: usize,
    dimensionality: usize,
) -> (r: Point)
    requires
        old(available)@.len() > 0,
        old(available)@.len() <= MAX_POINTS,
        uniform(views(old(available)@), dimensionality as nat),
        center@.len() == dimensionality,
        sums_bounded(center@),
        count <= MAX_POINTS,
    ensures
        ({
            let j = first_max(gaps_to(views(old(available)@), sums_int(center@), count as int));
            &&& 0 <= j < old(available)@.len()
            &&& r@ == views(old(available)@)[j]
            &&& views(final(available)@) == views(old(available)@).remove(j)
        }),
{
    let ghost av = views(available@);
    let ghost target = gaps_to(av, sums_int(center@), count as int);
    let mut vals: Vec<i128> = Vec::new();
    let mut i: usize = 0;
    while i < available.len()
        invariant
            av == views(available@),
            target == gaps_to(av, sums_int(center@), count as int),
            uniform(av, dimensionality as nat),
            center@.len() == dimensionality,
            sums_bounded(center@),
            count <= MAX_POINTS,
            i <= available@.len(),
            vals@.len() == i,
            ints(vals@) =~= target.take(i as int),
        decreases available@.len() - i,
    {
        assert(coords_bounded(av[i as int]));
        let g = center_gap(&available[i], center, count);
        assert(av[i as int] == available@[i as int]@);
        assert((g as i128) as int == target[i as int]);
        let ghost before = vals@;
        vals.push(g as i128);
        proof {
            assert forall|k: int| 0 <= k < i + 1 implies ints(vals@)[k] == target.take(i as int + 1)[k] by {
                if k < i {
                    assert(vals@[k] == before[k]);
                    assert(ints(before)[k] == target.take(i as int)[k]);
                }
            }
            assert(ints(vals@) =~= target.take(i as int + 1));
        }
        i = i + 1;
    }
    assert(target.take(available@.len() as int) =~= target);
    let j = first_max_index(&vals);
    let r = available.remove(j);
    assert(views(available@) =~= av.remove(j as int));
    r
}

/// The deterministic greedy constructor.
pub struct GreedySolver {
    number_of_points: usize,
}

impl GreedySolver {
    /// The number of points of the solutions it builds.
    pub closed spec fn size(&self) -> nat {
        self.number_of_points as nat
    }

    /// A solver whose solutions have `number_of_points` points.
    pub fn new(number_of_points: usize) -> (r: Self)
        ensures
            r.size() == number_of_points,
    {
        GreedySolver { number_of_points }
    }

    /// The greedy selection of `size()` points, in the order of selection.
    pub fn construct(&self, instance: &ProblemInstance) -> (r: ProblemSolution)
        requires
            instance.wf(),
            self.size() <= instance@.len(),
        ensures
            r@ == greedy_run(
                instance@,
                instance.dimensionality as nat,
                instance@,
                Seq::empty(),
                self.size(),
            ),
            r@.len() == self.size(),
            solution_for(instance, &r),
    {
        let m = self.number_of_points;
        let d = instance.dimensionality;
        let ghost all = instance@;
        let ghost dn = d as nat;
        let mut avail = copy_points(&instance.points);
        let mut sol: Vec<Point> = Vec::new();
        let mut center = calculate_center(&instance.points, d);
        let mut count: usize = instance.points.len();
        proof {
            assert(views(sol@) =~= Seq::<Seq<i64>>::empty());
            assert(sums_int(center@) =~= col_sums(all, dn));
        }
        while sol.len() < m
            invariant
                instance.wf(),
                all == instance@,
                dn == d,
                d == instance.dimensionality,
                m == self.size(),
                m <= all.len(),
                sol@.len() <= m,
                split_of(all, views(avail@), views(sol@)),
                uniform(views(avail@), dn),
                uniform(views(sol@), dn),
                center@.len() == d,
                sums_bounded(center@),
                sums_int(center@) == col_sums(guide(all, views(sol@)), dn),
                count == guide(all, views(sol@)).len(),
                greedy_run(all, dn, views(avail@), views(sol@), (m - sol@.len()) as nat)
                    == greedy_run(all, dn, all, Seq::empty(), m as nat),
            decreases m - sol@.len(),
        {
            let ghost av = views(avail@);
            let ghost sv = views(sol@);
            let ghost j = first_max(gaps(av, guide(all, sv), dn));
            let p = get_furthest_point(&mut avail, &center, count, d);
            proof {
                lemma_split_move(all, av, sv, j, dn);
            }
            sol.push(p);
            proof {
                assert(views(sol@) =~= sv.push(av[j]));
            }
            center = calculate_center(&sol, d);
            count = sol.len();
            proof {
                assert(sums_int(center@) =~= col_sums(views(sol@), dn));
            }
        }
        proof {
            let sv = views(sol@);
            assert forall|i: int| 0 <= i < sv.len() implies all.contains(#[trigger] sv[i]) by {
                assert(sv.contains(sv[i]));
            }
        }
        let r = ProblemSolution { points: sol };
        proof {
            if r.points@.len() > 0 {
                assert(r@[0].len() == dn);
            }
            assert(uniform(r@, r.dim()));
        }
        r
    }
}

impl ProblemSolver for GreedySolver {
    open spec fn accepts(&self, instance: &ProblemInstance) -> bool {
        self.size() <= instance@.len()
    }

    open spec fn produces(&self, instance: &ProblemInstance, s: Seq<Seq<i64>>) -> bool {
        s == greedy_run(instance@, instance.dimensionality as nat, instance@, Seq::empty(), self.size())
    }

    fn solve(&mut self, instance: &ProblemInstance) -> (r: ProblemSolution)
        ensures
            r@ == greedy_run(
                instance@,
                instance.dimensionality as nat,
                instance@,
                Seq::empty(),
                old(self).size(),
            ),
            r@.len() == old(self).size(),
    {
        self.construct(instance)
    }
}

} // verus!
