//! The randomized greedy constructor: at each step, a point drawn at random from
//! the restricted candidate list, the available points farthest from the centroid
//! of the selection (of all points, at the start).
use vstd::prelude::*;
use crate::center::{
    col_sums, gaps,
    calculate_center, center_gap, first_max, first_max_index, gaps_to, ints, lemma_first_max,
    lemma_scaled_gap_nonneg, sums_int,
};
use crate::greedy::{greedy_run, guide, sums_bounded};
use crate::instance::ProblemInstance;
use crate::point::{coords_bounded, Point};
use crate::pool::{copy_points, lemma_split_move, split_of};
use crate::solution::{uniform, views, ProblemSolution, MAX_POINTS};
use crate::solver::{solution_for, ProblemSolver};

verus! {

/// The values, with those at the positions in `taken` replaced by -1.
pub open spec fn masked(vals: Seq<int>, taken: Seq<int>) -> Seq<int> {
    Seq::new(vals.len(), |i: int| if taken.contains(i) { -1 } else { vals[i] })
}

/// The positions of the `k` largest values, by repeated removal of the first
/// largest of those not yet taken.
pub open spec fn rcl(vals: Seq<int>, k: nat) -> Seq<int>
    decreases k,
{
    if k == 0 {
        Seq::empty()
    } else {
        let r = rcl(vals, (k - 1) as nat);
        r.push(first_max(masked(vals, r)))
    }
}

/// For non-negative values, the list holds `k` distinct positions.
pub proof fn lemma_rcl(vals: Seq<int>, k: nat)
    requires
        k <= vals.len(),
        forall|i: int| 0 <= i < vals.len() ==> #[trigger] vals[i] >= 0,
    ensures
        rcl(vals, k).len() == k,
        rcl(vals, k).no_duplicates(),
        forall|i: int| 0 <= i < k ==> 0 <= #[trigger] rcl(vals, k)[i] < vals.len(),
    decreases k,
{
    if k > 0 {
        let r = rcl(vals, (k - 1) as nat);
        lemma_rcl(vals, (k - 1) as nat);
        let mv = masked(vals, r);
        // some position is not taken yet
        let free = choose|f: int| 0 <= f < vals.len() && !r.contains(f);
        assert(exists|f: int| 0 <= f < vals.len() && !r.contains(f)) by {
            let s = Set::new(|x: int| 0 <= x < vals.len());
            assert(r.to_set().subset_of(s));
            r.unique_seq_to_set();
            vstd::set_lib::lemma_int_range(0, vals.len() as int);
            assert(s =~= vstd::set_lib::set_int_range(0, vals.len() as int));
            if forall|f: int| 0 <= f < vals.len() ==> r.contains(f) {
                assert(s.subset_of(r.to_set()));
                vstd::set_lib::lemma_len_subset(s, r.to_set());
            }
        }
        lemma_first_max(mv);
        let j = first_max(mv);
        assert(mv[free] >= 0);
        assert(!r.contains(j));
        let r2 = r.push(j);
        assert forall|a: int, b: int| 0 <= a < b < r2.len() implies r2[a] != r2[b] by {
            if b == r.len() {
                assert(r.contains(r2[a]));
            }
        }
    }
}

/// The points that the randomized greedy constructor selects, `steps` more of
/// them, from the available points `avail`, given the selection `sol` made so
/// far: the draw `draws[|sol|]` picks within the restricted candidate list.
pub open spec fn randomized_run(
    all: Seq<Seq<i64>>,
    d: nat,
    avail: Seq<Seq<i64>>,
    sol: Seq<Seq<i64>>,
    draws: Seq<usize>,
    rcl_size: nat,
    steps: nat,
) -> Seq<Seq<i64>>
    decreases steps,
{
    if steps == 0 || avail.len() == 0 {
        sol
    } else {
        let k = if rcl_size <= avail.len() {
            rcl_size
        } else {
            avail.len()
        };
        let list = rcl(gaps(avail, guide(all, sol), d), k);
        let j = list[(draws[sol.len() as int] as nat % list.len()) as int];
        randomized_run(all, d, avail.remove(j), sol.push(avail[j]), draws, rcl_size, (steps - 1) as nat)
    }
}

/// With a candidate list of one point, every draw gives the greedy selection.
pub proof fn lemma_single_candidate_is_greedy(
    all: Seq<Seq<i64>>,
    d: nat,
    avail: Seq<Seq<i64>>,
    sol: Seq<Seq<i64>>,
    draws: Seq<usize>,
    steps: nat,
)
    ensures
        randomized_run(all, d, avail, sol, draws, 1, steps) == greedy_run(all, d, avail, sol, steps),
    decreases steps,
{
    if steps > 0 && avail.len() > 0 {
        let vals = gaps(avail, guide(all, sol), d);
        assert(rcl(vals, 0) =~= Seq::<int>::empty());
        assert(masked(vals, rcl(vals, 0)) =~= vals);
        let list = rcl(vals, 1);
        assert(list == rcl(vals, 0).push(first_max(masked(vals, rcl(vals, 0)))));
        assert(list =~= seq![first_max(vals)]);
        assert(draws[sol.len() as int] as nat % 1 == 0);
        let j = first_max(vals);
        lemma_single_candidate_is_greedy(all, d, avail.remove(j), sol.push(avail[j]), draws, (steps - 1) as nat);
    }
}

/// Positions in `available` of the `min(number_of_points, len)` points farthest
/// from the centroid `center / count`, farthest first (ties: the earlier point).
pub fn get_farther_points_indexes(
    available: &Vec<Point>,
    center: &Vec<i64>,
    count: usize,
    number_of_points: usize,
) -> (r: Vec<usize>)
    requires
        available@.len() <= MAX_POINTS,
        forall|i: int| 0 <= i < available@.len() ==> coords_bounded(#[trigger] available@[i]@)
            && available@[i]@.len() == center@.len(),
        sums_bounded(center@),
        count <= MAX_POINTS,
    ensures
        ({
            let k = if number_of_points <= available@.len() {
                number_of_points as nat
            } else {
                available@.len()
            };
            let vals = gaps_to(views(available@), sums_int(center@), count as int);
            &&& r@.map_values(|x: usize| x as int) == rcl(vals, k)
            &&& r@.len() == k
            &&& forall|i: int| 0 <= i < k ==> #[trigger] r@[i] < available@.len()
        }),
{
    let ghost av = views(available@);
    let ghost target = gaps_to(av, sums_int(center@), count as int);
    let k = if number_of_points <= available.len() { number_of_points } else { available.len() };
    let mut result: Vec<usize> = Vec::new();
    proof {
        assert forall|i: int| 0 <= i < target.len() implies #[trigger] target[i] >= 0 by {
            lemma_scaled_gap_nonneg(av[i], sums_int(center@), count as int, av[i].len());
        }
        assert(result@.map_values(|x: usize| x as int) =~= rcl(target, 0));
    }
    while result.len() < k
        invariant
            av == views(available@),
            target == gaps_to(av, sums_int(center@), count as int),
            forall|i: int| 0 <= i < target.len() ==> #[trigger] target[i] >= 0,
            available@.len() <= MAX_POINTS,
            forall|i: int| 0 <= i < available@.len() ==> coords_bounded(#[trigger] available@[i]@)
                && available@[i]@.len() == center@.len(),
            sums_bounded(center@),
            count <= MAX_POINTS,
            k <= available@.len(),
            result@.len() <= k,
            result@.map_values(|x: usize| x as int) == rcl(target, result@.len() as nat),
        decreases k - result@.len(),
    {
        let ghost taken = result@.map_values(|x: usize| x as int);
        let ghost mt = masked(target, taken);
        let mut vals: Vec<i128> = Vec::new();
        let mut i: usize = 0;
        while i < available.len()
            invariant
                av == views(available@),
                target == gaps_to(av, sums_int(center@), count as int),
                taken == result@.map_values(|x: usize| x as int),
                mt == masked(target, taken),
                forall|i: int| 0 <= i < available@.len() ==> coords_bounded(#[trigger] available@[i]@)
                    && available@[i]@.len() == center@.len(),
                sums_bounded(center@),
                count <= MAX_POINTS,
                i <= available@.len(),
                vals@.len() == i,
                forall|e: int| 0 <= e < i ==> ints(vals@)[e] == #[trigger] mt[e],
            decreases available@.len() - i,
        {
            let mut is_taken = false;
            let mut t: usize = 0;
            while t < result.len()
                invariant
                    taken == result@.map_values(|x: usize| x as int),
                    t <= result@.len(),
                    is_taken == (exists|e: int| 0 <= e < t && result@[e] == i),
                decreases result@.len() - t,
            {
                if result[t] == i {
                    is_taken = true;
                }
                t = t + 1;
            }
            proof {
                if is_taken {
                    let e = choose|e: int| 0 <= e < t && result@[e] == i;
                    assert(taken[e] == i);
                } else {
                    assert forall|e: int| 0 <= e < taken.len() implies taken[e] != i by {
                        assert(result@[e] != i);
                    }
                }
            }
            let v: i128 = if is_taken {
                -1
            } else {
                let g = center_gap(&available[i], center, count);
                assert(av[i as int] == available@[i as int]@);
                g as i128
            };
            let ghost before = vals@;
            vals.push(v);
            proof {
                assert forall|e: int| 0 <= e < i + 1 implies ints(vals@)[e] == #[trigger] mt[e] by {
                    if e < i {
                        assert(vals@[e] == before[e]);
                        assert(ints(before)[e] == mt[e]);
                    }
                }
            }
            i = i + 1;
        }
        proof {
            assert(ints(vals@) =~= mt);
            lemma_rcl(target, (result@.len() + 1) as nat);
        }
        let j = first_max_index(&vals);
        result.push(j);
        proof {
            assert(result@.map_values(|x: usize| x as int) =~= taken.push(j as int));
        }
    }
    proof {
        lemma_rcl(target, k as nat);
        assert forall|i: int| 0 <= i < k implies #[trigger] result@[i] < available@.len() by {
            assert(result@.map_values(|x: usize| x as int)[i] == rcl(target, k as nat)[i]);
        }
    }
    result
}

/// Relies on rand::random: a `usize` drawn from the process-wide generator.
/// Nothing is promised of its value.
#[verifier::external_body]
fn random_usize() -> (r: usize) {
    rand::random::<usize>()
}

/// The randomized greedy constructor.
pub struct RandomizedGreedySolver {
    number_of_points: usize,
    rcl_size: usize,
}

impl RandomizedGreedySolver {
    /// The number of points of the solutions it builds.
    pub closed spec fn size(&self) -> nat {
        self.number_of_points as nat
    }

    /// The size of the restricted candidate list.
    pub closed spec fn list_size(&self) -> nat {
        self.rcl_size as nat
    }

    /// A solver for solutions of `number_of_points` points, drawing each from the
    /// `rcl_size` farthest available points.
    pub fn new(number_of_points: usize, rcl_size: usize) -> (r: Self)
        requires
            number_of_points > 0,
            rcl_size > 0,
        ensures
            r.size() == number_of_points,
            r.list_size() == rcl_size,
    {
        RandomizedGreedySolver { number_of_points, rcl_size }
    }

    /// The randomized greedy selection of `size()` points for the given draws:
    /// at step `t` the point taken is the one at position `draws[t] % len` of
    /// the restricted candidate list.
    pub fn construct_from_draws(&self, instance: &ProblemInstance, draws: &Vec<usize>) -> (r: ProblemSolution)
        requires
            instance.wf(),
            self.size() <= instance@.len(),
            self.list_size() > 0,
            draws@.len() >= self.size(),
        ensures
            r@ == randomized_run(
                instance@,
                instance.dimensionality as nat,
                instance@,
                Seq::empty(),
                draws@,
                self.list_size(),
                self.size(),
            ),
            r@.len() == self.size(),
            solution_for(instance, &r),
    {
        let m = self.number_of_points;
        let d = instance.dimensionality;
        let ghost all = instance@;
        let ghost dn = d as nat;
        let mut avail = copy_points(&instance.points);
        let mut sol: Vec<Point> = Vec::new();
        let mut center = calculate_center(&instance.points, d);
        let mut count: usize = instance.points.len();
        proof {
            assert(views(sol@) =~= Seq::<Seq<i64>>::empty());
            assert(sums_int(center@) =~= col_sums(all, dn));
        }
        while sol.len() < m
            invariant
                instance.wf(),
                all == instance@,
                dn == d,
                d == instance.dimensionality,
                m == self.size(),
                m <= all.len(),
                self.rcl_size > 0,
                draws@.len() >= m,
                sol@.len() <= m,
                split_of(all, views(avail@), views(sol@)),
                uniform(views(avail@), dn),
                uniform(views(sol@), dn),
                center@.len() == d,
                sums_bounded(center@),
                sums_int(center@) == col_sums(guide(all, views(sol@)), dn),
                count == guide(all, views(sol@)).len(),
                count <= MAX_POINTS,
                randomized_run(all, dn, views(avail@), views(sol@), draws@, self.list_size(), (m - sol@.len()) as nat)
                    == randomized_run(all, dn, all, Seq::empty(), draws@, self.list_size(), m as nat),
            decreases m - sol@.len(),
        {
            let ghost av = views(avail@);
            let ghost sv = views(sol@);
            assert forall|i: int| 0 <= i < avail@.len() implies coords_bounded(#[trigger] avail@[i]@)
                && avail@[i]@.len() == center@.len() by {
                assert(av[i] == avail@[i]@);
            }
            let candidates = get_farther_points_indexes(&avail, &center, count, self.rcl_size);
            let pick = candidates[draws[sol.len()] % candidates.len()];
            proof {
                let k = if self.rcl_size <= av.len() { self.rcl_size as nat } else { av.len() };
                assert(gaps(av, guide(all, sv), dn) == gaps_to(views(avail@), sums_int(center@), count as int));
                let list = rcl(gaps(av, guide(all, sv), dn), k);
                let t = (draws@[sv.len() as int] as nat % candidates@.len()) as int;
                assert(candidates@.map_values(|x: usize| x as int)[t] == list[t]);
                lemma_split_move(all, av, sv, pick as int, dn);
            }
            let p = avail.remove(pick);
            proof {
                assert(views(avail@) =~= av.remove(pick as int));
            }
            sol.push(p);
            proof {
                assert(views(sol@) =~= sv.push(av[pick as int]));
            }
            center = calculate_center(&sol, d);
            count = sol.len();
            proof {
                assert(sums_int(center@) =~= col_sums(views(sol@), dn));
            }
        }
        proof {
            let sv = views(sol@);
            assert forall|i: int| 0 <= i < sv.len() implies all.contains(#[trigger] sv[i]) by {
                assert(sv.contains(sv[i]));
            }
        }
        let r = ProblemSolution { points: sol };
        proof {
            if r.points@.len() > 0 {
                assert(r@[0].len() == dn);
            }
            assert(uniform(r@, r.dim()));
        }
        r
    }

    /// A randomized greedy selection of `size()` distinct points of the instance,
    /// with draws from the process-wide generator.
    pub fn construct(&self, instance: &ProblemInstance) -> (r: ProblemSolution)
        requires
            instance.wf(),
            self.size() <= instance@.len(),
            self.list_size() > 0,
        ensures
            r@.len() == self.size(),
            solution_for(instance, &r),
            exists|draws: Seq<usize>| r@ == randomized_run(
                instance@,
                instance.dimensionality as nat,
                instance@,
                Seq::empty(),
                draws,
                self.list_size(),
                self.size(),
            ),
    {
        let mut draws: Vec<usize> = Vec::new();
        while draws.len() < self.number_of_points
            invariant
                draws@.len() <= self.size(),
            decreases self.size() - draws@.len(),
        {
            draws.push(random_usize());
        }
        self.construct_from_draws(instance, &draws)
    }
}

impl ProblemSolver for RandomizedGreedySolver {
    open spec fn accepts(&self, instance: &ProblemInstance) -> bool {
        self.size() <= instance@.len() && self.list_size() > 0
    }

    open spec fn produces(&self, instance: &ProblemInstance, s: Seq<Seq<i64>>) -> bool {
        &&& s.len() == self.size()
        &&& exists|draws: Seq<usize>| s == randomized_run(
            instance@,
            instance.dimensionality as nat,
            instance@,
            Seq::empty(),
            draws,
            self.list_size(),
            self.size(),
        )
    }

    fn solve(&mut self, instance: &ProblemInstance) -> (r: ProblemSolution)
        ensures
            r@.len() == old(self).size(),
            exists|draws: Seq<usize>| r@ == randomized_run(
                instance@,
                instance.dimensionality as nat,
                instance@,
                Seq::empty(),
                draws,
                old(self).list_size(),
                old(self).size(),
            ),
    {
        self.construct(instance)
    }
}

} // verus!
