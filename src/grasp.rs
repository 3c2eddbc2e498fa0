//! GRASP: repeated randomized greedy construction, each followed by a local
//! search, keeping the best solution found.
use vstd::prelude::*;
use crate::instance::ProblemInstance;
use crate::local_search::{LocalSearch};
use crate::center::first_max;
use crate::randomized_greedy::{randomized_run, RandomizedGreedySolver};
use crate::solution::{diversity, lemma_diversity_fits, ProblemSolution};
use crate::solver::{solution_for, ProblemSolver};

verus! {

/// The diversity of each solution.
pub open spec fn diversities(results: Seq<Seq<Seq<i64>>>) -> Seq<int> {
    Seq::new(results.len(), |t: int| diversity(results[t]))
}

/// The first of the results with the largest diversity.
pub open spec fn first_best(results: Seq<Seq<Seq<i64>>>) -> Seq<Seq<i64>> {
    results[first_max(diversities(results))]
}

/// A GRASP with a local search of type `L`.
pub struct GRASP<L: LocalSearch> {
    number_of_points: usize,
    rcl_size: usize,
    local_search: L,
    iterations: usize,
}

impl<L: LocalSearch> GRASP<L> {
    /// The number of points of the solutions it builds.
    pub closed spec fn size(&self) -> nat {
        self.number_of_points as nat
    }

    /// The size of the restricted candidate list.
    pub closed spec fn list_size(&self) -> nat {
        self.rcl_size as nat
    }

    /// The local search applied to each construction.
    pub closed spec fn method(&self) -> L {
        self.local_search
    }

    /// The number of constructions.
    pub closed spec fn rounds(&self) -> nat {
        self.iterations as nat
    }

    /// A GRASP building solutions of `number_of_points` points with lists of
    /// `rcl_size` candidates, improved by `local_search`, `iterations` times.
    pub fn new(number_of_points: usize, rcl_size: usize, local_search: L, iterations: usize) -> (r: Self)
        requires
            number_of_points > 0,
            rcl_size > 0,
        ensures
            r.size() == number_of_points,
            r.list_size() == rcl_size,
            r.rounds() == iterations,
            r.method() == local_search,
    {
        GRASP { number_of_points, rcl_size, local_search, iterations }
    }

    /// What one round may give: a local optimum of `size()` points, at least as
    /// diverse as the randomized greedy construction of some draws, and that
    /// construction itself when it is already a local optimum.
    pub open spec fn round_result(&self, instance: &ProblemInstance, s: Seq<Seq<i64>>) -> bool {
        &&& s.len() == self.size()
        &&& self.method().local_optimum(instance, s)
        &&& exists|draws: Seq<usize>| {
            let built = #[trigger] randomized_run(
                instance@,
                instance.dimensionality as nat,
                instance@,
                Seq::empty(),
                draws,
                self.list_size(),
                self.size(),
            );
            &&& diversity(s) >= diversity(built)
            &&& (self.method().local_optimum(instance, built) ==> s == built)
        }
    }

    /// The best of `rounds()` locally improved randomized greedy solutions
    /// (the earliest among equals); a local optimum of the local search.
    pub fn run(&self, instance: &ProblemInstance) -> (r: ProblemSolution)
        requires
            instance.wf(),
            0 < self.size() < instance@.len(),
            self.list_size() > 0,
            self.rounds() > 0,
        ensures
            solution_for(instance, &r),
            r@.len() == self.size(),
            self.method().local_optimum(instance, r@),
            exists|results: Seq<Seq<Seq<i64>>>| {
                &&& results.len() == self.rounds()
                &&& forall|t: int| 0 <= t < results.len() ==> self.round_result(instance, #[trigger] results[t])
                &&& r@ == first_best(results)
            },
    {
        let solver = RandomizedGreedySolver::new(self.number_of_points, self.rcl_size);
        let first = solver.construct(instance);
        let ghost first_view = first@;
        let mut best = self.local_search.improve(instance, first);
        let ghost mut results: Seq<Seq<Seq<i64>>> = seq![best@];
        proof {
            let draws = choose|draws: Seq<usize>| first_view == randomized_run(
                instance@, instance.dimensionality as nat, instance@, Seq::empty(), draws,
                self.list_size(), self.size());
            assert(self.round_result(instance, best@));
            assert(diversities(results).drop_last() =~= Seq::<int>::empty());
        }
        let mut round: usize = 1;
        while round < self.iterations
            invariant
                instance.wf(),
                0 < self.size() < instance@.len(),
                self.list_size() > 0,
                1 <= round <= self.iterations,
                solution_for(instance, &best),
                best@.len() == self.size(),
                self.method().local_optimum(instance, best@),
                results.len() == round,
                forall|t: int| 0 <= t < results.len() ==> self.round_result(instance, #[trigger] results[t]),
                best@ == first_best(results),
            decreases self.iterations - round,
        {
            let solver = RandomizedGreedySolver::new(self.number_of_points, self.rcl_size);
            let constructed = solver.construct(instance);
            let ghost constructed_view = constructed@;
            let solution = self.local_search.improve(instance, constructed);
            proof {
                lemma_diversity_fits(solution@, instance.dimensionality as nat);
                lemma_diversity_fits(best@, instance.dimensionality as nat);
                let draws = choose|draws: Seq<usize>| constructed_view == randomized_run(
                    instance@, instance.dimensionality as nat, instance@, Seq::empty(), draws,
                    self.list_size(), self.size());
                assert(self.round_result(instance, solution@));
            }
            let ghost old_results = results;
            let ghost next = results.push(solution@);
            proof {
                let vals = diversities(old_results);
                crate::center::lemma_first_max(vals);
                let fm = first_max(vals);
                assert(diversities(next).drop_last() =~= vals);
                assert(diversities(next).last() == diversity(solution@));
                assert(vals[fm] == diversity(best@));
                assert(next[fm] == old_results[fm]);
                assert(next[next.len() - 1] == solution@);
                assert(forall|t: int| 0 <= t < old_results.len() ==> next[t] == old_results[t]);
                results = next;
            }
            if solution.get_z() > best.get_z() {
                best = solution;
            }
            round = round + 1;
        }
        best
    }
}

impl<L: LocalSearch> ProblemSolver for GRASP<L> {
    open spec fn accepts(&self, instance: &ProblemInstance) -> bool {
        &&& 0 < self.size() < instance@.len()
        &&& self.list_size() > 0
        &&& self.rounds() > 0
    }

    open spec fn produces(&self, instance: &ProblemInstance, s: Seq<Seq<i64>>) -> bool {
        &&& s.len() == self.size()
        &&& self.method().local_optimum(instance, s)
        &&& exists|results: Seq<Seq<Seq<i64>>>| {
            &&& results.len() == self.rounds()
            &&& forall|t: int| 0 <= t < results.len() ==> self.round_result(instance, #[trigger] results[t])
            &&& s == first_best(results)
        }
    }

    fn solve(&mut self, instance: &ProblemInstance) -> (r: ProblemSolution)
        ensures
            r@.len() == old(self).size(),
            old(self).method().local_optimum(instance, r@),
            exists|results: Seq<Seq<Seq<i64>>>| {
                &&& results.len() == old(self).rounds()
                &&& forall|t: int| 0 <= t < results.len() ==> old(self).round_result(instance, #[trigger] results[t])
                &&& r@ == first_best(results)
            },
    {
        self.run(instance)
    }
}

} // verus!
