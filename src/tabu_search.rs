//! Tabu search: from GRASP seeds, a walk over swap moves with a short-term
//! memory of the points that entered most recently, with aspiration.
use vstd::prelude::*;
use std::collections::VecDeque;
use crate::center::first_max;
use crate::grasp::{diversities, first_best, GRASP};
use crate::instance::ProblemInstance;
use crate::local_search::Swap;
use crate::neighborhood::{best_move, best_swap, is_move, MoveFilter};
use crate::point::Point;
use crate::solution::{diversity, lemma_diversity_fits, views, ProblemSolution, MAX_DIVERSITY};
use crate::solver::{selection_of, solution_for, ProblemSolver};

verus! {

/// When the selection and the memory together hold fewer points than the
/// instance, some point of the instance lies outside both.
pub proof fn lemma_free_point(inst: Seq<Seq<i64>>, s: Seq<Seq<i64>>, tabu: Seq<Seq<i64>>)
    requires
        inst.no_duplicates(),
        s.len() + tabu.len() < inst.len(),
    ensures
        exists|k: int| 0 <= k < inst.len() && !s.contains(inst[k]) && !tabu.contains(inst[k]),
{
    if forall|k: int| 0 <= k < inst.len() ==> s.contains(inst[k]) || tabu.contains(inst[k]) {
        let u = s.to_set().union(tabu.to_set());
        assert(inst.to_set().subset_of(u)) by {
            assert forall|x: Seq<i64>| inst.to_set().contains(x) implies u.contains(x) by {
                let k = choose|k: int| 0 <= k < inst.len() && inst[k] == x;
                if s.contains(inst[k]) {
                    assert(s.to_set().contains(x));
                } else {
                    assert(tabu.to_set().contains(x));
                }
            }
        }
        inst.unique_seq_to_set();
        s.lemma_cardinality_of_set();
        tabu.lemma_cardinality_of_set();
        vstd::set_lib::lemma_len_union(s.to_set(), tabu.to_set());
        vstd::set_lib::lemma_len_subset(inst.to_set(), u);
    }
}

/// The memory at the start of a step: without its oldest entry when it holds
/// more than `tenure` points.
pub open spec fn memory_after_drop(tabu: Seq<Seq<i64>>, tenure: nat) -> Seq<Seq<i64>> {
    if tabu.len() > tenure {
        tabu.drop_first()
    } else {
        tabu
    }
}

/// The move a step makes from `actual` with memory `mem`, as the new current
/// solution and the entering point: the best move whose entering point is not in
/// memory, unless the best move whose entering point is in memory beats both it
/// and `best_z`.
pub open spec fn tabu_move(
    inst: Seq<Seq<i64>>,
    actual: Seq<Seq<i64>>,
    mem: Seq<Seq<i64>>,
    best_z: int,
) -> (Seq<Seq<i64>>, Seq<i64>) {
    match best_move(inst, actual, mem, MoveFilter::AvoidTabu) {
        None => (actual, Seq::empty()),
        Some(a) => match best_move(inst, actual, mem, MoveFilter::OnlyTabu) {
            Some(b) => if diversity(b.0) > best_z && diversity(b.0) > diversity(a.0) {
                b
            } else {
                a
            },
            None => a,
        },
    }
}

/// The best solution the walk meets, from current solution `actual`, best known
/// solution `best` of diversity `best_z`, memory `tabu`, and `stall` steps in a
/// row without improvement; it stops when `stall` reaches `inner`.
pub open spec fn tabu_walk(
    inst: Seq<Seq<i64>>,
    tenure: nat,
    inner: nat,
    actual: Seq<Seq<i64>>,
    best: Seq<Seq<i64>>,
    best_z: int,
    tabu: Seq<Seq<i64>>,
    stall: nat,
) -> Seq<Seq<i64>>
    decreases (MAX_DIVERSITY - best_z) as nat, (inner - stall) as nat,
{
    // diversities of selections of an instance never exceed MAX_DIVERSITY; the
    // bound is checked here only so that the recursion visibly terminates
    if stall >= inner || best_z > MAX_DIVERSITY {
        best
    } else {
        let mem = memory_after_drop(tabu, tenure);
        let mv = tabu_move(inst, actual, mem, best_z);
        let z = diversity(mv.0);
        if z > best_z {
            if z > MAX_DIVERSITY {
                mv.0
            } else {
                tabu_walk(inst, tenure, inner, mv.0, mv.0, z, mem.push(mv.1), 0)
            }
        } else {
            tabu_walk(inst, tenure, inner, mv.0, best, best_z, mem.push(mv.1), stall + 1)
        }
    }
}

/// A tabu search.
pub struct TabuSearch {
    number_of_points: usize,
    tenure: usize,
    iterations: usize,
    inner_iterations: usize,
}

impl TabuSearch {
    /// The number of points of the solutions it builds.
    pub closed spec fn size(&self) -> nat {
        self.number_of_points as nat
    }

    /// How many entering points the memory keeps.
    pub closed spec fn memory(&self) -> nat {
        self.tenure as nat
    }

    /// The number of restarts.
    pub closed spec fn rounds(&self) -> nat {
        self.iterations as nat
    }

    /// The number of steps in a row without improvement after which a walk stops.
    pub closed spec fn patience(&self) -> nat {
        self.inner_iterations as nat
    }

    /// A tabu search for solutions of `number_of_points` points, with the given
    /// tenure, number of restarts, and number of steps without improvement
    /// after which a walk stops.
    pub fn new(number_of_points: usize, tenure: usize, iterations: usize, inner_iterations: usize) -> (r: Self)
        requires
            number_of_points > 0,
            tenure > 0,
        ensures
            r.size() == number_of_points,
            r.memory() == tenure,
            r.rounds() == iterations,
            r.patience() == inner_iterations,
    {
        TabuSearch { number_of_points, tenure, iterations, inner_iterations }
    }

    /// One step of the walk. Drops the oldest memory entry when the memory
    /// holds more than `tenure` points, then takes the best move whose entering
    /// point is not in memory, unless the best move whose entering point is in
    /// memory beats both it and the best known diversity (aspiration). The
    /// entering point is remembered. Returns whether the best known solution
    /// improved; the best known diversity never decreases.
    pub fn tabu_step(
        &self,
        instance: &ProblemInstance,
        actual: &mut ProblemSolution,
        best: &mut ProblemSolution,
        best_z: &mut u64,
        tabu: &mut VecDeque<Point>,
    ) -> (improved: bool)
        requires
            instance.wf(),
            0 < self.size(),
            self.size() + self.memory() < instance@.len(),
            solution_for(instance, old(best)),
            solution_for(instance, old(actual)),
            old(best)@.len() == self.size(),
            old(actual)@.len() == self.size(),
            old(tabu)@.len() <= self.memory() + 1,
            *old(best_z) == diversity(old(best)@),
        ensures
            *final(best_z) >= *old(best_z),
            improved <==> *final(best_z) > *old(best_z),
            !improved ==> final(best)@ == old(best)@,
            *final(best_z) == diversity(final(best)@),
            solution_for(instance, final(best)),
            solution_for(instance, final(actual)),
            final(best)@.len() == self.size(),
            final(actual)@.len() == self.size(),
            final(tabu)@.len() <= self.memory() + 1,
            ({
                let mem = memory_after_drop(views(old(tabu)@), self.memory());
                let mv = tabu_move(instance@, old(actual)@, mem, *old(best_z) as int);
                &&& final(actual)@ == mv.0
                &&& views(final(tabu)@) == mem.push(mv.1)
                &&& improved == (diversity(mv.0) > *old(best_z))
                &&& final(best)@ == (if improved { mv.0 } else { old(best)@ })
            }),
    {
        let ghost d = instance.dimensionality as nat;
        let ghost mem = memory_after_drop(views(tabu@), self.memory());
        if tabu.len() > self.tenure {
            let ghost before = tabu@;
            tabu.pop_front();
            assert(views(tabu@) =~= views(before).drop_first());
        }
        assert(views(tabu@) == mem);
        proof {
            assert(instance@.no_duplicates()) by {
                assert forall|a: int, b: int| 0 <= a < instance@.len() && 0 <= b < instance@.len()
                    && a != b implies instance@[a] != instance@[b] by {
                    if b < a {
                        assert(instance@[b] != instance@[a]);
                    }
                }
            }
            lemma_free_point(instance@, actual@, views(tabu@));
            let k = choose|k: int| 0 <= k < instance@.len() && !actual@.contains(instance@[k])
                && !views(tabu@).contains(instance@[k]);
            assert(is_move(instance@, actual@, views(tabu@), MoveFilter::AvoidTabu, 0, k));
        }
        let (new_solution, possible_tabu_point2) = match best_swap(
            instance,
            actual,
            tabu,
            MoveFilter::AvoidTabu,
        ) {
            Some(found) => found,
            None => {
                // no such case: a point outside both the solution and the memory remains
                proof {
                    assert(false);
                }
                return false;
            },
        };
        proof {
            lemma_diversity_fits(new_solution@, d);
        }
        let new_z = new_solution.get_z();
        let tabu_move = best_swap(instance, actual, tabu, MoveFilter::OnlyTabu);
        if let Some((new_tabu_solution, possible_tabu_point1)) = tabu_move {
            proof {
                lemma_diversity_fits(new_tabu_solution@, d);
            }
            let tabu_z = new_tabu_solution.get_z();
            if tabu_z > *best_z && tabu_z > new_z {
                *best = new_tabu_solution.duplicate();
                *best_z = tabu_z;
                *actual = new_tabu_solution;
                let ghost before = tabu@;
                tabu.push_back(possible_tabu_point1);
                assert(views(tabu@) =~= views(before).push(tabu@.last()@));
                return true;
            }
        }
        let improved = new_z > *best_z;
        if improved {
            *best = new_solution.duplicate();
            *best_z = new_z;
        }
        *actual = new_solution;
        let ghost before = tabu@;
        tabu.push_back(possible_tabu_point2);
        assert(views(tabu@) =~= views(before).push(tabu@.last()@));
        improved
    }

    /// The walk from `solution`: the best solution it meets. It stops after
    /// `inner_iterations` steps in a row that do not improve the best.
    pub fn perform_search(&self, instance: &ProblemInstance, solution: ProblemSolution) -> (r: ProblemSolution)
        requires
            instance.wf(),
            solution_for(instance, &solution),
            solution@.len() == self.size(),
            0 < self.size(),
            self.size() + self.memory() < instance@.len(),
        ensures
            solution_for(instance, &r),
            r@.len() == self.size(),
            diversity(r@) >= diversity(solution@),
            r@ == tabu_walk(
                instance@,
                self.memory(),
                self.patience(),
                solution@,
                solution@,
                diversity(solution@),
                Seq::empty(),
                0,
            ),
            r@ != solution@ ==> diversity(r@) > diversity(solution@),
    {
        let ghost start = solution@;
        let ghost d = instance.dimensionality as nat;
        let mut best = solution.duplicate();
        let mut actual = solution;
        let mut tabu: VecDeque<Point> = VecDeque::with_capacity(self.tenure);
        proof {
            lemma_diversity_fits(best@, d);
        }
        let mut best_z = best.get_z();
        let mut iters_without_change: usize = 0;
        let ghost walk = tabu_walk(
            instance@, self.memory(), self.patience(), start, start, diversity(start), Seq::empty(), 0);
        assert(views(tabu@) =~= Seq::<Seq<i64>>::empty());
        while iters_without_change < self.inner_iterations
            invariant
                instance.wf(),
                d == instance.dimensionality,
                0 < self.size(),
                self.size() + self.memory() < instance@.len(),
                solution_for(instance, &best),
                solution_for(instance, &actual),
                best@.len() == self.size(),
                actual@.len() == self.size(),
                tabu@.len() <= self.memory() + 1,
                best_z == diversity(best@),
                best_z <= MAX_DIVERSITY,
                diversity(best@) >= diversity(start),
                best@ == start || best_z > diversity(start),
                walk == tabu_walk(
                    instance@,
                    self.memory(),
                    self.patience(),
                    start,
                    start,
                    diversity(start),
                    Seq::empty(),
                    0,
                ),
                tabu_walk(
                    instance@,
                    self.memory(),
                    self.patience(),
                    actual@,
                    best@,
                    best_z as int,
                    views(tabu@),
                    iters_without_change as nat,
                ) == walk,
            decreases MAX_DIVERSITY - best_z, self.inner_iterations - iters_without_change,
        {
            let ghost old_actual = actual@;
            let ghost old_best = best@;
            let ghost old_z = best_z;
            let ghost old_tabu = views(tabu@);
            let improved = self.tabu_step(instance, &mut actual, &mut best, &mut best_z, &mut tabu);
            proof {
                lemma_diversity_fits(actual@, d);
                lemma_diversity_fits(best@, d);
            }
            if improved {
                iters_without_change = 0;
            } else {
                iters_without_change = iters_without_change + 1;
            }
        }
        best
    }

    /// What one restart may give: the walk from some selection of `size()`
    /// points of the instance.
    pub open spec fn round_result(&self, instance: &ProblemInstance, s: Seq<Seq<i64>>) -> bool {
        exists|seed: Seq<Seq<i64>>| {
            &&& seed.len() == self.size()
            &&& selection_of(instance@, seed)
            &&& s == tabu_walk(
                instance@,
                self.memory(),
                self.patience(),
                seed,
                seed,
                diversity(seed),
                Seq::empty(),
                0,
            )
        }
    }

    /// The best walk result over `rounds()` GRASP seeds (the earliest among equals).
    pub fn run(&self, instance: &ProblemInstance) -> (r: ProblemSolution)
        requires
            instance.wf(),
            0 < self.size(),
            self.size() + self.memory() < instance@.len(),
            self.rounds() > 0,
        ensures
            solution_for(instance, &r),
            r@.len() == self.size(),
            exists|results: Seq<Seq<Seq<i64>>>| {
                &&& results.len() == self.rounds()
                &&& forall|t: int| 0 <= t < results.len() ==> self.round_result(instance, #[trigger] results[t])
                &&& r@ == first_best(results)
            },
    {
        let seeder = GRASP::new(self.number_of_points, 2, Swap::new(), 1);
        let seed = seeder.run(instance);
        let ghost seed_view = seed@;
        let mut best = self.perform_search(instance, seed);
        let ghost mut results: Seq<Seq<Seq<i64>>> = seq![best@];
        proof {
            assert(self.round_result(instance, best@)) by {
                assert(seed_view.len() == self.size() && selection_of(instance@, seed_view));
            }
        }
        let mut round: usize = 1;
        while round < self.iterations
            invariant
                instance.wf(),
                0 < self.size(),
                self.size() + self.memory() < instance@.len(),
                1 <= round <= self.iterations,
                solution_for(instance, &best),
                best@.len() == self.size(),
                results.len() == round,
                forall|t: int| 0 <= t < results.len() ==> self.round_result(instance, #[trigger] results[t]),
                best@ == first_best(results),
            decreases self.iterations - round,
        {
            let seeder = GRASP::new(self.number_of_points, 2, Swap::new(), 1);
            let seed = seeder.run(instance);
            let ghost seed_view = seed@;
            let solution = self.perform_search(instance, seed);
            proof {
                lemma_diversity_fits(solution@, instance.dimensionality as nat);
                lemma_diversity_fits(best@, instance.dimensionality as nat);
                assert(seed_view.len() == self.size() && selection_of(instance@, seed_view));
                assert(self.round_result(instance, solution@));
                let old_results = results;
                let next = results.push(solution@);
                let vals = diversities(old_results);
                crate::center::lemma_first_max(vals);
                let fm = first_max(vals);
                assert(diversities(next).drop_last() =~= vals);
                assert(diversities(next).last() == diversity(solution@));
                assert(vals[fm] == diversity(best@));
                assert(next[fm] == old_results[fm]);
                assert(next[next.len() - 1] == solution@);
                assert(forall|t: int| 0 <= t < old_results.len() ==> next[t] == old_results[t]);
                results = next;
            }
            if solution.get_z() > best.get_z() {
                best = solution;
            }
            round = round + 1;
        }
        best
    }
}

impl ProblemSolver for TabuSearch {
    open spec fn accepts(&self, instance: &ProblemInstance) -> bool {
        &&& 0 < self.size()
        &&& self.size() + self.memory() < instance@.len()
        &&& self.rounds() > 0
    }

    open spec fn produces(&self, instance: &ProblemInstance, s: Seq<Seq<i64>>) -> bool {
        &&& s.len() == self.size()
        &&& exists|results: Seq<Seq<Seq<i64>>>| {
            &&& results.len() == self.rounds()
            &&& forall|t: int| 0 <= t < results.len() ==> self.round_result(instance, #[trigger] results[t])
            &&& s == first_best(results)
        }
    }

    fn solve(&mut self, instance: &ProblemInstance) -> (r: ProblemSolution)
        ensures
            r@.len() == old(self).size(),
            exists|results: Seq<Seq<Seq<i64>>>| {
                &&& results.len() == old(self).rounds()
                &&& forall|t: int| 0 <= t < results.len() ==> old(self).round_result(instance, #[trigger] results[t])
                &&& r@ == first_best(results)
            },
    {
        self.run(instance)
    }
}

} // verus!
