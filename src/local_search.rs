//! Local search: improve a solution move by move until no move of the
//! neighbourhood gives a strictly larger diversity.
use vstd::prelude::*;
use std::collections::VecDeque;
use crate::instance::ProblemInstance;
use crate::neighborhood::{best_swap, is_best_move, is_move, move_value, swapped, MoveFilter};
use crate::point::Point;
use crate::solution::{
    diversity, lemma_diversity_fits, lemma_diversity_permutation, uniform, ProblemSolution,
    MAX_DIVERSITY,
};
use crate::solver::solution_for;

verus! {

/// A solution that a local search can start from: a selection of at least one
/// point of the instance that leaves at least one point outside.
pub open spec fn searchable(instance: &ProblemInstance, solution: &ProblemSolution) -> bool {
    &&& instance.wf()
    &&& solution_for(instance, solution)
    &&& 0 < solution@.len() < instance@.len()
}

/// Along a chain of solutions whose diversity strictly increases, as the
/// accepted steps of `improve` are, no selection of points comes back: any two
/// of them differ as multisets of points. There are finitely many selections of
/// an instance, so such a chain is finite.
pub proof fn lemma_improving_chain_distinct(chain: Seq<Seq<Seq<i64>>>, d: nat)
    requires
        forall|i: int| 0 <= i < chain.len() ==> uniform(#[trigger] chain[i], d),
        forall|i: int, j: int| 0 <= i < j < chain.len() ==> diversity(chain[i]) < diversity(chain[j]),
    ensures
        forall|i: int, j: int| 0 <= i < j < chain.len() ==> chain[i].to_multiset() != chain[j].to_multiset(),
{
    assert forall|i: int, j: int| 0 <= i < j < chain.len() implies chain[i].to_multiset() != chain[j].to_multiset() by {
        if chain[i].to_multiset() == chain[j].to_multiset() {
            assert(uniform(chain[i], d));
            lemma_diversity_permutation(chain[i], chain[j], d);
        }
    }
}

/// A search that looks for better solutions around a given one.
pub trait LocalSearch {
    /// No neighbour of the solution `s` has a larger diversity.
    spec fn local_optimum(&self, instance: &ProblemInstance, s: Seq<Seq<i64>>) -> bool;

    /// Searches **only** the neighbourhood of the solution, and returns a
    /// neighbour that **might** be better than it; when it is not better, the
    /// solution is a local optimum.
    fn perform_search(&self, instance: &ProblemInstance, solution: ProblemSolution) -> (r: ProblemSolution)
        requires
            searchable(instance, &solution),
        ensures
            solution_for(instance, &r),
            r@.len() == solution@.len(),
            diversity(r@) <= diversity(solution@) ==> self.local_optimum(instance, solution@),
            self.local_optimum(instance, solution@) ==> diversity(r@) <= diversity(solution@),
    ;

    /// Repeats the search from each better neighbour, and stops at the first
    /// step that does not increase the diversity.
    fn improve(&self, instance: &ProblemInstance, solution: ProblemSolution) -> (r: ProblemSolution)
        requires
            searchable(instance, &solution),
        ensures
            solution_for(instance, &r),
            r@.len() == solution@.len(),
            diversity(r@) >= diversity(solution@),
            self.local_optimum(instance, r@),
            self.local_optimum(instance, solution@) ==> r@ == solution@,
    {
        let ghost start = solution@;
        let mut current = solution;
        loop
            invariant
                start == solution@,
                searchable(instance, &current),
                current@.len() == start.len(),
                diversity(current@) >= diversity(start),
                self.local_optimum(instance, start) ==> current@ == start,
            decreases MAX_DIVERSITY - diversity(current@),
        {
            proof {
                lemma_diversity_fits(current@, instance.dimensionality as nat);
            }
            let another_solution = self.perform_search(instance, current.duplicate());
            proof {
                lemma_diversity_fits(another_solution@, instance.dimensionality as nat);
            }
            if another_solution.get_z() <= current.get_z() {
                return current;
            }
            current = another_solution;
        }
    }
}

/// Best-improvement search over the swap neighbourhood.
pub struct Swap {}

impl Swap {
    /// The swap local search.
    pub fn new() -> (r: Self) {
        Swap {}
    }

    /// The best neighbour: the first move (by position, then by instance point)
    /// with the largest diversity.
    pub fn best_neighbour(&self, instance: &ProblemInstance, solution: &ProblemSolution) -> (r: ProblemSolution)
        requires
            searchable(instance, solution),
        ensures
            solution_for(instance, &r),
            r@.len() == solution@.len(),
            exists|i: int, k: int|
                is_best_move(instance@, solution@, Seq::empty(), MoveFilter::Any, i, k)
                    && r@ == swapped(solution@, i, instance@[k]),
    {
        let tabu: VecDeque<Point> = VecDeque::new();
        proof {
            // a point of the instance lies outside the solution
            assert(crate::solution::views(tabu@) =~= Seq::<Seq<i64>>::empty());
            lemma_outside_point(instance, solution);
        }
        match best_swap(instance, solution, &tabu, MoveFilter::Any) {
            Some((sol, _)) => sol,
            None => {
                proof {
                    let k = choose|k: int| 0 <= k < instance@.len() && !solution@.contains(instance@[k]);
                    assert(is_move(instance@, solution@, Seq::empty(), MoveFilter::Any, 0, k));
                }
                solution.duplicate()
            },
        }
    }
}

/// A selection smaller than the instance leaves some point of the instance out.
pub proof fn lemma_outside_point(instance: &ProblemInstance, solution: &ProblemSolution)
    requires
        searchable(instance, solution),
    ensures
        exists|k: int| 0 <= k < instance@.len() && !solution@.contains(instance@[k]),
{
    let inst = instance@;
    let s = solution@;
    if forall|k: int| 0 <= k < inst.len() ==> s.contains(inst[k]) {
        assert(inst.to_set().subset_of(s.to_set())) by {
            assert forall|x: Seq<i64>| inst.to_set().contains(x) implies s.to_set().contains(x) by {
                let k = choose|k: int| 0 <= k < inst.len() && inst[k] == x;
            }
        }
        assert(inst.no_duplicates()) by {
            assert forall|a: int, b: int| 0 <= a < inst.len() && 0 <= b < inst.len() && a != b implies inst[a] != inst[b] by {
                if b < a {
                    assert(inst[b] != inst[a]);
                }
            }
        }
        inst.unique_seq_to_set();
        s.unique_seq_to_set();
        vstd::set_lib::lemma_len_subset(inst.to_set(), s.to_set());
    }
}

impl LocalSearch for Swap {
    open spec fn local_optimum(&self, instance: &ProblemInstance, s: Seq<Seq<i64>>) -> bool {
        forall|i: int, k: int| #[trigger] is_move(instance@, s, Seq::empty(), MoveFilter::Any, i, k)
            ==> move_value(instance@, s, i, k) <= diversity(s)
    }

    fn perform_search(&self, instance: &ProblemInstance, solution: ProblemSolution) -> (r: ProblemSolution)
        ensures
            exists|i: int, k: int|
                is_best_move(instance@, solution@, Seq::empty(), MoveFilter::Any, i, k)
                    && r@ == swapped(solution@, i, instance@[k]),
    {
        self.best_neighbour(instance, &solution)
    }
}

} // verus!
