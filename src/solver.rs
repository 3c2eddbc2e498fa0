//! What every solving algorithm offers: a selection of distinct points of an instance.
use vstd::prelude::*;
use crate::instance::ProblemInstance;
use crate::solution::{uniform, ProblemSolution};

verus! {

/// `s` holds distinct points, each of them a point of `inst`.
pub open spec fn selection_of(inst: Seq<Seq<i64>>, s: Seq<Seq<i64>>) -> bool {
    &&& s.no_duplicates()
    &&& forall|i: int| 0 <= i < s.len() ==> inst.contains(#[trigger] s[i])
}

/// A solution that an algorithm may hand back for `instance`.
pub open spec fn solution_for(instance: &ProblemInstance, r: &ProblemSolution) -> bool {
    &&& selection_of(instance@, r@)
    &&& r@.len() <= instance@.len()
    &&& r.wf()
    &&& uniform(r@, instance.dimensionality as nat)
}

/// An algorithm that solves an instance of the problem.
pub trait ProblemSolver {
    /// The instances this solver can be run on.
    spec fn accepts(&self, instance: &ProblemInstance) -> bool;

    /// The solutions (as point sequences) this solver may return for `instance`.
    spec fn produces(&self, instance: &ProblemInstance, s: Seq<Seq<i64>>) -> bool;

    /// Solves an instance of the problem.
    fn solve(&mut self, instance: &ProblemInstance) -> (r: ProblemSolution)
        requires
            instance.wf(),
            old(self).accepts(instance),
        ensures
            solution_for(instance, &r),
            old(self).produces(instance, r@),
            final(self).accepts(instance),
    ;
}

} // verus!
