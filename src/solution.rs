//! A selection of points and its diversity: the sum of the distances over all
//! unordered pairs of selected points.
use vstd::prelude::*;
use crate::point::{
    coords_bounded, distance, lemma_distance_bounded, lemma_distance_symmetric, Point,
    MAX_DISTANCE,
};

verus! {

/// Largest number of points in an instance or a solution.
pub const MAX_POINTS: usize = 65536;

/// Upper bound of the diversity of any selection of at most `MAX_POINTS` bounded points.
pub const MAX_DIVERSITY: u64 = 2305843009213693952;

/// The coordinate sequences of a sequence of points.
pub open spec fn views(ps: Seq<Point>) -> Seq<Seq<i64>> {
    Seq::new(ps.len(), |i: int| ps[i]@)
}

/// All points are bounded and share the dimensionality `d`.
pub open spec fn uniform(s: Seq<Seq<i64>>, d: nat) -> bool {
    forall|i: int| 0 <= i < s.len() ==> coords_bounded(#[trigger] s[i]) && s[i].len() == d
}

/// Sum of the distances from `p` to each point of `s`.
pub open spec fn dist_sum(p: Seq<i64>, s: Seq<Seq<i64>>) -> int
    decreases s.len(),
{
    if s.len() == 0 {
        0
    } else {
        dist_sum(p, s.drop_last()) + distance(p, s.last())
    }
}

/// Sum of the distances over all unordered pairs of positions in `s`.
pub open spec fn diversity(s: Seq<Seq<i64>>) -> int
    decreases s.len(),
{
    if s.len() == 0 {
        0
    } else {
        diversity(s.drop_last()) + dist_sum(s.last(), s.drop_last())
    }
}

pub proof fn lemma_dist_sum_bounded(p: Seq<i64>, s: Seq<Seq<i64>>, d: nat)
    requires
        uniform(s, d),
        coords_bounded(p),
        p.len() == d,
    ensures
        0 <= dist_sum(p, s) <= s.len() * MAX_DISTANCE,
    decreases s.len(),
{
    if s.len() > 0 {
        assert(uniform(s.drop_last(), d));
        lemma_dist_sum_bounded(p, s.drop_last(), d);
        lemma_distance_bounded(p, s.last());
    }
}

pub proof fn lemma_diversity_bounded(s: Seq<Seq<i64>>, d: nat)
    requires
        uniform(s, d),
    ensures
        0 <= diversity(s) <= s.len() * s.len() * MAX_DISTANCE,
    decreases s.len(),
{
    if s.len() > 0 {
        let n = s.len() - 1;
        assert(uniform(s.drop_last(), d));
        lemma_diversity_bounded(s.drop_last(), d);
        lemma_dist_sum_bounded(s.last(), s.drop_last(), d);
        assert(n * n * MAX_DISTANCE + n * MAX_DISTANCE <= (n + 1) * (n + 1) * MAX_DISTANCE)
            by (nonlinear_arith)
            requires
                n >= 0,
        ;
    }
}

/// A selection of at most `MAX_POINTS` uniform points has a diversity below `MAX_DIVERSITY`.
pub proof fn lemma_diversity_fits(s: Seq<Seq<i64>>, d: nat)
    requires
        uniform(s, d),
        s.len() <= MAX_POINTS,
    ensures
        0 <= diversity(s) <= MAX_DIVERSITY,
{
    lemma_diversity_bounded(s, d);
    let n = s.len();
    assert(n * n * MAX_DISTANCE <= MAX_DIVERSITY) by (nonlinear_arith)
        requires
            n <= 65536,
    ;
}

proof fn lemma_dist_sum_remove(p: Seq<i64>, s: Seq<Seq<i64>>, i: int)
    requires
        0 <= i < s.len(),
    ensures
        dist_sum(p, s) == dist_sum(p, s.remove(i)) + distance(p, s[i]),
    decreases s.len(),
{
    if i < s.len() - 1 {
        lemma_dist_sum_remove(p, s.drop_last(), i);
        assert(s.remove(i).drop_last() =~= s.drop_last().remove(i));
    } else {
        assert(s.remove(i) =~= s.drop_last());
    }
}

/// Taking one point out of a selection lowers its diversity by the distances
/// from that point to the others.
pub proof fn lemma_diversity_remove(s: Seq<Seq<i64>>, i: int, d: nat)
    requires
        0 <= i < s.len(),
        uniform(s, d),
    ensures
        diversity(s) == diversity(s.remove(i)) + dist_sum(s[i], s.remove(i)),
    decreases s.len(),
{
    if i < s.len() - 1 {
        let t = s.drop_last();
        assert(uniform(t, d));
        lemma_diversity_remove(t, i, d);
        assert(s.remove(i).drop_last() =~= t.remove(i));
        assert(s.remove(i).last() == s.last());
        lemma_dist_sum_remove(s.last(), t, i);
        assert(s.remove(i) =~= t.remove(i).push(s.last()));
        lemma_distance_symmetric(s.last(), s[i]);
    } else {
        assert(s.remove(i) =~= s.drop_last());
    }
}

/// The diversity of a selection does not depend on the order of its points:
/// moving any point to the end leaves it unchanged (and any reordering is a
/// series of such moves).
pub proof fn lemma_diversity_order_free(s: Seq<Seq<i64>>, i: int, d: nat)
    requires
        0 <= i < s.len(),
        uniform(s, d),
    ensures
        diversity(s.remove(i).push(s[i])) == diversity(s),
{
    lemma_diversity_remove(s, i, d);
    let t = s.remove(i).push(s[i]);
    assert(t.drop_last() =~= s.remove(i));
}

proof fn lemma_dist_sum_permutation(p: Seq<i64>, s1: Seq<Seq<i64>>, s2: Seq<Seq<i64>>)
    requires
        s1.to_multiset() == s2.to_multiset(),
    ensures
        dist_sum(p, s1) == dist_sum(p, s2),
    decreases s2.len(),
{
    s1.to_multiset_ensures();
    s2.to_multiset_ensures();
    if s2.len() > 0 {
        let x = s2.last();
        let last = s2.len() - 1;
        assert(s2.contains(x)) by {
            assert(s2[last] == x);
        }
        assert(s2.to_multiset().count(x) > 0);
        assert(s1.to_multiset().count(x) > 0);
        assert(s1.contains(x));
        let i = choose|i: int| 0 <= i < s1.len() && s1[i] == x;
        let a = s1.remove(i);
        let b = s2.drop_last();
        assert(s2.remove(last) =~= b);
        assert(a.to_multiset() == b.to_multiset());
        lemma_dist_sum_permutation(p, a, b);
        lemma_dist_sum_remove(p, s1, i);
    }
}

/// The diversity of a selection does not depend on the order of its points:
/// any two orderings of the same points (as multisets) have the same diversity.
pub proof fn lemma_diversity_permutation(s1: Seq<Seq<i64>>, s2: Seq<Seq<i64>>, d: nat)
    requires
        s1.to_multiset() == s2.to_multiset(),
        uniform(s1, d),
    ensures
        diversity(s1) == diversity(s2),
    decreases s2.len(),
{
    s1.to_multiset_ensures();
    s2.to_multiset_ensures();
    if s2.len() > 0 {
        let x = s2.last();
        let last = s2.len() - 1;
        assert(s2.contains(x)) by {
            assert(s2[last] == x);
        }
        assert(s2.to_multiset().count(x) > 0);
        assert(s1.to_multiset().count(x) > 0);
        assert(s1.contains(x));
        let i = choose|i: int| 0 <= i < s1.len() && s1[i] == x;
        let a = s1.remove(i);
        let b = s2.drop_last();
        assert(s2.remove(last) =~= b);
        assert(a.to_multiset() == b.to_multiset());
        assert(uniform(a, d)) by {
            assert forall|k: int| 0 <= k < a.len() implies coords_bounded(#[trigger] a[k]) && a[k].len() == d by {
                if k < i {
                    assert(a[k] == s1[k]);
                } else {
                    assert(a[k] == s1[k + 1]);
                }
            }
        }
        lemma_diversity_permutation(a, b, d);
        lemma_diversity_remove(s1, i, d);
        lemma_dist_sum_permutation(x, a, b);
    }
}

/// A solution: the selected points, in the order in which they were selected.
#[derive(Debug, Clone)]
pub struct ProblemSolution {
    pub points: Vec<Point>,
}

impl View for ProblemSolution {
    type V = Seq<Seq<i64>>;

    open spec fn view(&self) -> Seq<Seq<i64>> {
        views(self.points@)
    }
}

impl ProblemSolution {
    /// At most `MAX_POINTS` bounded points of one dimensionality.
    pub open spec fn wf(&self) -> bool {
        &&& self.points@.len() <= MAX_POINTS
        &&& uniform(self@, self.dim())
    }

    /// The dimensionality of the points (zero when there is none).
    pub open spec fn dim(&self) -> nat {
        if self.points@.len() == 0 {
            0
        } else {
            self.points@[0]@.len()
        }
    }

    /// A solution made of the given points.
    pub fn new(points: Vec<Point>) -> (r: ProblemSolution)
        ensures
            r.points@ == points@,
    {
        ProblemSolution { points }
    }

    /// The diversity `z`: the sum of the distances over all pairs of selected points.
    pub fn get_z(&self) -> (r: u64)
        requires
            self.wf(),
        ensures
            r as int == diversity(self@),
    {
        let n = self.points.len();
        let ghost s = self@;
        let ghost d = self.dim();
        let mut total: u64 = 0;
        let mut j: usize = 0;
        while j < n
            invariant
                n == s.len(),
                s == self@,
                self.wf(),
                d == self.dim(),
                j <= n,
                total as int == diversity(s.take(j as int)),
            decreases n - j,
        {
            let mut i: usize = 0;
            proof {
                assert(s.take(j as int + 1).drop_last() =~= s.take(j as int));
                assert(uniform(s.take(j as int + 1), d));
                lemma_diversity_fits(s.take(j as int + 1), d);
                assert(s.take(0) =~= Seq::<Seq<i64>>::empty());
            }
            while i < j
                invariant
                    n == s.len(),
                    s == self@,
                    self.wf(),
                    d == self.dim(),
                    i <= j,
                    j < n,
                    total as int == diversity(s.take(j as int)) + dist_sum(s[j as int], s.take(i as int)),
                    diversity(s.take(j as int + 1)) <= MAX_DIVERSITY,
                    s.take(j as int + 1).drop_last() =~= s.take(j as int),
                decreases j - i,
            {
                proof {
                    assert(s.take(i as int + 1).drop_last() =~= s.take(i as int));
                    let t = s.take(j as int);
                    assert(uniform(t, d));
                    assert(t.take(i as int + 1) =~= s.take(i as int + 1));
                    assert(uniform(s.take(i as int + 1), d));
                    assert(coords_bounded(s[j as int]));
                    lemma_dist_sum_bounded(s[j as int], s.take(i as int + 1), d);
                    lemma_dist_sum_bounded(s[j as int], s.take(j as int), d);
                    lemma_dist_sum_mono(s[j as int], s.take(j as int), (i + 1) as int, d);
                }
                let dist = self.points[j].distance_to(&self.points[i]);
                total = total + dist;
                i = i + 1;
            }
            j = j + 1;
        }
        assert(s.take(n as int) =~= s);
        total
    }

    /// A copy of the solution with the same points in the same order.
    pub fn duplicate(&self) -> (r: ProblemSolution)
        ensures
            r@ == self@,
            r.points@.len() == self.points@.len(),
            r.dim() == self.dim(),
            self.wf() ==> r.wf(),
    {
        let mut points: Vec<Point> = Vec::new();
        let mut i: usize = 0;
        while i < self.points.len()
            invariant
                i <= self.points@.len(),
                points@.len() == i,
                forall|k: int| 0 <= k < i ==> points@[k]@ == self.points@[k]@,
            decreases self.points@.len() - i,
        {
            points.push(self.points[i].duplicate());
            i = i + 1;
        }
        let r = ProblemSolution { points };
        assert(r@ =~= self@);
        proof {
            if self.points@.len() > 0 {
                assert(r@[0] == self@[0]);
            }
        }
        r
    }

    /// The selected points.
    pub fn get_points(&self) -> (r: &Vec<Point>)
        ensures
            r@ == self.points@,
    {
        &self.points
    }
}

/// Distances to a prefix of `s` sum to no more than distances to all of `s`.
proof fn lemma_dist_sum_mono(p: Seq<i64>, s: Seq<Seq<i64>>, k: int, d: nat)
    requires
        0 <= k <= s.len(),
    ensures
        dist_sum(p, s.take(k)) <= dist_sum(p, s),
    decreases s.len(),
{
    if k < s.len() {
        lemma_dist_sum_mono(p, s.drop_last(), k, d);
        assert(s.drop_last().take(k) =~= s.take(k));
    } else {
        assert(s.take(k) =~= s);
    }
}

} // verus!
