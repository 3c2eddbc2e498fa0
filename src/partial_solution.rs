//! Branch-and-bound nodes: a partial selection, by instance positions in
//! increasing order, with an upper bound of the diversity of its completions.
use vstd::prelude::*;
use crate::center::{first_max, first_max_index, ints, lemma_first_max};
use crate::instance::ProblemInstance;
use crate::point::{distance, Point, MAX_DISTANCE};
use crate::solution::{diversity, lemma_diversity_fits, views, ProblemSolution, MAX_POINTS};

verus! {

/// Largest doubled bound of a single point.
pub const MAX_POINT_BOUND: i128 = 0x8000_0000_0000;

/// The sum of the `k` largest values, taken by repeated removal of the first largest.
pub open spec fn top_sum(vals: Seq<int>, k: nat) -> int
    decreases k,
{
    if k == 0 || vals.len() == 0 {
        0
    } else {
        let j = first_max(vals);
        vals[j] + top_sum(vals.remove(j), (k - 1) as nat)
    }
}

/// Values between 0 and `b`.
pub open spec fn within(vals: Seq<int>, b: int) -> bool {
    forall|i: int| 0 <= i < vals.len() ==> 0 <= #[trigger] vals[i] <= b
}

pub proof fn lemma_top_sum_bounded(vals: Seq<int>, k: nat, b: int)
    requires
        within(vals, b),
        b >= 0,
    ensures
        0 <= top_sum(vals, k) <= k * b,
    decreases k,
{
    if k > 0 && vals.len() > 0 {
        lemma_first_max(vals);
        let j = first_max(vals);
        let rest = vals.remove(j);
        assert forall|i: int| 0 <= i < rest.len() implies 0 <= #[trigger] rest[i] <= b by {
            if i < j {
                assert(rest[i] == vals[i]);
            } else {
                assert(rest[i] == vals[i + 1]);
            }
        }
        lemma_top_sum_bounded(rest, (k - 1) as nat, b);
        assert((k - 1) * b + b == k * b) by (nonlinear_arith);
    } else {
        assert(0 <= k * b) by (nonlinear_arith)
            requires
                b >= 0,
        ;
    }
}

/// The instance points at the given positions.
pub open spec fn pick(inst: Seq<Seq<i64>>, idx: Seq<int>) -> Seq<Seq<i64>> {
    Seq::new(idx.len(), |t: int| inst[idx[t]])
}

/// Positions below `n` that `chosen` does not hold, in increasing order.
pub open spec fn outside(chosen: Seq<int>, n: nat) -> Seq<int>
    decreases n,
{
    if n == 0 {
        Seq::empty()
    } else {
        let o = outside(chosen, (n - 1) as nat);
        if chosen.contains(n - 1) {
            o
        } else {
            o.push(n - 1)
        }
    }
}

/// Sum of the distances from `p` to the instance points at positions `chosen`.
pub open spec fn chosen_dist_sum(inst: Seq<Seq<i64>>, p: Seq<i64>, chosen: Seq<int>) -> int
    decreases chosen.len(),
{
    if chosen.len() == 0 {
        0
    } else {
        chosen_dist_sum(inst, p, chosen.drop_last()) + distance(p, inst[chosen.last()])
    }
}

/// Distances from point `k` to the points at positions `others`, but `k` itself.
pub open spec fn dists_except(inst: Seq<Seq<i64>>, others: Seq<int>, k: int) -> Seq<int>
    decreases others.len(),
{
    if others.len() == 0 {
        Seq::empty()
    } else {
        let r = dists_except(inst, others.drop_last(), k);
        let o = others.last();
        if o == k {
            r
        } else {
            r.push(distance(inst[k], inst[o]) as int)
        }
    }
}

/// Twice the bound of what point `k` can add when `r` more points are needed:
/// twice its distances to the chosen points, plus its `r - 1` largest distances
/// to the other points not chosen.
pub open spec fn point_bound2(inst: Seq<Seq<i64>>, chosen: Seq<int>, k: int, r: nat) -> int {
    2 * chosen_dist_sum(inst, inst[k], chosen) + top_sum(
        dists_except(inst, outside(chosen, inst.len()), k),
        (r - 1) as nat,
    )
}

/// The doubled bounds of all points not chosen, in instance order.
pub open spec fn point_bounds2(inst: Seq<Seq<i64>>, chosen: Seq<int>, r: nat) -> Seq<int> {
    let o = outside(chosen, inst.len());
    Seq::new(o.len(), |t: int| point_bound2(inst, chosen, o[t], r))
}

/// The upper bound of a node with positions `chosen` needing `r` more points:
/// the diversity of the chosen points, plus half the sum of the `r` largest
/// doubled point bounds, rounded up.
pub open spec fn upper_bound_of(inst: Seq<Seq<i64>>, chosen: Seq<int>, r: nat) -> int {
    if r == 0 {
        diversity(pick(inst, chosen))
    } else {
        diversity(pick(inst, chosen)) + (top_sum(point_bounds2(inst, chosen, r), r) + 1) / 2
    }
}

/// Positions strictly increasing, each below `n`.
pub open spec fn ascending(idx: Seq<int>, n: nat) -> bool {
    &&& forall|a: int, b: int| 0 <= a < b < idx.len() ==> idx[a] < idx[b]
    &&& forall|a: int| 0 <= a < idx.len() ==> 0 <= #[trigger] idx[a] < n
}

/// Positions of a vector, as integers.
pub open spec fn positions(v: Seq<usize>) -> Seq<int> {
    v.map_values(|x: usize| x as int)
}

/// The sum of the `k` largest values (consumes the values).
pub fn top_sum_exec(vals: Vec<i128>, k: usize) -> (r: i128)
    requires
        within(ints(vals@), MAX_POINT_BOUND as int),
        k <= MAX_POINTS,
    ensures
        r == top_sum(ints(vals@), k as nat),
{
    let ghost orig = ints(vals@);
    let mut vals = vals;
    let mut total: i128 = 0;
    let mut t: usize = 0;
    proof {
        lemma_top_sum_bounded(orig, k as nat, MAX_POINT_BOUND as int);
    }
    while t < k && vals.len() > 0
        invariant
            t <= k,
            k <= MAX_POINTS,
            within(ints(vals@), MAX_POINT_BOUND as int),
            total + top_sum(ints(vals@), (k - t) as nat) == top_sum(orig, k as nat),
            0 <= total <= t * MAX_POINT_BOUND,
        decreases k - t,
    {
        let ghost v = ints(vals@);
        let j = first_max_index(&vals);
        proof {
            lemma_first_max(v);
            assert(ints(vals@.remove(j as int)) =~= v.remove(j as int));
            lemma_top_sum_bounded(v.remove(j as int), (k - t - 1) as nat, MAX_POINT_BOUND as int);
            assert(v[j as int] <= MAX_POINT_BOUND);
        }
        let x = vals.remove(j);
        total = total + x;
        t = t + 1;
    }
    total
}

/// Positions below `n` that `indices` does not hold, in increasing order.
pub fn outside_positions(indices: &Vec<usize>, n: usize) -> (r: Vec<usize>)
    ensures
        positions(r@) == outside(positions(indices@), n as nat),
        r@.len() <= n,
        forall|t: int| 0 <= t < r@.len() ==> #[trigger] r@[t] < n,
{
    let ghost ch = positions(indices@);
    let mut r: Vec<usize> = Vec::new();
    let mut c: usize = 0;
    while c < n
        invariant
            ch == positions(indices@),
            c <= n,
            positions(r@) == outside(ch, c as nat),
            r@.len() <= c,
            forall|t: int| 0 <= t < r@.len() ==> #[trigger] r@[t] < c,
        decreases n - c,
    {
        let mut taken = false;
        let mut t: usize = 0;
        while t < indices.len()
            invariant
                ch == positions(indices@),
                t <= indices@.len(),
                taken == (exists|e: int| 0 <= e < t && indices@[e] == c),
            decreases indices@.len() - t,
        {
            if indices[t] == c {
                taken = true;
            }
            t = t + 1;
        }
        proof {
            if taken {
                let e = choose|e: int| 0 <= e < t && indices@[e] == c;
                assert(ch[e] == c);
                assert(ch.contains(c as int));
            } else {
                assert forall|e: int| 0 <= e < ch.len() implies ch[e] != c by {
                    assert(indices@[e] != c);
                }
            }
        }
        if !taken {
            r.push(c);
            assert(positions(r@) =~= outside(ch, c as nat).push(c as int));
        }
        c = c + 1;
    }
    r
}

/// Sum of the distances from `p` to the instance points at `indices`.
pub fn chosen_distance_sum(instance: &ProblemInstance, p: &Point, indices: &Vec<usize>) -> (r: u64)
    requires
        instance.wf(),
        crate::point::coords_bounded(p@),
        p@.len() == instance.dimensionality,
        ascending(positions(indices@), instance@.len()),
    ensures
        r as int == chosen_dist_sum(instance@, p@, positions(indices@)),
        r <= indices@.len() * MAX_DISTANCE,
{
    let ghost inst = instance@;
    let ghost ch = positions(indices@);
    let mut total: u64 = 0;
    let mut t: usize = 0;
    while t < indices.len()
        invariant
            inst == instance@,
            ch == positions(indices@),
            instance.wf(),
            crate::point::coords_bounded(p@),
            p@.len() == instance.dimensionality,
            ascending(ch, inst.len()),
            t <= indices@.len(),
            total as int == chosen_dist_sum(inst, p@, ch.take(t as int)),
            total <= t * MAX_DISTANCE,
        decreases indices@.len() - t,
    {
        let c = indices[t];
        assert(ch[t as int] == c);
        assert(c < inst.len());
        assert(inst[c as int] == instance.points@[c as int]@);
        assert(crate::point::coords_bounded(inst[c as int]));
        let dist = p.distance_to(&instance.points[c]);
        proof {
            assert(ch.take(t as int + 1).drop_last() =~= ch.take(t as int));
            assert(indices@.len() <= MAX_POINTS) by {
                crate::partial_solution::lemma_ascending_len(ch, inst.len());
            }
            assert((t + 1) * MAX_DISTANCE <= 65536 * MAX_DISTANCE) by (nonlinear_arith)
                requires
                    t + 1 <= 65536,
            ;
        }
        total = total + dist;
        t = t + 1;
    }
    assert(ch.take(indices@.len() as int) =~= ch);
    total
}

/// Distances from point `k` to the instance points at `others`, but `k` itself.
pub fn distances_except(instance: &ProblemInstance, others: &Vec<usize>, k: usize) -> (r: Vec<i128>)
    requires
        instance.wf(),
        k < instance@.len(),
        forall|t: int| 0 <= t < others@.len() ==> #[trigger] others@[t] < instance@.len(),
    ensures
        ints(r@) == dists_except(instance@, positions(others@), k as int),
        within(ints(r@), MAX_DISTANCE as int),
{
    let ghost inst = instance@;
    let ghost os = positions(others@);
    let mut r: Vec<i128> = Vec::new();
    let mut t: usize = 0;
    assert(crate::point::coords_bounded(inst[k as int]));
    while t < others.len()
        invariant
            inst == instance@,
            os == positions(others@),
            instance.wf(),
            k < inst.len(),
            forall|e: int| 0 <= e < others@.len() ==> #[trigger] others@[e] < inst.len(),
            t <= others@.len(),
            ints(r@) == dists_except(inst, os.take(t as int), k as int),
            within(ints(r@), MAX_DISTANCE as int),
        decreases others@.len() - t,
    {
        let o = others[t];
        proof {
            assert(os.take(t as int + 1).drop_last() =~= os.take(t as int));
            assert(os.take(t as int + 1).last() == o);
        }
        if o != k {
            assert(crate::point::coords_bounded(inst[o as int]));
            assert(inst[o as int] == instance.points@[o as int]@);
            assert(inst[k as int] == instance.points@[k as int]@);
            let dist = instance.points[k].distance_to(&instance.points[o]);
            let ghost before = ints(r@);
            r.push(dist as i128);
            assert(ints(r@) =~= before.push(dist as int));
        }
        t = t + 1;
    }
    assert(os.take(others@.len() as int) =~= os);
    r
}

/// An ascending sequence of positions below `n` has at most `n` entries.
pub proof fn lemma_ascending_len(idx: Seq<int>, n: nat)
    requires
        ascending(idx, n),
        n <= MAX_POINTS,
    ensures
        idx.len() <= n,
    decreases idx.len(),
{
    if idx.len() > 0 {
        let t = idx.drop_last();
        assert(ascending(t, n));
        lemma_ascending_len(t, n);
        assert forall|a: int| 0 <= a < idx.len() implies #[trigger] idx[a] >= a by {
            lemma_ascending_floor(idx, n, a);
        }
        assert(idx[idx.len() - 1] >= idx.len() - 1);
    }
}

/// The position at place `a` of an ascending sequence is at least `a`.
pub proof fn lemma_ascending_floor(idx: Seq<int>, n: nat, a: int)
    requires
        ascending(idx, n),
        0 <= a < idx.len(),
    ensures
        idx[a] >= a,
    decreases a,
{
    if a > 0 {
        lemma_ascending_floor(idx, n, a - 1);
        assert(idx[a - 1] < idx[a]);
    }
}

/// Twice the bound of what point `k` can add when `r` more points are needed.
pub fn get_point_upper_bound(
    instance: &ProblemInstance,
    indices: &Vec<usize>,
    others: &Vec<usize>,
    k: usize,
    r: usize,
) -> (b: i128)
    requires
        instance.wf(),
        ascending(positions(indices@), instance@.len()),
        positions(others@) == outside(positions(indices@), instance@.len()),
        forall|t: int| 0 <= t < others@.len() ==> #[trigger] others@[t] < instance@.len(),
        k < instance@.len(),
        1 <= r <= MAX_POINTS,
    ensures
        b as int == point_bound2(instance@, positions(indices@), k as int, r as nat),
        0 <= b <= MAX_POINT_BOUND,
{
    let ghost inst = instance@;
    assert(inst[k as int] == instance.points@[k as int]@);
    assert(crate::point::coords_bounded(inst[k as int]));
    let to_chosen = chosen_distance_sum(instance, &instance.points[k], indices);
    let distances = distances_except(instance, others, k);
    proof {
        lemma_ascending_len(positions(indices@), inst.len());
        lemma_top_sum_bounded(ints(distances@), (r - 1) as nat, MAX_DISTANCE as int);
        assert(indices@.len() * MAX_DISTANCE <= 65536 * MAX_DISTANCE) by (nonlinear_arith)
            requires
                indices@.len() <= 65536,
        ;
        assert((r - 1) * MAX_DISTANCE <= 65536 * MAX_DISTANCE) by (nonlinear_arith)
            requires
                r - 1 <= 65536,
        ;
        assert(within(ints(distances@), MAX_POINT_BOUND as int));
    }
    let best = top_sum_exec(distances, r - 1);
    2 * (to_chosen as i128) + best
}

/// The upper bound of the node with positions `indices` and points `solution`,
/// needing `points_to_add` more points.
pub fn get_upper_bound(
    instance: &ProblemInstance,
    indices: &Vec<usize>,
    solution: &ProblemSolution,
    points_to_add: usize,
) -> (b: u64)
    requires
        instance.wf(),
        ascending(positions(indices@), instance@.len()),
        solution@ == pick(instance@, positions(indices@)),
        solution.wf(),
        points_to_add <= MAX_POINTS,
    ensures
        b as int == upper_bound_of(instance@, positions(indices@), points_to_add as nat),
{
    let ghost inst = instance@;
    let ghost ch = positions(indices@);
    proof {
        lemma_diversity_fits(solution@, solution.dim());
    }
    let z = solution.get_z();
    if points_to_add == 0 {
        return z;
    }
    let others = outside_positions(indices, instance.points.len());
    let ghost o = positions(others@);
    let mut bounds: Vec<i128> = Vec::new();
    let mut t: usize = 0;
    while t < others.len()
        invariant
            inst == instance@,
            ch == positions(indices@),
            o == positions(others@),
            instance.wf(),
            ascending(ch, inst.len()),
            o == outside(ch, inst.len()),
            forall|e: int| 0 <= e < others@.len() ==> #[trigger] others@[e] < inst.len(),
            1 <= points_to_add <= MAX_POINTS,
            t <= others@.len(),
            bounds@.len() == t,
            forall|e: int| 0 <= e < t ==> #[trigger] ints(bounds@)[e] == point_bounds2(inst, ch, points_to_add as nat)[e],
            within(ints(bounds@), MAX_POINT_BOUND as int),
        decreases others@.len() - t,
    {
        let b = get_point_upper_bound(instance, indices, &others, others[t], points_to_add);
        let ghost before = bounds@;
        bounds.push(b);
        proof {
            assert forall|e: int| 0 <= e < t + 1 implies #[trigger] ints(bounds@)[e] == point_bounds2(inst, ch, points_to_add as nat)[e] by {
                if e < t {
                    assert(bounds@[e] == before[e]);
                    assert(ints(before)[e] == point_bounds2(inst, ch, points_to_add as nat)[e]);
                }
            }
            assert forall|e: int| 0 <= e < bounds@.len() implies 0 <= #[trigger] ints(bounds@)[e] <= MAX_POINT_BOUND by {
                if e < t {
                    assert(bounds@[e] == before[e]);
                    assert(ints(before)[e] == before[e]);
                }
            }
        }
        t = t + 1;
    }
    assert(ints(bounds@) =~= point_bounds2(inst, ch, points_to_add as nat));
    proof {
        lemma_top_sum_bounded(ints(bounds@), points_to_add as nat, MAX_POINT_BOUND as int);
        assert(points_to_add * MAX_POINT_BOUND <= 65536 * MAX_POINT_BOUND) by (nonlinear_arith)
            requires
                points_to_add <= 65536,
        ;
    }
    let total = top_sum_exec(bounds, points_to_add);
    z + ((total + 1) / 2) as u64
}

/// A node of the branch-and-bound search.
pub struct PartialSolution {
    /// The chosen points.
    pub solution: ProblemSolution,
    /// Their positions in the instance, increasing.
    pub indices: Vec<usize>,
    /// An upper bound of the diversity of any completion.
    pub upper_bound: u64,
}

impl PartialSolution {
    /// The node is consistent with the instance and a target of `size` points:
    /// ascending positions, no more than `size`, the points at those positions,
    /// and the bound of the node.
    pub open spec fn wf(&self, instance: &ProblemInstance, size: nat) -> bool {
        let ch = positions(self.indices@);
        &&& ascending(ch, instance@.len())
        &&& ch.len() <= size
        &&& self.solution@ == pick(instance@, ch)
        &&& self.solution.wf()
        &&& self.upper_bound as int == upper_bound_of(instance@, ch, (size - ch.len()) as nat)
    }

    /// The node with the points at `indices`, for a target of `size` points.
    pub fn new(indices: Vec<usize>, instance: &ProblemInstance, size: usize) -> (r: Self)
        requires
            instance.wf(),
            size <= instance@.len(),
            ascending(positions(indices@), instance@.len()),
            indices@.len() <= size,
        ensures
            r.wf(instance, size as nat),
            r.indices@ == indices@,
    {
        let ghost ch = positions(indices@);
        let mut points: Vec<Point> = Vec::new();
        let mut t: usize = 0;
        while t < indices.len()
            invariant
                ch == positions(indices@),
                instance.wf(),
                ascending(ch, instance@.len()),
                t <= indices@.len(),
                views(points@) =~= pick(instance@, ch.take(t as int)),
            decreases indices@.len() - t,
        {
            let c = indices[t];
            assert(ch[t as int] == c);
            let ghost before = views(points@);
            points.push(instance.points[c].duplicate());
            proof {
                assert(views(points@) =~= before.push(instance@[c as int]));
                assert(ch.take(t as int + 1) =~= ch.take(t as int).push(c as int));
            }
            t = t + 1;
        }
        let solution = ProblemSolution { points };
        proof {
            assert(ch.take(indices@.len() as int) =~= ch);
            lemma_ascending_len(ch, instance@.len());
            let d = instance.dimensionality as nat;
            assert forall|a: int| 0 <= a < solution@.len() implies crate::point::coords_bounded(#[trigger] solution@[a])
                && solution@[a].len() == d by {
                assert(solution@[a] == instance@[ch[a]]);
            }
            if solution@.len() > 0 {
                assert(solution@[0].len() == d);
            }
        }
        let upper_bound = get_upper_bound(instance, &indices, &solution, size - indices.len());
        PartialSolution { solution, indices, upper_bound }
    }
}

} // verus!
