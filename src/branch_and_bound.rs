//! Exact search by branch and bound. Nodes extend a partial selection only with
//! later instance positions, inside a window that leaves room for the points
//! still to come, so each selection is reached along exactly one path. Nodes
//! whose bound does not beat the best known diversity are dropped.
use vstd::prelude::*;
use crate::instance::ProblemInstance;
use crate::partial_solution::{
    ascending, lemma_ascending_len, pick, positions, upper_bound_of, PartialSolution,
};
use crate::solution::{diversity, lemma_diversity_fits, uniform, ProblemSolution};
use crate::bound_lemmas::{in_range, lemma_node_bound_admissible};
use crate::solver::{selection_of, solution_for, ProblemSolver};

verus! {

pub open spec fn power(b: nat, e: nat) -> nat
    decreases e,
{
    if e == 0 {
        1
    } else {
        b * power(b, (e - 1) as nat)
    }
}

/// How much search a frontier can still cause: a node with `k` points counts
/// `w^(size - k)`, which is more than all the children it can have.
pub open spec fn weight(f: Seq<PartialSolution>, size: nat, w: nat) -> nat
    decreases f.len(),
{
    if f.len() == 0 {
        0
    } else {
        weight(f.drop_last(), size, w) + power(w, (size - f.last().indices@.len()) as nat)
    }
}

/// The nodes of `f` whose bound exceeds `lower_bound`, in order.
pub open spec fn kept(f: Seq<PartialSolution>, lower_bound: u64) -> Seq<PartialSolution>
    decreases f.len(),
{
    if f.len() == 0 {
        Seq::empty()
    } else {
        let r = kept(f.drop_last(), lower_bound);
        if f.last().upper_bound > lower_bound {
            r.push(f.last())
        } else {
            r
        }
    }
}

proof fn lemma_weight_remove(f: Seq<PartialSolution>, j: int, size: nat, w: nat)
    requires
        0 <= j < f.len(),
    ensures
        weight(f, size, w) == weight(f.remove(j), size, w) + power(w, (size - f[j].indices@.len()) as nat),
    decreases f.len(),
{
    if j < f.len() - 1 {
        lemma_weight_remove(f.drop_last(), j, size, w);
        assert(f.remove(j).drop_last() =~= f.drop_last().remove(j));
    } else {
        assert(f.remove(j) =~= f.drop_last());
    }
}

proof fn lemma_weight_kept(f: Seq<PartialSolution>, lower_bound: u64, size: nat, w: nat)
    ensures
        weight(kept(f, lower_bound), size, w) <= weight(f, size, w),
    decreases f.len(),
{
    if f.len() > 0 {
        lemma_weight_kept(f.drop_last(), lower_bound, size, w);
        let r = kept(f.drop_last(), lower_bound);
        if f.last().upper_bound > lower_bound {
            assert(r.push(f.last()).drop_last() =~= r);
        }
    }
}

proof fn lemma_kept_elements(f: Seq<PartialSolution>, lower_bound: u64)
    ensures
        forall|i: int| 0 <= i < kept(f, lower_bound).len() ==> exists|j: int| 0 <= j < f.len() && #[trigger] kept(f, lower_bound)[i] == f[j],
    decreases f.len(),
{
    if f.len() > 0 {
        lemma_kept_elements(f.drop_last(), lower_bound);
        let r = kept(f.drop_last(), lower_bound);
        assert forall|i: int| 0 <= i < kept(f, lower_bound).len() implies exists|j: int| 0 <= j < f.len() && #[trigger] kept(f, lower_bound)[i] == f[j] by {
            if i < r.len() {
                let j = choose|j: int| 0 <= j < f.drop_last().len() && r[i] == f.drop_last()[j];
                assert(kept(f, lower_bound)[i] == f[j]);
            } else {
                assert(kept(f, lower_bound)[i] == f[f.len() - 1]);
            }
        }
    }
}

proof fn lemma_kept_keeps(f: Seq<PartialSolution>, lower_bound: u64, j: int)
    requires
        0 <= j < f.len(),
        f[j].upper_bound > lower_bound,
    ensures
        exists|j2: int| 0 <= j2 < kept(f, lower_bound).len() && kept(f, lower_bound)[j2] == f[j],
    decreases f.len(),
{
    let r = kept(f.drop_last(), lower_bound);
    if j < f.len() - 1 {
        lemma_kept_keeps(f.drop_last(), lower_bound, j);
        let j2 = choose|j2: int| 0 <= j2 < r.len() && r[j2] == f.drop_last()[j];
        assert(kept(f, lower_bound)[j2] == f[j]);
    } else {
        assert(kept(f, lower_bound)[r.len() as int] == f[j]);
    }
}

proof fn lemma_children_weight(n: nat, e: nat)
    ensures
        n * power(n + 1, e) < power(n + 1, e + 1),
{
    assert(power(n + 1, e + 1) == (n + 1) * power(n + 1, e));
    lemma_power_positive(n + 1, e);
    assert(n * power(n + 1, e) < (n + 1) * power(n + 1, e)) by (nonlinear_arith)
        requires
            power(n + 1, e) > 0,
    ;
}

proof fn lemma_power_positive(b: nat, e: nat)
    requires
        b > 0,
    ensures
        power(b, e) > 0,
    decreases e,
{
    if e > 0 {
        lemma_power_positive(b, (e - 1) as nat);
        assert(b * power(b, (e - 1) as nat) > 0) by (nonlinear_arith)
            requires
                b > 0,
                power(b, (e - 1) as nat) > 0,
        ;
    }
}

/// Ascending positions into distinct points pick distinct points of the instance.
pub proof fn lemma_pick_selection(instance: &ProblemInstance, idx: Seq<int>)
    requires
        instance.wf(),
        ascending(idx, instance@.len()),
    ensures
        selection_of(instance@, pick(instance@, idx)),
        uniform(pick(instance@, idx), instance.dimensionality as nat),
{
    let inst = instance@;
    let s = pick(inst, idx);
    assert forall|a: int, b: int| 0 <= a < b < s.len() implies s[a] != s[b] by {
        assert(idx[a] < idx[b]);
    }
    assert forall|a: int| 0 <= a < s.len() implies inst.contains(#[trigger] s[a]) by {
        assert(inst[idx[a]] == s[a]);
    }
}

/// Each position of the node leaves room for the points still to come: the
/// one at place `t` is at most `n - size + t`.
pub open spec fn in_window(node: PartialSolution, n: nat, size: nat) -> bool {
    forall|t: int| 0 <= t < node.indices@.len() ==> #[trigger] node.indices@[t] <= n - size + t
}

/// The first position that may extend a node with positions `idx`.
pub open spec fn first_candidate(idx: Seq<usize>) -> int {
    if idx.len() == 0 {
        0
    } else {
        idx.last() + 1
    }
}

/// The positions that may extend `node`: from the one after its last position
/// (or the first) up to `n - size + k`, where `k` is its number of points.
pub fn get_possible_points_to_add(instance: &ProblemInstance, node: &PartialSolution, size: usize) -> (r: Vec<usize>)
    requires
        instance.wf(),
        0 < size <= instance@.len(),
        node.wf(instance, size as nat),
        in_window(*node, instance@.len(), size as nat),
        node.indices@.len() < size,
    ensures
        r@.len() <= instance@.len(),
        first_candidate(node.indices@) + r@.len() == instance@.len() - size + node.indices@.len() + 1,
        forall|t: int| 0 <= t < r@.len() ==> #[trigger] r@[t] == first_candidate(node.indices@) + t,
        forall|t: int| 0 <= t < r@.len() ==> {
            &&& #[trigger] r@[t] <= instance@.len() - size + node.indices@.len()
            &&& (node.indices@.len() > 0 ==> r@[t] > node.indices@.last())
            &&& (t > 0 ==> r@[t - 1] < r@[t])
        },
{
    let n = instance.points.len();
    let k = node.indices.len();
    let i = if k == 0 { 0 } else { node.indices[k - 1] + 1 };
    proof {
        if k > 0 {
            assert(positions(node.indices@)[k - 1] == node.indices@[k - 1]);
        }
    }
    let last = n - size + k;
    let mut r: Vec<usize> = Vec::new();
    let mut c: usize = i;
    while c <= last
        invariant
            n == instance@.len(),
            last == n - size + k,
            k < size,
            k == node.indices@.len(),
            k > 0 ==> i == node.indices@.last() + 1,
            k == 0 ==> i == 0,
            i <= c <= last + 1,
            r@.len() == c - i,
            forall|t: int| 0 <= t < r@.len() ==> #[trigger] r@[t] == i + t,
        decreases last + 1 - c,
    {
        r.push(c);
        c = c + 1;
    }
    r
}

/// The node that adds position `c` to `node`.
pub fn get_new_partial_solution(node: &PartialSolution, c: usize, instance: &ProblemInstance, size: usize) -> (r: PartialSolution)
    requires
        instance.wf(),
        0 < size <= instance@.len(),
        node.wf(instance, size as nat),
        in_window(*node, instance@.len(), size as nat),
        node.indices@.len() < size,
        c <= instance@.len() - size + node.indices@.len(),
        node.indices@.len() > 0 ==> c > node.indices@.last(),
    ensures
        r.wf(instance, size as nat),
        in_window(r, instance@.len(), size as nat),
        r.indices@ == node.indices@.push(c),
{
    let mut indices = node.indices.clone();
    indices.push(c);
    proof {
        let ch = positions(indices@);
        let old_ch = positions(node.indices@);
        assert(ch =~= old_ch.push(c as int));
        assert forall|a: int, b: int| 0 <= a < b < ch.len() implies ch[a] < ch[b] by {
            if b == ch.len() - 1 && a < b {
                if old_ch.len() > 0 {
                    assert(old_ch[old_ch.len() - 1] == node.indices@.last());
                    if a < old_ch.len() - 1 {
                        assert(old_ch[a] < old_ch[old_ch.len() - 1]);
                    }
                }
            }
        }
        assert forall|t: int| 0 <= t < indices@.len() implies #[trigger] indices@[t] <= instance@.len() - size + t by {
            if t < old_ch.len() {
                assert(old_ch[t] == node.indices@[t]);
            }
        }
    }
    PartialSolution::new(indices, instance, size)
}

/// Removes from the frontier the node with the smallest bound (the first such).
pub fn get_partial_solution_with_smallest_upper_bound(partial_solutions: &mut Vec<PartialSolution>) -> (r: PartialSolution)
    requires
        old(partial_solutions)@.len() > 0,
    ensures
        exists|j: int| {
            &&& 0 <= j < old(partial_solutions)@.len()
            &&& r == old(partial_solutions)@[j]
            &&& final(partial_solutions)@ == old(partial_solutions)@.remove(j)
            &&& forall|t: int| 0 <= t < old(partial_solutions)@.len() ==> #[trigger] old(partial_solutions)@[t].upper_bound >= r.upper_bound
            &&& forall|t: int| 0 <= t < j ==> #[trigger] old(partial_solutions)@[t].upper_bound > r.upper_bound
        },
{
    let mut best: usize = 0;
    let mut t: usize = 1;
    while t < partial_solutions.len()
        invariant
            1 <= t <= partial_solutions@.len(),
            best < t,
            forall|e: int| 0 <= e < t ==> #[trigger] partial_solutions@[e].upper_bound >= partial_solutions@[best as int].upper_bound,
            forall|e: int| 0 <= e < best ==> #[trigger] partial_solutions@[e].upper_bound > partial_solutions@[best as int].upper_bound,
        decreases partial_solutions@.len() - t,
    {
        if partial_solutions[t].upper_bound < partial_solutions[best].upper_bound {
            best = t;
        }
        t = t + 1;
    }
    partial_solutions.remove(best)
}

/// Removes from the frontier the node with the most points (the first such).
pub fn get_deepest_partial_solution(partial_solutions: &mut Vec<PartialSolution>) -> (r: PartialSolution)
    requires
        old(partial_solutions)@.len() > 0,
    ensures
        exists|j: int| {
            &&& 0 <= j < old(partial_solutions)@.len()
            &&& r == old(partial_solutions)@[j]
            &&& final(partial_solutions)@ == old(partial_solutions)@.remove(j)
            &&& forall|t: int| 0 <= t < old(partial_solutions)@.len() ==> #[trigger] old(partial_solutions)@[t].solution.points@.len() <= r.solution.points@.len()
            &&& forall|t: int| 0 <= t < j ==> #[trigger] old(partial_solutions)@[t].solution.points@.len() < r.solution.points@.len()
        },
{
    let mut best: usize = 0;
    let mut t: usize = 1;
    while t < partial_solutions.len()
        invariant
            1 <= t <= partial_solutions@.len(),
            best < t,
            forall|e: int| 0 <= e < t ==> #[trigger] partial_solutions@[e].solution.points@.len() <= partial_solutions@[best as int].solution.points@.len(),
            forall|e: int| 0 <= e < best ==> #[trigger] partial_solutions@[e].solution.points@.len() < partial_solutions@[best as int].solution.points@.len(),
        decreases partial_solutions@.len() - t,
    {
        if partial_solutions[t].solution.points.len() > partial_solutions[best].solution.points.len() {
            best = t;
        }
        t = t + 1;
    }
    partial_solutions.remove(best)
}

/// Keeps the nodes whose bound exceeds `lower_bound`, in order.
pub fn prune(partial_solutions: Vec<PartialSolution>, lower_bound: u64) -> (r: Vec<PartialSolution>)
    ensures
        r@ == kept(partial_solutions@, lower_bound),
{
    let ghost f = partial_solutions@;
    let mut rest = partial_solutions;
    let mut reversed: Vec<PartialSolution> = Vec::new();
    // take nodes from the back, then restore the order
    while rest.len() > 0
        invariant
            rest@.len() <= f.len(),
            rest@ == f.take(rest@.len() as int),
            kept(f, lower_bound) == kept(rest@, lower_bound) + reversed@.reverse(),
        decreases rest@.len(),
    {
        let ghost before = rest@;
        let node = rest.pop().unwrap();
        proof {
            assert(before.drop_last() =~= rest@);
            assert(rest@ =~= f.take(rest@.len() as int));
        }
        if node.upper_bound > lower_bound {
            let ghost rv = reversed@;
            reversed.push(node);
            proof {
                assert(reversed@.reverse() =~= seq![node] + rv.reverse());
                assert(kept(before, lower_bound) == kept(rest@, lower_bound).push(node));
                assert(kept(rest@, lower_bound).push(node) + rv.reverse() =~= kept(rest@, lower_bound) + (seq![node] + rv.reverse()));
            }
        }
    }
    let mut r: Vec<PartialSolution> = Vec::new();
    let ghost rv = reversed@;
    while reversed.len() > 0
        invariant
            kept(f, lower_bound) == r@ + reversed@.reverse(),
        decreases reversed@.len(),
    {
        let ghost before = reversed@;
        let node = reversed.pop().unwrap();
        proof {
            assert(before.reverse() =~= seq![node] + reversed@.reverse());
        }
        r.push(node);
        proof {
            assert(r@ + reversed@.reverse() =~= r@.drop_last() + before.reverse());
        }
    }
    assert(r@ =~= r@ + reversed@.reverse());
    r
}

/// The node positions `idx` start the complete selection `t`.
pub open spec fn completes(idx: Seq<int>, t: Seq<int>) -> bool {
    idx.len() <= t.len() && t.take(idx.len() as int) == idx
}

/// A complete selection `t` is dealt with: it is no better than `lower_bound`,
/// or some node of the frontier can still reach it.
pub open spec fn covered(inst: Seq<Seq<i64>>, t: Seq<int>, f: Seq<PartialSolution>, lower_bound: int) -> bool {
    diversity(pick(inst, t)) <= lower_bound || exists|j: int|
        0 <= j < f.len() && #[trigger] completes(positions(f[j].indices@), t)
}

/// A complete selection: `size` positions in increasing order.
pub open spec fn full_selection(t: Seq<int>, n: nat, size: nat) -> bool {
    ascending(t, n) && t.len() == size
}

proof fn lemma_ascending_ceiling(t: Seq<int>, n: nat, a: int)
    requires
        ascending(t, n),
        0 <= a < t.len(),
    ensures
        t[a] <= n - t.len() + a,
    decreases t.len() - a,
{
    if a < t.len() - 1 {
        lemma_ascending_ceiling(t, n, a + 1);
        assert(t[a] < t[a + 1]);
    } else {
        assert(t[a] < n);
    }
}

/// A node that starts a complete selection bounds its diversity.
proof fn lemma_prefix_bound(instance: &ProblemInstance, node: &PartialSolution, size: nat, t: Seq<int>)
    requires
        instance.wf(),
        node.wf(instance, size),
        full_selection(t, instance@.len(), size),
        completes(positions(node.indices@), t),
    ensures
        diversity(pick(instance@, t)) <= node.upper_bound,
{
    let ch = positions(node.indices@);
    let k = ch.len() as int;
    let extra = t.skip(k);
    assert(ch + extra =~= t);
    assert(in_range(extra, instance@.len() as int)) by {
        assert forall|u: int| 0 <= u < extra.len() implies 0 <= #[trigger] extra[u] < instance@.len() by {
            assert(extra[u] == t[u + k]);
        }
    }
    assert(extra.no_duplicates()) by {
        assert forall|a: int, b: int| 0 <= a < b < extra.len() implies extra[a] != extra[b] by {
            assert(t[a + k] < t[b + k]);
        }
    }
    assert forall|u: int| 0 <= u < extra.len() implies !ch.contains(#[trigger] extra[u]) by {
        if ch.contains(extra[u]) {
            let e = choose|e: int| 0 <= e < ch.len() && ch[e] == extra[u];
            assert(t[e] == ch[e]);
            assert(extra[u] == t[u + k]);
            assert(t[e] < t[u + k]);
        }
    }
    lemma_node_bound_admissible(instance, node, size, extra);
}

/// The order in which the frontier is explored.
#[derive(Clone, Copy, PartialEq, Eq, Structural)]
pub enum NodeSelection {
    /// The node with the smallest upper bound first.
    SmallestBound,
    /// The node with the most points first.
    Deepest,
}

/// The branch-and-bound search from the complete solution `seed`, whose size is
/// the target and whose diversity is the first lower bound. Returns the best
/// solution found, never worse than the seed; adds the number of generated
/// nodes to `generated` (saturating).
#[verifier::rlimit(80)]
#[verifier::spinoff_prover]
pub fn search(
    instance: &ProblemInstance,
    seed: ProblemSolution,
    selection: NodeSelection,
    generated: &mut usize,
) -> (r: ProblemSolution)
    requires
        instance.wf(),
        solution_for(instance, &seed),
    ensures
        solution_for(instance, &r),
        r@.len() == seed@.len(),
        diversity(r@) >= diversity(seed@),
        forall|t: Seq<int>| full_selection(t, instance@.len(), seed@.len()) ==> diversity(pick(instance@, t))
            <= diversity(r@),
        r@ != seed@ ==> diversity(r@) > diversity(seed@),
        r@ == seed@ || exists|t: Seq<int>| full_selection(t, instance@.len(), seed@.len()) && r@ == pick(instance@, t),
        *final(generated) >= *old(generated),
        seed@.len() > 0 && *old(generated) == 0 ==> *final(generated) >= instance@.len() - seed@.len() + 1,
        *final(generated) <= *old(generated) + (instance@.len() - seed@.len() + 1) * power(
            (instance@.len() - seed@.len() + 2) as nat,
            seed@.len(),
        ),
{
    let ghost seed_view = seed@;
    let ghost inst = instance@;
    let n = instance.points.len();
    let mut best_solution = seed;
    let size = best_solution.points.len();
    let ghost w = (n - size + 2) as nat;
    let ghost cap = n - size + 1;
    if size == 0 {
        proof {
            assert forall|t: Seq<int>| full_selection(t, instance@.len(), 0) implies diversity(pick(instance@, t))
                <= diversity(best_solution@) by {
                assert(pick(instance@, t) =~= Seq::<Seq<i64>>::empty());
                lemma_diversity_fits(best_solution@, instance.dimensionality as nat);
            }
        }
        return best_solution;
    }
    proof {
        lemma_diversity_fits(best_solution@, instance.dimensionality as nat);
    }
    let mut lower_bound = best_solution.get_z();
    let ghost seed_z = lower_bound;
    let root = PartialSolution::new(Vec::new(), instance, size);
    let mut partial_solutions: Vec<PartialSolution> = Vec::new();
    partial_solutions.push(root);
    let ghost mut expanded = false;
    let ghost mut rounds: int = 0;
    let ghost bound = power(w, size as nat);
    proof {
        assert(partial_solutions@.drop_last() =~= Seq::<PartialSolution>::empty());
        assert(partial_solutions@.last().indices@.len() == 0);
        assert(weight(Seq::<PartialSolution>::empty(), size as nat, w) == 0);
        assert(weight(partial_solutions@, size as nat, w) == bound);
    }
    proof {
        assert forall|t: Seq<int>| full_selection(t, n as nat, size as nat) implies #[trigger] covered(inst, t, partial_solutions@, lower_bound as int) by {
            assert(positions(partial_solutions@[0].indices@) =~= Seq::<int>::empty());
            assert(t.take(0) =~= Seq::<int>::empty());
            assert(completes(positions(partial_solutions@[0].indices@), t));
        }
    }
    while partial_solutions.len() > 0
        invariant
            inst == instance@,
            instance.wf(),
            n == inst.len(),
            w == n - size + 2,
            cap == n - size + 1,
            0 < size <= n,
            solution_for(instance, &best_solution),
            best_solution@.len() == size,
            lower_bound as int == diversity(best_solution@),
            lower_bound >= seed_z,
            *generated >= *old(generated),
            forall|t: int| 0 <= t < partial_solutions@.len() ==> {
                &&& (#[trigger] partial_solutions@[t]).wf(instance, size as nat)
                &&& in_window(partial_solutions@[t], n as nat, size as nat)
                &&& partial_solutions@[t].indices@.len() < size
            },
            forall|t: Seq<int>| full_selection(t, n as nat, size as nat) ==> #[trigger] covered(inst, t, partial_solutions@, lower_bound as int),
            best_solution@ == seed_view || lower_bound > seed_z,
            best_solution@ == seed_view || exists|t: Seq<int>| full_selection(t, n as nat, size as nat) && best_solution@ == pick(inst, t),
            seed_view.len() == size,
            !expanded ==> partial_solutions@.len() == 1 && partial_solutions@[0].indices@.len() == 0
                && *generated == *old(generated),
            expanded && *old(generated) == 0 ==> *generated >= n - size + 1,
            bound == power(w, size as nat),
            0 <= rounds,
            rounds + weight(partial_solutions@, size as nat, w) <= bound,
            *generated <= *old(generated) + rounds * cap,
        decreases weight(partial_solutions@, size as nat, w),
    {
        let ghost before = partial_solutions@;
        let partial_solution = match selection {
            NodeSelection::SmallestBound => get_partial_solution_with_smallest_upper_bound(&mut partial_solutions),
            NodeSelection::Deepest => get_deepest_partial_solution(&mut partial_solutions),
        };
        let ghost k = partial_solution.indices@.len();
        let ghost rest_weight = weight(partial_solutions@, size as nat, w);
        proof {
            let j = choose|j: int| 0 <= j < before.len() && partial_solution == before[j] && partial_solutions@ == before.remove(j);
            lemma_weight_remove(before, j, size as nat, w);
            assert(partial_solution.wf(instance, size as nat));
            assert(in_window(partial_solution, n as nat, size as nat));
            lemma_children_weight(cap as nat, (size - k - 1) as nat);
            assert((size - k - 1) + 1 == size - k);
            let pp = positions(partial_solution.indices@);
            assert forall|t: Seq<int>| full_selection(t, n as nat, size as nat) implies #[trigger] covered(inst, t, partial_solutions@, lower_bound as int)
                || (completes(pp, t) && t[k as int] >= first_candidate(partial_solution.indices@)) by {
                assert(covered(inst, t, before, lower_bound as int));
                if diversity(pick(inst, t)) > lower_bound {
                    let j0 = choose|j0: int| 0 <= j0 < before.len() && #[trigger] completes(positions(before[j0].indices@), t);
                    if j0 == j {
                        if k > 0 {
                            assert(t[k - 1] == t.take(k as int)[k - 1]);
                            assert(pp[k - 1] == partial_solution.indices@.last());
                            assert(t[k - 1] < t[k as int]);
                        }
                    } else if j0 < j {
                        assert(partial_solutions@[j0] == before[j0]);
                        assert(completes(positions(partial_solutions@[j0].indices@), t));
                    } else {
                        assert(partial_solutions@[j0 - 1] == before[j0]);
                        assert(completes(positions(partial_solutions@[j0 - 1].indices@), t));
                    }
                }
            }
        }
        let possible_points = get_possible_points_to_add(instance, &partial_solution, size);
        proof {
            if !expanded {
                assert(partial_solution == before[0]);
            }
        }
        let ghost before_generated = *generated;
        *generated = generated.saturating_add(possible_points.len());
        proof {
            expanded = true;
            lemma_power_positive(w, (size - k) as nat);
            if k > 0 {
                crate::partial_solution::lemma_ascending_floor(positions(partial_solution.indices@), n as nat, k - 1);
                assert(positions(partial_solution.indices@)[k - 1] == partial_solution.indices@.last());
            }
            assert(possible_points@.len() <= cap);
            assert(*generated <= before_generated + cap);
            assert((rounds + 1) * cap == rounds * cap + cap) by (nonlinear_arith);
            rounds = rounds + 1;
        }
        let mut p: usize = 0;
        while p < possible_points.len()
            invariant
                inst == instance@,
                instance.wf(),
                n == inst.len(),
                w == n - size + 2,
                cap == n - size + 1,
                0 < size <= n,
                partial_solution.wf(instance, size as nat),
                in_window(partial_solution, n as nat, size as nat),
                k == partial_solution.indices@.len(),
                k < size,
                possible_points@.len() <= cap,
                forall|t: int| 0 <= t < possible_points@.len() ==> {
                    &&& #[trigger] possible_points@[t] <= inst.len() - size + k
                    &&& (k > 0 ==> possible_points@[t] > partial_solution.indices@.last())
                },
                p <= possible_points@.len(),
                solution_for(instance, &best_solution),
                best_solution@.len() == size,
                lower_bound as int == diversity(best_solution@),
                lower_bound >= seed_z,
                *generated >= *old(generated),
                best_solution@ == seed_view || lower_bound > seed_z,
                best_solution@ == seed_view || exists|t: Seq<int>| full_selection(t, n as nat, size as nat) && best_solution@ == pick(inst, t),
                seed_view.len() == size,
                expanded,
                *old(generated) == 0 ==> *generated >= n - size + 1,
                bound == power(w, size as nat),
                1 <= rounds,
                rounds - 1 + rest_weight + power(w, (size - k) as nat) <= bound,
                *generated <= *old(generated) + rounds * cap,
                forall|t: int| 0 <= t < partial_solutions@.len() ==> {
                    &&& (#[trigger] partial_solutions@[t]).wf(instance, size as nat)
                &&& in_window(partial_solutions@[t], n as nat, size as nat)
                    &&& partial_solutions@[t].indices@.len() < size
                },
                weight(partial_solutions@, size as nat, w) <= rest_weight + p * power(w, (size - k - 1) as nat),
                first_candidate(partial_solution.indices@) + possible_points@.len() == n - size + k + 1,
                forall|t: int| 0 <= t < possible_points@.len() ==> #[trigger] possible_points@[t] == first_candidate(partial_solution.indices@) + t,
                forall|t: Seq<int>| full_selection(t, n as nat, size as nat) ==> #[trigger] covered(inst, t, partial_solutions@, lower_bound as int)
                    || (completes(positions(partial_solution.indices@), t) && t[k as int] >= first_candidate(partial_solution.indices@) + p),
            decreases possible_points@.len() - p,
        {
            let c = possible_points[p];
            let ghost f_before = partial_solutions@;
            let ghost lb_before = lower_bound;
            let child = get_new_partial_solution(&partial_solution, c, instance, size);
            proof {
                assert((p + 1) * power(w, (size - k - 1) as nat) == p * power(w, (size - k - 1) as nat) + power(w, (size - k - 1) as nat)) by (nonlinear_arith);
            }
            if child.indices.len() == size {
                if child.upper_bound > lower_bound {
                    proof {
                        let ch = positions(child.indices@);
                        assert(ch.len() == size);
                        assert(upper_bound_of(inst, ch, 0) == diversity(pick(inst, ch)));
                        lemma_pick_selection(instance, ch);
                        lemma_ascending_len(ch, inst.len());
                        assert(full_selection(ch, n as nat, size as nat));
                    }
                    lower_bound = child.upper_bound;
                    best_solution = child.solution;
                }
            } else if child.upper_bound > lower_bound {
                let ghost f = partial_solutions@;
                partial_solutions.push(child);
                proof {
                    assert(partial_solutions@.drop_last() =~= f);
                }
            }
            proof {
                let pp = positions(partial_solution.indices@);
                let cp = positions(child.indices@);
                assert(cp =~= pp.push(c as int));
                assert forall|t: Seq<int>| full_selection(t, n as nat, size as nat) implies #[trigger] covered(inst, t, partial_solutions@, lower_bound as int)
                    || (completes(pp, t) && t[k as int] >= first_candidate(partial_solution.indices@) + p + 1) by {
                    if covered(inst, t, f_before, lb_before as int) {
                        if diversity(pick(inst, t)) > lb_before {
                            let j0 = choose|j0: int| 0 <= j0 < f_before.len() && #[trigger] completes(positions(f_before[j0].indices@), t);
                            assert(partial_solutions@[j0] == f_before[j0]);
                            assert(completes(positions(partial_solutions@[j0].indices@), t));
                        }
                    } else if t[k as int] == c {
                        assert(t.take(k as int + 1) =~= pp.push(c as int));
                        assert(completes(cp, t));
                        if cp.len() == size {
                            assert(t =~= cp);
                            assert(upper_bound_of(inst, cp, 0) == diversity(pick(inst, cp)));
                        } else if child.upper_bound > lb_before {
                            let last = (partial_solutions@.len() - 1) as int;
                            assert(partial_solutions@[last] == child);
                            assert(completes(positions(partial_solutions@[last].indices@), t));
                        } else {
                            lemma_prefix_bound(instance, &child, size as nat, t);
                        }
                    }
                }
            }
            p = p + 1;
        }
        proof {
            let pp = positions(partial_solution.indices@);
            assert forall|t: Seq<int>| full_selection(t, n as nat, size as nat) implies #[trigger] covered(inst, t, partial_solutions@, lower_bound as int) by {
                if !covered(inst, t, partial_solutions@, lower_bound as int) {
                    lemma_ascending_ceiling(t, n as nat, k as int);
                }
            }
        }
        proof {
            assert(possible_points@.len() * power(w, (size - k - 1) as nat) <= cap * power(w, (size - k - 1) as nat)) by (nonlinear_arith)
                requires
                    possible_points@.len() <= cap,
            ;
        }
        let ghost f = partial_solutions@;
        partial_solutions = prune(partial_solutions, lower_bound);
        proof {
            lemma_weight_kept(f, lower_bound, size as nat, w);
            lemma_kept_elements(f, lower_bound);
            assert forall|t: int| 0 <= t < partial_solutions@.len() implies {
                &&& (#[trigger] partial_solutions@[t]).wf(instance, size as nat)
                &&& in_window(partial_solutions@[t], n as nat, size as nat)
                &&& partial_solutions@[t].indices@.len() < size
            } by {
                let j = choose|j: int| 0 <= j < f.len() && kept(f, lower_bound)[t] == f[j];
            }
            assert forall|t: Seq<int>| full_selection(t, n as nat, size as nat) implies #[trigger] covered(inst, t, partial_solutions@, lower_bound as int) by {
                assert(covered(inst, t, f, lower_bound as int));
                if diversity(pick(inst, t)) > lower_bound {
                    let j0 = choose|j0: int| 0 <= j0 < f.len() && #[trigger] completes(positions(f[j0].indices@), t);
                    if f[j0].upper_bound > lower_bound {
                        lemma_kept_keeps(f, lower_bound, j0);
                        let j2 = choose|j2: int| 0 <= j2 < kept(f, lower_bound).len() && kept(f, lower_bound)[j2] == f[j0];
                        assert(completes(positions(partial_solutions@[j2].indices@), t));
                    } else {
                        lemma_prefix_bound(instance, &f[j0], size as nat, t);
                    }
                }
            }
        }
    }
    proof {
        assert(rounds * cap <= bound * cap) by (nonlinear_arith)
            requires
                0 <= rounds <= bound,
                cap >= 0,
        ;
        assert forall|t: Seq<int>| full_selection(t, instance@.len(), size as nat) implies diversity(pick(instance@, t))
            <= diversity(best_solution@) by {
            assert(covered(inst, t, partial_solutions@, lower_bound as int));
        }
    }
    best_solution
}

/// `s` is what the exact search gives from a seed that `solver` produces for
/// `instance`: the seed's size, a diversity at least the seed's (the seed itself
/// unless strictly beaten), and no selection of that size is more diverse.
pub open spec fn improves_seed<S: ProblemSolver>(
    solver: S,
    instance: &ProblemInstance,
    seed: Seq<Seq<i64>>,
    s: Seq<Seq<i64>>,
) -> bool {
    &&& solver.produces(instance, seed)
    &&& s.len() == seed.len()
    &&& diversity(s) >= diversity(seed)
    &&& (s != seed ==> diversity(s) > diversity(seed))
    &&& forall|t: Seq<int>| full_selection(t, instance@.len(), seed.len()) ==> diversity(pick(instance@, t))
        <= diversity(s)
    &&& (s == seed || exists|t: Seq<int>| full_selection(t, instance@.len(), seed.len()) && s == pick(instance@, t))
}

/// Whatever their node-selection policy, two exact searches from the same seed
/// reach the same diversity.
pub proof fn lemma_same_optimum<S1: ProblemSolver, S2: ProblemSolver>(
    first: S1,
    second: S2,
    instance: &ProblemInstance,
    seed: Seq<Seq<i64>>,
    r1: Seq<Seq<i64>>,
    r2: Seq<Seq<i64>>,
)
    requires
        improves_seed(first, instance, seed, r1),
        improves_seed(second, instance, seed, r2),
    ensures
        diversity(r1) == diversity(r2),
{
    if r1 != seed {
        let t = choose|t: Seq<int>| full_selection(t, instance@.len(), seed.len()) && r1 == pick(instance@, t);
        assert(diversity(pick(instance@, t)) <= diversity(r2));
    }
    if r2 != seed {
        let t = choose|t: Seq<int>| full_selection(t, instance@.len(), seed.len()) && r2 == pick(instance@, t);
        assert(diversity(pick(instance@, t)) <= diversity(r1));
    }
}

/// Branch and bound exploring the node with the smallest upper bound first.
pub struct BranchAndBound<'a, S: ProblemSolver> {
    solver: &'a mut S,
    generated_nodes: usize,
}

impl<'a, S: ProblemSolver> BranchAndBound<'a, S> {
    /// A search seeded by `solver`, whose solution gives the first lower bound
    /// and the number of points of the solution.
    pub fn new(solver: &'a mut S) -> (r: Self)
        ensures
            r.generated() == 0,
            r.seed_solver() == *old(solver),
    {
        BranchAndBound { solver, generated_nodes: 0 }
    }

    /// The seeding solver.
    pub closed spec fn seed_solver(&self) -> S {
        *self.solver
    }

    /// The number of nodes generated by the last search.
    pub closed spec fn generated(&self) -> nat {
        self.generated_nodes as nat
    }

    /// The number of nodes generated by the last search.
    pub fn get_generated_nodes(&self) -> (r: usize)
        ensures
            r == self.generated(),
    {
        self.generated_nodes
    }
}

impl<'a, S: ProblemSolver> ProblemSolver for BranchAndBound<'a, S> {
    open spec fn accepts(&self, instance: &ProblemInstance) -> bool {
        self.seed_solver().accepts(instance)
    }

    open spec fn produces(&self, instance: &ProblemInstance, s: Seq<Seq<i64>>) -> bool {
        exists|seed: Seq<Seq<i64>>| improves_seed(self.seed_solver(), instance, seed, s)
    }

    fn solve(&mut self, instance: &ProblemInstance) -> (r: ProblemSolution)
        ensures
            forall|t: Seq<int>| full_selection(t, instance@.len(), r@.len()) ==> diversity(pick(instance@, t))
                <= diversity(r@),
            r@.len() > 0 ==> final(self).generated() >= instance@.len() - r@.len() + 1,
            final(self).generated() <= (instance@.len() - r@.len() + 1) * power(
                (instance@.len() - r@.len() + 2) as nat,
                r@.len(),
            ),
            exists|seed: Seq<Seq<i64>>| improves_seed(old(self).seed_solver(), instance, seed, r@),
    {
        let ghost before_solver = *self.solver;
        self.generated_nodes = 0;
        assert(before_solver == old(self).seed_solver());
        let seed = self.solver.solve(instance);
        let ghost seed_view = seed@;
        assert(before_solver.produces(instance, seed_view));
        let mut generated: usize = 0;
        let r = search(instance, seed, NodeSelection::SmallestBound, &mut generated);
        self.generated_nodes = generated;
        assert(improves_seed(old(self).seed_solver(), instance, seed_view, r@));
        r
    }
}

/// Branch and bound exploring the node with the most points first.
pub struct DeepBranchAndBound<'a, S: ProblemSolver> {
    solver: &'a mut S,
    generated_nodes: usize,
}

impl<'a, S: ProblemSolver> DeepBranchAndBound<'a, S> {
    /// A search seeded by `solver`, whose solution gives the first lower bound
    /// and the number of points of the solution.
    pub fn new(solver: &'a mut S) -> (r: Self)
        ensures
            r.generated() == 0,
            r.seed_solver() == *old(solver),
    {
        DeepBranchAndBound { solver, generated_nodes: 0 }
    }

    /// The seeding solver.
    pub closed spec fn seed_solver(&self) -> S {
        *self.solver
    }

    /// The number of nodes generated by the last search.
    pub closed spec fn generated(&self) -> nat {
        self.generated_nodes as nat
    }

    /// The number of nodes generated by the last search.
    pub fn get_generated_nodes(&self) -> (r: usize)
        ensures
            r == self.generated(),
    {
        self.generated_nodes
    }
}

impl<'a, S: ProblemSolver> ProblemSolver for DeepBranchAndBound<'a, S> {
    open spec fn accepts(&self, instance: &ProblemInstance) -> bool {
        self.seed_solver().accepts(instance)
    }

    open spec fn produces(&self, instance: &ProblemInstance, s: Seq<Seq<i64>>) -> bool {
        exists|seed: Seq<Seq<i64>>| improves_seed(self.seed_solver(), instance, seed, s)
    }

    fn solve(&mut self, instance: &ProblemInstance) -> (r: ProblemSolution)
        ensures
            forall|t: Seq<int>| full_selection(t, instance@.len(), r@.len()) ==> diversity(pick(instance@, t))
                <= diversity(r@),
            r@.len() > 0 ==> final(self).generated() >= instance@.len() - r@.len() + 1,
            final(self).generated() <= (instance@.len() - r@.len() + 1) * power(
                (instance@.len() - r@.len() + 2) as nat,
                r@.len(),
            ),
            exists|seed: Seq<Seq<i64>>| improves_seed(old(self).seed_solver(), instance, seed, r@),
    {
        let ghost before_solver = *self.solver;
        self.generated_nodes = 0;
        assert(before_solver == old(self).seed_solver());
        let seed = self.solver.solve(instance);
        let ghost seed_view = seed@;
        assert(before_solver.produces(instance, seed_view));
        let mut generated: usize = 0;
        let r = search(instance, seed, NodeSelection::Deepest, &mut generated);
        self.generated_nodes = generated;
        assert(improves_seed(old(self).seed_solver(), instance, seed_view, r@));
        r
    }
}

} // verus!
