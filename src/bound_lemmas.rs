//! Why the branch-and-bound bound never underestimates: the chosen points'
//! diversity plus, for each point still to come, its distances to the chosen
//! points and half its distances to the other newcomers, and those sums are
//! dominated by the largest available values.
use vstd::prelude::*;
use crate::center::{first_max, lemma_first_max};
use crate::partial_solution::{
    chosen_dist_sum, dists_except, outside, pick, point_bound2, point_bounds2, top_sum, upper_bound_of,
};
use crate::point::{distance, lemma_distance_symmetric};
use crate::solution::{diversity, dist_sum, uniform};

verus! {

/// The sum of the values at positions `js`.
pub open spec fn sum_at(vals: Seq<int>, js: Seq<int>) -> int
    decreases js.len(),
{
    if js.len() == 0 {
        0
    } else {
        sum_at(vals, js.drop_last()) + vals[js.last()]
    }
}

/// Every position of `js` is below `n`.
pub open spec fn in_range(js: Seq<int>, n: int) -> bool {
    forall|t: int| 0 <= t < js.len() ==> 0 <= #[trigger] js[t] < n
}

/// Positions after `m` move one down.
pub open spec fn shift(js: Seq<int>, m: int) -> Seq<int> {
    Seq::new(js.len(), |t: int| if js[t] > m { js[t] - 1 } else { js[t] })
}

pub proof fn lemma_sum_at_remove(vals: Seq<int>, js: Seq<int>, t: int)
    requires
        0 <= t < js.len(),
    ensures
        sum_at(vals, js) == sum_at(vals, js.remove(t)) + vals[js[t]],
    decreases js.len(),
{
    if t < js.len() - 1 {
        lemma_sum_at_remove(vals, js.drop_last(), t);
        assert(js.remove(t).drop_last() =~= js.drop_last().remove(t));
    } else {
        assert(js.remove(t) =~= js.drop_last());
    }
}

proof fn lemma_sum_at_shift(vals: Seq<int>, js: Seq<int>, m: int)
    requires
        in_range(js, vals.len() as int),
        !js.contains(m),
        0 <= m < vals.len(),
    ensures
        sum_at(vals, js) == sum_at(vals.remove(m), shift(js, m)),
        in_range(shift(js, m), vals.len() - 1),
        js.no_duplicates() ==> shift(js, m).no_duplicates(),
    decreases js.len(),
{
    let sh = shift(js, m);
    assert forall|t: int| 0 <= t < js.len() implies #[trigger] js[t] != m by {
        assert(js.contains(js[t]));
    }
    if js.len() > 0 {
        let d = js.drop_last();
        assert(!d.contains(m)) by {
            if d.contains(m) {
                let t = choose|t: int| 0 <= t < d.len() && d[t] == m;
                assert(js[t] == m);
            }
        }
        lemma_sum_at_shift(vals, d, m);
        assert(sh.drop_last() =~= shift(d, m));
        let j = js.last();
        assert(j != m);
        if j > m {
            assert(vals.remove(m)[j - 1] == vals[j]);
        } else {
            assert(vals.remove(m)[j] == vals[j]);
        }
    }
    assert forall|a: int, b: int| js.no_duplicates() && 0 <= a < b < sh.len() implies sh[a] != sh[b] by {
        assert(js[a] != js[b]);
        assert(js[a] != m && js[b] != m);
    }
}

/// Any `k` distinct positions hold no more than the `k` largest values.
pub proof fn lemma_top_sum_dominates(vals: Seq<int>, js: Seq<int>)
    requires
        js.no_duplicates(),
        in_range(js, vals.len() as int),
    ensures
        sum_at(vals, js) <= top_sum(vals, js.len()),
    decreases js.len(),
{
    if js.len() > 0 {
        assert(0 <= js[0] < vals.len());
        lemma_first_max(vals);
        let m = first_max(vals);
        let rest = vals.remove(m);
        if js.contains(m) {
            let t = choose|t: int| 0 <= t < js.len() && js[t] == m;
            lemma_sum_at_remove(vals, js, t);
            let js2 = js.remove(t);
            assert(!js2.contains(m)) by {
                if js2.contains(m) {
                    let u = choose|u: int| 0 <= u < js2.len() && js2[u] == m;
                    if u < t {
                        assert(js[u] == m);
                    } else {
                        assert(js[u + 1] == m);
                    }
                }
            }
            assert(js2.no_duplicates()) by {
                assert forall|a: int, b: int| 0 <= a < b < js2.len() implies js2[a] != js2[b] by {
                    let a1 = if a < t { a } else { a + 1 };
                    let b1 = if b < t { b } else { b + 1 };
                    assert(js2[a] == js[a1]);
                    assert(js2[b] == js[b1]);
                }
            }
            assert(in_range(js2, vals.len() as int)) by {
                assert forall|u: int| 0 <= u < js2.len() implies 0 <= #[trigger] js2[u] < vals.len() by {
                    if u < t {
                        assert(js2[u] == js[u]);
                    } else {
                        assert(js2[u] == js[u + 1]);
                    }
                }
            }
            lemma_sum_at_shift(vals, js2, m);
            lemma_top_sum_dominates(rest, shift(js2, m));
        } else {
            let js2 = js.drop_last();
            let j0 = js.last();
            assert(vals[j0] <= vals[m]);
            assert(!js2.contains(m)) by {
                if js2.contains(m) {
                    let u = choose|u: int| 0 <= u < js2.len() && js2[u] == m;
                    assert(js[u] == m);
                }
            }
            assert(in_range(js2, vals.len() as int)) by {
                assert forall|u: int| 0 <= u < js2.len() implies 0 <= #[trigger] js2[u] < vals.len() by {
                    assert(js2[u] == js[u]);
                }
            }
            lemma_sum_at_shift(vals, js2, m);
            lemma_top_sum_dominates(rest, shift(js2, m));
        }
    }
}

/// The sum of a sequence.
pub open spec fn sum_seq(s: Seq<int>) -> int
    decreases s.len(),
{
    if s.len() == 0 {
        0
    } else {
        sum_seq(s.drop_last()) + s.last()
    }
}

/// Sum over the points of `y` of their distances to all points of `x`.
pub open spec fn cross(x: Seq<Seq<i64>>, y: Seq<Seq<i64>>) -> int {
    sum_seq(Seq::new(y.len(), |t: int| dist_sum(y[t], x)))
}

/// Sum over the points of `y` of their distances to the other points of `y`.
pub open spec fn spread(y: Seq<Seq<i64>>) -> int {
    sum_seq(Seq::new(y.len(), |t: int| dist_sum(y[t], y.remove(t))))
}

pub proof fn lemma_dist_sum_concat(p: Seq<i64>, x: Seq<Seq<i64>>, y: Seq<Seq<i64>>)
    ensures
        dist_sum(p, x + y) == dist_sum(p, x) + dist_sum(p, y),
    decreases y.len(),
{
    if y.len() == 0 {
        assert(x + y =~= x);
    } else {
        lemma_dist_sum_concat(p, x, y.drop_last());
        assert((x + y).drop_last() =~= x + y.drop_last());
    }
}

/// Diversity of two groups together: each group's own, plus the distances across.
pub proof fn lemma_diversity_concat(x: Seq<Seq<i64>>, y: Seq<Seq<i64>>)
    ensures
        diversity(x + y) == diversity(x) + cross(x, y) + diversity(y),
    decreases y.len(),
{
    if y.len() == 0 {
        assert(x + y =~= x);
        assert(cross(x, y) == 0);
    } else {
        let y2 = y.drop_last();
        lemma_diversity_concat(x, y2);
        assert((x + y).drop_last() =~= x + y2);
        lemma_dist_sum_concat(y.last(), x, y2);
        assert(Seq::new(y.len(), |t: int| dist_sum(y[t], x)).drop_last()
            =~= Seq::new(y2.len(), |t: int| dist_sum(y2[t], x)));
    }
}

proof fn lemma_spread_push_terms(y: Seq<Seq<i64>>, v: Seq<i64>, k: int, d: nat)
    requires
        0 <= k <= y.len(),
        uniform(y, d),
        v.len() == d,
    ensures
        sum_seq(Seq::new(k as nat, |t: int| dist_sum(y.push(v)[t], y.push(v).remove(t))))
            == sum_seq(Seq::new(k as nat, |t: int| dist_sum(y[t], y.remove(t)))) + sum_seq(
            Seq::new(k as nat, |t: int| distance(y[t], v) as int),
        ),
    decreases k,
{
    if k > 0 {
        lemma_spread_push_terms(y, v, k - 1, d);
        let z = y.push(v);
        let t = k - 1;
        assert(z.remove(t) =~= y.remove(t).push(v));
        assert(z[t] == y[t]);
        assert(y.remove(t).push(v).drop_last() =~= y.remove(t));
        assert(dist_sum(z[t], z.remove(t)) == dist_sum(y[t], y.remove(t)) + distance(y[t], v));
        assert(Seq::new(k as nat, |t: int| dist_sum(z[t], z.remove(t))).drop_last()
            =~= Seq::new((k - 1) as nat, |t: int| dist_sum(z[t], z.remove(t))));
        assert(Seq::new(k as nat, |t: int| dist_sum(y[t], y.remove(t))).drop_last()
            =~= Seq::new((k - 1) as nat, |t: int| dist_sum(y[t], y.remove(t))));
        assert(Seq::new(k as nat, |t: int| distance(y[t], v) as int).drop_last()
            =~= Seq::new((k - 1) as nat, |t: int| distance(y[t], v) as int));
    }
}

proof fn lemma_dist_sum_as_sum(p: Seq<i64>, y: Seq<Seq<i64>>, d: nat)
    requires
        uniform(y, d),
        p.len() == d,
    ensures
        sum_seq(Seq::new(y.len(), |t: int| distance(y[t], p) as int)) == dist_sum(p, y),
    decreases y.len(),
{
    if y.len() > 0 {
        let y2 = y.drop_last();
        lemma_dist_sum_as_sum(p, y2, d);
        assert(Seq::new(y.len(), |t: int| distance(y[t], p) as int).drop_last()
            =~= Seq::new(y2.len(), |t: int| distance(y2[t], p) as int));
        lemma_distance_symmetric(y.last(), p);
    }
}

/// Counting each pair from both ends gives twice the diversity.
pub proof fn lemma_spread_twice_diversity(y: Seq<Seq<i64>>, d: nat)
    requires
        uniform(y, d),
    ensures
        spread(y) == 2 * diversity(y),
    decreases y.len(),
{
    if y.len() > 0 {
        let y2 = y.drop_last();
        let v = y.last();
        lemma_spread_twice_diversity(y2, d);
        assert(y2.push(v) =~= y);
        lemma_spread_push_terms(y2, v, y2.len() as int, d);
        lemma_dist_sum_as_sum(v, y2, d);
        assert(y.remove(y.len() - 1) =~= y2);
        assert(Seq::new(y.len(), |t: int| dist_sum(y[t], y.remove(t))).drop_last()
            =~= Seq::new(y2.len(), |t: int| dist_sum(y2.push(v)[t], y2.push(v).remove(t))));
    }
}

pub proof fn lemma_outside(chosen: Seq<int>, n: nat)
    ensures
        forall|x: int| #[trigger] outside(chosen, n).contains(x) <==> (0 <= x < n && !chosen.contains(x)),
        outside(chosen, n).no_duplicates(),
        in_range(outside(chosen, n), n as int),
    decreases n,
{
    if n > 0 {
        let o = outside(chosen, (n - 1) as nat);
        lemma_outside(chosen, (n - 1) as nat);
        if !chosen.contains(n - 1) {
            let o2 = o.push(n - 1);
            assert forall|x: int| #[trigger] o2.contains(x) <==> (o.contains(x) || x == n - 1) by {
                if o2.contains(x) {
                    let e = choose|e: int| 0 <= e < o2.len() && o2[e] == x;
                    if e < o.len() {
                        assert(o[e] == x);
                    }
                }
                if o.contains(x) {
                    let e = choose|e: int| 0 <= e < o.len() && o[e] == x;
                    assert(o2[e] == x);
                }
                if x == n - 1 {
                    assert(o2[o.len() as int] == x);
                }
            }
            assert forall|a: int, b: int| 0 <= a < b < o2.len() implies o2[a] != o2[b] by {
                if b == o.len() {
                    assert(o.contains(o2[a]));
                }
            }
        }
    }
}

/// Distances from point `k` to the points at positions `o`.
pub open spec fn dists_to(inst: Seq<Seq<i64>>, k: int, o: Seq<int>) -> Seq<int> {
    Seq::new(o.len(), |e: int| distance(inst[k], inst[o[e]]) as int)
}

pub proof fn lemma_dists_except(inst: Seq<Seq<i64>>, chosen: Seq<int>, k: int, n: nat)
    ensures
        dists_except(inst, outside(chosen, n), k) == dists_to(inst, k, outside(chosen.push(k), n)),
    decreases n,
{
    let ck = chosen.push(k);
    if n == 0 {
        assert(dists_to(inst, k, outside(ck, n)) =~= Seq::<int>::empty());
    } else {
        lemma_dists_except(inst, chosen, k, (n - 1) as nat);
        let x = n - 1;
        assert(ck.contains(x) <==> (chosen.contains(x) || x == k)) by {
            if ck.contains(x) {
                let e = choose|e: int| 0 <= e < ck.len() && ck[e] == x;
                if e < chosen.len() {
                    assert(chosen[e] == x);
                }
            }
            if chosen.contains(x) {
                let e = choose|e: int| 0 <= e < chosen.len() && chosen[e] == x;
                assert(ck[e] == x);
            }
            if x == k {
                assert(ck[chosen.len() as int] == x);
            }
        }
        let o1 = outside(chosen, (n - 1) as nat);
        let o2 = outside(ck, (n - 1) as nat);
        if !chosen.contains(x) {
            assert(o1.push(x).drop_last() =~= o1);
            assert(o1.push(x).last() == x);
        }
        if !ck.contains(x) {
            assert(dists_to(inst, k, o2.push(x)) =~= dists_to(inst, k, o2).push(distance(inst[k], inst[x]) as int));
        }
    }
}

pub proof fn lemma_chosen_dist_sum(inst: Seq<Seq<i64>>, p: Seq<i64>, chosen: Seq<int>)
    ensures
        chosen_dist_sum(inst, p, chosen) == dist_sum(p, pick(inst, chosen)),
    decreases chosen.len(),
{
    if chosen.len() > 0 {
        lemma_chosen_dist_sum(inst, p, chosen.drop_last());
        assert(pick(inst, chosen).drop_last() =~= pick(inst, chosen.drop_last()));
    }
}

/// The position of `x` in `o`.
pub open spec fn index_in(o: Seq<int>, x: int) -> int {
    choose|e: int| 0 <= e < o.len() && o[e] == x
}

/// The positions in `o` of the entries of `ds`.
pub open spec fn indices_in(o: Seq<int>, ds: Seq<int>) -> Seq<int> {
    Seq::new(ds.len(), |u: int| index_in(o, ds[u]))
}

pub proof fn lemma_indices_in(o: Seq<int>, ds: Seq<int>, g: spec_fn(int) -> int)
    requires
        ds.no_duplicates(),
        forall|u: int| 0 <= u < ds.len() ==> o.contains(#[trigger] ds[u]),
    ensures
        indices_in(o, ds).no_duplicates(),
        in_range(indices_in(o, ds), o.len() as int),
        sum_at(Seq::new(o.len(), |e: int| g(o[e])), indices_in(o, ds)) == sum_seq(
            Seq::new(ds.len(), |u: int| g(ds[u])),
        ),
    decreases ds.len(),
{
    let js = indices_in(o, ds);
    assert forall|u: int| 0 <= u < ds.len() implies 0 <= #[trigger] js[u] < o.len() && o[js[u]] == ds[u] by {
        assert(o.contains(ds[u]));
    }
    assert forall|a: int, b: int| 0 <= a < b < js.len() implies js[a] != js[b] by {
        assert(o[js[a]] == ds[a]);
        assert(o[js[b]] == ds[b]);
    }
    if ds.len() > 0 {
        let d2 = ds.drop_last();
        lemma_indices_in(o, d2, g);
        assert(js.drop_last() =~= indices_in(o, d2));
        assert(Seq::new(ds.len(), |u: int| g(ds[u])).drop_last() =~= Seq::new(d2.len(), |u: int| g(d2[u])));
    }
}

pub proof fn lemma_dist_sum_pick(inst: Seq<Seq<i64>>, p: Seq<i64>, ds: Seq<int>)
    ensures
        dist_sum(p, pick(inst, ds)) == sum_seq(Seq::new(ds.len(), |u: int| distance(p, inst[ds[u]]) as int)),
    decreases ds.len(),
{
    if ds.len() > 0 {
        let d2 = ds.drop_last();
        lemma_dist_sum_pick(inst, p, d2);
        assert(pick(inst, ds).drop_last() =~= pick(inst, d2));
        assert(Seq::new(ds.len(), |u: int| distance(p, inst[ds[u]]) as int).drop_last()
            =~= Seq::new(d2.len(), |u: int| distance(p, inst[d2[u]]) as int));
    }
}

pub proof fn lemma_sum_seq_le(a: Seq<int>, b: Seq<int>)
    requires
        a.len() == b.len(),
        forall|t: int| 0 <= t < a.len() ==> #[trigger] a[t] <= b[t],
    ensures
        sum_seq(a) <= sum_seq(b),
    decreases a.len(),
{
    if a.len() > 0 {
        lemma_sum_seq_le(a.drop_last(), b.drop_last());
    }
}

pub proof fn lemma_sum_seq_linear(n: nat, f: spec_fn(int) -> int, g: spec_fn(int) -> int)
    ensures
        sum_seq(Seq::new(n, |t: int| 2 * f(t) + g(t))) == 2 * sum_seq(Seq::new(n, |t: int| f(t)))
            + sum_seq(Seq::new(n, |t: int| g(t))),
    decreases n,
{
    if n > 0 {
        lemma_sum_seq_linear((n - 1) as nat, f, g);
        assert(Seq::new(n, |t: int| 2 * f(t) + g(t)).drop_last() =~= Seq::new((n - 1) as nat, |t: int| 2 * f(t) + g(t)));
        assert(Seq::new(n, |t: int| f(t)).drop_last() =~= Seq::new((n - 1) as nat, |t: int| f(t)));
        assert(Seq::new(n, |t: int| g(t)).drop_last() =~= Seq::new((n - 1) as nat, |t: int| g(t)));
    }
}

/// The upper bound is admissible: completing the chosen positions with any
/// further distinct positions outside them never gives a diversity above the
/// bound computed for that many missing points.
pub proof fn lemma_upper_bound_admissible(inst: Seq<Seq<i64>>, d: nat, chosen: Seq<int>, extra: Seq<int>)
    requires
        uniform(inst, d),
        in_range(chosen, inst.len() as int),
        in_range(extra, inst.len() as int),
        extra.no_duplicates(),
        forall|t: int| 0 <= t < extra.len() ==> !chosen.contains(#[trigger] extra[t]),
    ensures
        diversity(pick(inst, chosen + extra)) <= upper_bound_of(inst, chosen, extra.len()),
{
    let n = inst.len();
    let r = extra.len();
    let x = pick(inst, chosen);
    let y = pick(inst, extra);
    assert(pick(inst, chosen + extra) =~= x + y);
    lemma_diversity_concat(x, y);
    if r == 0 {
        assert(y =~= Seq::<Seq<i64>>::empty());
        assert(cross(x, y) == 0);
    } else {
        assert(uniform(y, d)) by {
            assert forall|t: int| 0 <= t < y.len() implies crate::point::coords_bounded(#[trigger] y[t]) && y[t].len() == d by {
                assert(0 <= extra[t] < n);
            }
        }
        lemma_spread_twice_diversity(y, d);
        let o = outside(chosen, n);
        lemma_outside(chosen, n);
        let f = |t: int| dist_sum(y[t], x);
        let g = |t: int| dist_sum(y[t], y.remove(t));
        let pb = |t: int| point_bound2(inst, chosen, extra[t], r);
        let lhs = Seq::new(r, |t: int| 2 * f(t) + g(t));
        let rhs = Seq::new(r, |t: int| pb(t));
        assert forall|t: int| 0 <= t < r implies #[trigger] lhs[t] <= rhs[t] by {
            let k = extra[t];
            assert(y[t] == inst[k]);
            lemma_chosen_dist_sum(inst, inst[k], chosen);
            let ds = extra.remove(t);
            assert(y.remove(t) =~= pick(inst, ds));
            lemma_dist_sum_pick(inst, inst[k], ds);
            let ck = chosen.push(k);
            let o2 = outside(ck, n);
            lemma_outside(ck, n);
            assert forall|u: int| 0 <= u < ds.len() implies o2.contains(#[trigger] ds[u]) by {
                let u1 = if u < t { u } else { u + 1 };
                assert(ds[u] == extra[u1]);
                assert(u1 != t);
                assert(extra[u1] != k);
                assert(0 <= extra[u1] < n);
                assert(!chosen.contains(extra[u1]));
                if ck.contains(ds[u]) {
                    let e = choose|e: int| 0 <= e < ck.len() && ck[e] == ds[u];
                    if e < chosen.len() {
                        assert(chosen[e] == ds[u]);
                        assert(chosen.contains(ds[u]));
                    }
                }
            }
            assert(ds.no_duplicates()) by {
                assert forall|a: int, b: int| 0 <= a < b < ds.len() implies ds[a] != ds[b] by {
                    let a1 = if a < t { a } else { a + 1 };
                    let b1 = if b < t { b } else { b + 1 };
                    assert(ds[a] == extra[a1]);
                    assert(ds[b] == extra[b1]);
                }
            }
            let dk = |e: int| distance(inst[k], inst[e]) as int;
            lemma_indices_in(o2, ds, dk);
            assert(Seq::new(o2.len(), |e: int| dk(o2[e])) =~= dists_to(inst, k, o2));
            assert(Seq::new(ds.len(), |u: int| dk(ds[u])) =~= Seq::new(ds.len(), |u: int| distance(inst[k], inst[ds[u]]) as int));
            lemma_dists_except(inst, chosen, k, n);
            lemma_top_sum_dominates(dists_to(inst, k, o2), indices_in(o2, ds));
        }
        lemma_sum_seq_le(lhs, rhs);
        lemma_sum_seq_linear(r, f, g);
        assert(Seq::new(r, |t: int| f(t)) =~= Seq::new(y.len(), |t: int| dist_sum(y[t], x)));
        assert(Seq::new(r, |t: int| g(t)) =~= Seq::new(y.len(), |t: int| dist_sum(y[t], y.remove(t))));
        let pe = |e: int| point_bound2(inst, chosen, e, r);
        assert forall|u: int| 0 <= u < extra.len() implies o.contains(#[trigger] extra[u]) by {
            assert(0 <= extra[u] < n);
        }
        lemma_indices_in(o, extra, pe);
        assert(Seq::new(o.len(), |e: int| pe(o[e])) =~= point_bounds2(inst, chosen, r));
        assert(Seq::new(extra.len(), |u: int| pe(extra[u])) =~= Seq::new(r, |t: int| pb(t)));
        lemma_top_sum_dominates(point_bounds2(inst, chosen, r), indices_in(o, extra));
        let total = top_sum(point_bounds2(inst, chosen, r), r);
        assert(2 * (cross(x, y) + diversity(y)) <= total);
        assert(cross(x, y) + diversity(y) <= (total + 1) / 2);
    }
}

/// A node's bound is at least the diversity of every completion of it: its
/// positions followed by distinct further positions, up to the target size.
pub proof fn lemma_node_bound_admissible(
    instance: &crate::instance::ProblemInstance,
    node: &crate::partial_solution::PartialSolution,
    size: nat,
    extra: Seq<int>,
)
    requires
        instance.wf(),
        node.wf(instance, size),
        crate::partial_solution::positions(node.indices@).len() + extra.len() == size,
        in_range(extra, instance@.len() as int),
        extra.no_duplicates(),
        forall|t: int| 0 <= t < extra.len() ==> !crate::partial_solution::positions(node.indices@).contains(#[trigger] extra[t]),
    ensures
        diversity(pick(instance@, crate::partial_solution::positions(node.indices@) + extra)) <= node.upper_bound,
{
    let ch = crate::partial_solution::positions(node.indices@);
    assert(in_range(ch, instance@.len() as int)) by {
        assert forall|t: int| 0 <= t < ch.len() implies 0 <= #[trigger] ch[t] < instance@.len() by {}
    }
    lemma_upper_bound_admissible(instance@, instance.dimensionality as nat, ch, extra);
}

} // verus!
