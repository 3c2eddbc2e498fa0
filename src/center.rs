//! The centroid of a group of points, kept as its coordinate sums together with
//! the size of the group, and the comparison of distances to it in exact integers:
//! for a group of `k` points with sums `S`, the distance from `p` to the centroid
//! `S / k` orders as `|k * p - S|^2`.
use vstd::prelude::*;
use crate::point::{coords_bounded, sqr, Point, COORD_LIMIT};
use crate::solution::{uniform, views, MAX_POINTS};

verus! {

/// Largest absolute value of a coordinate sum over at most `MAX_POINTS` points.
pub const MAX_SUM: i64 = 68719476736;

/// Sum of coordinate `c` over the points of `s`.
pub open spec fn col_sum(s: Seq<Seq<i64>>, c: int) -> int
    decreases s.len(),
{
    if s.len() == 0 {
        0
    } else {
        col_sum(s.drop_last(), c) + s.last()[c]
    }
}

/// The coordinate sums of `s`, over `d` coordinates.
pub open spec fn col_sums(s: Seq<Seq<i64>>, d: nat) -> Seq<int> {
    Seq::new(d, |c: int| col_sum(s, c))
}

/// `sum over c < k of (count * p[c] - sums[c])^2`.
pub open spec fn scaled_gap(p: Seq<i64>, sums: Seq<int>, count: int, k: nat) -> int
    decreases k,
{
    if k == 0 {
        0
    } else {
        scaled_gap(p, sums, count, (k - 1) as nat) + sqr(count * p[k - 1] - sums[k - 1])
    }
}

/// For each point of `avail`, how far it is from the centroid `sums / count`,
/// scaled by `count^2` and squared: it orders points exactly as their distance
/// to that centroid.
pub open spec fn gaps_to(avail: Seq<Seq<i64>>, sums: Seq<int>, count: int) -> Seq<int> {
    Seq::new(avail.len(), |i: int| scaled_gap(avail[i], sums, count, avail[i].len()))
}

/// The gaps of each point of `avail` to the centroid of the group `s` in dimensionality `d`.
pub open spec fn gaps(avail: Seq<Seq<i64>>, s: Seq<Seq<i64>>, d: nat) -> Seq<int> {
    gaps_to(avail, col_sums(s, d), s.len() as int)
}

pub proof fn lemma_scaled_gap_nonneg(p: Seq<i64>, sums: Seq<int>, count: int, k: nat)
    ensures
        scaled_gap(p, sums, count, k) >= 0,
    decreases k,
{
    if k > 0 {
        lemma_scaled_gap_nonneg(p, sums, count, (k - 1) as nat);
        let x = count * p[k - 1] - sums[k - 1];
        assert(sqr(x) >= 0) by (nonlinear_arith);
    }
}

/// Sequence of exact integers of a vector of `i128`.
pub open spec fn ints(v: Seq<i128>) -> Seq<int> {
    v.map_values(|x: i128| x as int)
}

/// The first position of a largest value (a later value replaces the running
/// choice only when strictly greater).
pub fn first_max_index(vals: &Vec<i128>) -> (r: usize)
    requires
        vals@.len() > 0,
    ensures
        r as int == first_max(ints(vals@)),
        r < vals@.len(),
{
    let ghost v = ints(vals@);
    let mut best: usize = 0;
    let mut i: usize = 1;
    while i < vals.len()
        invariant
            v == ints(vals@),
            1 <= i <= vals@.len(),
            best < i,
            best as int == first_max(v.take(i as int)),
        decreases vals@.len() - i,
    {
        proof {
            assert(v.take(i as int + 1).drop_last() =~= v.take(i as int));
        }
        if vals[i] > vals[best] {
            best = i;
        }
        i = i + 1;
    }
    proof {
        assert(v.take(vals@.len() as int) =~= v);
        lemma_first_max(v);
    }
    best
}

proof fn lemma_col_sum_bounded(s: Seq<Seq<i64>>, c: int, d: nat)
    requires
        uniform(s, d),
        0 <= c < d,
    ensures
        -(s.len() * COORD_LIMIT) <= col_sum(s, c) <= s.len() * COORD_LIMIT,
    decreases s.len(),
{
    if s.len() > 0 {
        assert(uniform(s.drop_last(), d));
        lemma_col_sum_bounded(s.drop_last(), c, d);
        assert(coords_bounded(s[s.len() - 1]));
    }
}

/// The coordinate sums of the points, one per coordinate.
pub fn calculate_center(points: &Vec<Point>, dimensionality: usize) -> (r: Vec<i64>)
    requires
        uniform(views(points@), dimensionality as nat),
        points@.len() <= MAX_POINTS,
    ensures
        r@.len() == dimensionality,
        forall|c: int| 0 <= c < dimensionality ==> r@[c] == col_sum(views(points@), c),
        forall|c: int| 0 <= c < dimensionality ==> -MAX_SUM <= #[trigger] r@[c] <= MAX_SUM,
{
    let ghost s = views(points@);
    let mut r: Vec<i64> = Vec::new();
    let mut c: usize = 0;
    while c < dimensionality
        invariant
            s == views(points@),
            uniform(s, dimensionality as nat),
            points@.len() <= MAX_POINTS,
            c <= dimensionality,
            r@.len() == c,
            forall|e: int| 0 <= e < c ==> r@[e] == col_sum(s, e),
            forall|e: int| 0 <= e < c ==> -MAX_SUM <= #[trigger] r@[e] <= MAX_SUM,
        decreases dimensionality - c,
    {
        let mut total: i64 = 0;
        let mut k: usize = 0;
        while k < points.len()
            invariant
                s == views(points@),
                uniform(s, dimensionality as nat),
                points@.len() <= MAX_POINTS,
                c < dimensionality,
                k <= points@.len(),
                total == col_sum(s.take(k as int), c as int),
            decreases points@.len() - k,
        {
            proof {
                assert(s.take(k as int + 1).drop_last() =~= s.take(k as int));
                assert(uniform(s.take(k as int + 1), dimensionality as nat));
                lemma_col_sum_bounded(s.take(k as int + 1), c as int, dimensionality as nat);
                assert(s.take(k as int + 1).last() == s[k as int]);
                assert((k + 1) * COORD_LIMIT <= MAX_SUM);
            }
            total = total + points[k].coordinates[c];
            k = k + 1;
        }
        proof {
            assert(s.take(points@.len() as int) =~= s);
            lemma_col_sum_bounded(s, c as int, dimensionality as nat);
            assert(s.len() * COORD_LIMIT <= MAX_SUM);
        }
        r.push(total);
        c = c + 1;
    }
    r
}

/// Sequence of exact integers of a vector of `i64`.
pub open spec fn sums_int(v: Seq<i64>) -> Seq<int> {
    v.map_values(|x: i64| x as int)
}

/// `|count * p - sums|^2`: the squared distance from `p` to the centroid `sums / count`,
/// scaled by `count^2`.
pub fn center_gap(p: &Point, sums: &Vec<i64>, count: usize) -> (r: u128)
    requires
        coords_bounded(p@),
        sums@.len() == p@.len(),
        forall|c: int| 0 <= c < sums@.len() ==> -MAX_SUM <= #[trigger] sums@[c] <= MAX_SUM,
        count <= MAX_POINTS,
    ensures
        r as int == scaled_gap(p@, sums_int(sums@), count as int, p@.len()),
        r <= 0x1_0000_0000_0000_0000_0000_0000,
{
    let ghost si = sums_int(sums@);
    let n = p.coordinates.len();
    let mut total: u128 = 0;
    let mut c: usize = 0;
    while c < n
        invariant
            n == p@.len(),
            si == sums_int(sums@),
            coords_bounded(p@),
            sums@.len() == n,
            forall|e: int| 0 <= e < sums@.len() ==> -MAX_SUM <= #[trigger] sums@[e] <= MAX_SUM,
            count <= MAX_POINTS,
            c <= n,
            total as int == scaled_gap(p@, si, count as int, c as nat),
            total as int <= c * 0x1_0000_0000_0000_0000_0000,
        decreases n - c,
    {
        let x: i64 = p.coordinates[c];
        let s: i64 = sums[c];
        assert(-COORD_LIMIT <= x <= COORD_LIMIT);
        assert(count as int * x as int <= 68719476736 && count as int * x as int >= -68719476736)
            by (nonlinear_arith)
            requires
                count <= 65536,
                -1048576 <= x <= 1048576,
        ;
        let diff: i64 = (count as i64) * x - s;
        assert(-137438953472 <= diff <= 137438953472);
        let a: u128 = if diff < 0 { (-diff) as u128 } else { diff as u128 };
        assert(a * a <= 137438953472 * 137438953472) by (nonlinear_arith)
            requires
                a <= 137438953472,
        ;
        assert(a * a == sqr(count * p@[c as int] - si[c as int])) by (nonlinear_arith)
            requires
                a == diff || a == -diff,
                diff == count * p@[c as int] - si[c as int],
        ;
        assert(n <= 65536);
        total = total + a * a;
        c = c + 1;
    }
    assert(c * 0x1_0000_0000_0000_0000_0000 <= 0x1_0000_0000_0000_0000_0000_0000) by (nonlinear_arith)
        requires
            c <= 65536,
    ;
    total
}

/// The first position of a largest value: a later value replaces the running
/// choice only when strictly greater.
pub open spec fn first_max(vals: Seq<int>) -> int
    decreases vals.len(),
{
    if vals.len() <= 1 {
        0
    } else {
        let j = first_max(vals.drop_last());
        if vals.last() > vals[j] {
            vals.len() - 1
        } else {
            j
        }
    }
}

pub proof fn lemma_first_max(vals: Seq<int>)
    requires
        vals.len() > 0,
    ensures
        0 <= first_max(vals) < vals.len(),
        forall|i: int| 0 <= i < vals.len() ==> #[trigger] vals[i] <= vals[first_max(vals)],
        forall|i: int| 0 <= i < first_max(vals) ==> #[trigger] vals[i] < vals[first_max(vals)],
    decreases vals.len(),
{
    if vals.len() > 1 {
        let t = vals.drop_last();
        lemma_first_max(t);
        let j = first_max(t);
        assert forall|i: int| 0 <= i < vals.len() implies #[trigger] vals[i] <= vals[first_max(vals)] by {
            if i < t.len() {
                assert(t[i] == vals[i]);
            }
        }
        assert forall|i: int| 0 <= i < first_max(vals) implies #[trigger] vals[i] < vals[first_max(vals)] by {
            assert(t[i] == vals[i]);
        }
    }
}

} // verus!
