//! Bookkeeping shared by the constructive solvers: the points of an instance are
//! split between those still available and those already selected.
use vstd::prelude::*;
use crate::point::Point;
use crate::solution::{uniform, views};

verus! {

/// `avail` and `sol` split the distinct points of `all` between them.
pub open spec fn split_of(all: Seq<Seq<i64>>, avail: Seq<Seq<i64>>, sol: Seq<Seq<i64>>) -> bool {
    &&& avail.no_duplicates()
    &&& sol.no_duplicates()
    &&& forall|x: Seq<i64>| #[trigger] all.contains(x) <==> (avail.contains(x) || sol.contains(x))
    &&& forall|x: Seq<i64>| !(#[trigger] avail.contains(x) && sol.contains(x))
    &&& avail.len() + sol.len() == all.len()
}

/// Moving the available point at position `j` to the end of the selection keeps the split.
pub proof fn lemma_split_move(
    all: Seq<Seq<i64>>,
    avail: Seq<Seq<i64>>,
    sol: Seq<Seq<i64>>,
    j: int,
    d: nat,
)
    requires
        split_of(all, avail, sol),
        0 <= j < avail.len(),
        uniform(avail, d),
        uniform(sol, d),
    ensures
        split_of(all, avail.remove(j), sol.push(avail[j])),
        uniform(avail.remove(j), d),
        uniform(sol.push(avail[j]), d),
{
    let a2 = avail.remove(j);
    let s2 = sol.push(avail[j]);
    let y = avail[j];
    assert(avail.contains(y));
    assert forall|x: Seq<i64>| a2.contains(x) <==> (avail.contains(x) && x != y) by {
        if a2.contains(x) {
            let k = choose|k: int| 0 <= k < a2.len() && a2[k] == x;
            if k < j {
                assert(avail[k] == x);
                assert(k != j);
            } else {
                assert(avail[k + 1] == x);
            }
        }
        if avail.contains(x) && x != y {
            let k = choose|k: int| 0 <= k < avail.len() && avail[k] == x;
            if k < j {
                assert(a2[k] == x);
            } else {
                assert(k != j);
                assert(a2[k - 1] == x);
            }
        }
    }
    assert forall|x: Seq<i64>| s2.contains(x) <==> (sol.contains(x) || x == y) by {
        if s2.contains(x) {
            let k = choose|k: int| 0 <= k < s2.len() && s2[k] == x;
            if k < sol.len() {
                assert(sol[k] == x);
            }
        }
        if sol.contains(x) {
            let k = choose|k: int| 0 <= k < sol.len() && sol[k] == x;
            assert(s2[k] == x);
        }
        if x == y {
            assert(s2[sol.len() as int] == x);
        }
    }
    assert forall|a: int, b: int| 0 <= a < b < a2.len() implies a2[a] != a2[b] by {
        let a1 = if a < j { a } else { a + 1 };
        let b1 = if b < j { b } else { b + 1 };
        assert(a2[a] == avail[a1]);
        assert(a2[b] == avail[b1]);
    }
    assert forall|a: int, b: int| 0 <= a < b < s2.len() implies s2[a] != s2[b] by {
        if b == sol.len() {
            assert(sol.contains(s2[a]));
        }
    }
    assert forall|i: int| 0 <= i < a2.len() implies #[trigger] a2[i] == avail[if i < j { i } else { i + 1 }] by {}
    assert forall|i: int| 0 <= i < s2.len() implies #[trigger] s2[i] == (if i < sol.len() { sol[i] } else { y }) by {}
}

/// A copy of each point, in order.
pub fn copy_points(points: &Vec<Point>) -> (r: Vec<Point>)
    ensures
        views(r@) == views(points@),
{
    let mut r: Vec<Point> = Vec::new();
    let mut i: usize = 0;
    while i < points.len()
        invariant
            i <= points@.len(),
            r@.len() == i,
            forall|k: int| 0 <= k < i ==> r@[k]@ == points@[k]@,
        decreases points@.len() - i,
    {
        r.push(points[i].duplicate());
        i = i + 1;
    }
    assert(views(r@) =~= views(points@));
    r
}


/// Whether `points` holds a point with the coordinates of `p`.
pub fn contains_point(points: &Vec<Point>, p: &Point) -> (r: bool)
    ensures
        r == views(points@).contains(p@),
{
    let ghost v = views(points@);
    let mut i: usize = 0;
    while i < points.len()
        invariant
            v == views(points@),
            i <= points@.len(),
            forall|k: int| 0 <= k < i ==> v[k] != p@,
        decreases points@.len() - i,
    {
        if points[i].same_as(p) {
            assert(v[i as int] == p@);
            return true;
        }
        i = i + 1;
    }
    false
}

} // verus!
