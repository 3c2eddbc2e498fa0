//! Points with fixed-point integer coordinates and their Euclidean distance,
//! rounded down to a whole unit.
use vstd::prelude::*;

verus! {

/// Largest absolute value of a coordinate.
pub const COORD_LIMIT: i64 = 1048576;

/// Largest number of coordinates a point may have.
pub const MAX_DIMENSIONALITY: usize = 65536;

/// Upper bound of the distance between two bounded points of equal dimensionality.
pub const MAX_DISTANCE: u64 = 536870912;

/// Upper bound of a squared distance.
pub const MAX_SQUARED_DISTANCE: u64 = 288230376151711744;

/// Coordinates that a point of the library may hold.
pub open spec fn coords_bounded(c: Seq<i64>) -> bool {
    &&& c.len() <= MAX_DIMENSIONALITY
    &&& forall|i: int| 0 <= i < c.len() ==> -COORD_LIMIT <= #[trigger] c[i] <= COORD_LIMIT
}

/// The square of an integer.
pub open spec fn sqr(x: int) -> int {
    x * x
}

/// Sum of the squared coordinate differences over the first `k` coordinates.
pub open spec fn squared_prefix(a: Seq<i64>, b: Seq<i64>, k: nat) -> int
    decreases k,
{
    if k == 0 {
        0
    } else {
        squared_prefix(a, b, (k - 1) as nat) + sqr(a[k - 1] - b[k - 1])
    }
}

pub open spec fn squared_distance(a: Seq<i64>, b: Seq<i64>) -> int {
    squared_prefix(a, b, a.len())
}

/// The largest `r` with `r * r <= x`.
pub open spec fn floor_sqrt(x: nat) -> nat
    decreases x,
{
    if x == 0 {
        0
    } else {
        let r = floor_sqrt((x - 1) as nat);
        if (r + 1) * (r + 1) <= x {
            r + 1
        } else {
            r
        }
    }
}

/// Euclidean distance between two coordinate sequences, rounded down.
pub open spec fn distance(a: Seq<i64>, b: Seq<i64>) -> nat {
    floor_sqrt(squared_distance(a, b) as nat)
}

/// `floor_sqrt(x)` is the floor of the square root of `x`.
pub proof fn lemma_floor_sqrt_bounds(x: nat)
    ensures
        floor_sqrt(x) * floor_sqrt(x) <= x,
        x < (floor_sqrt(x) + 1) * (floor_sqrt(x) + 1),
    decreases x,
{
    if x > 0 {
        lemma_floor_sqrt_bounds((x - 1) as nat);
        let r = floor_sqrt((x - 1) as nat);
        assert((r + 1) * (r + 1) < (r + 2) * (r + 2)) by (nonlinear_arith);
        let s = floor_sqrt(x);
        if (r + 1) * (r + 1) <= x {
            assert(s == r + 1);
            assert(s * s <= x);
            assert(x < (s + 1) * (s + 1));
        } else {
            assert(s == r);
            assert(s * s <= x);
            assert(x < (s + 1) * (s + 1));
        }
    } else {
        assert(floor_sqrt(x) == 0);
        assert(0 < (0 + 1) * (0 + 1)) by (nonlinear_arith);
    }
}

proof fn lemma_square_monotone(a: int, b: int)
    requires
        0 <= a,
        0 <= b,
        a * a < b * b,
    ensures
        a < b,
{
    if a >= b {
        assert(a * a >= b * b) by (nonlinear_arith)
            requires
                a >= b,
                b >= 0,
        ;
    }
}

/// A floor square root is unique.
pub proof fn lemma_floor_sqrt_unique(x: nat, r: nat)
    requires
        r * r <= x,
        x < (r + 1) * (r + 1),
    ensures
        floor_sqrt(x) == r,
{
    lemma_floor_sqrt_bounds(x);
    let s = floor_sqrt(x);
    lemma_square_monotone(r as int, (s + 1) as int);
    lemma_square_monotone(s as int, (r + 1) as int);
}

proof fn lemma_squared_prefix_bounds(a: Seq<i64>, b: Seq<i64>, k: nat)
    requires
        coords_bounded(a),
        coords_bounded(b),
        k <= a.len(),
        k <= b.len(),
    ensures
        0 <= squared_prefix(a, b, k) <= k * 4398046511104,
    decreases k,
{
    if k > 0 {
        lemma_squared_prefix_bounds(a, b, (k - 1) as nat);
        let d = a[k - 1] - b[k - 1];
        assert(-2097152 <= d <= 2097152);
        assert(0 <= sqr(d) <= 4398046511104) by (nonlinear_arith)
            requires
                -2097152 <= d <= 2097152,
        ;
    }
}

/// The distance of two bounded points of equal dimensionality is at most `MAX_DISTANCE`.
pub proof fn lemma_distance_bounded(a: Seq<i64>, b: Seq<i64>)
    requires
        coords_bounded(a),
        coords_bounded(b),
        a.len() == b.len(),
    ensures
        0 <= squared_distance(a, b) <= MAX_SQUARED_DISTANCE,
        distance(a, b) <= MAX_DISTANCE,
{
    lemma_squared_prefix_bounds(a, b, a.len());
    let x = squared_distance(a, b) as nat;
    lemma_floor_sqrt_bounds(x);
    let r = floor_sqrt(x);
    if r > MAX_DISTANCE {
        assert(r * r > MAX_DISTANCE * MAX_DISTANCE) by (nonlinear_arith)
            requires
                r > MAX_DISTANCE,
        ;
    }
}

proof fn lemma_squared_prefix_symmetric(a: Seq<i64>, b: Seq<i64>, k: nat)
    ensures
        squared_prefix(a, b, k) == squared_prefix(b, a, k),
    decreases k,
{
    if k > 0 {
        lemma_squared_prefix_symmetric(a, b, (k - 1) as nat);
        assert(sqr(a[k - 1] - b[k - 1]) == sqr(b[k - 1] - a[k - 1])) by (nonlinear_arith);
    }
}

proof fn lemma_squared_prefix_self(a: Seq<i64>, k: nat)
    ensures
        squared_prefix(a, a, k) == 0,
    decreases k,
{
    if k > 0 {
        lemma_squared_prefix_self(a, (k - 1) as nat);
    }
}

/// Distance is symmetric, and a point is at distance zero from itself.
pub proof fn lemma_distance_symmetric(a: Seq<i64>, b: Seq<i64>)
    requires
        a.len() == b.len(),
    ensures
        distance(a, b) == distance(b, a),
        distance(a, a) == 0,
{
    lemma_squared_prefix_symmetric(a, b, a.len());
    lemma_squared_prefix_self(a, a.len());
}

/// Floor square root of a value no larger than `MAX_SQUARED_DISTANCE`, by bisection.
pub fn integer_sqrt(x: u64) -> (r: u64)
    requires
        x <= MAX_SQUARED_DISTANCE,
    ensures
        r as nat == floor_sqrt(x as nat),
        r <= MAX_DISTANCE,
{
    let mut lo: u64 = 0;
    let mut hi: u64 = MAX_DISTANCE + 1;
    assert(x < (hi as int) * (hi as int)) by (nonlinear_arith)
        requires
            hi == MAX_DISTANCE + 1,
            x <= MAX_SQUARED_DISTANCE,
    ;
    while lo + 1 < hi
        invariant
            lo < hi <= MAX_DISTANCE + 1,
            (lo as int) * (lo as int) <= x,
            x < (hi as int) * (hi as int),
        decreases hi - lo,
    {
        let mid: u64 = lo + (hi - lo) / 2;
        assert(mid * mid <= 536870913 * 536870913) by (nonlinear_arith)
            requires
                mid <= 536870913,
        ;
        if mid * mid <= x {
            lo = mid;
        } else {
            hi = mid;
        }
    }
    proof {
        lemma_floor_sqrt_unique(x as nat, lo as nat);
    }
    lo
}

/// A point in a space of some dimensionality, with fixed-point integer coordinates.
#[derive(Debug, Clone)]
pub struct Point {
    pub coordinates: Vec<i64>,
}

impl View for Point {
    type V = Seq<i64>;

    open spec fn view(&self) -> Seq<i64> {
        self.coordinates@
    }
}

impl Point {
    /// Creates a point from its coordinates.
    pub fn new(coordinates: Vec<i64>) -> (r: Point)
        ensures
            r@ == coordinates@,
    {
        Point { coordinates }
    }

    /// A copy of the point with the same coordinates.
    pub fn duplicate(&self) -> (r: Point)
        ensures
            r@ == self@,
    {
        Point { coordinates: self.coordinates.clone() }
    }

    /// The number of coordinates of the point.
    pub fn get_dimensionality(&self) -> (r: usize)
        ensures
            r == self@.len(),
    {
        self.coordinates.len()
    }

    /// The squared Euclidean distance to another point of the same dimensionality.
    pub fn squared_distance_to(&self, other: &Point) -> (r: u64)
        requires
            coords_bounded(self@),
            coords_bounded(other@),
            self@.len() == other@.len(),
        ensures
            r as int == squared_distance(self@, other@),
            r <= MAX_SQUARED_DISTANCE,
    {
        let n = self.coordinates.len();
        let mut total: u64 = 0;
        let mut i: usize = 0;
        while i < n
            invariant
                n == self@.len(),
                n == other@.len(),
                i <= n,
                coords_bounded(self@),
                coords_bounded(other@),
                total as int == squared_prefix(self@, other@, i as nat),
            decreases n - i,
        {
            proof {
                lemma_squared_prefix_bounds(self@, other@, (i + 1) as nat);
                assert((i + 1) * 4398046511104 <= MAX_SQUARED_DISTANCE);
            }
            let d: i64 = self.coordinates[i] - other.coordinates[i];
            assert(-2097152 <= d <= 2097152);
            assert(0 <= d * d <= 4398046511104) by (nonlinear_arith)
                requires
                    -2097152 <= d <= 2097152,
            ;
            total = total + (d * d) as u64;
            i = i + 1;
        }
        proof {
            lemma_distance_bounded(self@, other@);
        }
        total
    }

    /// The Euclidean distance to another point of the same dimensionality, rounded down.
    pub fn distance_to(&self, other: &Point) -> (r: u64)
        requires
            coords_bounded(self@),
            coords_bounded(other@),
            self@.len() == other@.len(),
        ensures
            r as nat == distance(self@, other@),
            r <= MAX_DISTANCE,
    {
        let s = self.squared_distance_to(other);
        integer_sqrt(s)
    }

    /// Whether both points have exactly the same coordinates.
    pub fn same_as(&self, other: &Point) -> (r: bool)
        ensures
            r == (self@ == other@),
    {
        if self.coordinates.len() != other.coordinates.len() {
            return false;
        }
        let mut i: usize = 0;
        while i < self.coordinates.len()
            invariant
                self@.len() == other@.len(),
                i <= self@.len(),
                forall|j: int| 0 <= j < i ==> self@[j] == other@[j],
            decreases self@.len() - i,
        {
            if self.coordinates[i] != other.coordinates[i] {
                return false;
            }
            i = i + 1;
        }
        assert(self@ =~= other@);
        true
    }
}

impl PartialEq for Point {
    fn eq(&self, other: &Point) -> (r: bool) {
        self.same_as(other)
    }
}

impl Eq for Point {
}

impl vstd::std_specs::cmp::PartialEqSpecImpl for Point {
    open spec fn obeys_eq_spec() -> bool {
        true
    }

    open spec fn eq_spec(&self, other: &Point) -> bool {
        self@ == other@
    }
}

} // verus!
