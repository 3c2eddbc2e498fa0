//! A problem instance: an ordered, duplicate-free set of points of one dimensionality.
use vstd::prelude::*;
use crate::point::{coords_bounded, Point, COORD_LIMIT, MAX_DIMENSIONALITY};
use crate::solution::{uniform, views, MAX_POINTS};

verus! {

#[verifier::external_type_specification]
#[verifier::external_body]
pub struct ExIoError(std::io::Error);

/// Why an instance could not be loaded: an I/O failure, or a malformed line
/// (counted from 1: the number of points, the dimensionality, then one line per point).
#[derive(Debug)]
pub enum ProblemInstanceError {
    IOError(std::io::Error),
    SyntaxError(usize),
}

/// The result is a syntax error at the given line.
pub open spec fn fails_at(r: Result<ProblemInstance, ProblemInstanceError>, line: int) -> bool {
    match r {
        Err(ProblemInstanceError::SyntaxError(l)) => l == line,
        _ => false,
    }
}

impl From<std::io::Error> for ProblemInstanceError {
    fn from(error: std::io::Error) -> (r: ProblemInstanceError) {
        ProblemInstanceError::IOError(error)
    }
}

impl vstd::std_specs::convert::FromSpecImpl<std::io::Error> for ProblemInstanceError {
    open spec fn obeys_from_spec() -> bool {
        true
    }

    open spec fn from_spec(error: std::io::Error) -> ProblemInstanceError {
        ProblemInstanceError::IOError(error)
    }
}

/// No two points have the same coordinates.
pub open spec fn distinct(s: Seq<Seq<i64>>) -> bool {
    forall|i: int, j: int| 0 <= i < j < s.len() ==> s[i] != s[j]
}

/// What an instance may hold: at most `MAX_POINTS` distinct bounded points of dimensionality `d`.
pub open spec fn valid_points(s: Seq<Seq<i64>>, d: nat) -> bool {
    &&& s.len() <= MAX_POINTS
    &&& uniform(s, d)
    &&& distinct(s)
}

/// Point `i` of `s` may stand in an instance of dimensionality `d` after the
/// points before it: bounded, of that dimensionality, and unlike each of them.
pub open spec fn point_ok(s: Seq<Seq<i64>>, i: int, d: nat) -> bool {
    &&& coords_bounded(s[i])
    &&& s[i].len() == d
    &&& forall|j: int| 0 <= j < i ==> s[j] != s[i]
}

/// An instance of the problem.
pub struct ProblemInstance {
    pub points: Vec<Point>,
    pub dimensionality: usize,
}

impl View for ProblemInstance {
    type V = Seq<Seq<i64>>;

    open spec fn view(&self) -> Seq<Seq<i64>> {
        views(self.points@)
    }
}

impl ProblemInstance {
    pub open spec fn wf(&self) -> bool {
        valid_points(self@, self.dimensionality as nat)
    }

    /// Builds an instance of the given dimensionality from its points, in order.
    /// Fails with a syntax error at line 1 when there are more than `MAX_POINTS`
    /// points, at line 2 when the dimensionality exceeds `MAX_DIMENSIONALITY`, and
    /// at line `i + 3` when point `i` is the first that has another dimensionality,
    /// a coordinate beyond `COORD_LIMIT`, or the coordinates of an earlier point.
    pub fn from_points(points: Vec<Point>, dimensionality: usize) -> (r: Result<
        ProblemInstance,
        ProblemInstanceError,
    >)
        ensures
            points@.len() > MAX_POINTS ==> fails_at(r, 1),
            points@.len() <= MAX_POINTS && dimensionality > MAX_DIMENSIONALITY ==> fails_at(r, 2),
            forall|i: int|
                0 <= i < points@.len() && points@.len() <= MAX_POINTS && dimensionality
                    <= MAX_DIMENSIONALITY && !#[trigger] point_ok(views(points@), i, dimensionality as nat)
                    && (forall|j: int|
                    0 <= j < i ==> point_ok(views(points@), j, dimensionality as nat))
                    ==> fails_at(r, i + 3),
            r is Ok <==> (valid_points(views(points@), dimensionality as nat) && dimensionality
                <= MAX_DIMENSIONALITY),
            r matches Ok(inst) ==> inst@ == views(points@) && inst.dimensionality == dimensionality
                && inst.wf(),
    {
        if points.len() > MAX_POINTS {
            return Err(ProblemInstanceError::SyntaxError(1));
        }
        if dimensionality > MAX_DIMENSIONALITY {
            return Err(ProblemInstanceError::SyntaxError(2));
        }
        let ghost s = views(points@);
        let d = dimensionality;
        let mut i: usize = 0;
        while i < points.len()
            invariant
                s == views(points@),
                points@.len() <= MAX_POINTS,
                d <= MAX_DIMENSIONALITY,
                d == dimensionality,
                i <= points@.len(),
                forall|j: int| 0 <= j < i ==> point_ok(s, j, d as nat),
            decreases points@.len() - i,
        {
            let p = &points[i];
            assert(s[i as int] == p@);
            let mut ok = p.coordinates.len() == d;
            let mut c: usize = 0;
            while c < p.coordinates.len()
                invariant
                    ok ==> p@.len() == d,
                    c <= p@.len(),
                    ok ==> forall|k: int| 0 <= k < c ==> -COORD_LIMIT <= #[trigger] p@[k] <= COORD_LIMIT,
                    !ok ==> !coords_bounded(p@) || p@.len() != d,
                    d <= MAX_DIMENSIONALITY,
                ensures
                    ok ==> p@.len() == d && coords_bounded(p@),
                    !ok ==> !coords_bounded(p@) || p@.len() != d,
                decreases p@.len() - c,
            {
                if !ok {
                    break;
                }
                let v = p.coordinates[c];
                if v < -COORD_LIMIT || v > COORD_LIMIT {
                    ok = false;
                    break;
                }
                c = c + 1;
            }
            let mut j: usize = 0;
            while j < i
                invariant
                    i < points@.len(),
                    s == views(points@),
                    s[i as int] == p@,
                    ok ==> p@.len() == d && coords_bounded(p@),
                    j <= i,
                    ok ==> forall|k: int| 0 <= k < j ==> s[k] != s[i as int],
                    !ok ==> !point_ok(s, i as int, d as nat),
                ensures
                    ok ==> forall|k: int| 0 <= k < i ==> s[k] != s[i as int],
                    !ok ==> !point_ok(s, i as int, d as nat),
                decreases i - j,
            {
                if !ok {
                    break;
                }
                assert(s[j as int] == points@[j as int]@);
                if points[j].same_as(p) {
                    ok = false;
                    break;
                }
                j = j + 1;
            }
            if !ok {
                return Err(ProblemInstanceError::SyntaxError(i + 3));
            }
            assert(coords_bounded(s[i as int]));
            assert(point_ok(s, i as int, d as nat));
            i = i + 1;
        }
        proof {
            assert forall|a: int, b: int| 0 <= a < b < s.len() implies s[a] != s[b] by {
                assert(point_ok(s, b, d as nat));
            }
            assert forall|a: int| 0 <= a < s.len() implies coords_bounded(#[trigger] s[a])
                && s[a].len() == d by {
                assert(point_ok(s, a, d as nat));
            }
        }
        Ok(ProblemInstance { points, dimensionality })
    }

    /// The points of the instance, in order.
    pub fn points(&self) -> (r: &Vec<Point>)
        ensures
            r@ == self.points@,
    {
        &self.points
    }

    /// The number of points.
    pub fn len(&self) -> (r: usize)
        ensures
            r == self@.len(),
    {
        self.points.len()
    }
}

} // verus!
