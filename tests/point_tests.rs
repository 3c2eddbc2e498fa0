use max_diversity::point::{integer_sqrt, Point};
use max_diversity::solution::ProblemSolution;

fn pt(c: &[i64]) -> Point {
    Point::new(c.to_vec())
}

#[test]
fn euclidean_distance() {
    let point1 = pt(&[2, 3, 4]);
    let point2 = pt(&[3, 1, 2]);
    assert_eq!(point1.distance_to(&point2), 3);
}

#[test]
fn equality() {
    let point1 = pt(&[2, 3, 4]);
    let point2 = pt(&[2, 3, 4]);
    assert!(point1 == point2);
}

#[test]
fn false_equality() {
    let point1 = pt(&[2, 3, 4]);
    let point2 = pt(&[3, 1, 2]);
    assert!(point1 != point2);
}

#[test]
fn correct_z() {
    let solution = ProblemSolution::new(vec![pt(&[0, 0]), pt(&[0, 2])]);
    assert_eq!(solution.get_z(), 2);
}

#[test]
fn distance_is_symmetric_and_zero_on_itself() {
    let a = pt(&[1000, -2500, 7]);
    let b = pt(&[-300, 4000, 12]);
    assert_eq!(a.distance_to(&b), b.distance_to(&a));
    assert_eq!(a.distance_to(&a), 0);
    assert_eq!(b.distance_to(&b), 0);
}

#[test]
fn distance_rounds_down() {
    // (0,0) to (2000,2000): 2000 * sqrt(2) = 2828.427...
    assert_eq!(pt(&[0, 0]).distance_to(&pt(&[2000, 2000])), 2828);
    assert_eq!(pt(&[0, 0]).squared_distance_to(&pt(&[2000, 2000])), 8_000_000);
}

#[test]
fn integer_sqrt_values() {
    assert_eq!(integer_sqrt(0), 0);
    assert_eq!(integer_sqrt(1), 1);
    assert_eq!(integer_sqrt(15), 3);
    assert_eq!(integer_sqrt(16), 4);
    assert_eq!(integer_sqrt(17), 4);
    assert_eq!(integer_sqrt(288230376151711744), 536870912);
}

#[test]
fn z_does_not_depend_on_order() {
    let a = ProblemSolution::new(vec![pt(&[0, 0]), pt(&[3, 4]), pt(&[6, 0])]);
    let b = ProblemSolution::new(vec![pt(&[6, 0]), pt(&[0, 0]), pt(&[3, 4])]);
    // 5 + 6 + 5
    assert_eq!(a.get_z(), 16);
    assert_eq!(b.get_z(), 16);
}

#[test]
fn z_of_empty_and_single() {
    assert_eq!(ProblemSolution::new(vec![]).get_z(), 0);
    assert_eq!(ProblemSolution::new(vec![pt(&[5, 5])]).get_z(), 0);
}

#[test]
fn duplicate_keeps_points() {
    let a = ProblemSolution::new(vec![pt(&[0, 0]), pt(&[3, 4])]);
    let b = a.duplicate();
    assert_eq!(b.get_points(), a.get_points());
    assert_eq!(pt(&[1, 2]).duplicate(), pt(&[1, 2]));
    assert_eq!(pt(&[1, 2, 3]).get_dimensionality(), 3);
}
