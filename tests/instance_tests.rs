use max_diversity::instance::{ProblemInstance, ProblemInstanceError};
use max_diversity::point::Point;

fn pt(c: &[i64]) -> Point {
    Point::new(c.to_vec())
}

fn line_of(r: Result<ProblemInstance, ProblemInstanceError>) -> usize {
    match r {
        Err(ProblemInstanceError::SyntaxError(l)) => l,
        _ => panic!("expected a syntax error"),
    }
}

#[test]
fn valid_instance() {
    let inst = ProblemInstance::from_points(vec![pt(&[0, 0]), pt(&[1, 0])], 2).unwrap();
    assert_eq!(inst.len(), 2);
    assert_eq!(inst.points()[1], pt(&[1, 0]));
}

#[test]
fn wrong_dimensionality_is_a_syntax_error() {
    let r = ProblemInstance::from_points(vec![pt(&[0, 0]), pt(&[1, 0, 0])], 2);
    assert_eq!(line_of(r), 4);
}

#[test]
fn coordinate_out_of_range_is_a_syntax_error() {
    let r = ProblemInstance::from_points(vec![pt(&[2_000_000, 0])], 2);
    assert_eq!(line_of(r), 3);
}

#[test]
fn duplicate_point_is_a_syntax_error() {
    let r = ProblemInstance::from_points(vec![pt(&[0, 0]), pt(&[1, 1]), pt(&[0, 0])], 2);
    assert_eq!(line_of(r), 5);
}

#[test]
fn too_large_dimensionality_is_a_syntax_error() {
    let r = ProblemInstance::from_points(vec![], 70000);
    assert_eq!(line_of(r), 2);
}

#[test]
fn io_error_converts() {
    let e: ProblemInstanceError = std::io::Error::new(std::io::ErrorKind::NotFound, "missing").into();
    assert!(matches!(e, ProblemInstanceError::IOError(_)));
}
