use ax_tensor::exact::{exact_fraction, exact_integer, same_value, ExactRatio};
use ax_tensor::linear_system::solve_rational_system;
use num_bigint::BigInt;
use num_rational::BigRational;

fn q(n: i64, d: i64) -> BigRational {
    BigRational::new(BigInt::from(n), BigInt::from(d))
}

fn ints(row: &[i64]) -> Vec<ExactRatio> {
    row.iter().map(|v| exact_integer(*v)).collect()
}

fn values(x: &[ExactRatio]) -> Vec<BigRational> {
    x.iter().map(|v| v.rational().clone()).collect()
}

#[test]
fn solves_square_system() {
    // x + y = 3, x - y = 1  =>  x = 2, y = 1
    let matrix = vec![ints(&[1, 1]), ints(&[1, -1])];
    let rhs = ints(&[3, 1]);
    let x = solve_rational_system(&matrix, &rhs).unwrap();
    assert_eq!(values(&x), vec![q(2, 1), q(1, 1)]);
}

#[test]
fn solves_with_fractional_answer() {
    // 2x = 1, 3y = 2
    let matrix = vec![ints(&[2, 0]), ints(&[0, 3])];
    let rhs = ints(&[1, 2]);
    let x = solve_rational_system(&matrix, &rhs).unwrap();
    assert_eq!(values(&x), vec![q(1, 2), q(2, 3)]);
}

#[test]
fn needs_a_row_exchange() {
    // 0x + y = 2, x + y = 5
    let matrix = vec![ints(&[0, 1]), ints(&[1, 1])];
    let rhs = ints(&[2, 5]);
    let x = solve_rational_system(&matrix, &rhs).unwrap();
    assert_eq!(values(&x), vec![q(3, 1), q(2, 1)]);
}

#[test]
fn free_unknown_is_zero() {
    // x + y = 4 (one equation, two unknowns): y free, set to zero.
    let matrix = vec![ints(&[1, 1])];
    let rhs = ints(&[4]);
    let x = solve_rational_system(&matrix, &rhs).unwrap();
    assert_eq!(values(&x), vec![q(4, 1), q(0, 1)]);
}

#[test]
fn inconsistent_system_has_no_solution() {
    // x + y = 1, 2x + 2y = 3
    let matrix = vec![ints(&[1, 1]), ints(&[2, 2])];
    let rhs = ints(&[1, 3]);
    assert!(solve_rational_system(&matrix, &rhs).is_none());
}

#[test]
fn dependent_consistent_system() {
    // x + 2y = 3, 2x + 4y = 6, y - z = 1
    let matrix = vec![ints(&[1, 2, 0]), ints(&[2, 4, 0]), ints(&[0, 1, -1])];
    let rhs = ints(&[3, 6, 1]);
    let x = solve_rational_system(&matrix, &rhs).unwrap();
    assert_eq!(values(&x), vec![q(1, 1), q(1, 1), q(0, 1)]);
}

#[test]
fn empty_system_has_empty_solution() {
    let matrix: Vec<Vec<ExactRatio>> = vec![];
    let x = solve_rational_system(&matrix, &[]).unwrap();
    assert!(x.is_empty());
}

#[test]
fn no_unknowns_needs_zero_right_hand_side() {
    let matrix = vec![ints(&[])];
    assert!(solve_rational_system(&matrix, &ints(&[0])).unwrap().is_empty());
    assert!(solve_rational_system(&matrix, &ints(&[1])).is_none());
}

#[test]
fn fraction_inputs() {
    // (1/2) x = 1/4
    let matrix = vec![vec![exact_fraction(1, 2)]];
    let rhs = vec![exact_fraction(1, 4)];
    let x = solve_rational_system(&matrix, &rhs).unwrap();
    assert!(same_value(&x[0], &exact_fraction(2, 4)));
    assert_eq!(values(&x), vec![q(1, 2)]);
}

#[test]
fn swapped_unit_system_and_free_unknown() {
    let matrix = vec![ints(&[0, 1]), ints(&[1, 0])];
    let x = solve_rational_system(&matrix, &ints(&[2, 3])).unwrap();
    assert_eq!(values(&x), vec![q(3, 1), q(2, 1)]);
    let matrix = vec![ints(&[1, 1]), ints(&[1, 1])];
    assert!(solve_rational_system(&matrix, &ints(&[1, 2])).is_none());
    let matrix = vec![ints(&[1, 1])];
    let x = solve_rational_system(&matrix, &ints(&[2])).unwrap();
    assert_eq!(values(&x), vec![q(2, 1), q(0, 1)]);
}
