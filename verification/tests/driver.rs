// Scenario tests for the search driver: exact largest numerators, printed
// form, and the run-time checks of `try_solve`.

use rowpack::packing::feasible;
use rowpack::search::rounded_parts;
use rowpack::search::solve;
use rowpack::search::try_solve;

fn printed(m: u128) -> String {
    let (whole, frac) = rounded_parts(m);
    format!("{}.{:010}", whole, frac)
}

#[test]
fn single_rectangle() {
    // max k = min(10/2, 10/3) = 10/3.
    let a: Vec<u64> = vec![2];
    let b: Vec<u64> = vec![3];
    let m: u128 = solve(&a, &b, 10, 10);
    assert_eq!(m, 3_333_333_333_333);
    assert_eq!(printed(m), "3.3333333333");
}

#[test]
fn two_equal_height_rectangles_combine() {
    // One row of width 2k <= 4 and height 2k <= 2: max k = 1.
    let a: Vec<u64> = vec![1, 1];
    let b: Vec<u64> = vec![2, 2];
    let m: u128 = solve(&a, &b, 4, 2);
    assert_eq!(m, 1_000_000_000_000);
    assert_eq!(printed(m), "1.0000000000");
}

#[test]
fn two_different_height_rectangles_stack() {
    // Rows stack: k + 2k = 3k <= 3, width never binds: max k = 1.
    let a: Vec<u64> = vec![1, 1];
    let b: Vec<u64> = vec![1, 2];
    let m: u128 = solve(&a, &b, 10, 3);
    assert_eq!(m, 1_000_000_000_000);
    assert_eq!(printed(m), "1.0000000000");
}

#[test]
fn answer_rounds_half_up() {
    // Scaled tenths: 2.5 x 3.0 in a 5 x 5 box gives max k = 5/3, whose
    // ten-place rounding carries: 1.6666666667.
    let a: Vec<u64> = vec![25];
    let b: Vec<u64> = vec![30];
    let m: u128 = solve(&a, &b, 50, 50);
    assert_eq!(m, 1_666_666_666_666);
    assert_eq!(printed(m), "1.6666666667");
}

#[test]
fn solution_is_boundary_of_feasibility() {
    let a: Vec<u64> = vec![2, 7, 7, 3];
    let b: Vec<u64> = vec![5, 5, 4, 4];
    let m: u128 = solve(&a, &b, 13, 17);
    let scale: u128 = 1_000_000_000_000;
    assert!(feasible(m, scale, &a, &b, 13, 17));
    assert!(!feasible(m + 1, scale, &a, &b, 13, 17));
    assert!(feasible(m / 2, scale, &a, &b, 13, 17));
}

#[test]
fn try_solve_accepts_well_formed_input() {
    let a: Vec<u64> = vec![2];
    let b: Vec<u64> = vec![3];
    assert_eq!(try_solve(&a, &b, 10, 10), Some(3_333_333_333_333));
}

#[test]
fn try_solve_rejects_empty_input() {
    let a: Vec<u64> = vec![];
    let b: Vec<u64> = vec![];
    assert_eq!(try_solve(&a, &b, 10, 10), None);
}

#[test]
fn try_solve_rejects_misaligned_lists() {
    let a: Vec<u64> = vec![1, 2];
    let b: Vec<u64> = vec![1];
    assert_eq!(try_solve(&a, &b, 10, 10), None);
}

#[test]
fn try_solve_rejects_zero_dimensions() {
    let a: Vec<u64> = vec![1, 0];
    let b: Vec<u64> = vec![1, 1];
    assert_eq!(try_solve(&a, &b, 10, 10), None);
    let a2: Vec<u64> = vec![1];
    let b2: Vec<u64> = vec![1];
    assert_eq!(try_solve(&a2, &b2, 0, 10), None);
    assert_eq!(try_solve(&a2, &b2, 10, 0), None);
}

#[test]
fn try_solve_rejects_oversized_input() {
    // The probe products would overflow the 128-bit words.
    let a: Vec<u64> = vec![u64::MAX];
    let b: Vec<u64> = vec![u64::MAX];
    assert_eq!(try_solve(&a, &b, u64::MAX, u64::MAX), None);
}
