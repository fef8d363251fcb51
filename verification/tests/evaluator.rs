// Scenario tests for the feasibility evaluator: boundary tie-breaks, row
// grouping by exact base-height equality, and purity across repeated calls.

use rowpack::packing::feasible;

#[test]
fn width_equal_to_box_is_feasible() {
    // k * a = 5 * 2 = 10 == w exactly: feasible.
    let a: Vec<u64> = vec![2];
    let b: Vec<u64> = vec![1];
    assert!(feasible(5, 1, &a, &b, 10, 10));
}

#[test]
fn width_just_over_box_is_infeasible() {
    // k = 5 + 1/10^12: the scaled width exceeds w = 10 by one trillionth.
    let a: Vec<u64> = vec![2];
    let b: Vec<u64> = vec![1];
    assert!(feasible(5_000_000_000_000, 1_000_000_000_000, &a, &b, 10, 10));
    assert!(!feasible(5_000_000_000_001, 1_000_000_000_000, &a, &b, 10, 10));
}

#[test]
fn height_equal_to_box_is_feasible() {
    let a: Vec<u64> = vec![1];
    let b: Vec<u64> = vec![2];
    assert!(feasible(5, 1, &a, &b, 10, 10));
    assert!(!feasible(5_000_000_000_001, 1_000_000_000_000, &a, &b, 10, 10));
}

#[test]
fn equal_heights_combine_into_one_row() {
    // Two 1x2 rectangles at k = 1 share one row: width 2 <= 4, height 2 <= 2.
    let a: Vec<u64> = vec![1, 1];
    let b: Vec<u64> = vec![2, 2];
    assert!(feasible(1, 1, &a, &b, 4, 2));
}

#[test]
fn equal_heights_with_excess_width_break() {
    // Widths 3 + 3 > 4 force two rows: total height 2 fits h = 2 but not
    // h = 1, although a single shared row would have height 1.
    let a: Vec<u64> = vec![3, 3];
    let b: Vec<u64> = vec![1, 1];
    assert!(feasible(1, 1, &a, &b, 4, 2));
    assert!(!feasible(1, 1, &a, &b, 4, 1));
}

#[test]
fn different_heights_always_break() {
    // Plenty of width, but the base heights differ: rows stack to 1 + 2 = 3.
    let a: Vec<u64> = vec![1, 1];
    let b: Vec<u64> = vec![1, 2];
    assert!(feasible(1, 1, &a, &b, 10, 3));
    assert!(!feasible(1, 1, &a, &b, 10, 2));
}

#[test]
fn grouping_compares_unscaled_heights() {
    // The heights 2 and 2 are compared unscaled: at k = 3/2 the rectangles
    // still share a row (width 3 <= 4), and the row height 2k = 3 fits h = 3.
    let a: Vec<u64> = vec![1, 1];
    let b: Vec<u64> = vec![2, 2];
    assert!(feasible(3, 2, &a, &b, 4, 3));
    assert!(!feasible(3, 2, &a, &b, 4, 2));
}

#[test]
fn zero_scale_is_always_feasible() {
    let a: Vec<u64> = vec![1_000_000, 2_000_000];
    let b: Vec<u64> = vec![3_000_000, 4_000_000];
    assert!(feasible(0, 1, &a, &b, 1, 1));
}

#[test]
fn empty_list_is_trivially_feasible() {
    let a: Vec<u64> = vec![];
    let b: Vec<u64> = vec![];
    assert!(feasible(7, 1, &a, &b, 3, 3));
}

#[test]
fn repeated_calls_agree() {
    // The evaluator is pure: identical arguments give the identical answer.
    let a: Vec<u64> = vec![3, 3, 1];
    let b: Vec<u64> = vec![2, 2, 5];
    let first: bool = feasible(4, 3, &a, &b, 9, 11);
    for _ in 0..5 {
        assert_eq!(feasible(4, 3, &a, &b, 9, 11), first);
    }
}

#[test]
fn smaller_scale_stays_feasible() {
    // A feasible scale stays feasible when shrunk, even where the row
    // boundaries move: at k = 1.1 the first row holds one rectangle, at
    // k = 1 it holds two.
    let a: Vec<u64> = vec![9, 1, 8];
    let b: Vec<u64> = vec![1, 1, 1];
    assert!(feasible(11, 10, &a, &b, 10, 3));
    assert!(feasible(1, 1, &a, &b, 10, 3));
    assert!(feasible(1, 2, &a, &b, 10, 3));
}
