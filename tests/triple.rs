use kickstart::presence::PresenceTable;
use kickstart::triple::{
    choose_method, count_at_most, scan_values, scan_window, solve, solve_unsorted, InnerMethod,
};

fn sorted(mut v: Vec<u32>) -> Vec<u32> {
    v.sort_unstable();
    v
}

#[test]
fn sample() {
    assert_eq!(solve(&[2, 4, 8, 11, 12]), Some(8));
    assert_eq!(solve(&[2, 3, 4, 5]), None);
}

#[test]
fn repeat() {
    assert_eq!(solve(&[2, 2, 4]), Some(4));
    assert_eq!(solve(&[2, 4, 4]), None);
    assert_eq!(solve(&[2, 2, 4, 4, 16, 23]), Some(16));
}

#[test]
fn scrambled() {
    assert_eq!(solve(&sorted(vec![11, 8, 2, 4, 12])), Some(8));
    assert_eq!(solve(&sorted(vec![5, 4, 3, 2])), None);
}

#[test]
fn empty_input_has_no_triple() {
    assert_eq!(solve(&[]), None);
    assert_eq!(solve(&[7]), None);
}

#[test]
fn best_product_is_largest() {
    // 2 * 23 = 46 and 3 * 13 = 39 occur; 46 is the larger.
    assert_eq!(solve(&[2, 2, 3, 13, 23, 46, 91, 100]), Some(46));
    assert_eq!(solve(&[2, 3, 6, 7, 21]), Some(21));
    assert_eq!(solve(&[3, 3, 9, 9, 81]), Some(81));
}

#[test]
fn solve_is_idempotent() {
    let input = [2, 3, 5, 6, 10, 15, 30];
    assert_eq!(solve(&input), solve(&input));
    assert_eq!(solve(&input), Some(30));
}

#[test]
fn large_factors_do_not_overflow() {
    assert_eq!(solve(&[2, 3, 92682, 92683, 92684]), None);
    assert_eq!(solve(&[65536, 65536, 1 << 31]), None);
    assert_eq!(solve(&[2, 1 << 30, 1 << 31]), Some(1 << 31));
}

#[test]
fn repeated_value_with_two_boundaries() {
    let mut input = vec![2u32; 1_000_000];
    input.push(500_000);
    input.push(1_000_000);
    assert_eq!(solve(&input), Some(1_000_000));

    let mut input = vec![3u32; 1_000_000];
    input.push(999_983);
    input.push(1_000_000);
    assert_eq!(solve(&input), None);
}

#[test]
fn method_choice() {
    assert_eq!(choose_method(10, 12, 10), InnerMethod::ScanValues);
    assert_eq!(choose_method(10, 15, 10), InnerMethod::ScanWindow);
    assert_eq!(choose_method(10, 14, 9), InnerMethod::ScanValues);
    assert_eq!(choose_method(10, 14, 8), InnerMethod::ScanWindow);
    assert_eq!(choose_method(5, 5, 2), InnerMethod::ScanValues);
    assert_eq!(choose_method(5, 5, 1), InnerMethod::ScanWindow);
    assert_eq!(choose_method(0, u32::MAX, usize::MAX), InnerMethod::ScanValues);
}

#[test]
fn both_walks_agree() {
    let numbers = [2, 3, 4, 5, 5, 5, 6, 8, 10, 12, 15, 16];
    let table = PresenceTable::build(&numbers);
    let window = &numbers[1..8];
    assert_eq!(scan_window(&table, window, 2, 16), Some(16));
    assert_eq!(scan_values(&table, window, 2, 16), Some(16));
    let window = &numbers[1..5];
    assert_eq!(scan_window(&table, window, 3, 16), Some(15));
    assert_eq!(scan_values(&table, window, 3, 16), Some(15));
    let window = &numbers[1..2];
    assert_eq!(scan_window(&table, window, 3, 16), None);
    assert_eq!(scan_values(&table, window, 3, 16), None);
}

#[test]
fn presence_table() {
    let table = PresenceTable::build(&[2, 2, 4, 9]);
    assert!(table.contains(2));
    assert!(table.contains(4));
    assert!(table.contains(9));
    assert!(!table.contains(3));
    assert!(!table.contains(0));
    assert!(!table.contains(10));
    assert!(!table.contains(u32::MAX));
    let empty = PresenceTable::build(&[]);
    assert!(!empty.contains(0));
}

#[test]
fn leading_count() {
    assert_eq!(count_at_most(&[1, 3, 3, 3, 7], 3), 4);
    assert_eq!(count_at_most(&[1, 3, 3, 3, 7], 0), 0);
    assert_eq!(count_at_most(&[1, 3, 3, 3, 7], 7), 5);
    assert_eq!(count_at_most(&[], 7), 0);
}

#[test]
fn unsorted_input_is_sorted_first() {
    assert_eq!(solve_unsorted(vec![11, 8, 2, 4, 12]), Some(8));
    assert_eq!(solve_unsorted(vec![5, 4, 3, 2]), None);
    assert_eq!(solve_unsorted(vec![16, 4, 2, 23, 4, 2]), Some(16));
    assert_eq!(solve_unsorted(vec![]), None);
}
