use kickstart::classrooms::min_total_distance;
use kickstart::emeralds::emeralds;
use kickstart::sign::{is_sign, leading_capitals};
use kickstart::split_bill::{split_cost, Split};
use kickstart::stairs::min_steps;

#[test]
fn stairs_samples() {
    assert_eq!(min_steps(15), 5);
    assert_eq!(min_steps(100), 34);
}

#[test]
fn stairs_edge_cases() {
    assert_eq!(min_steps(0), 0);
    assert_eq!(min_steps(1), 1);
    assert_eq!(min_steps(2), 1);
    assert_eq!(min_steps(3), 1);
    assert_eq!(min_steps(4), 2);
    assert_eq!(min_steps(999_997), 333_333);
    assert_eq!(min_steps(999_998), 333_333);
    assert_eq!(min_steps(999_999), 333_333);
    assert_eq!(min_steps(1_000_000), 333_334);
    assert_eq!(min_steps(u32::MAX), 1_431_655_765);
}

#[test]
fn bill_splits() {
    assert_eq!(split_cost(20, 5), Split::Even(4));
    assert_eq!(split_cost(31, 6), Split::Remainder(1));
    assert_eq!(split_cost(1, 1), Split::Even(1));
    assert_eq!(split_cost(5, 5), Split::Even(1));
    assert_eq!(split_cost(3, 6), Split::Remainder(3));
    assert_eq!(split_cost(1_000_000, 1), Split::Even(1_000_000));
    assert_eq!(split_cost(1_000_000, 3), Split::Remainder(1));
    assert_eq!(split_cost(1_000_000, 1_000_000), Split::Even(1));
}

#[test]
fn sign_letters() {
    assert!(is_sign(b"IN"));
    assert!(!is_sign(b"YES"));
    assert!(is_sign(b"NO"));
    assert!(is_sign(b"HINOSXZ"));
    assert!(is_sign(b""));
    assert!(!is_sign(b"A"));
}

#[test]
fn capitals_before_the_newline() {
    assert_eq!(leading_capitals(b"IN\n"), b"IN".to_vec());
    assert_eq!(leading_capitals(b"IN"), b"IN".to_vec());
    assert_eq!(leading_capitals(b"YES\r\n"), b"YES".to_vec());
    assert_eq!(leading_capitals(b"\nNO"), Vec::<u8>::new());
    assert!(is_sign(&leading_capitals(b"NO\n")));
    assert!(!is_sign(&leading_capitals(b"YES\n")));
}

#[test]
fn chat_position() {
    assert_eq!(min_total_distance([7, 1, 4]), 6);
    assert_eq!(min_total_distance([8, 1, 9]), 8);
    assert_eq!(min_total_distance([10, 10, 10]), 0);
    assert_eq!(min_total_distance([1, 10, 100]), 99);
}

#[test]
fn emerald_counts() {
    assert_eq!(emeralds(4, 4), 2);
    assert_eq!(emeralds(1000000000, 0), 0);
    assert_eq!(emeralds(7, 15), 7);
    assert_eq!(emeralds(8, 7), 5);
    assert_eq!(emeralds(0, 0), 0);
    assert_eq!(emeralds(3, 3), 2);
    assert_eq!(emeralds(u32::MAX, u32::MAX), 2_863_311_530);
}
