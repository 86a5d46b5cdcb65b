use kickstart::benchgen::{
    bad_case, fill_to, is_bad_case_number, prime_factor_count, total_exponent, A6_MAX, A6_MIN,
};
use kickstart::triple::solve;

#[test]
fn member_rule() {
    assert!(is_bad_case_number(4, 2));
    assert!(is_bad_case_number(8, 3));
    assert!(!is_bad_case_number(16, 4));
    assert!(!is_bad_case_number(3, 1));
    assert!(is_bad_case_number(250_001, 1));
    assert!(!is_bad_case_number(250_000, 1));
    assert!(is_bad_case_number(1 << 28, 28));
    assert!(!is_bad_case_number(1 << 29, 29));
}

#[test]
fn exponent_totals() {
    assert_eq!(total_exponent(&vec![]), Some(0));
    assert_eq!(total_exponent(&vec![(2, 2), (3, 1), (5, 3)]), Some(6));
    assert_eq!(total_exponent(&vec![(2, u32::MAX as usize), (3, 1)]), None);
}

#[test]
fn bad_case_has_no_triple() {
    let bad = bad_case();
    assert!(bad.windows(2).all(|w| w[0] < w[1]));
    assert!(bad.iter().all(|&n| (A6_MIN..=A6_MAX).contains(&n)));
    // 4 = 2 * 2, 6 = 2 * 3 and 8 = 2 * 2 * 2 are in; 2, 3, 5 and 16 are not.
    assert_eq!(&bad[..3], &[4, 6, 8]);
    assert!(bad.binary_search(&16).is_err());
    assert!(bad.binary_search(&999_983).is_ok());
    assert_eq!(solve(&bad), None);

    // 765_049 = 23 * 29 * 31 * 37 has four prime factors, so it is not in
    // the set; added, it is the only triple product.
    let magic = 23 * 29 * 31 * 37;
    let at = bad.binary_search(&magic).unwrap_err();
    let mut with_magic = bad.clone();
    with_magic.insert(at, magic);
    assert_eq!(solve(&with_magic), Some(magic));
}

#[test]
fn counts_prime_factors() {
    let sieve = primal::Sieve::new(1000);
    assert_eq!(prime_factor_count(&sieve, 1), Some(0));
    assert_eq!(prime_factor_count(&sieve, 12), Some(3));
    assert_eq!(prime_factor_count(&sieve, 999_983), Some(1));
    assert_eq!(prime_factor_count(&sieve, 1 << 19), Some(19));
    assert_eq!(prime_factor_count(&sieve, 765_049), Some(4));
}

#[test]
fn padding_repeats_the_front() {
    let mut v = vec![5, 6, 7];
    fill_to(&mut v, 5);
    assert_eq!(v, vec![5, 6, 7, 5, 6]);
    let mut v = vec![5, 6, 7];
    fill_to(&mut v, 2);
    assert_eq!(v, vec![5, 6, 7]);
    let mut v = vec![1, 2];
    fill_to(&mut v, 4);
    assert_eq!(v, vec![1, 2, 1, 2]);
}
