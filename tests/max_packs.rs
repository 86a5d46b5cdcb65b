use kickstart::chips::max_packs;

// Tests `max_packs` with low values of `wallet`.
#[test]
fn poor() {
    assert_eq!(max_packs(1, 1), 1);
    assert_eq!(max_packs(2, 1), 0);
    assert_eq!(max_packs(1000, 1), 0);
}

// Tests `max_packs` with high values of `wallet`.
#[test]
fn rich() {
    // 1 + 2 + 3 + ... + 1413 = 998_991, 1 + 2 + 3 + ... + 1414 = 1_000_405
    assert_eq!(max_packs(1, 1_000_000), 1413);
    // 1000 + 2000 + 3000 + ... + 44000 = 990_000, 1000 + 2000 + 3000 + ... + 45000 = 1_035_000
    assert_eq!(max_packs(1000, 1_000_000), 44);
}

#[test]
fn packs_for_small_wallets() {
    // price 1: wallets 1..=100 buy 1, 1, 2, 2, 2, 3, 3, 3, 3, ...
    let mut expected = Vec::new();
    for n in 1..=13u32 {
        for _ in 0..=n {
            expected.push(n);
        }
    }
    for wallet in 1..=100u32 {
        assert_eq!(max_packs(1, wallet), expected[wallet as usize - 1], "wallet {wallet}");
    }
}

#[test]
fn packs_at_the_top_of_u32() {
    // 1 + 2 + ... + 92681 = 4_294_930_221 <= u32::MAX < 1 + ... + 92682
    assert_eq!(max_packs(1, u32::MAX), 92681);
    assert_eq!(max_packs(u32::MAX, u32::MAX), 1);
}
