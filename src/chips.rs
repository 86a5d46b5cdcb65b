//! Buying packs of chips whose prices rise: the `k`-th pack costs `k` times
//! the base price.

use vstd::prelude::*;

verus! {

/// The `n`-th triangular number, `1 + 2 + ... + n`.
pub open spec fn tri(n: nat) -> nat
    decreases n,
{
    if n == 0 {
        0
    } else {
        tri((n - 1) as nat) + n
    }
}

proof fn lemma_tri_grows(m: nat, n: nat)
    requires
        m <= n,
    ensures
        tri(m) <= tri(n),
    decreases n - m,
{
    if m < n {
        lemma_tri_grows(m, (n - 1) as nat);
    }
}

/// Returns how many packs `wallet` buys when the `k`-th pack costs
/// `k * price`: the largest `n` with `price * (1 + 2 + ... + n) <= wallet`.
pub fn max_packs(price: u32, wallet: u32) -> (packs: u32)
    requires
        price >= 1,
    ensures
        price * tri(packs as nat) <= wallet,
        wallet < price * tri(packs as nat + 1),
{
    // Only whole multiples of the price can be spent: count in coins of
    // that price, then take the largest `n` with `1 + 2 + ... + n` coins.
    let coins = wallet / price;
    let mut n: u32 = 0;
    let mut spent: u64 = 0;
    while spent + n as u64 + 1 <= coins as u64
        invariant
            spent == tri(n as nat),
            spent <= coins,
            n <= spent,
            coins == wallet / price,
        decreases coins - spent,
    {
        assert(tri(n as nat + 1) == tri(n as nat) + n + 1);
        spent = spent + n as u64 + 1;
        n = n + 1;
    }
    assert(tri(n as nat + 1) == tri(n as nat) + n + 1);
    proof {
        let q = wallet as int / price as int;
        vstd::arithmetic::div_mod::lemma_fundamental_div_mod(wallet as int, price as int);
        vstd::arithmetic::div_mod::lemma_mod_pos_bound(wallet as int, price as int);
        let t0 = tri(n as nat) as int;
        let t1 = tri(n as nat + 1) as int;
        assert(price * t0 <= price * q) by (nonlinear_arith)
            requires
                t0 <= q,
                price >= 1,
        ;
        assert(price * t1 >= price * (q + 1)) by (nonlinear_arith)
            requires
                t1 >= q + 1,
                price >= 1,
        ;
        assert(price * (q + 1) == price * q + price) by (nonlinear_arith);
    }
    n
}

} // verus!
