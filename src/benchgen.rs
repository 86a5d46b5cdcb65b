//! Adversarial input for the product-triple search: numbers chosen by their
//! count of prime factors so that both walks of the inner search stay busy.

use vstd::arithmetic::power::pow;
use vstd::prelude::*;

verus! {

/// The largest input value of the product-triple problem.
pub const A6_MAX: u32 = 1_000_000;

/// The square root of [`A6_MAX`]: primes up to it factor any input value.
pub const SQRT_A6_MAX: u32 = 1_000;

/// The smallest input value of the product-triple problem.
pub const A6_MIN: u32 = 2;

/// `primal::Sieve`, the table of primes that factorises input values, held
/// as an opaque value.
#[verifier::external_type_specification]
#[verifier::external_body]
pub struct ExSieve(primal::Sieve);

/// The limit a sieve was built with: it holds every prime up to it.
pub uninterp spec fn sieve_limit(sieve: primal::Sieve) -> int;

/// The prime factorisation of `n`: (prime, exponent) pairs, primes
/// ascending.
pub uninterp spec fn prime_factorisation(n: usize) -> Seq<(usize, usize)>;

/// `p` is a prime.
pub open spec fn is_prime(p: int) -> bool {
    p >= 2 && forall|d: int| 2 <= d < p ==> #[trigger] (p % d) != 0
}

/// The product of `p^e` over the pairs `(p, e)` of `f`.
pub open spec fn factor_product(f: Seq<(usize, usize)>) -> int
    decreases f.len(),
{
    if f.len() == 0 {
        1
    } else {
        factor_product(f.drop_last()) * pow(f.last().0 as int, f.last().1 as nat)
    }
}

/// `f` is a prime factorisation of `n`: distinct primes in ascending order,
/// each with a positive exponent, whose powers multiply to `n`.
pub open spec fn is_prime_factorisation(n: int, f: Seq<(usize, usize)>) -> bool {
    &&& forall|i: int| 0 <= i < f.len() ==> is_prime(#[trigger] f[i].0 as int) && f[i].1 >= 1
    &&& forall|i: int, j: int| 0 <= i < j < f.len() ==> #[trigger] f[i].0 < #[trigger] f[j].0
    &&& factor_product(f) == n
}

/// Relies on `primal::Sieve::new`: it sieves the primes up to `limit`.
#[verifier::external_body]
fn sieve_up_to(limit: usize) -> (r: primal::Sieve)
    ensures
        sieve_limit(r) == limit,
{
    primal::Sieve::new(limit)
}

/// Relies on `primal::Sieve::factor`: it returns the prime factorisation of
/// `n` as (prime, exponent) pairs, primes ascending, and succeeds for every
/// `n` from 1 up to the square of the sieve's limit (1 has no pairs).
#[verifier::external_body]
fn factorise(sieve: &primal::Sieve, n: usize) -> (r: Option<Vec<(usize, usize)>>)
    ensures
        1 <= n <= sieve_limit(*sieve) * sieve_limit(*sieve) ==> r is Some,
        r matches Some(f) ==> f@ == prime_factorisation(n) && is_prime_factorisation(n as int, f@),
{
    sieve.factor(n).ok()
}

/// The sum of the exponents of the (prime, exponent) pairs `e`: the number
/// of prime factors, counted with multiplicity, of what they factorise.
pub open spec fn exponent_sum(e: Seq<(usize, usize)>) -> nat
    decreases e.len(),
{
    if e.len() == 0 {
        0
    } else {
        exponent_sum(e.drop_last()) + e.last().1 as nat
    }
}

proof fn lemma_exponent_sum_grows(e: Seq<(usize, usize)>, i: int)
    requires
        0 <= i <= e.len(),
    ensures
        exponent_sum(e.take(i)) <= exponent_sum(e),
    decreases e.len() - i,
{
    if i < e.len() {
        lemma_exponent_sum_grows(e, i + 1);
        assert(e.take(i + 1).drop_last() =~= e.take(i));
    } else {
        assert(e.take(i) =~= e);
    }
}

/// Returns the sum of the exponents of the (prime, exponent) pairs
/// `exponents`, or `None` when it exceeds `u32::MAX`.
pub fn total_exponent(exponents: &Vec<(usize, usize)>) -> (r: Option<u32>)
    ensures
        r == (if exponent_sum(exponents@) <= u32::MAX {
            Some(exponent_sum(exponents@) as u32)
        } else {
            None::<u32>
        }),
{
    let ghost e = exponents@;
    let mut total: u32 = 0;
    let mut i: usize = 0;
    while i < exponents.len()
        invariant
            e == exponents@,
            i <= e.len(),
            total == exponent_sum(e.take(i as int)),
        decreases e.len() - i,
    {
        assert(e.take(i + 1).drop_last() =~= e.take(i as int));
        if exponents[i].1 > (u32::MAX - total) as usize {
            proof {
                lemma_exponent_sum_grows(e, i + 1);
            }
            return None;
        }
        total = total + exponents[i].1 as u32;
        i = i + 1;
    }
    assert(e.take(i as int) =~= e);
    Some(total)
}

/// Returns the number of prime factors of `n`, counted with multiplicity
/// (`None` if it exceeds `u32::MAX`).
pub fn prime_factor_count(sieve: &primal::Sieve, n: u32) -> (r: Option<u32>)
    requires
        1 <= n <= sieve_limit(*sieve) * sieve_limit(*sieve),
    ensures
        is_prime_factorisation(n as int, prime_factorisation(n as usize)),
        r == (if exponent_sum(prime_factorisation(n as usize)) <= u32::MAX {
            Some(exponent_sum(prime_factorisation(n as usize)) as u32)
        } else {
            None::<u32>
        }),
{
    match factorise(sieve, n as usize) {
        Some(e) => total_exponent(&e),
        None => None,
    }
}

/// The counts of prime factors that make a number adversarial.
pub open spec fn wanted_count(f: int) -> bool {
    f == 2 || f == 3 || f == 7 || f == 8 || f == 12 || f == 13 || f == 17 || f == 18 || f == 22
        || f == 23 || f == 27 || f == 28
}

/// `n`, with `prime_factors` prime factors, belongs to the adversarial
/// input: the count is one of those wanted, or `n` is a prime above a
/// quarter of [`A6_MAX`].
pub open spec fn bad_case_member(n: int, prime_factors: int) -> bool {
    wanted_count(prime_factors) || (n > A6_MAX / 4 && prime_factors == 1)
}

/// Returns whether `n`, having `prime_factors` prime factors counted with
/// multiplicity, belongs to the adversarial input.
pub fn is_bad_case_number(n: u32, prime_factors: u32) -> (r: bool)
    ensures
        r == bad_case_member(n as int, prime_factors as int),
{
    matches!(prime_factors, 2 | 3 | 7 | 8 | 12 | 13 | 17 | 18 | 22 | 23 | 27 | 28) || (n > A6_MAX
        / 4 && prime_factors == 1)
}

/// `n` belongs to the adversarial input.
pub open spec fn in_bad_case(n: int) -> bool {
    bad_case_member(n, exponent_sum(prime_factorisation(n as usize)) as int)
}

/// Returns, in ascending order, the numbers from [`A6_MIN`] to [`A6_MAX`]
/// whose count of prime factors (with multiplicity) is 2, 3, 7, 8, 12, 13,
/// 17, 18, 22, 23, 27 or 28, together with the primes above `A6_MAX / 4`.
pub fn bad_case() -> (r: Vec<u32>)
    ensures
        forall|i: int, j: int| 0 <= i < j < r@.len() ==> r@[i] < r@[j],
        forall|i: int|
            0 <= i < r@.len() ==> A6_MIN <= #[trigger] r@[i] <= A6_MAX && in_bad_case(r@[i] as int),
        forall|n: int| A6_MIN <= n <= A6_MAX && in_bad_case(n) ==> r@.contains(n as u32),
        forall|n: int|
            A6_MIN <= n <= A6_MAX ==> is_prime_factorisation(n, #[trigger] prime_factorisation(
                n as usize,
            )),
{
    let sieve = sieve_up_to(SQRT_A6_MAX as usize);
    let mut r: Vec<u32> = Vec::new();
    let mut n: u32 = A6_MIN;
    while n <= A6_MAX
        invariant
            A6_MIN <= n <= A6_MAX + 1,
            sieve_limit(sieve) == SQRT_A6_MAX,
            forall|i: int, j: int| 0 <= i < j < r@.len() ==> r@[i] < r@[j],
            forall|i: int| 0 <= i < r@.len() ==> A6_MIN <= #[trigger] r@[i] < n && in_bad_case(r@[i] as int),
            forall|m: int| A6_MIN <= m < n && in_bad_case(m) ==> r@.contains(m as u32),
            forall|m: int|
                A6_MIN <= m < n ==> is_prime_factorisation(m, #[trigger] prime_factorisation(
                    m as usize,
                )),
        decreases A6_MAX + 1 - n,
    {
        let ghost sum = exponent_sum(prime_factorisation(n as usize));
        assert(in_bad_case(n as int) == bad_case_member(n as int, sum as int));
        let keep = match prime_factor_count(&sieve, n) {
            Some(f) => {
                assert(f == sum);
                is_bad_case_number(n, f)
            },
            None => false,
        };
        assert(keep == in_bad_case(n as int));
        let ghost old_r = r@;
        if keep {
            r.push(n);
            assert(r@[r@.len() - 1] == n);
            assert forall|m: int| A6_MIN <= m < n && in_bad_case(m) implies r@.contains(m as u32) by {
                let k = choose|k: int| 0 <= k < old_r.len() && old_r[k] == m as u32;
                assert(r@[k] == m as u32);
            }
        }
        n = n + 1;
    }
    r
}

/// Pads `numbers` to `target` elements by appending copies of its first
/// `target - len` elements; leaves it as it is when it already has
/// `target` or more. There must be enough to copy: `target <= 2 * len`.
pub fn fill_to(numbers: &mut Vec<u32>, target: usize)
    requires
        target <= 2 * old(numbers)@.len(),
    ensures
        final(numbers)@ == (if target <= old(numbers)@.len() {
            old(numbers)@
        } else {
            old(numbers)@ + old(numbers)@.take(target - old(numbers)@.len())
        }),
{
    let len = numbers.len();
    if target <= len {
        return;
    }
    let ghost start = numbers@;
    let mut i: usize = 0;
    while i < target - len
        invariant
            len == start.len(),
            target <= 2 * len,
            len < target,
            i <= target - len,
            numbers@ == start + start.take(i as int),
        decreases target - len - i,
    {
        let x = numbers[i];
        numbers.push(x);
        i = i + 1;
        assert(numbers@ =~= start + start.take(i as int));
    }
}

} // verus!
