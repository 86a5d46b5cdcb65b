//! The product-triple search: the largest value `c` of a sorted slice for
//! which two elements at distinct positions multiply to `c`.
//!
//! For each distinct candidate `a` with `a * a <= max`, in ascending order,
//! the window of candidates `b` after `a` is narrowed from above by
//! `max / a` and from below by the best product found so far, and the
//! largest `b` in the window with `a * b` present wins for that `a`.

use crate::presence::{occurs, PresenceTable};
use crate::read_u32::{lemma_spaced_reads_stop, newline_read, spaced_reads, U32Reader};
use crate::right_exp_search::{right_exponential_partition_point, sorted};
use vstd::prelude::*;
use vstd::slice::slice_subrange;

verus! {

/// How the window of candidates `b` is walked, from the top down.
#[derive(Clone, Copy, Debug, PartialEq, Eq, Structural)]
pub enum InnerMethod {
    /// Walk the window's elements.
    ScanWindow,
    /// Walk every integer between the window's first and last values and
    /// skip those absent from the table.
    ScanValues,
}

/// The rule of [`choose_method`] on a window of `len` elements whose first
/// and last values are `first` and `last`.
pub open spec fn method_for(first: int, last: int, len: int) -> InnerMethod {
    if len >= 2 && (last - first) * 2 < len {
        InnerMethod::ScanValues
    } else {
        InnerMethod::ScanWindow
    }
}

/// Picks the walk for a window: the value walk when the window is dense,
/// twice its span of values being below its element count, else the element
/// walk.
pub fn choose_method(first: u32, last: u32, len: usize) -> (m: InnerMethod)
    requires
        first <= last,
    ensures
        m == method_for(first as int, last as int, len as int),
{
    if len >= 2 && ((last - first) as u64) * 2 < len as u64 {
        InnerMethod::ScanValues
    } else {
        InnerMethod::ScanWindow
    }
}

/// The number of leading elements of the sorted `s` that are at most
/// `bound`, found by a right-biased partition-point search.
pub fn count_at_most(s: &[u32], bound: u32) -> (k: usize)
    requires
        sorted(s@),
    ensures
        k <= s@.len(),
        forall|j: int| 0 <= j < k ==> s@[j] <= bound,
        forall|j: int| k <= j < s@.len() ==> s@[j] > bound,
{
    let at_most = |b: &u32| -> (r: bool)
        ensures
            r == (bound >= *b),
        { bound >= *b };
    let k = right_exponential_partition_point(s, at_most);
    assert(k == 0 || s@[k - 1] <= bound);
    assert(k == s@.len() || s@[k as int] > bound);
    assert forall|j: int| 0 <= j < k implies s@[j] <= bound by {
        assert(s@[j] <= s@[k - 1]);
    }
    assert forall|j: int| k <= j < s@.len() implies s@[j] > bound by {
        assert(s@[k as int] <= s@[j]);
    }
    k
}

/// `c` is the largest of the products `a * b`, `b` in `bs`, that the table
/// holds (`None` when it holds none of them).
pub open spec fn best_in_window(t: PresenceTable, bs: Seq<u32>, a: int, c: Option<u32>) -> bool {
    match c {
        Some(c) => {
            &&& exists|j: int| 0 <= j < bs.len() && a * bs[j] == c && t.holds(c as int)
            &&& forall|j: int| 0 <= j < bs.len() && #[trigger] t.holds(a * bs[j]) ==> a * bs[j] <= c
        },
        None => forall|j: int| 0 <= j < bs.len() ==> !#[trigger] t.holds(a * bs[j]),
    }
}

proof fn lemma_mul_le(a: int, x: int, y: int)
    requires
        0 <= a,
        x <= y,
    ensures
        a * x <= a * y,
{
    assert(a * x <= a * y) by (nonlinear_arith)
        requires
            0 <= a,
            x <= y,
    ;
}

/// Walks the window `bs` from its last element down and returns `a * b` for
/// the first `b` whose product the table holds. Every product `a * b` must
/// be at most `bound`, a `u32`.
pub fn scan_window(t: &PresenceTable, bs: &[u32], a: u32, bound: u32) -> (c: Option<u32>)
    requires
        sorted(bs@),
        forall|j: int| 0 <= j < bs@.len() ==> a * bs@[j] <= bound,
    ensures
        best_in_window(*t, bs@, a as int, c),
{
    let mut k: usize = bs.len();
    while k > 0
        invariant
            sorted(bs@),
            k <= bs@.len(),
            forall|j: int| 0 <= j < bs@.len() ==> a * bs@[j] <= bound,
            forall|j: int| k <= j < bs@.len() ==> !#[trigger] t.holds(a * bs@[j]),
        decreases k,
    {
        k = k - 1;
        let c = a * bs[k];
        if t.contains(c) {
            proof {
                assert forall|j: int| 0 <= j < bs@.len() && #[trigger] t.holds(a * bs@[j]) implies a
                    * bs@[j] <= c by {
                    if j < k {
                        lemma_mul_le(a as int, bs@[j] as int, bs@[k as int] as int);
                    }
                }
            }
            return Some(c);
        }
    }
    None
}

/// Walks the integers from the window's last value down to its first, skips
/// those the table lacks, and returns `a * b` for the first `b` left whose
/// product the table holds. Every value in that range that the table holds
/// must occur in the window, and every product `a * b` must be at most
/// `bound`.
pub fn scan_values(t: &PresenceTable, bs: &[u32], a: u32, bound: u32) -> (c: Option<u32>)
    requires
        bs@.len() > 0,
        sorted(bs@),
        forall|j: int| 0 <= j < bs@.len() ==> a * bs@[j] <= bound,
        forall|j: int| 0 <= j < bs@.len() ==> #[trigger] t.holds(bs@[j] as int),
        forall|v: int|
            bs@[0] <= v <= bs@[bs@.len() - 1] && #[trigger] t.holds(v) ==> exists|j: int|
                0 <= j < bs@.len() && bs@[j] == v,
    ensures
        best_in_window(*t, bs@, a as int, c),
{
    let first = bs[0];
    let last = bs[bs.len() - 1];
    let mut v: u32 = last;
    loop
        invariant
            bs@.len() > 0,
            sorted(bs@),
            first == bs@[0],
            last == bs@[bs@.len() - 1],
            forall|j: int| 0 <= j < bs@.len() ==> a * bs@[j] <= bound,
            forall|j: int| 0 <= j < bs@.len() ==> #[trigger] t.holds(bs@[j] as int),
            forall|w: int|
                bs@[0] <= w <= bs@[bs@.len() - 1] && #[trigger] t.holds(w) ==> exists|j: int|
                    0 <= j < bs@.len() && bs@[j] == w,
            first <= v <= last,
            forall|w: int| v < w <= last && #[trigger] t.holds(w) ==> !t.holds(a * w),
        decreases v,
    {
        if t.contains(v) {
            let j = Ghost(choose|j: int| 0 <= j < bs@.len() && bs@[j] == v);
            assert(a * bs@[j@] <= bound);
            let c = a * v;
            if t.contains(c) {
                proof {
                    assert forall|i: int| 0 <= i < bs@.len() && #[trigger] t.holds(a * bs@[i]) implies a
                        * bs@[i] <= c by {
                        assert(first <= bs@[i] <= last);
                        if bs@[i] > v {
                            assert(t.holds(bs@[i] as int));
                        } else {
                            lemma_mul_le(a as int, bs@[i] as int, v as int);
                        }
                    }
                }
                return Some(c);
            }
        }
        if v == first {
            proof {
                assert forall|i: int| 0 <= i < bs@.len() implies !#[trigger] t.holds(a * bs@[i]) by {
                    assert(first <= bs@[i] <= last);
                    assert(t.holds(bs@[i] as int));
                }
            }
            return None;
        }
        v = v - 1;
    }
}

/// What [`solve`] is defined on: sorted ascending, every value at least 2
/// and below `usize::MAX` (the table over `0..=max` must be indexable).
pub open spec fn valid_input(s: Seq<u32>) -> bool {
    &&& sorted(s)
    &&& forall|k: int| 0 <= k < s.len() ==> 2 <= #[trigger] s[k] && s[k] < usize::MAX
}

/// `c` occurs in `s` and is the product of two elements of `s` at distinct
/// positions (`a = s[i]`, `b = s[j]`, `i < j`; in a sorted `s` then
/// `a <= b`, and `c > b` once every value is at least 2).
pub open spec fn is_triple_product(s: Seq<u32>, c: int) -> bool {
    exists|i: int, j: int| 0 <= i < j < s.len() && #[trigger] (s[i] * s[j]) == c && occurs(s, c)
}

/// `r` is the largest triple product of `s`, or `None` when `s` has none.
pub open spec fn solve_result(s: Seq<u32>, r: Option<u32>) -> bool {
    match r {
        Some(c) => is_triple_product(s, c as int) && forall|d: int| #[trigger]
            is_triple_product(s, d) ==> d <= c,
        None => forall|d: int| !#[trigger] is_triple_product(s, d),
    }
}

/// Every product of a pair whose smaller position is below `i` and which
/// occurs in `s` is at most `best`.
#[verifier::opaque]
spec fn covered(s: Seq<u32>, i: int, best: Option<u32>) -> bool {
    forall|p: int, q: int|
        #![trigger s[p], s[q]]
        0 <= p < i && p < q < s.len() && occurs(s, s[p] * s[q]) ==> (best is Some && s[p] * s[q]
            <= best->0)
}

proof fn lemma_div_bound(a: int, m: int, x: int)
    requires
        a > 0,
        m >= 0,
        x >= 0,
    ensures
        x <= m / a ==> a * x <= m,
        x > m / a ==> a * x > m,
{
    let q = m / a;
    vstd::arithmetic::div_mod::lemma_fundamental_div_mod(m, a);
    assert(0 <= m % a < a) by {
        vstd::arithmetic::div_mod::lemma_mod_pos_bound(m, a);
    }
    if x <= q {
        lemma_mul_le(a, x, q);
    } else {
        lemma_mul_le(a, q + 1, x);
        assert(a * (q + 1) == a * q + a) by (nonlinear_arith);
    }
}

proof fn lemma_occurs_at_most_last(s: Seq<u32>, v: int)
    requires
        sorted(s),
        s.len() > 0,
        occurs(s, v),
    ensures
        v <= s[s.len() - 1],
{
    let k = choose|k: int| 0 <= k < s.len() && s[k] == v;
    assert(s[k] <= s[s.len() - 1]);
}

/// A candidate equal to the one before it adds no pair that the one before
/// did not already offer.
proof fn lemma_skip_repeat(s: Seq<u32>, i: int, best: Option<u32>)
    requires
        0 < i < s.len(),
        s[i - 1] == s[i],
        covered(s, i, best),
    ensures
        covered(s, i + 1, best),
{
    reveal(covered);
    assert forall|p: int, q: int|
        #![trigger s[p], s[q]]
        0 <= p < i + 1 && p < q < s.len() && occurs(s, s[p] * s[q]) implies (best is Some && s[p]
            * s[q] <= best->0) by {
        if p == i {
            assert(s[i - 1] * s[q] == s[p] * s[q]);
        }
    }
}

/// Once `s[i] * s[i]` exceeds the largest value, no pair from position `i`
/// on has a product that occurs.
proof fn lemma_past_root(s: Seq<u32>, i: int, best: Option<u32>)
    requires
        valid_input(s),
        0 <= i < s.len(),
        s[i] * s[i] > s[s.len() - 1],
        covered(s, i, best),
    ensures
        covered(s, s.len() as int, best),
{
    reveal(covered);
    let a = s[i];
    assert forall|p: int, q: int|
        #![trigger s[p], s[q]]
        0 <= p < s.len() && p < q < s.len() && occurs(s, s[p] * s[q]) implies (best is Some && s[p]
            * s[q] <= best->0) by {
        if p >= i {
            assert(s[p] >= a && s[q] >= a);
            assert(s[p] * s[q] >= a * a) by (nonlinear_arith)
                requires
                    s[p] >= a,
                    s[q] >= a,
                    a >= 0,
            ;
            lemma_occurs_at_most_last(s, s[p] * s[q]);
        }
    }
}

/// The window `s[i + 1 + lo .. i + 1 + hi]` of candidates `b` for `a = s[i]`
/// meets what both walks ask of it.
proof fn lemma_window(s: Seq<u32>, table: PresenceTable, i: int, a: u32, max: u32, lo: int, hi: int)
    requires
        valid_input(s),
        s.len() > 0,
        max == s[s.len() - 1],
        0 <= i < s.len(),
        a == s[i],
        forall|v: int| #[trigger] table.holds(v) <==> occurs(s, v),
        0 <= lo <= hi <= s.len() - (i + 1),
        hi == 0 || s[i + hi] <= max / a,
    ensures
        ({
            let bs = s.subrange(i + 1 + lo, i + 1 + hi);
            &&& sorted(bs)
            &&& forall|j: int| 0 <= j < bs.len() ==> a * bs[j] <= max
            &&& forall|j: int| 0 <= j < bs.len() ==> #[trigger] table.holds(bs[j] as int)
            &&& bs.len() > 0 ==> forall|v: int|
                bs[0] <= v <= bs[bs.len() - 1] && #[trigger] table.holds(v) ==> exists|j: int|
                    0 <= j < bs.len() && bs[j] == v
        }),
{
    let w = i + 1 + lo;
    let bs = s.subrange(w, i + 1 + hi);
    assert forall|j: int| 0 <= j < bs.len() implies a * #[trigger] bs[j] <= max && table.holds(
        bs[j] as int,
    ) by {
        assert(bs[j] == s[w + j]);
        assert(s[w + j] <= s[i + hi]);
        lemma_div_bound(a as int, max as int, bs[j] as int);
        assert(occurs(s, s[w + j] as int));
    }
    assert forall|x: int, y: int| 0 <= x <= y < bs.len() implies bs[x] <= bs[y] by {
        assert(s[w + x] <= s[w + y]);
    }
    if bs.len() > 0 {
        assert forall|v: int| bs[0] <= v <= bs[bs.len() - 1] && #[trigger] table.holds(v) implies exists|
            j: int,
        | 0 <= j < bs.len() && bs[j] == v by {
            let k = choose|k: int| 0 <= k < s.len() && s[k] == v;
            if k < w {
                assert(s[k] <= s[w]);
                assert(bs[0] == v);
            } else if k >= w + bs.len() {
                assert(s[w + bs.len() - 1] <= s[k]);
                assert(bs[bs.len() - 1] == v);
            } else {
                assert(bs[k - w] == v);
            }
        }
    }
}

/// After `a = s[i]` has been searched with the window
/// `s[i + 1 + lo .. i + 1 + hi]`, the best product so far covers every pair
/// whose smaller position is at most `i`.
proof fn lemma_step(
    s: Seq<u32>,
    table: PresenceTable,
    i: int,
    a: u32,
    max: u32,
    lo: int,
    hi: int,
    best: Option<u32>,
    found: Option<u32>,
)
    requires
        valid_input(s),
        s.len() > 0,
        max == s[s.len() - 1],
        0 <= i < s.len(),
        a == s[i],
        forall|v: int| #[trigger] table.holds(v) <==> occurs(s, v),
        0 <= lo <= hi <= s.len() - (i + 1),
        i + 1 + hi == s.len() || s[i + 1 + hi] > max / a,
        best is None ==> lo == 0,
        best matches Some(c0) ==> (lo == 0 || s[i + lo] <= c0 / a),
        best matches Some(c0) ==> (i + 1 + lo == s.len() || s[i + 1 + lo] > c0 / a),
        best_in_window(table, s.subrange(i + 1 + lo, i + 1 + hi), a as int, found),
        covered(s, i, best),
        best matches Some(c) ==> is_triple_product(s, c as int),
    ensures
        ({
            let next = if found is Some {
                found
            } else {
                best
            };
            &&& covered(s, i + 1, next)
            &&& next matches Some(c) ==> is_triple_product(s, c as int)
        }),
{
    reveal(covered);
    let off = i + 1;
    let bs = s.subrange(off + lo, off + hi);
    let next = if found is Some {
        found
    } else {
        best
    };
    if let Some(c) = found {
        let j = choose|j: int| 0 <= j < bs.len() && a * bs[j] == c && table.holds(c as int);
        assert(s[i] * s[off + lo + j] == c);
        assert(is_triple_product(s, c as int));
        if let Some(c0) = best {
            assert(s[off + lo] <= s[off + lo + j]);
            lemma_div_bound(a as int, c0 as int, bs[j] as int);
        }
    }
    assert forall|p: int, q: int|
        #![trigger s[p], s[q]]
        0 <= p < i + 1 && p < q < s.len() && occurs(s, s[p] * s[q]) implies (next is Some && s[p]
            * s[q] <= next->0) by {
        if p == i {
            lemma_occurs_at_most_last(s, s[p] * s[q]);
            if q >= off + hi {
                assert(s[off + hi] <= s[q]);
                lemma_div_bound(a as int, max as int, s[q] as int);
            } else if q < off + lo {
                let c0 = best->0;
                assert(s[q] <= s[i + lo]);
                lemma_div_bound(a as int, c0 as int, s[q] as int);
            } else {
                assert(bs[q - off - lo] == s[q]);
                assert(table.holds(a * bs[q - off - lo]));
            }
        }
    }
}

/// The window of candidates `b` for `a = numbers[i]`, as positions
/// `lo..hi` counted from `i + 1`: the values after `a` that are at most
/// `max / a` and, when a best product `c` is known, above `c / a`.
fn window_bounds(numbers: &[u32], i: usize, best: Option<u32>) -> (r: (usize, usize))
    requires
        valid_input(numbers@),
        i < numbers@.len(),
        best matches Some(c) ==> is_triple_product(numbers@, c as int),
    ensures
        ({
            let (lo, hi) = r;
            let s = numbers@;
            let a = s[i as int];
            let max = s[s.len() - 1];
            &&& lo <= hi <= s.len() - (i + 1)
            &&& hi == 0 || s[i + hi] <= max / a
            &&& i + 1 + hi == s.len() || s[i + 1 + hi] > max / a
            &&& best is None ==> lo == 0
            &&& best matches Some(c0) ==> (lo == 0 || s[i + lo] <= c0 / a)
            &&& best matches Some(c0) ==> (i + 1 + lo == s.len() || s[i + 1 + lo] > c0 / a)
        }),
{
    let ghost s = numbers@;
    let n = numbers.len();
    let max = numbers[n - 1];
    let a = numbers[i];
    let tail = slice_subrange(numbers, i + 1, n);
    let ghost off = i + 1;
    assert(forall|t: int| 0 <= t < tail@.len() ==> tail@[t] == s[off + t]);
    let hi = count_at_most(tail, max / a);
    proof {
        if hi > 0 {
            assert(tail@[hi - 1] == s[off + hi - 1]);
        }
        if off + hi < n {
            assert(tail@[hi as int] == s[off + hi]);
        }
    }
    let lo = match best {
        Some(c) => {
            let lo = count_at_most(tail, c / a);
            proof {
                if lo > 0 {
                    assert(tail@[lo - 1] == s[off + lo - 1]);
                }
                if off + lo < n {
                    assert(tail@[lo as int] == s[off + lo]);
                }
                lemma_occurs_at_most_last(s, c as int);
                assert(c / a <= max / a) by (nonlinear_arith)
                    requires
                        c <= max,
                        a > 0,
                ;
                if lo > hi {
                    assert(s[off + hi] <= s[off + lo - 1]);
                }
            }
            lo
        },
        None => 0,
    };
    (lo, hi)
}

/// Walks the window `bs` for `a` with the walk that [`choose_method`] picks.
fn search_window(table: &PresenceTable, bs: &[u32], a: u32, max: u32) -> (found: Option<u32>)
    requires
        sorted(bs@),
        forall|j: int| 0 <= j < bs@.len() ==> a * bs@[j] <= max,
        forall|j: int| 0 <= j < bs@.len() ==> #[trigger] table.holds(bs@[j] as int),
        bs@.len() > 0 ==> forall|v: int|
            bs@[0] <= v <= bs@[bs@.len() - 1] && #[trigger] table.holds(v) ==> exists|j: int|
                0 <= j < bs@.len() && bs@[j] == v,
    ensures
        best_in_window(*table, bs@, a as int, found),
{
    if bs.len() == 0 {
        None
    } else {
        match choose_method(bs[0], bs[bs.len() - 1], bs.len()) {
            InnerMethod::ScanValues => scan_values(table, bs, a, max),
            InnerMethod::ScanWindow => scan_window(table, bs, a, max),
        }
    }
}

/// For the candidate `a = numbers[i]`, searches the window of candidates
/// `b` after it that could beat `best`, and returns the largest product found
/// there, if any. With it, every pair whose smaller position is at most `i`
/// is covered.
fn best_with(numbers: &[u32], table: &PresenceTable, i: usize, best: Option<u32>) -> (found: Option<
    u32,
>)
    requires
        valid_input(numbers@),
        i < numbers@.len(),
        forall|v: int| #[trigger] table.holds(v) <==> occurs(numbers@, v),
        covered(numbers@, i as int, best),
        best matches Some(c) ==> is_triple_product(numbers@, c as int),
    ensures
        ({
            let next = if found is Some {
                found
            } else {
                best
            };
            &&& covered(numbers@, i + 1, next)
            &&& next matches Some(c) ==> is_triple_product(numbers@, c as int)
        }),
{
    let ghost s = numbers@;
    let n = numbers.len();
    let max = numbers[n - 1];
    let a = numbers[i];
    let (lo, hi) = window_bounds(numbers, i, best);
    let bs = slice_subrange(numbers, i + 1 + lo, i + 1 + hi);
    proof {
        lemma_window(s, *table, i as int, a, max, lo as int, hi as int);
    }
    let found = search_window(table, bs, a, max);
    proof {
        lemma_step(s, *table, i as int, a, max, lo as int, hi as int, best, found);
    }
    found
}

/// Returns the largest `c` of the sorted slice `numbers` such that
/// `c = a * b` for elements `a` and `b` at two distinct positions, or `None`
/// when there is none. An empty slice gives `None`.
pub fn solve(numbers: &[u32]) -> (r: Option<u32>)
    requires
        valid_input(numbers@),
    ensures
        solve_result(numbers@, r),
{
    let ghost s = numbers@;
    let n = numbers.len();
    if n == 0 {
        return None;
    }
    let max = numbers[n - 1];
    let table = PresenceTable::build(numbers);
    let mut best: Option<u32> = None;
    let mut previous_a: Option<u32> = None;
    let mut i: usize = 0;
    proof {
        reveal(covered);
    }
    loop
        invariant_except_break
            i <= n,
            match previous_a {
                Some(p) => i > 0 && p == s[i - 1],
                None => i == 0,
            },
            covered(s, i as int, best),
        invariant
            s == numbers@,
            valid_input(s),
            n == s.len(),
            n > 0,
            max == s[n - 1],
            forall|v: int| #[trigger] table.holds(v) <==> occurs(s, v),
            best matches Some(c) ==> is_triple_product(s, c as int),
        ensures
            covered(s, n as int, best),
        decreases n - i,
    {
        // The last value `a = max` has `a * a > max`, so the loop stops
        // before the input runs out; running out ends it all the same.
        if i >= n {
            break ;
        }
        let a = numbers[i];
        if let Some(p) = previous_a {
            if p == a {
                proof {
                    lemma_skip_repeat(s, i as int, best);
                }
                i = i + 1;
                continue ;
            }
        }
        previous_a = Some(a);
        assert((a as u64) * (a as u64) <= u64::MAX) by (nonlinear_arith)
            requires
                a <= u32::MAX,
        ;
        if (a as u64) * (a as u64) > max as u64 {
            proof {
                lemma_past_root(s, i as int, best);
            }
            break ;
        }
        let found = best_with(numbers, &table, i, best);
        if let Some(c) = found {
            best = Some(c);
        }
        i = i + 1;
    }
    proof {
        reveal(covered);
        match best {
            Some(c) => {
                assert forall|d: int| #[trigger] is_triple_product(s, d) implies d <= c by {
                    let (p, q) = choose|p: int, q: int|
                        0 <= p < q < s.len() && #[trigger] (s[p] * s[q]) == d && occurs(s, d);
                    assert(s[p] * s[q] <= c);
                }
            },
            None => {
                assert forall|d: int| !#[trigger] is_triple_product(s, d) by {
                    if is_triple_product(s, d) {
                        let (p, q) = choose|p: int, q: int|
                            0 <= p < q < s.len() && #[trigger] (s[p] * s[q]) == d && occurs(s, d);
                        assert(occurs(s, s[p] * s[q]));
                    }
                }
            },
        }
    }
    best
}

/// In a valid input, a triple product `c = a * b` occurs after both of its
/// factors: there are positions `i < j < k` with `s[i] * s[j] == s[k] == c`,
/// so `a <= b < c`.
pub proof fn lemma_triple_in_order(s: Seq<u32>, c: int)
    requires
        valid_input(s),
        is_triple_product(s, c),
    ensures
        exists|i: int, j: int, k: int|
            #![trigger s[i], s[j], s[k]]
            0 <= i < j < k < s.len() && s[i] * s[j] == c && s[k] == c,
{
    let (i, j) = choose|i: int, j: int| 0 <= i < j < s.len() && #[trigger] (s[i] * s[j]) == c && occurs(s, c);
    let k = choose|k: int| 0 <= k < s.len() && s[k] == c;
    assert(s[i] * s[j] >= 2 * s[j]) by (nonlinear_arith)
        requires
            s[i] >= 2,
            s[j] >= 0,
    ;
    if k <= j {
        assert(s[k] <= s[j]);
    }
    assert(0 <= i < j < k < s.len() && s[i] * s[j] == c && s[k] == c);
}

/// The search has one answer per input: two results that both meet the
/// contract of [`solve`] on the same slice are equal, so calling it twice
/// gives the same value.
pub proof fn lemma_solve_deterministic(s: Seq<u32>, first: Option<u32>, second: Option<u32>)
    requires
        solve_result(s, first),
        solve_result(s, second),
    ensures
        first == second,
{
    match (first, second) {
        (Some(c1), Some(c2)) => {
            assert(c1 <= c2 && c2 <= c1);
        },
        (Some(c1), None) => {
            assert(is_triple_product(s, c1 as int));
        },
        (None, Some(c2)) => {
            assert(is_triple_product(s, c2 as int));
        },
        (None, None) => {},
    }
}

/// The numbers of an input that gives their count (at least one) on its
/// first line, then the numbers separated by single bytes, the last one
/// ending its line.
pub open spec fn counted_numbers(b: Seq<u8>) -> Option<Seq<u32>> {
    match newline_read(b) {
        (Some(k), rest) => if k >= 1 {
            match spaced_reads(rest, (k - 1) as nat) {
                Some((vs, left)) => match newline_read(left) {
                    (Some(v), _) => Some(vs.push(v)),
                    (None, _) => None,
                },
                None => None,
            }
        } else {
            None
        },
        (None, _) => None,
    }
}

/// Reads the numbers of the product-triple problem: their count on the
/// first line, then the numbers. Returns `None` when the count is 0 or a
/// number cannot be read.
pub fn input_numbers(input: Vec<u8>) -> (numbers: Option<Vec<u32>>)
    ensures
        match counted_numbers(input@) {
            Some(vs) => numbers matches Some(v) && v@ == vs,
            None => numbers is None,
        },
{
    let mut reader = U32Reader::new(input);
    if !reader.can_read_until_newline() {
        return None;
    }
    let count = reader.read_until_newline();
    if count == 0 {
        return None;
    }
    let ghost rest = reader@;
    let mut numbers: Vec<u32> = Vec::new();
    let mut k: u32 = 0;
    while k < count - 1
        invariant
            1 <= count,
            k <= count - 1,
            newline_read(input@) == (Some(count), rest),
            spaced_reads(rest, k as nat) == Some((numbers@, reader@)),
        decreases count - 1 - k,
    {
        if !reader.can_read_until_space() {
            proof {
                lemma_spaced_reads_stop(rest, (k + 1) as nat, (count - 1) as nat);
            }
            return None;
        }
        numbers.push(reader.read_until_space());
        k = k + 1;
    }
    if !reader.can_read_until_newline() {
        return None;
    }
    numbers.push(reader.read_until_newline());
    Some(numbers)
}

/// Relies on `slice::sort_unstable`: it sorts the slice in ascending order,
/// keeping its elements.
#[verifier::external_body]
fn sort_ascending(v: &mut Vec<u32>)
    ensures
        sorted(final(v)@),
        final(v)@.to_multiset() == old(v)@.to_multiset(),
{
    v.sort_unstable()
}

/// Sorts `numbers` and returns what [`solve`] gives on them: the largest
/// triple product of any order of the same numbers. Every value must be at
/// least 2 (and below `usize::MAX`).
pub fn solve_unsorted(numbers: Vec<u32>) -> (r: Option<u32>)
    requires
        forall|k: int| 0 <= k < numbers@.len() ==> 2 <= #[trigger] numbers@[k] < usize::MAX,
    ensures
        exists|t: Seq<u32>|
            sorted(t) && t.to_multiset() == numbers@.to_multiset() && #[trigger] solve_result(t, r),
{
    let mut numbers = numbers;
    let ghost before = numbers@;
    sort_ascending(&mut numbers);
    proof {
        broadcast use vstd::seq_lib::group_seq_properties;
        assert forall|k: int| 0 <= k < numbers@.len() implies 2 <= #[trigger] numbers@[k] < usize::MAX by {
            let x = numbers@[k];
            assert(numbers@.contains(x));
            assert(numbers@.to_multiset().count(x) > 0);
            assert(before.contains(x));
        }
    }
    let r = solve(&numbers);
    assert(solve_result(numbers@, r));
    r
}

} // verus!
