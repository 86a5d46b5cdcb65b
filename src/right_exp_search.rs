//! Searching sorted data from the right end: an exponential probe toward the
//! left followed by an ordinary binary search inside the window found.

use core::cmp::Ordering;
use vstd::prelude::*;

verus! {

/// Position of an `Ordering` on the line `Less < Equal < Greater`.
pub open spec fn rank(o: Ordering) -> int {
    match o {
        Ordering::Less => 0,
        Ordering::Equal => 1,
        Ordering::Greater => 2,
    }
}

/// `s` is sorted in ascending order.
pub open spec fn sorted(s: Seq<u32>) -> bool {
    forall|i: int, j: int| 0 <= i <= j < s.len() ==> s[i] <= s[j]
}

/// `f` may be called on every element of `s`, and what it answers never
/// moves back along `Less < Equal < Greater` as the index grows.
pub open spec fn comparator_sorted<F: Fn(&u32) -> Ordering>(s: Seq<u32>, f: F) -> bool {
    &&& forall|i: int| 0 <= i < s.len() ==> #[trigger] f.requires((&s[i],))
    &&& forall|i: int, j: int, ri: Ordering, rj: Ordering|
        0 <= i <= j < s.len() && #[trigger] f.ensures((&s[i],), ri) && #[trigger] f.ensures(
            (&s[j],),
            rj,
        ) ==> rank(ri) <= rank(rj)
}

/// Every element before index `k` compares `Less`.
pub open spec fn less_before<F: Fn(&u32) -> Ordering>(s: Seq<u32>, f: F, k: int) -> bool {
    forall|j: int, r: Ordering| 0 <= j < k && j < s.len() && #[trigger] f.ensures((&s[j],), r) ==> r
        == Ordering::Less
}

/// Every element from index `k` on compares `Greater`.
pub open spec fn greater_from<F: Fn(&u32) -> Ordering>(s: Seq<u32>, f: F, k: int) -> bool {
    forall|j: int, r: Ordering| 0 <= k <= j < s.len() && #[trigger] f.ensures((&s[j],), r) ==> r
        == Ordering::Greater
}

/// The element just before index `k`, if any, was seen to compare `Less`, and
/// the element at `k`, if any, was seen to compare `Greater`.
pub open spec fn boundary_seen<F: Fn(&u32) -> Ordering>(s: Seq<u32>, f: F, k: int) -> bool {
    &&& (k == 0 || f.ensures((&s[k - 1],), Ordering::Less))
    &&& (k == s.len() || f.ensures((&s[k],), Ordering::Greater))
}

/// What a search of the sorted `s` for `x` may answer: `Ok` with an index
/// holding `x`, or `Err` with the insertion point that keeps `s` sorted.
pub open spec fn search_result(s: Seq<u32>, x: u32, r: Result<usize, usize>) -> bool {
    match r {
        Ok(k) => k < s.len() && s[k as int] == x,
        Err(k) => {
            &&& k <= s.len()
            &&& forall|j: int| 0 <= j < k ==> s[j] < x
            &&& forall|j: int| k <= j < s.len() ==> s[j] > x
        },
    }
}

/// Searches the slice `s`, ordered with respect to the comparator `f`, for an
/// element on which `f` answers `Equal`.
///
/// The probe starts at the right end with a window of one element and doubles
/// the window while the probed element compares `Greater`; the binary search
/// then runs inside the last window. Where several elements compare `Equal`,
/// any of them may be returned.
pub fn right_exponential_search_by<F: Fn(&u32) -> Ordering>(s: &[u32], f: F) -> (r: Result<
    usize,
    usize,
>)
    requires
        forall|i: int| 0 <= i < s@.len() ==> #[trigger] f.requires((&s@[i],)),
    ensures
        match r {
            Ok(k) => k < s@.len() && f.ensures((&s@[k as int],), Ordering::Equal),
            Err(k) => {
                &&& k <= s@.len()
                &&& boundary_seen(s@, f, k as int)
                &&& comparator_sorted(s@, f) ==> less_before(s@, f, k as int) && greater_from(
                    s@,
                    f,
                    k as int,
                )
            },
        },
{
    let ghost ordered = comparator_sorted(s@, f);
    let mut size: usize = 1;
    let mut left: usize = s.len();
    let mut right: usize = s.len();

    // Probe stage: step left by a doubling window until an element compares
    // below the target or the window covers the whole prefix.
    loop
        invariant_except_break
            left <= s@.len(),
            size >= 1,
            ordered ==> greater_from(s@, f, left as int),
            left == s@.len() || f.ensures((&s@[left as int],), Ordering::Greater),
        invariant
            ordered == comparator_sorted(s@, f),
            forall|i: int| 0 <= i < s@.len() ==> #[trigger] f.requires((&s@[i],)),
        ensures
            left <= right <= s@.len(),
            size == right - left,
            ordered ==> less_before(s@, f, left as int),
            ordered ==> greater_from(s@, f, right as int),
            left == 0 || f.ensures((&s@[left - 1],), Ordering::Less),
            right == s@.len() || f.ensures((&s@[right as int],), Ordering::Greater),
        decreases left,
    {
        right = left;
        if left <= size {
            left = 0;
            size = right;
            break ;
        }
        left = left - size;
        let cmp = f(&s[left]);
        match cmp {
            Ordering::Less => {
                proof {
                    if ordered {
                        assert forall|j: int, r: Ordering|
                        0 <= j < left + 1 && j < s@.len() && #[trigger] f.ensures(
                            (&s@[j],),
                            r,
                        ) implies r == Ordering::Less by {
                        assert(rank(r) <= rank(cmp));
                    }
                    }
                }
                left = left + 1;
                size = right - left;
                break ;
            },
            Ordering::Greater => {
                proof {
                    if ordered {
                        assert forall|j: int, r: Ordering|
                        0 <= left <= j < s@.len() && #[trigger] f.ensures(
                            (&s@[j],),
                            r,
                        ) implies r == Ordering::Greater by {
                        if j < right {
                            assert(rank(cmp) <= rank(r));
                        }
                    }
                    }
                }
                size = if size <= usize::MAX / 2 {
                    size * 2
                } else {
                    usize::MAX
                };
            },
            Ordering::Equal => {
                return Ok(left);
            },
        }
    }

    // Binary stage over `left..right`.
    while left < right
        invariant
            ordered == comparator_sorted(s@, f),
            forall|i: int| 0 <= i < s@.len() ==> #[trigger] f.requires((&s@[i],)),
            left <= right <= s@.len(),
            size == right - left,
            ordered ==> less_before(s@, f, left as int),
            ordered ==> greater_from(s@, f, right as int),
            left == 0 || f.ensures((&s@[left - 1],), Ordering::Less),
            right == s@.len() || f.ensures((&s@[right as int],), Ordering::Greater),
        decreases right - left,
    {
        let mid = left + size / 2;
        let cmp = f(&s[mid]);
        match cmp {
            Ordering::Less => {
                proof {
                    if ordered {
                        assert forall|j: int, r: Ordering|
                        0 <= j < mid + 1 && j < s@.len() && #[trigger] f.ensures(
                            (&s@[j],),
                            r,
                        ) implies r == Ordering::Less by {
                        if j >= left {
                            assert(rank(r) <= rank(cmp));
                        }
                    }
                    }
                }
                left = mid + 1;
            },
            Ordering::Greater => {
                proof {
                    if ordered {
                        assert forall|j: int, r: Ordering|
                        0 <= mid <= j < s@.len() && #[trigger] f.ensures(
                            (&s@[j],),
                            r,
                        ) implies r == Ordering::Greater by {
                        if j < right {
                            assert(rank(cmp) <= rank(r));
                        }
                    }
                    }
                }
                right = mid;
            },
            Ordering::Equal => {
                return Ok(mid);
            },
        }
        size = right - left;
    }
    Err(left)
}

/// Searches the sorted slice `s` for `x`, as `slice::binary_search` does.
///
/// `Ok(k)` names an index holding `x` (any one where `x` is repeated);
/// `Err(k)` is the insertion point, where `x` could be placed to keep `s`
/// sorted.
pub fn right_exponential_search(s: &[u32], x: &u32) -> (r: Result<usize, usize>)
    requires
        sorted(s@),
    ensures
        search_result(s@, *x, r),
{
    let x = *x;
    let cmp = |p: &u32| -> (o: Ordering)
        ensures
            o == (if *p < x {
                Ordering::Less
            } else if *p > x {
                Ordering::Greater
            } else {
                Ordering::Equal
            }),
        {
            if *p < x {
                Ordering::Less
            } else if *p > x {
                Ordering::Greater
            } else {
                Ordering::Equal
            }
        };
    let r = right_exponential_search_by(s, cmp);
    proof {
        if let Err(k) = r {
            if k > 0 {
                assert(s@[k - 1] < x);
            }
            if k < s@.len() {
                assert(s@[k as int] > x);
            }
        }
    }
    r
}

/// `pred` may be called on every element of `s` and holds on a prefix of it:
/// once it answers `false`, it answers `false` on every later element.
pub open spec fn predicate_partitions<P: Fn(&u32) -> bool>(s: Seq<u32>, pred: P) -> bool {
    &&& forall|i: int| 0 <= i < s.len() ==> #[trigger] pred.requires((&s[i],))
    &&& forall|i: int, j: int|
        0 <= i <= j < s.len() && #[trigger] pred.ensures((&s[i],), false) ==> !#[trigger] pred.ensures(
            (&s[j],),
            true,
        )
}

/// Returns the partition point of `s` under `pred`: the index of the first
/// element on which `pred` is `false`, as `slice::partition_point` does.
pub fn right_exponential_partition_point<P: Fn(&u32) -> bool>(s: &[u32], pred: P) -> (r: usize)
    requires
        forall|i: int| 0 <= i < s@.len() ==> #[trigger] pred.requires((&s@[i],)),
    ensures
        r <= s@.len(),
        predicate_partitions(s@, pred) ==> forall|j: int|
            0 <= j < r ==> !#[trigger] pred.ensures((&s@[j],), false),
        predicate_partitions(s@, pred) ==> forall|j: int|
            r <= j < s@.len() ==> !#[trigger] pred.ensures((&s@[j],), true),
        r == 0 || pred.ensures((&s@[r - 1],), true),
        r == s@.len() || pred.ensures((&s@[r as int],), false),
{
    let gp: Ghost<P> = Ghost(pred);
    let pr = &pred;
    let cmp = |p: &u32| -> (o: Ordering)
        requires
            gp@.requires((p,)),
        ensures
            (o == Ordering::Less && gp@.ensures((p,), true)) || (o == Ordering::Greater
                && gp@.ensures((p,), false)),
        {
            if pr(p) {
                Ordering::Less
            } else {
                Ordering::Greater
            }
        };
    proof {
        if predicate_partitions(s@, pred) {
            assert forall|i: int, j: int, ri: Ordering, rj: Ordering|
                0 <= i <= j < s@.len() && #[trigger] cmp.ensures((&s@[i],), ri) && #[trigger] cmp.ensures(
                    (&s@[j],),
                    rj,
                ) implies rank(ri) <= rank(rj) by {
                if ri == Ordering::Greater && rj == Ordering::Less {
                    assert(pred.ensures((&s@[i],), false));
                    assert(pred.ensures((&s@[j],), true));
                }
            }
        }
    }
    match right_exponential_search_by(s, cmp) {
        Ok(k) => {
            proof {
                assert(cmp.ensures((&s@[k as int],), Ordering::Equal));
            }
            k
        },
        Err(k) => k,
    }
}

/// A right-biased search and an ordinary binary search of the same sorted
/// sequence for the same value agree: both find the value or both miss it,
/// and when they miss it they name the same insertion point. They find it
/// exactly when the sequence holds it.
pub proof fn lemma_agrees_with_binary_search(
    s: Seq<u32>,
    x: u32,
    right_biased: Result<usize, usize>,
    binary: Result<usize, usize>,
)
    requires
        sorted(s),
        search_result(s, x, right_biased),
        search_result(s, x, binary),
    ensures
        right_biased is Ok <==> binary is Ok,
        right_biased is Ok <==> s.contains(x),
        right_biased is Err ==> right_biased == binary,
{
    if let Err(k) = right_biased {
        if s.contains(x) {
            let i = choose|i: int| 0 <= i < s.len() && s[i] == x;
            assert(i < k || i >= k);
        }
        if let Err(m) = binary {
            if m < k {
                assert(s[m as int] > x);
            } else if k < m {
                assert(s[k as int] > x);
            }
        }
    }
    if let Ok(k) = right_biased {
        assert(s[k as int] == x);
    }
    if let Err(m) = binary {
        if s.contains(x) {
            let i = choose|i: int| 0 <= i < s.len() && s[i] == x;
            assert(i < m || i >= m);
        }
    }
}

} // verus!
