//! Students in a row of classrooms walk to the nearest collection point.

use crate::read_u32::{line_read, newline_read, U32Reader};
use vstd::prelude::*;

verus! {

/// Distance from room `i` back to the nearest collection point at or
/// before it, if there is one.
pub open spec fn dist_before(s: Seq<bool>, i: int) -> Option<nat>
    decreases i + 1,
{
    if i < 0 || i >= s.len() {
        None
    } else if s[i] {
        Some(0)
    } else {
        match dist_before(s, i - 1) {
            Some(d) => Some(d + 1),
            None => None,
        }
    }
}

/// Distance from room `i` on to the nearest collection point at or after
/// it, if there is one.
pub open spec fn dist_after(s: Seq<bool>, i: int) -> Option<nat>
    decreases s.len() - i,
{
    if i < 0 || i >= s.len() {
        None
    } else if s[i] {
        Some(0)
    } else {
        match dist_after(s, i + 1) {
            Some(d) => Some(d + 1),
            None => None,
        }
    }
}

/// How far the student of room `i` walks: to the nearer of the closest
/// collection points on either side.
pub open spec fn walk(s: Seq<bool>, i: int) -> nat {
    match (dist_before(s, i), dist_after(s, i)) {
        (Some(a), Some(b)) => if a <= b {
            a
        } else {
            b
        },
        (Some(a), None) => a,
        (None, Some(b)) => b,
        (None, None) => 0,
    }
}

/// The walks of the students of rooms `0..n`, added up.
pub open spec fn total_walk(s: Seq<bool>, n: int) -> nat
    decreases n,
{
    if n <= 0 {
        0
    } else {
        total_walk(s, n - 1) + walk(s, n - 1)
    }
}

/// `1 + 2 + ... + t`.
spec fn up_sum(t: int) -> int
    decreases t,
{
    if t <= 0 {
        0
    } else {
        up_sum(t - 1) + t
    }
}

/// `k + (k - 1) + ... + (k + 1 - t)`.
spec fn down_sum(k: int, t: int) -> int
    decreases t,
{
    if t <= 0 {
        0
    } else {
        down_sum(k, t - 1) + (k + 1 - t)
    }
}

/// The walks from the first `t` of `k` empty rooms lying between two
/// collection points.
spec fn both_sum(k: int, t: int) -> int
    decreases t,
{
    if t <= 0 {
        0
    } else {
        both_sum(k, t - 1) + if t <= k + 1 - t {
            t
        } else {
            k + 1 - t
        }
    }
}

proof fn lemma_up_sum(t: int)
    requires
        t >= 0,
    ensures
        2 * up_sum(t) == t * (t + 1),
    decreases t,
{
    if t > 0 {
        lemma_up_sum(t - 1);
        assert((t - 1) * (t - 1 + 1) + 2 * t == t * (t + 1)) by (nonlinear_arith);
        assert(up_sum(t) == up_sum(t - 1) + t);
    } else {
        assert(t * (t + 1) == 0) by (nonlinear_arith)
            requires
                t == 0,
        ;
    }
}

proof fn lemma_down_sum(k: int, t: int)
    requires
        t >= 0,
    ensures
        2 * down_sum(k, t) == t * (2 * k + 1 - t),
    decreases t,
{
    if t > 0 {
        lemma_down_sum(k, t - 1);
        assert(down_sum(k, t) == down_sum(k, t - 1) + (k + 1 - t));
        assert((t - 1) * (2 * k + 1 - (t - 1)) + 2 * (k + 1 - t) == t * (2 * k + 1 - t))
            by (nonlinear_arith);
    } else {
        assert(t * (2 * k + 1 - t) == 0) by (nonlinear_arith)
            requires
                t == 0,
        ;
    }
}

proof fn lemma_both_sum_split(k: int, t: int)
    requires
        0 <= t,
    ensures
        t <= (k + 1) / 2 ==> both_sum(k, t) == up_sum(t),
        t > (k + 1) / 2 ==> both_sum(k, t) == up_sum((k + 1) / 2) + down_sum(k, t) - down_sum(
            k,
            (k + 1) / 2,
        ),
    decreases t,
{
    if t > 0 {
        lemma_both_sum_split(k, t - 1);
    }
}

proof fn lemma_both_sum(k: int)
    requires
        k >= 0,
    ensures
        both_sum(k, k) == (k + 1) * (k + 1) / 4,
{
    let m = (k + 1) / 2;
    lemma_both_sum_split(k, k);
    lemma_up_sum(m);
    lemma_down_sum(k, k);
    lemma_down_sum(k, m);
    if k % 2 == 0 {
        let j = k / 2;
        assert(m == j);
        if k > 0 {
            assert(2 * both_sum(k, k) == m * (m + 1) + k * (k + 1) - m * (2 * k + 1 - m));
        }
        assert(m * (m + 1) + k * (k + 1) - m * (2 * k + 1 - m) == 2 * (j * j + j)) by (nonlinear_arith)
            requires
                k == 2 * j,
                m == j,
        ;
        assert((k + 1) * (k + 1) == 4 * (j * j + j) + 1) by (nonlinear_arith)
            requires
                k == 2 * j,
        ;
    } else {
        let j = k / 2;
        assert(m == j + 1);
        assert(2 * both_sum(k, k) == m * (m + 1) + k * (k + 1) - m * (2 * k + 1 - m));
        assert(m * (m + 1) + k * (k + 1) - m * (2 * k + 1 - m) == 2 * ((j + 1) * (j + 1))) by (nonlinear_arith)
            requires
                k == 2 * j + 1,
                m == j + 1,
        ;
        assert((k + 1) * (k + 1) == 4 * ((j + 1) * (j + 1))) by (nonlinear_arith)
            requires
                k == 2 * j + 1,
        ;
    }
}

proof fn lemma_before_in_run(s: Seq<bool>, lo: int, i: int)
    requires
        0 <= lo <= i < s.len(),
        forall|j: int| lo <= j <= i ==> !s[j],
    ensures
        dist_before(s, i) == (match dist_before(s, lo - 1) {
            Some(d) => Some((d + (i - lo + 1)) as nat),
            None => None::<nat>,
        }),
    decreases i - lo,
{
    if i > lo {
        lemma_before_in_run(s, lo, i - 1);
    }
}

proof fn lemma_after_in_run(s: Seq<bool>, i: int, hi: int)
    requires
        0 <= i <= hi < s.len(),
        forall|j: int| i <= j <= hi ==> !s[j],
    ensures
        dist_after(s, i) == (match dist_after(s, hi + 1) {
            Some(d) => Some((d + (hi - i + 1)) as nat),
            None => None::<nat>,
        }),
    decreases hi - i,
{
    if i < hi {
        lemma_after_in_run(s, i + 1, hi);
    }
}

/// The walks from the first `t` rooms of a run of `k` empty rooms starting
/// at `lo`, by which sides of the run have a collection point.
spec fn run_part(left: bool, right: bool, k: int, t: int) -> int {
    if left && right {
        both_sum(k, t)
    } else if left {
        up_sum(t)
    } else {
        down_sum(k, t)
    }
}

proof fn lemma_run_total(s: Seq<bool>, lo: int, k: int, t: int)
    requires
        0 <= lo,
        lo + k <= s.len(),
        0 <= t <= k,
        forall|j: int| lo <= j < lo + k ==> !s[j],
        lo == 0 || s[lo - 1],
        lo + k == s.len() || s[lo + k],
        lo > 0 || lo + k < s.len(),
    ensures
        total_walk(s, lo + t) == total_walk(s, lo) + run_part(lo > 0, lo + k < s.len(), k, t),
    decreases t,
{
    if t > 0 {
        lemma_run_total(s, lo, k, t - 1);
        let i = lo + t - 1;
        lemma_before_in_run(s, lo, i);
        lemma_after_in_run(s, i, lo + k - 1);
        if lo + k < s.len() {
            assert(dist_after(s, lo + k) == Some(0nat));
        } else {
            assert(dist_after(s, lo + k) == None::<nat>);
        }
        if lo > 0 {
            assert(dist_before(s, lo - 1) == Some(0nat));
        }
    }
}

proof fn lemma_dist_bounds(s: Seq<bool>, i: int)
    requires
        0 <= i < s.len(),
    ensures
        dist_before(s, i) matches Some(d) ==> d <= i,
        dist_after(s, i) matches Some(d) ==> d < s.len() - i,
        walk(s, i) <= s.len(),
{
    lemma_before_bound(s, i);
    lemma_after_bound(s, i);
}

proof fn lemma_before_bound(s: Seq<bool>, i: int)
    requires
        0 <= i < s.len(),
    ensures
        dist_before(s, i) matches Some(d) ==> d <= i,
    decreases i,
{
    if i > 0 {
        lemma_before_bound(s, i - 1);
    }
    if !s[i] {
        assert(dist_before(s, i - 1) matches Some(d) ==> d <= i - 1);
    }
}

proof fn lemma_after_bound(s: Seq<bool>, i: int)
    requires
        0 <= i < s.len(),
    ensures
        dist_after(s, i) matches Some(d) ==> d < s.len() - i,
    decreases s.len() - i,
{
    if i + 1 < s.len() {
        lemma_after_bound(s, i + 1);
    }
    if !s[i] {
        assert(dist_after(s, i + 1) matches Some(d) ==> d < s.len() - i - 1);
    }
}

proof fn lemma_total_bound(s: Seq<bool>, m: int)
    requires
        0 <= m <= s.len(),
    ensures
        total_walk(s, m) <= m * s.len(),
    decreases m,
{
    if m > 0 {
        lemma_total_bound(s, m - 1);
        lemma_dist_bounds(s, m - 1);
        assert((m - 1) * s.len() + s.len() == m * s.len()) by (nonlinear_arith);
    }
}

proof fn lemma_product_fits(a: int, b: int)
    requires
        0 <= a <= u32::MAX,
        0 <= b <= u32::MAX,
    ensures
        a * b <= u64::MAX,
{
    assert(a * b <= u32::MAX * u32::MAX) by (nonlinear_arith)
        requires
            0 <= a <= u32::MAX,
            0 <= b <= u32::MAX,
    ;
}

/// Returns the total distance the students walk when each student in an
/// empty room (`false`) walks to the nearest collection point (`true`).
/// There must be a collection point, and at most `u32::MAX` rooms.
pub fn minimum_distance(classrooms: &[bool]) -> (total: u64)
    requires
        exists|i: int| 0 <= i < classrooms@.len() && classrooms@[i],
        classrooms@.len() <= u32::MAX,
    ensures
        total == total_walk(classrooms@, classrooms@.len() as int),
{
    let ghost s = classrooms@;
    let n = classrooms.len();
    let mut total: u64 = 0;
    // Empty rooms since the last collection point, or since the first room.
    let mut empty_rooms: u64 = 0;
    let mut seen_point = false;
    let mut i: usize = 0;
    while i < n
        invariant
            s == classrooms@,
            n == s.len(),
            n <= u32::MAX,
            i <= n,
            empty_rooms <= i,
            forall|j: int| i - empty_rooms <= j < i ==> !s[j],
            seen_point ==> i - empty_rooms > 0 && s[i - empty_rooms - 1],
            !seen_point ==> i - empty_rooms == 0,
            total == total_walk(s, i - empty_rooms),
        decreases n - i,
    {
        if classrooms[i] {
            let k = empty_rooms;
            proof {
                let lo = i - k;
                lemma_run_total(s, lo, k as int, k as int);
                lemma_total_bound(s, i as int);
                lemma_product_fits(i as int, n as int);
                lemma_product_fits(k as int + 1, k as int + 1);
                lemma_product_fits(k as int, k as int + 1);
                if seen_point {
                    lemma_both_sum(k as int);
                } else {
                    lemma_down_sum(k as int, k as int);
                }
                assert(dist_before(s, i as int) == Some(0nat));
                assert(dist_after(s, i as int) == Some(0nat));
            }
            // Between two collection points the students split toward the
            // nearer one: `(k + 1)^2 / 4` in all. Before the first one they
            // all walk right: `1 + 2 + ... + k`.
            let gap = if seen_point {
                (k + 1) * (k + 1) / 4
            } else {
                k * (k + 1) / 2
            };
            total = total + gap;
            seen_point = true;
            empty_rooms = 0;
        } else {
            empty_rooms = empty_rooms + 1;
        }
        i = i + 1;
    }
    let k = empty_rooms;
    proof {
        if !seen_point {
            let j = choose|j: int| 0 <= j < s.len() && s[j];
            assert(!s[j]);
        }
        let lo = n - k;
        lemma_run_total(s, lo, k as int, k as int);
        lemma_total_bound(s, n as int);
        lemma_product_fits(n as int, n as int);
        lemma_product_fits(k as int, k as int + 1);
        lemma_up_sum(k as int);
    }
    // After the last collection point the students all walk left.
    total + k * (k + 1) / 2
}

/// The rooms a row of `0` (empty) and `1` (collection point) bytes
/// describes; a carriage return is skipped. `None` when another byte occurs.
pub open spec fn row_of(line: Seq<u8>) -> Option<Seq<bool>>
    decreases line.len(),
{
    if line.len() == 0 {
        Some(Seq::empty())
    } else {
        match row_of(line.drop_last()) {
            Some(rooms) => if line.last() == 48 {
                Some(rooms.push(false))
            } else if line.last() == 49 {
                Some(rooms.push(true))
            } else if line.last() == 13 {
                Some(rooms)
            } else {
                None
            },
            None => None,
        }
    }
}

/// Reads a row of classrooms: `0` for an empty room, `1` for a collection
/// point, carriage returns skipped. Returns `None` on any other byte.
pub fn parse_row(line: &[u8]) -> (rooms: Option<Vec<bool>>)
    ensures
        rooms matches Some(r) ==> row_of(line@) == Some(r@),
        rooms is None ==> row_of(line@) is None,
{
    let mut rooms: Vec<bool> = Vec::new();
    let mut k: usize = 0;
    while k < line.len()
        invariant
            k <= line@.len(),
            row_of(line@.take(k as int)) == Some(rooms@),
        decreases line@.len() - k,
    {
        let b = line[k];
        assert(line@.take(k + 1).drop_last() =~= line@.take(k as int));
        if b == 48 {
            rooms.push(false);
        } else if b == 49 {
            rooms.push(true);
        } else if b != 13 {
            proof {
                lemma_row_prefix(line@, k as int + 1);
            }
            return None;
        }
        k = k + 1;
    }
    assert(line@.take(k as int) =~= line@);
    Some(rooms)
}

proof fn lemma_row_prefix(line: Seq<u8>, k: int)
    requires
        0 <= k <= line.len(),
        row_of(line.take(k)) is None,
    ensures
        row_of(line) is None,
    decreases line.len() - k,
{
    if k < line.len() {
        assert(line.take(k + 1).drop_last() =~= line.take(k));
        lemma_row_prefix(line, k + 1);
    } else {
        assert(line.take(k) =~= line);
    }
}

/// Reading `k` test cases in turn from `b`, each a line with the number of
/// rooms (not used further) and a row of rooms: the rows and the bytes left,
/// or `None` when a read fails.
pub open spec fn row_reads(b: Seq<u8>, k: nat) -> Option<(Seq<Seq<bool>>, Seq<u8>)>
    decreases k,
{
    if k == 0 {
        Some((Seq::empty(), b))
    } else {
        match row_reads(b, (k - 1) as nat) {
            Some((rows, rest)) => match newline_read(rest) {
                (Some(_), after_count) => match row_of(line_read(after_count).0) {
                    Some(row) => Some((rows.push(row), line_read(after_count).1)),
                    None => None,
                },
                (None, _) => None,
            },
            None => None,
        }
    }
}

proof fn lemma_row_reads_stop(b: Seq<u8>, k: nat, m: nat)
    requires
        k <= m,
        row_reads(b, k) is None,
    ensures
        row_reads(b, m) is None,
    decreases m - k,
{
    if k < m {
        lemma_row_reads_stop(b, k, (m - 1) as nat);
    }
}

/// The rows of rooms of an input that gives the number of test cases on its
/// first line, then for each the number of rooms and the row.
pub open spec fn counted_rows(b: Seq<u8>) -> Option<Seq<Seq<bool>>> {
    match newline_read(b) {
        (Some(k), rest) => match row_reads(rest, k as nat) {
            Some((rows, _)) => Some(rows),
            None => None,
        },
        (None, _) => None,
    }
}

/// Reads the test cases: their count, then for each a line with the number
/// of rooms and a row of rooms. Returns `None` when a number cannot be read
/// or a row holds a byte other than `0`, `1` or a carriage return.
pub fn input_classrooms(input: Vec<u8>) -> (rows: Option<Vec<Vec<bool>>>)
    ensures
        match counted_rows(input@) {
            Some(rs) => rows matches Some(v) && v@.map_values(|row: Vec<bool>| row@) == rs,
            None => rows is None,
        },
{
    let mut reader = U32Reader::new(input);
    if !reader.can_read_until_newline() {
        return None;
    }
    let count = reader.read_until_newline();
    let ghost rest = reader@;
    let mut rows: Vec<Vec<bool>> = Vec::new();
    let mut k: u32 = 0;
    while k < count
        invariant
            k <= count,
            newline_read(input@) == (Some(count), rest),
            row_reads(rest, k as nat) == Some((rows@.map_values(|row: Vec<bool>| row@), reader@)),
        decreases count - k,
    {
        // The number of rooms, which the row itself also gives.
        if !reader.can_read_until_newline() {
            proof {
                lemma_row_reads_stop(rest, (k + 1) as nat, count as nat);
            }
            return None;
        }
        reader.read_until_newline();
        let line = reader.read_line();
        match parse_row(line.as_slice()) {
            Some(row) => {
                let ghost before = rows@.map_values(|row: Vec<bool>| row@);
                rows.push(row);
                assert(rows@.map_values(|row: Vec<bool>| row@) =~= before.push(row@));
            },
            None => {
                proof {
                    lemma_row_reads_stop(rest, (k + 1) as nat, count as nat);
                }
                return None;
            },
        }
        k = k + 1;
    }
    Some(rows)
}

} // verus!
