//! Three students in classrooms along one corridor meet to chat.

use crate::read_u32::{newline_read, space_read, U32Reader};
use vstd::prelude::*;

verus! {

/// The largest of three values.
pub open spec fn max3(a: int, b: int, c: int) -> int {
    if a >= b && a >= c {
        a
    } else if b >= c {
        b
    } else {
        c
    }
}

/// The smallest of three values.
pub open spec fn min3(a: int, b: int, c: int) -> int {
    if a <= b && a <= c {
        a
    } else if b <= c {
        b
    } else {
        c
    }
}

/// Returns the least total walk for three students at `classrooms` to meet
/// in one classroom: meeting at the middle one, the walk is the distance
/// between the outer two.
pub fn min_total_distance(classrooms: [u32; 3]) -> (r: u32)
    ensures
        r == max3(classrooms[0] as int, classrooms[1] as int, classrooms[2] as int) - min3(
            classrooms[0] as int,
            classrooms[1] as int,
            classrooms[2] as int,
        ),
{
    let a = classrooms[0];
    let b = classrooms[1];
    let c = classrooms[2];
    let low = if a <= b && a <= c {
        a
    } else if b <= c {
        b
    } else {
        c
    };
    let high = if a >= b && a >= c {
        a
    } else if b >= c {
        b
    } else {
        c
    };
    high - low
}

/// The three classrooms of an input that gives them on one line, the first
/// two ending with one byte each.
pub open spec fn three_positions(b: Seq<u8>) -> Option<Seq<u32>> {
    match space_read(b) {
        (Some(x), r1) => match space_read(r1) {
            (Some(y), r2) => match newline_read(r2) {
                (Some(z), _) => Some(seq![x, y, z]),
                (None, _) => None,
            },
            (None, _) => None,
        },
        (None, _) => None,
    }
}

/// Reads the three classrooms. Returns `None` when one cannot be read.
pub fn input_positions(input: Vec<u8>) -> (positions: Option<[u32; 3]>)
    ensures
        match three_positions(input@) {
            Some(ps) => positions matches Some(p) && p@ == ps,
            None => positions is None,
        },
{
    let mut reader = U32Reader::new(input);
    if !reader.can_read_until_space() {
        return None;
    }
    let x = reader.read_until_space();
    if !reader.can_read_until_space() {
        return None;
    }
    let y = reader.read_until_space();
    if !reader.can_read_until_newline() {
        return None;
    }
    let z = reader.read_until_newline();
    let positions = [x, y, z];
    assert(positions@ =~= seq![x, y, z]);
    Some(positions)
}

} // verus!
