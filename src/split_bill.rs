//! Splitting a bill evenly among club members.

use vstd::prelude::*;

verus! {

/// How a bill splits among the members.
#[derive(Clone, Copy, Debug, PartialEq, Eq, Structural)]
pub enum Split {
    /// It splits evenly, each member paying this much.
    Even(u32),
    /// It does not; this much is left over after the largest even split.
    Remainder(u32),
}

/// Returns how `cost` splits among `members` people.
pub fn split_cost(cost: u32, members: u32) -> (r: Split)
    requires
        members >= 1,
    ensures
        r == (if cost % members == 0 {
            Split::Even(cost / members)
        } else {
            Split::Remainder(cost % members)
        }),
{
    let remainder = cost % members;
    if remainder == 0 {
        Split::Even(cost / members)
    } else {
        Split::Remainder(remainder)
    }
}

} // verus!
