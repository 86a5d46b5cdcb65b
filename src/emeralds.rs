//! Crafting tools from sticks and diamonds: a shovel takes two sticks and a
//! diamond, a sword two diamonds and a stick, and each sells for one emerald.

use vstd::prelude::*;

verus! {

/// The most emeralds `sticks` and `diamonds` can earn: no more than either
/// count, and no more than a third of both together.
pub open spec fn most_emeralds(sticks: int, diamonds: int) -> int {
    let least = if sticks < diamonds {
        sticks
    } else {
        diamonds
    };
    if least < (sticks + diamonds) / 3 {
        least
    } else {
        (sticks + diamonds) / 3
    }
}

/// Returns the number of emeralds earned by crafting as many tools as
/// `sticks` and `diamonds` allow.
pub fn emeralds(sticks: u32, diamonds: u32) -> (r: u32)
    ensures
        r == most_emeralds(sticks as int, diamonds as int),
{
    // A "pair" is one stick with one diamond; a "single" is what is left of
    // the larger pile. A single and a pair make one tool; with singles used
    // up, three pairs make two tools.
    let (pair, single) = if sticks > diamonds {
        (diamonds, sticks - diamonds)
    } else {
        (sticks, diamonds - sticks)
    };
    if single >= pair {
        pair
    } else {
        // Computed in 64 bits: twice the surplus of pairs may exceed `u32`.
        single + ((pair - single) as u64 * 2 / 3) as u32
    }
}

} // verus!
