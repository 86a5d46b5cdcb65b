//! Climbing a staircase at most three stairs at a time.

use vstd::prelude::*;

verus! {

/// Returns the fewest steps that climb `staircase_size` stairs when one step
/// covers one, two or three stairs.
pub fn min_steps(staircase_size: u32) -> (steps: u32)
    ensures
        3 * steps >= staircase_size,
        steps == 0 || 3 * (steps - 1) < staircase_size,
{
    // Climb three stairs at a time, then the one or two left in one step.
    let triple_stair_steps = staircase_size / 3;
    let stairs_completed = triple_stair_steps * 3;
    triple_stair_steps + if stairs_completed != staircase_size {
        1
    } else {
        0
    }
}

} // verus!
