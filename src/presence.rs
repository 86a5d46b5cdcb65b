//! A dense membership table over the values `0..=max` of a slice.

use vstd::prelude::*;

verus! {

/// `v` occurs somewhere in `s`.
pub open spec fn occurs(s: Seq<u32>, v: int) -> bool {
    exists|k: int| 0 <= k < s.len() && s[k] == v
}

/// One flag per value from 0 to the largest value of the slice it was built
/// from, set exactly for the values that occur there.
pub struct PresenceTable {
    present: Vec<bool>,
}

impl View for PresenceTable {
    type V = Seq<bool>;

    closed spec fn view(&self) -> Seq<bool> {
        self.present@
    }
}

impl PresenceTable {
    /// The table holds `v`: `v` is within its bounds and flagged.
    pub open spec fn holds(&self, v: int) -> bool {
        0 <= v < self@.len() && self@[v]
    }

    /// Builds the table of `values`, one entry for each value from 0 to the
    /// largest of `values` (none for an empty slice). The table's length,
    /// the largest value plus one, must be a `usize`.
    pub fn build(values: &[u32]) -> (t: PresenceTable)
        requires
            forall|k: int| 0 <= k < values@.len() ==> values@[k] < usize::MAX,
        ensures
            forall|v: int| #[trigger] t.holds(v) <==> occurs(values@, v),
            forall|k: int| 0 <= k < values@.len() ==> values@[k] < t@.len(),
            values@.len() == 0 ==> t@.len() == 0,
            values@.len() > 0 ==> exists|k: int| 0 <= k < values@.len() && t@.len() == values@[k] + 1,
    {
        let mut max: u32 = 0;
        let mut k: usize = 0;
        while k < values.len()
            invariant
                k <= values@.len(),
                forall|j: int| 0 <= j < k ==> values@[j] <= max,
                k > 0 ==> exists|j: int| 0 <= j < k && values@[j] == max,
                max < usize::MAX,
                forall|j: int| 0 <= j < values@.len() ==> values@[j] < usize::MAX,
            decreases values@.len() - k,
        {
            if values[k] > max || k == 0 {
                max = values[k];
            }
            k = k + 1;
        }
        let size: usize = if values.len() == 0 {
            0
        } else {
            max as usize + 1
        };
        let mut present: Vec<bool> = vec![false; size];
        let mut k: usize = 0;
        while k < values.len()
            invariant
                k <= values@.len(),
                present@.len() == size,
                forall|j: int| 0 <= j < values@.len() ==> values@[j] < size,
                forall|v: int|
                    0 <= v < size ==> (#[trigger] present@[v] <==> exists|j: int|
                        0 <= j < k && values@[j] == v),
            decreases values@.len() - k,
        {
            let v = values[k] as usize;
            present[v] = true;
            proof {
                assert forall|w: int| 0 <= w < size implies (#[trigger] present@[w] <==> exists|j: int|
                    0 <= j < k + 1 && values@[j] == w) by {
                    if w == v {
                        assert(values@[k as int] == w);
                    } else if present@[w] {
                        let j = choose|j: int| 0 <= j < k && values@[j] == w;
                        assert(0 <= j < k + 1 && values@[j] == w);
                    }
                }
            }
            k = k + 1;
        }
        let t = PresenceTable { present };
        assert forall|v: int| #[trigger] t.holds(v) <==> occurs(values@, v) by {
            if occurs(values@, v) {
                let j = choose|j: int| 0 <= j < values@.len() && values@[j] == v;
                assert(values@[j] < size);
            }
        }
        t
    }

    /// Whether `v` occurs in the slice the table was built from; `false` for
    /// every value beyond the table's end.
    pub fn contains(&self, v: u32) -> (r: bool)
        ensures
            r == self.holds(v as int),
    {
        if (v as usize) < self.present.len() {
            self.present[v as usize]
        } else {
            false
        }
    }
}

} // verus!
