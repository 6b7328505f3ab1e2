//! Component-wise vector helpers on order keys.
//!
//! A 3-vector of order keys is a `[u32; 3]`; see the crate doc for how keys
//! stand in for the caller's scalar coordinates.

use vstd::prelude::*;

verus! {

/// The upper half of one `component_minmax` step: the running maximum moves
/// up to `a[k]` when `a[k]` exceeds it.
pub open spec fn minmax_step_max(mx: Seq<u32>, a: Seq<u32>, k: int) -> u32 {
    if a[k] > mx[k] {
        a[k]
    } else {
        mx[k]
    }
}

/// The lower half of one `component_minmax` step.  A component that raised
/// the maximum leaves the minimum alone, as in the else-if chain below.
pub open spec fn minmax_step_min(mn: Seq<u32>, mx: Seq<u32>, a: Seq<u32>, k: int) -> u32 {
    if a[k] > mx[k] {
        mn[k]
    } else if a[k] < mn[k] {
        a[k]
    } else {
        mn[k]
    }
}

/// Fold one point into a running component-wise (minimum, maximum) pair.
pub fn component_minmax(acc: ([u32; 3], [u32; 3]), a: &[u32; 3]) -> (r: ([u32; 3], [u32; 3]))
    ensures
        forall|k: int| 0 <= k < 3 ==> r.0@[k] == minmax_step_min(acc.0@, acc.1@, a@, k),
        forall|k: int| 0 <= k < 3 ==> r.1@[k] == minmax_step_max(acc.1@, a@, k),
{
    let (mut min, mut max) = acc;
    if a[0] > max[0] {
        max[0] = a[0];
    } else if a[0] < min[0] {
        min[0] = a[0];
    }
    if a[1] > max[1] {
        max[1] = a[1];
    } else if a[1] < min[1] {
        min[1] = a[1];
    }
    if a[2] > max[2] {
        max[2] = a[2];
    } else if a[2] < min[2] {
        min[2] = a[2];
    }
    (min, max)
}

} // verus!
