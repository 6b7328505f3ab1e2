//! Axis-aligned bounding boxes over order keys.
//!
//! A box keeps the component-wise minimum and maximum of the points it was
//! built from.  All operations here are exact on the keys, so union,
//! containment and splitting carry full functional contracts.

use vstd::prelude::*;

use crate::vec::{component_minmax, minmax_step_max, minmax_step_min};

verus! {

pub open spec fn key_min(a: u32, b: u32) -> u32 {
    if a <= b {
        a
    } else {
        b
    }
}

pub open spec fn key_max(a: u32, b: u32) -> u32 {
    if a >= b {
        a
    } else {
        b
    }
}

/// The least `k`-th component among the first `n` points.
pub open spec fn col_min(pts: Seq<[u32; 3]>, k: int, n: int) -> u32
    decreases n,
{
    if n <= 1 {
        pts[0]@[k]
    } else {
        key_min(col_min(pts, k, n - 1), pts[n - 1]@[k])
    }
}

/// The greatest `k`-th component among the first `n` points.
pub open spec fn col_max(pts: Seq<[u32; 3]>, k: int, n: int) -> u32
    decreases n,
{
    if n <= 1 {
        pts[0]@[k]
    } else {
        key_max(col_max(pts, k, n - 1), pts[n - 1]@[k])
    }
}

/// The least `k`-th minimum among the first `n` boxes.
pub open spec fn box_col_min(boxes: Seq<Aabb>, k: int, n: int) -> u32
    decreases n,
{
    if n <= 1 {
        boxes[0].min@[k]
    } else {
        key_min(box_col_min(boxes, k, n - 1), boxes[n - 1].min@[k])
    }
}

/// The greatest `k`-th maximum among the first `n` boxes.
pub open spec fn box_col_max(boxes: Seq<Aabb>, k: int, n: int) -> u32
    decreases n,
{
    if n <= 1 {
        boxes[0].max@[k]
    } else {
        key_max(box_col_max(boxes, k, n - 1), boxes[n - 1].max@[k])
    }
}

#[derive(Clone, Copy, Debug)]
pub struct Aabb {
    pub min: [u32; 3],
    pub max: [u32; 3],
}

impl Aabb {
    /// A box is well formed when it spans a (possibly empty) volume.
    pub open spec fn wf(self) -> bool {
        forall|k: int| 0 <= k < 3 ==> self.min@[k] <= self.max@[k]
    }

    /// A point is inside the box when every component lies between the
    /// box's bounds.
    pub open spec fn spec_contains(self, p: [u32; 3]) -> bool {
        forall|k: int| 0 <= k < 3 ==> self.min@[k] <= p@[k] && p@[k] <= self.max@[k]
    }

    /// The smallest box holding both operands.
    pub open spec fn spec_union(self, other: Aabb) -> Aabb {
        Aabb {
            min: [
                key_min(self.min@[0], other.min@[0]),
                key_min(self.min@[1], other.min@[1]),
                key_min(self.min@[2], other.min@[2]),
            ],
            max: [
                key_max(self.max@[0], other.max@[0]),
                key_max(self.max@[1], other.max@[1]),
                key_max(self.max@[2], other.max@[2]),
            ],
        }
    }

    pub fn contains(&self, p: &[u32; 3]) -> (r: bool)
        ensures
            r == self.spec_contains(*p),
    {
        let r = self.min[0] <= p[0] && p[0] <= self.max[0] && self.min[1] <= p[1] && p[1]
            <= self.max[1] && self.min[2] <= p[2] && p[2] <= self.max[2];
        assert(r == self.spec_contains(*p));
        r
    }

    pub fn union(&self, other: &Aabb) -> (r: Aabb)
        ensures
            r == self.spec_union(*other),
    {
        let min = [
            if self.min[0] <= other.min[0] { self.min[0] } else { other.min[0] },
            if self.min[1] <= other.min[1] { self.min[1] } else { other.min[1] },
            if self.min[2] <= other.min[2] { self.min[2] } else { other.min[2] },
        ];
        let max = [
            if self.max[0] >= other.max[0] { self.max[0] } else { other.max[0] },
            if self.max[1] >= other.max[1] { self.max[1] } else { other.max[1] },
            if self.max[2] >= other.max[2] { self.max[2] } else { other.max[2] },
        ];
        let r = Aabb { min, max };
        assert(r.min@ =~= self.spec_union(*other).min@);
        assert(r.max@ =~= self.spec_union(*other).max@);
        assert(r == self.spec_union(*other));
        r
    }

    /// Cut the box at `x` along `dimension`: the left part keeps the box's
    /// minimum corner, the right part its maximum corner, and the two share
    /// the cutting plane.
    pub fn split_dimension(&self, x: u32, dimension: usize) -> (r: (Aabb, Aabb))
        requires
            dimension < 3,
        ensures
            r.0.min == self.min,
            r.0.max@ == self.max@.update(dimension as int, x),
            r.1.min@ == self.min@.update(dimension as int, x),
            r.1.max == self.max,
    {
        let mut left_max = self.max;
        left_max[dimension] = x;
        let mut right_min = self.min;
        right_min[dimension] = x;
        let left = Aabb { min: self.min, max: left_max };
        let right = Aabb { min: right_min, max: self.max };
        assert(left_max@ =~= self.max@.update(dimension as int, x));
        assert(right_min@ =~= self.min@.update(dimension as int, x));
        (left, right)
    }

    /// The bound of a point set: component-wise minimum and maximum over
    /// the points, or the zero box when there are none.
    pub fn from_points(pts: &Vec<[u32; 3]>) -> (r: Aabb)
        ensures
            pts@.len() == 0 ==> forall|k: int| 0 <= k < 3 ==> r.min@[k] == 0 && r.max@[k] == 0,
            pts@.len() > 0 ==> forall|k: int|
                0 <= k < 3 ==> r.min@[k] == col_min(pts@, k, pts@.len() as int) && r.max@[k]
                    == col_max(pts@, k, pts@.len() as int),
    {
        if pts.len() == 0 {
            let z = Aabb { min: [0, 0, 0], max: [0, 0, 0] };
            assert(forall|k: int| 0 <= k < 3 ==> z.min@[k] == 0 && z.max@[k] == 0);
            return z;
        }
        let first = pts[0];
        let mut acc = (first, first);
        let mut i: usize = 1;
        while i < pts.len()
            invariant
                1 <= i <= pts@.len(),
                forall|k: int|
                    0 <= k < 3 ==> acc.0@[k] == col_min(pts@, k, i as int) && acc.1@[k] == col_max(
                        pts@,
                        k,
                        i as int,
                    ),
                forall|k: int| 0 <= k < 3 ==> acc.0@[k] <= acc.1@[k],
            decreases pts@.len() - i,
        {
            let p = pts[i];
            let ghost old_acc = acc;
            acc = component_minmax(acc, &p);
            proof {
                assert forall|k: int|
                    0 <= k < 3 implies acc.0@[k] == col_min(pts@, k, i + 1) && acc.1@[k] == col_max(
                    pts@,
                    k,
                    i + 1,
                ) && acc.0@[k] <= acc.1@[k] by {
                    assert(acc.0@[k] == minmax_step_min(old_acc.0@, old_acc.1@, p@, k));
                    assert(acc.1@[k] == minmax_step_max(old_acc.1@, p@, k));
                    assert(p@[k] == pts@[i as int]@[k]);
                    assert(col_min(pts@, k, i + 1) == key_min(
                        col_min(pts@, k, i as int),
                        pts@[i as int]@[k],
                    ));
                    assert(col_max(pts@, k, i + 1) == key_max(
                        col_max(pts@, k, i as int),
                        pts@[i as int]@[k],
                    ));
                }
            }
            i += 1;
        }
        Aabb { min: acc.0, max: acc.1 }
    }
}

/// The union of two boxes contains every point that either operand
/// contains.
pub proof fn lemma_union_contains(a: Aabb, b: Aabb, p: [u32; 3])
    requires
        a.spec_contains(p) || b.spec_contains(p),
    ensures
        a.spec_union(b).spec_contains(p),
{
}

/// The column minimum over points bounds every point it covers, and the
/// column maximum likewise.
pub proof fn lemma_col_bounds(pts: Seq<[u32; 3]>, k: int, n: int, i: int)
    requires
        0 <= i < n <= pts.len(),
    ensures
        col_min(pts, k, n) <= pts[i]@[k],
        pts[i]@[k] <= col_max(pts, k, n),
    decreases n,
{
    if i < n - 1 {
        lemma_col_bounds(pts, k, n - 1, i);
    }
}

/// The total bound covers every box that went into it.
pub proof fn lemma_box_col_bounds(boxes: Seq<Aabb>, k: int, n: int, i: int)
    requires
        0 <= i < n <= boxes.len(),
    ensures
        box_col_min(boxes, k, n) <= boxes[i].min@[k],
        boxes[i].max@[k] <= box_col_max(boxes, k, n),
    decreases n,
{
    if i < n - 1 {
        lemma_box_col_bounds(boxes, k, n - 1, i);
    }
}

/// The bound of a collection of boxes: the union of them all, or the zero
/// box when there are none.
pub fn total_bounds(boxes: &Vec<Aabb>) -> (r: Aabb)
    ensures
        boxes@.len() == 0 ==> forall|k: int| 0 <= k < 3 ==> r.min@[k] == 0 && r.max@[k] == 0,
        boxes@.len() > 0 ==> forall|k: int|
            0 <= k < 3 ==> r.min@[k] == box_col_min(boxes@, k, boxes@.len() as int) && r.max@[k]
                == box_col_max(boxes@, k, boxes@.len() as int),
{
    if boxes.len() == 0 {
        let z = Aabb { min: [0, 0, 0], max: [0, 0, 0] };
        assert(forall|k: int| 0 <= k < 3 ==> z.min@[k] == 0 && z.max@[k] == 0);
        return z;
    }
    let mut r = boxes[0];
    let mut i: usize = 1;
    while i < boxes.len()
        invariant
            1 <= i <= boxes@.len(),
            forall|k: int|
                0 <= k < 3 ==> r.min@[k] == box_col_min(boxes@, k, i as int) && r.max@[k]
                    == box_col_max(boxes@, k, i as int),
        decreases boxes@.len() - i,
    {
        let ghost old_r = r;
        r = r.union(&boxes[i]);
        proof {
            assert forall|k: int|
                0 <= k < 3 implies r.min@[k] == box_col_min(boxes@, k, i + 1) && r.max@[k]
                == box_col_max(boxes@, k, i + 1) by {
                assert(r.min@[k] == key_min(old_r.min@[k], boxes@[i as int].min@[k]));
                assert(r.max@[k] == key_max(old_r.max@[k], boxes@[i as int].max@[k]));
                assert(box_col_min(boxes@, k, i + 1) == key_min(
                    box_col_min(boxes@, k, i as int),
                    boxes@[i as int].min@[k],
                ));
                assert(box_col_max(boxes@, k, i + 1) == key_max(
                    box_col_max(boxes@, k, i as int),
                    boxes@[i as int].max@[k],
                ));
            }
        }
        i += 1;
    }
    r
}

} // verus!
