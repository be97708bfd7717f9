use crate::interval::{max_spec, min_spec, Interval};
use crate::point::KeyPoint;
use vstd::prelude::*;

verus! {

/// An axis-aligned box: one interval of coordinate keys per axis.
#[derive(Clone, Copy, Debug, PartialEq, Eq, Structural)]
pub struct AxisAlignedBoundingBox {
    pub x: Interval,
    pub y: Interval,
    pub z: Interval,
}

/// The interval `[min(a, b), max(a, b)]`.
pub open spec fn span(a: i64, b: i64) -> Interval {
    Interval { min: min_spec(a, b), max: max_spec(a, b) }
}

impl AxisAlignedBoundingBox {
    /// Interval of axis `n`: 1 is y, 2 is z, any other index is x.
    pub open spec fn axis_spec(self, n: int) -> Interval {
        if n == 1 {
            self.y
        } else if n == 2 {
            self.z
        } else {
            self.x
        }
    }

    /// Every axis interval holds at least one value.
    pub open spec fn is_valid(self) -> bool {
        self.x.is_valid() && self.y.is_valid() && self.z.is_valid()
    }

    /// The point lies in the box, faces included.
    pub open spec fn contains_point(self, p: KeyPoint) -> bool {
        self.x.contains_spec(p.x) && self.y.contains_spec(p.y) && self.z.contains_spec(p.z)
    }

    /// Every point of `other` lies in this box.
    pub open spec fn contains_box(self, other: Self) -> bool {
        forall|p: KeyPoint| other.contains_point(p) ==> #[trigger] self.contains_point(p)
    }

    /// The box with `a` and `b` as opposite corners.
    pub open spec fn from_points_spec(a: KeyPoint, b: KeyPoint) -> Self {
        AxisAlignedBoundingBox { x: span(a.x, b.x), y: span(a.y, b.y), z: span(a.z, b.z) }
    }

    /// The union hull of two boxes, axis by axis.
    pub open spec fn merge_spec(a: Self, b: Self) -> Self {
        AxisAlignedBoundingBox {
            x: Interval::merge_spec(a.x, b.x),
            y: Interval::merge_spec(a.y, b.y),
            z: Interval::merge_spec(a.z, b.z),
        }
    }

    pub fn new(x: Interval, y: Interval, z: Interval) -> (r: Self)
        ensures
            r.x == x,
            r.y == y,
            r.z == z,
    {
        AxisAlignedBoundingBox { x, y, z }
    }

    /// The box spanned by two corners, given in either order.
    pub fn from_points(a: &KeyPoint, b: &KeyPoint) -> (r: Self)
        ensures
            r == Self::from_points_spec(*a, *b),
            r.is_valid(),
    {
        let x_axis = if a.x <= b.x {
            Interval::new(a.x, b.x)
        } else {
            Interval::new(b.x, a.x)
        };
        let y_axis = if a.y <= b.y {
            Interval::new(a.y, b.y)
        } else {
            Interval::new(b.y, a.y)
        };
        let z_axis = if a.z <= b.z {
            Interval::new(a.z, b.z)
        } else {
            Interval::new(b.z, a.z)
        };
        Self::new(x_axis, y_axis, z_axis)
    }

    /// The smallest box that holds both operands.
    pub fn merge_boxes(that: &Self, other: &Self) -> (r: Self)
        ensures
            r == Self::merge_spec(*that, *other),
    {
        AxisAlignedBoundingBox {
            x: Interval::merge(that.x, other.x),
            y: Interval::merge(that.y, other.y),
            z: Interval::merge(that.z, other.z),
        }
    }

    pub fn axis_interval(&self, n: usize) -> (r: Interval)
        ensures
            r == self.axis_spec(n as int),
    {
        match n {
            1 => self.y,
            2 => self.z,
            _ => self.x,
        }
    }
}

/// Building a box from two corners does not depend on their order: the swapped
/// call gives the very same box, so every query on it answers alike.
pub proof fn lemma_from_points_symmetric(a: KeyPoint, b: KeyPoint)
    ensures
        AxisAlignedBoundingBox::from_points_spec(a, b) == AxisAlignedBoundingBox::from_points_spec(
            b,
            a,
        ),
{
}

/// A merged box holds every point held by either operand.
pub proof fn lemma_merge_contains(a: AxisAlignedBoundingBox, b: AxisAlignedBoundingBox)
    ensures
        AxisAlignedBoundingBox::merge_spec(a, b).contains_box(a),
        AxisAlignedBoundingBox::merge_spec(a, b).contains_box(b),
{
}

/// A merged box is the smallest one that holds both operands: any box that
/// holds every point of two non-empty boxes holds every point of their merge.
pub proof fn lemma_merge_minimal(
    a: AxisAlignedBoundingBox,
    b: AxisAlignedBoundingBox,
    c: AxisAlignedBoundingBox,
)
    requires
        a.is_valid(),
        b.is_valid(),
        c.contains_box(a),
        c.contains_box(b),
    ensures
        c.contains_box(AxisAlignedBoundingBox::merge_spec(a, b)),
{
    let a_lo = KeyPoint { x: a.x.min, y: a.y.min, z: a.z.min };
    let a_hi = KeyPoint { x: a.x.max, y: a.y.max, z: a.z.max };
    let b_lo = KeyPoint { x: b.x.min, y: b.y.min, z: b.z.min };
    let b_hi = KeyPoint { x: b.x.max, y: b.y.max, z: b.z.max };
    assert(a.contains_point(a_lo) && a.contains_point(a_hi));
    assert(b.contains_point(b_lo) && b.contains_point(b_hi));
    assert(c.contains_point(a_lo) && c.contains_point(a_hi));
    assert(c.contains_point(b_lo) && c.contains_point(b_hi));
}

} // verus!
