use vstd::prelude::*;

verus! {

/// A closed range of coordinate keys `[min, max]`; empty when `min > max`.
#[derive(Clone, Copy, Debug, PartialEq, Eq, Structural)]
pub struct Interval {
    pub min: i64,
    pub max: i64,
}

pub open spec fn min_spec(a: i64, b: i64) -> i64 {
    if a <= b { a } else { b }
}

pub open spec fn max_spec(a: i64, b: i64) -> i64 {
    if a >= b { a } else { b }
}

impl Interval {
    /// `min <= x <= max`.
    pub open spec fn contains_spec(self, x: i64) -> bool {
        self.min <= x && x <= self.max
    }

    /// Holds at least one value.
    pub open spec fn is_valid(self) -> bool {
        self.min <= self.max
    }

    /// The smallest interval that holds both operands.
    pub open spec fn merge_spec(a: Interval, b: Interval) -> Interval {
        Interval { min: min_spec(a.min, b.min), max: max_spec(a.max, b.max) }
    }

    pub fn new(min: i64, max: i64) -> (r: Self)
        ensures
            r.min == min,
            r.max == max,
    {
        Interval { min, max }
    }

    /// Whether `x` lies within the bounds, ends included.
    pub fn contains(&self, x: i64) -> (r: bool)
        ensures
            r == self.contains_spec(x),
    {
        self.min <= x && x <= self.max
    }

    /// Whether `x` lies strictly between the bounds.
    pub fn surrounds(&self, x: i64) -> (r: bool)
        ensures
            r == (self.min < x && x < self.max),
    {
        self.min < x && x < self.max
    }

    /// The value of the interval closest to `x`.
    pub fn clamp(&self, x: i64) -> (r: i64)
        requires
            self.is_valid(),
        ensures
            r == (if x < self.min {
                self.min
            } else if x > self.max {
                self.max
            } else {
                x
            }),
            self.contains_spec(r),
    {
        if x < self.min {
            self.min
        } else if x > self.max {
            self.max
        } else {
            x
        }
    }

    /// The union hull of two intervals.
    pub fn merge(a: Self, b: Self) -> (r: Self)
        ensures
            r == Self::merge_spec(a, b),
    {
        let min = if a.min <= b.min { a.min } else { b.min };
        let max = if a.max >= b.max { a.max } else { b.max };
        Interval { min, max }
    }
}

} // verus!
