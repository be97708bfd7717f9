use vstd::prelude::*;

verus! {

/// A position given by the order keys of its three coordinates.
#[derive(Clone, Copy, Debug, PartialEq, Eq, Structural)]
pub struct KeyPoint {
    pub x: i64,
    pub y: i64,
    pub z: i64,
}

impl KeyPoint {
    /// Coordinate `n`: 1 is y, 2 is z, any other index is x.
    pub open spec fn axis_spec(self, n: int) -> i64 {
        if n == 1 {
            self.y
        } else if n == 2 {
            self.z
        } else {
            self.x
        }
    }

    pub fn new(x: i64, y: i64, z: i64) -> (r: Self)
        ensures
            r.x == x,
            r.y == y,
            r.z == z,
    {
        KeyPoint { x, y, z }
    }

    pub fn axis(&self, n: usize) -> (r: i64)
        ensures
            r == self.axis_spec(n as int),
    {
        match n {
            1 => self.y,
            2 => self.z,
            _ => self.x,
        }
    }
}

} // verus!
