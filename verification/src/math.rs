use vstd::prelude::*;

verus! {

/// A 2D vector of signed 32-bit integers (cell coordinates, chunk positions).
#[derive(Clone, Copy, Debug, PartialEq, Eq, Structural, Hash)]
pub struct IVec2 {
    pub x: i32,
    pub y: i32,
}

/// A 2D vector of unsigned 32-bit integers (grid sizes).
#[derive(Clone, Copy, Debug, PartialEq, Eq, Structural, Hash)]
pub struct UVec2 {
    pub x: u32,
    pub y: u32,
}

impl IVec2 {
    pub fn new(x: i32, y: i32) -> (r: IVec2)
        ensures
            r.x == x,
            r.y == y,
    {
        IVec2 { x, y }
    }

    /// The vector `(0, 0)`.
    pub open spec fn zero_spec() -> IVec2 {
        IVec2 { x: 0, y: 0 }
    }

    /// The vector `(0, 0)`.
    pub fn zero() -> (r: IVec2)
        ensures
            r == IVec2::zero_spec(),
    {
        IVec2 { x: 0, y: 0 }
    }

    /// The vector with both components equal to `v`.
    pub fn splat(v: i32) -> (r: IVec2)
        ensures
            r.x == v,
            r.y == v,
    {
        IVec2 { x: v, y: v }
    }

    /// Component-wise sum; each sum must fit in an `i32`.
    pub fn add(self, other: IVec2) -> (r: IVec2)
        requires
            i32::MIN <= self.x + other.x <= i32::MAX,
            i32::MIN <= self.y + other.y <= i32::MAX,
        ensures
            r.x == self.x + other.x,
            r.y == self.y + other.y,
    {
        IVec2 { x: self.x + other.x, y: self.y + other.y }
    }

    /// Component-wise difference; each difference must fit in an `i32`.
    pub fn sub(self, other: IVec2) -> (r: IVec2)
        requires
            i32::MIN <= self.x - other.x <= i32::MAX,
            i32::MIN <= self.y - other.y <= i32::MAX,
        ensures
            r.x == self.x - other.x,
            r.y == self.y - other.y,
    {
        IVec2 { x: self.x - other.x, y: self.y - other.y }
    }

    /// Component-wise minimum.
    pub fn min(self, other: IVec2) -> (r: IVec2)
        ensures
            r.x == (if self.x <= other.x { self.x } else { other.x }),
            r.y == (if self.y <= other.y { self.y } else { other.y }),
    {
        IVec2 {
            x: if self.x <= other.x { self.x } else { other.x },
            y: if self.y <= other.y { self.y } else { other.y },
        }
    }

    /// Component-wise maximum.
    pub fn max(self, other: IVec2) -> (r: IVec2)
        ensures
            r.x == (if self.x >= other.x { self.x } else { other.x }),
            r.y == (if self.y >= other.y { self.y } else { other.y }),
    {
        IVec2 {
            x: if self.x >= other.x { self.x } else { other.x },
            y: if self.y >= other.y { self.y } else { other.y },
        }
    }

    /// The vector with its components swapped.
    pub open spec fn yx_spec(self) -> IVec2 {
        IVec2 { x: self.y, y: self.x }
    }

    /// The vector with its components swapped.
    pub fn yx(self) -> (r: IVec2)
        ensures
            r == self.yx_spec(),
    {
        IVec2 { x: self.y, y: self.x }
    }
}

impl UVec2 {
    pub fn new(x: u32, y: u32) -> (r: UVec2)
        ensures
            r.x == x,
            r.y == y,
    {
        UVec2 { x, y }
    }

    /// The vector with both components equal to `v`.
    pub fn splat(v: u32) -> (r: UVec2)
        ensures
            r.x == v,
            r.y == v,
    {
        UVec2 { x: v, y: v }
    }

    /// The vector with its components swapped.
    pub open spec fn yx_spec(self) -> UVec2 {
        UVec2 { x: self.y, y: self.x }
    }

    /// The vector with its components swapped.
    pub fn yx(self) -> (r: UVec2)
        ensures
            r == self.yx_spec(),
    {
        UVec2 { x: self.y, y: self.x }
    }

    /// The larger of the two components.
    pub fn max_element(self) -> (r: u32)
        ensures
            r == (if self.x >= self.y { self.x } else { self.y }),
    {
        if self.x >= self.y { self.x } else { self.y }
    }

    /// The vector as signed components; each must fit in an `i32`.
    pub fn as_ivec2(self) -> (r: IVec2)
        requires
            self.x <= i32::MAX,
            self.y <= i32::MAX,
        ensures
            r.x == self.x,
            r.y == self.y,
    {
        IVec2 { x: self.x as i32, y: self.y as i32 }
    }
}

} // verus!
