//! Points, vectors and bounding boxes on the horizontal (x, z) plane.

use vstd::prelude::*;

verus! {

/// A rectangle of block columns; both bounds are inclusive on both axes.
/// It is empty when a lower bound exceeds its upper bound.
pub struct Rect {
    pub min_x: int,
    pub min_z: int,
    pub max_x: int,
    pub max_z: int,
}

impl Rect {
    pub open spec fn has(self, x: int, z: int) -> bool {
        self.min_x <= x <= self.max_x && self.min_z <= z <= self.max_z
    }

    pub open spec fn nonempty(self) -> bool {
        self.min_x <= self.max_x && self.min_z <= self.max_z
    }

    /// Every bound is an `i32`.
    pub open spec fn in_range(self) -> bool {
        &&& i32::MIN <= self.min_x <= i32::MAX
        &&& i32::MIN <= self.max_x <= i32::MAX
        &&& i32::MIN <= self.min_z <= i32::MAX
        &&& i32::MIN <= self.max_z <= i32::MAX
    }

    pub open spec fn moved(self, dx: int, dz: int) -> Rect {
        Rect {
            min_x: self.min_x + dx,
            min_z: self.min_z + dz,
            max_x: self.max_x + dx,
            max_z: self.max_z + dz,
        }
    }
}

/// A block column.
#[derive(Debug, Clone, Copy, PartialEq, Eq, Structural)]
pub struct XZPoint {
    pub x: i32,
    pub z: i32,
}

/// A displacement between block columns.
#[derive(Debug, Clone, Copy, PartialEq, Eq, Structural)]
pub struct XZVector {
    pub dx: i32,
    pub dz: i32,
}

/// A pair of lengths that no bounding box has, because one is negative.
#[derive(Debug, Clone, Copy, PartialEq, Eq, Structural)]
pub struct InvalidLengths {
    pub length_x: i32,
    pub length_z: i32,
}

/// An axis-aligned bounding box. It holds at least one column.
#[derive(Debug, Clone, Copy, PartialEq, Eq, Structural)]
pub struct XZBBox {
    min: XZPoint,
    max: XZPoint,
}

impl View for XZBBox {
    type V = Rect;

    closed spec fn view(&self) -> Rect {
        Rect {
            min_x: self.min.x as int,
            min_z: self.min.z as int,
            max_x: self.max.x as int,
            max_z: self.max.z as int,
        }
    }
}

impl XZBBox {
    #[verifier::type_invariant]
    spec fn holds_a_column(self) -> bool {
        self@.nonempty()
    }

    /// The box from the origin that reaches `length_x` and `length_z` blocks
    /// beyond it.
    pub fn rect_from_xz_lengths(length_x: i32, length_z: i32) -> (r: Result<XZBBox, InvalidLengths>)
        ensures
            r is Ok <==> length_x >= 0 && length_z >= 0,
            r matches Ok(b) ==> b@ == (Rect {
                min_x: 0,
                min_z: 0,
                max_x: length_x as int,
                max_z: length_z as int,
            }),
            r matches Err(e) ==> e.length_x == length_x && e.length_z == length_z,
    {
        if length_x >= 0 && length_z >= 0 {
            Ok(XZBBox { min: XZPoint { x: 0, z: 0 }, max: XZPoint { x: length_x, z: length_z } })
        } else {
            Err(InvalidLengths { length_x, length_z })
        }
    }

    /// Moves the box by `by`.
    pub fn translate(&mut self, by: XZVector)
        requires
            old(self)@.moved(by.dx as int, by.dz as int).in_range(),
        ensures
            final(self)@ == old(self)@.moved(by.dx as int, by.dz as int),
            final(self)@.min_x == old(self)@.min_x + by.dx,
            final(self)@.min_z == old(self)@.min_z + by.dz,
            final(self)@.max_x == old(self)@.max_x + by.dx,
            final(self)@.max_z == old(self)@.max_z + by.dz,
    {
        proof {
            use_type_invariant(&*self);
        }
        let min = XZPoint { x: self.min.x + by.dx, z: self.min.z + by.dz };
        let max = XZPoint { x: self.max.x + by.dx, z: self.max.z + by.dz };
        *self = XZBBox { min, max };
    }

    pub fn min_x(&self) -> (r: i32)
        ensures
            r == self@.min_x,
            self@.nonempty(),
    {
        proof {
            use_type_invariant(self);
        }
        self.min.x
    }

    pub fn min_z(&self) -> (r: i32)
        ensures
            r == self@.min_z,
    {
        self.min.z
    }

    pub fn max_x(&self) -> (r: i32)
        ensures
            r == self@.max_x,
    {
        self.max.x
    }

    pub fn max_z(&self) -> (r: i32)
        ensures
            r == self@.max_z,
    {
        self.max.z
    }
}

} // verus!
