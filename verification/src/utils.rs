//! Plain two-dimensional positions used as cell and sub-box addresses.

use vstd::prelude::*;

verus! {

/// A two-dimensional non-negative integer position. It serves both as a cell
/// address on a board and, via the scaling done in
/// [`crate::board::GameBoard::box_position`], as the address of a sub-box.
#[derive(Clone, Copy, Hash, PartialEq, Eq, Structural, Debug)]
pub struct Vec2D(pub usize, pub usize);

impl Vec2D {
    pub fn new(x: usize, y: usize) -> (r: Self)
        ensures
            r == Vec2D(x, y),
    {
        Vec2D(x, y)
    }

    /// The row component.
    pub fn x(&self) -> (r: usize)
        ensures
            r == self.0,
    {
        self.0
    }

    /// The column component.
    pub fn y(&self) -> (r: usize)
        ensures
            r == self.1,
    {
        self.1
    }

    /// A mutable borrow of the row component.
    pub fn x_mut(&mut self) -> (r: &mut usize)
        ensures
            *r == old(self).0,
            *final(self) == Vec2D(*final(r), old(self).1),
    {
        &mut self.0
    }

    /// A mutable borrow of the column component.
    pub fn y_mut(&mut self) -> (r: &mut usize)
        ensures
            *r == old(self).1,
            *final(self) == Vec2D(old(self).0, *final(r)),
    {
        &mut self.1
    }

    /// Component-wise addition.
    pub fn plus(self, other: Self) -> (r: Self)
        requires
            self.0 + other.0 <= usize::MAX,
            self.1 + other.1 <= usize::MAX,
        ensures
            r.0 == self.0 + other.0,
            r.1 == self.1 + other.1,
    {
        Vec2D(self.0 + other.0, self.1 + other.1)
    }

    /// Uniform scalar multiplication.
    pub fn times(self, factor: usize) -> (r: Self)
        requires
            self.0 * factor <= usize::MAX,
            self.1 * factor <= usize::MAX,
        ensures
            r.0 == self.0 * factor,
            r.1 == self.1 * factor,
    {
        Vec2D(self.0 * factor, self.1 * factor)
    }

    /// Uniform scalar division, truncating. Dividing and then multiplying by
    /// a sub-box order maps a cell position to its sub-box's top-left corner.
    pub fn divided_by(self, factor: usize) -> (r: Self)
        requires
            factor >= 1,
        ensures
            r.0 == self.0 / factor,
            r.1 == self.1 / factor,
    {
        Vec2D(self.0 / factor, self.1 / factor)
    }

    /// Maps the position to a flat row-major index, with `row_projection_factor`
    /// columns per row.
    pub fn project(&self, row_projection_factor: usize) -> (r: usize)
        requires
            self.0 * row_projection_factor + self.1 <= usize::MAX,
        ensures
            r == self.0 * row_projection_factor + self.1,
    {
        self.0 * row_projection_factor + self.1
    }
}

} // verus!
