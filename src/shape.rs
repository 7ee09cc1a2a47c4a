//! Lattice points, `x` counting rows and `y` counting columns.
use vstd::arithmetic::div_mod::lemma_fundamental_div_mod;
use vstd::prelude::*;

verus! {

#[derive(Clone, Copy, Debug, PartialEq, Eq, Structural, Hash)]
pub struct Point {
    pub x: usize,
    pub y: usize,
}

/// The point of node `idx` in a grid `width` cells wide.
pub open spec fn node_point(idx: usize, width: int) -> Point {
    Point { x: (idx as int / width) as usize, y: (idx as int % width) as usize }
}

impl Point {
    pub fn new(x: usize, y: usize) -> (r: Self)
        ensures
            r == (Point { x, y }),
    {
        Point { x: x, y: y }
    }

    /// Index of the point in a lattice `width` points wide.
    pub fn flatten(&self, width: usize) -> (r: usize)
        requires
            self.x * width + self.y <= usize::MAX,
        ensures
            r == self.x * width + self.y,
    {
        self.x * width + self.y
    }

    /// The point at index `idx` of a lattice `width` points wide.
    pub fn from_1d_index(idx: usize, width: usize) -> (r: Self)
        requires
            width > 0,
        ensures
            r.x == idx / width,
            r.y == idx % width,
    {
        proof {
            lemma_fundamental_div_mod(idx as int, width as int);
        }
        Point { x: idx / width, y: idx % width }
    }

    /// Moves the point one column to the right.
    pub fn shift_horizontal(&mut self)
        requires
            old(self).y < usize::MAX,
        ensures
            *final(self) == (Point { x: old(self).x, y: (old(self).y + 1) as usize }),
    {
        self.y = self.y + 1;
    }

    /// Moves the point one row down.
    pub fn shift_vertical(&mut self)
        requires
            old(self).x < usize::MAX,
        ensures
            *final(self) == (Point { x: (old(self).x + 1) as usize, y: old(self).y }),
    {
        self.x = self.x + 1;
    }
}

} // verus!
