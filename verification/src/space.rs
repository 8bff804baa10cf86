//! Integer vectors and matrices in the four-dimensional space of the puzzle.
use vstd::prelude::*;

verus! {

/// A vector with small integer coordinates.
#[derive(Debug, Default, Copy, Clone, PartialEq, Eq, Hash)]
pub struct Vec4 {
    pub x: i8,
    pub y: i8,
    pub z: i8,
    pub w: i8,
}

/// Unit vector along `axis` (0 = X, 1 = Y, 2 = Z, 3 = W).
pub open spec fn unit(axis: int) -> Vec4 {
    Vec4 {
        x: if axis == 0 { 1 } else { 0 },
        y: if axis == 1 { 1 } else { 0 },
        z: if axis == 2 { 1 } else { 0 },
        w: if axis == 3 { 1 } else { 0 },
    }
}

/// Returns the unit vector along `axis`.
pub fn unit_vec(axis: usize) -> (v: Vec4)
    requires
        axis < 4,
    ensures
        v == unit(axis as int),
{
    Vec4 {
        x: if axis == 0 { 1 } else { 0 },
        y: if axis == 1 { 1 } else { 0 },
        z: if axis == 2 { 1 } else { 0 },
        w: if axis == 3 { 1 } else { 0 },
    }
}

impl Vec4 {
    /// The zero vector.
    pub fn zero() -> (v: Vec4)
        ensures
            v == (Vec4 { x: 0, y: 0, z: 0, w: 0 }),
    {
        Vec4 { x: 0, y: 0, z: 0, w: 0 }
    }

    /// Coordinate along `axis` (0 = X, 1 = Y, 2 = Z, 3 = W).
    pub open spec fn at(self, axis: int) -> int {
        if axis == 0 {
            self.x as int
        } else if axis == 1 {
            self.y as int
        } else if axis == 2 {
            self.z as int
        } else {
            self.w as int
        }
    }

    /// Every coordinate lies in `lo..=hi`.
    pub open spec fn bounded(self, lo: int, hi: int) -> bool {
        &&& lo <= self.x <= hi
        &&& lo <= self.y <= hi
        &&& lo <= self.z <= hi
        &&& lo <= self.w <= hi
    }

    pub fn new(x: i8, y: i8, z: i8, w: i8) -> (v: Vec4)
        ensures
            v == (Vec4 { x, y, z, w }),
    {
        Vec4 { x, y, z, w }
    }

    /// Returns the coordinate along `axis`.
    pub fn get(&self, axis: usize) -> (c: i8)
        requires
            axis < 4,
        ensures
            c as int == self.at(axis as int),
    {
        if axis == 0 {
            self.x
        } else if axis == 1 {
            self.y
        } else if axis == 2 {
            self.z
        } else {
            self.w
        }
    }

    /// Replaces the coordinate along `axis`.
    pub fn set(&mut self, axis: usize, value: i8)
        requires
            axis < 4,
        ensures
            forall|k: int| 0 <= k < 4 ==> final(self).at(k) == if k == axis as int {
                value as int
            } else {
                old(self).at(k)
            },
    {
        if axis == 0 {
            self.x = value;
        } else if axis == 1 {
            self.y = value;
        } else if axis == 2 {
            self.z = value;
        } else {
            self.w = value;
        }
    }

    /// Coordinate-wise equality.
    pub fn equals(&self, other: &Vec4) -> (b: bool)
        ensures
            b == (*self == *other),
    {
        self.x == other.x && self.y == other.y && self.z == other.z && self.w == other.w
    }
}

/// A 4x4 integer matrix, stored as its four columns.
#[derive(Debug, Default, Copy, Clone, PartialEq, Eq, Hash)]
pub struct Mat4 {
    pub x: Vec4,
    pub y: Vec4,
    pub z: Vec4,
    pub w: Vec4,
}

impl Mat4 {
    /// Column `col` of the matrix.
    pub open spec fn col(self, col: int) -> Vec4 {
        if col == 0 {
            self.x
        } else if col == 1 {
            self.y
        } else if col == 2 {
            self.z
        } else {
            self.w
        }
    }

    /// Entry in row `row` and column `col`.
    pub open spec fn entry(self, row: int, col: int) -> int {
        self.col(col).at(row)
    }

    pub fn from_cols(x: Vec4, y: Vec4, z: Vec4, w: Vec4) -> (m: Mat4)
        ensures
            m == (Mat4 { x, y, z, w }),
    {
        Mat4 { x, y, z, w }
    }

    /// Returns column `col`.
    pub fn get_col(&self, col: usize) -> (c: Vec4)
        requires
            col < 4,
        ensures
            c == self.col(col as int),
    {
        if col == 0 {
            self.x
        } else if col == 1 {
            self.y
        } else if col == 2 {
            self.z
        } else {
            self.w
        }
    }
}

} // verus!
