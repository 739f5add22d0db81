//! Ordered scalars and points made of them.

use vstd::prelude::*;

verus! {

/// A measured quantity, encoded so that the order of the codes is the order
/// of the quantities.
pub type Scalar = i64;

/// The value of a binary number with a sign bit: bit 63 of `bits` is the
/// sign and the other bits are the magnitude. Read so, the bits of a
/// binary64 number that is not a NaN sort as the numbers do.
pub open spec fn signed_magnitude(bits: u64) -> int {
    if bits < 0x8000_0000_0000_0000 {
        bits as int
    } else {
        -(bits - 0x8000_0000_0000_0000)
    }
}

/// The scalar for a binary number with a sign bit: its value, but that a
/// number with the sign bit set comes one lower, so that zero with the
/// sign bit set has a scalar of its own, below that of zero.
pub open spec fn scalar_of(bits: u64) -> int {
    if bits < 0x8000_0000_0000_0000 {
        bits as int
    } else {
        -1 - (bits - 0x8000_0000_0000_0000)
    }
}

/// Returns the scalar for a binary number with a sign bit, such as the bit
/// pattern of a binary64 number.
pub fn scalar_of_bits(bits: u64) -> (k: Scalar)
    ensures
        k == scalar_of(bits),
{
    if bits < 0x8000_0000_0000_0000 {
        bits as i64
    } else {
        -1 - ((bits - 0x8000_0000_0000_0000) as i64)
    }
}

/// Returns the binary number with a sign bit that `k` is the scalar for.
pub fn bits_of_scalar(k: Scalar) -> (bits: u64)
    ensures
        scalar_of(bits) == k,
{
    if k >= 0 {
        k as u64
    } else {
        ((-1 - k) as u64) + 0x8000_0000_0000_0000
    }
}

/// Every binary number with a sign bit has a scalar of its own, and the
/// scalars sort as the numbers do: a number of smaller value has a smaller
/// scalar.
pub proof fn lemma_scalars_sort_as_numbers(a: u64, b: u64)
    ensures
        scalar_of(a) == scalar_of(b) ==> a == b,
        signed_magnitude(a) < signed_magnitude(b) ==> scalar_of(a) < scalar_of(b),
        scalar_of(a) < scalar_of(b) ==> signed_magnitude(a) <= signed_magnitude(b),
{
}

/// The smaller of two scalars.
pub open spec fn min_of(a: int, b: int) -> int {
    if a <= b {
        a
    } else {
        b
    }
}

/// The larger of two scalars.
pub open spec fn max_of(a: int, b: int) -> int {
    if a >= b {
        a
    } else {
        b
    }
}

/// Returns the smaller of `lhs` and `rhs`.
pub fn ffmin(lhs: Scalar, rhs: Scalar) -> (m: Scalar)
    ensures
        m == min_of(lhs as int, rhs as int),
{
    if lhs <= rhs {
        lhs
    } else {
        rhs
    }
}

/// Returns the larger of `lhs` and `rhs`.
pub fn ffmax(lhs: Scalar, rhs: Scalar) -> (m: Scalar)
    ensures
        m == max_of(lhs as int, rhs as int),
{
    if lhs >= rhs {
        lhs
    } else {
        rhs
    }
}

/// A position in space, one scalar per coordinate axis.
#[derive(Debug, Clone, Copy, PartialEq, Eq, Structural)]
pub struct Point {
    pub x: Scalar,
    pub y: Scalar,
    pub z: Scalar,
}

impl Point {
    /// The coordinate on `axis`, where 0, 1 and 2 stand for x, y and z.
    pub open spec fn at(self, axis: int) -> int {
        if axis == 0 {
            self.x as int
        } else if axis == 1 {
            self.y as int
        } else {
            self.z as int
        }
    }

    /// Makes the point with the given coordinates.
    pub fn new(x: Scalar, y: Scalar, z: Scalar) -> (p: Point)
        ensures
            p == (Point { x, y, z }),
    {
        Point { x, y, z }
    }

    /// Returns the coordinate on `axis`.
    pub fn get(&self, axis: usize) -> (c: Scalar)
        requires
            axis < 3,
        ensures
            c == self.at(axis as int),
    {
        if axis == 0 {
            self.x
        } else if axis == 1 {
            self.y
        } else {
            self.z
        }
    }

    /// The point whose every coordinate is the smaller of the two given.
    pub open spec fn lower(self, other: Point) -> Point {
        Point {
            x: min_of(self.x as int, other.x as int) as Scalar,
            y: min_of(self.y as int, other.y as int) as Scalar,
            z: min_of(self.z as int, other.z as int) as Scalar,
        }
    }

    /// The point whose every coordinate is the larger of the two given.
    pub open spec fn upper(self, other: Point) -> Point {
        Point {
            x: max_of(self.x as int, other.x as int) as Scalar,
            y: max_of(self.y as int, other.y as int) as Scalar,
            z: max_of(self.z as int, other.z as int) as Scalar,
        }
    }

    /// Whether no coordinate of `self` exceeds that of `other`.
    pub open spec fn below(self, other: Point) -> bool {
        self.x <= other.x && self.y <= other.y && self.z <= other.z
    }
}

} // verus!
