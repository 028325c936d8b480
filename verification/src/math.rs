//! Fixed-point coordinates and poses.
//!
//! Every length, coordinate and distance is a signed 64-bit count of the
//! world's smallest unit. Sums that leave the range of `i64` stop at its ends.

use vstd::prelude::*;

verus! {

/// The integer nearest to `v` that an `i64` can hold.
pub open spec fn clamp(v: int) -> i64 {
    if v > i64::MAX {
        i64::MAX
    } else if v < i64::MIN {
        i64::MIN
    } else {
        v as i64
    }
}

/// The smaller of two numbers.
pub open spec fn min_of(a: i64, b: i64) -> i64 {
    if a <= b {
        a
    } else {
        b
    }
}

/// The larger of two numbers.
pub open spec fn max_of(a: i64, b: i64) -> i64 {
    if a >= b {
        a
    } else {
        b
    }
}

/// `a + b`, stopping at the ends of the range.
pub fn sat_add(a: i64, b: i64) -> (r: i64)
    ensures
        r == clamp(a + b),
{
    match a.checked_add(b) {
        Some(r) => r,
        None => if b > 0 {
            i64::MAX
        } else {
            i64::MIN
        },
    }
}

/// `a - b`, stopping at the ends of the range.
pub fn sat_sub(a: i64, b: i64) -> (r: i64)
    ensures
        r == clamp(a - b),
{
    match a.checked_sub(b) {
        Some(r) => r,
        None => if b < 0 {
            i64::MAX
        } else {
            i64::MIN
        },
    }
}

/// The smaller of two numbers.
pub fn min(a: i64, b: i64) -> (r: i64)
    ensures
        r == min_of(a, b),
{
    if a <= b {
        a
    } else {
        b
    }
}

/// The larger of two numbers.
pub fn max(a: i64, b: i64) -> (r: i64)
    ensures
        r == max_of(a, b),
{
    if a >= b {
        a
    } else {
        b
    }
}

/// A displacement in space, or the coordinates of a point.
#[derive(Clone, Copy, Debug, PartialEq, Eq, Structural)]
pub struct Vector {
    pub x: i64,
    pub y: i64,
    pub z: i64,
}

/// A point of space, by its coordinates.
pub type Point = Vector;

impl Vector {
    /// The vector with the given coordinates.
    pub fn new(x: i64, y: i64, z: i64) -> (v: Vector)
        ensures
            v == (Vector { x, y, z }),
    {
        Vector { x, y, z }
    }

    /// The vector whose coordinates are all zero.
    pub fn zero() -> (v: Vector)
        ensures
            v == (Vector { x: 0, y: 0, z: 0 }),
    {
        Vector { x: 0, y: 0, z: 0 }
    }

    /// The sum of two vectors, each coordinate stopping at the ends of the range.
    pub open spec fn plus(self, other: Vector) -> Vector {
        Vector {
            x: clamp(self.x + other.x),
            y: clamp(self.y + other.y),
            z: clamp(self.z + other.z),
        }
    }

    /// Adds two vectors.
    pub fn translated(&self, by: &Vector) -> (v: Vector)
        ensures
            v == self.plus(*by),
    {
        Vector { x: sat_add(self.x, by.x), y: sat_add(self.y, by.y), z: sat_add(self.z, by.z) }
    }
}

/// One, for the entries of a rotation: they are counted in 65536ths.
pub const ROTATION_ONE: i32 = 0x1_0000;

/// The orientation of an object: the nine entries of a rotation matrix, row
/// by row, in 65536ths.
#[derive(Clone, Copy, Debug, PartialEq, Eq, Structural)]
pub struct Rotation {
    pub m11: i32,
    pub m12: i32,
    pub m13: i32,
    pub m21: i32,
    pub m22: i32,
    pub m23: i32,
    pub m31: i32,
    pub m32: i32,
    pub m33: i32,
}

impl Rotation {
    /// The rotation that turns nothing.
    pub fn identity() -> (r: Rotation)
        ensures
            r == (Rotation {
                m11: ROTATION_ONE,
                m12: 0,
                m13: 0,
                m21: 0,
                m22: ROTATION_ONE,
                m23: 0,
                m31: 0,
                m32: 0,
                m33: ROTATION_ONE,
            }),
    {
        Rotation {
            m11: ROTATION_ONE,
            m12: 0,
            m13: 0,
            m21: 0,
            m22: ROTATION_ONE,
            m23: 0,
            m31: 0,
            m32: 0,
            m33: ROTATION_ONE,
        }
    }
}

/// The least that `r * c` can be for a coordinate `c` between `lo` and `hi`.
pub open spec fn least_product(r: i32, lo: i64, hi: i64) -> int {
    if r * lo <= r * hi {
        r * lo
    } else {
        r * hi
    }
}

/// The most that `r * c` can be for a coordinate `c` between `lo` and `hi`.
pub open spec fn most_product(r: i32, lo: i64, hi: i64) -> int {
    if r * lo >= r * hi {
        r * lo
    } else {
        r * hi
    }
}

/// `r * lo` and `r * hi`, the lesser first.
fn products(r: i32, lo: i64, hi: i64) -> (p: (i128, i128))
    ensures
        p.0 == least_product(r, lo, hi),
        p.1 == most_product(r, lo, hi),
        -0x4000_0000_0000_0000_0000_0000 <= p.0 <= p.1 <= 0x4000_0000_0000_0000_0000_0000,
{
    assert(-0x4000_0000_0000_0000_0000_0000 <= r * lo <= 0x4000_0000_0000_0000_0000_0000)
        by (nonlinear_arith)
        requires
            -0x8000_0000 <= r <= 0x8000_0000,
            -0x8000_0000_0000_0000 <= lo <= 0x8000_0000_0000_0000,
    ;
    assert(-0x4000_0000_0000_0000_0000_0000 <= r * hi <= 0x4000_0000_0000_0000_0000_0000)
        by (nonlinear_arith)
        requires
            -0x8000_0000 <= r <= 0x8000_0000,
            -0x8000_0000_0000_0000 <= hi <= 0x8000_0000_0000_0000,
    ;
    let a: i128 = (r as i128) * (lo as i128);
    let b: i128 = (r as i128) * (hi as i128);
    if a <= b {
        (a, b)
    } else {
        (b, a)
    }
}

/// `v` in 65536ths, rounded down.
pub open spec fn floor_unit(v: int) -> int {
    v / 0x1_0000
}

/// `v` in 65536ths, rounded up.
pub open spec fn ceil_unit(v: int) -> int {
    -((-v) / 0x1_0000)
}

/// Divides by 65536 and rounds down.
fn div_floor(v: i128) -> (r: i128)
    requires
        -0x1_0000_0000_0000_0000_0000_0000_0000 <= v <= 0x1_0000_0000_0000_0000_0000_0000_0000,
    ensures
        r == floor_unit(v as int),
{
    if v >= 0 {
        v / 0x1_0000
    } else {
        let w: i128 = 0xffff - v;
        -(w / 0x1_0000)
    }
}

/// Divides by 65536 and rounds up.
fn div_ceil(v: i128) -> (r: i128)
    requires
        -0x1_0000_0000_0000_0000_0000_0000_0000 <= v <= 0x1_0000_0000_0000_0000_0000_0000_0000,
    ensures
        r == ceil_unit(v as int),
{
    if v >= 0 {
        let w: i128 = v + 0xffff;
        w / 0x1_0000
    } else {
        let w: i128 = -v;
        -(w / 0x1_0000)
    }
}

/// The `i64` nearest to `v`.
fn clamp_wide(v: i128) -> (r: i64)
    ensures
        r == clamp(v as int),
{
    if v > i64::MAX as i128 {
        i64::MAX
    } else if v < i64::MIN as i128 {
        i64::MIN
    } else {
        v as i64
    }
}

/// Where the row `(r1, r2, r3)` of a rotation, followed by the translation
/// `t`, takes the points whose coordinates lie between `lo` and `hi`: the
/// least coordinate, rounded down, where `upper` is not set, and the
/// greatest, rounded up, where it is.
pub open spec fn row_bound(r1: i32, r2: i32, r3: i32, lo: Vector, hi: Vector, t: i64, upper: bool) -> i64 {
    if upper {
        clamp(
            t + ceil_unit(
                most_product(r1, lo.x, hi.x) + most_product(r2, lo.y, hi.y) + most_product(
                    r3,
                    lo.z,
                    hi.z,
                ),
            ),
        )
    } else {
        clamp(
            t + floor_unit(
                least_product(r1, lo.x, hi.x) + least_product(r2, lo.y, hi.y) + least_product(
                    r3,
                    lo.z,
                    hi.z,
                ),
            ),
        )
    }
}

/// Computes `row_bound`.
pub fn bound_of_row(r1: i32, r2: i32, r3: i32, lo: &Vector, hi: &Vector, t: i64, upper: bool) -> (b:
    i64)
    ensures
        b == row_bound(r1, r2, r3, *lo, *hi, t, upper),
{
    let x = products(r1, lo.x, hi.x);
    let y = products(r2, lo.y, hi.y);
    let z = products(r3, lo.z, hi.z);
    if upper {
        let sum: i128 = x.1 + y.1 + z.1;
        clamp_wide(div_ceil(sum) + (t as i128))
    } else {
        let sum: i128 = x.0 + y.0 + z.0;
        clamp_wide(div_floor(sum) + (t as i128))
    }
}

/// The pose of an object: an orientation followed by a translation.
#[derive(Clone, Copy, Debug, PartialEq, Eq, Structural)]
pub struct Isometry {
    pub translation: Vector,
    pub rotation: Rotation,
}

impl Isometry {
    /// The pose with the given parts.
    pub fn new(translation: Vector, rotation: Rotation) -> (m: Isometry)
        ensures
            m == (Isometry { translation, rotation }),
    {
        Isometry { translation, rotation }
    }
}

} // verus!
