//! Axis-aligned bounding boxes and the shapes that have one.

use crate::math::{
    bound_of_row, clamp, max, max_of, min, min_of, row_bound, sat_add, sat_sub, Isometry, Point,
};
use vstd::prelude::*;

verus! {

/// An axis-aligned box: everything between `mins` and `maxs`, both included.
#[derive(Clone, Copy, Debug, PartialEq, Eq, Structural)]
pub struct AABB {
    pub mins: Point,
    pub maxs: Point,
}

impl AABB {
    /// The box between two corners.
    pub fn new(mins: Point, maxs: Point) -> (b: AABB)
        ensures
            b == (AABB { mins, maxs }),
    {
        AABB { mins, maxs }
    }

    /// Whether two boxes share a point. Boxes that only touch do.
    pub open spec fn meets(self, other: AABB) -> bool {
        &&& self.mins.x <= other.maxs.x && other.mins.x <= self.maxs.x
        &&& self.mins.y <= other.maxs.y && other.mins.y <= self.maxs.y
        &&& self.mins.z <= other.maxs.z && other.mins.z <= self.maxs.z
    }

    /// Whether `other` lies inside this box.
    pub open spec fn encloses(self, other: AABB) -> bool {
        &&& self.mins.x <= other.mins.x && other.maxs.x <= self.maxs.x
        &&& self.mins.y <= other.mins.y && other.maxs.y <= self.maxs.y
        &&& self.mins.z <= other.mins.z && other.maxs.z <= self.maxs.z
    }

    /// Whether the point lies inside this box.
    pub open spec fn holds_point(self, p: Point) -> bool {
        &&& self.mins.x <= p.x <= self.maxs.x
        &&& self.mins.y <= p.y <= self.maxs.y
        &&& self.mins.z <= p.z <= self.maxs.z
    }

    /// This box grown by `amount` on every side.
    pub open spec fn loosened_by(self, amount: i64) -> AABB {
        AABB {
            mins: Point {
                x: clamp(self.mins.x - amount),
                y: clamp(self.mins.y - amount),
                z: clamp(self.mins.z - amount),
            },
            maxs: Point {
                x: clamp(self.maxs.x + amount),
                y: clamp(self.maxs.y + amount),
                z: clamp(self.maxs.z + amount),
            },
        }
    }

    /// The smallest box around this one and `other`.
    pub open spec fn merged_with(self, other: AABB) -> AABB {
        AABB {
            mins: Point {
                x: min_of(self.mins.x, other.mins.x),
                y: min_of(self.mins.y, other.mins.y),
                z: min_of(self.mins.z, other.mins.z),
            },
            maxs: Point {
                x: max_of(self.maxs.x, other.maxs.x),
                y: max_of(self.maxs.y, other.maxs.y),
                z: max_of(self.maxs.z, other.maxs.z),
            },
        }
    }

    /// Tests whether two boxes share a point.
    pub fn intersects(&self, other: &AABB) -> (r: bool)
        ensures
            r == self.meets(*other),
    {
        self.mins.x <= other.maxs.x && other.mins.x <= self.maxs.x && self.mins.y <= other.maxs.y
            && other.mins.y <= self.maxs.y && self.mins.z <= other.maxs.z && other.mins.z
            <= self.maxs.z
    }

    /// Tests whether `other` lies inside this box.
    pub fn contains(&self, other: &AABB) -> (r: bool)
        ensures
            r == self.encloses(*other),
    {
        self.mins.x <= other.mins.x && other.maxs.x <= self.maxs.x && self.mins.y <= other.mins.y
            && other.maxs.y <= self.maxs.y && self.mins.z <= other.mins.z && other.maxs.z
            <= self.maxs.z
    }

    /// Tests whether a point lies inside this box.
    pub fn contains_point(&self, p: &Point) -> (r: bool)
        ensures
            r == self.holds_point(*p),
    {
        self.mins.x <= p.x && p.x <= self.maxs.x && self.mins.y <= p.y && p.y <= self.maxs.y
            && self.mins.z <= p.z && p.z <= self.maxs.z
    }

    /// A copy of this box grown by `amount` on every side.
    pub fn loosened(&self, amount: i64) -> (b: AABB)
        ensures
            b == self.loosened_by(amount),
    {
        AABB {
            mins: Point {
                x: sat_sub(self.mins.x, amount),
                y: sat_sub(self.mins.y, amount),
                z: sat_sub(self.mins.z, amount),
            },
            maxs: Point {
                x: sat_add(self.maxs.x, amount),
                y: sat_add(self.maxs.y, amount),
                z: sat_add(self.maxs.z, amount),
            },
        }
    }

    /// Grows this box by `amount` on every side.
    pub fn loosen(&mut self, amount: i64)
        ensures
            *final(self) == old(self).loosened_by(amount),
    {
        *self = self.loosened(amount);
    }

    /// The smallest box around this one and `other`.
    pub fn merged(&self, other: &AABB) -> (b: AABB)
        ensures
            b == self.merged_with(*other),
    {
        AABB {
            mins: Point {
                x: min(self.mins.x, other.mins.x),
                y: min(self.mins.y, other.mins.y),
                z: min(self.mins.z, other.mins.z),
            },
            maxs: Point {
                x: max(self.maxs.x, other.maxs.x),
                y: max(self.maxs.y, other.maxs.y),
                z: max(self.maxs.z, other.maxs.z),
            },
        }
    }

    /// Grows this box until it holds `other` too.
    pub fn merge(&mut self, other: &AABB)
        ensures
            *final(self) == old(self).merged_with(*other),
    {
        *self = self.merged(other);
    }

    /// The smallest box with whole coordinates around this box turned and
    /// moved by `m`.
    pub open spec fn transformed_by(self, m: Isometry) -> AABB {
        let r = m.rotation;
        let t = m.translation;
        AABB {
            mins: Point {
                x: row_bound(r.m11, r.m12, r.m13, self.mins, self.maxs, t.x, false),
                y: row_bound(r.m21, r.m22, r.m23, self.mins, self.maxs, t.y, false),
                z: row_bound(r.m31, r.m32, r.m33, self.mins, self.maxs, t.z, false),
            },
            maxs: Point {
                x: row_bound(r.m11, r.m12, r.m13, self.mins, self.maxs, t.x, true),
                y: row_bound(r.m21, r.m22, r.m23, self.mins, self.maxs, t.y, true),
                z: row_bound(r.m31, r.m32, r.m33, self.mins, self.maxs, t.z, true),
            },
        }
    }

    /// The smallest box with whole coordinates around this box turned and
    /// moved by `m`.
    pub fn transform_by(&self, m: &Isometry) -> (b: AABB)
        ensures
            b == self.transformed_by(*m),
    {
        let r = &m.rotation;
        let t = &m.translation;
        AABB {
            mins: Point {
                x: bound_of_row(r.m11, r.m12, r.m13, &self.mins, &self.maxs, t.x, false),
                y: bound_of_row(r.m21, r.m22, r.m23, &self.mins, &self.maxs, t.y, false),
                z: bound_of_row(r.m31, r.m32, r.m33, &self.mins, &self.maxs, t.z, false),
            },
            maxs: Point {
                x: bound_of_row(r.m11, r.m12, r.m13, &self.mins, &self.maxs, t.x, true),
                y: bound_of_row(r.m21, r.m22, r.m23, &self.mins, &self.maxs, t.y, true),
                z: bound_of_row(r.m31, r.m32, r.m33, &self.mins, &self.maxs, t.z, true),
            },
        }
    }
}

/// Whatever has a bounding volume of type `BV`.
pub trait HasBoundingVolume<BV> {
    /// The bounding volume of `self` placed at `m`.
    spec fn volume_at(&self, m: Isometry) -> BV;

    /// The bounding volume of `self` where it was defined.
    spec fn local_volume(&self) -> BV;

    /// The bounding volume of `self` placed at `m`.
    fn bounding_volume(&self, m: &Isometry) -> (bv: BV)
        ensures
            bv == self.volume_at(*m),
    ;

    /// The bounding volume of `self` where it was defined.
    fn local_bounding_volume(&self) -> (bv: BV)
        ensures
            bv == self.local_volume(),
    ;
}

/// The box around `shape` placed at `m`.
pub fn aabb<G: HasBoundingVolume<AABB>>(shape: &G, m: &Isometry) -> (b: AABB)
    ensures
        b == shape.volume_at(*m),
{
    shape.bounding_volume(m)
}

/// Boxes that touch along a face, an edge or a corner share a point: on each
/// axis the one may end exactly where the other begins.
pub proof fn lemma_touching_boxes_meet(a: AABB, b: AABB)
    requires
        a.mins.x <= b.maxs.x && b.mins.x <= a.maxs.x,
        a.mins.y <= b.maxs.y && b.mins.y <= a.maxs.y,
        a.mins.z <= b.maxs.z && b.mins.z <= a.maxs.z,
        a.maxs.x == b.mins.x || a.maxs.y == b.mins.y || a.maxs.z == b.mins.z,
    ensures
        a.meets(b),
        b.meets(a),
{
}

/// A box grown by a margin that is not negative holds the box it came from, and
/// a merged box holds both of its parts.
pub proof fn lemma_loosened_and_merged_enclose(a: AABB, b: AABB, amount: i64)
    requires
        amount >= 0,
    ensures
        a.loosened_by(amount).encloses(a),
        a.merged_with(b).encloses(a),
        a.merged_with(b).encloses(b),
{
}

} // verus!
