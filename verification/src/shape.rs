//! What the pipeline asks of a shape.

use crate::bounding_volume::{HasBoundingVolume, AABB};
use crate::contact::FeatureId;
use crate::math::{Isometry, Point, Vector};
use vstd::prelude::*;

verus! {

/// A half-line: the points `origin + t * dir` for `t` from zero on.
#[derive(Clone, Copy, Debug, PartialEq, Eq, Structural)]
pub struct Ray {
    pub origin: Point,
    pub dir: Vector,
}

impl Ray {
    /// The ray from `origin` along `dir`.
    pub fn new(origin: Point, dir: Vector) -> (ray: Ray)
        ensures
            ray == (Ray { origin, dir }),
    {
        Ray { origin, dir }
    }
}

/// Where a ray meets a shape.
#[derive(Clone, Copy, Debug, PartialEq, Eq, Structural)]
pub struct RayIntersection {
    /// The `t` at which the ray meets the shape.
    pub toi: i64,
    /// The normal of the shape where the ray meets it.
    pub normal: Vector,
    /// The part of the shape that the ray meets.
    pub feature: FeatureId,
}

/// A shape: it has a bounding box at every pose, and answers point and ray
/// queries. What it answers depends on the shape and the arguments alone.
pub trait Shape: HasBoundingVolume<AABB> + Sized {
    /// Whether the shape placed at `m` holds `point`.
    spec fn holds_point(&self, m: Isometry, point: Point) -> bool;

    /// Where `ray` meets the shape placed at `m`, if it does.
    spec fn ray_hit(&self, m: Isometry, ray: Ray, solid: bool) -> Option<RayIntersection>;

    /// Whether the shape placed at `m` holds `point`.
    fn contains_point(&self, m: &Isometry, point: &Point) -> (r: bool)
        ensures
            r == self.holds_point(*m, *point),
    ;

    /// Where `ray` meets the shape placed at `m`, if it does. A ray that
    /// starts inside a `solid` shape meets it at once.
    fn toi_and_normal_with_ray(&self, m: &Isometry, ray: &Ray, solid: bool) -> (r: Option<
        RayIntersection,
    >)
        ensures
            r == self.ray_hit(*m, *ray, solid),
    ;

    /// The shape with the points that define it moved to `coords`; the shape
    /// itself, where it is not deformable.
    spec fn deformed(&self, coords: &[i64]) -> Self;

    /// Moves the points that define a deformable shape. Does nothing to a
    /// shape that is not deformable.
    fn set_deformations(&mut self, coords: &[i64])
        ensures
            *final(self) == old(self).deformed(coords),
    ;
}

} // verus!
