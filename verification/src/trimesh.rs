//! Triangle meshes and their bounding boxes.

use crate::bounding_volume::{HasBoundingVolume, AABB};
use crate::math::{max, min, Isometry, Point};
use vstd::prelude::*;

verus! {

/// Whether `aabb` is the smallest box around the points: it holds every
/// point, and each of its six sides holds one.
pub open spec fn bounds(aabb: AABB, points: Seq<Point>) -> bool {
    &&& forall|i: int| 0 <= i < points.len() ==> aabb.holds_point(#[trigger] points[i])
    &&& exists|i: int| 0 <= i < points.len() && (#[trigger] points[i]).x == aabb.mins.x
    &&& exists|i: int| 0 <= i < points.len() && (#[trigger] points[i]).y == aabb.mins.y
    &&& exists|i: int| 0 <= i < points.len() && (#[trigger] points[i]).z == aabb.mins.z
    &&& exists|i: int| 0 <= i < points.len() && (#[trigger] points[i]).x == aabb.maxs.x
    &&& exists|i: int| 0 <= i < points.len() && (#[trigger] points[i]).y == aabb.maxs.y
    &&& exists|i: int| 0 <= i < points.len() && (#[trigger] points[i]).z == aabb.maxs.z
}

/// The smallest box around some points, of which there is at least one.
pub fn point_cloud_aabb(points: &[Point]) -> (aabb: AABB)
    requires
        points@.len() > 0,
    ensures
        bounds(aabb, points@),
{
    let first = points[0];
    let mut aabb = AABB { mins: first, maxs: first };
    let mut i: usize = 1;
    proof {
        let one = points@.take(1);
        assert(one[0] == first);
        assert(aabb.holds_point(one[0]));
    }
    while i < points.len()
        invariant
            1 <= i <= points@.len(),
            bounds(aabb, points@.take(i as int)),
        decreases points@.len() - i,
    {
        let p = points[i];
        let ghost seen = points@.take(i as int);
        let ghost more = points@.take(i + 1);
        let ghost before = aabb;
        aabb = AABB {
            mins: Point {
                x: min(aabb.mins.x, p.x),
                y: min(aabb.mins.y, p.y),
                z: min(aabb.mins.z, p.z),
            },
            maxs: Point {
                x: max(aabb.maxs.x, p.x),
                y: max(aabb.maxs.y, p.y),
                z: max(aabb.maxs.z, p.z),
            },
        };
        proof {
            assert(more[i as int] == p);
            assert forall|k: int| 0 <= k < more.len() implies aabb.holds_point(#[trigger] more[k]) by {
                if k < i {
                    assert(seen[k] == more[k]);
                    assert(before.holds_point(seen[k]));
                }
            }
            let x0 = choose|k: int| 0 <= k < seen.len() && (#[trigger] seen[k]).x == before.mins.x;
            let y0 = choose|k: int| 0 <= k < seen.len() && (#[trigger] seen[k]).y == before.mins.y;
            let z0 = choose|k: int| 0 <= k < seen.len() && (#[trigger] seen[k]).z == before.mins.z;
            let x1 = choose|k: int| 0 <= k < seen.len() && (#[trigger] seen[k]).x == before.maxs.x;
            let y1 = choose|k: int| 0 <= k < seen.len() && (#[trigger] seen[k]).y == before.maxs.y;
            let z1 = choose|k: int| 0 <= k < seen.len() && (#[trigger] seen[k]).z == before.maxs.z;
            assert(more[x0] == seen[x0] && more[y0] == seen[y0] && more[z0] == seen[z0]);
            assert(more[x1] == seen[x1] && more[y1] == seen[y1] && more[z1] == seen[z1]);
            assert(more[if p.x < before.mins.x { i as int } else { x0 }].x == aabb.mins.x);
            assert(more[if p.y < before.mins.y { i as int } else { y0 }].y == aabb.mins.y);
            assert(more[if p.z < before.mins.z { i as int } else { z0 }].z == aabb.mins.z);
            assert(more[if p.x > before.maxs.x { i as int } else { x1 }].x == aabb.maxs.x);
            assert(more[if p.y > before.maxs.y { i as int } else { y1 }].y == aabb.maxs.y);
            assert(more[if p.z > before.maxs.z { i as int } else { z1 }].z == aabb.maxs.z);
        }
        i += 1;
    }
    proof {
        assert(points@.take(i as int) =~= points@);
    }
    aabb
}

/// A mesh of triangles: its points, and for each triangle the places of its
/// three corners among the points.
pub struct TriMesh {
    points: Vec<Point>,
    indices: Vec<(usize, usize, usize)>,
    aabb: AABB,
}

impl TriMesh {
    /// The points.
    pub closed spec fn points_view(&self) -> Seq<Point> {
        self.points@
    }

    /// The corners of the triangles.
    pub closed spec fn indices_view(&self) -> Seq<(usize, usize, usize)> {
        self.indices@
    }

    /// The box around the points, where the mesh was defined.
    pub closed spec fn local_aabb(&self) -> AABB {
        self.aabb
    }

    /// The mesh has a point, every corner is one of the points, and the box
    /// is the smallest around the points.
    pub open spec fn wf(&self) -> bool {
        &&& self.points_view().len() > 0
        &&& corners_ok(self.indices_view(), self.points_view().len() as int)
        &&& bounds(self.local_aabb(), self.points_view())
    }

    /// The mesh with the given points and triangles. `None` where there is
    /// no point, or where a corner is not one of the points.
    pub fn new(points: Vec<Point>, indices: Vec<(usize, usize, usize)>) -> (mesh: Option<TriMesh>)
        ensures
            mesh is Some <==> points@.len() > 0 && corners_ok(indices@, points@.len() as int),
            mesh matches Some(m) ==> m.wf() && m.points_view() == points@ && m.indices_view()
                == indices@,
    {
        if points.len() == 0 {
            return None;
        }
        let mut i: usize = 0;
        while i < indices.len()
            invariant
                i <= indices@.len(),
                corners_ok(indices@.take(i as int), points@.len() as int),
            decreases indices@.len() - i,
        {
            let t = indices[i];
            if t.0 >= points.len() || t.1 >= points.len() || t.2 >= points.len() {
                proof {
                    assert(!corner_ok(indices@[i as int], points@.len() as int));
                }
                return None;
            }
            proof {
                let seen = indices@.take(i as int);
                let more = indices@.take(i + 1);
                assert forall|k: int| 0 <= k < more.len() implies corner_ok(
                    #[trigger] more[k],
                    points@.len() as int,
                ) by {
                    if k < i {
                        assert(seen[k] == more[k]);
                    }
                }
            }
            i += 1;
        }
        proof {
            assert(indices@.take(i as int) =~= indices@);
        }
        let aabb = point_cloud_aabb(points.as_slice());
        Some(TriMesh { points, indices, aabb })
    }

    /// The box around the points, where the mesh was defined.
    pub fn aabb(&self) -> (aabb: &AABB)
        ensures
            *aabb == self.local_aabb(),
    {
        &self.aabb
    }

    /// The points.
    pub fn points(&self) -> (points: &[Point])
        ensures
            points@ == self.points_view(),
    {
        self.points.as_slice()
    }

    /// The corners of the triangles.
    pub fn indices(&self) -> (indices: &[(usize, usize, usize)])
        ensures
            indices@ == self.indices_view(),
    {
        self.indices.as_slice()
    }
}

/// Whether the three corners of a triangle are among `n` points.
pub open spec fn corner_ok(triangle: (usize, usize, usize), n: int) -> bool {
    triangle.0 < n && triangle.1 < n && triangle.2 < n
}

/// Whether the corners of all triangles are among `n` points.
pub open spec fn corners_ok(indices: Seq<(usize, usize, usize)>, n: int) -> bool {
    forall|k: int| 0 <= k < indices.len() ==> corner_ok(#[trigger] indices[k], n)
}

impl HasBoundingVolume<AABB> for TriMesh {
    open spec fn volume_at(&self, m: Isometry) -> AABB {
        self.local_aabb().transformed_by(m)
    }

    open spec fn local_volume(&self) -> AABB {
        self.local_aabb()
    }

    fn bounding_volume(&self, m: &Isometry) -> (bv: AABB) {
        self.aabb().transform_by(m)
    }

    fn local_bounding_volume(&self) -> (bv: AABB) {
        *self.aabb()
    }
}

} // verus!
