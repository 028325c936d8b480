use ncollide::bounding_volume::{aabb, HasBoundingVolume, AABB};
use ncollide::math::{bound_of_row, max, min, sat_add, sat_sub, Isometry, Rotation, Vector, ROTATION_ONE};
use ncollide::trimesh::{point_cloud_aabb, TriMesh};

fn cube(lo: i64, hi: i64) -> AABB {
    AABB::new(Vector::new(lo, lo, lo), Vector::new(hi, hi, hi))
}

fn quarter_turn_about_z() -> Rotation {
    // x goes to y, y goes to -x.
    Rotation {
        m11: 0,
        m12: -ROTATION_ONE,
        m13: 0,
        m21: ROTATION_ONE,
        m22: 0,
        m23: 0,
        m31: 0,
        m32: 0,
        m33: ROTATION_ONE,
    }
}

#[test]
fn sums_stop_at_the_ends_of_the_range() {
    assert_eq!(sat_add(1, 2), 3);
    assert_eq!(sat_add(i64::MAX, 1), i64::MAX);
    assert_eq!(sat_add(i64::MIN, -1), i64::MIN);
    assert_eq!(sat_add(i64::MAX, i64::MIN), -1);
    assert_eq!(sat_sub(5, 7), -2);
    assert_eq!(sat_sub(i64::MIN, 1), i64::MIN);
    assert_eq!(sat_sub(i64::MAX, -1), i64::MAX);
    assert_eq!(sat_sub(0, i64::MIN), i64::MAX);
    assert_eq!(min(3, -4), -4);
    assert_eq!(max(3, -4), 3);
    let v = Vector::new(i64::MAX, 0, -5).translated(&Vector::new(1, 2, 3));
    assert_eq!(v, Vector::new(i64::MAX, 2, -2));
    assert_eq!(Vector::zero(), Vector::new(0, 0, 0));
}

#[test]
fn boxes_that_touch_intersect() {
    let a = cube(0, 10);
    let face = AABB::new(Vector::new(10, 0, 0), Vector::new(20, 10, 10));
    let corner = cube(10, 20);
    let apart = cube(11, 20);
    assert!(a.intersects(&face));
    assert!(face.intersects(&a));
    assert!(a.intersects(&corner));
    assert!(!a.intersects(&apart));
    assert!(!apart.intersects(&a));
}

#[test]
fn boxes_contain_boxes_and_points() {
    let a = cube(0, 10);
    assert!(a.contains(&cube(0, 10)));
    assert!(a.contains(&cube(2, 3)));
    assert!(!a.contains(&cube(2, 11)));
    assert!(!cube(2, 3).contains(&a));
    assert!(a.contains_point(&Vector::new(0, 10, 5)));
    assert!(!a.contains_point(&Vector::new(0, 11, 5)));
}

#[test]
fn loosening_grows_every_side() {
    let a = AABB::new(Vector::new(-1, 0, 5), Vector::new(1, 2, 6));
    assert_eq!(a.loosened(3), AABB::new(Vector::new(-4, -3, 2), Vector::new(4, 5, 9)));
    let mut b = a;
    b.loosen(0);
    assert_eq!(b, a);
    b.loosen(1);
    assert_eq!(b, AABB::new(Vector::new(-2, -1, 4), Vector::new(2, 3, 7)));
    let wide = cube(i64::MIN + 1, i64::MAX - 1).loosened(5);
    assert_eq!(wide, cube(i64::MIN, i64::MAX));
}

#[test]
fn merging_takes_the_box_around_both() {
    let a = AABB::new(Vector::new(0, 0, 0), Vector::new(1, 1, 1));
    let b = AABB::new(Vector::new(-5, 0, 1), Vector::new(0, 7, 1));
    let m = AABB::new(Vector::new(-5, 0, 0), Vector::new(1, 7, 1));
    assert_eq!(a.merged(&b), m);
    assert_eq!(b.merged(&a), m);
    let mut c = a;
    c.merge(&b);
    assert_eq!(c, m);
    assert!(m.contains(&a) && m.contains(&b));
}

#[test]
fn identity_pose_moves_a_box_by_its_translation() {
    let a = AABB::new(Vector::new(-3, 0, 5), Vector::new(1, 2, 6));
    let m = Isometry::new(Vector::new(10, -20, 30), Rotation::identity());
    assert_eq!(a.transform_by(&m), AABB::new(Vector::new(7, -20, 35), Vector::new(11, -18, 36)));
}

#[test]
fn quarter_turn_swaps_the_axes_of_a_box() {
    let a = AABB::new(Vector::new(1, 2, 3), Vector::new(4, 6, 9));
    let m = Isometry::new(Vector::new(100, 0, 0), quarter_turn_about_z());
    // x' = -y + 100, y' = x, z' = z.
    assert_eq!(a.transform_by(&m), AABB::new(Vector::new(94, 1, 3), Vector::new(98, 4, 9)));
}

#[test]
fn turned_boxes_round_outwards() {
    // Half a unit along x for each unit of x and of y.
    let half = ROTATION_ONE / 2;
    let lo = Vector::new(1, 0, 0);
    let hi = Vector::new(2, 1, 0);
    assert_eq!(bound_of_row(half, half, 0, &lo, &hi, 0, false), 0);
    assert_eq!(bound_of_row(half, half, 0, &lo, &hi, 0, true), 2);
    assert_eq!(bound_of_row(-half, 0, 0, &lo, &hi, 0, false), -1);
    assert_eq!(bound_of_row(-half, 0, 0, &lo, &hi, 0, true), 0);
    assert_eq!(bound_of_row(-half, 0, 0, &lo, &hi, 7, true), 7);
    assert_eq!(bound_of_row(i32::MAX, 0, 0, &Vector::new(i64::MAX, 0, 0), &Vector::new(i64::MAX, 0, 0), 0, true), i64::MAX);
    assert_eq!(bound_of_row(i32::MIN, 0, 0, &Vector::new(i64::MAX, 0, 0), &Vector::new(i64::MAX, 0, 0), 0, false), i64::MIN);
}

#[test]
fn box_of_a_point_cloud_is_tight() {
    let pts = [Vector::new(3, -1, 0), Vector::new(-2, 4, 0), Vector::new(0, 0, 9)];
    assert_eq!(point_cloud_aabb(&pts), AABB::new(Vector::new(-2, -1, 0), Vector::new(3, 4, 9)));
    let one = [Vector::new(5, 5, 5)];
    assert_eq!(point_cloud_aabb(&one), cube(5, 5));
}

#[test]
fn mesh_has_the_box_of_its_points() {
    let pts = vec![Vector::new(0, 0, 0), Vector::new(10, 0, 0), Vector::new(0, 20, 0), Vector::new(0, 0, 30)];
    let mesh = TriMesh::new(pts.clone(), vec![(0, 1, 2), (0, 1, 3)]).unwrap();
    let local = AABB::new(Vector::new(0, 0, 0), Vector::new(10, 20, 30));
    assert_eq!(*mesh.aabb(), local);
    assert_eq!(mesh.local_bounding_volume(), local);
    assert_eq!(mesh.points(), &pts[..]);
    assert_eq!(mesh.indices().len(), 2);
    let m = Isometry::new(Vector::new(1, 1, 1), quarter_turn_about_z());
    let moved = AABB::new(Vector::new(-19, 1, 1), Vector::new(1, 11, 31));
    assert_eq!(mesh.bounding_volume(&m), moved);
    assert_eq!(aabb(&mesh, &m), moved);
    assert_eq!(mesh.bounding_volume(&m), mesh.aabb().transform_by(&m));
}

#[test]
fn mesh_needs_points_and_valid_corners() {
    assert!(TriMesh::new(Vec::new(), Vec::new()).is_none());
    let pts = vec![Vector::new(0, 0, 0), Vector::new(1, 0, 0), Vector::new(0, 1, 0)];
    assert!(TriMesh::new(pts.clone(), vec![(0, 1, 3)]).is_none());
    assert!(TriMesh::new(pts.clone(), vec![(0, 1, 2), (3, 0, 0)]).is_none());
    assert!(TriMesh::new(pts.clone(), Vec::new()).is_some());
    assert!(TriMesh::new(pts, vec![(2, 1, 0)]).is_some());
}
