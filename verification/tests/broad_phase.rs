use ncollide::bounding_volume::AABB;
use ncollide::broad_phase::{
    DBVTBroadPhase, BroadPhaseInterferenceHandler, BroadPhaseProxyHandle, PairSignal, SpatialQuery,
};
use ncollide::collision_object::CollisionObjectHandle;
use ncollide::math::Vector;
use ncollide::shape::Ray;

struct Allow {
    all: bool,
}

impl BroadPhaseInterferenceHandler for Allow {
    fn knows(&self, _handle: CollisionObjectHandle) -> bool {
        true
    }

    fn allows(&self, handle1: CollisionObjectHandle, handle2: CollisionObjectHandle) -> bool {
        self.is_interference_allowed(&handle1, &handle2)
    }

    fn is_interference_allowed(&self, handle1: &CollisionObjectHandle, handle2: &CollisionObjectHandle) -> bool {
        self.all || (handle1.uid() + handle2.uid()) % 2 == 1
    }
}

fn span(lo: i64, hi: i64) -> AABB {
    AABB::new(Vector::new(lo, 0, 0), Vector::new(hi, 10, 10))
}

fn h(i: usize) -> CollisionObjectHandle {
    CollisionObjectHandle(i)
}

fn signal(p1: usize, p2: usize, d1: usize, d2: usize, started: bool) -> PairSignal {
    PairSignal {
        proxy1: BroadPhaseProxyHandle(p1),
        proxy2: BroadPhaseProxyHandle(p2),
        data1: h(d1),
        data2: h(d2),
        started,
    }
}

#[test]
fn new_proxies_are_paired_at_the_next_update() {
    let mut bp = DBVTBroadPhase::new(0);
    let a = bp.create_proxy(span(0, 10), h(100));
    let b = bp.create_proxy(span(10, 20), h(101));
    let c = bp.create_proxy(span(21, 30), h(102));
    assert_eq!((a, b, c), (BroadPhaseProxyHandle(0), BroadPhaseProxyHandle(1), BroadPhaseProxyHandle(2)));
    assert_eq!(bp.proxy(b), Some((&span(10, 20), &h(101))));
    assert_eq!(bp.proxy(BroadPhaseProxyHandle(3)), None);
    assert_eq!(bp.update(&Allow { all: true }), vec![signal(0, 1, 100, 101, true)]);
    assert_eq!(bp.update(&Allow { all: true }), vec![]);
}

#[test]
fn pending_box_counts_from_the_next_update() {
    let mut bp = DBVTBroadPhase::new(0);
    let a = bp.create_proxy(span(0, 10), h(0));
    let _b = bp.create_proxy(span(20, 30), h(1));
    assert_eq!(bp.update(&Allow { all: true }), vec![]);
    bp.deferred_set_bounding_volume(a, span(12, 22));
    assert_eq!(bp.proxy(a).unwrap().0, &span(0, 10));
    assert_eq!(bp.update(&Allow { all: true }), vec![signal(0, 1, 0, 1, true)]);
    assert_eq!(bp.proxy(a).unwrap().0, &span(12, 22));
    bp.deferred_set_bounding_volume(a, span(0, 5));
    bp.deferred_set_bounding_volume(a, span(0, 10));
    assert_eq!(bp.update(&Allow { all: true }), vec![signal(0, 1, 0, 1, false)]);
    assert_eq!(bp.proxy(a).unwrap().0, &span(0, 10));
    bp.deferred_set_bounding_volume(BroadPhaseProxyHandle(9), span(0, 100));
    assert_eq!(bp.update(&Allow { all: true }), vec![]);
}

#[test]
fn moving_inside_the_fat_box_changes_no_pair() {
    let mut bp = DBVTBroadPhase::new(5);
    let a = bp.create_proxy(span(0, 10), h(0));
    let _b = bp.create_proxy(span(20, 30), h(1));
    // Fat boxes reach to 15 and from 15: they touch.
    assert_eq!(bp.update(&Allow { all: true }), vec![signal(0, 1, 0, 1, true)]);
    bp.deferred_set_bounding_volume(a, span(-5, 5));
    assert_eq!(bp.update(&Allow { all: true }), vec![]);
    assert_eq!(bp.proxy(a).unwrap().0, &span(-5, 5));
    // One unit further the box leaves its fat box, which is made anew.
    bp.deferred_set_bounding_volume(a, span(-6, 4));
    assert_eq!(bp.update(&Allow { all: true }), vec![signal(0, 1, 0, 1, false)]);
}

#[test]
fn handler_is_asked_only_when_a_proxy_is_looked_at_again() {
    let mut bp = DBVTBroadPhase::new(0);
    let a = bp.create_proxy(span(0, 10), h(0));
    let _b = bp.create_proxy(span(5, 15), h(2));
    let _c = bp.create_proxy(span(8, 20), h(3));
    assert_eq!(
        bp.update(&Allow { all: true }),
        vec![signal(0, 1, 0, 2, true), signal(0, 2, 0, 3, true), signal(1, 2, 2, 3, true)]
    );
    // Nothing is looked at again, so the stricter handler is not asked.
    assert_eq!(bp.update(&Allow { all: false }), vec![]);
    bp.deferred_recompute_all_proximities_with(a);
    assert_eq!(bp.update(&Allow { all: false }), vec![signal(0, 1, 0, 2, false)]);
    bp.deferred_recompute_all_proximities();
    assert_eq!(bp.update(&Allow { all: false }), vec![]);
    bp.deferred_recompute_all_proximities();
    assert_eq!(bp.update(&Allow { all: true }), vec![signal(0, 1, 0, 2, true)]);
    bp.deferred_recompute_all_proximities_with(BroadPhaseProxyHandle(7));
    assert_eq!(bp.update(&Allow { all: false }), vec![]);
}

#[test]
fn ceased_pairs_are_signalled_before_begun_ones() {
    let mut bp = DBVTBroadPhase::new(0);
    let a = bp.create_proxy(span(0, 10), h(0));
    let _b = bp.create_proxy(span(5, 15), h(1));
    let _c = bp.create_proxy(span(30, 40), h(2));
    assert_eq!(bp.update(&Allow { all: true }), vec![signal(0, 1, 0, 1, true)]);
    bp.deferred_set_bounding_volume(a, span(25, 35));
    assert_eq!(
        bp.update(&Allow { all: true }),
        vec![signal(0, 1, 0, 1, false), signal(0, 2, 0, 2, true)]
    );
}

#[test]
fn removed_proxies_take_their_pairs_with_them() {
    let mut bp = DBVTBroadPhase::new(0);
    let a = bp.create_proxy(span(0, 10), h(0));
    let b = bp.create_proxy(span(5, 15), h(1));
    let c = bp.create_proxy(span(8, 20), h(2));
    assert_eq!(bp.update(&Allow { all: true }).len(), 3);
    bp.remove(&[b, BroadPhaseProxyHandle(17)]);
    assert_eq!(bp.proxy(b), None);
    assert_eq!(bp.update(&Allow { all: true }), vec![]);
    // The place is taken again by the next proxy.
    let d = bp.create_proxy(span(100, 110), h(3));
    assert_eq!(d, b);
    assert_eq!(bp.update(&Allow { all: true }), vec![]);
    bp.remove(&[a, c]);
    bp.remove(&[a]);
    assert_eq!(bp.capacity(), 3);
    let e = bp.create_proxy(span(105, 106), h(4));
    assert_eq!(bp.update(&Allow { all: true }).len(), 1);
    assert!(e != d);
}

#[test]
fn spatial_queries_look_at_the_boxes_in_effect() {
    let mut bp = DBVTBroadPhase::new(3);
    let _a = bp.create_proxy(span(0, 10), h(0));
    let _b = bp.create_proxy(span(20, 30), h(1));
    let _c = bp.create_proxy(span(40, 50), h(2));
    let mut out = vec![h(9)];
    bp.interferences_with_bounding_volume(&span(10, 20), &mut out);
    assert_eq!(out, vec![h(9), h(0), h(1)]);
    let mut out = Vec::new();
    bp.interferences_with_bounding_volume(&span(11, 19), &mut out);
    assert_eq!(out, vec![]);
    bp.interferences_with_point(&Vector::new(45, 10, 0), &mut out);
    assert_eq!(out, vec![h(2)]);
    bp.interferences_with_point(&Vector::new(45, 11, 0), &mut out);
    assert_eq!(out, vec![h(2)]);
    let mut out = Vec::new();
    bp.interferences_with_ray(&Ray::new(Vector::new(25, 5, 5), Vector::new(1, 0, 0)), &mut out);
    assert_eq!(out, vec![h(1), h(2)]);
    let mut out = Vec::new();
    bp.interferences_with_ray(&Ray::new(Vector::new(25, 5, 5), Vector::new(-1, 0, 0)), &mut out);
    assert_eq!(out, vec![h(0), h(1)]);
    let mut out = Vec::new();
    bp.interferences_with_ray(&Ray::new(Vector::new(25, 5, 11), Vector::new(0, 0, 1)), &mut out);
    assert_eq!(out, vec![]);
    let mut out = Vec::new();
    bp.interferences_with_ray(&Ray::new(Vector::new(25, 5, -1), Vector::new(0, 0, 1)), &mut out);
    assert_eq!(out, vec![h(1)]);
    assert!(SpatialQuery::Volume(span(0, 1)).test(&span(1, 2)));
    assert!(!SpatialQuery::Point(Vector::new(3, 0, 0)).test(&span(1, 2)));
    let mut out = Vec::new();
    bp.interferences(&SpatialQuery::Point(Vector::new(0, 0, 0)), &mut out);
    assert_eq!(out, vec![h(0)]);
}
