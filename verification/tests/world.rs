use ncollide::bounding_volume::{HasBoundingVolume, AABB};
use ncollide::collision_groups::CollisionGroups;
use ncollide::collision_object::{CollisionObject, CollisionObjectHandle};
use ncollide::collision_world::CollisionWorld;
use ncollide::contact::{Contact, ContactManifold, ContactPoint, FeatureId};
use ncollide::detector::{
    ContactDispatcher, ContactManifoldGenerator, ProximityDetector, ProximityDispatcher,
};
use ncollide::events::{ContactEvent, ProximityEvent};
use ncollide::interaction_graph::{Interaction, TemporaryInteractionIndex};
use ncollide::math::{Isometry, Point, Rotation, Vector};
use ncollide::narrow_phase::{CollisionError, NarrowPhase};
use ncollide::pair_filter::BroadPhasePairFilter;
use ncollide::query::{ContactPrediction, GeometricQueryType, Proximity};
use ncollide::shape::{Ray, RayIntersection, Shape};

// Lengths are in thousandths: a unit ball has radius 1000.

#[derive(Clone, Debug, PartialEq)]
struct Ball {
    radius: i64,
}

impl HasBoundingVolume<AABB> for Ball {
    fn volume_at(&self, m: Isometry) -> AABB {
        self.bounding_volume(&m)
    }

    fn local_volume(&self) -> AABB {
        self.local_bounding_volume()
    }

    fn bounding_volume(&self, m: &Isometry) -> AABB {
        let c = m.translation;
        AABB::new(
            Vector::new(c.x - self.radius, c.y - self.radius, c.z - self.radius),
            Vector::new(c.x + self.radius, c.y + self.radius, c.z + self.radius),
        )
    }

    fn local_bounding_volume(&self) -> AABB {
        AABB::new(
            Vector::new(-self.radius, -self.radius, -self.radius),
            Vector::new(self.radius, self.radius, self.radius),
        )
    }
}

fn dist(a: Point, b: Point) -> i64 {
    let dx = (a.x - b.x) as f64;
    let dy = (a.y - b.y) as f64;
    let dz = (a.z - b.z) as f64;
    (dx * dx + dy * dy + dz * dz).sqrt().round() as i64
}

impl Shape for Ball {
    fn holds_point(&self, m: Isometry, point: Point) -> bool {
        self.contains_point(&m, &point)
    }

    fn ray_hit(&self, m: Isometry, ray: Ray, solid: bool) -> Option<RayIntersection> {
        self.toi_and_normal_with_ray(&m, &ray, solid)
    }

    fn contains_point(&self, m: &Isometry, point: &Point) -> bool {
        dist(m.translation, *point) <= self.radius
    }

    fn toi_and_normal_with_ray(&self, m: &Isometry, ray: &Ray, _solid: bool) -> Option<RayIntersection> {
        // Only rays along +x are needed here.
        let c = m.translation;
        if ray.dir.x > 0 && ray.dir.y == 0 && ray.dir.z == 0 {
            let off = dist(Vector::new(c.x, ray.origin.y, ray.origin.z), c);
            if off <= self.radius && ray.origin.x <= c.x {
                return Some(RayIntersection {
                    toi: c.x - self.radius - ray.origin.x,
                    normal: Vector::new(-1, 0, 0),
                    feature: FeatureId::Face(0),
                });
            }
        }
        None
    }

    fn deformed(&self, coords: &[i64]) -> Ball {
        let mut ball = self.clone();
        ball.set_deformations(coords);
        ball
    }

    fn set_deformations(&mut self, coords: &[i64]) {
        if let Some(r) = coords.first() {
            self.radius = *r;
        }
    }
}

struct Dispatcher;

struct BallBall;

impl ContactManifoldGenerator<Ball, Dispatcher> for BallBall {
    fn init_manifold(&self) -> ContactManifold {
        ContactManifold::new()
    }

    fn found(
        &self,
        dispatcher: &Dispatcher,
        m1: &Isometry,
        shape1: &Ball,
        m2: &Isometry,
        shape2: &Ball,
        prediction: &ContactPrediction,
    ) -> Vec<ContactPoint> {
        BallBall.generate_contacts(dispatcher, m1, shape1, m2, shape2, prediction)
    }

    fn generated(
        &self,
        _dispatcher: &Dispatcher,
        _m1: &Isometry,
        _shape1: &Ball,
        _m2: &Isometry,
        _shape2: &Ball,
        _prediction: &ContactPrediction,
    ) -> BallBall {
        BallBall
    }

    fn generate_contacts(
        &mut self,
        _dispatcher: &Dispatcher,
        m1: &Isometry,
        shape1: &Ball,
        m2: &Isometry,
        shape2: &Ball,
        _prediction: &ContactPrediction,
    ) -> Vec<ContactPoint> {
        let d = dist(m1.translation, m2.translation);
        let depth = shape1.radius + shape2.radius - d;
        if depth > 0 {
            vec![ContactPoint {
                contact: Contact::new(m1.translation, m2.translation, Vector::new(1, 0, 0), depth),
                feature1: FeatureId::Face(0),
                feature2: FeatureId::Face(0),
            }]
        } else {
            Vec::new()
        }
    }
}

struct BallBallProximity {
    last: Proximity,
}

impl ProximityDetector<Ball, Dispatcher> for BallBallProximity {
    fn status(&self) -> Proximity {
        self.proximity()
    }

    fn updated(
        &self,
        dispatcher: &Dispatcher,
        m1: &Isometry,
        shape1: &Ball,
        m2: &Isometry,
        shape2: &Ball,
        margin: i64,
    ) -> BallBallProximity {
        let mut next = BallBallProximity { last: self.last };
        next.update(dispatcher, m1, shape1, m2, shape2, margin);
        next
    }

    fn update(
        &mut self,
        _dispatcher: &Dispatcher,
        m1: &Isometry,
        shape1: &Ball,
        m2: &Isometry,
        shape2: &Ball,
        margin: i64,
    ) {
        let gap = dist(m1.translation, m2.translation) - shape1.radius - shape2.radius;
        self.last = if gap <= 0 {
            Proximity::Intersecting
        } else if gap <= margin {
            Proximity::WithinMargin
        } else {
            Proximity::Disjoint
        };
    }

    fn proximity(&self) -> Proximity {
        self.last
    }
}

impl ContactDispatcher<Ball> for Dispatcher {
    type Algorithm = BallBall;

    fn contact_algorithm(&self, shape1: &Ball, shape2: &Ball) -> Option<BallBall> {
        self.get_contact_algorithm(shape1, shape2)
    }

    fn get_contact_algorithm(&self, _shape1: &Ball, _shape2: &Ball) -> Option<BallBall> {
        Some(BallBall)
    }
}

impl ProximityDispatcher<Ball> for Dispatcher {
    type Algorithm = BallBallProximity;

    fn proximity_algorithm(&self, shape1: &Ball, shape2: &Ball) -> Option<BallBallProximity> {
        self.get_proximity_algorithm(shape1, shape2)
    }

    fn get_proximity_algorithm(&self, _shape1: &Ball, _shape2: &Ball) -> Option<BallBallProximity> {
        Some(BallBallProximity { last: Proximity::Disjoint })
    }
}

#[derive(Clone, Copy)]
enum Filter {
    RejectAll,
    AcceptAll,
}

impl BroadPhasePairFilter<Ball, u32> for Filter {
    fn pair_valid(&self, co1: CollisionObject<Ball, u32>, co2: CollisionObject<Ball, u32>) -> bool {
        self.is_pair_valid(&co1, &co2)
    }

    fn is_pair_valid(&self, _co1: &CollisionObject<Ball, u32>, _co2: &CollisionObject<Ball, u32>) -> bool {
        match self {
            Filter::RejectAll => false,
            Filter::AcceptAll => true,
        }
    }
}

type World = CollisionWorld<Ball, u32, Dispatcher, Dispatcher, Filter>;

fn at(x: i64, y: i64, z: i64) -> Isometry {
    Isometry::new(Vector::new(x, y, z), Rotation::identity())
}

fn world() -> World {
    CollisionWorld::new(20, Dispatcher, Dispatcher)
}

fn add_ball(w: &mut World, x: i64, radius: i64, query: GeometricQueryType) -> CollisionObjectHandle {
    w.add(at(x, 0, 0), Ball { radius }, CollisionGroups::new(), query, 0)
}

fn contacts() -> GeometricQueryType {
    GeometricQueryType::Contacts(100, 0)
}

fn contact_events(w: &World) -> Vec<ContactEvent> {
    w.contact_events().as_slice().to_vec()
}

fn proximity_events(w: &World) -> Vec<ProximityEvent> {
    w.proximity_events().as_slice().to_vec()
}

fn manifold_len(w: &World, i: usize) -> usize {
    match w.interactions().edge_weight(TemporaryInteractionIndex(i)) {
        Some(Interaction::Contact(_, m)) => m.len(),
        _ => panic!("no contact edge at {}", i),
    }
}

#[test]
fn empty_world_update_is_a_no_op() {
    let mut w = world();
    assert_eq!(w.update(), Ok(()));
    assert_eq!(w.timestamp(), 1);
    assert_eq!(w.contact_events().len(), 0);
    assert_eq!(w.proximity_events().len(), 0);
    assert_eq!(w.interactions().node_count(), 0);
    assert_eq!(w.interactions().edge_count(), 0);
    assert_eq!(w.narrow_phase().contact_id_count(), 0);
}

#[test]
fn single_object_raises_no_event() {
    let mut w = world();
    let a = add_ball(&mut w, 0, 1000, contacts());
    for step in 0..4 {
        w.set_position(a, at(step * 700, 0, 0));
        assert_eq!(w.update(), Ok(()));
        assert_eq!(w.contact_events().len(), 0);
        assert_eq!(w.proximity_events().len(), 0);
    }
    assert_eq!(w.interactions().edge_count(), 0);
}

#[test]
fn far_balls_have_no_edge() {
    let mut w = world();
    let _a = add_ball(&mut w, 0, 1000, contacts());
    let _b = add_ball(&mut w, 10_000, 1000, contacts());
    assert_eq!(w.update(), Ok(()));
    assert_eq!(w.contact_events().len(), 0);
    assert_eq!(w.interactions().edge_count(), 0);
}

#[test]
fn near_balls_get_an_edge_then_a_contact() {
    let mut w = world();
    let a = add_ball(&mut w, 0, 1000, contacts());
    let b = add_ball(&mut w, 2050, 1000, contacts());
    assert_eq!(w.update(), Ok(()));
    assert_eq!(w.interactions().edge_count(), 1);
    assert_eq!(manifold_len(&w, 0), 0);
    assert_eq!(w.contact_events().len(), 0);

    w.set_position(b, at(1900, 0, 0));
    assert_eq!(w.update(), Ok(()));
    assert_eq!(contact_events(&w), vec![ContactEvent::Started(a, b)]);
    assert_eq!(manifold_len(&w, 0), 1);
    match w.interactions().edge_weight(TemporaryInteractionIndex(0)) {
        Some(Interaction::Contact(_, m)) => {
            let c = m.contact(0);
            assert_eq!(c.contact.depth, 100);
            assert!(!c.id.is_null());
        }
        _ => panic!("no contact edge"),
    }
    assert_eq!(w.narrow_phase().contact_id_count(), 1);
}

#[test]
fn contact_keeps_its_identifier_while_it_lasts() {
    let mut w = world();
    let _a = add_ball(&mut w, 0, 1000, contacts());
    let b = add_ball(&mut w, 1900, 1000, contacts());
    assert_eq!(w.update(), Ok(()));
    let id = match w.interactions().edge_weight(TemporaryInteractionIndex(0)) {
        Some(Interaction::Contact(_, m)) => m.contact(0).id,
        _ => panic!("no contact edge"),
    };
    w.set_position(b, at(1800, 0, 0));
    assert_eq!(w.update(), Ok(()));
    assert_eq!(w.contact_events().len(), 0);
    match w.interactions().edge_weight(TemporaryInteractionIndex(0)) {
        Some(Interaction::Contact(_, m)) => {
            assert_eq!(m.contact(0).id, id);
            assert_eq!(m.contact(0).contact.depth, 200);
        }
        _ => panic!("no contact edge"),
    }
    assert_eq!(w.narrow_phase().contact_id_count(), 1);
}

#[test]
fn contact_events_alternate_over_the_steps() {
    let mut w = world();
    let a = add_ball(&mut w, 0, 1000, contacts());
    let b = add_ball(&mut w, 1900, 1000, contacts());
    let mut seen = Vec::new();
    for x in [1900, 2050, 1900, 1950, 2050, 2060, 1900] {
        w.set_position(b, at(x, 0, 0));
        assert_eq!(w.update(), Ok(()));
        seen.extend(contact_events(&w));
    }
    assert_eq!(
        seen,
        vec![
            ContactEvent::Started(a, b),
            ContactEvent::Stopped(a, b),
            ContactEvent::Started(a, b),
            ContactEvent::Stopped(a, b),
            ContactEvent::Started(a, b),
        ]
    );
}

#[test]
fn proximity_goes_from_disjoint_to_within_margin_to_intersecting() {
    let mut w = world();
    let a = add_ball(&mut w, 0, 500, GeometricQueryType::Proximity(500));
    let b = add_ball(&mut w, 5000, 500, GeometricQueryType::Proximity(500));
    assert_eq!(w.update(), Ok(()));
    assert_eq!(w.proximity_events().len(), 0);
    assert_eq!(w.interactions().edge_count(), 0);

    w.set_position(b, at(1800, 0, 0));
    assert_eq!(w.update(), Ok(()));
    assert_eq!(
        proximity_events(&w),
        vec![ProximityEvent::new(a, b, Proximity::Disjoint, Proximity::WithinMargin)]
    );

    w.set_position(b, at(500, 0, 0));
    assert_eq!(w.update(), Ok(()));
    assert_eq!(
        proximity_events(&w),
        vec![ProximityEvent::new(a, b, Proximity::WithinMargin, Proximity::Intersecting)]
    );
    assert_eq!(w.contact_events().len(), 0);
}

#[test]
fn touching_boxes_start_a_proximity() {
    // The loosened boxes end and begin at 1500: they only touch.
    let mut w: World = CollisionWorld::new(0, Dispatcher, Dispatcher);
    let a = add_ball(&mut w, 0, 500, GeometricQueryType::Proximity(1000));
    let b = add_ball(&mut w, 3000, 500, GeometricQueryType::Proximity(1000));
    assert_eq!(w.update(), Ok(()));
    assert_eq!(w.interactions().edge_count(), 1);
    assert_eq!(
        proximity_events(&w),
        vec![ProximityEvent::new(a, b, Proximity::Disjoint, Proximity::WithinMargin)]
    );
}

#[test]
fn removed_object_raises_no_stopped_and_frees_its_identifiers() {
    let mut w = world();
    let a = add_ball(&mut w, 0, 1000, contacts());
    let b = add_ball(&mut w, 1500, 1000, contacts());
    let c = add_ball(&mut w, -1500, 1000, contacts());
    assert_eq!(w.update(), Ok(()));
    assert_eq!(w.contact_events().len(), 2);
    assert_eq!(w.interactions().edge_count(), 2);
    assert_eq!(w.narrow_phase().contact_id_count(), 2);
    let before = contact_events(&w);

    w.remove(&[a]);
    assert_eq!(contact_events(&w), before);
    assert_eq!(w.interactions().edge_count(), 0);
    assert_eq!(w.interactions().node_count(), 2);
    assert!(w.collision_object(a).is_none());
    for h in [b, c] {
        let co = w.collision_object(h).unwrap();
        assert_eq!(co.handle(), h);
        assert_eq!(w.interactions().node_weight(co.graph_index()), Some(h));
        assert_eq!(w.broad_phase().proxy(co.proxy_handle()).map(|p| *p.1), Some(h));
    }

    assert_eq!(w.update(), Ok(()));
    assert_eq!(w.contact_events().len(), 0);
    assert_eq!(w.narrow_phase().contact_id_count(), 0);
}

#[test]
fn rejecting_filter_stops_every_pair() {
    let mut w = world();
    let a = add_ball(&mut w, 0, 1000, contacts());
    let b = add_ball(&mut w, 1900, 1000, contacts());
    let _c = add_ball(&mut w, -2050, 1000, contacts());
    assert_eq!(w.update(), Ok(()));
    assert_eq!(w.interactions().edge_count(), 2);
    assert_eq!(contact_events(&w), vec![ContactEvent::Started(a, b)]);

    w.register_broad_phase_pair_filter("none", Filter::RejectAll);
    assert_eq!(w.update(), Ok(()));
    assert_eq!(w.interactions().edge_count(), 0);
    assert_eq!(contact_events(&w), vec![ContactEvent::Stopped(a, b)]);
    assert_eq!(w.narrow_phase().contact_id_count(), 0);

    w.unregister_broad_phase_pair_filter("none");
    assert_eq!(w.update(), Ok(()));
    assert_eq!(w.interactions().edge_count(), 2);
    // No object changed, so the new edges are not looked at yet.
    assert_eq!(w.contact_events().len(), 0);
    w.set_position(a, at(0, 0, 0));
    assert_eq!(w.update(), Ok(()));
    assert_eq!(contact_events(&w), vec![ContactEvent::Started(a, b)]);
}

#[test]
fn registering_under_a_name_replaces_the_filter() {
    let mut w = world();
    let _a = add_ball(&mut w, 0, 1000, contacts());
    let _b = add_ball(&mut w, 1900, 1000, contacts());
    w.register_broad_phase_pair_filter("f", Filter::RejectAll);
    w.register_broad_phase_pair_filter("f", Filter::AcceptAll);
    assert_eq!(w.update(), Ok(()));
    assert_eq!(w.interactions().edge_count(), 1);
    w.unregister_broad_phase_pair_filter("g");
    assert_eq!(w.update(), Ok(()));
    assert_eq!(w.interactions().edge_count(), 1);
}

#[test]
fn predicted_position_makes_the_pair_overlap_at_once() {
    let mut w = world();
    let a = add_ball(&mut w, 0, 1000, contacts());
    let _b = add_ball(&mut w, 8000, 1000, contacts());
    assert_eq!(w.update(), Ok(()));
    assert_eq!(w.interactions().edge_count(), 0);

    w.set_position_with_prediction(a, at(0, 0, 0), &at(10_000, 0, 0));
    assert_eq!(w.update(), Ok(()));
    assert_eq!(w.interactions().edge_count(), 1);
    assert_eq!(w.contact_events().len(), 0);
    let aabb = *w.broad_phase_aabb(a).unwrap();
    assert_eq!(aabb, AABB::new(Vector::new(-1100, -1100, -1100), Vector::new(11_100, 1100, 1100)));
}

#[test]
fn quiet_steps_change_nothing() {
    let mut w = world();
    let _a = add_ball(&mut w, 0, 1000, contacts());
    let _b = add_ball(&mut w, 1900, 1000, contacts());
    let _c = add_ball(&mut w, 3700, 1000, contacts());
    assert_eq!(w.update(), Ok(()));
    assert_eq!(w.contact_events().len(), 2);
    let ids = w.narrow_phase().contact_id_count();
    assert_eq!(ids, 2);
    for step in 0..5 {
        assert_eq!(w.update(), Ok(()));
        assert_eq!(w.contact_events().len(), 0);
        assert_eq!(w.proximity_events().len(), 0);
        assert_eq!(w.narrow_phase().contact_id_count(), ids);
        assert_eq!(w.interactions().edge_count(), 2);
        assert_eq!(manifold_len(&w, 0), 1);
        assert_eq!(manifold_len(&w, 1), 1);
        assert_eq!(w.timestamp(), step + 2);
    }
}

#[test]
fn moving_there_and_back_keeps_graph_and_identifier() {
    let mut w = world();
    let a = add_ball(&mut w, 0, 1000, contacts());
    let _b = add_ball(&mut w, 1900, 1000, contacts());
    assert_eq!(w.update(), Ok(()));
    let id = match w.interactions().edge_weight(TemporaryInteractionIndex(0)) {
        Some(Interaction::Contact(_, m)) => m.contact(0).id,
        _ => panic!("no contact edge"),
    };
    w.set_position(a, at(10, 0, 0));
    w.set_position(a, at(0, 0, 0));
    assert_eq!(w.interactions().edge_count(), 1);
    assert_eq!(w.update(), Ok(()));
    assert_eq!(w.contact_events().len(), 0);
    match w.interactions().edge_weight(TemporaryInteractionIndex(0)) {
        Some(Interaction::Contact(_, m)) => assert_eq!(m.contact(0).id, id),
        _ => panic!("no contact edge"),
    }
}

#[test]
fn add_then_remove_leaves_the_world_as_it_was() {
    let mut w = world();
    let a = add_ball(&mut w, 0, 1000, contacts());
    let b = add_ball(&mut w, 1900, 1000, contacts());
    assert_eq!(w.update(), Ok(()));
    let events = contact_events(&w);
    let c = add_ball(&mut w, 900, 1000, contacts());
    w.remove(&[c]);
    assert_eq!(w.timestamp(), 1);
    assert_eq!(contact_events(&w), events);
    assert_eq!(w.interactions().node_count(), 2);
    assert_eq!(w.interactions().edge_count(), 1);
    assert_eq!(w.narrow_phase().contact_id_count(), 1);
    assert!(w.collision_object(c).is_none());
    assert_eq!(w.collision_object(a).unwrap().graph_index().index(), 0);
    assert_eq!(w.collision_object(b).unwrap().graph_index().index(), 1);
    assert_eq!(w.update(), Ok(()));
    assert_eq!(w.contact_events().len(), 0);
    // The handle is free again.
    let d = add_ball(&mut w, 9000, 1000, contacts());
    assert_eq!(d, c);
}

#[test]
fn removing_a_node_moves_the_last_one_into_its_place() {
    let mut w = world();
    let a = add_ball(&mut w, 0, 1000, contacts());
    let b = add_ball(&mut w, 5000, 1000, contacts());
    let c = add_ball(&mut w, 10_000, 1000, contacts());
    w.remove(&[a]);
    assert_eq!(w.collision_object(c).unwrap().graph_index().index(), 0);
    assert_eq!(w.collision_object(b).unwrap().graph_index().index(), 1);
    w.remove(&[b, c]);
    assert_eq!(w.interactions().node_count(), 0);
}

#[test]
fn contact_with_a_proximity_object_fails_the_step() {
    let mut w = world();
    let a = add_ball(&mut w, 0, 1000, contacts());
    let b = add_ball(&mut w, 1900, 1000, contacts());
    assert_eq!(w.update(), Ok(()));
    assert_eq!(contact_events(&w), vec![ContactEvent::Started(a, b)]);
    w.set_query_type(b, GeometricQueryType::Proximity(100));
    assert_eq!(w.update(), Err(CollisionError::IncompatibleQueryTypes));
    assert_eq!(w.timestamp(), 1);
    assert_eq!(w.interactions().edge_count(), 1);
    assert_eq!(manifold_len(&w, 0), 1);
}

#[test]
fn full_identifier_pool_fails_the_step() {
    let mut w = world();
    w.set_narrow_phase(NarrowPhase::with_contact_id_limit(Dispatcher, Dispatcher, 1));
    let _a = add_ball(&mut w, 0, 1000, contacts());
    let _b = add_ball(&mut w, 1900, 1000, contacts());
    let _c = add_ball(&mut w, 3700, 1000, contacts());
    assert_eq!(w.update(), Err(CollisionError::ContactIdsExhausted));
    assert_eq!(w.narrow_phase().contact_id_count(), 1);
    assert_eq!(w.contact_events().len(), 1);
}

#[test]
fn collision_groups_filter_pairs() {
    let mut w = world();
    let mut g1 = CollisionGroups::new();
    g1.modify_blacklist(3, true);
    let g2 = CollisionGroups::new();
    let _a = w.add(at(0, 0, 0), Ball { radius: 1000 }, g1, contacts(), 1);
    let b = w.add(at(1900, 0, 0), Ball { radius: 1000 }, g2, contacts(), 2);
    assert_eq!(w.update(), Ok(()));
    assert_eq!(w.interactions().edge_count(), 0);
    let mut g3 = CollisionGroups::new();
    g3.modify_membership(3, false);
    w.set_collision_groups(b, g3);
    assert_eq!(w.update(), Ok(()));
    assert_eq!(w.interactions().edge_count(), 1);
    assert_eq!(w.contact_events().len(), 1);
}

#[test]
fn set_shape_and_deformations_refresh_the_box() {
    let mut w = world();
    let a = add_ball(&mut w, 0, 1000, contacts());
    assert_eq!(w.update(), Ok(()));
    assert_eq!(
        *w.broad_phase_aabb(a).unwrap(),
        AABB::new(Vector::new(-1100, -1100, -1100), Vector::new(1100, 1100, 1100))
    );
    w.set_shape(a, Ball { radius: 2000 });
    assert_eq!(w.collision_object(a).unwrap().timestamp, 1);
    assert_eq!(w.update(), Ok(()));
    assert_eq!(
        *w.broad_phase_aabb(a).unwrap(),
        AABB::new(Vector::new(-2100, -2100, -2100), Vector::new(2100, 2100, 2100))
    );
    w.set_deformations(a, &[500]);
    assert_eq!(w.collision_object(a).unwrap().shape().radius, 500);
    assert_eq!(w.update(), Ok(()));
    assert_eq!(
        *w.broad_phase_aabb(a).unwrap(),
        AABB::new(Vector::new(-600, -600, -600), Vector::new(600, 600, 600))
    );
    assert!(w.broad_phase_aabb(CollisionObjectHandle(77)).is_none());
}

#[test]
fn ray_query_yields_the_objects_that_the_ray_meets() {
    let mut w = world();
    let a = add_ball(&mut w, 5000, 1000, contacts());
    let _b = w.add(at(9000, 5000, 0), Ball { radius: 1000 }, CollisionGroups::new(), contacts(), 0);
    let c = add_ball(&mut w, 20_000, 1000, contacts());
    let _d = add_ball(&mut w, -9000, 1000, contacts());
    assert_eq!(w.update(), Ok(()));
    let ray = Ray::new(Vector::new(0, 0, 0), Vector::new(1, 0, 0));
    let groups = CollisionGroups::new();
    let mut it = w.interferences_with_ray(&ray, &groups);
    let (first, hit) = it.next().unwrap();
    assert_eq!(first.handle(), a);
    assert_eq!(hit.toi, 4000);
    let (second, hit) = it.next().unwrap();
    assert_eq!(second.handle(), c);
    assert_eq!(hit.toi, 19_000);
    assert!(it.next().is_none());
    assert!(it.next().is_none());
}

#[test]
fn point_query_yields_the_objects_that_hold_the_point() {
    let mut w = world();
    let a = add_ball(&mut w, 0, 1000, contacts());
    let b = add_ball(&mut w, 1500, 1000, contacts());
    let _c = add_ball(&mut w, 5000, 1000, contacts());
    assert_eq!(w.update(), Ok(()));
    let groups = CollisionGroups::new();
    let p = Vector::new(750, 0, 0);
    let mut it = w.interferences_with_point(&p, &groups);
    assert_eq!(it.next().unwrap().handle(), a);
    assert_eq!(it.next().unwrap().handle(), b);
    assert!(it.next().is_none());
    // In the box of the first ball, but not in the ball.
    let corner = Vector::new(-900, -900, -900);
    let mut it = w.interferences_with_point(&corner, &groups);
    assert!(it.next().is_none());
}

#[test]
fn box_query_filters_by_groups() {
    let mut w = world();
    let mut hidden = CollisionGroups::new();
    hidden.modify_membership(0, false);
    let a = add_ball(&mut w, 0, 1000, contacts());
    let _b = w.add(at(1500, 0, 0), Ball { radius: 1000 }, hidden, contacts(), 0);
    let _c = add_ball(&mut w, 9000, 1000, contacts());
    assert_eq!(w.update(), Ok(()));
    let mut only_zero = CollisionGroups::new();
    for g in 1..30 {
        only_zero.modify_whitelist(g, false);
    }
    let query = AABB::new(Vector::new(-100, -100, -100), Vector::new(2000, 100, 100));
    let mut it = w.interferences_with_aabb(&query, &only_zero);
    assert_eq!(it.next().unwrap().handle(), a);
    assert!(it.next().is_none());
    let all = CollisionGroups::new();
    let mut n = 0;
    let mut it = w.interferences_with_aabb(&query, &all);
    while it.next().is_some() {
        n += 1;
    }
    assert_eq!(n, 2);
}

#[test]
fn graph_queries_by_object() {
    let mut w = world();
    let a = add_ball(&mut w, 0, 1000, contacts());
    let b = add_ball(&mut w, 1900, 1000, contacts());
    let c = add_ball(&mut w, -2050, 1000, contacts());
    let d = add_ball(&mut w, 0, 500, GeometricQueryType::Proximity(500));
    assert_eq!(w.update(), Ok(()));
    assert_eq!(w.interaction_pairs(false).len(), 5);
    assert_eq!(w.interaction_pairs(true).len(), 4);
    assert_eq!(w.contact_pairs(false).len(), 2);
    let touching = w.contact_pairs(true);
    assert_eq!(touching.len(), 1);
    assert_eq!((touching[0].0, touching[0].1), (a, b));
    assert_eq!(touching[0].3.len(), 1);
    assert_eq!(w.proximity_pairs(false).len(), 3);
    let near = w.proximity_pairs(true);
    assert_eq!(near.len(), 3);
    for pair in near.iter() {
        let expected = if pair.0 == a { Proximity::Intersecting } else { Proximity::WithinMargin };
        assert_eq!(pair.3, expected);
        assert_eq!(pair.1, d);
    }

    assert_eq!(w.interactions_with(a, false).unwrap().len(), 3);
    assert_eq!(w.interactions_with(a, true).unwrap().len(), 2);
    assert_eq!(w.contacts_with(a, false).unwrap().len(), 2);
    assert_eq!(w.contacts_with(a, true).unwrap().len(), 1);
    assert_eq!(w.contacts_with(c, true).unwrap().len(), 0);
    assert_eq!(w.proximities_with(d, true).unwrap().len(), 3);
    assert_eq!(w.proximities_with(a, false).unwrap().len(), 1);
    assert_eq!(w.interactions_with_mut(c).unwrap().len(), 2);
    assert!(w.interactions_with(CollisionObjectHandle(40), false).is_none());

    // The edges stand in the order in which the broad phase found the pairs.
    let mut with_a = w.collision_objects_interacting_with(a).unwrap();
    with_a.sort_by_key(|h| h.uid());
    assert_eq!(with_a, vec![b, d]);
    assert_eq!(w.collision_objects_in_contact_with(a).unwrap(), vec![b]);
    assert_eq!(w.collision_objects_in_contact_with(c).unwrap(), vec![]);
    let mut near_d = w.collision_objects_in_proximity_of(d).unwrap();
    near_d.sort_by_key(|h| h.uid());
    assert_eq!(near_d, vec![a, b, c]);
    assert!(w.collision_objects_in_proximity_of(CollisionObjectHandle(40)).is_none());

    assert!(w.interaction_pair(a, b, true).is_some());
    assert!(w.interaction_pair(b, a, true).is_some());
    assert!(w.interaction_pair(a, c, false).is_some());
    assert!(w.interaction_pair(a, c, true).is_none());
    assert!(w.interaction_pair(b, c, false).is_none());
    assert!(w.contact_pair(a, b, true).is_some());
    assert!(w.contact_pair(a, d, false).is_none());
    assert!(w.proximity_pair(a, d, true).is_some());
    assert!(w.proximity_pair(a, b, false).is_none());
    assert!(w.proximity_pair(a, CollisionObjectHandle(40), false).is_none());
}

#[test]
fn collision_objects_are_listed_by_handle() {
    let mut w = world();
    let a = add_ball(&mut w, 0, 1000, contacts());
    let b = add_ball(&mut w, 5000, 1000, contacts());
    let c = add_ball(&mut w, 9000, 1000, contacts());
    w.remove(&[b]);
    let listed: Vec<CollisionObjectHandle> = w.collision_objects().iter().map(|co| co.handle()).collect();
    assert_eq!(listed, vec![a, c]);
    *w.collision_object_mut(c).unwrap() = 7;
    assert_eq!(*w.collision_object(c).unwrap().data(), 7);
    assert!(w.collision_object_mut(b).is_none());
}

#[test]
fn pair_of_objects_can_be_changed_at_once() {
    let mut w = world();
    let a = add_ball(&mut w, 0, 1000, contacts());
    let b = add_ball(&mut w, 5000, 1000, contacts());
    {
        let (x, y) = w.collision_object_pair_mut(b, a);
        *x.unwrap() = 5;
        *y.unwrap() = 6;
    }
    assert_eq!(*w.collision_object(a).unwrap().data(), 6);
    assert_eq!(*w.collision_object(b).unwrap().data(), 5);
    {
        let (x, y) = w.collision_object_pair_mut(CollisionObjectHandle(9), a);
        assert!(x.is_none());
        *y.unwrap() = 7;
    }
    {
        let (x, y) = w.collision_object_pair_mut(b, CollisionObjectHandle(9));
        assert!(y.is_none());
        assert_eq!(*x.unwrap(), 5);
    }
    let (x, y) = w.collision_object_pair_mut(CollisionObjectHandle(8), CollisionObjectHandle(9));
    assert!(x.is_none() && y.is_none());
    // The world is as sound as before: a step runs and the links hold.
    assert_eq!(w.update(), Ok(()));
    for h in [a, b] {
        let co = w.collision_object(h).unwrap();
        assert_eq!(co.handle(), h);
        assert_eq!(w.interactions().node_weight(co.graph_index()), Some(h));
    }
}

#[test]
fn many_objects_pair_as_a_scan_would() {
    let mut w = world();
    let mut xs = Vec::new();
    let mut seed: i64 = 777;
    for _ in 0..60 {
        seed = (seed * 1103515245 + 12345) % 2147483648;
        let x = seed % 40_000;
        xs.push(x);
        add_ball(&mut w, x, 1000, contacts());
    }
    assert_eq!(w.update(), Ok(()));
    // Boxes are loosened by 100 and fattened by 20 on each side.
    let mut expected = 0;
    let mut touching = 0;
    for i in 0..xs.len() {
        for j in (i + 1)..xs.len() {
            if (xs[i] - xs[j]).abs() <= 2 * (1000 + 100 + 20) {
                expected += 1;
            }
            if (xs[i] - xs[j]).abs() < 2000 {
                touching += 1;
            }
        }
    }
    assert_eq!(w.interactions().edge_count(), expected);
    assert_eq!(w.contact_events().len(), touching);
    assert_eq!(w.narrow_phase().contact_id_count(), touching);
    // Every second ball leaves.
    let gone: Vec<CollisionObjectHandle> = (0..xs.len()).step_by(2).map(CollisionObjectHandle).collect();
    w.remove(&gone);
    let mut left = 0;
    for i in (1..xs.len()).step_by(2) {
        for j in ((i + 2)..xs.len()).step_by(2) {
            if (xs[i] - xs[j]).abs() <= 2 * (1000 + 100 + 20) {
                left += 1;
            }
        }
    }
    assert_eq!(w.interactions().edge_count(), left);
    assert_eq!(w.interactions().node_count(), xs.len() / 2);
    for co in w.collision_objects() {
        assert_eq!(w.interactions().node_weight(co.graph_index()), Some(co.handle()));
        assert_eq!(w.broad_phase().proxy(co.proxy_handle()).map(|p| *p.1), Some(co.handle()));
    }
    assert_eq!(w.update(), Ok(()));
    assert_eq!(w.contact_events().len(), 0);
}

fn scattered(n: usize) -> (World, Vec<CollisionObjectHandle>) {
    let mut w = world();
    let mut handles = Vec::new();
    let mut seed: i64 = 4242;
    for i in 0..n {
        seed = (seed * 1103515245 + 12345) % 2147483648;
        let query = if i % 3 == 0 { GeometricQueryType::Proximity(300) } else { contacts() };
        handles.push(add_ball(&mut w, seed % 20_000, 1000, query));
    }
    (w, handles)
}

fn shake(w: &mut World, handles: &[CollisionObjectHandle], steps: usize) -> Vec<(Vec<ContactEvent>, Vec<ProximityEvent>)> {
    let mut seed: i64 = 99;
    let mut seen = Vec::new();
    for _ in 0..steps {
        for h in handles.iter().step_by(4) {
            seed = (seed * 1103515245 + 12345) % 2147483648;
            w.set_position(*h, at(seed % 20_000, 0, 0));
        }
        assert_eq!(w.update(), Ok(()));
        seen.push((contact_events(w), proximity_events(w)));
    }
    seen
}

#[test]
fn edges_join_two_different_objects_of_the_world() {
    let (mut w, handles) = scattered(40);
    let _ = shake(&mut w, &handles, 3);
    w.remove(&handles[..10]);
    let _ = shake(&mut w, &handles[10..], 2);
    assert!(w.interactions().edge_count() > 0);
    for (h1, h2, _) in w.interaction_pairs(false) {
        assert!(h1 != h2);
        assert!(w.collision_object(h1).is_some());
        assert!(w.collision_object(h2).is_some());
        assert!(!handles[..10].contains(&h1) && !handles[..10].contains(&h2));
    }
}

#[test]
fn pool_holds_exactly_the_identifiers_of_the_contacts() {
    let (mut w, handles) = scattered(40);
    for _ in 0..4 {
        let _ = shake(&mut w, &handles, 1);
        let mut ids = Vec::new();
        for (_, _, _, manifold) in w.contact_pairs(false) {
            for c in manifold.contacts() {
                assert!(!c.id.is_null());
                ids.push(c.id.bits);
            }
        }
        let found = ids.len();
        ids.sort();
        ids.dedup();
        assert_eq!(ids.len(), found);
        assert_eq!(w.narrow_phase().contact_id_count(), found);
    }
}

#[test]
fn same_steps_raise_the_same_events_in_the_same_order() {
    let (mut w1, h1) = scattered(30);
    let (mut w2, h2) = scattered(30);
    assert_eq!(h1, h2);
    let first = shake(&mut w1, &h1, 5);
    let second = shake(&mut w2, &h2, 5);
    assert_eq!(first, second);
    assert!(first.iter().any(|(c, p)| !c.is_empty() && !p.is_empty()));
}

#[test]
fn narrow_phase_is_replaced_only_where_its_pool_holds_the_identifiers() {
    let mut w = world();
    let _a = add_ball(&mut w, 0, 1000, contacts());
    let _b = add_ball(&mut w, 1900, 1000, contacts());
    assert!(w.try_set_narrow_phase(NarrowPhase::with_contact_id_limit(Dispatcher, Dispatcher, 5)));
    assert_eq!(w.update(), Ok(()));
    assert_eq!(w.narrow_phase().contact_id_count(), 1);
    assert!(w.narrow_phase().holds_ids_of(w.interactions()));
    // The contact of the graph has an identifier that a new pool lacks.
    assert!(!NarrowPhase::new(Dispatcher, Dispatcher).holds_ids_of(w.interactions()));
    assert!(!w.try_set_narrow_phase(NarrowPhase::new(Dispatcher, Dispatcher)));
    assert_eq!(w.narrow_phase().contact_id_count(), 1);
    assert_eq!(w.contact_events().len(), 1);
    assert_eq!(w.update(), Ok(()));
    assert_eq!(w.interactions().edge_count(), 1);
}

#[test]
fn mixed_pair_gets_one_proximity_edge_without_events() {
    let mut w = world();
    let a = add_ball(&mut w, 0, 1000, contacts());
    let b = add_ball(&mut w, 1900, 1000, GeometricQueryType::Proximity(100));
    w.perform_broad_phase();
    assert_eq!(w.interactions().edge_count(), 1);
    assert_eq!(w.contact_events().len(), 0);
    assert_eq!(w.proximity_events().len(), 0);
    let pairs = w.proximity_pairs(false);
    assert_eq!(pairs.len(), 1);
    assert_eq!((pairs[0].0, pairs[0].1, pairs[0].3), (a, b, Proximity::Disjoint));
    assert_eq!(w.contact_pairs(false).len(), 0);
}

#[test]
fn touched_proximity_edge_holds_what_its_detector_found() {
    let mut w = world();
    let a = add_ball(&mut w, 0, 500, GeometricQueryType::Proximity(500));
    let b = add_ball(&mut w, 1800, 500, GeometricQueryType::Proximity(500));
    let c = add_ball(&mut w, -1800, 500, GeometricQueryType::Proximity(500));
    assert_eq!(w.update(), Ok(()));
    assert_eq!(w.proximity_pairs(true).len(), 2);
    // Only `b` moves: the edge of `a` and `c` is not looked at.
    w.set_position(b, at(500, 0, 0));
    assert_eq!(w.update(), Ok(()));
    for pair in w.proximity_pairs(false) {
        let expected = if pair.1 == b { Proximity::Intersecting } else { Proximity::WithinMargin };
        assert_eq!(pair.3, expected);
        assert_eq!(pair.2.proximity(), pair.3);
        assert_eq!(pair.0, a);
    }
    assert_eq!(
        proximity_events(&w),
        vec![ProximityEvent::new(a, b, Proximity::WithinMargin, Proximity::Intersecting)]
    );
    let _ = c;
}

#[test]
fn touched_contact_edge_holds_what_its_generator_found() {
    let mut w = world();
    let a = add_ball(&mut w, 0, 1000, contacts());
    let b = add_ball(&mut w, 1900, 1000, contacts());
    let c = add_ball(&mut w, -1900, 1000, contacts());
    assert_eq!(w.update(), Ok(()));
    assert_eq!(w.contact_pairs(true).len(), 2);
    // Only `b` moves: the contact of `a` and `c` stays as it was.
    w.set_position(b, at(1600, 0, 0));
    assert_eq!(w.update(), Ok(()));
    let prediction = ContactPrediction::new(200, 0, 0);
    for i in 0..2 {
        let (n1, n2) = w.interactions().edge_endpoints(TemporaryInteractionIndex(i)).unwrap();
        let h1 = w.interactions().node_weight(n1).unwrap();
        let h2 = w.interactions().node_weight(n2).unwrap();
        let (o1, o2) = (w.collision_object(h1).unwrap(), w.collision_object(h2).unwrap());
        let points =
            BallBall.found(&Dispatcher, o1.position(), o1.shape(), o2.position(), o2.shape(), &prediction);
        assert_eq!(points.len(), 1);
        let expected = if h1 == b || h2 == b { 400 } else { 100 };
        assert_eq!(points[0].contact.depth, expected);
        match w.interactions().edge_weight(TemporaryInteractionIndex(i)) {
            Some(Interaction::Contact(_, m)) => {
                assert_eq!(m.len(), 1);
                assert_eq!(m.contact(0).contact, points[0].contact);
                assert_eq!(m.contact(0).feature1, points[0].feature1);
                assert_eq!(m.contact(0).feature2, points[0].feature2);
            }
            _ => panic!("no contact edge"),
        }
    }
    let _ = (a, c);
}

#[test]
fn pool_shrinks_by_what_only_the_removed_object_held() {
    let mut w = world();
    let a = add_ball(&mut w, 0, 1000, contacts());
    let b = add_ball(&mut w, 1500, 1000, contacts());
    let c = add_ball(&mut w, -1500, 1000, contacts());
    let d = add_ball(&mut w, 3000, 1000, contacts());
    assert_eq!(w.update(), Ok(()));
    assert_eq!(w.interactions().edge_count(), 3);
    assert_eq!(w.narrow_phase().contact_id_count(), 3);
    let kept: Vec<_> = w
        .contact_pairs(true)
        .into_iter()
        .filter(|pair| pair.0 != a && pair.1 != a)
        .map(|pair| (pair.0, pair.1, pair.3.contact(0).id))
        .collect();
    assert_eq!(kept.len(), 1);
    assert_eq!((kept[0].0, kept[0].1), (b, d));

    w.remove(&[a]);
    // The edge between the two objects that stay is still there, with its
    // contact; the identifiers leave the pool at the next step.
    assert_eq!(w.interactions().edge_count(), 1);
    assert_eq!(w.narrow_phase().contact_id_count(), 3);
    assert_eq!(w.update(), Ok(()));
    assert_eq!(w.contact_events().len(), 0);
    assert_eq!(w.narrow_phase().contact_id_count(), 1);
    let pairs = w.contact_pairs(true);
    assert_eq!(pairs.len(), 1);
    assert_eq!((pairs[0].0, pairs[0].1, pairs[0].3.contact(0).id), kept[0]);
    let _ = c;
}

#[test]
fn interaction_can_be_changed_together_with_the_narrow_phase() {
    let mut w = world();
    let a = add_ball(&mut w, 0, 1000, contacts());
    let b = add_ball(&mut w, 1500, 1000, contacts());
    assert_eq!(w.update(), Ok(()));
    assert_eq!(w.contact_pairs(true).len(), 1);
    assert_eq!(w.narrow_phase().contact_id_count(), 1);
    let list = w.interactions_with_mut(a).unwrap();
    assert_eq!(list.len(), 1);
    assert_eq!((list[0].0, list[0].1), (a, b));
    {
        let (narrow_phase, interaction) = w.interaction_mut(list[0].2);
        match interaction {
            Interaction::Contact(_, manifold) => {
                assert_eq!(narrow_phase.refresh_manifold(a, b, manifold, &Vec::new()), Ok(()));
            }
            _ => panic!("no contact edge"),
        }
    }
    assert!(w.interactions_hold());
    assert_eq!(contact_events(&w), vec![ContactEvent::Started(a, b), ContactEvent::Stopped(a, b)]);
    assert_eq!(w.contact_pairs(true).len(), 0);
    assert_eq!(w.contact_pairs(false).len(), 1);
    // The next step that looks at the pair finds the contact again.
    w.set_position(a, at(0, 0, 0));
    assert_eq!(w.update(), Ok(()));
    assert_eq!(contact_events(&w), vec![ContactEvent::Started(a, b)]);
    assert_eq!(w.narrow_phase().contact_id_count(), 1);
}

#[test]
fn world_tells_a_changed_interaction_that_does_not_hold() {
    let mut w = world();
    let a = add_ball(&mut w, 0, 500, GeometricQueryType::Proximity(500));
    let b = add_ball(&mut w, 1200, 500, GeometricQueryType::Proximity(500));
    assert_eq!(w.update(), Ok(()));
    let list = w.interactions_with_mut(b).unwrap();
    assert_eq!(list.len(), 1);
    assert!(w.interactions_hold());
    {
        let (_, interaction) = w.interaction_mut(list[0].2);
        match interaction {
            Interaction::Proximity(_, status) => {
                assert_eq!(*status, Proximity::WithinMargin);
                *status = Proximity::Intersecting;
            }
            _ => panic!("no proximity edge"),
        }
    }
    assert!(!w.interactions_hold());
    {
        let (_, interaction) = w.interaction_mut(list[0].2);
        match interaction {
            Interaction::Proximity(detector, status) => *status = detector.proximity(),
            _ => panic!("no proximity edge"),
        }
    }
    assert!(w.interactions_hold());
    let _ = a;
}
