use ncollide::bounding_volume::{HasBoundingVolume, AABB};
use ncollide::broad_phase::BroadPhaseProxyHandle;
use ncollide::collision_groups::CollisionGroups;
use ncollide::collision_object::{CollisionObject, CollisionObjectHandle, CollisionObjectSlab};
use ncollide::contact::{Contact, ContactManifold, ContactPoint, FeatureId};
use ncollide::detector::{
    ContactDispatcher, ContactManifoldGenerator, ProximityDetector, ProximityDispatcher,
};
use ncollide::events::{ContactEvent, ProximityEvent};
use ncollide::interaction_graph::{
    CollisionObjectGraphIndex, Interaction, InteractionGraph, TemporaryInteractionIndex,
};
use ncollide::math::{Isometry, Point, Rotation, Vector};
use ncollide::narrow_phase::{CollisionError, NarrowPhase};
use ncollide::query::{ContactPrediction, GeometricQueryType, Proximity};
use ncollide::shape::{Ray, RayIntersection, Shape};

// A shape that says how many contacts its pairs have: the sum of the two
// numbers. A negative number stands for a shape that has no detector.
#[derive(Clone, Copy, PartialEq, Debug)]
struct Count(i64);

impl HasBoundingVolume<AABB> for Count {
    fn volume_at(&self, m: Isometry) -> AABB {
        self.bounding_volume(&m)
    }

    fn local_volume(&self) -> AABB {
        self.local_bounding_volume()
    }

    fn bounding_volume(&self, m: &Isometry) -> AABB {
        AABB::new(m.translation, m.translation)
    }

    fn local_bounding_volume(&self) -> AABB {
        AABB::new(Vector::zero(), Vector::zero())
    }
}

impl Shape for Count {
    fn holds_point(&self, _m: Isometry, _point: Point) -> bool {
        false
    }

    fn ray_hit(&self, _m: Isometry, _ray: Ray, _solid: bool) -> Option<RayIntersection> {
        None
    }

    fn contains_point(&self, _m: &Isometry, _point: &Point) -> bool {
        false
    }

    fn toi_and_normal_with_ray(&self, _m: &Isometry, _ray: &Ray, _solid: bool) -> Option<RayIntersection> {
        None
    }

    fn deformed(&self, _coords: &[i64]) -> Count {
        *self
    }

    fn set_deformations(&mut self, _coords: &[i64]) {}
}

struct Dispatcher;

struct Counter {
    last_prediction: Option<ContactPrediction>,
}

struct Near {
    last: Proximity,
    last_margin: i64,
}

impl ContactManifoldGenerator<Count, Dispatcher> for Counter {
    fn init_manifold(&self) -> ContactManifold {
        ContactManifold::new()
    }

    fn found(
        &self,
        dispatcher: &Dispatcher,
        m1: &Isometry,
        shape1: &Count,
        m2: &Isometry,
        shape2: &Count,
        prediction: &ContactPrediction,
    ) -> Vec<ContactPoint> {
        let mut next = Counter { last_prediction: self.last_prediction };
        next.generate_contacts(dispatcher, m1, shape1, m2, shape2, prediction)
    }

    fn generated(
        &self,
        dispatcher: &Dispatcher,
        m1: &Isometry,
        shape1: &Count,
        m2: &Isometry,
        shape2: &Count,
        prediction: &ContactPrediction,
    ) -> Counter {
        let mut next = Counter { last_prediction: self.last_prediction };
        next.generate_contacts(dispatcher, m1, shape1, m2, shape2, prediction);
        next
    }

    fn generate_contacts(
        &mut self,
        _dispatcher: &Dispatcher,
        _m1: &Isometry,
        shape1: &Count,
        _m2: &Isometry,
        shape2: &Count,
        prediction: &ContactPrediction,
    ) -> Vec<ContactPoint> {
        self.last_prediction = Some(*prediction);
        (0..(shape1.0 + shape2.0).max(0) as usize)
            .map(|i| ContactPoint {
                contact: Contact::new(Vector::zero(), Vector::zero(), Vector::new(0, 0, 1), i as i64),
                feature1: FeatureId::Face(i),
                feature2: FeatureId::Face(i),
            })
            .collect()
    }
}

impl ProximityDetector<Count, Dispatcher> for Near {
    fn status(&self) -> Proximity {
        self.proximity()
    }

    fn updated(
        &self,
        dispatcher: &Dispatcher,
        m1: &Isometry,
        shape1: &Count,
        m2: &Isometry,
        shape2: &Count,
        margin: i64,
    ) -> Near {
        let mut next = Near { last: self.last, last_margin: self.last_margin };
        next.update(dispatcher, m1, shape1, m2, shape2, margin);
        next
    }

    fn update(
        &mut self,
        _dispatcher: &Dispatcher,
        _m1: &Isometry,
        shape1: &Count,
        _m2: &Isometry,
        shape2: &Count,
        margin: i64,
    ) {
        self.last_margin = margin;
        self.last = match shape1.0 + shape2.0 {
            0 => Proximity::Disjoint,
            1 => Proximity::WithinMargin,
            _ => Proximity::Intersecting,
        };
    }

    fn proximity(&self) -> Proximity {
        self.last
    }
}

impl ContactDispatcher<Count> for Dispatcher {
    type Algorithm = Counter;

    fn contact_algorithm(&self, shape1: &Count, shape2: &Count) -> Option<Counter> {
        self.get_contact_algorithm(shape1, shape2)
    }

    fn get_contact_algorithm(&self, shape1: &Count, shape2: &Count) -> Option<Counter> {
        if shape1.0 < 0 || shape2.0 < 0 {
            None
        } else {
            Some(Counter { last_prediction: None })
        }
    }
}

impl ProximityDispatcher<Count> for Dispatcher {
    type Algorithm = Near;

    fn proximity_algorithm(&self, shape1: &Count, shape2: &Count) -> Option<Near> {
        self.get_proximity_algorithm(shape1, shape2)
    }

    fn get_proximity_algorithm(&self, shape1: &Count, shape2: &Count) -> Option<Near> {
        if shape1.0 < 0 || shape2.0 < 0 {
            None
        } else {
            // A detector for the shape 7 begins within the margin.
            let last = if shape1.0 == 7 || shape2.0 == 7 {
                Proximity::WithinMargin
            } else {
                Proximity::Disjoint
            };
            Some(Near { last, last_margin: 0 })
        }
    }
}

type Np = NarrowPhase<Dispatcher, Dispatcher>;
type Graph = InteractionGraph<Counter, Near>;
type Slab = CollisionObjectSlab<Count, ()>;

fn h(i: usize) -> CollisionObjectHandle {
    CollisionObjectHandle(i)
}

fn point(i: usize) -> ContactPoint {
    ContactPoint {
        contact: Contact::new(Vector::zero(), Vector::zero(), Vector::new(0, 0, 1), 1),
        feature1: FeatureId::Face(i),
        feature2: FeatureId::Face(i),
    }
}

// Objects with handle, node and proxy of the same number.
fn setup(shapes: &[(i64, GeometricQueryType)]) -> (Np, Graph, Slab) {
    let mut np = Np::new(Dispatcher, Dispatcher);
    let mut graph = Graph::new();
    let mut slab = Slab::new();
    for (i, (count, query)) in shapes.iter().enumerate() {
        let co = CollisionObject::new(
            h(i),
            BroadPhaseProxyHandle(i),
            CollisionObjectGraphIndex::new(i),
            Isometry::new(Vector::zero(), Rotation::identity()),
            Count(*count),
            CollisionGroups::new(),
            *query,
            (),
        );
        assert_eq!(slab.insert(co), h(i));
        assert_eq!(np.handle_collision_object_added(&mut graph, h(i)).index(), i);
    }
    (np, graph, slab)
}

fn contacts(l: i64) -> GeometricQueryType {
    GeometricQueryType::Contacts(l, 1)
}

fn contact_events(np: &Np) -> Vec<ContactEvent> {
    np.contact_events().as_slice().to_vec()
}

fn proximity_events(np: &Np) -> Vec<ProximityEvent> {
    np.proximity_events().as_slice().to_vec()
}

#[test]
fn refresh_gives_every_contact_an_identifier() {
    let mut np = Np::new(Dispatcher, Dispatcher);
    let mut m = ContactManifold::new();
    assert_eq!(np.refresh_manifold(h(0), h(1), &mut m, &vec![point(0), point(1)]), Ok(()));
    assert_eq!(m.len(), 2);
    let (id0, id1) = (m.contact(0).id, m.contact(1).id);
    assert!(!id0.is_null() && !id1.is_null() && id0 != id1);
    assert_eq!(np.contact_id_count(), 2);
    assert_eq!(contact_events(&np), vec![ContactEvent::Started(h(0), h(1))]);

    // The contact on feature 1 lasts, one is new, one is gone.
    assert_eq!(np.refresh_manifold(h(0), h(1), &mut m, &vec![point(2), point(1)]), Ok(()));
    assert_eq!(m.contact(1).id, id1);
    let id2 = m.contact(0).id;
    assert!(!id2.is_null() && id2 != id0 && id2 != id1);
    assert_eq!(np.contact_id_count(), 3);
    assert_eq!(contact_events(&np).len(), 1);

    assert_eq!(np.refresh_manifold(h(0), h(1), &mut m, &Vec::new()), Ok(()));
    assert_eq!(m.len(), 0);
    assert_eq!(
        contact_events(&np),
        vec![ContactEvent::Started(h(0), h(1)), ContactEvent::Stopped(h(0), h(1))]
    );
    assert_eq!(np.refresh_manifold(h(0), h(1), &mut m, &Vec::new()), Ok(()));
    assert_eq!(contact_events(&np).len(), 2);
    np.clear_events();
    assert_eq!(contact_events(&np), vec![]);
    assert_eq!(np.contact_id_count(), 3);
}

#[test]
fn refresh_fails_without_room_and_changes_nothing() {
    let mut np = Np::with_contact_id_limit(Dispatcher, Dispatcher, 2);
    let mut m = ContactManifold::new();
    assert_eq!(np.refresh_manifold(h(0), h(1), &mut m, &vec![point(0)]), Ok(()));
    let id = m.contact(0).id;
    assert_eq!(
        np.refresh_manifold(h(0), h(1), &mut m, &vec![point(0), point(1)]),
        Err(CollisionError::ContactIdsExhausted)
    );
    assert_eq!(m.len(), 1);
    assert_eq!(m.contact(0).id, id);
    assert_eq!(np.contact_id_count(), 1);
    assert_eq!(contact_events(&np).len(), 1);
    assert_eq!(np.refresh_manifold(h(0), h(1), &mut m, &vec![point(7)]), Ok(()));
    assert_eq!(np.contact_id_count(), 2);
}

#[test]
fn record_proximity_raises_an_event_on_change() {
    let mut np = Np::new(Dispatcher, Dispatcher);
    let mut status = Proximity::Disjoint;
    np.record_proximity(h(0), h(1), &mut status, Proximity::Disjoint);
    assert_eq!(proximity_events(&np), vec![]);
    np.record_proximity(h(0), h(1), &mut status, Proximity::Intersecting);
    assert_eq!(status, Proximity::Intersecting);
    np.record_proximity(h(0), h(1), &mut status, Proximity::Intersecting);
    np.record_proximity(h(0), h(1), &mut status, Proximity::WithinMargin);
    assert_eq!(
        proximity_events(&np),
        vec![
            ProximityEvent::new(h(0), h(1), Proximity::Disjoint, Proximity::Intersecting),
            ProximityEvent::new(h(0), h(1), Proximity::Intersecting, Proximity::WithinMargin),
        ]
    );
}

#[test]
fn update_contact_runs_the_generator_with_the_prediction_of_the_pair() {
    let (mut np, _graph, slab) = setup(&[(1, contacts(100)), (1, contacts(250)), (0, GeometricQueryType::Proximity(5))]);
    let mut detector = Counter { last_prediction: None };
    let mut m = ContactManifold::new();
    assert_eq!(np.update_contact(slab.object(h(0)), slab.object(h(1)), &mut detector, &mut m), Ok(()));
    assert_eq!(detector.last_prediction, Some(ContactPrediction::new(350, 1, 1)));
    assert_eq!(m.len(), 2);
    assert_eq!(contact_events(&np), vec![ContactEvent::Started(h(0), h(1))]);
    // A pair of which one object does not ask for contacts is turned away
    // before the generator is run.
    let mut edge = Interaction::Contact(Counter { last_prediction: None }, m);
    for (first, second) in [(0, 2), (2, 0), (2, 2)] {
        assert_eq!(
            np.update_interaction(slab.object(h(first)), slab.object(h(second)), &mut edge),
            Err(CollisionError::IncompatibleQueryTypes)
        );
    }
    match &edge {
        Interaction::Contact(other, m) => {
            assert_eq!(other.last_prediction, None);
            assert_eq!(m.len(), 2);
        }
        _ => panic!("not a contact"),
    }
    assert_eq!(contact_events(&np).len(), 1);
    assert_eq!(np.contact_id_count(), 2);
}

#[test]
fn update_proximity_uses_the_sum_of_the_limits_as_margin() {
    let (mut np, _graph, slab) = setup(&[(1, contacts(100)), (0, GeometricQueryType::Proximity(30))]);
    let mut detector = Near { last: Proximity::Disjoint, last_margin: 0 };
    np.update_proximity(slab.object(h(0)), slab.object(h(1)), &mut detector);
    assert_eq!(detector.last_margin, 130);
    let status = detector.proximity();
    assert_eq!(status, Proximity::WithinMargin);
    assert_eq!(
        proximity_events(&np),
        vec![ProximityEvent::new(h(0), h(1), Proximity::Disjoint, Proximity::WithinMargin)]
    );
    let mut w = Interaction::Proximity(detector, status);
    assert_eq!(np.update_interaction(slab.object(h(0)), slab.object(h(1)), &mut w), Ok(()));
    assert_eq!(proximity_events(&np).len(), 1);
    let mut c = Interaction::Contact(Counter { last_prediction: None }, ContactManifold::new());
    assert_eq!(
        np.update_interaction(slab.object(h(0)), slab.object(h(1)), &mut c),
        Err(CollisionError::IncompatibleQueryTypes)
    );
    assert_eq!(np.update_interaction(slab.object(h(0)), slab.object(h(0)), &mut c), Ok(()));
    assert_eq!(contact_events(&np), vec![ContactEvent::Started(h(0), h(0))]);
}

#[test]
fn started_pair_gets_an_edge_of_the_right_kind_without_event() {
    let (mut np, mut graph, slab) =
        setup(&[(1, contacts(1)), (1, contacts(1)), (1, GeometricQueryType::Proximity(1)), (-1, contacts(1))]);
    np.handle_interaction(&mut graph, &slab, h(1), h(0), true);
    assert_eq!(graph.edge_count(), 1);
    assert_eq!(
        graph.edge_endpoints(TemporaryInteractionIndex(0)),
        Some((CollisionObjectGraphIndex::new(0), CollisionObjectGraphIndex::new(1)))
    );
    assert!(graph.edge_weight(TemporaryInteractionIndex(0)).unwrap().is_contact());
    assert!(!graph.edge_weight(TemporaryInteractionIndex(0)).unwrap().is_effective());
    // A second start of the same pair, and a start of a pair of one, change nothing.
    np.handle_interaction(&mut graph, &slab, h(0), h(1), true);
    np.handle_interaction(&mut graph, &slab, h(1), h(1), true);
    assert_eq!(graph.edge_count(), 1);
    np.handle_interaction(&mut graph, &slab, h(0), h(2), true);
    assert_eq!(graph.edge_count(), 2);
    match graph.edge_weight(TemporaryInteractionIndex(1)).unwrap() {
        Interaction::Proximity(_, status) => assert_eq!(*status, Proximity::Disjoint),
        _ => panic!("not a proximity"),
    }
    // No detector for this pair: no edge.
    np.handle_interaction(&mut graph, &slab, h(0), h(3), true);
    np.handle_interaction(&mut graph, &slab, h(2), h(3), true);
    assert_eq!(graph.edge_count(), 2);
    assert_eq!(contact_events(&np), vec![]);
    assert_eq!(proximity_events(&np), vec![]);
}

#[test]
fn stopped_pair_loses_its_edge_and_tells_what_it_held() {
    let (mut np, mut graph, slab) =
        setup(&[(1, contacts(1)), (1, contacts(1)), (1, GeometricQueryType::Proximity(1)), (0, contacts(1))]);
    np.handle_interaction(&mut graph, &slab, h(0), h(1), true);
    np.handle_interaction(&mut graph, &slab, h(0), h(2), true);
    np.handle_interaction(&mut graph, &slab, h(0), h(3), true);
    np.handle_interaction(&mut graph, &slab, h(2), h(3), true);
    assert_eq!(np.update(&mut graph, &slab, 0), Ok(()));
    assert_eq!(contact_events(&np), vec![ContactEvent::Started(h(0), h(1)), ContactEvent::Started(h(0), h(3))]);
    assert_eq!(
        proximity_events(&np),
        vec![
            ProximityEvent::new(h(0), h(2), Proximity::Disjoint, Proximity::Intersecting),
            ProximityEvent::new(h(2), h(3), Proximity::Disjoint, Proximity::WithinMargin),
        ]
    );
    np.clear_events();
    np.handle_interaction(&mut graph, &slab, h(1), h(0), false);
    assert_eq!(contact_events(&np), vec![ContactEvent::Stopped(h(0), h(1))]);
    np.handle_interaction(&mut graph, &slab, h(1), h(0), false);
    np.handle_interaction(&mut graph, &slab, h(1), h(2), false);
    assert_eq!(contact_events(&np).len(), 1);
    np.handle_interaction(&mut graph, &slab, h(2), h(0), false);
    assert_eq!(
        proximity_events(&np),
        vec![ProximityEvent::new(h(0), h(2), Proximity::Intersecting, Proximity::Disjoint)]
    );
    assert_eq!(graph.edge_count(), 2);
}

#[test]
fn stopping_an_edge_without_contact_is_silent() {
    let (mut np, mut graph, slab) = setup(&[(0, contacts(1)), (0, contacts(1)), (0, GeometricQueryType::Proximity(1))]);
    np.handle_interaction(&mut graph, &slab, h(0), h(1), true);
    np.handle_interaction(&mut graph, &slab, h(1), h(2), true);
    assert_eq!(np.update(&mut graph, &slab, 0), Ok(()));
    np.handle_interaction(&mut graph, &slab, h(0), h(1), false);
    np.handle_interaction(&mut graph, &slab, h(1), h(2), false);
    assert_eq!(graph.edge_count(), 0);
    assert_eq!(contact_events(&np), vec![]);
    assert_eq!(proximity_events(&np), vec![]);
}

#[test]
fn update_looks_only_at_edges_of_changed_objects() {
    let (mut np, mut graph, mut slab) = setup(&[(1, contacts(1)), (1, contacts(1)), (1, contacts(1))]);
    np.handle_interaction(&mut graph, &slab, h(0), h(1), true);
    np.handle_interaction(&mut graph, &slab, h(1), h(2), true);
    slab.get_mut(h(0)).timestamp = 5;
    assert_eq!(np.update(&mut graph, &slab, 5), Ok(()));
    assert_eq!(contact_events(&np), vec![ContactEvent::Started(h(0), h(1))]);
    assert_eq!(np.contact_id_count(), 2);
    assert_eq!(np.update(&mut graph, &slab, 6), Ok(()));
    assert_eq!(contact_events(&np).len(), 1);
    slab.get_mut(h(2)).timestamp = 7;
    assert_eq!(np.update(&mut graph, &slab, 7), Ok(()));
    assert_eq!(contact_events(&np).len(), 2);
    assert_eq!(np.contact_id_count(), 4);
}

#[test]
fn garbage_collection_drops_identifiers_without_contact() {
    let (mut np, mut graph, slab) = setup(&[(1, contacts(1)), (1, contacts(1)), (2, contacts(1))]);
    np.handle_interaction(&mut graph, &slab, h(0), h(1), true);
    np.handle_interaction(&mut graph, &slab, h(1), h(2), true);
    assert_eq!(np.update(&mut graph, &slab, 0), Ok(()));
    assert_eq!(np.contact_id_count(), 5);
    np.garbage_collect_ids(&graph);
    assert_eq!(np.contact_id_count(), 5);
    let _ = graph.remove_edge(TemporaryInteractionIndex(1));
    assert_eq!(np.contact_id_count(), 5);
    np.garbage_collect_ids(&graph);
    assert_eq!(np.contact_id_count(), 2);
    let co = slab.object(h(0));
    assert_eq!(np.handle_collision_object_removed(&mut graph, co), Some(h(2)));
    assert_eq!(graph.edge_count(), 0);
    assert_eq!(graph.node_count(), 2);
    np.garbage_collect_ids(&graph);
    assert_eq!(np.contact_id_count(), 0);
}

#[test]
fn failed_update_leaves_the_later_edges_alone() {
    let (mut np, mut graph, mut slab) = setup(&[(1, contacts(1)), (1, contacts(1)), (1, contacts(1))]);
    np.handle_interaction(&mut graph, &slab, h(0), h(1), true);
    np.handle_interaction(&mut graph, &slab, h(1), h(2), true);
    np.handle_interaction(&mut graph, &slab, h(0), h(2), true);
    slab.get_mut(h(1)).set_query_type(GeometricQueryType::Proximity(1));
    assert_eq!(np.update(&mut graph, &slab, 0), Err(CollisionError::IncompatibleQueryTypes));
    assert_eq!(contact_events(&np), vec![]);
    assert_eq!(np.contact_id_count(), 0);
    slab.get_mut(h(1)).timestamp = 3;
    assert_eq!(np.update(&mut graph, &slab, 1), Ok(()));
    assert_eq!(np.update(&mut graph, &slab, 0), Err(CollisionError::IncompatibleQueryTypes));
}

#[test]
fn deformations_change_the_shape_only() {
    let (_np, _graph, mut slab) = setup(&[(3, contacts(7))]);
    let co = slab.get_mut(h(0));
    co.timestamp = 4;
    co.set_deformations(&[1, 2, 3]);
    assert_eq!(*co.shape(), Count(3).deformed(&[1, 2, 3]));
    assert_eq!(co.handle(), h(0));
    assert_eq!(co.timestamp, 4);
    assert_eq!(co.query_type(), contacts(7));
}

#[test]
fn update_proximity_leaves_the_detector_as_its_update_does() {
    let (mut np, _graph, slab) = setup(&[(1, contacts(100)), (1, GeometricQueryType::Proximity(30))]);
    let start = Near { last: Proximity::Disjoint, last_margin: 0 };
    let expected = start.updated(
        &Dispatcher,
        slab.object(h(0)).position(),
        slab.object(h(0)).shape(),
        slab.object(h(1)).position(),
        slab.object(h(1)).shape(),
        130,
    );
    let mut detector = Near { last: Proximity::Disjoint, last_margin: 0 };
    np.update_proximity(slab.object(h(0)), slab.object(h(1)), &mut detector);
    assert_eq!(detector.last, expected.last);
    assert_eq!(detector.last_margin, expected.last_margin);
    assert_eq!(detector.last_margin, 130);
    assert_eq!(detector.proximity(), Proximity::Intersecting);
    assert_eq!(
        proximity_events(&np),
        vec![ProximityEvent::new(h(0), h(1), Proximity::Disjoint, Proximity::Intersecting)]
    );
}

#[test]
fn update_proximity_takes_the_previous_status_from_the_detector() {
    let (mut np, _graph, slab) = setup(&[(1, contacts(100)), (1, GeometricQueryType::Proximity(30))]);
    let mut detector = Near { last: Proximity::WithinMargin, last_margin: 0 };
    np.update_proximity(slab.object(h(0)), slab.object(h(1)), &mut detector);
    assert_eq!(
        proximity_events(&np),
        vec![ProximityEvent::new(h(0), h(1), Proximity::WithinMargin, Proximity::Intersecting)]
    );
    // What it finds again raises nothing.
    np.update_proximity(slab.object(h(0)), slab.object(h(1)), &mut detector);
    assert_eq!(proximity_events(&np).len(), 1);
}

#[test]
fn update_interaction_goes_by_the_detector_and_keeps_what_it_found() {
    let (mut np, _graph, slab) = setup(&[(1, contacts(100)), (0, GeometricQueryType::Proximity(30))]);
    // The status beside the detector is not what the detector last found.
    let mut w = Interaction::Proximity(
        Near { last: Proximity::Disjoint, last_margin: 0 },
        Proximity::Intersecting,
    );
    assert_eq!(np.update_interaction(slab.object(h(0)), slab.object(h(1)), &mut w), Ok(()));
    assert_eq!(
        proximity_events(&np),
        vec![ProximityEvent::new(h(0), h(1), Proximity::Disjoint, Proximity::WithinMargin)]
    );
    match &w {
        Interaction::Proximity(d, status) => {
            assert_eq!(d.proximity(), Proximity::WithinMargin);
            assert_eq!(*status, Proximity::WithinMargin);
        }
        _ => panic!("not a proximity"),
    }
}

#[test]
fn new_proximity_edge_keeps_what_its_detector_begins_with() {
    let (mut np, mut graph, slab) = setup(&[
        (7, GeometricQueryType::Proximity(1)),
        (1, GeometricQueryType::Proximity(1)),
        (0, GeometricQueryType::Proximity(1)),
    ]);
    np.handle_interaction(&mut graph, &slab, h(0), h(1), true);
    np.handle_interaction(&mut graph, &slab, h(1), h(2), true);
    assert_eq!(graph.edge_count(), 2);
    match graph.edge_weight(TemporaryInteractionIndex(0)).unwrap() {
        Interaction::Proximity(d, status) => {
            assert_eq!(d.proximity(), Proximity::WithinMargin);
            assert_eq!(*status, Proximity::WithinMargin);
        }
        _ => panic!("not a proximity"),
    }
    assert!(graph.edge_weight(TemporaryInteractionIndex(0)).unwrap().is_effective());
    assert!(!graph.edge_weight(TemporaryInteractionIndex(1)).unwrap().is_effective());
    assert!(np.holds_statuses_of::<Count, Counter>(&graph));
    assert_eq!(proximity_events(&np), vec![]);
    // The step goes from what the detector began with to what it finds.
    assert_eq!(np.update(&mut graph, &slab, 0), Ok(()));
    assert_eq!(
        proximity_events(&np),
        vec![
            ProximityEvent::new(h(0), h(1), Proximity::WithinMargin, Proximity::Intersecting),
            ProximityEvent::new(h(1), h(2), Proximity::Disjoint, Proximity::WithinMargin),
        ]
    );
    assert!(np.holds_statuses_of::<Count, Counter>(&graph));
    // A pair that ceases parts from what its detector last found.
    np.clear_events();
    np.handle_interaction(&mut graph, &slab, h(0), h(1), false);
    assert_eq!(
        proximity_events(&np),
        vec![ProximityEvent::new(h(0), h(1), Proximity::Intersecting, Proximity::Disjoint)]
    );
}

#[test]
fn graph_with_a_stale_status_is_told_apart() {
    let (mut np, mut graph, _slab) = setup(&[(1, contacts(1)), (1, contacts(1)), (1, contacts(1))]);
    let n = |i: usize| CollisionObjectGraphIndex::new(i);
    np.begin_pair(
        &mut graph,
        n(0),
        n(1),
        Some(Interaction::Proximity(Near { last: Proximity::Intersecting, last_margin: 0 }, Proximity::Intersecting)),
    );
    assert!(np.holds_statuses_of::<Count, Counter>(&graph));
    np.begin_pair(
        &mut graph,
        n(1),
        n(2),
        Some(Interaction::Proximity(Near { last: Proximity::Disjoint, last_margin: 0 }, Proximity::Intersecting)),
    );
    assert!(!np.holds_statuses_of::<Count, Counter>(&graph));
}

#[test]
fn step_fails_at_once_where_the_first_contact_edge_it_looks_at_is_incompatible() {
    let (mut np, mut graph, mut slab) = setup(&[
        (1, GeometricQueryType::Proximity(1)),
        (1, contacts(1)),
        (1, contacts(1)),
        (1, contacts(1)),
    ]);
    np.handle_interaction(&mut graph, &slab, h(0), h(1), true);
    np.handle_interaction(&mut graph, &slab, h(1), h(2), true);
    np.handle_interaction(&mut graph, &slab, h(2), h(3), true);
    slab.get_mut(h(2)).set_query_type(GeometricQueryType::Proximity(1));
    assert_eq!(np.update(&mut graph, &slab, 0), Err(CollisionError::IncompatibleQueryTypes));
    // Only the proximity edge before it was looked at.
    assert_eq!(contact_events(&np), vec![]);
    assert_eq!(
        proximity_events(&np),
        vec![ProximityEvent::new(h(0), h(1), Proximity::Disjoint, Proximity::Intersecting)]
    );
    assert_eq!(np.contact_id_count(), 0);
}

#[test]
fn step_succeeds_where_the_pool_has_room_for_the_contacts_found() {
    // Two contact edges, two contacts each.
    let shapes = [(1, contacts(1)), (1, contacts(1)), (1, contacts(1))];
    let (_, mut graph, slab) = setup(&shapes);
    let mut np = Np::with_contact_id_limit(Dispatcher, Dispatcher, 4);
    np.handle_interaction(&mut graph, &slab, h(0), h(1), true);
    np.handle_interaction(&mut graph, &slab, h(1), h(2), true);
    assert_eq!(np.update(&mut graph, &slab, 0), Ok(()));
    assert_eq!(np.contact_id_count(), 4);

    let (_, mut graph, slab) = setup(&shapes);
    let mut np = Np::with_contact_id_limit(Dispatcher, Dispatcher, 3);
    np.handle_interaction(&mut graph, &slab, h(0), h(1), true);
    np.handle_interaction(&mut graph, &slab, h(1), h(2), true);
    assert_eq!(np.update(&mut graph, &slab, 0), Err(CollisionError::ContactIdsExhausted));
    assert_eq!(contact_events(&np), vec![ContactEvent::Started(h(0), h(1))]);
}

#[test]
fn begin_pair_adds_the_edge_it_is_given() {
    let (mut np, mut graph, _slab) = setup(&[(1, contacts(1)), (1, contacts(1)), (1, contacts(1))]);
    let n = |i: usize| CollisionObjectGraphIndex::new(i);
    np.begin_pair(&mut graph, n(0), n(1), None);
    assert_eq!(graph.edge_count(), 0);
    np.begin_pair(
        &mut graph,
        n(2),
        n(0),
        Some(Interaction::Proximity(Near { last: Proximity::WithinMargin, last_margin: 7 }, Proximity::WithinMargin)),
    );
    assert_eq!(graph.edge_count(), 1);
    assert_eq!(graph.edge_endpoints(TemporaryInteractionIndex(0)), Some((n(2), n(0))));
    match graph.edge_weight(TemporaryInteractionIndex(0)).unwrap() {
        Interaction::Proximity(d, status) => {
            assert_eq!(d.last_margin, 7);
            assert_eq!(*status, Proximity::WithinMargin);
        }
        _ => panic!("not a proximity"),
    }
    np.begin_pair(&mut graph, n(0), n(1), Some(Interaction::Contact(Counter { last_prediction: None }, ContactManifold::new())));
    assert_eq!(graph.edge_count(), 2);
    assert!(graph.edge_weight(TemporaryInteractionIndex(1)).unwrap().is_contact());
    assert_eq!(contact_events(&np), vec![]);
    assert_eq!(np.contact_id_count(), 0);
}

#[test]
fn failed_step_keeps_the_events_raised_before_it() {
    let (mut np, mut graph, mut slab) = setup(&[(1, contacts(1)), (1, contacts(1)), (1, contacts(1))]);
    np.handle_interaction(&mut graph, &slab, h(0), h(1), true);
    np.handle_interaction(&mut graph, &slab, h(1), h(2), true);
    slab.get_mut(h(2)).set_query_type(GeometricQueryType::Proximity(1));
    assert_eq!(np.update(&mut graph, &slab, 0), Err(CollisionError::IncompatibleQueryTypes));
    // The first edge was updated before the second failed.
    assert_eq!(contact_events(&np), vec![ContactEvent::Started(h(0), h(1))]);
    assert_eq!(np.contact_id_count(), 2);
    assert!(np.holds_ids_of(&graph));
}

#[test]
fn step_of_proximity_edges_only_succeeds() {
    let (mut np, mut graph, slab) =
        setup(&[(1, GeometricQueryType::Proximity(1)), (1, contacts(1)), (0, GeometricQueryType::Proximity(1))]);
    np.handle_interaction(&mut graph, &slab, h(0), h(1), true);
    np.handle_interaction(&mut graph, &slab, h(1), h(2), true);
    assert_eq!(np.update(&mut graph, &slab, 0), Ok(()));
    match graph.edge_weight(TemporaryInteractionIndex(0)).unwrap() {
        Interaction::Proximity(d, status) => {
            assert_eq!(*status, Proximity::Intersecting);
            assert_eq!(d.proximity(), *status);
            assert_eq!(d.last_margin, 2);
        }
        _ => panic!("not a proximity"),
    }
    match graph.edge_weight(TemporaryInteractionIndex(1)).unwrap() {
        Interaction::Proximity(_, status) => assert_eq!(*status, Proximity::WithinMargin),
        _ => panic!("not a proximity"),
    }
}

#[test]
fn pool_is_asked_for_the_identifiers_of_a_manifold() {
    let mut np = Np::new(Dispatcher, Dispatcher);
    let other = Np::new(Dispatcher, Dispatcher);
    let mut m = ContactManifold::new();
    assert!(np.holds_contacts_of(&m));
    assert_eq!(np.refresh_manifold(h(0), h(1), &mut m, &vec![point(0), point(1)]), Ok(()));
    assert!(np.holds_contacts_of(&m));
    assert!(!other.holds_contacts_of(&m));
}
