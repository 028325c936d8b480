use ncollide::broad_phase::BroadPhaseProxyHandle;
use ncollide::collision_groups::CollisionGroups;
use ncollide::collision_object::{CollisionObject, CollisionObjectHandle, CollisionObjectSlab};
use ncollide::contact::ContactManifold;
use ncollide::events::{ContactEvent, ContactEvents};
use ncollide::interaction_graph::{
    CollisionObjectGraphIndex, Interaction, InteractionGraph, InteractionKind,
    TemporaryInteractionIndex,
};
use ncollide::math::{Isometry, Rotation, Vector};
use ncollide::query::{GeometricQueryType, Proximity};

fn object(data: u32) -> CollisionObject<(), u32> {
    CollisionObject::new(
        CollisionObjectHandle::invalid(),
        BroadPhaseProxyHandle::invalid(),
        CollisionObjectGraphIndex::new(0),
        Isometry::new(Vector::zero(), Rotation::identity()),
        (),
        CollisionGroups::new(),
        GeometricQueryType::Contacts(0, 0),
        data,
    )
}

type Graph = InteractionGraph<u8, u8>;

fn node(i: usize) -> CollisionObjectGraphIndex {
    CollisionObjectGraphIndex::new(i)
}

fn h(i: usize) -> CollisionObjectHandle {
    CollisionObjectHandle(i)
}

fn contact(tag: u8) -> Interaction<u8, u8> {
    Interaction::Contact(tag, ContactManifold::new())
}

fn proximity(tag: u8, status: Proximity) -> Interaction<u8, u8> {
    Interaction::Proximity(tag, status)
}

fn tag(w: &Interaction<u8, u8>) -> u8 {
    match w {
        Interaction::Contact(t, _) => *t,
        Interaction::Proximity(t, _) => *t,
    }
}

fn tags(g: &Graph) -> Vec<(usize, usize, u8)> {
    (0..g.edge_count())
        .map(|i| {
            let (a, b) = g.edge_endpoints(TemporaryInteractionIndex(i)).unwrap();
            (a.index(), b.index(), tag(g.edge_weight(TemporaryInteractionIndex(i)).unwrap()))
        })
        .collect()
}

#[test]
fn slab_gives_stable_handles_and_reuses_free_ones() {
    let mut slab: CollisionObjectSlab<(), u32> = CollisionObjectSlab::new();
    let a = slab.insert(object(10));
    let b = slab.insert(object(20));
    let c = slab.insert(object(30));
    assert!(a != b && b != c && a != c);
    assert!(slab.contains(a) && slab.contains(b) && slab.contains(c));
    assert_eq!(*slab.get(b).unwrap().data(), 20);
    assert_eq!(slab.handles(), vec![a, b, c]);
    assert_eq!(*slab.remove(b).unwrap().data(), 20);
    assert!(!slab.contains(b));
    assert!(slab.get(b).is_none());
    assert!(slab.remove(b).is_none());
    assert!(slab.remove(h(99)).is_none());
    assert_eq!(*slab.object(c).data(), 30);
    assert_eq!(slab.handles(), vec![a, c]);
    let d = slab.insert(object(40));
    assert_eq!(d, b);
    assert_eq!(*slab.object(d).data(), 40);
    *slab.get_mut(a).data_mut() = 11;
    assert_eq!(*slab.object(a).data(), 11);
    let listed: Vec<u32> = slab.objects().iter().map(|co| *co.data()).collect();
    assert_eq!(listed, vec![11, 40, 30]);
    assert!(slab.capacity() >= 3);
}

#[test]
fn empty_event_pool_has_nothing() {
    let pool: ContactEvents = ContactEvents::new();
    assert_eq!(pool.len(), 0);
    assert!(pool.get(0).is_none());
    let none: &[ContactEvent] = &[];
    assert_eq!(pool.as_slice(), none);
}

#[test]
fn graph_finds_edges_in_either_direction() {
    let mut g = Graph::new();
    assert_eq!(g.add_node(h(10)), node(0));
    assert_eq!(g.add_node(h(11)), node(1));
    assert_eq!(g.add_node(h(12)), node(2));
    assert_eq!(g.node_count(), 3);
    assert_eq!(g.node_weight(node(1)), Some(h(11)));
    assert_eq!(g.node_weight(node(3)), None);
    assert_eq!(g.add_edge(node(0), node(1), contact(1)), TemporaryInteractionIndex(0));
    assert_eq!(g.add_edge(node(2), node(1), contact(2)), TemporaryInteractionIndex(1));
    assert_eq!(g.edge_count(), 2);
    assert_eq!(g.find_edge(node(1), node(0)), Some(TemporaryInteractionIndex(0)));
    assert_eq!(g.find_edge(node(1), node(2)), Some(TemporaryInteractionIndex(1)));
    assert_eq!(g.find_edge(node(0), node(2)), None);
    assert_eq!(g.find_edge(node(0), node(0)), None);
    assert!(g.contains_edge(node(0), node(1)));
    assert!(!g.contains_edge(node(2), node(0)));
    assert_eq!(g.edge_endpoints(TemporaryInteractionIndex(1)), Some((node(2), node(1))));
    assert_eq!(g.edge_endpoints(TemporaryInteractionIndex(2)), None);
    assert!(g.edge_weight(TemporaryInteractionIndex(2)).is_none());
}

#[test]
fn removing_an_edge_moves_the_later_ones_down() {
    let mut g = Graph::new();
    for i in 0..4 {
        g.add_node(h(i));
    }
    g.add_edge(node(0), node(1), contact(1));
    g.add_edge(node(1), node(2), contact(2));
    g.add_edge(node(2), node(3), contact(3));
    let w = g.remove_edge(TemporaryInteractionIndex(0)).unwrap();
    assert_eq!(tag(&w), 1);
    assert_eq!(tags(&g), vec![(1, 2, 2), (2, 3, 3)]);
    assert!(g.remove_edge(TemporaryInteractionIndex(2)).is_none());
    assert_eq!(g.edge_count(), 2);
    *g.edge_weight_mut(TemporaryInteractionIndex(1)) = contact(9);
    assert_eq!(tags(&g), vec![(1, 2, 2), (2, 3, 9)]);
}

#[test]
fn removing_a_node_drops_its_edges_and_renames_the_last_node() {
    let mut g = Graph::new();
    for i in 0..4 {
        g.add_node(h(10 + i));
    }
    g.add_edge(node(0), node(1), contact(1));
    g.add_edge(node(1), node(2), contact(2));
    g.add_edge(node(2), node(3), contact(3));
    g.add_edge(node(3), node(0), contact(4));
    // Node 1 leaves; node 3 takes its place.
    assert_eq!(g.remove_node(node(1)), Some(h(13)));
    assert_eq!(g.node_count(), 3);
    assert_eq!(g.node_weight(node(1)), Some(h(13)));
    assert_eq!(g.node_weight(node(0)), Some(h(10)));
    assert_eq!(g.node_weight(node(2)), Some(h(12)));
    assert_eq!(tags(&g), vec![(2, 1, 3), (1, 0, 4)]);
    // The last node leaves: nothing moves.
    assert_eq!(g.remove_node(node(2)), None);
    assert_eq!(tags(&g), vec![(1, 0, 4)]);
    assert_eq!(g.remove_node(node(0)), Some(h(13)));
    assert_eq!(g.edge_count(), 0);
    assert_eq!(g.remove_node(node(0)), None);
    assert_eq!(g.node_count(), 0);
}

#[test]
fn queries_choose_by_kind_node_and_effect() {
    let mut g = Graph::new();
    for i in 0..4 {
        g.add_node(h(10 + i));
    }
    g.add_edge(node(0), node(1), contact(1));
    g.add_edge(node(0), node(2), proximity(2, Proximity::Disjoint));
    g.add_edge(node(3), node(0), proximity(3, Proximity::WithinMargin));
    g.add_edge(node(1), node(2), proximity(4, Proximity::Intersecting));
    assert_eq!(g.pairs(InteractionKind::Any, None, false).len(), 4);
    assert_eq!(
        g.pairs(InteractionKind::Any, None, true),
        vec![
            (h(13), h(10), TemporaryInteractionIndex(2)),
            (h(11), h(12), TemporaryInteractionIndex(3)),
        ]
    );
    assert_eq!(
        g.pairs(InteractionKind::Proximity, Some(0), false),
        vec![
            (h(10), h(12), TemporaryInteractionIndex(1)),
            (h(13), h(10), TemporaryInteractionIndex(2)),
        ]
    );
    assert_eq!(g.pairs(InteractionKind::Contact, Some(2), false), vec![]);
    assert_eq!(g.interaction_pairs(false).len(), 4);
    assert_eq!(g.contact_pairs(false).len(), 1);
    assert_eq!(g.contact_pairs(true).len(), 0);
    let near = g.proximity_pairs(true);
    assert_eq!(near.len(), 2);
    assert_eq!((near[0].0, near[0].1, *near[0].2, near[0].3), (h(13), h(10), 3, Proximity::WithinMargin));
    assert_eq!(g.interactions_with(node(0), false).len(), 3);
    assert_eq!(g.interactions_with(node(0), true).len(), 1);
    assert_eq!(g.interactions_with_mut(node(2)).len(), 2);
    assert_eq!(g.contacts_with(node(1), false).len(), 1);
    assert_eq!(g.proximities_with(node(2), true).len(), 1);
    assert_eq!(g.collision_objects_interacting_with(node(0)), vec![h(13)]);
    assert_eq!(g.collision_objects_in_proximity_of(node(2)), vec![h(11)]);
    assert_eq!(g.collision_objects_in_contact_with(node(0)), vec![]);
    assert!(g.interaction_pair(node(1), node(0), false).is_some());
    assert!(g.interaction_pair(node(1), node(0), true).is_none());
    assert!(g.contact_pair(node(0), node(1), false).is_some());
    assert!(g.contact_pair(node(0), node(2), false).is_none());
    assert!(g.proximity_pair(node(0), node(3), true).is_some());
    assert!(g.proximity_pair(node(0), node(2), true).is_none());
    assert!(g.proximity_pair(node(0), node(2), false).is_some());
    assert!(g.proximity_pair(node(1), node(3), false).is_none());
    assert_eq!(
        g.pair(node(2), node(1), InteractionKind::Any, true),
        Some((h(11), h(12), TemporaryInteractionIndex(3)))
    );
}

#[test]
fn interactions_know_their_kind() {
    assert!(contact(0).is_contact());
    assert!(!contact(0).is_proximity());
    assert!(!contact(0).is_effective());
    assert!(proximity(0, Proximity::Intersecting).is_proximity());
    assert!(proximity(0, Proximity::Intersecting).is_effective());
    assert!(proximity(0, Proximity::WithinMargin).is_effective());
    assert!(!proximity(0, Proximity::Disjoint).is_effective());
    assert_eq!(TemporaryInteractionIndex::new(3).index(), 3);
}

#[test]
fn two_objects_can_be_changed_at_once() {
    let mut slab: CollisionObjectSlab<(), u32> = CollisionObjectSlab::new();
    let a = slab.insert(object(1));
    let b = slab.insert(object(2));
    let c = slab.insert(object(3));
    {
        let (x, y) = slab.get_pair_mut(c, a);
        assert_eq!((*x.data(), *y.data()), (3, 1));
        *x.data_mut() = 30;
        *y.data_mut() = 10;
    }
    {
        let (x, y) = slab.get_pair_mut(a, b);
        assert_eq!((*x.data(), *y.data()), (10, 2));
        std::mem::swap(x.data_mut(), y.data_mut());
    }
    let listed: Vec<u32> = slab.objects().iter().map(|co| *co.data()).collect();
    assert_eq!(listed, vec![2, 10, 30]);
}
