use ncollide::collision_groups::{CollisionGroups, ALL_GROUPS, NO_GROUP, SELF_COLLISION};
use ncollide::collision_object::CollisionObject;
use ncollide::broad_phase::BroadPhaseProxyHandle;
use ncollide::collision_object::CollisionObjectHandle;
use ncollide::interaction_graph::CollisionObjectGraphIndex;
use ncollide::math::{Isometry, Rotation, Vector};
use ncollide::pair_filter::{BroadPhasePairFilter, BroadPhasePairFilters, CollisionGroupsPairFilter};
use ncollide::query::{ContactPrediction, GeometricQueryType};

fn object(handle: usize, groups: CollisionGroups) -> CollisionObject<(), ()> {
    CollisionObject::new(
        CollisionObjectHandle(handle),
        BroadPhaseProxyHandle(handle),
        CollisionObjectGraphIndex::new(handle),
        Isometry::new(Vector::zero(), Rotation::identity()),
        (),
        groups,
        GeometricQueryType::Contacts(0, 0),
        (),
    )
}

#[derive(Clone, Copy, PartialEq, Debug)]
struct OnlyEven;

impl BroadPhasePairFilter<(), ()> for OnlyEven {
    fn pair_valid(&self, co1: CollisionObject<(), ()>, co2: CollisionObject<(), ()>) -> bool {
        self.is_pair_valid(&co1, &co2)
    }

    fn is_pair_valid(&self, co1: &CollisionObject<(), ()>, co2: &CollisionObject<(), ()>) -> bool {
        co1.handle().uid() % 2 == 0 && co2.handle().uid() % 2 == 0
    }
}

#[derive(Clone, Copy, PartialEq, Debug)]
struct Never;

impl BroadPhasePairFilter<(), ()> for Never {
    fn pair_valid(&self, _co1: CollisionObject<(), ()>, _co2: CollisionObject<(), ()>) -> bool {
        false
    }

    fn is_pair_valid(&self, _co1: &CollisionObject<(), ()>, _co2: &CollisionObject<(), ()>) -> bool {
        false
    }
}

#[test]
fn new_groups_meet_everything_but_themselves() {
    let g = CollisionGroups::new();
    assert_eq!(g.membership, ALL_GROUPS);
    assert_eq!(g.whitelist, ALL_GROUPS);
    assert_eq!(g.blacklist, NO_GROUP);
    assert!(g.can_interact_with_groups(&g));
    assert!(!g.can_interact_with_self());
    for group in 0..30 {
        assert!(g.is_member_of(group));
        assert!(g.is_group_whitelisted(group));
        assert!(!g.is_group_blacklisted(group));
        assert!(g.can_interact_with(group));
    }
}

#[test]
fn masks_change_bit_by_bit() {
    let mut g = CollisionGroups::new();
    g.modify_membership(3, false);
    assert_eq!(g.membership, ALL_GROUPS & !(1 << 3));
    assert!(!g.is_member_of(3));
    g.modify_membership(3, true);
    assert_eq!(g.membership, ALL_GROUPS);
    g.modify_whitelist(29, false);
    assert_eq!(g.whitelist, ALL_GROUPS & !(1 << 29));
    assert!(!g.can_interact_with(29));
    g.modify_blacklist(0, true);
    assert_eq!(g.blacklist, 1);
    assert!(g.is_group_blacklisted(0));
    assert!(!g.can_interact_with(0));
    g.modify_blacklist(0, false);
    assert_eq!(g.blacklist, 0);
    g.enable_self_interaction();
    assert_eq!(g.whitelist & SELF_COLLISION, SELF_COLLISION);
    assert!(g.can_interact_with_self());
    g.disable_self_interaction();
    assert!(!g.can_interact_with_self());
}

#[test]
fn blacklist_wins_and_whitelist_is_needed_on_both_sides() {
    let all = CollisionGroups::new();
    let mut only_one = CollisionGroups::new();
    for group in 0..30 {
        only_one.modify_membership(group, group == 1);
    }
    let mut hates_one = CollisionGroups::new();
    hates_one.modify_blacklist(1, true);
    let mut ignores_one = CollisionGroups::new();
    ignores_one.modify_whitelist(1, false);
    assert!(all.can_interact_with_groups(&only_one));
    assert!(!hates_one.can_interact_with_groups(&only_one));
    assert!(!only_one.can_interact_with_groups(&hates_one));
    assert!(!ignores_one.can_interact_with_groups(&only_one));
    assert!(!only_one.can_interact_with_groups(&ignores_one));
    assert!(ignores_one.can_interact_with_groups(&all));
}

#[test]
fn group_filter_looks_at_self_interaction_for_one_object() {
    let f = CollisionGroupsPairFilter::new();
    let plain = CollisionGroups::new();
    let mut selfish = CollisionGroups::new();
    selfish.enable_self_interaction();
    assert!(f.is_pair_valid(&object(0, plain), &object(1, plain)));
    assert!(!f.is_pair_valid(&object(0, plain), &object(0, plain)));
    assert!(f.is_pair_valid(&object(0, selfish), &object(0, selfish)));
    let mut hates = CollisionGroups::new();
    hates.modify_blacklist(2, true);
    assert!(!f.is_pair_valid(&object(0, hates), &object(1, plain)));
}

#[test]
fn registered_filters_must_all_accept() {
    let mut filters: BroadPhasePairFilters<OnlyEven> = BroadPhasePairFilters::new();
    let g = CollisionGroups::new();
    assert_eq!(filters.len(), 0);
    assert!(filters.is_pair_valid(&object(1, g), &object(3, g)));
    filters.register_collision_filter("even", OnlyEven);
    assert_eq!(filters.len(), 1);
    assert!(filters.is_pair_valid(&object(0, g), &object(2, g)));
    assert!(!filters.is_pair_valid(&object(0, g), &object(3, g)));
    filters.register_collision_filter("even", OnlyEven);
    assert_eq!(filters.len(), 1);
    filters.register_collision_filter("again", OnlyEven);
    assert_eq!(filters.len(), 2);
    assert!(!filters.unregister_collision_filter("odd"));
    assert!(filters.unregister_collision_filter("even"));
    assert!(!filters.unregister_collision_filter("even"));
    assert_eq!(filters.len(), 1);
    assert!(filters.unregister_collision_filter("again"));
    assert!(filters.is_pair_valid(&object(1, g), &object(3, g)));
}

#[test]
fn one_rejecting_filter_is_enough() {
    let mut filters: BroadPhasePairFilters<Never> = BroadPhasePairFilters::new();
    let g = CollisionGroups::new();
    filters.register_collision_filter("never", Never);
    assert!(!filters.is_pair_valid(&object(0, g), &object(2, g)));
}

#[test]
fn query_limit_is_the_linear_prediction_or_the_margin() {
    assert_eq!(GeometricQueryType::Contacts(100, 7).query_limit(), 100);
    assert_eq!(GeometricQueryType::Proximity(500).query_limit(), 500);
    assert!(GeometricQueryType::Contacts(1, 2).is_contacts_query());
    assert!(!GeometricQueryType::Contacts(1, 2).is_proximity_query());
    assert!(GeometricQueryType::Proximity(1).is_proximity_query());
    assert!(!GeometricQueryType::Proximity(1).is_contacts_query());
}

#[test]
fn predictions_add_up_for_two_contact_queries_only() {
    let a = GeometricQueryType::Contacts(100, 3);
    let b = GeometricQueryType::Contacts(250, 4);
    let p = GeometricQueryType::Proximity(10);
    assert_eq!(a.contact_queries_to_prediction(&b), Some(ContactPrediction::new(350, 3, 4)));
    assert_eq!(b.contact_queries_to_prediction(&a), Some(ContactPrediction::new(350, 4, 3)));
    assert_eq!(a.contact_queries_to_prediction(&p), None);
    assert_eq!(p.contact_queries_to_prediction(&a), None);
    assert_eq!(p.contact_queries_to_prediction(&p), None);
    let big = GeometricQueryType::Contacts(i64::MAX, 0);
    assert_eq!(big.contact_queries_to_prediction(&a), Some(ContactPrediction::new(i64::MAX, 0, 3)));
}

#[test]
fn handles_have_an_invalid_value() {
    assert!(CollisionObjectHandle::invalid().is_invalid());
    assert!(!CollisionObjectHandle(3).is_invalid());
    assert_eq!(CollisionObjectHandle(3).uid(), 3);
    assert!(BroadPhaseProxyHandle::invalid().is_invalid());
    assert!(!BroadPhaseProxyHandle(0).is_invalid());
    assert_eq!(BroadPhaseProxyHandle(9).uid(), 9);
    assert_eq!(CollisionObjectGraphIndex::new(4).index(), 4);
}

#[test]
fn object_setters_change_one_part() {
    let mut co = object(1, CollisionGroups::new());
    assert_eq!(co.timestamp, 0);
    co.set_handle(CollisionObjectHandle(5));
    co.set_proxy_handle(BroadPhaseProxyHandle(6));
    co.set_graph_index(CollisionObjectGraphIndex::new(7));
    co.set_position(Isometry::new(Vector::new(1, 2, 3), Rotation::identity()));
    co.set_query_type(GeometricQueryType::Proximity(9));
    let mut g = CollisionGroups::new();
    g.modify_blacklist(4, true);
    co.set_collision_groups(g);
    assert_eq!(co.handle(), CollisionObjectHandle(5));
    assert_eq!(co.proxy_handle(), BroadPhaseProxyHandle(6));
    assert_eq!(co.graph_index().index(), 7);
    assert_eq!(co.position().translation, Vector::new(1, 2, 3));
    assert_eq!(co.query_type(), GeometricQueryType::Proximity(9));
    assert_eq!(*co.collision_groups(), g);
    assert_eq!(co.timestamp, 0);
}
