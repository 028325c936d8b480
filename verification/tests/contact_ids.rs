use ncollide::contact::{Contact, ContactManifold, ContactPoint, FeatureId};
use ncollide::contact_id::{take_mark, ContactId, ContactIdPool, POOL_LIMIT};
use ncollide::math::Vector;
use slotmap::{DefaultKey, Key, KeyData, SlotMap};

fn point(depth: i64, f1: FeatureId, f2: FeatureId) -> ContactPoint {
    ContactPoint {
        contact: Contact::new(Vector::zero(), Vector::zero(), Vector::new(1, 0, 0), depth),
        feature1: f1,
        feature2: f2,
    }
}

#[test]
fn null_identifier_is_the_null_key_of_the_slot_map() {
    let null = ContactId::invalid();
    assert!(null.is_null());
    assert_eq!(null.bits, DefaultKey::null().data().as_ffi());
    assert_eq!(null.bits, 0x1_ffff_ffff);
    let mut sm: SlotMap<DefaultKey, bool> = SlotMap::with_key();
    let k = sm.insert(false);
    let id = ContactId { bits: k.data().as_ffi() };
    assert!(!id.is_null());
    assert_eq!(id.is_null(), k.is_null());
    let other_null = ContactId { bits: 0x7_ffff_ffff };
    assert!(other_null.is_null());
    assert!(DefaultKey::from(KeyData::from_ffi(other_null.bits)).is_null());
}

#[test]
fn pool_hands_out_fresh_identifiers() {
    let mut pool = ContactIdPool::new();
    assert_eq!(pool.len(), 0);
    assert_eq!(pool.limit_of(), POOL_LIMIT);
    let a = pool.allocate().unwrap();
    let b = pool.allocate().unwrap();
    let c = pool.allocate().unwrap();
    assert_eq!(pool.len(), 3);
    assert!(a != b && b != c && a != c);
    assert!(!a.is_null() && !b.is_null() && !c.is_null());
}

#[test]
fn sweep_keeps_the_marked_identifiers_only() {
    let mut pool = ContactIdPool::new();
    let a = pool.allocate().unwrap();
    let b = pool.allocate().unwrap();
    let c = pool.allocate().unwrap();
    pool.mark(b);
    pool.sweep();
    assert_eq!(pool.len(), 1);
    // The mark was cleared: nothing holds `b` any more.
    pool.sweep();
    assert_eq!(pool.len(), 0);
    let d = pool.allocate().unwrap();
    let e = pool.allocate().unwrap();
    assert!(d != e);
    assert_eq!(pool.len(), 2);
    pool.mark(d);
    pool.mark(d);
    pool.mark(e);
    pool.sweep();
    assert_eq!(pool.len(), 2);
    let _ = (a, c);
}

#[test]
fn pool_with_a_limit_stops_there() {
    let mut pool = ContactIdPool::with_limit(2);
    assert_eq!(pool.limit_of(), 2);
    assert!(pool.allocate().is_some());
    let b = pool.allocate().unwrap();
    assert!(pool.allocate().is_none());
    assert_eq!(pool.len(), 2);
    pool.mark(b);
    pool.sweep();
    assert_eq!(pool.len(), 1);
    assert!(pool.allocate().is_some());
    assert!(pool.allocate().is_none());
    assert_eq!(ContactIdPool::with_limit(usize::MAX).limit_of(), POOL_LIMIT);
    assert!(ContactIdPool::with_limit(0).allocate().is_none());
}

#[test]
fn take_mark_reads_and_clears() {
    let mut m = true;
    assert!(take_mark(&mut m));
    assert!(!m);
    assert!(!take_mark(&mut m));
    assert!(!m);
}

#[test]
fn new_manifold_is_empty() {
    let m = ContactManifold::new();
    assert_eq!(m.len(), 0);
    assert_eq!(m.contacts().len(), 0);
}

#[test]
fn pushed_contact_takes_over_the_identifier_of_its_features() {
    let mut m = ContactManifold::new();
    m.push(point(1, FeatureId::Face(0), FeatureId::Vertex(1)));
    m.push(point(2, FeatureId::Edge(2), FeatureId::Edge(3)));
    assert_eq!(m.len(), 2);
    assert!(m.contact(0).id.is_null());
    assert!(m.contact(1).id.is_null());
    m.set_id(0, ContactId { bits: 0x1_0000_0005 });
    m.set_id(1, ContactId { bits: 0x1_0000_0006 });
    assert_eq!(m.contact(0).contact.depth, 1);
    assert_eq!(m.contact(1).id.bits, 0x1_0000_0006);

    m.save_cache_and_clear();
    assert_eq!(m.len(), 0);
    m.push(point(7, FeatureId::Edge(2), FeatureId::Edge(3)));
    m.push(point(8, FeatureId::Face(0), FeatureId::Vertex(2)));
    m.push(point(9, FeatureId::Face(0), FeatureId::Vertex(1)));
    m.push(point(10, FeatureId::Vertex(1), FeatureId::Face(0)));
    assert_eq!(m.contact(0).id.bits, 0x1_0000_0006);
    assert_eq!(m.contact(0).contact.depth, 7);
    assert!(m.contact(1).id.is_null());
    assert_eq!(m.contact(2).id.bits, 0x1_0000_0005);
    assert!(m.contact(3).id.is_null());
    assert_eq!(m.contacts()[2].feature2, FeatureId::Vertex(1));
}

#[test]
fn unknown_features_never_match() {
    let mut m = ContactManifold::new();
    m.push(point(1, FeatureId::Unknown, FeatureId::Unknown));
    m.push(point(1, FeatureId::Face(1), FeatureId::Unknown));
    m.set_id(0, ContactId { bits: 0x1_0000_0001 });
    m.set_id(1, ContactId { bits: 0x1_0000_0002 });
    m.save_cache_and_clear();
    m.push(point(1, FeatureId::Unknown, FeatureId::Unknown));
    m.push(point(1, FeatureId::Face(1), FeatureId::Unknown));
    assert!(m.contact(0).id.is_null());
    assert!(m.contact(1).id.is_null());
}

#[test]
fn first_saved_contact_on_the_features_wins() {
    let mut m = ContactManifold::new();
    m.push(point(1, FeatureId::Face(1), FeatureId::Face(2)));
    m.push(point(2, FeatureId::Face(1), FeatureId::Face(2)));
    m.set_id(0, ContactId { bits: 0x1_0000_0001 });
    m.set_id(1, ContactId { bits: 0x1_0000_0002 });
    m.save_cache_and_clear();
    m.push(point(3, FeatureId::Face(1), FeatureId::Face(2)));
    assert_eq!(m.contact(0).id.bits, 0x1_0000_0001);
}

#[test]
fn clear_drops_contacts_and_saved_contacts() {
    let mut m = ContactManifold::new();
    m.push(point(1, FeatureId::Face(1), FeatureId::Face(2)));
    m.set_id(0, ContactId { bits: 0x1_0000_0001 });
    m.save_cache_and_clear();
    m.clear();
    m.push(point(3, FeatureId::Face(1), FeatureId::Face(2)));
    assert!(m.contact(0).id.is_null());
    m.clear();
    assert_eq!(m.len(), 0);
}

#[test]
fn pool_knows_the_identifiers_it_holds() {
    let mut pool = ContactIdPool::new();
    let a = pool.allocate().unwrap();
    let b = pool.allocate().unwrap();
    assert!(pool.contains(a));
    assert!(pool.contains(b));
    assert!(!pool.contains(ContactId::invalid()));
    assert!(!pool.contains(ContactId { bits: a.bits + 1000 }));
    // The same slot with an even version is no key of the pool.
    assert!(!pool.contains(ContactId { bits: a.bits & !0x1_0000_0000 }));
    pool.mark(a);
    pool.sweep();
    assert!(pool.contains(a));
    assert!(!pool.contains(b));
    let c = pool.allocate().unwrap();
    assert!(pool.contains(c));
    assert!(c != b);
    assert!(!pool.contains(b));
}
