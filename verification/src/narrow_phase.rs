//! The narrow phase: contacts and proximities of the pairs that the broad
//! phase reported, the events they raise, and the identifiers of the contacts.

use crate::collision_object::{CollisionObject, CollisionObjectHandle, CollisionObjectSlab};
use crate::contact::{cached_id, lemma_cached_id_is_saved, ContactManifold, ContactPoint, TrackedContact};
use crate::contact_id::{swept, ContactId, ContactIdPool, POOL_LIMIT};
use crate::detector::{ContactDispatcher, ContactManifoldGenerator, ProximityDetector, ProximityDispatcher};
use crate::events::{ContactEvent, ContactEvents, ProximityEvent, ProximityEvents};
use crate::interaction_graph::{
    edges_wf, CollisionObjectGraphIndex, Edge, Interaction, InteractionGraph,
    TemporaryInteractionIndex,
};
use crate::math::{clamp, sat_add};
use crate::query::{GeometricQueryType, Proximity};
use vstd::prelude::*;

verus! {

/// Why a step of the narrow phase failed.
#[derive(Clone, Copy, Debug, PartialEq, Eq, Structural)]
pub enum CollisionError {
    /// Contacts were asked for a pair of which one object does not ask for
    /// contacts.
    IncompatibleQueryTypes,
    /// The pool has no room for an identifier for every contact found.
    ContactIdsExhausted,
}

/// The contact event of a pair, by whether its manifold had contacts `before`
/// an update and whether it has contacts `after` it.
pub open spec fn contact_transition(
    before: bool,
    after: bool,
    handle1: CollisionObjectHandle,
    handle2: CollisionObjectHandle,
) -> Seq<ContactEvent> {
    if !before && after {
        seq![ContactEvent::Started(handle1, handle2)]
    } else if before && !after {
        seq![ContactEvent::Stopped(handle1, handle2)]
    } else {
        Seq::empty()
    }
}

/// The proximity event of a pair that went from `prev` to `found`.
pub open spec fn proximity_transition(
    prev: Proximity,
    found: Proximity,
    handle1: CollisionObjectHandle,
    handle2: CollisionObjectHandle,
) -> Seq<ProximityEvent> {
    if prev != found {
        seq![ProximityEvent { collider1: handle1, collider2: handle2, prev_status: prev, new_status: found }]
    } else {
        Seq::empty()
    }
}

/// Every identifier of these contacts is null or held by the pool.
pub open spec fn manifold_ids_live(ids: Map<u64, bool>, contacts: Seq<TrackedContact>) -> bool {
    forall|c: int|
        0 <= c < contacts.len() ==> (#[trigger] contacts[c]).id.null() || ids.dom().contains(
            contacts[c].id.bits,
        )
}

/// Every identifier of a contact on these edges is null or held by the pool.
pub open spec fn contact_ids_live<C, P>(ids: Map<u64, bool>, edges: Seq<Edge<C, P>>) -> bool {
    forall|e: int|
        0 <= e < edges.len() ==> manifold_ids_live(ids, (#[trigger] edges[e]).weight.contacts())
}

/// Whether a contact on one of these edges has the identifier `bits`.
pub open spec fn id_in_use<C, P>(edges: Seq<Edge<C, P>>, bits: u64) -> bool {
    exists|e: int, c: int|
        0 <= e < edges.len() && 0 <= c < edges[e].weight.contacts().len()
            && (#[trigger] edges[e].weight.contacts()[c]).id.bits == bits
}

/// Whether two edges join the same nodes with an interaction of the same kind.
pub open spec fn same_edge<C, P>(before: Edge<C, P>, after: Edge<C, P>) -> bool {
    &&& after.source == before.source
    &&& after.target == before.target
    &&& after.weight is Contact <==> before.weight is Contact
}

/// The contact events that an update of an interaction raises.
pub open spec fn edge_contact_events<C, P>(
    before: Interaction<C, P>,
    after: Interaction<C, P>,
    handle1: CollisionObjectHandle,
    handle2: CollisionObjectHandle,
) -> Seq<ContactEvent> {
    if before is Contact {
        contact_transition(
            before.contacts().len() > 0,
            after.contacts().len() > 0,
            handle1,
            handle2,
        )
    } else {
        Seq::empty()
    }
}

/// The proximity events that an update of an interaction raises.
pub open spec fn edge_proximity_events<C, P>(
    before: Interaction<C, P>,
    after: Interaction<C, P>,
    handle1: CollisionObjectHandle,
    handle2: CollisionObjectHandle,
) -> Seq<ProximityEvent> {
    match (before, after) {
        (Interaction::Proximity(_, prev), Interaction::Proximity(_, found)) => proximity_transition(
            prev,
            found,
            handle1,
            handle2,
        ),
        _ => Seq::empty(),
    }
}

/// The contacts that the generator of a pair finds: on both shapes where
/// they are, with the prediction that the two queries give.
pub open spec fn contact_points<S, T, C: ContactDispatcher<S>>(
    dispatcher: C,
    co1: CollisionObject<S, T>,
    co2: CollisionObject<S, T>,
    detector: C::Algorithm,
) -> Seq<ContactPoint> {
    detector.found(
        &dispatcher,
        &co1.position,
        &co1.shape,
        &co2.position,
        &co2.shape,
        &co1.query_type.prediction_with(co2.query_type)->0,
    )@
}

/// The generator of a pair after it looked for the contacts of the pair.
pub open spec fn contact_generated<S, T, C: ContactDispatcher<S>>(
    dispatcher: C,
    co1: CollisionObject<S, T>,
    co2: CollisionObject<S, T>,
    detector: C::Algorithm,
) -> C::Algorithm {
    detector.generated(
        &dispatcher,
        &co1.position,
        &co1.shape,
        &co2.position,
        &co2.shape,
        &co1.query_type.prediction_with(co2.query_type)->0,
    )
}

/// Whether a contact of a manifold is a reported contact: the same contact
/// on the same features, with the identifier of the first contact that the
/// manifold held on these features, where there was one, and never the null
/// identifier.
pub open spec fn carried_over(held: Seq<TrackedContact>, point: ContactPoint, made: TrackedContact) -> bool {
    let carried = cached_id(held, point.feature1, point.feature2);
    &&& made.contact == point.contact
    &&& made.feature1 == point.feature1
    &&& made.feature2 == point.feature2
    &&& !made.id.null()
    &&& !carried.null() ==> made.id == carried
}

/// Whether `after` is the contact interaction `before` of a pair once its
/// generator has looked again: the generator is the one that looked, and the
/// manifold holds the contacts it found, in their order. A proximity is not
/// spoken of.
pub open spec fn contact_found<S, T, C: ContactDispatcher<S>, P>(
    dispatcher: C,
    co1: CollisionObject<S, T>,
    co2: CollisionObject<S, T>,
    before: Interaction<C::Algorithm, P>,
    after: Interaction<C::Algorithm, P>,
) -> bool {
    match before {
        Interaction::Contact(detector, manifold) => {
            let points = contact_points(dispatcher, co1, co2, detector);
            &&& after is Contact
            &&& after->Contact_0 == contact_generated(dispatcher, co1, co2, detector)
            &&& after.contacts().len() == points.len()
            &&& after->Contact_1.saved() == manifold@
            &&& forall|i: int|
                0 <= i < points.len() ==> carried_over(
                    manifold@,
                    points[i],
                    #[trigger] after.contacts()[i],
                )
        },
        Interaction::Proximity(_, _) => true,
    }
}

/// The number of the first `upto` reported contacts that take over no
/// identifier from a manifold that held `held`: each of them gets one that
/// the pool did not hold.
pub open spec fn fresh_points(held: Seq<TrackedContact>, points: Seq<ContactPoint>, upto: int) -> nat
    decreases upto,
{
    if upto <= 0 {
        0
    } else {
        fresh_points(held, points, upto - 1) + (if cached_id(
            held,
            points[upto - 1].feature1,
            points[upto - 1].feature2,
        ).null() {
            1nat
        } else {
            0nat
        })
    }
}

/// What `refresh_manifold` makes of a reported contact: the same contact on
/// the same features, with the identifier of the first contact that the
/// manifold held on these features or, where there was none, with an
/// identifier that the pool did not hold and that is not null.
pub open spec fn refreshed(
    ids: Map<u64, bool>,
    held: Seq<TrackedContact>,
    point: ContactPoint,
    made: TrackedContact,
) -> bool {
    let carried = cached_id(held, point.feature1, point.feature2);
    &&& made.contact == point.contact
    &&& made.feature1 == point.feature1
    &&& made.feature2 == point.feature2
    &&& !made.id.null()
    &&& !carried.null() ==> made.id == carried
    &&& carried.null() ==> !ids.dom().contains(made.id.bits)
}

/// How the pool grows when contacts get new identifiers: what it held stays
/// as it was, and whatever it holds besides is unmarked and the identifier of
/// one of the contacts.
pub open spec fn grown(before: Map<u64, bool>, after: Map<u64, bool>, contacts: Seq<TrackedContact>) -> bool {
    &&& before.dom().subset_of(after.dom())
    &&& forall|bits: u64| before.dom().contains(bits) ==> after[bits] == before[bits]
    &&& forall|bits: u64|
        after.dom().contains(bits) && !before.dom().contains(bits) ==> !after[bits] && exists|k: int|
            0 <= k < contacts.len() && (#[trigger] contacts[k]).id.bits == bits
}

/// Whether the proximity kept beside a detector is what the detector last
/// found. A contact keeps nothing of the kind.
pub open spec fn status_kept<S, C, PD: ProximityDispatcher<S>>(
    weight: Interaction<C, PD::Algorithm>,
) -> bool {
    weight matches Interaction::Proximity(detector, status) ==> status == detector.status()
}

/// Whether each of the edges keeps, beside its detector, what the detector
/// last found.
pub open spec fn edges_kept<S, C, PD: ProximityDispatcher<S>>(
    edges: Seq<Edge<C, PD::Algorithm>>,
) -> bool {
    forall|k: int| 0 <= k < edges.len() ==> status_kept::<S, C, PD>((#[trigger] edges[k]).weight)
}

/// The proximity events that an update of an interaction raises: for a
/// proximity, the step from what its detector had found to what it finds
/// when it looks again, where the two differ.
pub open spec fn proximity_raised<S, T, C, PD: ProximityDispatcher<S>>(
    dispatcher: PD,
    co1: CollisionObject<S, T>,
    co2: CollisionObject<S, T>,
    before: Interaction<C, PD::Algorithm>,
) -> Seq<ProximityEvent> {
    match before {
        Interaction::Contact(_, _) => Seq::empty(),
        Interaction::Proximity(detector, _) => proximity_transition(
            detector.status(),
            detector.updated(
                &dispatcher,
                &co1.position,
                &co1.shape,
                &co2.position,
                &co2.shape,
                clamp(co1.query_type.limit() + co2.query_type.limit()),
            ).status(),
            co1.handle,
            co2.handle,
        ),
    }
}

/// What an update makes of the proximity of a pair: the detector as it is
/// after it looked at the two shapes again, with the sum of the two query
/// limits as margin, and what it found. A contact stays as it is.
pub open spec fn proximity_updated<S, T, C, PD: ProximityDispatcher<S>>(
    dispatcher: PD,
    co1: CollisionObject<S, T>,
    co2: CollisionObject<S, T>,
    before: Interaction<C, PD::Algorithm>,
) -> Interaction<C, PD::Algorithm> {
    match before {
        Interaction::Contact(_, _) => before,
        Interaction::Proximity(detector, _) => {
            let next = detector.updated(
                &dispatcher,
                &co1.position,
                &co1.shape,
                &co2.position,
                &co2.shape,
                clamp(co1.query_type.limit() + co2.query_type.limit()),
            );
            Interaction::Proximity(next, next.status())
        },
    }
}

/// The narrow phase. `CD` chooses the contact generators, `PD` the proximity
/// detectors.
pub struct NarrowPhase<CD, PD> {
    contact_dispatcher: CD,
    proximity_dispatcher: PD,
    contact_events: ContactEvents,
    proximity_events: ProximityEvents,
    id_allocator: ContactIdPool,
}

impl<CD, PD> NarrowPhase<CD, PD> {
    /// The contact events raised since the pools were last cleared.
    pub closed spec fn contact_log(&self) -> Seq<ContactEvent> {
        self.contact_events@
    }

    /// The proximity events raised since the pools were last cleared.
    pub closed spec fn proximity_log(&self) -> Seq<ProximityEvent> {
        self.proximity_events@
    }

    /// The identifiers in use, each with its mark.
    pub closed spec fn ids(&self) -> Map<u64, bool> {
        self.id_allocator@
    }

    /// The dispatcher of contact generators.
    pub closed spec fn contact_dispatcher(&self) -> CD {
        self.contact_dispatcher
    }

    /// The dispatcher of proximity detectors.
    pub closed spec fn proximity_dispatcher(&self) -> PD {
        self.proximity_dispatcher
    }

    /// The most contact identifiers that may be in use.
    pub closed spec fn id_limit(&self) -> usize {
        self.id_allocator.limit()
    }

    /// The pool holds finitely many identifiers, none null, none marked.
    pub closed spec fn wf(&self) -> bool {
        &&& self.id_allocator.wf()
        &&& self.id_allocator.unmarked()
    }

    /// The pool of a narrow phase holds finitely many identifiers.
    pub proof fn lemma_pool_finite(&self)
        requires
            self.wf(),
        ensures
            self.ids().dom().finite(),
    {
    }

    /// A narrow phase without events and without identifiers.
    pub fn new(contact_dispatcher: CD, proximity_dispatcher: PD) -> (np: Self)
        ensures
            np.wf(),
            np.contact_log() == Seq::<ContactEvent>::empty(),
            np.proximity_log() == Seq::<ProximityEvent>::empty(),
            np.ids() == (Map::<u64, bool>::empty()),
            np.contact_dispatcher() == contact_dispatcher,
            np.proximity_dispatcher() == proximity_dispatcher,
            np.id_limit() == POOL_LIMIT,
    {
        NarrowPhase {
            contact_dispatcher,
            proximity_dispatcher,
            contact_events: ContactEvents::new(),
            proximity_events: ProximityEvents::new(),
            id_allocator: ContactIdPool::new(),
        }
    }

    /// A narrow phase without events and without identifiers, in which at
    /// most `limit` contact identifiers may be in use, or as many as a pool
    /// can hold where that is less.
    pub fn with_contact_id_limit(contact_dispatcher: CD, proximity_dispatcher: PD, limit: usize) -> (np:
        Self)
        ensures
            np.wf(),
            np.contact_log() == Seq::<ContactEvent>::empty(),
            np.proximity_log() == Seq::<ProximityEvent>::empty(),
            np.ids() == (Map::<u64, bool>::empty()),
            np.contact_dispatcher() == contact_dispatcher,
            np.proximity_dispatcher() == proximity_dispatcher,
            np.id_limit() == (if limit <= POOL_LIMIT {
                limit
            } else {
                POOL_LIMIT
            }),
    {
        NarrowPhase {
            contact_dispatcher,
            proximity_dispatcher,
            contact_events: ContactEvents::new(),
            proximity_events: ProximityEvents::new(),
            id_allocator: ContactIdPool::with_limit(limit),
        }
    }

    /// The contact events raised since the pools were last cleared.
    pub fn contact_events(&self) -> (events: &ContactEvents)
        ensures
            events@ == self.contact_log(),
    {
        &self.contact_events
    }

    /// The proximity events raised since the pools were last cleared.
    pub fn proximity_events(&self) -> (events: &ProximityEvents)
        ensures
            events@ == self.proximity_log(),
    {
        &self.proximity_events
    }

    /// The number of contact identifiers in use.
    pub fn contact_id_count(&self) -> (n: usize)
        ensures
            n == self.ids().dom().len(),
    {
        self.id_allocator.len()
    }

    /// Empties both event pools. Nothing else changes.
    pub fn clear_events(&mut self)
        ensures
            final(self).contact_log() == Seq::<ContactEvent>::empty(),
            final(self).proximity_log() == Seq::<ProximityEvent>::empty(),
            final(self).ids() == old(self).ids(),
            final(self).wf() == old(self).wf(),
            final(self).contact_dispatcher() == old(self).contact_dispatcher(),
            final(self).proximity_dispatcher() == old(self).proximity_dispatcher(),
            final(self).id_limit() == old(self).id_limit(),
    {
        self.contact_events.clear();
        self.proximity_events.clear();
    }

    /// Replaces the contacts of a pair by those that a generator reported.
    ///
    /// A reported contact on the features of a contact that the manifold
    /// held takes over its identifier; every other one gets an identifier
    /// that the pool did not hold. `Started` is raised where the manifold had
    /// no contact and now has one, `Stopped` where it had one and now has
    /// none. Fails, and changes nothing, where the pool has no room for one
    /// identifier for each reported contact.
    pub fn refresh_manifold(
        &mut self,
        handle1: CollisionObjectHandle,
        handle2: CollisionObjectHandle,
        manifold: &mut ContactManifold,
        points: &Vec<ContactPoint>,
    ) -> (r: Result<(), CollisionError>)
        requires
            old(self).wf(),
            manifold_ids_live(old(self).ids(), old(manifold)@),
        ensures
            final(self).wf(),
            final(self).proximity_log() == old(self).proximity_log(),
            final(self).contact_dispatcher() == old(self).contact_dispatcher(),
            final(self).proximity_dispatcher() == old(self).proximity_dispatcher(),
            final(self).id_limit() == old(self).id_limit(),
            r is Err <==> old(self).ids().dom().len() + points@.len() > old(self).id_limit(),
            r is Err ==> r == Err::<(), CollisionError>(CollisionError::ContactIdsExhausted)
                && final(self).ids() == old(self).ids() && final(self).contact_log() == old(self).contact_log() && final(manifold)@ == old(manifold)@,
            r is Ok ==> {
                &&& final(manifold)@.len() == points@.len()
                &&& final(manifold).saved() == old(manifold)@
                &&& forall|i: int|
                    0 <= i < points@.len() ==> refreshed(
                        old(self).ids(),
                        old(manifold)@,
                        points@[i],
                        #[trigger] final(manifold)@[i],
                    )
                &&& forall|i: int, j: int|
                    0 <= i < j < points@.len() && !old(self).ids().dom().contains(
                        (#[trigger] final(manifold)@[i]).id.bits,
                    ) ==> final(manifold)@[i].id != (#[trigger] final(manifold)@[j]).id
                &&& manifold_ids_live(final(self).ids(), final(manifold)@)
                &&& grown(old(self).ids(), final(self).ids(), final(manifold)@)
                &&& final(self).ids().dom().len() == old(self).ids().dom().len() + fresh_points(
                    old(manifold)@,
                    points@,
                    points@.len() as int,
                )
                &&& final(self).ids().dom().len() <= old(self).ids().dom().len() + points@.len()
                &&& final(self).contact_log() == old(self).contact_log() + contact_transition(
                    old(manifold)@.len() > 0,
                    points@.len() > 0,
                    handle1,
                    handle2,
                )
            },
    {
        let limit: usize = self.id_allocator.limit_of();
        let held: usize = self.id_allocator.len();
        if held > limit || points.len() > limit - held {
            return Err(CollisionError::ContactIdsExhausted);
        }
        let had_contacts = manifold.len() != 0;
        manifold.save_cache_and_clear();
        let mut i: usize = 0;
        while i < points.len()
            invariant
                i <= points@.len(),
                manifold@.len() == i,
                manifold.saved() == old(manifold)@,
                forall|k: int|
                    0 <= k < i ==> #[trigger] manifold@[k] == crate::contact::followed(
                        old(manifold)@,
                        points@[k],
                    ),
            decreases points@.len() - i,
        {
            manifold.push(points[i]);
            i += 1;
        }
        let ghost pushed = manifold@;
        let mut j: usize = 0;
        while j < manifold.len()
            invariant
                j <= manifold@.len(),
                manifold@.len() == points@.len(),
                pushed.len() == points@.len(),
                manifold.saved() == old(manifold)@,
                manifold_ids_live(old(self).ids(), old(manifold)@),
                forall|k: int|
                    0 <= k < pushed.len() ==> #[trigger] pushed[k] == crate::contact::followed(
                        old(manifold)@,
                        points@[k],
                    ),
                forall|k: int| j <= k < pushed.len() ==> #[trigger] manifold@[k] == pushed[k],
                forall|k: int|
                    0 <= k < j ==> refreshed(
                        old(self).ids(),
                        old(manifold)@,
                        points@[k],
                        #[trigger] manifold@[k],
                    ),
                forall|k: int|
                    0 <= k < j ==> (#[trigger] manifold@[k]).id.null() || self.ids().dom().contains(
                        manifold@[k].id.bits,
                    ),
                forall|a: int, b: int|
                    0 <= a < b < j && !old(self).ids().dom().contains(
                        (#[trigger] manifold@[a]).id.bits,
                    ) ==> manifold@[a].id != (#[trigger] manifold@[b]).id,
                self.id_allocator.wf(),
                self.id_allocator.unmarked(),
                old(self).ids().dom().finite(),
                old(self).ids().dom().subset_of(self.ids().dom()),
                self.ids().dom().len() <= old(self).ids().dom().len() + j,
                self.ids().dom().len() == old(self).ids().dom().len() + fresh_points(
                    old(manifold)@,
                    points@,
                    j as int,
                ),
                old(self).ids().dom().len() + points@.len() <= old(self).id_limit(),
                forall|bits: u64|
                    old(self).ids().dom().contains(bits) ==> self.ids()[bits] == old(self).ids()[bits],
                forall|bits: u64|
                    self.ids().dom().contains(bits) && !old(self).ids().dom().contains(bits)
                        ==> exists|k: int| 0 <= k < j && (#[trigger] manifold@[k]).id.bits == bits,
                self.contact_events@ == old(self).contact_events@,
                self.proximity_events@ == old(self).proximity_events@,
                self.contact_dispatcher == old(self).contact_dispatcher,
                self.proximity_dispatcher == old(self).proximity_dispatcher,
                self.id_allocator.limit() == old(self).id_allocator.limit(),
            decreases manifold@.len() - j,
        {
            let contact = manifold.contact(j);
            proof {
                lemma_cached_id_is_saved(old(manifold)@, points@[j as int].feature1, points@[j as int].feature2);
            }
            if contact.id.is_null() {
                let ghost before = self.ids();
                let ghost held = manifold@;
                match self.id_allocator.allocate() {
                    Some(id) => {
                        manifold.set_id(j, id);
                        proof {
                            assert forall|bits: u64|
                                self.ids().dom().contains(bits) && !old(self).ids().dom().contains(
                                    bits,
                                ) implies exists|k: int|
                                0 <= k < j + 1 && (#[trigger] manifold@[k]).id.bits == bits by {
                                if bits == id.bits {
                                    assert(manifold@[j as int].id.bits == bits);
                                } else {
                                    assert(before.dom().contains(bits));
                                    let k = choose|k: int|
                                        0 <= k < j && (#[trigger] held[k]).id.bits == bits;
                                    assert(manifold@[k] == held[k]);
                                }
                            }
                            assert forall|a: int, b: int|
                                0 <= a < b < j + 1 && !old(self).ids().dom().contains(
                                    (#[trigger] manifold@[a]).id.bits,
                                ) implies manifold@[a].id != (#[trigger] manifold@[b]).id by {
                                assert(manifold@[a] == held[a]);
                                if b == j {
                                    assert(held[a].id.null() || before.dom().contains(
                                        held[a].id.bits,
                                    ));
                                } else {
                                    assert(manifold@[b] == held[b]);
                                }
                            }
                            assert forall|k: int| 0 <= k < j + 1 implies refreshed(
                                old(self).ids(),
                                old(manifold)@,
                                points@[k],
                                #[trigger] manifold@[k],
                            ) by {
                                if k < j {
                                    assert(manifold@[k] == held[k]);
                                } else {
                                    assert(held[k] == pushed[k]);
                                }
                            }
                            assert forall|k: int| 0 <= k < j + 1 implies (
                            #[trigger] manifold@[k]).id.null() || self.ids().dom().contains(
                                manifold@[k].id.bits,
                            ) by {
                                if k < j {
                                    assert(manifold@[k] == held[k]);
                                }
                            }
                            assert forall|k: int| j + 1 <= k < pushed.len() implies #[trigger] manifold@[k]
                                == pushed[k] by {
                                assert(manifold@[k] == held[k]);
                            }
                        }
                    },
                    None => {
                        proof {
                            vstd::set_lib::lemma_len_subset(old(self).ids().dom(), self.ids().dom());
                            assert(false);
                        }
                    },
                }
            } else {
                proof {
                    assert(manifold@[j as int] == pushed[j as int]);
                    let carried = cached_id(
                        old(manifold)@,
                        points@[j as int].feature1,
                        points@[j as int].feature2,
                    );
                    let w = choose|w: int|
                        0 <= w < old(manifold)@.len() && #[trigger] old(manifold)@[w].id == carried;
                    assert(old(self).ids().dom().contains(carried.bits));
                }
            }
            j += 1;
        }
        if manifold.len() == 0 {
            if had_contacts {
                self.contact_events.push(ContactEvent::Stopped(handle1, handle2));
            }
        } else {
            if !had_contacts {
                self.contact_events.push(ContactEvent::Started(handle1, handle2));
            }
        }
        proof {
            assert(self.contact_log() =~= old(self).contact_log() + contact_transition(
                old(manifold)@.len() > 0,
                points@.len() > 0,
                handle1,
                handle2,
            ));
        }
        Ok(())
    }
}

impl<CD, PD> NarrowPhase<CD, PD> {
    /// Stores the proximity that a detector found for a pair, and raises an
    /// event where it differs from the one stored before.
    pub fn record_proximity(
        &mut self,
        handle1: CollisionObjectHandle,
        handle2: CollisionObjectHandle,
        status: &mut Proximity,
        found: Proximity,
    )
        ensures
            *final(status) == found,
            final(self).wf() == old(self).wf(),
            final(self).ids() == old(self).ids(),
            final(self).contact_log() == old(self).contact_log(),
            final(self).contact_dispatcher() == old(self).contact_dispatcher(),
            final(self).proximity_dispatcher() == old(self).proximity_dispatcher(),
            final(self).id_limit() == old(self).id_limit(),
            final(self).proximity_log() == old(self).proximity_log() + proximity_transition(
                *old(status),
                found,
                handle1,
                handle2,
            ),
    {
        let prev = *status;
        *status = found;
        if found != prev {
            self.proximity_events.push(ProximityEvent::new(handle1, handle2, prev, found));
        }
        proof {
            assert(self.proximity_log() =~= old(self).proximity_log() + proximity_transition(
                prev,
                found,
                handle1,
                handle2,
            ));
        }
    }

    /// Updates the contacts of a pair of which both objects ask for contacts.
    ///
    /// The generator is run on both shapes with the prediction of the pair:
    /// it becomes `contact_generated`, and the manifold is refreshed with the
    /// contacts it reports, `contact_points`, as `refresh_manifold` says.
    /// Fails, and leaves pool, events and manifold as they are, where the
    /// pool has no room for one identifier for each of these contacts.
    pub fn update_contact<S, T>(
        &mut self,
        co1: &CollisionObject<S, T>,
        co2: &CollisionObject<S, T>,
        detector: &mut CD::Algorithm,
        manifold: &mut ContactManifold,
    ) -> (r: Result<(), CollisionError>) where CD: ContactDispatcher<S>
        requires
            old(self).wf(),
            manifold_ids_live(old(self).ids(), old(manifold)@),
            co1.query_type.prediction_with(co2.query_type) is Some,
        ensures
            final(self).wf(),
            final(self).proximity_log() == old(self).proximity_log(),
            final(self).contact_dispatcher() == old(self).contact_dispatcher(),
            final(self).proximity_dispatcher() == old(self).proximity_dispatcher(),
            final(self).id_limit() == old(self).id_limit(),
            *final(detector) == contact_generated(
                old(self).contact_dispatcher(),
                *co1,
                *co2,
                *old(detector),
            ),
            r is Err <==> old(self).ids().dom().len() + contact_points(
                old(self).contact_dispatcher(),
                *co1,
                *co2,
                *old(detector),
            ).len() > old(self).id_limit(),
            r is Err ==> r == Err::<(), CollisionError>(CollisionError::ContactIdsExhausted),
            r is Err ==> final(self).ids() == old(self).ids() && final(self).contact_log() == old(self).contact_log() && final(manifold)@ == old(manifold)@,
            r is Ok ==> {
                &&& final(manifold).saved() == old(manifold)@
                &&& final(manifold)@.len() == contact_points(
                    old(self).contact_dispatcher(),
                    *co1,
                    *co2,
                    *old(detector),
                ).len()
                &&& forall|i: int|
                    0 <= i < final(manifold)@.len() ==> refreshed(
                        old(self).ids(),
                        old(manifold)@,
                        contact_points(old(self).contact_dispatcher(), *co1, *co2, *old(detector))[i],
                        #[trigger] final(manifold)@[i],
                    )
                &&& forall|i: int, j: int|
                    0 <= i < j < final(manifold)@.len() && !old(self).ids().dom().contains(
                        (#[trigger] final(manifold)@[i]).id.bits,
                    ) ==> final(manifold)@[i].id != (#[trigger] final(manifold)@[j]).id
                &&& forall|i: int|
                    0 <= i < final(manifold)@.len() ==> !(#[trigger] final(manifold)@[i]).id.null()
                &&& manifold_ids_live(final(self).ids(), final(manifold)@)
                &&& grown(old(self).ids(), final(self).ids(), final(manifold)@)
                &&& final(self).ids().dom().len() == old(self).ids().dom().len() + fresh_points(
                    old(manifold)@,
                    contact_points(old(self).contact_dispatcher(), *co1, *co2, *old(detector)),
                    final(manifold)@.len() as int,
                )
                &&& final(self).ids().dom().len() <= old(self).ids().dom().len() + final(manifold)@.len()
                &&& final(self).contact_log() == old(self).contact_log() + contact_transition(
                    old(manifold)@.len() > 0,
                    final(manifold)@.len() > 0,
                    co1.handle,
                    co2.handle,
                )
            },
    {
        match co1.query_type().contact_queries_to_prediction(&co2.query_type()) {
            Some(prediction) => {
                let points = detector.generate_contacts(
                    &self.contact_dispatcher,
                    co1.position(),
                    co1.shape(),
                    co2.position(),
                    co2.shape(),
                    &prediction,
                );
                let r = self.refresh_manifold(co1.handle(), co2.handle(), manifold, &points);
                proof {
                    if r is Ok {
                        assert forall|i: int| 0 <= i < manifold@.len() implies !(
                        #[trigger] manifold@[i]).id.null() by {
                            assert(refreshed(
                                old(self).ids(),
                                old(manifold)@,
                                points@[i],
                                manifold@[i],
                            ));
                        }
                    }
                }
                r
            },
            None => vstd::pervasive::unreached(),
        }
    }

    /// Updates the proximity of a pair: notes what the detector had found,
    /// runs it on both shapes, with the sum of the two query limits as
    /// margin, and raises an event where what it finds now differs.
    pub fn update_proximity<S, T>(
        &mut self,
        co1: &CollisionObject<S, T>,
        co2: &CollisionObject<S, T>,
        detector: &mut PD::Algorithm,
    ) where PD: ProximityDispatcher<S>
        ensures
            *final(detector) == old(detector).updated(
                &old(self).proximity_dispatcher(),
                &co1.position,
                &co1.shape,
                &co2.position,
                &co2.shape,
                clamp(co1.query_type.limit() + co2.query_type.limit()),
            ),
            final(self).wf() == old(self).wf(),
            final(self).ids() == old(self).ids(),
            final(self).contact_log() == old(self).contact_log(),
            final(self).contact_dispatcher() == old(self).contact_dispatcher(),
            final(self).proximity_dispatcher() == old(self).proximity_dispatcher(),
            final(self).id_limit() == old(self).id_limit(),
            final(self).proximity_log() == old(self).proximity_log() + proximity_transition(
                old(detector).status(),
                final(detector).status(),
                co1.handle,
                co2.handle,
            ),
    {
        let mut last = detector.proximity();
        let margin: i64 = sat_add(co1.query_type().query_limit(), co2.query_type().query_limit());
        detector.update(
            &self.proximity_dispatcher,
            co1.position(),
            co1.shape(),
            co2.position(),
            co2.shape(),
            margin,
        );
        let found = detector.proximity();
        self.record_proximity(co1.handle(), co2.handle(), &mut last, found);
    }

    /// Updates the interaction of a pair: its contacts, or its proximity.
    ///
    /// A proximity is always updated, as `proximity_updated` says, and then
    /// keeps beside its detector what the detector found. A contact fails
    /// with `IncompatibleQueryTypes`, and nothing changes, unless both
    /// objects ask for contacts; else it is updated as `update_contact` says.
    pub fn update_interaction<S, T>(
        &mut self,
        co1: &CollisionObject<S, T>,
        co2: &CollisionObject<S, T>,
        interaction: &mut Interaction<CD::Algorithm, PD::Algorithm>,
    ) -> (r: Result<(), CollisionError>) where CD: ContactDispatcher<S>, PD: ProximityDispatcher<S>
        requires
            old(self).wf(),
            manifold_ids_live(old(self).ids(), old(interaction).contacts()),
        ensures
            final(self).wf(),
            final(self).contact_dispatcher() == old(self).contact_dispatcher(),
            final(self).proximity_dispatcher() == old(self).proximity_dispatcher(),
            final(self).id_limit() == old(self).id_limit(),
            *final(interaction) is Contact <==> *old(interaction) is Contact,
            status_kept::<S, CD::Algorithm, PD>(*final(interaction)),
            *old(interaction) is Proximity ==> final(self).ids() == old(self).ids(),
            final(self).ids().dom().len() <= old(self).ids().dom().len() + final(interaction).contacts().len(),
            r is Ok && *old(interaction) is Contact ==> final(self).ids().dom().len() == old(self).ids().dom().len() + fresh_points(
                old(interaction).contacts(),
                contact_points(old(self).contact_dispatcher(), *co1, *co2, old(interaction)->Contact_0),
                final(interaction).contacts().len() as int,
            ),
            r is Err ==> *old(interaction) is Contact,
            *old(interaction) is Proximity ==> *final(interaction) == proximity_updated(
                old(self).proximity_dispatcher(),
                *co1,
                *co2,
                *old(interaction),
            ),
            r == Err::<(), CollisionError>(CollisionError::IncompatibleQueryTypes) <==> *old(interaction) is Contact && co1.query_type.prediction_with(co2.query_type) is None,
            r == Err::<(), CollisionError>(CollisionError::IncompatibleQueryTypes) ==> *final(interaction) == *old(interaction),
            r == Err::<(), CollisionError>(CollisionError::ContactIdsExhausted) <==> *old(interaction) is Contact && co1.query_type.prediction_with(co2.query_type) is Some && old(self).ids().dom().len() + contact_points(
                old(self).contact_dispatcher(),
                *co1,
                *co2,
                old(interaction)->Contact_0,
            ).len() > old(self).id_limit(),
            r == Err::<(), CollisionError>(CollisionError::ContactIdsExhausted) ==> final(interaction)->Contact_0
                == contact_generated(
                old(self).contact_dispatcher(),
                *co1,
                *co2,
                old(interaction)->Contact_0,
            ),
            r is Ok ==> contact_found(
                old(self).contact_dispatcher(),
                *co1,
                *co2,
                *old(interaction),
                *final(interaction),
            ),
            r is Ok && *old(interaction) is Contact ==> forall|i: int|
                0 <= i < final(interaction).contacts().len() ==> refreshed(
                    old(self).ids(),
                    old(interaction).contacts(),
                    contact_points(old(self).contact_dispatcher(), *co1, *co2, old(interaction)->Contact_0)[i],
                    #[trigger] final(interaction).contacts()[i],
                ),
            r is Err ==> final(self).ids() == old(self).ids() && final(self).contact_log() == old(self).contact_log() && final(self).proximity_log() == old(self).proximity_log() && final(interaction).contacts() == old(interaction).contacts(),
            r is Ok ==> {
                &&& forall|i: int|
                    0 <= i < final(interaction).contacts().len() ==> !(#[trigger] final(interaction).contacts()[i]).id.null()
                &&& manifold_ids_live(final(self).ids(), final(interaction).contacts())
                &&& grown(old(self).ids(), final(self).ids(), final(interaction).contacts())
                &&& final(self).contact_log() == old(self).contact_log() + edge_contact_events(
                    *old(interaction),
                    *final(interaction),
                    co1.handle,
                    co2.handle,
                )
                &&& final(self).proximity_log() == old(self).proximity_log() + proximity_raised(
                    old(self).proximity_dispatcher(),
                    *co1,
                    *co2,
                    *old(interaction),
                )
                &&& status_kept::<S, CD::Algorithm, PD>(*old(interaction))
                    ==> final(self).proximity_log() == old(self).proximity_log() + edge_proximity_events(
                    *old(interaction),
                    *final(interaction),
                    co1.handle,
                    co2.handle,
                )
            },
    {
        match interaction {
            Interaction::Contact(detector, manifold) => {
                proof {
                    assert(self.proximity_log() =~= old(self).proximity_log() + Seq::<
                        ProximityEvent,
                    >::empty());
                }
                if co1.query_type().contact_queries_to_prediction(&co2.query_type()).is_none() {
                    return Err(CollisionError::IncompatibleQueryTypes);
                }
                self.update_contact(co1, co2, detector, manifold)
            },
            Interaction::Proximity(detector, status) => {
                self.update_proximity(co1, co2, detector);
                *status = detector.proximity();
                proof {
                    assert(self.contact_log() =~= old(self).contact_log() + Seq::<
                        ContactEvent,
                    >::empty());
                }
                Ok(())
            },
        }
    }
}

/// Whether a contact that stands before the `c_end`-th contact of the
/// `e_end`-th edge has the identifier `bits`.
pub open spec fn id_seen<C, P>(edges: Seq<Edge<C, P>>, e_end: int, c_end: int, bits: u64) -> bool {
    exists|e: int, c: int|
        0 <= e < edges.len() && 0 <= c < edges[e].weight.contacts().len() && (e < e_end || (e
            == e_end && c < c_end)) && (#[trigger] edges[e].weight.contacts()[c]).id.bits == bits
}

/// The identifiers that stay in the pool when those that no contact has are
/// dropped, all unmarked.
pub open spec fn collected<C, P>(ids: Map<u64, bool>, edges: Seq<Edge<C, P>>) -> Map<u64, bool> {
    Map::new(|bits: u64| ids.dom().contains(bits) && id_in_use(edges, bits), |bits: u64| false)
}

/// The identifiers that leave the pool when those that no contact has are
/// dropped.
pub open spec fn dropped<C, P>(ids: Map<u64, bool>, edges: Seq<Edge<C, P>>) -> Set<u64> {
    ids.dom().filter(|bits: u64| !id_in_use(edges, bits))
}

/// Dropping the identifiers that no contact has makes the pool smaller by
/// their number: what stays and what leaves make up the pool as it was.
pub proof fn lemma_collected_count<C, P>(ids: Map<u64, bool>, edges: Seq<Edge<C, P>>)
    requires
        ids.dom().finite(),
    ensures
        collected(ids, edges).dom().finite(),
        dropped(ids, edges).finite(),
        collected(ids, edges).dom().len() + dropped(ids, edges).len() == ids.dom().len(),
{
    let kept = collected(ids, edges).dom();
    let gone = dropped(ids, edges);
    ids.dom().lemma_len_filter(|bits: u64| !id_in_use(edges, bits));
    ids.dom().lemma_len_filter(|bits: u64| id_in_use(edges, bits));
    assert(kept =~= ids.dom().filter(|bits: u64| id_in_use(edges, bits)));
    assert(kept.disjoint(gone));
    assert(kept + gone =~= ids.dom());
    vstd::set_lib::lemma_set_disjoint_lens(kept, gone);
}

/// Whether every contact of the edges has an identifier, and any two of
/// them have different ones.
pub open spec fn ids_distinct<C, P>(edges: Seq<Edge<C, P>>) -> bool {
    &&& forall|e: int, c: int|
        0 <= e < edges.len() && 0 <= c < edges[e].weight.contacts().len() ==> !(
        #[trigger] edges[e].weight.contacts()[c]).id.null()
    &&& forall|e1: int, c1: int, e2: int, c2: int|
        0 <= e1 < edges.len() && 0 <= c1 < edges[e1].weight.contacts().len() && 0 <= e2 < edges.len()
            && 0 <= c2 < edges[e2].weight.contacts().len() && (e1 != e2 || c1 != c2) ==> (
        #[trigger] edges[e1].weight.contacts()[c1]).id != (
        #[trigger] edges[e2].weight.contacts()[c2]).id
}

/// Whether a contact that stands before the `c_end`-th contact of the
/// `e_end`-th edge, on an edge that ends at `node`, has the identifier
/// `bits`.
pub open spec fn id_seen_at<C, P>(
    edges: Seq<Edge<C, P>>,
    node: int,
    e_end: int,
    c_end: int,
    bits: u64,
) -> bool {
    exists|e: int, c: int|
        0 <= e < edges.len() && 0 <= c < edges[e].weight.contacts().len() && edges[e].touches(node)
            && (e < e_end || (e == e_end && c < c_end)) && (
        #[trigger] edges[e].weight.contacts()[c]).id.bits == bits
}

/// The number of contacts on those of the first `upto` edges that end at
/// `node`.
pub open spec fn contacts_at<C, P>(edges: Seq<Edge<C, P>>, node: int, upto: int) -> nat
    decreases upto,
{
    if upto <= 0 {
        0
    } else {
        contacts_at(edges, node, upto - 1) + (if edges[upto - 1].touches(node) {
            edges[upto - 1].weight.contacts().len()
        } else {
            0
        })
    }
}

/// Where any two contacts have different identifiers, the contacts on the
/// edges that end at a node have as many identifiers as there are contacts.
pub proof fn lemma_ids_counted<C, P>(edges: Seq<Edge<C, P>>, node: int, e_end: int, c_end: int)
    requires
        ids_distinct(edges),
        0 <= e_end <= edges.len(),
        0 <= c_end,
        e_end < edges.len() ==> c_end <= edges[e_end].weight.contacts().len(),
        e_end == edges.len() ==> c_end == 0,
    ensures
        Set::new(|bits: u64| id_seen_at(edges, node, e_end, c_end, bits)).finite(),
        Set::new(|bits: u64| id_seen_at(edges, node, e_end, c_end, bits)).len() == contacts_at(
            edges,
            node,
            e_end,
        ) + (if e_end < edges.len() && edges[e_end].touches(node) {
            c_end
        } else {
            0
        }),
    decreases e_end, c_end,
{
    let seen = Set::new(|bits: u64| id_seen_at(edges, node, e_end, c_end, bits));
    if c_end > 0 {
        lemma_ids_counted(edges, node, e_end, c_end - 1);
        let prev = Set::new(|bits: u64| id_seen_at(edges, node, e_end, c_end - 1, bits));
        let id = edges[e_end].weight.contacts()[c_end - 1].id;
        if edges[e_end].touches(node) {
            assert(!prev.contains(id.bits)) by {
                if id_seen_at(edges, node, e_end, c_end - 1, id.bits) {
                    let (e, c) = choose|e: int, c: int|
                        0 <= e < edges.len() && 0 <= c < edges[e].weight.contacts().len()
                            && edges[e].touches(node) && (e < e_end || (e == e_end && c < c_end - 1))
                            && (#[trigger] edges[e].weight.contacts()[c]).id.bits == id.bits;
                    assert(edges[e].weight.contacts()[c].id == id);
                }
            }
            assert(seen =~= prev.insert(id.bits)) by {
                assert forall|bits: u64| seen.contains(bits) implies prev.insert(id.bits).contains(
                    bits,
                ) by {
                    let (e, c) = choose|e: int, c: int|
                        0 <= e < edges.len() && 0 <= c < edges[e].weight.contacts().len()
                            && edges[e].touches(node) && (e < e_end || (e == e_end && c < c_end))
                            && (#[trigger] edges[e].weight.contacts()[c]).id.bits == bits;
                    if !(e == e_end && c == c_end - 1) {
                        assert(id_seen_at(edges, node, e_end, c_end - 1, bits));
                    }
                }
                assert forall|bits: u64| prev.insert(id.bits).contains(bits) implies seen.contains(
                    bits,
                ) by {
                    if bits == id.bits {
                        assert(edges[e_end].weight.contacts()[c_end - 1].id.bits == bits);
                    } else {
                        let (e, c) = choose|e: int, c: int|
                            0 <= e < edges.len() && 0 <= c < edges[e].weight.contacts().len()
                                && edges[e].touches(node) && (e < e_end || (e == e_end && c < c_end
                                - 1)) && (#[trigger] edges[e].weight.contacts()[c]).id.bits == bits;
                        assert(edges[e].weight.contacts()[c].id.bits == bits);
                    }
                }
            }
        } else {
            assert(seen =~= prev) by {
                assert forall|bits: u64| seen.contains(bits) implies prev.contains(bits) by {
                    let (e, c) = choose|e: int, c: int|
                        0 <= e < edges.len() && 0 <= c < edges[e].weight.contacts().len()
                            && edges[e].touches(node) && (e < e_end || (e == e_end && c < c_end))
                            && (#[trigger] edges[e].weight.contacts()[c]).id.bits == bits;
                    assert(e != e_end);
                    assert(id_seen_at(edges, node, e_end, c_end - 1, bits));
                }
                assert forall|bits: u64| prev.contains(bits) implies seen.contains(bits) by {
                    let (e, c) = choose|e: int, c: int|
                        0 <= e < edges.len() && 0 <= c < edges[e].weight.contacts().len()
                            && edges[e].touches(node) && (e < e_end || (e == e_end && c < c_end - 1))
                            && (#[trigger] edges[e].weight.contacts()[c]).id.bits == bits;
                    assert(edges[e].weight.contacts()[c].id.bits == bits);
                }
            }
        }
    } else if e_end > 0 {
        let last = edges[e_end - 1].weight.contacts().len() as int;
        lemma_ids_counted(edges, node, e_end - 1, last);
        let prev = Set::new(|bits: u64| id_seen_at(edges, node, e_end - 1, last, bits));
        assert(seen =~= prev) by {
            assert forall|bits: u64| seen.contains(bits) implies prev.contains(bits) by {
                let (e, c) = choose|e: int, c: int|
                    0 <= e < edges.len() && 0 <= c < edges[e].weight.contacts().len()
                        && edges[e].touches(node) && (e < e_end || (e == e_end && c < 0)) && (
                    #[trigger] edges[e].weight.contacts()[c]).id.bits == bits;
                assert(edges[e].weight.contacts()[c].id.bits == bits);
                assert(id_seen_at(edges, node, e_end - 1, last, bits));
            }
            assert forall|bits: u64| prev.contains(bits) implies seen.contains(bits) by {
                let (e, c) = choose|e: int, c: int|
                    0 <= e < edges.len() && 0 <= c < edges[e].weight.contacts().len()
                        && edges[e].touches(node) && (e < e_end - 1 || (e == e_end - 1 && c < last))
                        && (#[trigger] edges[e].weight.contacts()[c]).id.bits == bits;
                assert(edges[e].weight.contacts()[c].id.bits == bits);
            }
        }
    } else {
        assert(seen =~= Set::<u64>::empty());
    }
}

/// Where the pool holds exactly the identifiers of the contacts, any two
/// of them different, and a node leaves the graph with its edges, dropping
/// the identifiers that no contact has any more makes the pool smaller by
/// the number of contacts on the edges that left.
pub proof fn lemma_removed_count<C, P>(ids: Map<u64, bool>, edges: Seq<Edge<C, P>>, n: int, node: int)
    requires
        ids.dom().finite(),
        ids_distinct(edges),
        forall|bits: u64| ids.dom().contains(bits) <==> id_in_use(edges, bits),
    ensures
        collected(ids, crate::interaction_graph::edges_after_removal(edges, n, node)).dom().len()
            + contacts_at(edges, node, edges.len() as int) == ids.dom().len(),
{
    let after = crate::interaction_graph::edges_after_removal(edges, n, node);
    let rest = crate::interaction_graph::without_node(edges, node);
    let gone = Set::new(|bits: u64| id_seen_at(edges, node, edges.len() as int, 0, bits));
    crate::interaction_graph::lemma_without_node(edges, node);
    lemma_collected_count(ids, after);
    lemma_ids_counted(edges, node, edges.len() as int, 0);
    assert(dropped(ids, after) =~= gone) by {
        assert forall|bits: u64| dropped(ids, after).contains(bits) implies gone.contains(bits) by {
            assert(id_in_use(edges, bits));
            let (e, c) = choose|e: int, c: int|
                0 <= e < edges.len() && 0 <= c < edges[e].weight.contacts().len() && (
                #[trigger] edges[e].weight.contacts()[c]).id.bits == bits;
            if !edges[e].touches(node) {
                assert(rest.contains(edges[e]));
                let k = choose|k: int| 0 <= k < rest.len() && rest[k] == edges[e];
                assert(after[k].weight == edges[e].weight);
                assert(after[k].weight.contacts()[c].id.bits == bits);
                assert(id_in_use(after, bits));
            }
            assert(edges[e].weight.contacts()[c].id.bits == bits);
        }
        assert forall|bits: u64| gone.contains(bits) implies dropped(ids, after).contains(bits) by {
            let (e, c) = choose|e: int, c: int|
                0 <= e < edges.len() && 0 <= c < edges[e].weight.contacts().len() && edges[e].touches(
                    node,
                ) && (e < edges.len() || (e == edges.len() && c < 0)) && (
                #[trigger] edges[e].weight.contacts()[c]).id.bits == bits;
            assert(edges[e].weight.contacts()[c].id.bits == bits);
            assert(id_in_use(edges, bits));
            if id_in_use(after, bits) {
                let (k, c2) = choose|k: int, c2: int|
                    0 <= k < after.len() && 0 <= c2 < after[k].weight.contacts().len() && (
                    #[trigger] after[k].weight.contacts()[c2]).id.bits == bits;
                assert(after[k].weight == rest[k].weight);
                assert(!rest[k].touches(node) && edges.contains(rest[k]));
                let b = choose|b: int| 0 <= b < edges.len() && edges[b] == rest[k];
                assert(b != e);
                assert(edges[b].weight.contacts()[c2].id == edges[e].weight.contacts()[c].id);
                assert(false);
            }
        }
    }
}

impl<CD, PD> NarrowPhase<CD, PD> {
    /// Whether each proximity of the graph keeps beside its detector what
    /// the detector last found.
    pub fn holds_statuses_of<S, C>(
        &self,
        interactions: &InteractionGraph<C, PD::Algorithm>,
    ) -> (r: bool) where PD: ProximityDispatcher<S>
        ensures
            r == edges_kept::<S, C, PD>(interactions.edges()),
    {
        let ghost edges = interactions.edges();
        let count: usize = interactions.edge_count();
        let mut e: usize = 0;
        while e < count
            invariant
                e <= count,
                count == edges.len(),
                edges == interactions.edges(),
                forall|k: int|
                    0 <= k < e ==> status_kept::<S, C, PD>((#[trigger] edges[k]).weight),
            decreases count - e,
        {
            match interactions.edge_weight(TemporaryInteractionIndex(e)) {
                Some(weight) => match weight {
                    Interaction::Proximity(detector, status) => {
                        if detector.proximity() != *status {
                            proof {
                                assert(!status_kept::<S, C, PD>(edges[e as int].weight));
                            }
                            return false;
                        }
                    },
                    Interaction::Contact(_, _) => {},
                },
                None => {},
            }
            e += 1;
        }
        true
    }

    /// Whether the pool holds the identifier of every contact of the
    /// manifold that has one.
    pub fn holds_contacts_of(&self, manifold: &ContactManifold) -> (r: bool)
        requires
            self.wf(),
        ensures
            r == manifold_ids_live(self.ids(), manifold@),
    {
        let mut c: usize = 0;
        while c < manifold.len()
            invariant
                c <= manifold@.len(),
                self.wf(),
                forall|k: int|
                    0 <= k < c ==> (#[trigger] manifold@[k]).id.null() || self.ids().dom().contains(
                        manifold@[k].id.bits,
                    ),
            decreases manifold@.len() - c,
        {
            let id = manifold.contact(c).id;
            if !id.is_null() && !self.id_allocator.contains(id) {
                proof {
                    assert(manifold@[c as int].id == id);
                }
                return false;
            }
            c += 1;
        }
        true
    }

    /// Whether the pool holds the identifier of every contact of the graph
    /// that has one.
    pub fn holds_ids_of<C, P>(&self, interactions: &InteractionGraph<C, P>) -> (r: bool)
        requires
            self.wf(),
        ensures
            r == contact_ids_live(self.ids(), interactions.edges()),
    {
        let ghost edges = interactions.edges();
        let count: usize = interactions.edge_count();
        let mut e: usize = 0;
        while e < count
            invariant
                e <= count,
                count == edges.len(),
                edges == interactions.edges(),
                self.wf(),
                forall|k: int|
                    0 <= k < e ==> manifold_ids_live(self.ids(), (#[trigger] edges[k]).weight.contacts()),
            decreases count - e,
        {
            match interactions.edge_weight(TemporaryInteractionIndex(e)) {
                Some(Interaction::Contact(_, manifold)) => {
                    let mut c: usize = 0;
                    while c < manifold.len()
                        invariant
                            e < count,
                            count == edges.len(),
                            edges == interactions.edges(),
                            c <= manifold@.len(),
                            manifold@ == edges[e as int].weight.contacts(),
                            self.wf(),
                            forall|k: int|
                                0 <= k < c ==> (#[trigger] manifold@[k]).id.null()
                                    || self.ids().dom().contains(manifold@[k].id.bits),
                        decreases manifold@.len() - c,
                    {
                        let id = manifold.contact(c).id;
                        if !id.is_null() && !self.id_allocator.contains(id) {
                            proof {
                                let contacts = edges[e as int].weight.contacts();
                                assert(contacts[c as int].id == id);
                                assert(!manifold_ids_live(self.ids(), contacts));
                                assert(!contact_ids_live(self.ids(), edges)) by {
                                    if contact_ids_live(self.ids(), edges) {
                                        assert(manifold_ids_live(
                                            self.ids(),
                                            edges[e as int].weight.contacts(),
                                        ));
                                    }
                                }
                            }
                            return false;
                        }
                        c += 1;
                    }
                },
                _ => {
                    proof {
                        assert(edges[e as int].weight.contacts().len() == 0);
                    }
                },
            }
            e += 1;
        }
        true
    }

    /// Drops from the pool every identifier that no contact of the graph has.
    /// Afterwards a contact of the graph has each identifier of the pool.
    pub fn garbage_collect_ids<C, P>(&mut self, interactions: &InteractionGraph<C, P>)
        requires
            old(self).wf(),
            contact_ids_live(old(self).ids(), interactions.edges()),
        ensures
            final(self).wf(),
            final(self).ids() == collected(old(self).ids(), interactions.edges()),
            contact_ids_live(final(self).ids(), interactions.edges()),
            forall|bits: u64|
                final(self).ids().dom().contains(bits) ==> id_in_use(interactions.edges(), bits),
            final(self).contact_log() == old(self).contact_log(),
            final(self).proximity_log() == old(self).proximity_log(),
            final(self).contact_dispatcher() == old(self).contact_dispatcher(),
            final(self).proximity_dispatcher() == old(self).proximity_dispatcher(),
            final(self).id_limit() == old(self).id_limit(),
    {
        let ghost edges = interactions.edges();
        let count: usize = interactions.edge_count();
        let mut e: usize = 0;
        while e < count
            invariant
                e <= count,
                count == edges.len(),
                edges == interactions.edges(),
                self.id_allocator.wf(),
                contact_ids_live(old(self).ids(), edges),
                self.ids().dom() == old(self).ids().dom(),
                forall|bits: u64|
                    self.ids().dom().contains(bits) ==> self.ids()[bits] == id_seen(
                        edges,
                        e as int,
                        0,
                        bits,
                    ),
                self.contact_events@ == old(self).contact_events@,
                self.proximity_events@ == old(self).proximity_events@,
                self.contact_dispatcher == old(self).contact_dispatcher,
                self.proximity_dispatcher == old(self).proximity_dispatcher,
                self.id_allocator.limit() == old(self).id_allocator.limit(),
            decreases count - e,
        {
            match interactions.edge_weight(TemporaryInteractionIndex(e)) {
                Some(Interaction::Contact(_, manifold)) => {
                    let mut c: usize = 0;
                    while c < manifold.len()
                        invariant
                            e < count,
                            count == edges.len(),
                            c <= manifold@.len(),
                            manifold@ == edges[e as int].weight.contacts(),
                            self.id_allocator.wf(),
                            contact_ids_live(old(self).ids(), edges),
                            self.ids().dom() == old(self).ids().dom(),
                            forall|bits: u64|
                                self.ids().dom().contains(bits) ==> self.ids()[bits] == id_seen(
                                    edges,
                                    e as int,
                                    c as int,
                                    bits,
                                ),
                            self.contact_events@ == old(self).contact_events@,
                            self.proximity_events@ == old(self).proximity_events@,
                            self.contact_dispatcher == old(self).contact_dispatcher,
                            self.proximity_dispatcher == old(self).proximity_dispatcher,
                            self.id_allocator.limit() == old(self).id_allocator.limit(),
                        decreases manifold@.len() - c,
                    {
                        let id = manifold.contact(c).id;
                        let ghost before = self.ids();
                        proof {
                            assert(manifold_ids_live(old(self).ids(), edges[e as int].weight.contacts()));
                            assert(edges[e as int].weight.contacts()[c as int].id == id);
                        }
                        if !id.is_null() {
                            self.id_allocator.mark(id);
                            proof {
                                assert(self.ids().dom() =~= before.dom());
                            }
                        }
                        proof {
                            assert forall|bits: u64| self.ids().dom().contains(bits) implies self.ids()[bits]
                                == id_seen(edges, e as int, c + 1, bits) by {
                                if bits == id.bits {
                                    assert(edges[e as int].weight.contacts()[c as int].id.bits == bits);
                                } else {
                                    assert(self.ids()[bits] == before[bits]);
                                    if id_seen(edges, e as int, c + 1, bits) {
                                        let (x, y) = choose|x: int, y: int|
                                            0 <= x < edges.len() && 0 <= y
                                                < edges[x].weight.contacts().len() && (x < e || (x
                                                == e && y < c + 1)) && (
                                            #[trigger] edges[x].weight.contacts()[y]).id.bits == bits;
                                        assert(x < e || (x == e && y < c));
                                    }
                                    if id_seen(edges, e as int, c as int, bits) {
                                        let (x, y) = choose|x: int, y: int|
                                            0 <= x < edges.len() && 0 <= y
                                                < edges[x].weight.contacts().len() && (x < e || (x
                                                == e && y < c)) && (
                                            #[trigger] edges[x].weight.contacts()[y]).id.bits == bits;
                                        assert(x < e || (x == e && y < c + 1));
                                    }
                                }
                            }
                        }
                        c += 1;
                    }
                    proof {
                        assert forall|bits: u64| self.ids().dom().contains(bits) implies self.ids()[bits]
                            == id_seen(edges, e + 1, 0, bits) by {
                            lemma_id_seen_next(edges, e as int, bits);
                        }
                    }
                },
                _ => {
                    proof {
                        assert(edges[e as int].weight.contacts().len() == 0);
                        assert forall|bits: u64| self.ids().dom().contains(bits) implies self.ids()[bits]
                            == id_seen(edges, e + 1, 0, bits) by {
                            lemma_id_seen_next(edges, e as int, bits);
                        }
                    }
                },
            }
            e += 1;
        }
        let ghost marks = self.ids();
        self.id_allocator.sweep();
        proof {
            assert forall|bits: u64| marks.dom().contains(bits) implies marks[bits] == id_in_use(
                edges,
                bits,
            ) by {
                lemma_id_seen_all(edges, bits);
            }
            assert(self.ids() =~= collected(old(self).ids(), edges));
            assert forall|x: int| 0 <= x < edges.len() implies manifold_ids_live(
                self.ids(),
                (#[trigger] edges[x]).weight.contacts(),
            ) by {
                let contacts = edges[x].weight.contacts();
                assert(manifold_ids_live(old(self).ids(), contacts));
                assert forall|y: int| 0 <= y < contacts.len() implies (
                #[trigger] contacts[y]).id.null() || self.ids().dom().contains(
                    contacts[y].id.bits,
                ) by {
                    if !contacts[y].id.null() {
                        assert(edges[x].weight.contacts()[y].id.bits == contacts[y].id.bits);
                        assert(id_in_use(edges, contacts[y].id.bits));
                    }
                }
            }
        }
    }
}

/// The contacts that stand before the end of an edge are those that stand
/// before the first contact of the next edge.
pub proof fn lemma_id_seen_next<C, P>(edges: Seq<Edge<C, P>>, e: int, bits: u64)
    requires
        0 <= e < edges.len(),
    ensures
        id_seen(edges, e, edges[e].weight.contacts().len() as int, bits) == id_seen(
            edges,
            e + 1,
            0,
            bits,
        ),
{
    let n = edges[e].weight.contacts().len() as int;
    if id_seen(edges, e, n, bits) {
        let (x, y) = choose|x: int, y: int|
            0 <= x < edges.len() && 0 <= y < edges[x].weight.contacts().len() && (x < e || (x == e
                && y < n)) && (#[trigger] edges[x].weight.contacts()[y]).id.bits == bits;
        assert(x < e + 1 || (x == e + 1 && y < 0));
    }
    if id_seen(edges, e + 1, 0, bits) {
        let (x, y) = choose|x: int, y: int|
            0 <= x < edges.len() && 0 <= y < edges[x].weight.contacts().len() && (x < e + 1 || (x
                == e + 1 && y < 0)) && (#[trigger] edges[x].weight.contacts()[y]).id.bits == bits;
        assert(x < e || (x == e && y < n));
    }
}

/// The contacts that stand before the end of the last edge are all contacts.
pub proof fn lemma_id_seen_all<C, P>(edges: Seq<Edge<C, P>>, bits: u64)
    ensures
        id_seen(edges, edges.len() as int, 0, bits) == id_in_use(edges, bits),
{
    if id_in_use(edges, bits) {
        let (x, y) = choose|x: int, y: int|
            0 <= x < edges.len() && 0 <= y < edges[x].weight.contacts().len() && (
            #[trigger] edges[x].weight.contacts()[y]).id.bits == bits;
        assert(x < edges.len() || (x == edges.len() && y < 0));
    }
}

/// Whether one of the two objects of an edge changed at step `timestamp`.
pub open spec fn touched<S, T, C, P>(
    objects: Map<CollisionObjectHandle, CollisionObject<S, T>>,
    nodes: Seq<CollisionObjectHandle>,
    edge: Edge<C, P>,
    timestamp: usize,
) -> bool {
    objects[nodes[edge.source as int]].timestamp == timestamp
        || objects[nodes[edge.target as int]].timestamp == timestamp
}

/// Whether contacts can be found for an edge: it is no contact edge, or both
/// of its objects ask for contacts.
pub open spec fn compatible<S, T, C, P>(
    objects: Map<CollisionObjectHandle, CollisionObject<S, T>>,
    nodes: Seq<CollisionObjectHandle>,
    edge: Edge<C, P>,
) -> bool {
    edge.weight is Contact ==> objects[nodes[edge.source as int]].query_type.prediction_with(
        objects[nodes[edge.target as int]].query_type,
    ) is Some
}

/// Whether a step meets, before any contact edge that it looks at, an edge
/// for which contacts cannot be found: a contact edge of which an object
/// changed at this step and of which one object does not ask for contacts,
/// with only proximity edges among those before it that the step looks at.
pub open spec fn fails_incompatible<S, T, C, P>(
    objects: Map<CollisionObjectHandle, CollisionObject<S, T>>,
    nodes: Seq<CollisionObjectHandle>,
    edges: Seq<Edge<C, P>>,
    timestamp: usize,
) -> bool {
    exists|k: int|
        0 <= k < edges.len() && touched(objects, nodes, #[trigger] edges[k], timestamp) && !compatible(
            objects,
            nodes,
            edges[k],
        ) && forall|j: int|
            0 <= j < k && touched(objects, nodes, #[trigger] edges[j], timestamp)
                ==> edges[j].weight is Proximity
}

/// Whether contacts can be found for every edge that a step looks at.
pub open spec fn all_compatible<S, T, C, P>(
    objects: Map<CollisionObjectHandle, CollisionObject<S, T>>,
    nodes: Seq<CollisionObjectHandle>,
    edges: Seq<Edge<C, P>>,
    timestamp: usize,
) -> bool {
    forall|k: int|
        0 <= k < edges.len() && touched(objects, nodes, #[trigger] edges[k], timestamp) ==> compatible(
            objects,
            nodes,
            edges[k],
        )
}

/// The number of contacts that the generators of the first `upto` edges
/// find at a step: those of each contact edge of which an object changed at
/// this step.
pub open spec fn step_points<S, T, CD: ContactDispatcher<S>, P>(
    contact_dispatcher: CD,
    objects: Map<CollisionObjectHandle, CollisionObject<S, T>>,
    nodes: Seq<CollisionObjectHandle>,
    edges: Seq<Edge<CD::Algorithm, P>>,
    timestamp: usize,
    upto: int,
) -> nat
    decreases upto,
{
    if upto <= 0 {
        0
    } else {
        let e = upto - 1;
        step_points(contact_dispatcher, objects, nodes, edges, timestamp, e) + (if touched(
            objects,
            nodes,
            edges[e],
            timestamp,
        ) && edges[e].weight is Contact {
            contact_points(
                contact_dispatcher,
                objects[nodes[edges[e].source as int]],
                objects[nodes[edges[e].target as int]],
                edges[e].weight->Contact_0,
            ).len()
        } else {
            0
        })
    }
}

/// How a step goes over the first `upto` edges, from a pool that holds
/// `held` identifiers and has room for `limit`: the error at which it stops,
/// if it does, and the number of identifiers in the pool afterwards.
///
/// Only a contact edge of which an object changed at this step can stop it:
/// where one of its objects does not ask for contacts, and where the pool
/// has no room for one identifier for each contact that its generator
/// finds. Else the pool grows by the contacts that take over no identifier.
pub open spec fn step_outcome<S, T, CD: ContactDispatcher<S>, P>(
    contact_dispatcher: CD,
    objects: Map<CollisionObjectHandle, CollisionObject<S, T>>,
    nodes: Seq<CollisionObjectHandle>,
    edges: Seq<Edge<CD::Algorithm, P>>,
    timestamp: usize,
    upto: int,
    held: nat,
    limit: nat,
) -> (Option<CollisionError>, nat)
    decreases upto,
{
    if upto <= 0 {
        (None, held)
    } else {
        let e = upto - 1;
        let so_far = step_outcome(contact_dispatcher, objects, nodes, edges, timestamp, e, held, limit);
        let co1 = objects[nodes[edges[e].source as int]];
        let co2 = objects[nodes[edges[e].target as int]];
        if so_far.0 is Some || !touched(objects, nodes, edges[e], timestamp) || edges[e].weight
            is Proximity {
            so_far
        } else if co1.query_type.prediction_with(co2.query_type) is None {
            (Some(CollisionError::IncompatibleQueryTypes), so_far.1)
        } else {
            let points = contact_points(contact_dispatcher, co1, co2, edges[e].weight->Contact_0);
            if so_far.1 + points.len() > limit {
                (Some(CollisionError::ContactIdsExhausted), so_far.1)
            } else {
                (
                    None,
                    so_far.1 + fresh_points(edges[e].weight.contacts(), points, points.len() as int),
                )
            }
        }
    }
}

/// The number of the first `upto` edges that a step is through with: the
/// place of the edge at which it stops, or `upto` where it does not stop.
pub open spec fn step_reach<S, T, CD: ContactDispatcher<S>, P>(
    contact_dispatcher: CD,
    objects: Map<CollisionObjectHandle, CollisionObject<S, T>>,
    nodes: Seq<CollisionObjectHandle>,
    edges: Seq<Edge<CD::Algorithm, P>>,
    timestamp: usize,
    upto: int,
    held: nat,
    limit: nat,
) -> int
    decreases upto,
{
    if upto <= 0 {
        0
    } else if step_outcome(contact_dispatcher, objects, nodes, edges, timestamp, upto, held, limit).0
        is None {
        upto
    } else {
        step_reach(contact_dispatcher, objects, nodes, edges, timestamp, upto - 1, held, limit)
    }
}

/// A step that stops at the edge `e` is through with the edges before it,
/// however many come after it.
pub proof fn lemma_step_reach<S, T, CD: ContactDispatcher<S>, P>(
    contact_dispatcher: CD,
    objects: Map<CollisionObjectHandle, CollisionObject<S, T>>,
    nodes: Seq<CollisionObjectHandle>,
    edges: Seq<Edge<CD::Algorithm, P>>,
    timestamp: usize,
    e: int,
    upto: int,
    held: nat,
    limit: nat,
)
    requires
        0 <= e < upto,
        step_outcome(contact_dispatcher, objects, nodes, edges, timestamp, e, held, limit).0 is None,
        step_outcome(contact_dispatcher, objects, nodes, edges, timestamp, e + 1, held, limit).0
            is Some,
    ensures
        step_reach(contact_dispatcher, objects, nodes, edges, timestamp, upto, held, limit) == e,
    decreases upto - e,
{
    lemma_step_stopped(contact_dispatcher, objects, nodes, edges, timestamp, e + 1, upto, held, limit);
    if e + 1 < upto {
        lemma_step_reach(contact_dispatcher, objects, nodes, edges, timestamp, e, upto - 1, held, limit);
    } else {
        assert(step_reach(contact_dispatcher, objects, nodes, edges, timestamp, e, held, limit) == e);
    }
}

/// What a step that is through with the first `reach` edges leaves: each of
/// them of which an object changed at this step holds what its detector
/// found, and the edges after the next are as they were. The next, if there
/// is one, is the contact edge at which the step stopped: it holds the
/// contacts it held, and its generator has looked again where both objects
/// ask for contacts.
pub open spec fn step_went<S, T, CD: ContactDispatcher<S>, PD: ProximityDispatcher<S>>(
    contact_dispatcher: CD,
    proximity_dispatcher: PD,
    objects: Map<CollisionObjectHandle, CollisionObject<S, T>>,
    nodes: Seq<CollisionObjectHandle>,
    before: Seq<Edge<CD::Algorithm, PD::Algorithm>>,
    after: Seq<Edge<CD::Algorithm, PD::Algorithm>>,
    timestamp: usize,
    reach: int,
) -> bool {
    &&& 0 <= reach <= before.len()
    &&& forall|k: int|
        0 <= k < reach && touched(objects, nodes, #[trigger] before[k], timestamp) ==> {
            &&& compatible(objects, nodes, before[k])
            &&& before[k].weight is Proximity ==> after[k].weight == proximity_updated(
                proximity_dispatcher,
                objects[nodes[before[k].source as int]],
                objects[nodes[before[k].target as int]],
                before[k].weight,
            )
            &&& contact_found(
                contact_dispatcher,
                objects[nodes[before[k].source as int]],
                objects[nodes[before[k].target as int]],
                before[k].weight,
                after[k].weight,
            )
        }
    &&& forall|k: int| reach < k < before.len() ==> after[k] == #[trigger] before[k]
    &&& reach < before.len() ==> {
        let co1 = objects[nodes[before[reach].source as int]];
        let co2 = objects[nodes[before[reach].target as int]];
        &&& before[reach].weight is Contact
        &&& after[reach].weight is Contact
        &&& after[reach].weight.contacts() == before[reach].weight.contacts()
        &&& after[reach].weight->Contact_0 == (if compatible(objects, nodes, before[reach]) {
            contact_generated(contact_dispatcher, co1, co2, before[reach].weight->Contact_0)
        } else {
            before[reach].weight->Contact_0
        })
    }
}

/// The result of a step that went as `outcome` says.
pub open spec fn step_result(outcome: (Option<CollisionError>, nat)) -> Result<(), CollisionError> {
    match outcome.0 {
        Some(error) => Err(error),
        None => Ok(()),
    }
}

/// A step that stopped at an edge has stopped: the edges after it change
/// nothing.
pub proof fn lemma_step_stopped<S, T, CD: ContactDispatcher<S>, P>(
    contact_dispatcher: CD,
    objects: Map<CollisionObjectHandle, CollisionObject<S, T>>,
    nodes: Seq<CollisionObjectHandle>,
    edges: Seq<Edge<CD::Algorithm, P>>,
    timestamp: usize,
    from: int,
    upto: int,
    held: nat,
    limit: nat,
)
    requires
        from <= upto,
        step_outcome(contact_dispatcher, objects, nodes, edges, timestamp, from, held, limit).0 is Some,
    ensures
        step_outcome(contact_dispatcher, objects, nodes, edges, timestamp, upto, held, limit)
            == step_outcome(contact_dispatcher, objects, nodes, edges, timestamp, from, held, limit),
    decreases upto - from,
{
    if from < upto {
        lemma_step_stopped(
            contact_dispatcher,
            objects,
            nodes,
            edges,
            timestamp,
            from,
            upto - 1,
            held,
            limit,
        );
    }
}

/// What one more edge makes of the outcome of a step that has not stopped:
/// `r` is what the update of the edge `e` returned, where the step looks at
/// it, and `after` the number of identifiers in the pool afterwards.
pub proof fn lemma_step_edge<S, T, CD: ContactDispatcher<S>, P>(
    contact_dispatcher: CD,
    objects: Map<CollisionObjectHandle, CollisionObject<S, T>>,
    nodes: Seq<CollisionObjectHandle>,
    edges: Seq<Edge<CD::Algorithm, P>>,
    timestamp: usize,
    e: int,
    held: nat,
    limit: nat,
    before: nat,
    after: nat,
    r: Result<(), CollisionError>,
)
    requires
        0 <= e < edges.len(),
        step_outcome(contact_dispatcher, objects, nodes, edges, timestamp, e, held, limit) == (
            None::<CollisionError>,
            before,
        ),
        touched(objects, nodes, edges[e], timestamp),
        edges[e].weight is Proximity ==> r is Ok && after == before,
        edges[e].weight is Contact ==> {
            let co1 = objects[nodes[edges[e].source as int]];
            let co2 = objects[nodes[edges[e].target as int]];
            let points = contact_points(contact_dispatcher, co1, co2, edges[e].weight->Contact_0);
            &&& r == Err::<(), CollisionError>(CollisionError::IncompatibleQueryTypes)
                <==> co1.query_type.prediction_with(co2.query_type) is None
            &&& r == Err::<(), CollisionError>(CollisionError::ContactIdsExhausted)
                <==> co1.query_type.prediction_with(co2.query_type) is Some && before + points.len()
                > limit
            &&& r is Ok ==> after == before + fresh_points(
                edges[e].weight.contacts(),
                points,
                points.len() as int,
            )
        },
    ensures
        r is Ok ==> step_outcome(contact_dispatcher, objects, nodes, edges, timestamp, e + 1, held, limit)
            == (None::<CollisionError>, after),
        r is Err ==> step_result(
            step_outcome(
                contact_dispatcher,
                objects,
                nodes,
                edges,
                timestamp,
                edges.len() as int,
                held,
                limit,
            ),
        ) == r,
{
    match r {
        Err(CollisionError::ContactIdsExhausted) => {},
        Err(CollisionError::IncompatibleQueryTypes) => {},
        Ok(_) => {},
    }
    if r is Err {
        lemma_step_stopped(
            contact_dispatcher,
            objects,
            nodes,
            edges,
            timestamp,
            e + 1,
            edges.len() as int,
            held,
            limit,
        );
    }
}

/// The generators of more edges find no fewer contacts.
pub proof fn lemma_step_points_grow<S, T, CD: ContactDispatcher<S>, P>(
    contact_dispatcher: CD,
    objects: Map<CollisionObjectHandle, CollisionObject<S, T>>,
    nodes: Seq<CollisionObjectHandle>,
    edges: Seq<Edge<CD::Algorithm, P>>,
    timestamp: usize,
    from: int,
    upto: int,
)
    requires
        from <= upto,
    ensures
        step_points(contact_dispatcher, objects, nodes, edges, timestamp, from) <= step_points(
            contact_dispatcher,
            objects,
            nodes,
            edges,
            timestamp,
            upto,
        ),
    decreases upto - from,
{
    if from < upto {
        lemma_step_points_grow(contact_dispatcher, objects, nodes, edges, timestamp, from, upto - 1);
    }
}

/// The contact events of a step, raised by the first `upto` edges: those of
/// each edge of which an object changed at this step, in the order of the
/// edges.
pub open spec fn step_contact_events<S, T, C, P>(
    objects: Map<CollisionObjectHandle, CollisionObject<S, T>>,
    nodes: Seq<CollisionObjectHandle>,
    before: Seq<Edge<C, P>>,
    after: Seq<Edge<C, P>>,
    timestamp: usize,
    upto: int,
) -> Seq<ContactEvent>
    decreases upto,
{
    if upto <= 0 {
        Seq::empty()
    } else {
        let e = upto - 1;
        step_contact_events(objects, nodes, before, after, timestamp, e) + (if touched(
            objects,
            nodes,
            before[e],
            timestamp,
        ) {
            edge_contact_events(
                before[e].weight,
                after[e].weight,
                objects[nodes[before[e].source as int]].handle,
                objects[nodes[before[e].target as int]].handle,
            )
        } else {
            Seq::empty()
        })
    }
}

/// The proximity events of a step, raised by the first `upto` edges.
pub open spec fn step_proximity_events<S, T, C, P>(
    objects: Map<CollisionObjectHandle, CollisionObject<S, T>>,
    nodes: Seq<CollisionObjectHandle>,
    before: Seq<Edge<C, P>>,
    after: Seq<Edge<C, P>>,
    timestamp: usize,
    upto: int,
) -> Seq<ProximityEvent>
    decreases upto,
{
    if upto <= 0 {
        Seq::empty()
    } else {
        let e = upto - 1;
        step_proximity_events(objects, nodes, before, after, timestamp, e) + (if touched(
            objects,
            nodes,
            before[e],
            timestamp,
        ) {
            edge_proximity_events(
                before[e].weight,
                after[e].weight,
                objects[nodes[before[e].source as int]].handle,
                objects[nodes[before[e].target as int]].handle,
            )
        } else {
            Seq::empty()
        })
    }
}

/// The events of the first `upto` edges depend on these edges alone.
pub proof fn lemma_step_events_local<S, T, C, P>(
    objects: Map<CollisionObjectHandle, CollisionObject<S, T>>,
    nodes: Seq<CollisionObjectHandle>,
    before: Seq<Edge<C, P>>,
    after1: Seq<Edge<C, P>>,
    after2: Seq<Edge<C, P>>,
    timestamp: usize,
    upto: int,
)
    requires
        forall|k: int| 0 <= k < upto ==> after1[k] == after2[k],
    ensures
        step_contact_events(objects, nodes, before, after1, timestamp, upto) == step_contact_events(
            objects,
            nodes,
            before,
            after2,
            timestamp,
            upto,
        ),
        step_proximity_events(objects, nodes, before, after1, timestamp, upto)
            == step_proximity_events(objects, nodes, before, after2, timestamp, upto),
    decreases upto,
{
    if upto > 0 {
        lemma_step_events_local(objects, nodes, before, after1, after2, timestamp, upto - 1);
    }
}

/// A step in which no object of an edge changed raises no event.
pub proof fn lemma_quiet_step_raises_nothing<S, T, C, P>(
    objects: Map<CollisionObjectHandle, CollisionObject<S, T>>,
    nodes: Seq<CollisionObjectHandle>,
    before: Seq<Edge<C, P>>,
    after: Seq<Edge<C, P>>,
    timestamp: usize,
    upto: int,
)
    requires
        upto <= before.len(),
        forall|k: int| 0 <= k < before.len() ==> !touched(objects, nodes, #[trigger] before[k], timestamp),
    ensures
        step_contact_events(objects, nodes, before, after, timestamp, upto) == Seq::<
            ContactEvent,
        >::empty(),
        step_proximity_events(objects, nodes, before, after, timestamp, upto) == Seq::<
            ProximityEvent,
        >::empty(),
    decreases upto,
{
    if upto > 0 {
        lemma_quiet_step_raises_nothing(objects, nodes, before, after, timestamp, upto - 1);
        assert(!touched(objects, nodes, before[upto - 1], timestamp));
    }
}

/// The two handles, the smaller first.
pub open spec fn sorted_pair(handle1: CollisionObjectHandle, handle2: CollisionObjectHandle) -> (
    CollisionObjectHandle,
    CollisionObjectHandle,
) {
    if handle1.0 <= handle2.0 {
        (handle1, handle2)
    } else {
        (handle2, handle1)
    }
}

/// The proximity events raised when an edge is removed: one to `Disjoint`,
/// where the pair was nearer.
pub open spec fn stop_proximity_events<C, P>(
    weight: Interaction<C, P>,
    handle1: CollisionObjectHandle,
    handle2: CollisionObjectHandle,
) -> Seq<ProximityEvent> {
    match weight {
        Interaction::Contact(_, _) => Seq::empty(),
        Interaction::Proximity(_, status) => proximity_transition(
            status,
            Proximity::Disjoint,
            handle1,
            handle2,
        ),
    }
}

/// Every node of the graph is the node of an object of the slab.
pub open spec fn nodes_live<S, T>(
    nodes: Seq<CollisionObjectHandle>,
    objects: Map<CollisionObjectHandle, CollisionObject<S, T>>,
) -> bool {
    forall|i: int| 0 <= i < nodes.len() ==> objects.dom().contains(#[trigger] nodes[i])
}

/// Whether two interactions are of one kind, with the same detector, and
/// hold the same contacts or the same proximity.
pub open spec fn weights_alike<C, P>(first: Interaction<C, P>, second: Interaction<C, P>) -> bool {
    match (first, second) {
        (Interaction::Contact(d1, m1), Interaction::Contact(d2, m2)) => d1 == d2 && m1@ == m2@,
        (Interaction::Proximity(d1, s1), Interaction::Proximity(d2, s2)) => d1 == d2 && s1 == s2,
        _ => false,
    }
}

/// Whether two lists of edges join the same nodes in the same order, with
/// interactions that are alike.
pub open spec fn edges_alike<C, P>(first: Seq<Edge<C, P>>, second: Seq<Edge<C, P>>) -> bool {
    &&& first.len() == second.len()
    &&& forall|k: int|
        0 <= k < first.len() ==> (#[trigger] first[k]).source == second[k].source && first[k].target
            == second[k].target && weights_alike(first[k].weight, second[k].weight)
}

/// A step goes the same way over edges that are alike: it stops at the
/// same edge with the same error, or at none, and leaves as many
/// identifiers in the pool.
pub proof fn lemma_step_outcome_alike<S, T, C: ContactDispatcher<S>, P>(
    contact_dispatcher: C,
    objects: Map<CollisionObjectHandle, CollisionObject<S, T>>,
    nodes: Seq<CollisionObjectHandle>,
    edges1: Seq<Edge<C::Algorithm, P>>,
    edges2: Seq<Edge<C::Algorithm, P>>,
    timestamp: usize,
    upto: int,
    held: nat,
    limit: nat,
)
    requires
        upto <= edges1.len(),
        edges_alike(edges1, edges2),
    ensures
        step_outcome(contact_dispatcher, objects, nodes, edges1, timestamp, upto, held, limit)
            == step_outcome(contact_dispatcher, objects, nodes, edges2, timestamp, upto, held, limit),
        step_reach(contact_dispatcher, objects, nodes, edges1, timestamp, upto, held, limit)
            == step_reach(contact_dispatcher, objects, nodes, edges2, timestamp, upto, held, limit),
    decreases upto,
{
    if upto > 0 {
        let e = upto - 1;
        lemma_step_outcome_alike(
            contact_dispatcher,
            objects,
            nodes,
            edges1,
            edges2,
            timestamp,
            e,
            held,
            limit,
        );
        assert(weights_alike(edges1[e].weight, edges2[e].weight));
        assert(touched(objects, nodes, edges1[e], timestamp) == touched(
            objects,
            nodes,
            edges2[e],
            timestamp,
        ));
        if edges1[e].weight is Contact {
            assert(edges1[e].weight.contacts() == edges2[e].weight.contacts());
            assert(edges1[e].weight->Contact_0 == edges2[e].weight->Contact_0);
        }
    }
}

/// The events of a step are determined by the state before it: whenever two
/// steps start from edges that are alike and both are through with the
/// first `reach` edges, each with what the detectors of the touched edges
/// found, the first `upto` of these edges raise the same events in the same
/// order in both.
pub proof fn lemma_step_events_determined<S, T, C: ContactDispatcher<S>, P: ProximityDispatcher<S>>(
    contact_dispatcher: C,
    proximity_dispatcher: P,
    objects: Map<CollisionObjectHandle, CollisionObject<S, T>>,
    nodes: Seq<CollisionObjectHandle>,
    before1: Seq<Edge<C::Algorithm, P::Algorithm>>,
    before2: Seq<Edge<C::Algorithm, P::Algorithm>>,
    after1: Seq<Edge<C::Algorithm, P::Algorithm>>,
    after2: Seq<Edge<C::Algorithm, P::Algorithm>>,
    timestamp: usize,
    reach: int,
    upto: int,
)
    requires
        0 <= upto <= reach,
        edges_alike(before1, before2),
        step_went(
            contact_dispatcher,
            proximity_dispatcher,
            objects,
            nodes,
            before1,
            after1,
            timestamp,
            reach,
        ),
        step_went(
            contact_dispatcher,
            proximity_dispatcher,
            objects,
            nodes,
            before2,
            after2,
            timestamp,
            reach,
        ),
    ensures
        step_contact_events(objects, nodes, before1, after1, timestamp, upto) == step_contact_events(
            objects,
            nodes,
            before2,
            after2,
            timestamp,
            upto,
        ),
        step_proximity_events(objects, nodes, before1, after1, timestamp, upto)
            == step_proximity_events(objects, nodes, before2, after2, timestamp, upto),
    decreases upto,
{
    if upto > 0 {
        let e = upto - 1;
        lemma_step_events_determined(
            contact_dispatcher,
            proximity_dispatcher,
            objects,
            nodes,
            before1,
            before2,
            after1,
            after2,
            timestamp,
            reach,
            e,
        );
        assert(weights_alike(before1[e].weight, before2[e].weight));
        assert(touched(objects, nodes, before1[e], timestamp) == touched(
            objects,
            nodes,
            before2[e],
            timestamp,
        ));
        if touched(objects, nodes, before1[e], timestamp) {
            assert(touched(objects, nodes, before2[e], timestamp));
            if before1[e].weight is Contact {
                assert(before1[e].weight.contacts() == before2[e].weight.contacts());
                assert(after1[e].weight.contacts().len() == after2[e].weight.contacts().len());
            } else {
                assert(before1[e].weight == before2[e].weight);
                assert(after1[e].weight == after2[e].weight);
            }
        }
    }
}

/// Edges keep what their detectors found where all but one are as they
/// were and that one keeps it.
pub proof fn lemma_kept_but_one<S, C, PD: ProximityDispatcher<S>>(
    before: Seq<Edge<C, PD::Algorithm>>,
    after: Seq<Edge<C, PD::Algorithm>>,
    e: int,
)
    requires
        edges_kept::<S, C, PD>(before),
        after.len() == before.len(),
        0 <= e < after.len(),
        forall|k: int| 0 <= k < after.len() && k != e ==> #[trigger] after[k] == before[k],
        status_kept::<S, C, PD>(after[e].weight),
    ensures
        edges_kept::<S, C, PD>(after),
{
    assert forall|k: int| 0 <= k < after.len() implies status_kept::<S, C, PD>(
        (#[trigger] after[k]).weight,
    ) by {
        if k != e {
            assert(status_kept::<S, C, PD>(before[k].weight));
        }
    }
}

/// Where a step fails at the edge `e`, after the edges before it: it fails
/// for want of compatible queries where `fails_incompatible` says so, and
/// it does not fail where contacts can be found for every edge that it
/// looks at and the pool has room for all the contacts that are found.
pub proof fn lemma_step_failed<S, T, CD: ContactDispatcher<S>, P>(
    contact_dispatcher: CD,
    objects: Map<CollisionObjectHandle, CollisionObject<S, T>>,
    nodes: Seq<CollisionObjectHandle>,
    edges: Seq<Edge<CD::Algorithm, P>>,
    timestamp: usize,
    e: int,
    held: nat,
    held_before: nat,
    limit: nat,
    r: Result<(), CollisionError>,
)
    requires
        0 <= e < edges.len(),
        touched(objects, nodes, edges[e], timestamp),
        forall|k: int|
            0 <= k < e && touched(objects, nodes, #[trigger] edges[k], timestamp) ==> compatible(
                objects,
                nodes,
                edges[k],
            ),
        held <= held_before + step_points(contact_dispatcher, objects, nodes, edges, timestamp, e),
        r is Err,
        edges[e].weight is Contact,
        r == Err::<(), CollisionError>(CollisionError::IncompatibleQueryTypes) <==> !compatible(
            objects,
            nodes,
            edges[e],
        ),
        r == Err::<(), CollisionError>(CollisionError::ContactIdsExhausted) ==> held + contact_points(
            contact_dispatcher,
            objects[nodes[edges[e].source as int]],
            objects[nodes[edges[e].target as int]],
            edges[e].weight->Contact_0,
        ).len() > limit,
    ensures
        fails_incompatible(objects, nodes, edges, timestamp) ==> r == Err::<(), CollisionError>(
            CollisionError::IncompatibleQueryTypes,
        ),
        !(all_compatible(objects, nodes, edges, timestamp) && held_before + step_points(
            contact_dispatcher,
            objects,
            nodes,
            edges,
            timestamp,
            edges.len() as int,
        ) <= limit),
{
    if fails_incompatible(objects, nodes, edges, timestamp) {
        let k = choose|k: int|
            0 <= k < edges.len() && touched(objects, nodes, #[trigger] edges[k], timestamp)
                && !compatible(objects, nodes, edges[k]) && forall|j: int|
                0 <= j < k && touched(objects, nodes, #[trigger] edges[j], timestamp)
                    ==> edges[j].weight is Proximity;
        if e < k {
            assert(edges[e].weight is Proximity);
        }
    }
    if all_compatible(objects, nodes, edges, timestamp) {
        assert(compatible(objects, nodes, edges[e]));
        match r {
            Err(CollisionError::ContactIdsExhausted) => {},
            Err(CollisionError::IncompatibleQueryTypes) => {},
            Ok(_) => {},
        }
        lemma_step_points_grow(
            contact_dispatcher,
            objects,
            nodes,
            edges,
            timestamp,
            e + 1,
            edges.len() as int,
        );
    }
}

impl<CD, PD> NarrowPhase<CD, PD> {
    /// Runs a step of the narrow phase.
    ///
    /// Each edge of which an object was stamped with `timestamp` is updated,
    /// in the order of the edges, and then holds what its detector found
    /// (`proximity_updated`, `contact_found`); the others are left as they
    /// are. Then the identifiers that no contact has are dropped from the
    /// pool. Fails at the first edge whose update fails, and leaves the later
    /// edges and the pool as they are: `step_outcome` says at which edge, if
    /// at any, and with which error.
    pub fn update<S, T>(
        &mut self,
        interactions: &mut InteractionGraph<CD::Algorithm, PD::Algorithm>,
        objects: &CollisionObjectSlab<S, T>,
        timestamp: usize,
    ) -> (r: Result<(), CollisionError>) where CD: ContactDispatcher<S>, PD: ProximityDispatcher<S>
        requires
            old(self).wf(),
            old(interactions).wf(),
            nodes_live(old(interactions).nodes(), objects@),
            contact_ids_live(old(self).ids(), old(interactions).edges()),
            edges_kept::<S, CD::Algorithm, PD>(old(interactions).edges()),
        ensures
            final(self).wf(),
            final(interactions).wf(),
            edges_kept::<S, CD::Algorithm, PD>(final(interactions).edges()),
            r == step_result(
                step_outcome(
                    old(self).contact_dispatcher(),
                    objects@,
                    old(interactions).nodes(),
                    old(interactions).edges(),
                    timestamp,
                    old(interactions).edges().len() as int,
                    old(self).ids().dom().len(),
                    old(self).id_limit() as nat,
                ),
            ),
            step_went(
                old(self).contact_dispatcher(),
                old(self).proximity_dispatcher(),
                objects@,
                old(interactions).nodes(),
                old(interactions).edges(),
                final(interactions).edges(),
                timestamp,
                step_reach(
                    old(self).contact_dispatcher(),
                    objects@,
                    old(interactions).nodes(),
                    old(interactions).edges(),
                    timestamp,
                    old(interactions).edges().len() as int,
                    old(self).ids().dom().len(),
                    old(self).id_limit() as nat,
                ),
            ),
            final(self).contact_log() == old(self).contact_log() + step_contact_events(
                objects@,
                old(interactions).nodes(),
                old(interactions).edges(),
                final(interactions).edges(),
                timestamp,
                step_reach(
                    old(self).contact_dispatcher(),
                    objects@,
                    old(interactions).nodes(),
                    old(interactions).edges(),
                    timestamp,
                    old(interactions).edges().len() as int,
                    old(self).ids().dom().len(),
                    old(self).id_limit() as nat,
                ),
            ),
            final(self).proximity_log() == old(self).proximity_log() + step_proximity_events(
                objects@,
                old(interactions).nodes(),
                old(interactions).edges(),
                final(interactions).edges(),
                timestamp,
                step_reach(
                    old(self).contact_dispatcher(),
                    objects@,
                    old(interactions).nodes(),
                    old(interactions).edges(),
                    timestamp,
                    old(interactions).edges().len() as int,
                    old(self).ids().dom().len(),
                    old(self).id_limit() as nat,
                ),
            ),
            r is Err ==> final(self).ids().dom().len() == step_outcome(
                old(self).contact_dispatcher(),
                objects@,
                old(interactions).nodes(),
                old(interactions).edges(),
                timestamp,
                old(interactions).edges().len() as int,
                old(self).ids().dom().len(),
                old(self).id_limit() as nat,
            ).1,
            fails_incompatible(
                objects@,
                old(interactions).nodes(),
                old(interactions).edges(),
                timestamp,
            ) ==> r == Err::<(), CollisionError>(CollisionError::IncompatibleQueryTypes),
            all_compatible(objects@, old(interactions).nodes(), old(interactions).edges(), timestamp)
                && old(self).ids().dom().len() + step_points(
                old(self).contact_dispatcher(),
                objects@,
                old(interactions).nodes(),
                old(interactions).edges(),
                timestamp,
                old(interactions).edges().len() as int,
            ) <= old(self).id_limit() ==> r is Ok,
            final(self).contact_dispatcher() == old(self).contact_dispatcher(),
            final(self).proximity_dispatcher() == old(self).proximity_dispatcher(),
            final(self).id_limit() == old(self).id_limit(),
            final(interactions).nodes() == old(interactions).nodes(),
            final(interactions).edges().len() == old(interactions).edges().len(),
            forall|k: int|
                0 <= k < old(interactions).edges().len() ==> same_edge(
                    #[trigger] old(interactions).edges()[k],
                    final(interactions).edges()[k],
                ),
            forall|k: int|
                0 <= k < old(interactions).edges().len() && !touched(
                    objects@,
                    old(interactions).nodes(),
                    #[trigger] old(interactions).edges()[k],
                    timestamp,
                ) ==> final(interactions).edges()[k] == old(interactions).edges()[k],
            contact_ids_live(final(self).ids(), final(interactions).edges()),
            old(self).contact_log().is_prefix_of(final(self).contact_log()),
            old(self).proximity_log().is_prefix_of(final(self).proximity_log()),
            (forall|k: int|
                0 <= k < old(interactions).edges().len() && touched(
                    objects@,
                    old(interactions).nodes(),
                    #[trigger] old(interactions).edges()[k],
                    timestamp,
                ) ==> compatible(objects@, old(interactions).nodes(), old(interactions).edges()[k]))
                ==> r != Err::<(), CollisionError>(CollisionError::IncompatibleQueryTypes),
            (forall|k: int|
                0 <= k < old(interactions).edges().len() && touched(
                    objects@,
                    old(interactions).nodes(),
                    #[trigger] old(interactions).edges()[k],
                    timestamp,
                ) ==> old(interactions).edges()[k].weight is Proximity) ==> r is Ok,
            r is Ok ==> {
                &&& forall|k: int|
                    0 <= k < old(interactions).edges().len() && touched(
                        objects@,
                        old(interactions).nodes(),
                        #[trigger] old(interactions).edges()[k],
                        timestamp,
                    ) ==> final(interactions).edges()[k].weight == proximity_updated(
                        old(self).proximity_dispatcher(),
                        objects@[old(interactions).nodes()[old(interactions).edges()[k].source as int]],
                        objects@[old(interactions).nodes()[old(interactions).edges()[k].target as int]],
                        old(interactions).edges()[k].weight,
                    ) || old(interactions).edges()[k].weight is Contact
                &&& forall|k: int|
                    0 <= k < old(interactions).edges().len() && touched(
                        objects@,
                        old(interactions).nodes(),
                        #[trigger] old(interactions).edges()[k],
                        timestamp,
                    ) ==> contact_found(
                        old(self).contact_dispatcher(),
                        objects@[old(interactions).nodes()[old(interactions).edges()[k].source as int]],
                        objects@[old(interactions).nodes()[old(interactions).edges()[k].target as int]],
                        old(interactions).edges()[k].weight,
                        final(interactions).edges()[k].weight,
                    )
                &&& forall|k: int|
                    0 <= k < old(interactions).edges().len() && touched(
                        objects@,
                        old(interactions).nodes(),
                        #[trigger] old(interactions).edges()[k],
                        timestamp,
                    ) ==> compatible(objects@, old(interactions).nodes(), old(interactions).edges()[k])
                &&& forall|bits: u64| #[trigger]
                    final(self).ids().dom().contains(bits) ==> id_in_use(
                        final(interactions).edges(),
                        bits,
                    )
                &&& final(self).contact_log() == old(self).contact_log() + step_contact_events(
                    objects@,
                    old(interactions).nodes(),
                    old(interactions).edges(),
                    final(interactions).edges(),
                    timestamp,
                    old(interactions).edges().len() as int,
                )
                &&& final(self).proximity_log() == old(self).proximity_log()
                    + step_proximity_events(
                    objects@,
                    old(interactions).nodes(),
                    old(interactions).edges(),
                    final(interactions).edges(),
                    timestamp,
                    old(interactions).edges().len() as int,
                )
            },
            (forall|k: int|
                0 <= k < old(interactions).edges().len() ==> !touched(
                    objects@,
                    old(interactions).nodes(),
                    #[trigger] old(interactions).edges()[k],
                    timestamp,
                )) ==> r is Ok && final(self).ids() == collected(
                old(self).ids(),
                old(interactions).edges(),
            ),
    {
        let ghost before = interactions.edges();
        let ghost nodes = interactions.nodes();
        let count: usize = interactions.edge_count();
        let mut e: usize = 0;
        while e < count
            invariant
                e <= count,
                count == before.len(),
                self.wf(),
                interactions.wf(),
                nodes_live(nodes, objects@),
                self.contact_dispatcher() == old(self).contact_dispatcher(),
                self.proximity_dispatcher() == old(self).proximity_dispatcher(),
                self.id_limit() == old(self).id_limit(),
                interactions.nodes() == nodes,
                nodes == old(interactions).nodes(),
                before == old(interactions).edges(),
                edges_wf(nodes.len() as int, before),
                interactions.edges().len() == before.len(),
                forall|k: int|
                    0 <= k < before.len() ==> same_edge(#[trigger] before[k], interactions.edges()[k]),
                forall|k: int| e <= k < before.len() ==> interactions.edges()[k] == #[trigger] before[k],
                forall|k: int|
                    0 <= k < before.len() && !touched(objects@, nodes, #[trigger] before[k], timestamp)
                        ==> interactions.edges()[k] == before[k],
                contact_ids_live(self.ids(), interactions.edges()),
                edges_kept::<S, CD::Algorithm, PD>(interactions.edges()),
                step_outcome(
                    old(self).contact_dispatcher(),
                    objects@,
                    nodes,
                    before,
                    timestamp,
                    e as int,
                    old(self).ids().dom().len(),
                    old(self).id_limit() as nat,
                ) == (None::<CollisionError>, self.ids().dom().len()),
                step_reach(
                    old(self).contact_dispatcher(),
                    objects@,
                    nodes,
                    before,
                    timestamp,
                    e as int,
                    old(self).ids().dom().len(),
                    old(self).id_limit() as nat,
                ) == e,
                self.ids().dom().len() <= old(self).ids().dom().len() + step_points(
                    old(self).contact_dispatcher(),
                    objects@,
                    nodes,
                    before,
                    timestamp,
                    e as int,
                ),
                forall|k: int|
                    0 <= k < e && touched(objects@, nodes, #[trigger] before[k], timestamp)
                        ==> compatible(objects@, nodes, before[k]),
                forall|k: int|
                    0 <= k < e && touched(objects@, nodes, #[trigger] before[k], timestamp)
                        ==> interactions.edges()[k].weight == proximity_updated(
                        old(self).proximity_dispatcher(),
                        objects@[nodes[before[k].source as int]],
                        objects@[nodes[before[k].target as int]],
                        before[k].weight,
                    ) || before[k].weight is Contact,
                forall|k: int|
                    0 <= k < e && touched(objects@, nodes, #[trigger] before[k], timestamp)
                        ==> contact_found(
                        old(self).contact_dispatcher(),
                        objects@[nodes[before[k].source as int]],
                        objects@[nodes[before[k].target as int]],
                        before[k].weight,
                        interactions.edges()[k].weight,
                    ),
                (forall|k: int|
                    0 <= k < before.len() ==> !touched(objects@, nodes, #[trigger] before[k], timestamp))
                    ==> self.ids() == old(self).ids(),
                self.contact_log() == old(self).contact_log() + step_contact_events(
                    objects@,
                    nodes,
                    before,
                    interactions.edges(),
                    timestamp,
                    e as int,
                ),
                self.proximity_log() == old(self).proximity_log() + step_proximity_events(
                    objects@,
                    nodes,
                    before,
                    interactions.edges(),
                    timestamp,
                    e as int,
                ),
            decreases count - e,
        {
            let ghost current = interactions.edges();
            let ghost ids = self.ids();
            let eid = TemporaryInteractionIndex(e);
            let (id1, id2) = match interactions.edge_endpoints(eid) {
                Some(ends) => ends,
                None => vstd::pervasive::unreached(),
            };
            proof {
                assert(same_edge(before[e as int], current[e as int]));
                assert(current[e as int].source < nodes.len());
                assert(objects@.dom().contains(nodes[id1.0 as int]));
                assert(objects@.dom().contains(nodes[id2.0 as int]));
            }
            let handle1 = match interactions.node_weight(id1) {
                Some(handle) => handle,
                None => vstd::pervasive::unreached(),
            };
            let handle2 = match interactions.node_weight(id2) {
                Some(handle) => handle,
                None => vstd::pervasive::unreached(),
            };
            let co1 = objects.object(handle1);
            let co2 = objects.object(handle2);
            if co1.timestamp == timestamp || co2.timestamp == timestamp {
                proof {
                    assert(manifold_ids_live(ids, current[e as int].weight.contacts()));
                }
                let weight = interactions.edge_weight_mut(eid);
                let r = self.update_interaction(co1, co2, weight);
                proof {
                    let after = interactions.edges();
                    assert(after[e as int].source == current[e as int].source);
                    assert forall|k: int| 0 <= k < after.len() && k != e implies after[k]
                        == current[k] by {}
                    assert(edges_wf(nodes.len() as int, after)) by {
                        assert forall|i: int| 0 <= i < after.len() implies {
                            &&& (#[trigger] after[i]).source < nodes.len()
                            &&& after[i].target < nodes.len()
                            &&& after[i].source != after[i].target
                        } by {
                            assert(same_edge(before[i], current[i]));
                        }
                        assert forall|i: int, j: int| 0 <= i < j < after.len() implies !(
                        #[trigger] after[j]).joins(
                            (#[trigger] after[i]).source as int,
                            after[i].target as int,
                        ) by {
                            assert(same_edge(before[i], current[i]));
                            assert(same_edge(before[j], current[j]));
                            assert(!before[j].joins(before[i].source as int, before[i].target as int));
                        }
                    }
                    assert forall|k: int| 0 <= k < before.len() implies same_edge(
                        #[trigger] before[k],
                        after[k],
                    ) by {
                        assert(same_edge(before[k], current[k]));
                    }
                    assert forall|x: int| 0 <= x < after.len() implies manifold_ids_live(
                        self.ids(),
                        (#[trigger] after[x]).weight.contacts(),
                    ) by {
                        if x != e {
                            assert(manifold_ids_live(ids, current[x].weight.contacts()));
                        }
                    }
                    lemma_step_events_local(
                        objects@,
                        nodes,
                        before,
                        current,
                        after,
                        timestamp,
                        e as int,
                    );
                    assert(touched(objects@, nodes, before[e as int], timestamp));
                    lemma_kept_but_one::<S, CD::Algorithm, PD>(current, after, e as int);
                    lemma_step_edge(
                        old(self).contact_dispatcher(),
                        objects@,
                        nodes,
                        before,
                        timestamp,
                        e as int,
                        old(self).ids().dom().len(),
                        old(self).id_limit() as nat,
                        ids.dom().len(),
                        self.ids().dom().len(),
                        r,
                    );
                    if r is Err {
                        lemma_step_reach(
                            old(self).contact_dispatcher(),
                            objects@,
                            nodes,
                            before,
                            timestamp,
                            e as int,
                            before.len() as int,
                            old(self).ids().dom().len(),
                            old(self).id_limit() as nat,
                        );
                        lemma_step_stopped(
                            old(self).contact_dispatcher(),
                            objects@,
                            nodes,
                            before,
                            timestamp,
                            e + 1,
                            before.len() as int,
                            old(self).ids().dom().len(),
                            old(self).id_limit() as nat,
                        );
                        assert(self.contact_log() == old(self).contact_log() + step_contact_events(
                            objects@,
                            nodes,
                            before,
                            after,
                            timestamp,
                            e as int,
                        ));
                        assert(self.proximity_log() == old(self).proximity_log()
                            + step_proximity_events(objects@, nodes, before, after, timestamp, e as int));
                        lemma_step_failed(
                            old(self).contact_dispatcher(),
                            objects@,
                            nodes,
                            before,
                            timestamp,
                            e as int,
                            ids.dom().len(),
                            old(self).ids().dom().len(),
                            old(self).id_limit() as nat,
                            r,
                        );
                    }
                }
                if r.is_err() {
                    return r;
                }
                proof {
                    let after = interactions.edges();
                    assert(self.contact_log() =~= old(self).contact_log() + step_contact_events(
                        objects@,
                        nodes,
                        before,
                        after,
                        timestamp,
                        e + 1,
                    ));
                    assert(self.proximity_log() =~= old(self).proximity_log()
                        + step_proximity_events(objects@, nodes, before, after, timestamp, e + 1));
                }
            } else {
                proof {
                    assert(!touched(objects@, nodes, before[e as int], timestamp));
                    assert(self.contact_log() =~= old(self).contact_log() + step_contact_events(
                        objects@,
                        nodes,
                        before,
                        current,
                        timestamp,
                        e + 1,
                    ));
                    assert(self.proximity_log() =~= old(self).proximity_log()
                        + step_proximity_events(objects@, nodes, before, current, timestamp, e + 1));
                }
            }
            e += 1;
        }
        self.garbage_collect_ids(interactions);
        proof {
            if forall|k: int|
                0 <= k < before.len() ==> !touched(objects@, nodes, #[trigger] before[k], timestamp) {
                assert(interactions.edges() =~= before);
            }
        }
        Ok(())
    }
}

/// Whether a dispatcher has a detector for a pair of objects: the dispatcher
/// of contact generators where both ask for contacts, and the dispatcher of
/// proximity detectors otherwise.
pub open spec fn has_detector<S, T, CD: ContactDispatcher<S>, PD: ProximityDispatcher<S>>(
    contact_dispatcher: CD,
    proximity_dispatcher: PD,
    co1: CollisionObject<S, T>,
    co2: CollisionObject<S, T>,
) -> bool {
    if co1.query_type is Contacts && co2.query_type is Contacts {
        contact_dispatcher.contact_algorithm(&co1.shape, &co2.shape) is Some
    } else {
        proximity_dispatcher.proximity_algorithm(&co1.shape, &co2.shape) is Some
    }
}

/// Whether `weight` is what the edge of a pair that begins holds: the
/// detector that the dispatcher has for the two shapes, with a manifold
/// without contacts or with the proximity that the detector has to begin
/// with.
pub open spec fn begins_with<S, T, CD: ContactDispatcher<S>, PD: ProximityDispatcher<S>>(
    contact_dispatcher: CD,
    proximity_dispatcher: PD,
    co1: CollisionObject<S, T>,
    co2: CollisionObject<S, T>,
    weight: Interaction<CD::Algorithm, PD::Algorithm>,
) -> bool {
    if co1.query_type is Contacts && co2.query_type is Contacts {
        weight matches Interaction::Contact(detector, manifold) && Some(detector)
            == contact_dispatcher.contact_algorithm(&co1.shape, &co2.shape) && manifold@.len() == 0
            && manifold.saved().len() == 0
    } else {
        weight matches Interaction::Proximity(detector, status) && Some(detector)
            == proximity_dispatcher.proximity_algorithm(&co1.shape, &co2.shape) && status
            == detector.status()
    }
}

impl<CD, PD> NarrowPhase<CD, PD> {
    /// Makes the edge of a pair that begins, between two different nodes
    /// that no edge joins, where `found` holds what the edge is to hold: the
    /// edge stands after all others. Without it the graph stays as it is.
    /// The narrow phase itself does not change.
    pub fn begin_pair<C, P>(
        &mut self,
        interactions: &mut InteractionGraph<C, P>,
        id1: CollisionObjectGraphIndex,
        id2: CollisionObjectGraphIndex,
        found: Option<Interaction<C, P>>,
    )
        requires
            old(interactions).wf(),
            id1.0 < old(interactions).nodes().len(),
            id2.0 < old(interactions).nodes().len(),
            id1.0 != id2.0,
            !old(interactions).joined(id1.0 as int, id2.0 as int),
        ensures
            *final(self) == *old(self),
            final(interactions).wf(),
            final(interactions).nodes() == old(interactions).nodes(),
            found is None ==> final(interactions).edges() == old(interactions).edges(),
            found matches Some(weight) ==> final(interactions).edges() == old(
                interactions,
            ).edges().push((Edge { source: id1.0, target: id2.0, weight })),
    {
        match found {
            Some(weight) => {
                let _ = interactions.add_edge(id1, id2, weight);
            },
            None => {},
        }
    }

    /// Takes note that the broad phase saw a pair begin or cease to overlap.
    ///
    /// Begin: unless the two handles are equal or an edge joins the two
    /// objects already, the dispatcher is asked for a detector, of contacts
    /// where both objects ask for contacts and of proximity otherwise, and
    /// where it has one, an edge is made with it, without contacts or with
    /// the proximity that the detector has to begin with. No event is raised.
    ///
    /// Cease: the edge between the two objects is removed, if there is one.
    /// `Stopped` is raised where it held contacts, and a proximity event to
    /// `Disjoint` where its detector had last found a nearer proximity.
    ///
    /// Events name the object with the smaller handle first.
    pub fn handle_interaction<S, T>(
        &mut self,
        interactions: &mut InteractionGraph<CD::Algorithm, PD::Algorithm>,
        objects: &CollisionObjectSlab<S, T>,
        handle1: CollisionObjectHandle,
        handle2: CollisionObjectHandle,
        started: bool,
    ) where CD: ContactDispatcher<S>, PD: ProximityDispatcher<S>
        requires
            old(interactions).wf(),
            objects.has(handle1),
            objects.has(handle2),
            objects@[handle1].graph_index.0 < old(interactions).nodes().len(),
            objects@[handle2].graph_index.0 < old(interactions).nodes().len(),
            handle1 != handle2 ==> objects@[handle1].graph_index != objects@[handle2].graph_index,
        ensures
            final(interactions).wf(),
            final(interactions).nodes() == old(interactions).nodes(),
            final(self).wf() == old(self).wf(),
            final(self).ids() == old(self).ids(),
            final(self).contact_dispatcher() == old(self).contact_dispatcher(),
            final(self).proximity_dispatcher() == old(self).proximity_dispatcher(),
            final(self).id_limit() == old(self).id_limit(),
            contact_ids_live(old(self).ids(), old(interactions).edges()) ==> contact_ids_live(
                final(self).ids(),
                final(interactions).edges(),
            ),
            ({
                let (lo, hi) = sorted_pair(handle1, handle2);
                let id1 = objects@[lo].graph_index.0;
                let id2 = objects@[hi].graph_index.0;
                let joined = old(interactions).joined(id1 as int, id2 as int);
                let before = old(interactions).edges();
                let after = final(interactions).edges();
                &&& started || !joined ==> final(self).contact_log() == old(self).contact_log()
                    && final(self).proximity_log() == old(self).proximity_log()
                &&& (handle1 == handle2 || joined == started) ==> after == before
                &&& started && !joined && handle1 != handle2 ==> if has_detector(
                    old(self).contact_dispatcher(),
                    old(self).proximity_dispatcher(),
                    objects@[lo],
                    objects@[hi],
                ) {
                    after.len() == before.len() + 1 && after.drop_last() == before
                        && after.last().source == id1 && after.last().target == id2 && begins_with(
                        old(self).contact_dispatcher(),
                        old(self).proximity_dispatcher(),
                        objects@[lo],
                        objects@[hi],
                        after.last().weight,
                    )
                } else {
                    after == before
                }
                &&& !started ==> forall|i: int|
                    0 <= i < before.len() && (#[trigger] before[i]).joins(id1 as int, id2 as int) ==> {
                        &&& after == before.remove(i)
                        &&& final(self).contact_log() == old(self).contact_log()
                            + contact_transition(
                            before[i].weight.contacts().len() > 0,
                            false,
                            objects@[lo].handle,
                            objects@[hi].handle,
                        )
                        &&& final(self).proximity_log() == old(self).proximity_log() + (match before[i].weight {
                            Interaction::Contact(_, _) => Seq::empty(),
                            Interaction::Proximity(detector, _) => proximity_transition(
                                detector.status(),
                                Proximity::Disjoint,
                                objects@[lo].handle,
                                objects@[hi].handle,
                            ),
                        })
                    }
            }),
            edges_kept::<S, CD::Algorithm, PD>(old(interactions).edges()) ==> edges_kept::<
                S,
                CD::Algorithm,
                PD,
            >(final(interactions).edges()),
    {
        let (lo, hi) = if handle1.0 <= handle2.0 {
            (handle1, handle2)
        } else {
            (handle2, handle1)
        };
        let co1 = objects.object(lo);
        let co2 = objects.object(hi);
        let id1 = co1.graph_index();
        let id2 = co2.graph_index();
        let ghost before = interactions.edges();
        if started {
            if lo.0 != hi.0 && !interactions.contains_edge(id1, id2) {
                let found = if co1.query_type().is_contacts_query()
                    && co2.query_type().is_contacts_query() {
                    match self.contact_dispatcher.get_contact_algorithm(co1.shape(), co2.shape()) {
                        Some(detector) => {
                            let manifold = detector.init_manifold();
                            Some(Interaction::Contact(detector, manifold))
                        },
                        None => None,
                    }
                } else {
                    match self.proximity_dispatcher.get_proximity_algorithm(
                        co1.shape(),
                        co2.shape(),
                    ) {
                        Some(detector) => {
                            let status = detector.proximity();
                            Some(Interaction::Proximity(detector, status))
                        },
                        None => None,
                    }
                };
                self.begin_pair(interactions, id1, id2, found);
                proof {
                    let after = interactions.edges();
                    if after != before {
                        assert(after.drop_last() =~= before);
                        if contact_ids_live(self.ids(), before) {
                            assert forall|e: int| 0 <= e < after.len() implies manifold_ids_live(
                                self.ids(),
                                (#[trigger] after[e]).weight.contacts(),
                            ) by {
                                if e < before.len() {
                                    assert(after[e] == before[e]);
                                }
                            }
                        }
                    }
                }
            }
        } else {
            match interactions.find_edge(id1, id2) {
                Some(eid) => {
                    match interactions.remove_edge(eid) {
                        Some(Interaction::Contact(_, manifold)) => {
                            if manifold.len() != 0 {
                                self.contact_events.push(
                                    ContactEvent::Stopped(co1.handle(), co2.handle()),
                                );
                            }
                        },
                        Some(Interaction::Proximity(detector, _)) => {
                            let last = detector.proximity();
                            if last != Proximity::Disjoint {
                                self.proximity_events.push(
                                    ProximityEvent::new(
                                        co1.handle(),
                                        co2.handle(),
                                        last,
                                        Proximity::Disjoint,
                                    ),
                                );
                            }
                        },
                        None => {},
                    }
                    proof {
                        let after = interactions.edges();
                        let found = eid.0 as int;
                        assert forall|i: int|
                            0 <= i < before.len() && (#[trigger] before[i]).joins(
                                id1.0 as int,
                                id2.0 as int,
                            ) implies i == found by {
                            if i < found {
                                assert(!before[found].joins(before[i].source as int, before[i].target as int));
                            } else if found < i {
                                assert(!before[i].joins(before[found].source as int, before[found].target as int));
                            }
                        }
                        assert(self.contact_log() =~= old(self).contact_log() + contact_transition(
                            before[found].weight.contacts().len() > 0,
                            false,
                            co1.handle,
                            co2.handle,
                        ));
                        assert(self.proximity_log() =~= old(self).proximity_log() + (match before[found].weight {
                            Interaction::Contact(_, _) => Seq::empty(),
                            Interaction::Proximity(detector, _) => proximity_transition(
                                detector.status(),
                                Proximity::Disjoint,
                                co1.handle,
                                co2.handle,
                            ),
                        }));
                        if edges_kept::<S, CD::Algorithm, PD>(before) {
                            assert forall|e: int| 0 <= e < after.len() implies status_kept::<
                                S,
                                CD::Algorithm,
                                PD,
                            >((#[trigger] after[e]).weight) by {
                                if e < found {
                                    assert(after[e] == before[e]);
                                } else {
                                    assert(after[e] == before[e + 1]);
                                }
                            }
                        }
                        if contact_ids_live(self.ids(), before) {
                            assert forall|e: int| 0 <= e < after.len() implies manifold_ids_live(
                                self.ids(),
                                (#[trigger] after[e]).weight.contacts(),
                            ) by {
                                if e < found {
                                    assert(after[e] == before[e]);
                                } else {
                                    assert(after[e] == before[e + 1]);
                                }
                            }
                        }
                    }
                },
                None => {},
            }
        }
    }

    /// Gives a new object its node in the graph, after all others.
    pub fn handle_collision_object_added<C, P>(
        &mut self,
        interactions: &mut InteractionGraph<C, P>,
        object: CollisionObjectHandle,
    ) -> (index: CollisionObjectGraphIndex)
        requires
            old(interactions).wf(),
        ensures
            *final(self) == *old(self),
            final(interactions).wf(),
            index.0 == old(interactions).nodes().len(),
            final(interactions).nodes() == old(interactions).nodes().push(object),
            final(interactions).edges() == old(interactions).edges(),
    {
        interactions.add_node(object)
    }

    /// Takes the node of an object that leaves out of the graph, with its
    /// edges and their contacts. No event is raised. The last node takes the
    /// place of the one that left; its object is returned, for the world to
    /// tell it its new node.
    pub fn handle_collision_object_removed<S, T, C, P>(
        &mut self,
        interactions: &mut InteractionGraph<C, P>,
        object: &CollisionObject<S, T>,
    ) -> (moved: Option<CollisionObjectHandle>)
        requires
            old(interactions).wf(),
            object.graph_index.0 < old(interactions).nodes().len(),
        ensures
            *final(self) == *old(self),
            final(interactions).wf(),
            final(interactions).nodes() == old(interactions).nodes().update(
                object.graph_index.0 as int,
                old(interactions).nodes().last(),
            ).drop_last(),
            final(interactions).edges() == crate::interaction_graph::edges_after_removal(
                old(interactions).edges(),
                old(interactions).nodes().len() as int,
                object.graph_index.0 as int,
            ),
            moved == (if object.graph_index.0 + 1 == old(interactions).nodes().len() {
                None
            } else {
                Some(old(interactions).nodes().last())
            }),
            contact_ids_live(old(self).ids(), old(interactions).edges()) ==> contact_ids_live(
                final(self).ids(),
                final(interactions).edges(),
            ),
    {
        let moved = interactions.remove_node(object.graph_index());
        proof {
            let before = old(interactions).edges();
            let after = interactions.edges();
            let node = object.graph_index.0 as int;
            if contact_ids_live(self.ids(), before) {
                crate::interaction_graph::lemma_without_node(before, node);
                let rest = crate::interaction_graph::without_node(before, node);
                assert forall|e: int| 0 <= e < after.len() implies manifold_ids_live(
                    self.ids(),
                    (#[trigger] after[e]).weight.contacts(),
                ) by {
                    assert(before.contains(rest[e]));
                    let k = choose|k: int| 0 <= k < before.len() && before[k] == rest[e];
                    assert(manifold_ids_live(self.ids(), before[k].weight.contacts()));
                }
            }
        }
        moved
    }
}

impl<CD, PD> NarrowPhase<CD, PD> {
    /// Where a contact of the graph has each identifier of the pool, the
    /// collection drops none.
    pub proof fn lemma_collect_keeps_used<C, P>(self, edges: Seq<Edge<C, P>>)
        requires
            self.wf(),
            forall|bits: u64| #[trigger] self.ids().dom().contains(bits) ==> id_in_use(edges, bits),
        ensures
            collected(self.ids(), edges) == self.ids(),
    {
        assert(collected(self.ids(), edges) =~= self.ids());
    }
}

/// The contact events of a pair over the first `upto` updates of its
/// manifold, where `states` says, before the first update and after each,
/// whether the manifold holds contacts.
pub open spec fn contact_history(
    states: Seq<bool>,
    handle1: CollisionObjectHandle,
    handle2: CollisionObjectHandle,
    upto: int,
) -> Seq<ContactEvent>
    decreases upto,
{
    if upto <= 0 {
        Seq::empty()
    } else {
        contact_history(states, handle1, handle2, upto - 1) + contact_transition(
            states[upto - 1],
            states[upto],
            handle1,
            handle2,
        )
    }
}

/// The contact events of a pair alternate. The manifold of an edge holds no
/// contact when the edge is made, so over the life of the edge the events are
/// `Started`, `Stopped`, `Started` and so on, and the last is `Started`
/// exactly while the manifold holds contacts.
pub proof fn lemma_contact_events_alternate(
    states: Seq<bool>,
    handle1: CollisionObjectHandle,
    handle2: CollisionObjectHandle,
    upto: int,
)
    requires
        0 <= upto < states.len(),
        !states[0],
    ensures
        forall|i: int|
            0 <= i < contact_history(states, handle1, handle2, upto).len() ==> #[trigger] contact_history(
                states,
                handle1,
                handle2,
                upto,
            )[i] == (if i % 2 == 0 {
                ContactEvent::Started(handle1, handle2)
            } else {
                ContactEvent::Stopped(handle1, handle2)
            }),
        states[upto] == (contact_history(states, handle1, handle2, upto).len() % 2 == 1),
    decreases upto,
{
    if upto > 0 {
        lemma_contact_events_alternate(states, handle1, handle2, upto - 1);
        let before = contact_history(states, handle1, handle2, upto - 1);
        let all = contact_history(states, handle1, handle2, upto);
        assert forall|i: int| 0 <= i < all.len() implies #[trigger] all[i] == (if i % 2 == 0 {
            ContactEvent::Started(handle1, handle2)
        } else {
            ContactEvent::Stopped(handle1, handle2)
        }) by {
            if i < before.len() {
                assert(all[i] == before[i]);
            }
        }
    }
}

} // verus!
