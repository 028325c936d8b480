//! The events of a step: pairs that began or ceased to touch, and pairs whose
//! proximity changed.

use crate::collision_object::CollisionObjectHandle;
use crate::query::Proximity;
use vstd::prelude::*;

verus! {

/// Two objects began or ceased to touch.
#[derive(Clone, Copy, Debug, PartialEq, Eq, Structural)]
pub enum ContactEvent {
    /// The pair had no contact and now has one.
    Started(CollisionObjectHandle, CollisionObjectHandle),
    /// The pair had a contact and now has none.
    Stopped(CollisionObjectHandle, CollisionObjectHandle),
}

/// The proximity of two objects changed.
#[derive(Clone, Copy, Debug, PartialEq, Eq, Structural)]
pub struct ProximityEvent {
    pub collider1: CollisionObjectHandle,
    pub collider2: CollisionObjectHandle,
    pub prev_status: Proximity,
    pub new_status: Proximity,
}

impl ProximityEvent {
    /// The event that `collider1` and `collider2` went from one status to another.
    pub fn new(
        collider1: CollisionObjectHandle,
        collider2: CollisionObjectHandle,
        prev_status: Proximity,
        new_status: Proximity,
    ) -> (e: ProximityEvent)
        ensures
            e == (ProximityEvent { collider1, collider2, prev_status, new_status }),
    {
        ProximityEvent { collider1, collider2, prev_status, new_status }
    }
}

/// A pool of events, in the order in which they were raised.
pub struct EventPool<E> {
    events: Vec<E>,
}

/// The pool of contact events.
pub type ContactEvents = EventPool<ContactEvent>;

/// The pool of proximity events.
pub type ProximityEvents = EventPool<ProximityEvent>;

impl<E> View for EventPool<E> {
    type V = Seq<E>;

    closed spec fn view(&self) -> Seq<E> {
        self.events@
    }
}

impl<E> EventPool<E> {
    /// An empty pool.
    pub fn new() -> (pool: Self)
        ensures
            pool@ == Seq::<E>::empty(),
    {
        EventPool { events: Vec::new() }
    }

    /// The number of events in the pool.
    pub fn len(&self) -> (n: usize)
        ensures
            n == self@.len(),
    {
        self.events.len()
    }

    /// The `i`-th event, if there are that many.
    pub fn get(&self, i: usize) -> (e: Option<&E>)
        ensures
            e == (if i < self@.len() {
                Some(&self@[i as int])
            } else {
                None
            }),
    {
        if i < self.events.len() {
            Some(&self.events[i])
        } else {
            None
        }
    }

    /// The events, oldest first.
    pub fn as_slice(&self) -> (s: &[E])
        ensures
            s@ == self@,
    {
        self.events.as_slice()
    }

    /// Appends an event.
    pub(crate) fn push(&mut self, event: E)
        ensures
            final(self)@ == old(self)@.push(event),
    {
        self.events.push(event);
    }

    /// Empties the pool.
    pub(crate) fn clear(&mut self)
        ensures
            final(self)@ == Seq::<E>::empty(),
    {
        self.events.clear();
    }
}

} // verus!
