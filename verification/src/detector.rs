//! The detectors that the narrow phase runs, and the dispatchers that choose
//! them by the shapes of a pair.

use crate::contact::{ContactManifold, ContactPoint};
use crate::math::Isometry;
use crate::query::{ContactPrediction, Proximity};
use vstd::prelude::*;

verus! {

/// Finds the contacts between two shapes of type `S`, with the help of a
/// dispatcher of type `D` for the parts of composite shapes.
pub trait ContactManifoldGenerator<S, D>: Sized {
    /// The contacts that the generator finds between `shape1` at `m1` and
    /// `shape2` at `m2`. They depend on the generator and on what it is given
    /// alone.
    spec fn found(
        &self,
        dispatcher: &D,
        m1: &Isometry,
        shape1: &S,
        m2: &Isometry,
        shape2: &S,
        prediction: &ContactPrediction,
    ) -> Vec<ContactPoint>;

    /// The generator after it looked for these contacts, with what it keeps
    /// for the next call.
    spec fn generated(
        &self,
        dispatcher: &D,
        m1: &Isometry,
        shape1: &S,
        m2: &Isometry,
        shape2: &S,
        prediction: &ContactPrediction,
    ) -> Self;

    /// A manifold without contacts, for the edge of a pair that begins.
    fn init_manifold(&self) -> (manifold: ContactManifold)
        ensures
            manifold@.len() == 0,
            manifold.saved().len() == 0,
    ;

    /// The contacts between `shape1` at `m1` and `shape2` at `m2`, each with
    /// the features it lies on. The generator may keep what helps it at the
    /// next call.
    fn generate_contacts(
        &mut self,
        dispatcher: &D,
        m1: &Isometry,
        shape1: &S,
        m2: &Isometry,
        shape2: &S,
        prediction: &ContactPrediction,
    ) -> (points: Vec<ContactPoint>)
        ensures
            points@ == old(self).found(dispatcher, m1, shape1, m2, shape2, prediction)@,
            *final(self) == old(self).generated(dispatcher, m1, shape1, m2, shape2, prediction),
    ;
}

/// Finds how near two shapes of type `S` are, with the help of a dispatcher of
/// type `D` for the parts of composite shapes.
pub trait ProximityDetector<S, D>: Sized {
    /// What the detector found when it last looked.
    spec fn status(&self) -> Proximity;

    /// The detector after it looked at `shape1` at `m1` and `shape2` at `m2`
    /// again. It depends on the detector and on what it is given alone.
    spec fn updated(
        &self,
        dispatcher: &D,
        m1: &Isometry,
        shape1: &S,
        m2: &Isometry,
        shape2: &S,
        margin: i64,
    ) -> Self;

    /// Looks at `shape1` at `m1` and `shape2` at `m2` again.
    fn update(
        &mut self,
        dispatcher: &D,
        m1: &Isometry,
        shape1: &S,
        m2: &Isometry,
        shape2: &S,
        margin: i64,
    )
        ensures
            *final(self) == old(self).updated(dispatcher, m1, shape1, m2, shape2, margin),
    ;

    /// What the last `update` found.
    fn proximity(&self) -> (p: Proximity)
        ensures
            p == self.status(),
    ;
}

/// Chooses the contact generator for a pair of shapes.
pub trait ContactDispatcher<S>: Sized {
    /// The generators that this dispatcher hands out.
    type Algorithm: ContactManifoldGenerator<S, Self>;

    /// The generator that the dispatcher has for the two shapes, if it has
    /// one. It depends on the dispatcher and the two shapes alone.
    spec fn contact_algorithm(&self, shape1: &S, shape2: &S) -> Option<Self::Algorithm>;

    /// The generator for the two shapes, or `None` where there is none for
    /// shapes of these kinds.
    fn get_contact_algorithm(&self, shape1: &S, shape2: &S) -> (r: Option<Self::Algorithm>)
        ensures
            r == self.contact_algorithm(shape1, shape2),
    ;
}

/// Chooses the proximity detector for a pair of shapes.
pub trait ProximityDispatcher<S>: Sized {
    /// The detectors that this dispatcher hands out.
    type Algorithm: ProximityDetector<S, Self>;

    /// The detector that the dispatcher has for the two shapes, if it has
    /// one. It depends on the dispatcher and the two shapes alone.
    spec fn proximity_algorithm(&self, shape1: &S, shape2: &S) -> Option<Self::Algorithm>;

    /// The detector for the two shapes, or `None` where there is none for
    /// shapes of these kinds.
    fn get_proximity_algorithm(&self, shape1: &S, shape2: &S) -> (r: Option<Self::Algorithm>)
        ensures
            r == self.proximity_algorithm(shape1, shape2),
    ;
}

} // verus!
