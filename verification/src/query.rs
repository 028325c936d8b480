//! What the pipeline is asked to find for an object, and what it finds.

use crate::math::{clamp, sat_add};
use vstd::prelude::*;

verus! {

/// How near two objects are.
#[derive(Clone, Copy, Debug, PartialEq, Eq, Structural)]
pub enum Proximity {
    /// The two objects overlap.
    Intersecting,
    /// The two objects do not overlap, but are within the margin.
    WithinMargin,
    /// The two objects are farther apart than the margin.
    Disjoint,
}

/// The distances within which contacts are generated for a pair.
#[derive(Clone, Copy, Debug, PartialEq, Eq, Structural)]
pub struct ContactPrediction {
    pub linear: i64,
    pub angular1: i64,
    pub angular2: i64,
}

impl ContactPrediction {
    /// The prediction with the given parts.
    pub fn new(linear: i64, angular1: i64, angular2: i64) -> (p: ContactPrediction)
        ensures
            p == (ContactPrediction { linear, angular1, angular2 }),
    {
        ContactPrediction { linear, angular1, angular2 }
    }
}

/// What is to be found for an object.
#[derive(Clone, Copy, Debug, PartialEq, Eq, Structural)]
pub enum GeometricQueryType {
    /// Contact points, predicted within a linear and an angular distance.
    Contacts(i64, i64),
    /// Only how near the object is to others, within a margin.
    Proximity(i64),
}

impl GeometricQueryType {
    /// The distance by which the object's bounding box is loosened.
    pub open spec fn limit(self) -> i64 {
        match self {
            GeometricQueryType::Contacts(linear, _) => linear,
            GeometricQueryType::Proximity(margin) => margin,
        }
    }

    /// The prediction for a pair, where both ask for contacts.
    pub open spec fn prediction_with(self, other: GeometricQueryType) -> Option<
        ContactPrediction,
    > {
        match (self, other) {
            (
                GeometricQueryType::Contacts(linear1, angular1),
                GeometricQueryType::Contacts(linear2, angular2),
            ) => Some(
                ContactPrediction { linear: clamp(linear1 + linear2), angular1, angular2 },
            ),
            _ => None,
        }
    }

    /// The distance by which the object's bounding box is loosened.
    pub fn query_limit(&self) -> (r: i64)
        ensures
            r == self.limit(),
    {
        match *self {
            GeometricQueryType::Contacts(linear, _) => linear,
            GeometricQueryType::Proximity(margin) => margin,
        }
    }

    /// Whether contacts are asked for.
    pub fn is_contacts_query(&self) -> (r: bool)
        ensures
            r == (*self is Contacts),
    {
        match *self {
            GeometricQueryType::Contacts(_, _) => true,
            GeometricQueryType::Proximity(_) => false,
        }
    }

    /// Whether only proximity is asked for.
    pub fn is_proximity_query(&self) -> (r: bool)
        ensures
            r == (*self is Proximity),
    {
        match *self {
            GeometricQueryType::Contacts(_, _) => false,
            GeometricQueryType::Proximity(_) => true,
        }
    }

    /// The prediction for a pair: the linear distances add up, each side
    /// keeps its angular distance. `None` unless both ask for contacts.
    pub fn contact_queries_to_prediction(&self, other: &GeometricQueryType) -> (r: Option<
        ContactPrediction,
    >)
        ensures
            r == self.prediction_with(*other),
    {
        match (*self, *other) {
            (
                GeometricQueryType::Contacts(linear1, angular1),
                GeometricQueryType::Contacts(linear2, angular2),
            ) => Some(ContactPrediction::new(sat_add(linear1, linear2), angular1, angular2)),
            _ => None,
        }
    }
}

} // verus!
