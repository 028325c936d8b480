//! Contact points and the manifold that collects those of one pair.

use crate::contact_id::ContactId;
use crate::math::{Point, Vector};
use vstd::prelude::*;

verus! {

/// The part of a shape on which a contact lies.
#[derive(Clone, Copy, Debug, PartialEq, Eq, Hash, Structural)]
pub enum FeatureId {
    /// A vertex, by its number.
    Vertex(usize),
    /// An edge, by its number.
    Edge(usize),
    /// A face, by its number.
    Face(usize),
    /// A part that has no number.
    Unknown,
}

/// A contact between two shapes.
#[derive(Clone, Copy, Debug, PartialEq, Eq, Structural)]
pub struct Contact {
    /// The contact point on the first shape.
    pub world1: Point,
    /// The contact point on the second shape.
    pub world2: Point,
    /// The contact normal, pointing away from the first shape.
    pub normal: Vector,
    /// How far the shapes reach into each other; negative while they are apart.
    pub depth: i64,
}

impl Contact {
    /// The contact with the given parts.
    pub fn new(world1: Point, world2: Point, normal: Vector, depth: i64) -> (c: Contact)
        ensures
            c == (Contact { world1, world2, normal, depth }),
    {
        Contact { world1, world2, normal, depth }
    }
}

/// A contact as a detector reports it: with the features it lies on.
#[derive(Clone, Copy, Debug, PartialEq, Eq, Structural)]
pub struct ContactPoint {
    pub contact: Contact,
    pub feature1: FeatureId,
    pub feature2: FeatureId,
}

/// A contact of a manifold: with the features it lies on and its identifier.
#[derive(Clone, Copy, Debug, PartialEq, Eq, Structural)]
pub struct TrackedContact {
    pub contact: Contact,
    pub feature1: FeatureId,
    pub feature2: FeatureId,
    pub id: ContactId,
}

/// Whether a saved contact lies on the given numbered features.
pub open spec fn same_features(saved: TrackedContact, feature1: FeatureId, feature2: FeatureId) -> bool {
    &&& saved.feature1 == feature1
    &&& saved.feature2 == feature2
    &&& feature1 != FeatureId::Unknown
    &&& feature2 != FeatureId::Unknown
}

/// The identifier that a new contact on the given features takes over: that of
/// the first saved contact on the same features, or the null identifier where
/// there is none.
pub open spec fn cached_id(cache: Seq<TrackedContact>, feature1: FeatureId, feature2: FeatureId) -> ContactId
    decreases cache.len(),
{
    if cache.len() == 0 {
        ContactId { bits: 0x1_ffff_ffff }
    } else if same_features(cache[0], feature1, feature2) {
        cache[0].id
    } else {
        cached_id(cache.drop_first(), feature1, feature2)
    }
}

/// The contact that a manifold with the given cache makes of a reported one.
pub open spec fn followed(cache: Seq<TrackedContact>, point: ContactPoint) -> TrackedContact {
    TrackedContact {
        contact: point.contact,
        feature1: point.feature1,
        feature2: point.feature2,
        id: cached_id(cache, point.feature1, point.feature2),
    }
}

/// The identifier found by `cached_id` is null or that of a saved contact.
pub proof fn lemma_cached_id_is_saved(cache: Seq<TrackedContact>, feature1: FeatureId, feature2: FeatureId)
    ensures
        cached_id(cache, feature1, feature2).null() || exists|i: int|
            0 <= i < cache.len() && #[trigger] cache[i].id == cached_id(cache, feature1, feature2),
    decreases cache.len(),
{
    if cache.len() == 0 {
        assert(0x1_ffff_ffffu64 & 0xffff_ffff == 0xffff_ffff) by (bit_vector);
    } else if same_features(cache[0], feature1, feature2) {
        assert(cache[0].id == cached_id(cache, feature1, feature2));
    } else {
        let rest = cache.drop_first();
        lemma_cached_id_is_saved(rest, feature1, feature2);
        if !cached_id(cache, feature1, feature2).null() {
            let i = choose|i: int|
                0 <= i < rest.len() && #[trigger] rest[i].id == cached_id(rest, feature1, feature2);
            assert(cache[i + 1] == rest[i]);
        }
    }
}

/// The contacts of one pair of objects, and those of the step before, kept so
/// that a contact that lasts keeps its identifier.
pub struct ContactManifold {
    contacts: Vec<TrackedContact>,
    cache: Vec<TrackedContact>,
}

impl View for ContactManifold {
    type V = Seq<TrackedContact>;

    closed spec fn view(&self) -> Seq<TrackedContact> {
        self.contacts@
    }
}

impl ContactManifold {
    /// The contacts saved by the last `save_cache_and_clear`.
    pub closed spec fn saved(&self) -> Seq<TrackedContact> {
        self.cache@
    }

    /// A manifold without contacts.
    pub fn new() -> (m: ContactManifold)
        ensures
            m@.len() == 0,
            m.saved().len() == 0,
    {
        ContactManifold { contacts: Vec::new(), cache: Vec::new() }
    }

    /// The number of contacts.
    pub fn len(&self) -> (n: usize)
        ensures
            n == self@.len(),
    {
        self.contacts.len()
    }

    /// The contacts.
    pub fn contacts(&self) -> (s: &[TrackedContact])
        ensures
            s@ == self@,
    {
        self.contacts.as_slice()
    }

    /// The `i`-th contact.
    pub fn contact(&self, i: usize) -> (c: TrackedContact)
        requires
            i < self@.len(),
        ensures
            c == self@[i as int],
    {
        self.contacts[i]
    }

    /// Drops the contacts, and the saved ones with them.
    pub fn clear(&mut self)
        ensures
            final(self)@.len() == 0,
            final(self).saved().len() == 0,
    {
        self.contacts.clear();
        self.cache.clear();
    }

    /// Saves the contacts for the next `push` to find, then drops them.
    pub fn save_cache_and_clear(&mut self)
        ensures
            final(self)@.len() == 0,
            final(self).saved() == old(self)@,
    {
        let mut fresh: Vec<TrackedContact> = Vec::new();
        std::mem::swap(&mut self.contacts, &mut fresh);
        self.cache = fresh;
    }

    /// Adds a contact. It takes over the identifier of the first saved contact
    /// on the same features, and has the null identifier where there is none.
    pub fn push(&mut self, point: ContactPoint)
        ensures
            final(self)@ == old(self)@.push(followed(old(self).saved(), point)),
            final(self).saved() == old(self).saved(),
    {
        let id = self.find_cached(point.feature1, point.feature2);
        self.contacts.push(
            TrackedContact {
                contact: point.contact,
                feature1: point.feature1,
                feature2: point.feature2,
                id,
            },
        );
    }

    /// Gives the `i`-th contact an identifier.
    pub fn set_id(&mut self, i: usize, id: ContactId)
        requires
            i < old(self)@.len(),
        ensures
            final(self)@ == old(self)@.update(i as int, (TrackedContact { id, ..old(self)@[i as int] })),
            final(self).saved() == old(self).saved(),
    {
        let c = self.contacts[i];
        self.contacts.set(i, TrackedContact { id, ..c });
    }

    /// Looks among the saved contacts for one on the given features.
    fn find_cached(&self, feature1: FeatureId, feature2: FeatureId) -> (id: ContactId)
        ensures
            id == cached_id(self.saved(), feature1, feature2),
    {
        let unknown = FeatureId::Unknown;
        let mut i: usize = 0;
        assert(self.cache@.skip(0) =~= self.cache@);
        while i < self.cache.len()
            invariant
                i <= self.cache@.len(),
                unknown == FeatureId::Unknown,
                cached_id(self.cache@, feature1, feature2) == cached_id(
                    self.cache@.skip(i as int),
                    feature1,
                    feature2,
                ),
            decreases self.cache@.len() - i,
        {
            let saved = self.cache[i];
            proof {
                let rest = self.cache@.skip(i as int);
                assert(rest.len() > 0);
                assert(rest[0] == saved);
                assert(rest.drop_first() =~= self.cache@.skip(i + 1));
                assert(cached_id(rest, feature1, feature2) == if same_features(
                    rest[0],
                    feature1,
                    feature2,
                ) {
                    rest[0].id
                } else {
                    cached_id(rest.drop_first(), feature1, feature2)
                });
            }
            if saved.feature1 == feature1 && saved.feature2 == feature2 && feature1 != unknown
                && feature2 != unknown {
                return saved.id;
            }
            i += 1;
        }
        assert(self.cache@.skip(i as int).len() == 0);
        ContactId::invalid()
    }
}

} // verus!
