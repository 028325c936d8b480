//! Collision objects and the slab that stores them.

use crate::broad_phase::BroadPhaseProxyHandle;
use crate::collision_groups::CollisionGroups;
use crate::interaction_graph::CollisionObjectGraphIndex;
use crate::math::Isometry;
use crate::query::GeometricQueryType;
use crate::shape::Shape;
use vstd::prelude::*;

verus! {

/// The handle of a collision object: its place in the slab.
#[derive(Clone, Copy, Debug, PartialEq, Eq, Hash, Structural)]
pub struct CollisionObjectHandle(pub usize);

impl CollisionObjectHandle {
    /// A handle that no object of a slab has.
    pub fn invalid() -> (h: CollisionObjectHandle)
        ensures
            h.0 == usize::MAX,
    {
        CollisionObjectHandle(usize::MAX)
    }

    /// Whether this is the handle that no object has.
    pub fn is_invalid(&self) -> (r: bool)
        ensures
            r == (self.0 == usize::MAX),
    {
        self.0 == usize::MAX
    }

    /// The place in the slab.
    pub fn uid(&self) -> (u: usize)
        ensures
            u == self.0,
    {
        self.0
    }
}

/// An object of the world: a shape at a pose, with what the pipeline needs
/// to know of it and what the user attached to it.
pub struct CollisionObject<S, T> {
    /// The handle of this object in the slab.
    pub handle: CollisionObjectHandle,
    /// The handle of this object's proxy in the broad phase.
    pub proxy_handle: BroadPhaseProxyHandle,
    /// The node of this object in the interaction graph.
    pub graph_index: CollisionObjectGraphIndex,
    /// The pose of the shape.
    pub position: Isometry,
    /// The shape.
    pub shape: S,
    /// The groups the object belongs to and may meet.
    pub collision_groups: CollisionGroups,
    /// What is to be found for the object.
    pub query_type: GeometricQueryType,
    /// The step at which pose or shape last changed.
    pub timestamp: usize,
    /// What the user attached.
    pub data: T,
}

impl<S, T> CollisionObject<S, T> {
    /// An object with the given parts, stamped with step zero.
    pub fn new(
        handle: CollisionObjectHandle,
        proxy_handle: BroadPhaseProxyHandle,
        graph_index: CollisionObjectGraphIndex,
        position: Isometry,
        shape: S,
        collision_groups: CollisionGroups,
        query_type: GeometricQueryType,
        data: T,
    ) -> (co: Self)
        ensures
            co == (CollisionObject {
                handle,
                proxy_handle,
                graph_index,
                position,
                shape,
                collision_groups,
                query_type,
                timestamp: 0,
                data,
            }),
    {
        CollisionObject {
            handle,
            proxy_handle,
            graph_index,
            position,
            shape,
            collision_groups,
            query_type,
            timestamp: 0,
            data,
        }
    }

    /// The handle of this object in the slab.
    pub fn handle(&self) -> (h: CollisionObjectHandle)
        ensures
            h == self.handle,
    {
        self.handle
    }

    /// The handle of this object's proxy in the broad phase.
    pub fn proxy_handle(&self) -> (h: BroadPhaseProxyHandle)
        ensures
            h == self.proxy_handle,
    {
        self.proxy_handle
    }

    /// The node of this object in the interaction graph.
    pub fn graph_index(&self) -> (i: CollisionObjectGraphIndex)
        ensures
            i == self.graph_index,
    {
        self.graph_index
    }

    /// The pose of the shape.
    pub fn position(&self) -> (m: &Isometry)
        ensures
            *m == self.position,
    {
        &self.position
    }

    /// The shape.
    pub fn shape(&self) -> (s: &S)
        ensures
            *s == self.shape,
    {
        &self.shape
    }

    /// The groups the object belongs to and may meet.
    pub fn collision_groups(&self) -> (g: &CollisionGroups)
        ensures
            *g == self.collision_groups,
    {
        &self.collision_groups
    }

    /// What is to be found for the object.
    pub fn query_type(&self) -> (q: GeometricQueryType)
        ensures
            q == self.query_type,
    {
        self.query_type
    }

    /// What the user attached.
    pub fn data(&self) -> (d: &T)
        ensures
            *d == self.data,
    {
        &self.data
    }

    /// What the user attached, to change it.
    pub fn data_mut(&mut self) -> (d: &mut T)
        ensures
            *d == old(self).data,
            *final(self) == (CollisionObject { data: *final(d), ..*old(self) }),
    {
        &mut self.data
    }

    /// Sets the handle of this object in the slab.
    pub fn set_handle(&mut self, handle: CollisionObjectHandle)
        ensures
            *final(self) == (CollisionObject { handle, ..*old(self) }),
    {
        self.handle = handle;
    }

    /// Sets the handle of this object's proxy.
    pub fn set_proxy_handle(&mut self, proxy_handle: BroadPhaseProxyHandle)
        ensures
            *final(self) == (CollisionObject { proxy_handle, ..*old(self) }),
    {
        self.proxy_handle = proxy_handle;
    }

    /// Sets the node of this object in the interaction graph.
    pub fn set_graph_index(&mut self, graph_index: CollisionObjectGraphIndex)
        ensures
            *final(self) == (CollisionObject { graph_index, ..*old(self) }),
    {
        self.graph_index = graph_index;
    }

    /// Sets the pose of the shape.
    pub fn set_position(&mut self, position: Isometry)
        ensures
            *final(self) == (CollisionObject { position, ..*old(self) }),
    {
        self.position = position;
    }

    /// Replaces the shape.
    pub fn set_shape(&mut self, shape: S)
        ensures
            *final(self) == (CollisionObject { shape, ..*old(self) }),
    {
        self.shape = shape;
    }

    /// Sets the groups the object belongs to and may meet.
    pub fn set_collision_groups(&mut self, collision_groups: CollisionGroups)
        ensures
            *final(self) == (CollisionObject { collision_groups, ..*old(self) }),
    {
        self.collision_groups = collision_groups;
    }

    /// Sets what is to be found for the object.
    pub fn set_query_type(&mut self, query_type: GeometricQueryType)
        ensures
            *final(self) == (CollisionObject { query_type, ..*old(self) }),
    {
        self.query_type = query_type;
    }

    /// The same object with another shape.
    pub open spec fn with_shape(self, shape: S) -> Self {
        CollisionObject { shape, ..self }
    }
}

impl<S: Shape, T> CollisionObject<S, T> {
    /// Moves the points that define the shape to `coords`, where it is
    /// deformable. Nothing but the shape changes.
    pub fn set_deformations(&mut self, coords: &[i64])
        ensures
            *final(self) == old(self).with_shape(old(self).shape.deformed(coords)),
    {
        self.shape.set_deformations(coords);
    }
}

/// The store of the collision objects: each object keeps its handle until it
/// is removed.
pub struct CollisionObjectSlab<S, T> {
    objects: Vec<Option<CollisionObject<S, T>>>,
    free: Vec<usize>,
}

impl<S, T> View for CollisionObjectSlab<S, T> {
    type V = Map<CollisionObjectHandle, CollisionObject<S, T>>;

    closed spec fn view(&self) -> Map<CollisionObjectHandle, CollisionObject<S, T>> {
        Map::new(
            |h: CollisionObjectHandle| h.0 < self.objects@.len() && self.objects@[h.0 as int] is Some,
            |h: CollisionObjectHandle| self.objects@[h.0 as int]->0,
        )
    }
}

impl<S, T> CollisionObjectSlab<S, T> {
    /// The free list names empty places only, each once.
    pub closed spec fn wf(&self) -> bool {
        &&& forall|i: int|
            0 <= i < self.free@.len() ==> (#[trigger] self.free@[i]) < self.objects@.len()
                && self.objects@[self.free@[i] as int] is None
        &&& forall|i: int, j: int|
            0 <= i < j < self.free@.len() ==> self.free@[i] != self.free@[j]
    }

    /// Whether the slab holds an object under `handle`.
    pub open spec fn has(&self, handle: CollisionObjectHandle) -> bool {
        self@.dom().contains(handle)
    }

    /// An empty slab.
    pub fn new() -> (slab: Self)
        ensures
            slab.wf(),
            slab@ == Map::<CollisionObjectHandle, CollisionObject<S, T>>::empty(),
    {
        let slab = CollisionObjectSlab { objects: Vec::new(), free: Vec::new() };
        assert(slab@ =~= Map::<CollisionObjectHandle, CollisionObject<S, T>>::empty());
        slab
    }

    /// Stores an object under a handle that no object of the slab has, and
    /// returns the handle.
    pub fn insert(&mut self, object: CollisionObject<S, T>) -> (handle: CollisionObjectHandle)
        requires
            old(self).wf(),
        ensures
            final(self).wf(),
            !old(self).has(handle),
            final(self)@ == old(self)@.insert(handle, object),
    {
        match self.free.pop() {
            Some(i) => {
                assert(old(self).free@[old(self).free@.len() - 1] == i);
                self.objects.set(i, Some(object));
                assert(self@ =~= old(self)@.insert(CollisionObjectHandle(i), object));
                CollisionObjectHandle(i)
            },
            None => {
                let i: usize = self.objects.len();
                self.objects.push(Some(object));
                assert(self@ =~= old(self)@.insert(CollisionObjectHandle(i), object));
                CollisionObjectHandle(i)
            },
        }
    }

    /// Takes the object under `handle` out of the slab, if there is one.
    pub fn remove(&mut self, handle: CollisionObjectHandle) -> (object: Option<CollisionObject<S, T>>)
        requires
            old(self).wf(),
        ensures
            final(self).wf(),
            object == (if old(self).has(handle) {
                Some(old(self)@[handle])
            } else {
                None
            }),
            final(self)@ == old(self)@.remove(handle),
    {
        if handle.0 < self.objects.len() {
            let mut taken: Option<CollisionObject<S, T>> = None;
            std::mem::swap(&mut self.objects[handle.0], &mut taken);
            if taken.is_some() {
                self.free.push(handle.0);
            }
            assert(self@ =~= old(self)@.remove(handle));
            taken
        } else {
            assert(self@ =~= old(self)@.remove(handle));
            None
        }
    }

    /// Whether the slab holds an object under `handle`.
    pub fn contains(&self, handle: CollisionObjectHandle) -> (r: bool)
        ensures
            r == self.has(handle),
    {
        handle.0 < self.objects.len() && self.objects[handle.0].is_some()
    }

    /// The object under `handle`, if there is one.
    pub fn get(&self, handle: CollisionObjectHandle) -> (object: Option<&CollisionObject<S, T>>)
        ensures
            object == (if self.has(handle) {
                Some(&self@[handle])
            } else {
                None
            }),
    {
        if handle.0 < self.objects.len() {
            self.objects[handle.0].as_ref()
        } else {
            None
        }
    }

    /// The object under a handle that the slab holds.
    pub fn object(&self, handle: CollisionObjectHandle) -> (object: &CollisionObject<S, T>)
        requires
            self.has(handle),
        ensures
            *object == self@[handle],
    {
        match &self.objects[handle.0] {
            Some(object) => object,
            None => vstd::pervasive::unreached(),
        }
    }

    /// The object under `handle`, to change it.
    pub fn get_mut(&mut self, handle: CollisionObjectHandle) -> (object: &mut CollisionObject<S, T>)
        requires
            old(self).wf(),
            old(self).has(handle),
        ensures
            *object == old(self)@[handle],
            final(self).wf(),
            final(self)@ == old(self)@.insert(handle, *final(object)),
    {
        match &mut self.objects[handle.0] {
            Some(object) => object,
            None => vstd::pervasive::unreached(),
        }
    }

    /// The objects under two different handles that the slab holds, to change
    /// them.
    pub fn get_pair_mut(&mut self, handle1: CollisionObjectHandle, handle2: CollisionObjectHandle) -> (r:
        (&mut CollisionObject<S, T>, &mut CollisionObject<S, T>))
        requires
            old(self).wf(),
            old(self).has(handle1),
            old(self).has(handle2),
            handle1 != handle2,
        ensures
            *r.0 == old(self)@[handle1],
            *r.1 == old(self)@[handle2],
            final(self).wf(),
            final(self)@ == old(self)@.insert(handle1, *final(r.0)).insert(handle2, *final(r.1)),
    {
        let lo: usize = if handle1.0 < handle2.0 {
            handle1.0
        } else {
            handle2.0
        };
        let hi: usize = if handle1.0 < handle2.0 {
            handle2.0
        } else {
            handle1.0
        };
        let (left, right) = self.objects.as_mut_slice().split_at_mut(hi);
        let (low, _) = left.split_at_mut(lo + 1);
        let first = match low.last_mut() {
            Some(Some(object)) => object,
            _ => vstd::pervasive::unreached(),
        };
        let second = match right.first_mut() {
            Some(Some(object)) => object,
            _ => vstd::pervasive::unreached(),
        };
        if handle1.0 < handle2.0 {
            (first, second)
        } else {
            (second, first)
        }
    }

    /// The handles of the objects, in rising order.
    pub closed spec fn handle_list(&self) -> Seq<CollisionObjectHandle> {
        taken(self.objects@, self.objects@.len() as int)
    }

    /// `handle_list` names each object once, and nothing else.
    pub proof fn lemma_handle_list(&self)
        ensures
            forall|k: int| 0 <= k < self.handle_list().len() ==> self.has(#[trigger] self.handle_list()[k]),
            forall|k: int, l: int|
                0 <= k < l < self.handle_list().len() ==> self.handle_list()[k].0
                    < self.handle_list()[l].0,
            forall|h: CollisionObjectHandle| self.has(h) ==> self.handle_list().contains(h),
    {
        assert(self.objects.len() == self.objects@.len());
        lemma_taken(self.objects@, self.objects@.len() as int);
    }

    /// The handles of the objects, in rising order.
    pub fn handles(&self) -> (out: Vec<CollisionObjectHandle>)
        ensures
            out@ == self.handle_list(),
    {
        let mut out: Vec<CollisionObjectHandle> = Vec::new();
        let mut i: usize = 0;
        while i < self.objects.len()
            invariant
                i <= self.objects@.len(),
                out@ == taken(self.objects@, i as int),
            decreases self.objects@.len() - i,
        {
            if self.objects[i].is_some() {
                out.push(CollisionObjectHandle(i));
            }
            i += 1;
        }
        out
    }

    /// The objects, by rising handle.
    pub fn objects(&self) -> (out: Vec<&CollisionObject<S, T>>)
        ensures
            out@.len() == self.handle_list().len(),
            forall|k: int| 0 <= k < out@.len() ==> *(#[trigger] out@[k]) == self@[self.handle_list()[k]],
    {
        let handles = self.handles();
        proof {
            self.lemma_handle_list();
        }
        let mut out: Vec<&CollisionObject<S, T>> = Vec::new();
        let mut k: usize = 0;
        while k < handles.len()
            invariant
                k <= handles@.len(),
                handles@ == self.handle_list(),
                forall|j: int| 0 <= j < handles@.len() ==> self.has(#[trigger] handles@[j]),
                out@.len() == k,
                forall|j: int| 0 <= j < k ==> *(#[trigger] out@[j]) == self@[handles@[j]],
            decreases handles@.len() - k,
        {
            out.push(self.object(handles[k]));
            k += 1;
        }
        out
    }

    /// One more than the greatest handle ever given out.
    pub fn capacity(&self) -> (n: usize)
        ensures
            forall|h: CollisionObjectHandle| self.has(h) ==> h.0 < n,
    {
        self.objects.len()
    }
}

/// The places among the first `upto` that are taken, in rising order.
pub open spec fn taken<S, T>(slots: Seq<Option<CollisionObject<S, T>>>, upto: int) -> Seq<
    CollisionObjectHandle,
>
    decreases upto,
{
    if upto <= 0 {
        Seq::empty()
    } else if slots[upto - 1] is Some {
        taken(slots, upto - 1).push(CollisionObjectHandle((upto - 1) as usize))
    } else {
        taken(slots, upto - 1)
    }
}

/// `taken` names each place that is taken once, and no other.
pub proof fn lemma_taken<S, T>(slots: Seq<Option<CollisionObject<S, T>>>, upto: int)
    requires
        upto <= slots.len() <= usize::MAX,
    ensures
        forall|k: int|
            0 <= k < taken(slots, upto).len() ==> (#[trigger] taken(slots, upto)[k]).0 < upto
                && slots[taken(slots, upto)[k].0 as int] is Some,
        forall|k: int, l: int|
            0 <= k < l < taken(slots, upto).len() ==> taken(slots, upto)[k].0 < taken(slots, upto)[l].0,
        forall|h: CollisionObjectHandle|
            h.0 < upto && slots[h.0 as int] is Some ==> taken(slots, upto).contains(h),
    decreases upto,
{
    if upto > 0 {
        lemma_taken(slots, upto - 1);
        let rest = taken(slots, upto - 1);
        let out = taken(slots, upto);
        assert forall|k: int| 0 <= k < out.len() implies (#[trigger] out[k]).0 < upto
            && slots[out[k].0 as int] is Some by {
            if k < rest.len() {
                assert(out[k] == rest[k]);
            }
        }
        assert forall|k: int, l: int| 0 <= k < l < out.len() implies out[k].0 < out[l].0 by {
            assert(out[k] == rest[k]);
            if l < rest.len() {
                assert(out[l] == rest[l]);
            }
        }
        assert forall|h: CollisionObjectHandle|
            h.0 < upto && slots[h.0 as int] is Some implies out.contains(h) by {
            if h.0 < upto - 1 {
                assert(rest.contains(h));
                let k = choose|k: int| 0 <= k < rest.len() && rest[k] == h;
                assert(out[k] == h);
            } else {
                assert(out[out.len() - 1] == h);
            }
        }
    }
}

} // verus!
