//! The broad phase: which pairs of loosened bounding boxes overlap.
//!
//! Each object has a proxy with the box that was last set for it and a fat
//! box around that one. Pairs are found on the fat boxes, which stand in a
//! tree of boxes, so that a proxy that moves inside its fat box changes
//! nothing.

use crate::bounding_volume::AABB;
use crate::collision_object::CollisionObjectHandle;
use crate::dbvt::{BoxTest, DBVT};
use crate::math::Point;
use crate::shape::Ray;
use vstd::prelude::*;

verus! {

/// The handle of a proxy of the broad phase.
#[derive(Clone, Copy, Debug, PartialEq, Eq, Hash, Structural)]
pub struct BroadPhaseProxyHandle(pub usize);

impl BroadPhaseProxyHandle {
    /// A handle that no proxy has.
    pub fn invalid() -> (h: BroadPhaseProxyHandle)
        ensures
            h.0 == usize::MAX,
    {
        BroadPhaseProxyHandle(usize::MAX)
    }

    /// Whether this is the handle that no proxy has.
    pub fn is_invalid(&self) -> (r: bool)
        ensures
            r == (self.0 == usize::MAX),
    {
        self.0 == usize::MAX
    }

    /// The place of the proxy.
    pub fn uid(&self) -> (u: usize)
        ensures
            u == self.0,
    {
        self.0
    }
}

/// What the broad phase keeps for an object.
#[derive(Clone, Copy, Debug, PartialEq, Eq, Structural)]
pub struct Proxy {
    /// The box in effect: the one that the last update took over.
    pub aabb: AABB,
    /// The box on which pairs are found. It holds `aabb`.
    pub fat: AABB,
    /// The object.
    pub data: CollisionObjectHandle,
    /// The box that the next update takes over, if one was set.
    pub pending: Option<AABB>,
    /// Whether the next update looks at all pairs of this proxy again.
    pub dirty: bool,
}

impl Proxy {
    /// The proxy as the next update sees it: with the pending box in effect,
    /// and with a new fat box, and dirty, where the old one does not hold it.
    pub open spec fn flushed(self, margin: i64) -> Proxy {
        match self.pending {
            Some(aabb) => if self.fat.encloses(aabb) {
                Proxy { aabb, pending: None, ..self }
            } else {
                Proxy { aabb, fat: aabb.loosened_by(margin), pending: None, dirty: true, ..self }
            },
            None => self,
        }
    }

    /// The proxy as an update leaves it.
    pub open spec fn settled(self, margin: i64) -> Proxy {
        Proxy { dirty: false, ..self.flushed(margin) }
    }

    /// Whether an update has nothing to do for this proxy.
    pub open spec fn quiet(self) -> bool {
        self.pending is None && !self.dirty
    }
}

/// A pair of objects began or ceased to overlap.
#[derive(Clone, Copy, Debug, PartialEq, Eq, Structural)]
pub struct PairSignal {
    /// The proxy with the smaller handle.
    pub proxy1: BroadPhaseProxyHandle,
    /// The proxy with the greater handle.
    pub proxy2: BroadPhaseProxyHandle,
    /// The object of the first proxy.
    pub data1: CollisionObjectHandle,
    /// The object of the second proxy.
    pub data2: CollisionObjectHandle,
    /// Whether the pair began to overlap; else it ceased to.
    pub started: bool,
}

/// Says which pairs of objects the broad phase may report. The answer depends
/// on the two handles alone.
pub trait BroadPhaseInterferenceHandler {
    /// Whether the handler can be asked about `handle`.
    spec fn knows(&self, handle: CollisionObjectHandle) -> bool;

    /// Whether the two objects may interact.
    spec fn allows(&self, handle1: CollisionObjectHandle, handle2: CollisionObjectHandle) -> bool;

    /// Whether the two objects may interact.
    fn is_interference_allowed(
        &self,
        handle1: &CollisionObjectHandle,
        handle2: &CollisionObjectHandle,
    ) -> (r: bool)
        requires
            self.knows(*handle1),
            self.knows(*handle2),
        ensures
            r == self.allows(*handle1, *handle2),
    ;
}

/// The proxies of a broad phase, by their places.
pub type Slots = Seq<Option<Proxy>>;

/// Whether a proxy stands at place `i`.
pub open spec fn live(slots: Slots, i: int) -> bool {
    0 <= i < slots.len() && slots[i] is Some
}

/// Whether the pair is made of two proxies, the smaller handle first.
pub open spec fn pair_ok(slots: Slots, pair: (usize, usize)) -> bool {
    pair.0 < pair.1 && live(slots, pair.0 as int) && live(slots, pair.1 as int)
}

/// Whether an update looks at the pair again: one of the two is dirty, or all
/// pairs are looked at again.
pub open spec fn stale(slots: Slots, all: bool, pair: (usize, usize)) -> bool {
    all || slots[pair.0 as int]->0.dirty || slots[pair.1 as int]->0.dirty
}

/// Whether the fat boxes of the pair share a point.
pub open spec fn overlapping(slots: Slots, pair: (usize, usize)) -> bool {
    slots[pair.0 as int]->0.fat.meets(slots[pair.1 as int]->0.fat)
}

/// Whether a reported pair stays reported: its fat boxes still share a point
/// and, where the pair is looked at again, the handler still allows it.
pub open spec fn keeps<H: BroadPhaseInterferenceHandler>(
    slots: Slots,
    all: bool,
    handler: H,
    pair: (usize, usize),
) -> bool {
    overlapping(slots, pair) && (stale(slots, all, pair) ==> handler.allows(
        slots[pair.0 as int]->0.data,
        slots[pair.1 as int]->0.data,
    ))
}

/// Whether a pair becomes reported: it is looked at again, was not reported,
/// its fat boxes share a point and the handler allows it.
pub open spec fn begins<H: BroadPhaseInterferenceHandler>(
    slots: Slots,
    all: bool,
    handler: H,
    reported: Seq<(usize, usize)>,
    pair: (usize, usize),
) -> bool {
    &&& pair_ok(slots, pair)
    &&& stale(slots, all, pair)
    &&& overlapping(slots, pair)
    &&& handler.allows(slots[pair.0 as int]->0.data, slots[pair.1 as int]->0.data)
    &&& !reported.contains(pair)
}

/// The signal for a pair.
pub open spec fn signal_of(slots: Slots, pair: (usize, usize), started: bool) -> PairSignal {
    PairSignal {
        proxy1: BroadPhaseProxyHandle(pair.0),
        proxy2: BroadPhaseProxyHandle(pair.1),
        data1: slots[pair.0 as int]->0.data,
        data2: slots[pair.1 as int]->0.data,
        started,
    }
}

/// The signals for some pairs, in their order.
pub open spec fn signals_of(slots: Slots, pairs: Seq<(usize, usize)>, started: bool) -> Seq<PairSignal> {
    Seq::new(pairs.len(), |k: int| signal_of(slots, pairs[k], started))
}

/// Of the first `upto` reported pairs, those that stay reported
/// (`staying`) or those that do not, in their order.
pub open spec fn sifted<H: BroadPhaseInterferenceHandler>(
    slots: Slots,
    all: bool,
    handler: H,
    reported: Seq<(usize, usize)>,
    staying: bool,
    upto: int,
) -> Seq<(usize, usize)>
    decreases upto,
{
    if upto <= 0 {
        Seq::empty()
    } else {
        let rest = sifted(slots, all, handler, reported, staying, upto - 1);
        if keeps(slots, all, handler, reported[upto - 1]) == staying {
            rest.push(reported[upto - 1])
        } else {
            rest
        }
    }
}

/// Whether an update looks at the pairs of the proxy at `i` again.
pub open spec fn stale_one(slots: Slots, all: bool, i: int) -> bool {
    all || slots[i]->0.dirty
}

/// The two places, the lesser first.
pub open spec fn ordered(a: usize, b: usize) -> (usize, usize) {
    if a < b {
        (a, b)
    } else {
        (b, a)
    }
}

/// The proxy of a pair with which an update finds the pair: the first where
/// its pairs are looked at again, and else the second.
pub open spec fn owner(slots: Slots, all: bool, pair: (usize, usize)) -> usize {
    if stale_one(slots, all, pair.0 as int) {
        pair.0
    } else {
        pair.1
    }
}

/// Whether the pair of `a` with `b`, whose fat box shares a point with that
/// of `a`, becomes reported while the pairs of `a` are looked at: `b` is
/// another proxy, the pair is not one that is found with `b`, the handler
/// allows it and it was not reported.
pub open spec fn takes<H: BroadPhaseInterferenceHandler>(
    slots: Slots,
    all: bool,
    handler: H,
    reported: Seq<(usize, usize)>,
    a: usize,
    b: usize,
) -> bool {
    let pair = ordered(a, b);
    &&& b != a
    &&& !(stale_one(slots, all, b as int) && b < a)
    &&& handler.allows(slots[pair.0 as int]->0.data, slots[pair.1 as int]->0.data)
    &&& !reported.contains(pair)
}

/// The places of the proxies whose fat box shares a point with that of the
/// proxy at `a`, in the order in which the tree yields them.
pub open spec fn near(slots: Slots, tree: DBVT, a: int) -> Seq<usize> {
    tree.hits(SpatialQuery::Volume(slots[a]->0.fat))
}

/// The pairs of the proxy at `a` with the first `upto` of `others` that
/// become reported, in the order of `others`.
pub open spec fn begun_row<H: BroadPhaseInterferenceHandler>(
    slots: Slots,
    all: bool,
    handler: H,
    reported: Seq<(usize, usize)>,
    a: usize,
    others: Seq<usize>,
    upto: int,
) -> Seq<(usize, usize)>
    decreases upto,
{
    if upto <= 0 {
        Seq::empty()
    } else {
        let rest = begun_row(slots, all, handler, reported, a, others, upto - 1);
        if takes(slots, all, handler, reported, a, others[upto - 1]) {
            rest.push(ordered(a, others[upto - 1]))
        } else {
            rest
        }
    }
}

/// The pairs that become reported and are found with a proxy that stands
/// before `a_end`: for each proxy whose pairs are looked at again, by its
/// place, its pairs with the proxies that the tree yields for its fat box.
pub open spec fn begun_rows<H: BroadPhaseInterferenceHandler>(
    slots: Slots,
    tree: DBVT,
    all: bool,
    handler: H,
    reported: Seq<(usize, usize)>,
    a_end: int,
) -> Seq<(usize, usize)>
    decreases a_end,
{
    if a_end <= 0 {
        Seq::empty()
    } else {
        let rest = begun_rows(slots, tree, all, handler, reported, a_end - 1);
        let a = a_end - 1;
        if live(slots, a) && stale_one(slots, all, a) {
            rest + begun_row(
                slots,
                all,
                handler,
                reported,
                a as usize,
                near(slots, tree, a),
                near(slots, tree, a).len() as int,
            )
        } else {
            rest
        }
    }
}

/// The reported pairs of which both proxies are still there, in their order.
pub open spec fn surviving(slots: Slots, reported: Seq<(usize, usize)>) -> Seq<(usize, usize)>
    decreases reported.len(),
{
    if reported.len() == 0 {
        reported
    } else if pair_ok(slots, reported.last()) {
        surviving(slots, reported.drop_last()).push(reported.last())
    } else {
        surviving(slots, reported.drop_last())
    }
}

/// The proxies as the next update sees them.
pub open spec fn flushed_slots(slots: Slots, margin: i64) -> Slots {
    Seq::new(
        slots.len(),
        |i: int|
            match slots[i] {
                Some(proxy) => Some(proxy.flushed(margin)),
                None => None,
            },
    )
}

/// The proxies as an update leaves them.
pub open spec fn settled_slots(slots: Slots, margin: i64) -> Slots {
    Seq::new(
        slots.len(),
        |i: int|
            match slots[i] {
                Some(proxy) => Some(proxy.settled(margin)),
                None => None,
            },
    )
}

/// The reported pairs are pairs of proxies, the smaller handle first, whose
/// fat boxes share a point, and none is reported twice.
pub open spec fn pairs_wf(slots: Slots, reported: Seq<(usize, usize)>) -> bool {
    &&& forall|k: int|
        0 <= k < reported.len() ==> pair_ok(slots, #[trigger] reported[k]) && overlapping(
            slots,
            reported[k],
        )
    &&& forall|k: int, l: int| 0 <= k < l < reported.len() ==> reported[k] != reported[l]
}

/// The fat box of each proxy holds its box in effect.
pub open spec fn fat_boxes(slots: Slots) -> bool {
    forall|i: int| live(slots, i) ==> (#[trigger] slots[i])->0.fat.encloses(slots[i]->0.aabb)
}

/// The tree holds the fat box of each proxy, under the place of the proxy,
/// and nothing else.
pub open spec fn mirrors(slots: Slots, tree: DBVT) -> bool {
    &&& tree.wf()
    &&& forall|d: usize, b: AABB|
        #[trigger] tree.has(d, b) ==> live(slots, d as int) && slots[d as int]->0.fat == b
    &&& forall|i: usize| #[trigger] live(slots, i as int) ==> tree.has(i, slots[i as int]->0.fat)
}

/// The tree after the pending boxes of the proxies at the first `upto` places
/// were taken over: a proxy whose fat box does not hold its pending box
/// leaves the tree and comes back with its new fat box.
pub open spec fn flushed_tree(tree: DBVT, slots: Slots, margin: i64, upto: int) -> DBVT
    decreases upto,
{
    if upto <= 0 {
        tree
    } else {
        let rest = flushed_tree(tree, slots, margin, upto - 1);
        match slots[upto - 1] {
            Some(proxy) => match proxy.pending {
                Some(aabb) => if proxy.fat.encloses(aabb) {
                    rest
                } else {
                    rest.without(proxy.fat, (upto - 1) as usize).with(
                        aabb.loosened_by(margin),
                        (upto - 1) as usize,
                    )
                },
                None => rest,
            },
            None => rest,
        }
    }
}

/// The tree after the proxies that the first `upto` handles name left it.
pub open spec fn tree_without(
    tree: DBVT,
    slots: Slots,
    handles: Seq<BroadPhaseProxyHandle>,
    upto: int,
) -> DBVT
    decreases upto,
{
    if upto <= 0 {
        tree
    } else {
        let rest = tree_without(tree, slots, handles, upto - 1);
        let i = handles[upto - 1].0;
        if live(slots_without(slots, handles.take(upto - 1)), i as int) {
            rest.without(slots[i as int]->0.fat, i)
        } else {
            rest
        }
    }
}

/// Whether a box reaches into the part of space into which a ray points: on
/// each axis it does not end before the origin where the ray goes up, does
/// not begin after it where the ray goes down, and holds it where the ray
/// does neither. A box that the ray meets does.
pub open spec fn ray_may_meet(aabb: AABB, ray: Ray) -> bool {
    &&& axis_may_meet(aabb.mins.x, aabb.maxs.x, ray.origin.x, ray.dir.x)
    &&& axis_may_meet(aabb.mins.y, aabb.maxs.y, ray.origin.y, ray.dir.y)
    &&& axis_may_meet(aabb.mins.z, aabb.maxs.z, ray.origin.z, ray.dir.z)
}

/// `ray_may_meet` on one axis.
pub open spec fn axis_may_meet(min: i64, max: i64, origin: i64, dir: i64) -> bool {
    if dir > 0 {
        max >= origin
    } else if dir < 0 {
        min <= origin
    } else {
        min <= origin <= max
    }
}

/// The broad phase.
pub struct DBVTBroadPhase {
    proxies: Vec<Option<Proxy>>,
    free: Vec<usize>,
    pairs: Vec<(usize, usize)>,
    margin: i64,
    purge_all: bool,
    tree: DBVT,
}

impl DBVTBroadPhase {
    /// The proxies, by their places.
    pub closed spec fn slots(&self) -> Slots {
        self.proxies@
    }

    /// The pairs that were reported as begun and not as ceased since, in the
    /// order in which they are kept.
    pub closed spec fn reported(&self) -> Seq<(usize, usize)> {
        self.pairs@
    }

    /// The distance by which a fat box is larger on every side.
    pub closed spec fn margin(&self) -> i64 {
        self.margin
    }

    /// Whether the next update looks at all pairs again.
    pub closed spec fn recompute_all(&self) -> bool {
        self.purge_all
    }

    /// The tree of the fat boxes.
    pub closed spec fn tree(&self) -> DBVT {
        self.tree
    }

    /// The proxies, by their handles.
    pub open spec fn proxies(&self) -> Map<BroadPhaseProxyHandle, Proxy> {
        Map::new(
            |h: BroadPhaseProxyHandle| live(self.slots(), h.0 as int),
            |h: BroadPhaseProxyHandle| self.slots()[h.0 as int]->0,
        )
    }

    /// Whether a proxy has the handle.
    pub open spec fn has(&self, handle: BroadPhaseProxyHandle) -> bool {
        live(self.slots(), handle.0 as int)
    }

    /// The free list names empty places only, each once.
    pub closed spec fn free_wf(&self) -> bool {
        &&& forall|i: int|
            0 <= i < self.free@.len() ==> (#[trigger] self.free@[i]) < self.proxies@.len()
                && self.proxies@[self.free@[i] as int] is None
        &&& forall|i: int, j: int|
            0 <= i < j < self.free@.len() ==> self.free@[i] != self.free@[j]
    }

    /// The broad phase is well formed: see `pairs_wf`, `mirrors` and
    /// `fat_boxes`.
    pub open spec fn wf(&self) -> bool {
        &&& self.free_wf()
        &&& pairs_wf(self.slots(), self.reported())
        &&& mirrors(self.slots(), self.tree())
        &&& self.margin() >= 0
        &&& fat_boxes(self.slots())
    }

    /// Whether an update has nothing to do.
    pub open spec fn quiet(&self) -> bool {
        &&& !self.recompute_all()
        &&& forall|i: int| live(self.slots(), i) ==> (#[trigger] self.slots()[i])->0.quiet()
    }

    /// A broad phase without proxies, whose fat boxes will be larger by
    /// `margin` on every side, or as large as the boxes where `margin` is
    /// negative.
    pub fn new(margin: i64) -> (bp: DBVTBroadPhase)
        ensures
            bp.wf(),
            bp.quiet(),
            bp.slots().len() == 0,
            bp.reported().len() == 0,
            bp.margin() == crate::math::max_of(margin, 0),
            bp.tree().root is None,
    {
        DBVTBroadPhase {
            proxies: Vec::new(),
            free: Vec::new(),
            pairs: Vec::new(),
            margin: crate::math::max(margin, 0),
            purge_all: false,
            tree: DBVT::new(),
        }
    }

    /// One more than the greatest place that a proxy ever had.
    pub fn capacity(&self) -> (n: usize)
        ensures
            n == self.slots().len(),
    {
        self.proxies.len()
    }

    /// Makes a proxy for an object, with a handle that no proxy has. The next
    /// update looks at its pairs.
    pub fn create_proxy(&mut self, aabb: AABB, data: CollisionObjectHandle) -> (handle:
        BroadPhaseProxyHandle)
        requires
            old(self).wf(),
        ensures
            final(self).wf(),
            !old(self).has(handle),
            final(self).proxies() == old(self).proxies().insert(
                handle,
                (Proxy {
                    aabb,
                    fat: aabb.loosened_by(old(self).margin()),
                    data,
                    pending: None,
                    dirty: true,
                }),
            ),
            final(self).reported() == old(self).reported(),
            final(self).margin() == old(self).margin(),
            final(self).recompute_all() == old(self).recompute_all(),
            final(self).tree() == old(self).tree().with(
                aabb.loosened_by(old(self).margin()),
                handle.0,
            ),
    {
        let proxy = Proxy { aabb, fat: aabb.loosened(self.margin), data, pending: None, dirty: true };
        let i: usize = match self.free.pop() {
            Some(i) => {
                assert(old(self).free@[old(self).free@.len() - 1] == i);
                self.proxies.set(i, Some(proxy));
                i
            },
            None => {
                let i: usize = self.proxies.len();
                self.proxies.push(Some(proxy));
                i
            },
        };
        self.tree.insert(proxy.fat, i);
        proof {
            assert(self.proxies() =~= old(self).proxies().insert(BroadPhaseProxyHandle(i), proxy));
            assert forall|k: int| 0 <= k < self.pairs@.len() implies pair_ok(
                self.slots(),
                #[trigger] self.pairs@[k],
            ) && overlapping(self.slots(), self.pairs@[k]) by {
                assert(pair_ok(old(self).slots(), self.pairs@[k]));
            }
            let before = old(self).tree;
            before.lemma_holds(i);
            before.lemma_with(proxy.fat, i);
            crate::bounding_volume::lemma_loosened_and_merged_enclose(aabb, aabb, self.margin);
            assert forall|j: int| live(self.slots(), j) implies (
            #[trigger] self.slots()[j])->0.fat.encloses(self.slots()[j]->0.aabb) by {
                if j != i {
                    assert(live(old(self).slots(), j));
                }
            }
            assert forall|j: usize| #[trigger] live(self.slots(), j as int) implies self.tree.has(
                j,
                self.slots()[j as int]->0.fat,
            ) by {
                if j != i {
                    assert(live(old(self).slots(), j as int));
                }
            }
        }
        BroadPhaseProxyHandle(i)
    }

    /// The box in effect and the object of a proxy.
    pub fn proxy(&self, handle: BroadPhaseProxyHandle) -> (r: Option<(&AABB, &CollisionObjectHandle)>)
        ensures
            r == (if self.has(handle) {
                Some((&self.proxies()[handle].aabb, &self.proxies()[handle].data))
            } else {
                None
            }),
    {
        if handle.0 < self.proxies.len() {
            match &self.proxies[handle.0] {
                Some(proxy) => Some((&proxy.aabb, &proxy.data)),
                None => None,
            }
        } else {
            None
        }
    }

    /// Sets the box that the next update takes over for a proxy. Does nothing
    /// where no proxy has the handle.
    pub fn deferred_set_bounding_volume(&mut self, handle: BroadPhaseProxyHandle, aabb: AABB)
        requires
            old(self).wf(),
        ensures
            final(self).wf(),
            final(self).reported() == old(self).reported(),
            final(self).margin() == old(self).margin(),
            final(self).recompute_all() == old(self).recompute_all(),
            final(self).tree() == old(self).tree(),
            final(self).proxies() == (if old(self).has(handle) {
                old(self).proxies().insert(
                    handle,
                    (Proxy { pending: Some(aabb), ..old(self).proxies()[handle] }),
                )
            } else {
                old(self).proxies()
            }),
    {
        if handle.0 < self.proxies.len() {
            match self.proxies[handle.0] {
                Some(proxy) => {
                    self.proxies.set(handle.0, Some(Proxy { pending: Some(aabb), ..proxy }));
                },
                None => {},
            }
        }
        proof {
            self.lemma_same_boxes(*old(self));
            if old(self).has(handle) {
                assert(self.proxies() =~= old(self).proxies().insert(
                    handle,
                    (Proxy { pending: Some(aabb), ..old(self).proxies()[handle] }),
                ));
            } else {
                assert(self.proxies() =~= old(self).proxies());
            }
        }
    }

    /// Has the next update look at all pairs of a proxy again. Does nothing
    /// where no proxy has the handle.
    pub fn deferred_recompute_all_proximities_with(&mut self, handle: BroadPhaseProxyHandle)
        requires
            old(self).wf(),
        ensures
            final(self).wf(),
            final(self).reported() == old(self).reported(),
            final(self).margin() == old(self).margin(),
            final(self).recompute_all() == old(self).recompute_all(),
            final(self).tree() == old(self).tree(),
            final(self).proxies() == (if old(self).has(handle) {
                old(self).proxies().insert(
                    handle,
                    (Proxy { dirty: true, ..old(self).proxies()[handle] }),
                )
            } else {
                old(self).proxies()
            }),
    {
        if handle.0 < self.proxies.len() {
            match self.proxies[handle.0] {
                Some(proxy) => {
                    self.proxies.set(handle.0, Some(Proxy { dirty: true, ..proxy }));
                },
                None => {},
            }
        }
        proof {
            self.lemma_same_boxes(*old(self));
            if old(self).has(handle) {
                assert(self.proxies() =~= old(self).proxies().insert(
                    handle,
                    (Proxy { dirty: true, ..old(self).proxies()[handle] }),
                ));
            } else {
                assert(self.proxies() =~= old(self).proxies());
            }
        }
    }

    /// Has the next update look at all pairs again.
    pub fn deferred_recompute_all_proximities(&mut self)
        ensures
            final(self).wf() == old(self).wf(),
            final(self).slots() == old(self).slots(),
            final(self).reported() == old(self).reported(),
            final(self).margin() == old(self).margin(),
            final(self).tree() == old(self).tree(),
            final(self).recompute_all(),
    {
        self.purge_all = true;
    }

    /// Where the same places are taken, with the same fat boxes, the same
    /// pairs are well formed.
    proof fn lemma_same_boxes(self, before: DBVTBroadPhase)
        requires
            before.wf(),
            self.free == before.free,
            self.pairs == before.pairs,
            self.tree == before.tree,
            self.margin == before.margin,
            self.proxies@.len() == before.proxies@.len(),
            forall|i: int|
                0 <= i < self.proxies@.len() ==> (self.proxies@[i] is Some) == (
                before.proxies@[i] is Some),
            forall|i: int|
                0 <= i < self.proxies@.len() && self.proxies@[i] is Some
                    ==> self.proxies@[i]->0.fat == before.proxies@[i]->0.fat
                    && self.proxies@[i]->0.aabb == before.proxies@[i]->0.aabb,
        ensures
            self.wf(),
    {
        assert forall|i: int| live(self.slots(), i) implies (
        #[trigger] self.slots()[i])->0.fat.encloses(self.slots()[i]->0.aabb) by {
            assert(live(before.slots(), i));
        }
        assert forall|k: int| 0 <= k < self.pairs@.len() implies pair_ok(
            self.slots(),
            #[trigger] self.pairs@[k],
        ) && overlapping(self.slots(), self.pairs@[k]) by {
            assert(pair_ok(before.slots(), self.pairs@[k]));
        }
        assert forall|j: usize| #[trigger] live(self.slots(), j as int) implies self.tree.has(
            j,
            self.slots()[j as int]->0.fat,
        ) by {
            assert(live(before.slots(), j as int));
        }
    }
}

/// The proxies without those that `handles` names.
pub open spec fn slots_without(slots: Slots, handles: Seq<BroadPhaseProxyHandle>) -> Slots {
    Seq::new(
        slots.len(),
        |i: int|
            if handles.contains(BroadPhaseProxyHandle(i as usize)) {
                None
            } else {
                slots[i]
            },
    )
}

/// What a query of the broad phase looks for.
#[derive(Clone, Copy, Debug, PartialEq, Eq, Structural)]
pub enum SpatialQuery {
    /// The boxes that share a point with a box.
    Volume(AABB),
    /// The boxes that reach into the part of space into which a ray points.
    Ray(Ray),
    /// The boxes that hold a point.
    Point(Point),
}

impl SpatialQuery {
    /// Whether the query finds a box.
    pub open spec fn finds(self, aabb: AABB) -> bool {
        match self {
            SpatialQuery::Volume(other) => aabb.meets(other),
            SpatialQuery::Ray(ray) => ray_may_meet(aabb, ray),
            SpatialQuery::Point(point) => aabb.holds_point(point),
        }
    }

    /// Tests whether the query finds a box.
    pub fn test(&self, aabb: &AABB) -> (r: bool)
        ensures
            r == self.finds(*aabb),
    {
        match self {
            SpatialQuery::Volume(other) => aabb.intersects(other),
            SpatialQuery::Ray(ray) => axis_test(aabb.mins.x, aabb.maxs.x, ray.origin.x, ray.dir.x)
                && axis_test(aabb.mins.y, aabb.maxs.y, ray.origin.y, ray.dir.y) && axis_test(
                aabb.mins.z,
                aabb.maxs.z,
                ray.origin.z,
                ray.dir.z,
            ),
            SpatialQuery::Point(point) => aabb.contains_point(point),
        }
    }
}

/// Tests `axis_may_meet`.
fn axis_test(min: i64, max: i64, origin: i64, dir: i64) -> (r: bool)
    ensures
        r == axis_may_meet(min, max, origin, dir),
{
    if dir > 0 {
        max >= origin
    } else if dir < 0 {
        min <= origin
    } else {
        min <= origin && origin <= max
    }
}

impl BoxTest for SpatialQuery {
    open spec fn passes(&self, aabb: AABB) -> bool {
        self.finds(aabb)
    }

    fn check(&self, aabb: &AABB) -> (r: bool) {
        self.test(aabb)
    }

    proof fn lemma_grows(&self, inner: AABB, outer: AABB) {
    }
}

/// Whether `handle` is the object of a proxy.
pub open spec fn object_of_proxy(slots: Slots, handle: CollisionObjectHandle) -> bool {
    exists|i: usize| #[trigger] live(slots, i as int) && handle == slots[i as int]->0.data
}

/// The objects of the first `upto` of the proxies at `places` whose box in
/// effect the query finds, in the order of `places`.
pub open spec fn found_among(slots: Slots, places: Seq<usize>, query: SpatialQuery, upto: int) -> Seq<
    CollisionObjectHandle,
>
    decreases upto,
{
    if upto <= 0 {
        Seq::empty()
    } else {
        let rest = found_among(slots, places, query, upto - 1);
        let proxy = slots[places[upto - 1] as int]->0;
        if query.finds(proxy.aabb) {
            rest.push(proxy.data)
        } else {
            rest
        }
    }
}

/// The objects found hold that of each proxy gone through whose box in
/// effect the query finds.
pub proof fn lemma_found_among_all(
    slots: Slots,
    places: Seq<usize>,
    query: SpatialQuery,
    upto: int,
    j: int,
)
    requires
        0 <= j < upto <= places.len(),
        query.finds(slots[places[j] as int]->0.aabb),
    ensures
        found_among(slots, places, query, upto).contains(slots[places[j] as int]->0.data),
    decreases upto,
{
    let out = found_among(slots, places, query, upto);
    let rest = found_among(slots, places, query, upto - 1);
    if j < upto - 1 {
        lemma_found_among_all(slots, places, query, upto - 1, j);
        let k = choose|k: int| 0 <= k < rest.len() && rest[k] == slots[places[j] as int]->0.data;
        assert(out[k] == rest[k]);
    } else {
        assert(out[out.len() - 1] == slots[places[j] as int]->0.data);
    }
}

/// Every object that a query finds is that of one of the proxies.
pub proof fn lemma_found_among(slots: Slots, places: Seq<usize>, query: SpatialQuery, upto: int)
    requires
        upto <= places.len(),
    ensures
        forall|k: int|
            0 <= k < found_among(slots, places, query, upto).len() ==> exists|j: int|
                0 <= j < upto && #[trigger] found_among(slots, places, query, upto)[k] == slots[(
                #[trigger] places[j]) as int]->0.data,
    decreases upto,
{
    if upto > 0 {
        lemma_found_among(slots, places, query, upto - 1);
        let rest = found_among(slots, places, query, upto - 1);
        let out = found_among(slots, places, query, upto);
        assert forall|k: int| 0 <= k < out.len() implies exists|j: int|
            0 <= j < upto && #[trigger] out[k] == slots[(#[trigger] places[j]) as int]->0.data by {
            if k < rest.len() {
                assert(out[k] == rest[k]);
                let j = choose|j: int|
                    0 <= j < upto - 1 && #[trigger] rest[k] == slots[(
                    #[trigger] places[j]) as int]->0.data;
                assert(out[k] == slots[places[j] as int]->0.data);
            } else {
                assert(out[k] == slots[places[upto - 1] as int]->0.data);
            }
        }
    }
}

/// What `sifted` holds: pairs that were reported, each once where each was
/// reported once, and exactly those that stay, or that do not stay.
pub proof fn lemma_sifted<H: BroadPhaseInterferenceHandler>(
    slots: Slots,
    all: bool,
    handler: H,
    reported: Seq<(usize, usize)>,
    staying: bool,
    upto: int,
)
    requires
        0 <= upto <= reported.len(),
    ensures
        sifted(slots, all, handler, reported, staying, upto).len() <= upto,
        forall|k: int|
            0 <= k < sifted(slots, all, handler, reported, staying, upto).len() ==> {
                let p = #[trigger] sifted(slots, all, handler, reported, staying, upto)[k];
                keeps(slots, all, handler, p) == staying && exists|i: int|
                    k <= i < upto && reported[i] == p
            },
        forall|i: int|
            0 <= i < upto && keeps(slots, all, handler, #[trigger] reported[i]) == staying ==> sifted(
                slots,
                all,
                handler,
                reported,
                staying,
                upto,
            ).contains(reported[i]),
        (forall|k: int, l: int| 0 <= k < l < reported.len() ==> reported[k] != reported[l])
            ==> forall|k: int, l: int|
            0 <= k < l < sifted(slots, all, handler, reported, staying, upto).len() ==> sifted(
                slots,
                all,
                handler,
                reported,
                staying,
                upto,
            )[k] != sifted(slots, all, handler, reported, staying, upto)[l],
    decreases upto,
{
    let out = sifted(slots, all, handler, reported, staying, upto);
    if upto > 0 {
        let rest = sifted(slots, all, handler, reported, staying, upto - 1);
        lemma_sifted(slots, all, handler, reported, staying, upto - 1);
        let last = reported[upto - 1];
        assert forall|k: int| 0 <= k < out.len() implies {
            let p = #[trigger] out[k];
            keeps(slots, all, handler, p) == staying && exists|i: int|
                k <= i < upto && reported[i] == p
        } by {
            if k < rest.len() {
                assert(out[k] == rest[k]);
                let i = choose|i: int| k <= i < upto - 1 && reported[i] == rest[k];
                assert(reported[i] == out[k]);
            } else {
                assert(out[k] == last);
                assert(reported[upto - 1] == out[k]);
            }
        }
        assert forall|i: int|
            0 <= i < upto && keeps(slots, all, handler, #[trigger] reported[i])
                == staying implies out.contains(reported[i]) by {
            if i < upto - 1 {
                assert(rest.contains(reported[i]));
                let k = choose|k: int| 0 <= k < rest.len() && rest[k] == reported[i];
                assert(out[k] == reported[i]);
            } else {
                assert(out[out.len() - 1] == reported[i]);
            }
        }
        if forall|k: int, l: int| 0 <= k < l < reported.len() ==> reported[k] != reported[l] {
            assert forall|k: int, l: int| 0 <= k < l < out.len() implies out[k] != out[l] by {
                if l < rest.len() {
                    assert(out[k] == rest[k] && out[l] == rest[l]);
                } else {
                    assert(out[l] == last);
                    assert(out[k] == rest[k]);
                    let i = choose|i: int| k <= i < upto - 1 && reported[i] == rest[k];
                    assert(reported[i] != reported[upto - 1]);
                }
            }
        }
    }
}

/// What `begun_row` holds: pairs that begin and are found with `a`, each
/// once, and all of them once all proxies near `a` were gone through.
pub proof fn lemma_begun_row<H: BroadPhaseInterferenceHandler>(
    slots: Slots,
    tree: DBVT,
    all: bool,
    handler: H,
    reported: Seq<(usize, usize)>,
    a: usize,
    upto: int,
)
    requires
        mirrors(slots, tree),
        live(slots, a as int),
        stale_one(slots, all, a as int),
        upto <= near(slots, tree, a as int).len(),
    ensures
        begun_row(slots, all, handler, reported, a, near(slots, tree, a as int), upto).len() <= (
        if upto > 0 {
            upto
        } else {
            0
        }),
        forall|k: int|
            0 <= k < begun_row(
                slots,
                all,
                handler,
                reported,
                a,
                near(slots, tree, a as int),
                upto,
            ).len() ==> {
                let p = #[trigger] begun_row(
                    slots,
                    all,
                    handler,
                    reported,
                    a,
                    near(slots, tree, a as int),
                    upto,
                )[k];
                begins(slots, all, handler, reported, p) && owner(slots, all, p) == a && exists|
                    j: int,
                |
                    k <= j < upto && p == ordered(a, #[trigger] near(slots, tree, a as int)[j])
            },
        forall|j: int|
            0 <= j < upto && takes(
                slots,
                all,
                handler,
                reported,
                a,
                #[trigger] near(slots, tree, a as int)[j],
            ) ==> begun_row(
                slots,
                all,
                handler,
                reported,
                a,
                near(slots, tree, a as int),
                upto,
            ).contains(ordered(a, near(slots, tree, a as int)[j])),
        forall|k: int, l: int|
            0 <= k < l < begun_row(
                slots,
                all,
                handler,
                reported,
                a,
                near(slots, tree, a as int),
                upto,
            ).len() ==> begun_row(slots, all, handler, reported, a, near(slots, tree, a as int), upto)[k]
                != begun_row(slots, all, handler, reported, a, near(slots, tree, a as int), upto)[l],
    decreases upto,
{
    let others = near(slots, tree, a as int);
    let query = SpatialQuery::Volume(slots[a as int]->0.fat);
    let out = begun_row(slots, all, handler, reported, a, others, upto);
    tree.lemma_hits(query);
    if upto > 0 {
        lemma_begun_row(slots, tree, all, handler, reported, a, upto - 1);
        let rest = begun_row(slots, all, handler, reported, a, others, upto - 1);
        let b = others[upto - 1];
        let last = ordered(a, b);
        assert forall|k: int| 0 <= k < out.len() implies {
            let p = #[trigger] out[k];
            begins(slots, all, handler, reported, p) && owner(slots, all, p) == a && exists|j: int|
                k <= j < upto && p == ordered(a, #[trigger] others[j])
        } by {
            if k < rest.len() {
                assert(out[k] == rest[k]);
                let j = choose|j: int| k <= j < upto - 1 && rest[k] == ordered(a, #[trigger] others[j]);
                assert(out[k] == ordered(a, others[j]));
            } else {
                assert(out[k] == last);
                assert(takes(slots, all, handler, reported, a, b));
                assert(others == tree.hits(query));
                assert(b == tree.hits(query)[upto - 1]);
                assert(tree.passing(query, b));
                let fat = choose|fat: AABB| tree.has(b, fat) && query.passes(fat);
                assert(tree.has(b, fat));
                assert(live(slots, b as int) && slots[b as int]->0.fat == fat);
                assert(fat.meets(slots[a as int]->0.fat));
                assert(slots[a as int]->0.fat.meets(fat));
                assert(pair_ok(slots, last));
                assert(overlapping(slots, last));
                assert(stale(slots, all, last));
                assert(begins(slots, all, handler, reported, last));
                assert(owner(slots, all, last) == a);
                assert(last == ordered(a, others[upto - 1]));
            }
        }
        assert forall|j: int|
            0 <= j < upto && takes(
                slots,
                all,
                handler,
                reported,
                a,
                #[trigger] others[j],
            ) implies out.contains(ordered(a, others[j])) by {
            if j < upto - 1 {
                assert(rest.contains(ordered(a, others[j])));
                let k = choose|k: int| 0 <= k < rest.len() && rest[k] == ordered(a, others[j]);
                assert(out[k] == rest[k]);
            } else {
                assert(out[out.len() - 1] == last);
            }
        }
        assert forall|k: int, l: int| 0 <= k < l < out.len() implies out[k] != out[l] by {
            assert(out[k] == rest[k]);
            if l < rest.len() {
                assert(out[l] == rest[l]);
            } else {
                assert(out[l] == last);
                let j = choose|j: int| k <= j < upto - 1 && rest[k] == ordered(a, #[trigger] others[j]);
                assert(others[j] != others[upto - 1]);
            }
        }
    }
}

/// What `begun_rows` holds: the pairs that begin and are found with a proxy
/// before `a_end`, each once.
pub proof fn lemma_begun_rows<H: BroadPhaseInterferenceHandler>(
    slots: Slots,
    tree: DBVT,
    all: bool,
    handler: H,
    reported: Seq<(usize, usize)>,
    a_end: int,
)
    requires
        mirrors(slots, tree),
        a_end <= slots.len() <= usize::MAX,
    ensures
        forall|k: int|
            0 <= k < begun_rows(slots, tree, all, handler, reported, a_end).len() ==> {
                let p = #[trigger] begun_rows(slots, tree, all, handler, reported, a_end)[k];
                begins(slots, all, handler, reported, p) && owner(slots, all, p) < a_end
            },
        forall|k: int, l: int|
            0 <= k < l < begun_rows(slots, tree, all, handler, reported, a_end).len() ==> begun_rows(
                slots,
                tree,
                all,
                handler,
                reported,
                a_end,
            )[k] != begun_rows(slots, tree, all, handler, reported, a_end)[l],
        forall|p: (usize, usize)|
            #[trigger] begins(slots, all, handler, reported, p) && owner(slots, all, p) < a_end
                ==> begun_rows(slots, tree, all, handler, reported, a_end).contains(p),
    decreases a_end,
{
    let out = begun_rows(slots, tree, all, handler, reported, a_end);
    if a_end > 0 {
        let a = (a_end - 1) as usize;
        let rest = begun_rows(slots, tree, all, handler, reported, a_end - 1);
        lemma_begun_rows(slots, tree, all, handler, reported, a_end - 1);
        if live(slots, a as int) && stale_one(slots, all, a as int) {
            let others = near(slots, tree, a as int);
            let query = SpatialQuery::Volume(slots[a as int]->0.fat);
            let row = begun_row(slots, all, handler, reported, a, others, others.len() as int);
            lemma_begun_row(slots, tree, all, handler, reported, a, others.len() as int);
            tree.lemma_hits(query);
            assert forall|k: int| 0 <= k < out.len() implies {
                let p = #[trigger] out[k];
                begins(slots, all, handler, reported, p) && owner(slots, all, p) < a_end
            } by {
                if k < rest.len() {
                    assert(out[k] == rest[k]);
                } else {
                    assert(out[k] == row[k - rest.len()]);
                }
            }
            assert forall|k: int, l: int| 0 <= k < l < out.len() implies out[k] != out[l] by {
                if l < rest.len() {
                    assert(out[k] == rest[k] && out[l] == rest[l]);
                } else if k < rest.len() {
                    assert(out[k] == rest[k]);
                    assert(out[l] == row[l - rest.len()]);
                } else {
                    assert(out[k] == row[k - rest.len()]);
                    assert(out[l] == row[l - rest.len()]);
                }
            }
            assert forall|p: (usize, usize)|
                #[trigger] begins(slots, all, handler, reported, p) && owner(slots, all, p)
                    < a_end implies out.contains(p) by {
                if owner(slots, all, p) < a_end - 1 {
                    assert(rest.contains(p));
                    let k = choose|k: int| 0 <= k < rest.len() && rest[k] == p;
                    assert(out[k] == p);
                } else {
                    let b = if p.0 == a {
                        p.1
                    } else {
                        p.0
                    };
                    assert(p == ordered(a, b));
                    assert(live(slots, b as int));
                    assert(tree.has(b, slots[b as int]->0.fat));
                    assert(overlapping(slots, p));
                    assert(query.passes(slots[b as int]->0.fat));
                    assert(tree.passing(query, b));
                    assert(others == tree.hits(query));
                    assert(others.contains(b));
                    let j = choose|j: int| 0 <= j < others.len() && others[j] == b;
                    assert(takes(slots, all, handler, reported, a, others[j]));
                    assert(row.contains(ordered(a, others[j])));
                    let k = choose|k: int| 0 <= k < row.len() && row[k] == p;
                    assert(out[rest.len() + k] == p);
                }
            }
        } else {
            assert forall|p: (usize, usize)|
                #[trigger] begins(slots, all, handler, reported, p) && owner(slots, all, p)
                    < a_end implies out.contains(p) by {
                if owner(slots, all, p) == a {
                    assert(pair_ok(slots, p));
                    assert(stale(slots, all, p));
                    assert(false);
                }
            }
        }
    }
}

/// What `surviving` holds: the reported pairs of which both proxies are still
/// there, in their order.
pub proof fn lemma_surviving(slots: Slots, reported: Seq<(usize, usize)>)
    ensures
        surviving(slots, reported).len() <= reported.len(),
        forall|k: int|
            0 <= k < surviving(slots, reported).len() ==> pair_ok(
                slots,
                #[trigger] surviving(slots, reported)[k],
            ) && exists|i: int| k <= i < reported.len() && reported[i] == surviving(slots, reported)[k],
        forall|i: int|
            0 <= i < reported.len() && pair_ok(slots, #[trigger] reported[i]) ==> surviving(
                slots,
                reported,
            ).contains(reported[i]),
        (forall|k: int, l: int| 0 <= k < l < reported.len() ==> reported[k] != reported[l])
            ==> forall|k: int, l: int|
            0 <= k < l < surviving(slots, reported).len() ==> surviving(slots, reported)[k]
                != surviving(slots, reported)[l],
        (forall|i: int| 0 <= i < reported.len() ==> pair_ok(slots, #[trigger] reported[i]))
            ==> surviving(slots, reported) == reported,
    decreases reported.len(),
{
    let out = surviving(slots, reported);
    if reported.len() > 0 {
        let front = reported.drop_last();
        let rest = surviving(slots, front);
        lemma_surviving(slots, front);
        let last = reported.last();
        assert forall|k: int| 0 <= k < out.len() implies pair_ok(slots, #[trigger] out[k])
            && exists|i: int| k <= i < reported.len() && reported[i] == out[k] by {
            if k < rest.len() {
                assert(out[k] == rest[k]);
                let i = choose|i: int| k <= i < front.len() && front[i] == rest[k];
                assert(reported[i] == out[k]);
            } else {
                assert(reported[reported.len() - 1] == out[k]);
            }
        }
        assert forall|i: int|
            0 <= i < reported.len() && pair_ok(slots, #[trigger] reported[i]) implies out.contains(
            reported[i],
        ) by {
            if i < front.len() {
                assert(front[i] == reported[i]);
                assert(rest.contains(front[i]));
                let k = choose|k: int| 0 <= k < rest.len() && rest[k] == front[i];
                assert(out[k] == reported[i]);
            } else {
                assert(out[out.len() - 1] == reported[i]);
            }
        }
        if forall|k: int, l: int| 0 <= k < l < reported.len() ==> reported[k] != reported[l] {
            assert forall|x: int, y: int| 0 <= x < y < front.len() implies front[x] != front[y] by {
                assert(front[x] == reported[x] && front[y] == reported[y]);
            }
            assert forall|k: int, l: int| 0 <= k < l < out.len() implies out[k] != out[l] by {
                assert(out[k] == rest[k]);
                if l < rest.len() {
                    assert(out[l] == rest[l]);
                } else {
                    let i = choose|i: int| k <= i < front.len() && front[i] == rest[k];
                    assert(reported[i] != reported[reported.len() - 1]);
                }
            }
        }
        if forall|i: int| 0 <= i < reported.len() ==> pair_ok(slots, #[trigger] reported[i]) {
            assert forall|i: int| 0 <= i < front.len() implies pair_ok(slots, #[trigger] front[i]) by {
                assert(front[i] == reported[i]);
            }
            assert(out =~= reported);
        }
    }
}

/// Where nothing is pending, taking over the pending boxes leaves the tree as
/// it is.
pub proof fn lemma_quiet_flush(tree: DBVT, slots: Slots, margin: i64, upto: int)
    requires
        upto <= slots.len(),
        forall|i: int| live(slots, i) ==> (#[trigger] slots[i])->0.pending is None,
    ensures
        flushed_tree(tree, slots, margin, upto) == tree,
    decreases upto,
{
    if upto > 0 {
        lemma_quiet_flush(tree, slots, margin, upto - 1);
        if slots[upto - 1] is Some {
            assert(live(slots, upto - 1));
        }
    }
}

/// Where no pair is looked at again and every reported pair overlaps, all
/// reported pairs stay and none becomes reported.
pub proof fn lemma_quiet_update<H: BroadPhaseInterferenceHandler>(
    slots: Slots,
    tree: DBVT,
    handler: H,
    reported: Seq<(usize, usize)>,
    upto: int,
    a_end: int,
)
    requires
        pairs_wf(slots, reported),
        forall|i: int| live(slots, i) ==> !(#[trigger] slots[i])->0.dirty,
        0 <= upto <= reported.len(),
        a_end <= slots.len(),
    ensures
        sifted(slots, false, handler, reported, true, upto) == reported.take(upto),
        sifted(slots, false, handler, reported, false, upto) == Seq::<(usize, usize)>::empty(),
        begun_rows(slots, tree, false, handler, reported, a_end) == Seq::<(usize, usize)>::empty(),
    decreases upto + (if a_end > 0 {
        a_end
    } else {
        0
    }),
{
    if upto > 0 {
        lemma_quiet_update(slots, tree, handler, reported, upto - 1, a_end);
        let p = reported[upto - 1];
        assert(pair_ok(slots, p) && overlapping(slots, p));
        assert(!slots[p.0 as int]->0.dirty);
        assert(!slots[p.1 as int]->0.dirty);
        assert(keeps(slots, false, handler, p));
        assert(reported.take(upto - 1).push(p) =~= reported.take(upto));
    } else {
        assert(reported.take(0) =~= Seq::<(usize, usize)>::empty());
        if a_end > 0 {
            lemma_quiet_update(slots, tree, handler, reported, upto, a_end - 1);
            if live(slots, a_end - 1) {
                assert(!slots[a_end - 1]->0.dirty);
            }
        }
    }
}

impl DBVTBroadPhase {
    /// Removes the proxies that `handles` names, and every reported pair of
    /// theirs, without a signal. A handle that no proxy has is passed over.
    pub fn remove(&mut self, handles: &[BroadPhaseProxyHandle])
        requires
            old(self).wf(),
        ensures
            final(self).wf(),
            final(self).slots() == slots_without(old(self).slots(), handles@),
            final(self).reported() == surviving(final(self).slots(), old(self).reported()),
            final(self).margin() == old(self).margin(),
            final(self).recompute_all() == old(self).recompute_all(),
            final(self).tree() == tree_without(
                old(self).tree(),
                old(self).slots(),
                handles@,
                handles@.len() as int,
            ),
    {
        let mut k: usize = 0;
        proof {
            assert(self.proxies@ =~= slots_without(old(self).proxies@, handles@.take(0)));
        }
        while k < handles.len()
            invariant
                k <= handles@.len(),
                self.free_wf(),
                mirrors(self.proxies@, self.tree),
                fat_boxes(self.proxies@),
                self.tree == tree_without(old(self).tree, old(self).proxies@, handles@, k as int),
                self.proxies@ == slots_without(old(self).proxies@, handles@.take(k as int)),
                self.pairs == old(self).pairs,
                self.margin == old(self).margin,
                self.purge_all == old(self).purge_all,
            decreases handles@.len() - k,
        {
            let i: usize = handles[k].0;
            let ghost before = self.proxies@;
            let ghost tree = self.tree;
            if i < self.proxies.len() {
                match self.proxies[i] {
                    Some(proxy) => {
                        self.proxies.set(i, None);
                        self.free.push(i);
                        let _ = self.tree.remove(&proxy.fat, i);
                        proof {
                            assert(before[i as int] == old(self).proxies@[i as int]);
                            assert(live(before, i as int));
                            assert(tree.has(i, proxy.fat));
                            tree.lemma_without(proxy.fat, i);
                            assert forall|j: usize| #[trigger]
                                live(self.proxies@, j as int) implies self.tree.has(
                                j,
                                self.proxies@[j as int]->0.fat,
                            ) by {
                                assert(live(before, j as int));
                            }
                            assert forall|j: int| live(self.proxies@, j) implies (
                            #[trigger] self.proxies@[j])->0.fat.encloses(self.proxies@[j]->0.aabb) by {
                                assert(live(before, j));
                            }
                        }
                    },
                    None => {},
                }
            }
            proof {
                let named = handles@.take(k as int);
                let more = handles@.take(k + 1);
                assert(more =~= named.push(handles@[k as int]));
                assert forall|j: int| 0 <= j < before.len() implies self.proxies@[j] == slots_without(
                    old(self).proxies@,
                    more,
                )[j] by {
                    if more.contains(BroadPhaseProxyHandle(j as usize)) {
                        let w = choose|w: int|
                            0 <= w < more.len() && more[w] == BroadPhaseProxyHandle(j as usize);
                        if w < k {
                            assert(named[w] == more[w]);
                        }
                    } else {
                        if named.contains(BroadPhaseProxyHandle(j as usize)) {
                            let w = choose|w: int|
                                0 <= w < named.len() && named[w] == BroadPhaseProxyHandle(j as usize);
                            assert(more[w] == named[w]);
                        }
                        assert(j != i) by {
                            if j == i {
                                assert(more[k as int] == BroadPhaseProxyHandle(j as usize));
                            }
                        }
                    }
                }
                assert(self.proxies@ =~= slots_without(old(self).proxies@, more));
            }
            k += 1;
        }
        proof {
            assert(handles@.take(k as int) =~= handles@);
        }
        let mut kept: Vec<(usize, usize)> = Vec::new();
        let mut n: usize = 0;
        while n < self.pairs.len()
            invariant
                n <= self.pairs@.len(),
                self.pairs == old(self).pairs,
                pairs_wf(old(self).proxies@, self.pairs@),
                self.proxies@.len() == old(self).proxies@.len(),
                self.tree == tree_without(
                    old(self).tree,
                    old(self).proxies@,
                    handles@,
                    handles@.len() as int,
                ),
                mirrors(self.proxies@, self.tree),
                fat_boxes(self.proxies@),
                kept@ == surviving(self.proxies@, self.pairs@.take(n as int)),
            decreases self.pairs@.len() - n,
        {
            let pair = self.pairs[n];
            proof {
                assert(pair_ok(old(self).proxies@, self.pairs@[n as int]));
                assert(self.pairs@.take(n + 1).drop_last() =~= self.pairs@.take(n as int));
            }
            if self.proxies[pair.0].is_some() && self.proxies[pair.1].is_some() {
                kept.push(pair);
            }
            n += 1;
        }
        proof {
            assert(self.pairs@.take(n as int) =~= self.pairs@);
            lemma_surviving(self.proxies@, self.pairs@);
            assert forall|x: int| 0 <= x < kept@.len() implies pair_ok(
                self.proxies@,
                #[trigger] kept@[x],
            ) && overlapping(self.proxies@, kept@[x]) by {
                let i = choose|i: int| x <= i < self.pairs@.len() && self.pairs@[i] == kept@[x];
                assert(overlapping(old(self).proxies@, self.pairs@[i]));
            }
        }
        self.pairs = kept;
    }

    /// The objects that a query finds: those of the proxies whose box in
    /// effect the query finds, in the order in which the tree yields the
    /// proxies whose fat box the query finds.
    pub open spec fn found(&self, query: SpatialQuery) -> Seq<CollisionObjectHandle> {
        found_among(
            self.slots(),
            self.tree().hits(query),
            query,
            self.tree().hits(query).len() as int,
        )
    }

    /// Every object that a query finds is that of a proxy.
    pub proof fn lemma_found(&self, query: SpatialQuery)
        requires
            self.wf(),
        ensures
            forall|k: int|
                0 <= k < self.found(query).len() ==> object_of_proxy(
                    self.slots(),
                    #[trigger] self.found(query)[k],
                ),
    {
        let places = self.tree().hits(query);
        self.tree().lemma_hits(query);
        lemma_found_among(self.slots(), places, query, places.len() as int);
        assert forall|k: int| 0 <= k < self.found(query).len() implies object_of_proxy(
            self.slots(),
            #[trigger] self.found(query)[k],
        ) by {
            let j = choose|j: int|
                0 <= j < places.len() && #[trigger] self.found(query)[k] == self.slots()[(
                #[trigger] places[j]) as int]->0.data;
            assert(self.tree().passing(query, places[j]));
            let fat = choose|fat: AABB| self.tree().has(places[j], fat) && query.passes(fat);
            assert(self.tree().has(places[j], fat));
            assert(live(self.slots(), places[j] as int));
        }
    }

    /// A query finds the object of every proxy whose box in effect it finds.
    pub proof fn lemma_found_all(&self, query: SpatialQuery, i: usize)
        requires
            self.wf(),
            live(self.slots(), i as int),
            query.finds(self.slots()[i as int]->0.aabb),
        ensures
            self.found(query).contains(self.slots()[i as int]->0.data),
    {
        let places = self.tree().hits(query);
        let proxy = self.slots()[i as int]->0;
        self.tree().lemma_hits(query);
        query.lemma_grows(proxy.aabb, proxy.fat);
        assert(self.tree().has(i, proxy.fat));
        assert(self.tree().passing(query, i));
        let j = choose|j: int| 0 <= j < places.len() && places[j] == i;
        lemma_found_among_all(self.slots(), places, query, places.len() as int, j);
    }

    /// Appends to `out` the objects that the query finds.
    pub fn interferences(&self, query: &SpatialQuery, out: &mut Vec<CollisionObjectHandle>)
        requires
            self.wf(),
        ensures
            final(out)@ == old(out)@ + self.found(*query),
    {
        let mut places: Vec<usize> = Vec::new();
        self.tree.collect(query, &mut places);
        proof {
            self.tree.lemma_hits(*query);
            assert(places@ =~= self.tree.hits(*query));
            assert forall|j: int| 0 <= j < places@.len() implies self.tree.passing(
                *query,
                #[trigger] places@[j],
            ) by {
                assert(places@[j] == self.tree.hits(*query)[j]);
            }
        }
        let mut k: usize = 0;
        while k < places.len()
            invariant
                k <= places@.len(),
                places@ == self.tree.hits(*query),
                mirrors(self.proxies@, self.tree),
                forall|j: int|
                    0 <= j < places@.len() ==> self.tree.passing(*query, #[trigger] places@[j]),
                out@ == old(out)@ + found_among(self.proxies@, places@, *query, k as int),
            decreases places@.len() - k,
        {
            let i: usize = places[k];
            proof {
                assert(self.tree.passing(*query, places@[k as int]));
                let b = choose|b: AABB| self.tree.has(i, b) && query.passes(b);
                assert(self.tree.has(i, b));
                assert(live(self.proxies@, i as int));
            }
            match &self.proxies[i] {
                Some(proxy) => {
                    if query.test(&proxy.aabb) {
                        out.push(proxy.data);
                    }
                },
                None => {},
            }
            proof {
                assert(out@ =~= old(out)@ + found_among(self.proxies@, places@, *query, k + 1));
            }
            k += 1;
        }
    }

    /// Appends to `out` the objects whose box shares a point with `aabb`.
    pub fn interferences_with_bounding_volume(&self, aabb: &AABB, out: &mut Vec<CollisionObjectHandle>)
        requires
            self.wf(),
        ensures
            final(out)@ == old(out)@ + self.found(SpatialQuery::Volume(*aabb)),
    {
        self.interferences(&SpatialQuery::Volume(*aabb), out);
    }

    /// Appends to `out` the objects whose box reaches into the part of space
    /// into which `ray` points. The ray meets no other object.
    pub fn interferences_with_ray(&self, ray: &Ray, out: &mut Vec<CollisionObjectHandle>)
        requires
            self.wf(),
        ensures
            final(out)@ == old(out)@ + self.found(SpatialQuery::Ray(*ray)),
    {
        self.interferences(&SpatialQuery::Ray(*ray), out);
    }

    /// Appends to `out` the objects whose box holds `point`.
    pub fn interferences_with_point(&self, point: &Point, out: &mut Vec<CollisionObjectHandle>)
        requires
            self.wf(),
        ensures
            final(out)@ == old(out)@ + self.found(SpatialQuery::Point(*point)),
    {
        self.interferences(&SpatialQuery::Point(*point), out);
    }

    /// Whether the pair is among the reported ones.
    fn is_reported(&self, pair: (usize, usize)) -> (r: bool)
        ensures
            r == self.pairs@.contains(pair),
    {
        let mut k: usize = 0;
        while k < self.pairs.len()
            invariant
                k <= self.pairs@.len(),
                forall|i: int| 0 <= i < k ==> self.pairs@[i] != pair,
            decreases self.pairs@.len() - k,
        {
            let p = self.pairs[k];
            if p.0 == pair.0 && p.1 == pair.1 {
                return true;
            }
            k += 1;
        }
        false
    }

    /// Takes over the pending boxes: see `Proxy::flushed`.
    fn flush(&mut self)
        requires
            mirrors(old(self).proxies@, old(self).tree),
            fat_boxes(old(self).proxies@),
            old(self).margin >= 0,
        ensures
            mirrors(final(self).proxies@, final(self).tree),
            fat_boxes(final(self).proxies@),
            final(self).tree == flushed_tree(
                old(self).tree,
                old(self).proxies@,
                old(self).margin,
                old(self).proxies@.len() as int,
            ),
            final(self).proxies@ == flushed_slots(old(self).proxies@, old(self).margin),
            final(self).free == old(self).free,
            final(self).pairs == old(self).pairs,
            final(self).margin == old(self).margin,
            final(self).purge_all == old(self).purge_all,
    {
        let mut i: usize = 0;
        while i < self.proxies.len()
            invariant
                i <= self.proxies@.len(),
                self.proxies@.len() == old(self).proxies@.len(),
                forall|j: int|
                    0 <= j < i ==> self.proxies@[j] == flushed_slots(
                        old(self).proxies@,
                        old(self).margin,
                    )[j],
                forall|j: int| i <= j < self.proxies@.len() ==> self.proxies@[j] == old(self).proxies@[j],
                self.free == old(self).free,
                self.pairs == old(self).pairs,
                self.margin == old(self).margin,
                self.purge_all == old(self).purge_all,
                mirrors(self.proxies@, self.tree),
                fat_boxes(self.proxies@),
                self.margin >= 0,
                self.tree == flushed_tree(old(self).tree, old(self).proxies@, old(self).margin, i as int),
            decreases self.proxies@.len() - i,
        {
            let ghost before = self.proxies@;
            let ghost tree = self.tree;
            match self.proxies[i] {
                Some(proxy) => {
                    match proxy.pending {
                        Some(aabb) => {
                            if proxy.fat.contains(&aabb) {
                                self.proxies.set(i, Some(Proxy { aabb, pending: None, ..proxy }));
                                proof {
                                    assert forall|j: usize| #[trigger]
                                        live(self.proxies@, j as int) implies self.tree.has(
                                        j,
                                        self.proxies@[j as int]->0.fat,
                                    ) by {
                                        assert(live(before, j as int));
                                    }
                                    assert forall|j: int| live(self.proxies@, j) implies (
                                    #[trigger] self.proxies@[j])->0.fat.encloses(
                                        self.proxies@[j]->0.aabb,
                                    ) by {
                                        assert(live(before, j));
                                    }
                                }
                            } else {
                                let fat = aabb.loosened(self.margin);
                                self.proxies.set(
                                    i,
                                    Some(Proxy { aabb, fat, pending: None, dirty: true, ..proxy }),
                                );
                                let _ = self.tree.remove(&proxy.fat, i);
                                self.tree.insert(fat, i);
                                proof {
                                    assert(live(before, i as int));
                                    assert(tree.has(i, proxy.fat));
                                    tree.lemma_without(proxy.fat, i);
                                    let pruned = tree.without(proxy.fat, i);
                                    pruned.lemma_holds(i);
                                    pruned.lemma_with(fat, i);
                                    assert forall|j: usize| #[trigger]
                                        live(self.proxies@, j as int) implies self.tree.has(
                                        j,
                                        self.proxies@[j as int]->0.fat,
                                    ) by {
                                        assert(live(before, j as int));
                                    }
                                    crate::bounding_volume::lemma_loosened_and_merged_enclose(
                                        aabb,
                                        aabb,
                                        self.margin,
                                    );
                                    assert forall|j: int| live(self.proxies@, j) implies (
                                    #[trigger] self.proxies@[j])->0.fat.encloses(
                                        self.proxies@[j]->0.aabb,
                                    ) by {
                                        assert(live(before, j));
                                    }
                                }
                            }
                        },
                        None => {},
                    }
                },
                None => {},
            }
            i += 1;
        }
        proof {
            assert(self.proxies@ =~= flushed_slots(old(self).proxies@, old(self).margin));
        }
    }

    /// Marks every proxy as looked at.
    fn settle(&mut self)
        ensures
            final(self).proxies@.len() == old(self).proxies@.len(),
            forall|j: int|
                0 <= j < old(self).proxies@.len() ==> final(self).proxies@[j] == (match old(self).proxies@[j] {
                    Some(proxy) => Some(Proxy { dirty: false, ..proxy }),
                    None => None,
                }),
            final(self).free == old(self).free,
            final(self).pairs == old(self).pairs,
            final(self).margin == old(self).margin,
            final(self).purge_all == old(self).purge_all,
            final(self).tree == old(self).tree,
    {
        let mut i: usize = 0;
        while i < self.proxies.len()
            invariant
                i <= self.proxies@.len(),
                self.proxies@.len() == old(self).proxies@.len(),
                self.tree == old(self).tree,
                forall|j: int|
                    0 <= j < i ==> self.proxies@[j] == (match old(self).proxies@[j] {
                        Some(proxy) => Some(Proxy { dirty: false, ..proxy }),
                        None => None,
                    }),
                forall|j: int| i <= j < self.proxies@.len() ==> self.proxies@[j] == old(self).proxies@[j],
                self.free == old(self).free,
                self.pairs == old(self).pairs,
                self.margin == old(self).margin,
                self.purge_all == old(self).purge_all,
            decreases self.proxies@.len() - i,
        {
            match self.proxies[i] {
                Some(proxy) => {
                    if proxy.dirty {
                        self.proxies.set(i, Some(Proxy { dirty: false, ..proxy }));
                    }
                },
                None => {},
            }
            i += 1;
        }
    }

    /// Goes through the reported pairs: see `sifted`.
    fn sift<H: BroadPhaseInterferenceHandler>(&self, handler: &H, all: bool) -> (r: (
        Vec<(usize, usize)>,
        Vec<PairSignal>,
    ))
        requires
            forall|k: int| 0 <= k < self.pairs@.len() ==> pair_ok(self.proxies@, #[trigger] self.pairs@[k]),
            forall|i: int|
                live(self.proxies@, i) ==> handler.knows((#[trigger] self.proxies@[i])->0.data),
        ensures
            r.0@ == sifted(
                self.proxies@,
                all,
                *handler,
                self.pairs@,
                true,
                self.pairs@.len() as int,
            ),
            r.1@ == signals_of(
                self.proxies@,
                sifted(self.proxies@, all, *handler, self.pairs@, false, self.pairs@.len() as int),
                false,
            ),
    {
        let ghost slots = self.proxies@;
        let ghost reported = self.pairs@;
        let mut signals: Vec<PairSignal> = Vec::new();
        let mut kept: Vec<(usize, usize)> = Vec::new();
        let mut n: usize = 0;
        while n < self.pairs.len()
            invariant
                n <= reported.len(),
                self.pairs@ == reported,
                self.proxies@ == slots,
                forall|k: int| 0 <= k < reported.len() ==> pair_ok(slots, #[trigger] reported[k]),
                forall|i: int| live(slots, i) ==> handler.knows((#[trigger] slots[i])->0.data),
                kept@ == sifted(slots, all, *handler, reported, true, n as int),
                signals@ == signals_of(
                    slots,
                    sifted(slots, all, *handler, reported, false, n as int),
                    false,
                ),
            decreases reported.len() - n,
        {
            let pair = self.pairs[n];
            proof {
                assert(pair_ok(slots, reported[n as int]));
                assert(live(slots, pair.0 as int));
                assert(live(slots, pair.1 as int));
            }
            let first = match self.proxies[pair.0] {
                Some(proxy) => proxy,
                None => vstd::pervasive::unreached(),
            };
            let second = match self.proxies[pair.1] {
                Some(proxy) => proxy,
                None => vstd::pervasive::unreached(),
            };
            let overlap = first.fat.intersects(&second.fat);
            let again = all || first.dirty || second.dirty;
            let stays = overlap && (!again || handler.is_interference_allowed(
                &first.data,
                &second.data,
            ));
            if stays {
                kept.push(pair);
            } else {
                signals.push(
                    PairSignal {
                        proxy1: BroadPhaseProxyHandle(pair.0),
                        proxy2: BroadPhaseProxyHandle(pair.1),
                        data1: first.data,
                        data2: second.data,
                        started: false,
                    },
                );
            }
            proof {
                assert(stays == keeps(slots, all, *handler, pair));
                assert(signals@ =~= signals_of(
                    slots,
                    sifted(slots, all, *handler, reported, false, n + 1),
                    false,
                ));
            }
            n += 1;
        }
        (kept, signals)
    }

    /// Goes through the pairs of the proxy at `a` with the proxies near it:
    /// see `begun_row`.
    fn begin_row<H: BroadPhaseInterferenceHandler>(
        &self,
        handler: &H,
        all: bool,
        a: usize,
        first: &Proxy,
        kept: &mut Vec<(usize, usize)>,
        signals: &mut Vec<PairSignal>,
    )
        requires
            mirrors(self.proxies@, self.tree),
            live(self.proxies@, a as int),
            self.proxies@[a as int] == Some(*first),
            forall|i: int|
                live(self.proxies@, i) ==> handler.knows((#[trigger] self.proxies@[i])->0.data),
        ensures
            final(kept)@ == old(kept)@ + begun_row(
                self.proxies@,
                all,
                *handler,
                self.pairs@,
                a,
                near(self.proxies@, self.tree, a as int),
                near(self.proxies@, self.tree, a as int).len() as int,
            ),
            final(signals)@ == old(signals)@ + signals_of(
                self.proxies@,
                begun_row(
                    self.proxies@,
                    all,
                    *handler,
                    self.pairs@,
                    a,
                    near(self.proxies@, self.tree, a as int),
                    near(self.proxies@, self.tree, a as int).len() as int,
                ),
                true,
            ),
    {
        let ghost slots = self.proxies@;
        let ghost reported = self.pairs@;
        let query = SpatialQuery::Volume(first.fat);
        let mut others: Vec<usize> = Vec::new();
        self.tree.collect(&query, &mut others);
        proof {
            self.tree.lemma_hits(query);
            assert(others@ =~= near(slots, self.tree, a as int));
            assert forall|j: int| 0 <= j < others@.len() implies self.tree.passing(
                query,
                #[trigger] others@[j],
            ) by {
                assert(others@[j] == self.tree.hits(query)[j]);
            }
        }
        let mut k: usize = 0;
        while k < others.len()
            invariant
                k <= others@.len(),
                others@ == near(slots, self.tree, a as int),
                self.proxies@ == slots,
                self.pairs@ == reported,
                slots[a as int] == Some(*first),
                live(slots, a as int),
                mirrors(slots, self.tree),
                query == SpatialQuery::Volume(first.fat),
                forall|j: int|
                    0 <= j < others@.len() ==> self.tree.passing(query, #[trigger] others@[j]),
                forall|i: int| live(slots, i) ==> handler.knows((#[trigger] slots[i])->0.data),
                kept@ == old(kept)@ + begun_row(slots, all, *handler, reported, a, others@, k as int),
                signals@ == old(signals)@ + signals_of(
                    slots,
                    begun_row(slots, all, *handler, reported, a, others@, k as int),
                    true,
                ),
            decreases others@.len() - k,
        {
            let b: usize = others[k];
            let mut begun = false;
            proof {
                assert(self.tree.passing(query, others@[k as int]));
                let fat = choose|fat: AABB| self.tree.has(b, fat) && query.passes(fat);
                assert(self.tree.has(b, fat));
                assert(live(slots, b as int));
            }
            if b != a {
                let second = match self.proxies[b] {
                    Some(proxy) => proxy,
                    None => vstd::pervasive::unreached(),
                };
                if !((all || second.dirty) && b < a) {
                    let pair = if a < b {
                        (a, b)
                    } else {
                        (b, a)
                    };
                    let (data1, data2) = if a < b {
                        (first.data, second.data)
                    } else {
                        (second.data, first.data)
                    };
                    if handler.is_interference_allowed(&data1, &data2) && !self.is_reported(pair) {
                        begun = true;
                        kept.push(pair);
                        signals.push(
                            PairSignal {
                                proxy1: BroadPhaseProxyHandle(pair.0),
                                proxy2: BroadPhaseProxyHandle(pair.1),
                                data1,
                                data2,
                                started: true,
                            },
                        );
                    }
                }
            }
            proof {
                assert(begun == takes(slots, all, *handler, reported, a, b));
                let next = begun_row(slots, all, *handler, reported, a, others@, k + 1);
                assert(kept@ =~= old(kept)@ + next);
                assert(signals@ =~= old(signals)@ + signals_of(slots, next, true));
            }
            k += 1;
        }
    }

    /// Goes through the proxies whose pairs are looked at again: see
    /// `begun_rows`.
    fn begin<H: BroadPhaseInterferenceHandler>(
        &self,
        handler: &H,
        all: bool,
        kept: &mut Vec<(usize, usize)>,
        signals: &mut Vec<PairSignal>,
    )
        requires
            mirrors(self.proxies@, self.tree),
            forall|i: int|
                live(self.proxies@, i) ==> handler.knows((#[trigger] self.proxies@[i])->0.data),
        ensures
            final(kept)@ == old(kept)@ + begun_rows(
                self.proxies@,
                self.tree,
                all,
                *handler,
                self.pairs@,
                self.proxies@.len() as int,
            ),
            final(signals)@ == old(signals)@ + signals_of(
                self.proxies@,
                begun_rows(
                    self.proxies@,
                    self.tree,
                    all,
                    *handler,
                    self.pairs@,
                    self.proxies@.len() as int,
                ),
                true,
            ),
    {
        let ghost slots = self.proxies@;
        let ghost reported = self.pairs@;
        let cap: usize = self.proxies.len();
        let mut a: usize = 0;
        proof {
            assert(kept@ =~= old(kept)@ + begun_rows(slots, self.tree, all, *handler, reported, 0));
            assert(signals@ =~= old(signals)@ + signals_of(
                slots,
                begun_rows(slots, self.tree, all, *handler, reported, 0),
                true,
            ));
        }
        while a < cap
            invariant
                a <= cap,
                cap == slots.len(),
                self.proxies@ == slots,
                self.pairs@ == reported,
                mirrors(slots, self.tree),
                forall|i: int| live(slots, i) ==> handler.knows((#[trigger] slots[i])->0.data),
                kept@ == old(kept)@ + begun_rows(slots, self.tree, all, *handler, reported, a as int),
                signals@ == old(signals)@ + signals_of(
                    slots,
                    begun_rows(slots, self.tree, all, *handler, reported, a as int),
                    true,
                ),
            decreases cap - a,
        {
            match self.proxies[a] {
                Some(first) => {
                    if all || first.dirty {
                        self.begin_row(handler, all, a, &first, kept, signals);
                    }
                },
                None => {},
            }
            proof {
                let next = begun_rows(slots, self.tree, all, *handler, reported, a + 1);
                assert(kept@ =~= old(kept)@ + next);
                assert(signals@ =~= old(signals)@ + signals_of(slots, next, true));
            }
            a += 1;
        }
    }

    /// Runs a step of the broad phase, and returns the pairs that began or
    /// ceased to overlap.
    ///
    /// First the pending boxes are taken over, and the proxies that leave
    /// their fat box get a new one in the tree. Then the reported pairs are
    /// gone through, in their order: a pair whose fat boxes no longer share a
    /// point ceases, and so does a pair that is looked at again and that the
    /// handler no longer allows. Then the proxies whose pairs are looked at
    /// again are gone through, by their places, each with the proxies that
    /// the tree yields for its fat box: a pair that was not reported and that
    /// the handler allows begins. The pairs that ceased are signalled first,
    /// then those that began. In the end nothing is pending.
    pub fn update<H: BroadPhaseInterferenceHandler>(&mut self, handler: &H) -> (signals: Vec<
        PairSignal,
    >)
        requires
            old(self).wf(),
            forall|i: int|
                live(old(self).slots(), i) ==> handler.knows((#[trigger] old(self).slots()[i])->0.data),
        ensures
            final(self).wf(),
            final(self).quiet(),
            final(self).margin() == old(self).margin(),
            final(self).slots() == settled_slots(old(self).slots(), old(self).margin()),
            final(self).reported() == updated_pairs(*old(self), *handler),
            final(self).tree() == flushed_tree(
                old(self).tree(),
                old(self).slots(),
                old(self).margin(),
                old(self).slots().len() as int,
            ),
            signals@ == update_signals(*old(self), *handler),
            forall|k: int|
                0 <= k < signals@.len() ==> signal_ok(final(self).slots(), #[trigger] signals@[k]),
            signals_match(
                flushed_slots(old(self).slots(), old(self).margin()),
                old(self).recompute_all(),
                *handler,
                old(self).reported(),
                signals@,
            ),
            pairs_match(
                flushed_slots(old(self).slots(), old(self).margin()),
                old(self).recompute_all(),
                *handler,
                old(self).reported(),
                final(self).reported(),
            ),
            old(self).quiet() ==> signals@.len() == 0 && final(self).slots() == old(self).slots()
                && final(self).reported() == old(self).reported() && final(self).tree() == old(self).tree(),
    {
        let all = self.purge_all;
        self.flush();
        let ghost slots = self.proxies@;
        let ghost reported = self.pairs@;
        let ghost tree = self.tree;
        let cap: usize = self.proxies.len();
        proof {
            assert forall|k: int| 0 <= k < reported.len() implies pair_ok(
                slots,
                #[trigger] reported[k],
            ) by {
                assert(pair_ok(old(self).slots(), reported[k]));
            }
        }
        let (mut kept, mut signals) = self.sift(handler, all);
        self.begin(handler, all, &mut kept, &mut signals);
        self.settle();
        self.pairs = kept;
        self.purge_all = false;
        proof {
            let after = self.proxies@;
            assert(after =~= settled_slots(old(self).slots(), old(self).margin()));
            assert forall|j: usize| #[trigger] live(after, j as int) implies self.tree.has(
                j,
                after[j as int]->0.fat,
            ) by {
                assert(live(slots, j as int));
            }
            assert forall|d: usize, b: AABB| #[trigger] self.tree.has(d, b) implies live(
                after,
                d as int,
            ) && after[d as int]->0.fat == b by {
                assert(live(slots, d as int));
            }
            assert forall|j: int| live(after, j) implies (#[trigger] after[j])->0.fat.encloses(
                after[j]->0.aabb,
            ) by {
                assert(live(slots, j));
            }
            lemma_update_pairs(slots, tree, all, *handler, reported, after, self.pairs@, signals@);
            if old(self).quiet() {
                assert(slots =~= old(self).slots()) by {
                    assert forall|i: int| 0 <= i < slots.len() implies slots[i] == old(self).slots()[i] by {
                        if live(old(self).slots(), i) {
                            assert(old(self).slots()[i]->0.quiet());
                        }
                    }
                }
                assert forall|i: int| live(slots, i) implies !(#[trigger] slots[i])->0.dirty by {
                    assert(old(self).slots()[i]->0.quiet());
                }
                lemma_quiet_update(slots, tree, *handler, reported, reported.len() as int, cap as int);
                lemma_quiet_flush(old(self).tree, old(self).slots(), old(self).margin, cap as int);
                assert(reported.take(reported.len() as int) =~= reported);
                assert(after =~= old(self).slots()) by {
                    assert forall|i: int| 0 <= i < after.len() implies after[i] == old(self).slots()[i] by {
                        if live(old(self).slots(), i) {
                            assert(old(self).slots()[i]->0.quiet());
                        }
                    }
                }
                assert(self.pairs@ =~= reported);
            }
        }
        signals
    }
}

/// The pair of places that a signal names.
pub open spec fn pair_of(signal: PairSignal) -> (usize, usize) {
    (signal.proxy1.0, signal.proxy2.0)
}

/// Whether the signals are those of an update that finds the proxies as
/// `slots` and the pairs `reported`: a pair is signalled as begun exactly
/// when it begins, as ceased exactly when it was reported and does not stay,
/// and no pair is signalled twice.
pub open spec fn signals_match<H: BroadPhaseInterferenceHandler>(
    slots: Slots,
    all: bool,
    handler: H,
    reported: Seq<(usize, usize)>,
    signals: Seq<PairSignal>,
) -> bool {
    &&& forall|k: int|
        0 <= k < signals.len() ==> {
            let s = #[trigger] signals[k];
            &&& s == signal_of(slots, pair_of(s), s.started)
            &&& s.started ==> begins(slots, all, handler, reported, pair_of(s))
            &&& !s.started ==> reported.contains(pair_of(s)) && !keeps(
                slots,
                all,
                handler,
                pair_of(s),
            )
        }
    &&& forall|p: (usize, usize)|
        #[trigger] begins(slots, all, handler, reported, p) ==> signals.contains(
            signal_of(slots, p, true),
        )
    &&& forall|p: (usize, usize)|
        reported.contains(p) && !#[trigger] keeps(slots, all, handler, p) ==> signals.contains(
            signal_of(slots, p, false),
        )
    &&& forall|k: int, l: int|
        0 <= k < l < signals.len() ==> pair_of(signals[k]) != pair_of(signals[l])
}

/// Whether the pairs are those that an update leaves reported: the reported
/// pairs that stay, and the pairs that begin.
pub open spec fn pairs_match<H: BroadPhaseInterferenceHandler>(
    slots: Slots,
    all: bool,
    handler: H,
    reported: Seq<(usize, usize)>,
    last: Seq<(usize, usize)>,
) -> bool {
    forall|p: (usize, usize)|
        #[trigger] last.contains(p) <==> (reported.contains(p) && keeps(slots, all, handler, p))
            || begins(slots, all, handler, reported, p)
}

/// The pairs that an update leaves reported are well formed for the proxies
/// as the update leaves them, and its signals name proxies and their objects.
pub proof fn lemma_update_pairs<H: BroadPhaseInterferenceHandler>(
    slots: Slots,
    tree: DBVT,
    all: bool,
    handler: H,
    reported: Seq<(usize, usize)>,
    after: Slots,
    last: Seq<(usize, usize)>,
    signals: Seq<PairSignal>,
)
    requires
        mirrors(slots, tree),
        slots.len() <= usize::MAX,
        forall|k: int| 0 <= k < reported.len() ==> pair_ok(slots, #[trigger] reported[k]),
        forall|k: int, l: int| 0 <= k < l < reported.len() ==> reported[k] != reported[l],
        after.len() == slots.len(),
        forall|i: int|
            0 <= i < slots.len() ==> (#[trigger] after[i] is Some) == (slots[i] is Some) && (
            slots[i] is Some ==> after[i]->0.fat == slots[i]->0.fat && after[i]->0.data
                == slots[i]->0.data),
        last == sifted(slots, all, handler, reported, true, reported.len() as int) + begun_rows(
            slots,
            tree,
            all,
            handler,
            reported,
            slots.len() as int,
        ),
        signals == signals_of(
            slots,
            sifted(slots, all, handler, reported, false, reported.len() as int),
            false,
        ) + signals_of(
            slots,
            begun_rows(slots, tree, all, handler, reported, slots.len() as int),
            true,
        ),
    ensures
        pairs_wf(after, last),
        forall|k: int| 0 <= k < signals.len() ==> signal_ok(after, #[trigger] signals[k]),
        signals_match(slots, all, handler, reported, signals),
        pairs_match(slots, all, handler, reported, last),
{
    let stayed = sifted(slots, all, handler, reported, true, reported.len() as int);
    let gone = sifted(slots, all, handler, reported, false, reported.len() as int);
    let fresh = begun_rows(slots, tree, all, handler, reported, slots.len() as int);
    let ceased = signals_of(slots, gone, false);
    lemma_sifted(slots, all, handler, reported, true, reported.len() as int);
    lemma_sifted(slots, all, handler, reported, false, reported.len() as int);
    lemma_begun_rows(slots, tree, all, handler, reported, slots.len() as int);
    assert forall|k: int| 0 <= k < last.len() implies pair_ok(after, #[trigger] last[k])
        && overlapping(after, last[k]) by {
        if k < stayed.len() {
            assert(last[k] == stayed[k]);
            assert(keeps(slots, all, handler, stayed[k]));
            let i = choose|i: int| k <= i < reported.len() && reported[i] == stayed[k];
            assert(pair_ok(slots, reported[i]));
        } else {
            assert(last[k] == fresh[k - stayed.len()]);
            assert(begins(slots, all, handler, reported, fresh[k - stayed.len()]));
        }
    }
    assert forall|k: int, l: int| 0 <= k < l < last.len() implies last[k] != last[l] by {
        if l < stayed.len() {
            assert(last[k] == stayed[k] && last[l] == stayed[l]);
        } else if k < stayed.len() {
            assert(last[k] == stayed[k]);
            assert(last[l] == fresh[l - stayed.len()]);
            let i = choose|i: int| k <= i < reported.len() && reported[i] == stayed[k];
            assert(begins(slots, all, handler, reported, fresh[l - stayed.len()]));
            assert(reported.contains(stayed[k]));
        } else {
            assert(last[k] == fresh[k - stayed.len()]);
            assert(last[l] == fresh[l - stayed.len()]);
        }
    }
    assert forall|k: int| 0 <= k < signals.len() implies signal_ok(after, #[trigger] signals[k]) by {
        if k < ceased.len() {
            assert(signals[k] == signal_of(slots, gone[k], false));
            let i = choose|i: int| k <= i < reported.len() && reported[i] == gone[k];
            assert(pair_ok(slots, reported[i]));
        } else {
            assert(signals[k] == signal_of(slots, fresh[k - ceased.len()], true));
            assert(begins(slots, all, handler, reported, fresh[k - ceased.len()]));
        }
    }
    let begun = signals_of(slots, fresh, true);
    assert forall|k: int| 0 <= k < signals.len() implies {
        let s = #[trigger] signals[k];
        &&& s == signal_of(slots, pair_of(s), s.started)
        &&& s.started ==> begins(slots, all, handler, reported, pair_of(s))
        &&& !s.started ==> reported.contains(pair_of(s)) && !keeps(slots, all, handler, pair_of(s))
    } by {
        if k < ceased.len() {
            assert(signals[k] == signal_of(slots, gone[k], false));
            let i = choose|i: int| k <= i < reported.len() && reported[i] == gone[k];
            assert(reported.contains(gone[k]));
        } else {
            assert(signals[k] == signal_of(slots, fresh[k - ceased.len()], true));
            assert(begins(slots, all, handler, reported, fresh[k - ceased.len()]));
        }
    }
    assert forall|p: (usize, usize)| #[trigger]
        begins(slots, all, handler, reported, p) implies signals.contains(
        signal_of(slots, p, true),
    ) by {
        assert(fresh.contains(p));
        let k = choose|k: int| 0 <= k < fresh.len() && fresh[k] == p;
        assert(signals[ceased.len() + k] == signal_of(slots, p, true));
    }
    assert forall|p: (usize, usize)|
        reported.contains(p) && !#[trigger] keeps(slots, all, handler, p) implies signals.contains(
        signal_of(slots, p, false),
    ) by {
        let i = choose|i: int| 0 <= i < reported.len() && reported[i] == p;
        assert(keeps(slots, all, handler, reported[i]) == false);
        assert(gone.contains(reported[i]));
        let k = choose|k: int| 0 <= k < gone.len() && gone[k] == p;
        assert(signals[k] == signal_of(slots, p, false));
    }
    assert forall|k: int, l: int| 0 <= k < l < signals.len() implies pair_of(signals[k]) != pair_of(
        signals[l],
    ) by {
        if l < ceased.len() {
            assert(signals[k] == signal_of(slots, gone[k], false));
            assert(signals[l] == signal_of(slots, gone[l], false));
        } else if k < ceased.len() {
            assert(signals[k] == signal_of(slots, gone[k], false));
            assert(signals[l] == signal_of(slots, fresh[l - ceased.len()], true));
            let i = choose|i: int| k <= i < reported.len() && reported[i] == gone[k];
            assert(reported.contains(gone[k]));
            assert(begins(slots, all, handler, reported, fresh[l - ceased.len()]));
        } else {
            assert(signals[k] == signal_of(slots, fresh[k - ceased.len()], true));
            assert(signals[l] == signal_of(slots, fresh[l - ceased.len()], true));
        }
    }
    assert forall|p: (usize, usize)| #[trigger]
        last.contains(p) <==> (reported.contains(p) && keeps(slots, all, handler, p)) || begins(
            slots,
            all,
            handler,
            reported,
            p,
        ) by {
        if last.contains(p) {
            let k = choose|k: int| 0 <= k < last.len() && last[k] == p;
            if k < stayed.len() {
                assert(last[k] == stayed[k]);
                let i = choose|i: int| k <= i < reported.len() && reported[i] == stayed[k];
                assert(reported.contains(p));
            } else {
                assert(last[k] == fresh[k - stayed.len()]);
            }
        }
        if reported.contains(p) && keeps(slots, all, handler, p) {
            let i = choose|i: int| 0 <= i < reported.len() && reported[i] == p;
            assert(keeps(slots, all, handler, reported[i]));
            assert(stayed.contains(reported[i]));
            let k = choose|k: int| 0 <= k < stayed.len() && stayed[k] == p;
            assert(last[k] == p);
        }
        if begins(slots, all, handler, reported, p) {
            assert(fresh.contains(p));
            let k = choose|k: int| 0 <= k < fresh.len() && fresh[k] == p;
            assert(last[stayed.len() + k] == p);
        }
    }
}

/// The reported pairs after an update: those that stay, in their order, then
/// those that begin.
pub open spec fn updated_pairs<H: BroadPhaseInterferenceHandler>(bp: DBVTBroadPhase, handler: H) -> Seq<
    (usize, usize),
> {
    let slots = flushed_slots(bp.slots(), bp.margin());
    let tree = flushed_tree(bp.tree(), bp.slots(), bp.margin(), bp.slots().len() as int);
    sifted(slots, bp.recompute_all(), handler, bp.reported(), true, bp.reported().len() as int)
        + begun_rows(slots, tree, bp.recompute_all(), handler, bp.reported(), slots.len() as int)
}

/// The signals of an update: for the pairs that cease, in their order, then
/// for those that begin.
pub open spec fn update_signals<H: BroadPhaseInterferenceHandler>(bp: DBVTBroadPhase, handler: H) -> Seq<
    PairSignal,
> {
    let slots = flushed_slots(bp.slots(), bp.margin());
    let tree = flushed_tree(bp.tree(), bp.slots(), bp.margin(), bp.slots().len() as int);
    signals_of(
        slots,
        sifted(slots, bp.recompute_all(), handler, bp.reported(), false, bp.reported().len() as int),
        false,
    ) + signals_of(
        slots,
        begun_rows(slots, tree, bp.recompute_all(), handler, bp.reported(), slots.len() as int),
        true,
    )
}

/// Whether a signal names two proxies, the smaller handle first, and their
/// objects.
pub open spec fn signal_ok(slots: Slots, signal: PairSignal) -> bool {
    &&& signal.proxy1.0 < signal.proxy2.0
    &&& live(slots, signal.proxy1.0 as int)
    &&& live(slots, signal.proxy2.0 as int)
    &&& signal.data1 == slots[signal.proxy1.0 as int]->0.data
    &&& signal.data2 == slots[signal.proxy2.0 as int]->0.data
}

} // verus!
