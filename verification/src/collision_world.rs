//! The collision world: the objects, the two phases of the pipeline and the
//! graph of interactions, kept consistent with each other.

use crate::bounding_volume::{self, AABB};
use crate::broad_phase::{
    live, signal_ok, DBVTBroadPhase, BroadPhaseInterferenceHandler, BroadPhaseProxyHandle, PairSignal,
    Proxy,
};
use crate::collision_groups::CollisionGroups;
use crate::collision_object::{CollisionObject, CollisionObjectHandle, CollisionObjectSlab};
use crate::detector::{ContactDispatcher, ProximityDispatcher};
use crate::events::{ContactEvent, ContactEvents, ProximityEvent, ProximityEvents};
use crate::contact::ContactManifold;
use crate::interaction_graph::{
    chosen, CollisionObjectGraphIndex, Edge, Interaction, InteractionGraph, InteractionKind,
    PairIndex, TemporaryInteractionIndex,
};
use crate::math::Point;
use crate::query::Proximity;
use crate::shape::{Ray, RayIntersection};
use crate::broad_phase::SpatialQuery;
use crate::math::Isometry;
use crate::narrow_phase::{
    begins_with, collected, edges_alike, edges_kept, status_kept, weights_alike, contact_ids_live, has_detector, id_in_use, nodes_live, same_edge,
    sorted_pair, step_contact_events, step_proximity_events, touched, CollisionError, NarrowPhase,
};
use crate::pair_filter::{
    all_valid, groups_valid, names_unique, place_of, BroadPhasePairFilter, BroadPhasePairFilters,
    CollisionGroupsPairFilter,
};
use crate::query::GeometricQueryType;
use crate::shape::Shape;
use vstd::prelude::*;

verus! {

/// The objects with up to two of them replaced.
pub open spec fn pair_set<S, T>(
    objects: Map<CollisionObjectHandle, CollisionObject<S, T>>,
    handle1: CollisionObjectHandle,
    first: Option<CollisionObject<S, T>>,
    handle2: CollisionObjectHandle,
    second: Option<CollisionObject<S, T>>,
) -> Map<CollisionObjectHandle, CollisionObject<S, T>> {
    let with_first = match first {
        Some(co) => objects.insert(handle1, co),
        None => objects,
    };
    match second {
        Some(co) => with_first.insert(handle2, co),
        None => with_first,
    }
}

/// Whether every contact event after the first `from` is a `Stopped`.
pub open spec fn only_stops(log: Seq<ContactEvent>, from: int) -> bool {
    forall|k: int| from <= k < log.len() ==> #[trigger] log[k] is Stopped
}

/// Whether every proximity event after the first `from` goes to `Disjoint`.
pub open spec fn only_parts(log: Seq<ProximityEvent>, from: int) -> bool {
    forall|k: int| from <= k < log.len() ==> (#[trigger] log[k]).new_status == Proximity::Disjoint
}

/// The nodes of the two objects of a signal, that of the object with the
/// smaller handle first.
pub open spec fn signal_nodes<S, T>(
    objects: Map<CollisionObjectHandle, CollisionObject<S, T>>,
    signal: PairSignal,
) -> (int, int) {
    let (lo, hi) = sorted_pair(signal.data1, signal.data2);
    (objects[lo].graph_index.0 as int, objects[hi].graph_index.0 as int)
}

/// Whether two pairs of nodes are the same, in either order.
pub open spec fn same_nodes(p: (int, int), q: (int, int)) -> bool {
    (p.0 == q.0 && p.1 == q.1) || (p.0 == q.1 && p.1 == q.0)
}

/// Whether one of the edges joins the nodes `a` and `b`.
pub open spec fn edges_join<C, P>(edges: Seq<Edge<C, P>>, a: int, b: int) -> bool {
    exists|i: int| 0 <= i < edges.len() && (#[trigger] edges[i]).joins(a, b)
}

/// The place of an edge that joins the nodes `a` and `b`, where there is one.
pub open spec fn joining_edge<C, P>(edges: Seq<Edge<C, P>>, a: int, b: int) -> int {
    choose|i: int| 0 <= i < edges.len() && (#[trigger] edges[i]).joins(a, b)
}

/// The contact events that the first `upto` signals raise on a graph with
/// the edges `edges`: `Stopped` for each pair that ceased and whose edge held
/// a contact, in the order of the signals.
pub open spec fn ceased_contact_events<S, T, C, P>(
    objects: Map<CollisionObjectHandle, CollisionObject<S, T>>,
    signals: Seq<PairSignal>,
    edges: Seq<Edge<C, P>>,
    upto: int,
) -> Seq<ContactEvent>
    decreases upto,
{
    if upto <= 0 {
        Seq::empty()
    } else {
        let s = signals[upto - 1];
        let n = signal_nodes(objects, s);
        let (lo, hi) = sorted_pair(s.data1, s.data2);
        ceased_contact_events(objects, signals, edges, upto - 1) + (if !s.started && edges_join(
            edges,
            n.0,
            n.1,
        ) {
            crate::narrow_phase::contact_transition(
                edges[joining_edge(edges, n.0, n.1)].weight.contacts().len() > 0,
                false,
                objects[lo].handle,
                objects[hi].handle,
            )
        } else {
            Seq::empty()
        })
    }
}

/// The proximity events that the first `upto` signals raise on a graph with
/// the edges `edges`: one to `Disjoint` for each pair that ceased and whose
/// edge held a nearer proximity, in the order of the signals.
pub open spec fn ceased_proximity_events<S, T, C, P>(
    objects: Map<CollisionObjectHandle, CollisionObject<S, T>>,
    signals: Seq<PairSignal>,
    edges: Seq<Edge<C, P>>,
    upto: int,
) -> Seq<ProximityEvent>
    decreases upto,
{
    if upto <= 0 {
        Seq::empty()
    } else {
        let s = signals[upto - 1];
        let n = signal_nodes(objects, s);
        let (lo, hi) = sorted_pair(s.data1, s.data2);
        ceased_proximity_events(objects, signals, edges, upto - 1) + (if !s.started && edges_join(
            edges,
            n.0,
            n.1,
        ) {
            crate::narrow_phase::stop_proximity_events(
                edges[joining_edge(edges, n.0, n.1)].weight,
                objects[lo].handle,
                objects[hi].handle,
            )
        } else {
            Seq::empty()
        })
    }
}

/// What the signal `k` raises once the signals before it were handled: the
/// edge that joins its pair, if there is one, is the edge that joined the
/// pair before any signal was handled.
pub proof fn lemma_ceased_signal<S, T, CD: ContactDispatcher<S>, PD: ProximityDispatcher<S>>(
    contact_dispatcher: CD,
    proximity_dispatcher: PD,
    objects: Map<CollisionObjectHandle, CollisionObject<S, T>>,
    count: int,
    signals: Seq<PairSignal>,
    first: Seq<Edge<CD::Algorithm, PD::Algorithm>>,
    edges: Seq<Edge<CD::Algorithm, PD::Algorithm>>,
    k: int,
)
    requires
        0 <= k < signals.len(),
        pairs_distinct(objects, signals),
        crate::interaction_graph::edges_wf(count, first),
        signals_handled(contact_dispatcher, proximity_dispatcher, objects, signals, k, first, edges),
    ensures
        ({
            let n = signal_nodes(objects, signals[k]);
            let (lo, hi) = sorted_pair(signals[k].data1, signals[k].data2);
            let joined = !signals[k].started && edges_join(edges, n.0, n.1);
            &&& edges_join(edges, n.0, n.1) == edges_join(first, n.0, n.1)
            &&& joined ==> forall|i: int|
                0 <= i < edges.len() && (#[trigger] edges[i]).joins(n.0, n.1) ==> edges[i]
                    == first[joining_edge(first, n.0, n.1)]
            &&& ceased_contact_events(objects, signals, first, k + 1) == ceased_contact_events(
                objects,
                signals,
                first,
                k,
            ) + (if joined {
                crate::narrow_phase::contact_transition(
                    first[joining_edge(first, n.0, n.1)].weight.contacts().len() > 0,
                    false,
                    objects[lo].handle,
                    objects[hi].handle,
                )
            } else {
                Seq::empty()
            })
            &&& ceased_proximity_events(objects, signals, first, k + 1) == ceased_proximity_events(
                objects,
                signals,
                first,
                k,
            ) + (if joined {
                crate::narrow_phase::stop_proximity_events(
                    first[joining_edge(first, n.0, n.1)].weight,
                    objects[lo].handle,
                    objects[hi].handle,
                )
            } else {
                Seq::empty()
            })
        }),
{
    let n = signal_nodes(objects, signals[k]);
    let a = n.0;
    let b = n.1;
    assert(edges_join(edges, a, b) == edges_join(first, a, b));
    if !signals[k].started && edges_join(edges, a, b) {
        let i1 = joining_edge(first, a, b);
        assert(first[i1].joins(a, b));
        assert forall|i: int| 0 <= i < edges.len() && (#[trigger] edges[i]).joins(a, b) implies edges[i]
            == first[i1] by {
            if !first.contains(edges[i]) {
                assert(begun_edge(
                    contact_dispatcher,
                    proximity_dispatcher,
                    objects,
                    signals,
                    k,
                    edges[i],
                ));
                let j = choose|j: int|
                    0 <= j < k && (#[trigger] signals[j]).started && edges[i].source == signal_nodes(
                        objects,
                        signals[j],
                    ).0 && edges[i].target == signal_nodes(objects, signals[j]).1;
                assert(same_nodes(signal_nodes(objects, signals[j]), signal_nodes(objects, signals[k])));
                assert(false);
            }
            let i0 = choose|i0: int| 0 <= i0 < first.len() && first[i0] == edges[i];
            assert(first[i0].joins(a, b));
            if i0 < i1 {
                assert(!first[i1].joins(first[i0].source as int, first[i0].target as int));
            } else if i1 < i0 {
                assert(!first[i0].joins(first[i1].source as int, first[i1].target as int));
            }
        }
    }
}

/// Each signal names two different nodes, and no two signals name the same
/// two nodes.
pub open spec fn pairs_distinct<S, T>(
    objects: Map<CollisionObjectHandle, CollisionObject<S, T>>,
    signals: Seq<PairSignal>,
) -> bool {
    &&& forall|k: int|
        0 <= k < signals.len() ==> signal_nodes(objects, #[trigger] signals[k]).0 != signal_nodes(
            objects,
            signals[k],
        ).1
    &&& forall|j: int, k: int|
        0 <= j < k < signals.len() ==> !same_nodes(
            signal_nodes(objects, #[trigger] signals[j]),
            signal_nodes(objects, #[trigger] signals[k]),
        )
}

/// Whether an edge is the one that was made for one of the first `upto`
/// signals, of a pair that began: it joins the nodes of the two objects and
/// holds what `begins_with` says.
pub open spec fn begun_edge<S, T, CD: ContactDispatcher<S>, PD: ProximityDispatcher<S>>(
    contact_dispatcher: CD,
    proximity_dispatcher: PD,
    objects: Map<CollisionObjectHandle, CollisionObject<S, T>>,
    signals: Seq<PairSignal>,
    upto: int,
    edge: Edge<CD::Algorithm, PD::Algorithm>,
) -> bool {
    exists|k: int|
        0 <= k < upto && (#[trigger] signals[k]).started && edge.source == signal_nodes(
            objects,
            signals[k],
        ).0 && edge.target == signal_nodes(objects, signals[k]).1 && begins_with(
            contact_dispatcher,
            proximity_dispatcher,
            objects[sorted_pair(signals[k].data1, signals[k].data2).0],
            objects[sorted_pair(signals[k].data1, signals[k].data2).1],
            edge.weight,
        )
}

/// Whether an edge joins the two objects of a signal after the signal was
/// handled, or while it is not: a pair that ceased has no edge; a pair that
/// began has one where it had one or where the dispatcher has a detector for
/// it; a pair whose signal is not handled yet has one where it had one.
pub open spec fn edge_owed<S, T, CD: ContactDispatcher<S>, PD: ProximityDispatcher<S>>(
    contact_dispatcher: CD,
    proximity_dispatcher: PD,
    objects: Map<CollisionObjectHandle, CollisionObject<S, T>>,
    signal: PairSignal,
    handled: bool,
    joined_before: bool,
) -> bool {
    if !handled {
        joined_before
    } else if signal.started {
        joined_before || has_detector(
            contact_dispatcher,
            proximity_dispatcher,
            objects[sorted_pair(signal.data1, signal.data2).0],
            objects[sorted_pair(signal.data1, signal.data2).1],
        )
    } else {
        false
    }
}

/// What the graph holds after the first `upto` signals were handled: for
/// each signal an edge joins its two objects exactly when `edge_owed` says,
/// and every edge is one that the graph had or one that was made for a pair
/// that began.
pub open spec fn signals_handled<S, T, CD: ContactDispatcher<S>, PD: ProximityDispatcher<S>>(
    contact_dispatcher: CD,
    proximity_dispatcher: PD,
    objects: Map<CollisionObjectHandle, CollisionObject<S, T>>,
    signals: Seq<PairSignal>,
    upto: int,
    before: Seq<Edge<CD::Algorithm, PD::Algorithm>>,
    after: Seq<Edge<CD::Algorithm, PD::Algorithm>>,
) -> bool {
    &&& forall|e: int|
        0 <= e < after.len() ==> before.contains(#[trigger] after[e]) || begun_edge(
            contact_dispatcher,
            proximity_dispatcher,
            objects,
            signals,
            upto,
            after[e],
        )
    &&& forall|k: int|
        0 <= k < signals.len() ==> edges_join(
            after,
            signal_nodes(objects, #[trigger] signals[k]).0,
            signal_nodes(objects, signals[k]).1,
        ) == edge_owed(
            contact_dispatcher,
            proximity_dispatcher,
            objects,
            signals[k],
            k < upto,
            edges_join(
                before,
                signal_nodes(objects, signals[k]).0,
                signal_nodes(objects, signals[k]).1,
            ),
        )
}

/// What the edge of a pair that begins holds.
pub open spec fn begun_weight<S, T, CD: ContactDispatcher<S>, PD: ProximityDispatcher<S>>(
    contact_dispatcher: CD,
    proximity_dispatcher: PD,
    co1: CollisionObject<S, T>,
    co2: CollisionObject<S, T>,
) -> Interaction<CD::Algorithm, PD::Algorithm> {
    choose|weight: Interaction<CD::Algorithm, PD::Algorithm>|
        begins_with(contact_dispatcher, proximity_dispatcher, co1, co2, weight)
}

/// The edges once one signal was handled: the edge of a pair that ceased is
/// taken out, and the edge of a pair that began is put after the others,
/// unless an edge joins the pair already or the dispatcher has no detector.
pub open spec fn handled_signal<S, T, CD: ContactDispatcher<S>, PD: ProximityDispatcher<S>>(
    contact_dispatcher: CD,
    proximity_dispatcher: PD,
    objects: Map<CollisionObjectHandle, CollisionObject<S, T>>,
    signal: PairSignal,
    edges: Seq<Edge<CD::Algorithm, PD::Algorithm>>,
) -> Seq<Edge<CD::Algorithm, PD::Algorithm>> {
    let (lo, hi) = sorted_pair(signal.data1, signal.data2);
    let n = signal_nodes(objects, signal);
    let joined = edges_join(edges, n.0, n.1);
    if signal.started {
        if !joined && has_detector(contact_dispatcher, proximity_dispatcher, objects[lo], objects[hi]) {
            edges.push(
                Edge {
                    source: objects[lo].graph_index.0,
                    target: objects[hi].graph_index.0,
                    weight: begun_weight(
                        contact_dispatcher,
                        proximity_dispatcher,
                        objects[lo],
                        objects[hi],
                    ),
                },
            )
        } else {
            edges
        }
    } else if joined {
        edges.remove(joining_edge(edges, n.0, n.1))
    } else {
        edges
    }
}

/// The edges once the first `upto` signals were handled, one after the
/// other.
pub open spec fn handled_edges<S, T, CD: ContactDispatcher<S>, PD: ProximityDispatcher<S>>(
    contact_dispatcher: CD,
    proximity_dispatcher: PD,
    objects: Map<CollisionObjectHandle, CollisionObject<S, T>>,
    signals: Seq<PairSignal>,
    edges: Seq<Edge<CD::Algorithm, PD::Algorithm>>,
    upto: int,
) -> Seq<Edge<CD::Algorithm, PD::Algorithm>>
    decreases upto,
{
    if upto <= 0 {
        edges
    } else {
        handled_signal(
            contact_dispatcher,
            proximity_dispatcher,
            objects,
            signals[upto - 1],
            handled_edges(contact_dispatcher, proximity_dispatcher, objects, signals, edges, upto - 1),
        )
    }
}

/// Handling a signal keeps two lists of edges alike: where `after` is what
/// the narrow phase made of `edges` for the signal, it is like what
/// `handled_signal` makes of edges like `edges`.
pub proof fn lemma_handled_signal<S, T, CD: ContactDispatcher<S>, PD: ProximityDispatcher<S>>(
    contact_dispatcher: CD,
    proximity_dispatcher: PD,
    objects: Map<CollisionObjectHandle, CollisionObject<S, T>>,
    count: int,
    signal: PairSignal,
    edges: Seq<Edge<CD::Algorithm, PD::Algorithm>>,
    after: Seq<Edge<CD::Algorithm, PD::Algorithm>>,
    model: Seq<Edge<CD::Algorithm, PD::Algorithm>>,
)
    requires
        crate::interaction_graph::edges_wf(count, edges),
        edges_alike(edges, model),
        ({
            let (lo, hi) = sorted_pair(signal.data1, signal.data2);
            let n = signal_nodes(objects, signal);
            let joined = edges_join(edges, n.0, n.1);
            if signal.started {
                if !joined && has_detector(
                    contact_dispatcher,
                    proximity_dispatcher,
                    objects[lo],
                    objects[hi],
                ) {
                    after.len() == edges.len() + 1 && after.drop_last() == edges && after.last().source
                        == objects[lo].graph_index.0 && after.last().target
                        == objects[hi].graph_index.0 && begins_with(
                        contact_dispatcher,
                        proximity_dispatcher,
                        objects[lo],
                        objects[hi],
                        after.last().weight,
                    )
                } else {
                    after == edges
                }
            } else if joined {
                exists|i: int|
                    0 <= i < edges.len() && (#[trigger] edges[i]).joins(n.0, n.1) && after
                        == edges.remove(i)
            } else {
                after == edges
            }
        }),
    ensures
        edges_alike(
            after,
            handled_signal(contact_dispatcher, proximity_dispatcher, objects, signal, model),
        ),
{
    let (lo, hi) = sorted_pair(signal.data1, signal.data2);
    let n = signal_nodes(objects, signal);
    let next = handled_signal(contact_dispatcher, proximity_dispatcher, objects, signal, model);
    if edges_join(edges, n.0, n.1) {
        let i = choose|i: int| 0 <= i < edges.len() && (#[trigger] edges[i]).joins(n.0, n.1);
        assert(model[i].joins(n.0, n.1));
    }
    if edges_join(model, n.0, n.1) {
        let i = choose|i: int| 0 <= i < model.len() && (#[trigger] model[i]).joins(n.0, n.1);
        assert(edges[i].joins(n.0, n.1));
    }
    assert(edges_join(edges, n.0, n.1) == edges_join(model, n.0, n.1));
    let joined = edges_join(edges, n.0, n.1);
    if signal.started {
        if !joined && has_detector(contact_dispatcher, proximity_dispatcher, objects[lo], objects[hi]) {
            let made = after.last().weight;
            let picked = begun_weight(contact_dispatcher, proximity_dispatcher, objects[lo], objects[hi]);
            assert(begins_with(contact_dispatcher, proximity_dispatcher, objects[lo], objects[hi], picked));
            assert(weights_alike(made, picked)) by {
                if made is Contact {
                    assert(made->Contact_1@ =~= picked->Contact_1@);
                }
            }
            assert forall|k: int| 0 <= k < after.len() implies (#[trigger] after[k]).source
                == next[k].source && after[k].target == next[k].target && weights_alike(
                after[k].weight,
                next[k].weight,
            ) by {
                if k < edges.len() {
                    assert(after[k] == after.drop_last()[k]);
                    assert(edges[k].source == model[k].source);
                }
            }
        }
    } else if joined {
        let i = choose|i: int|
            0 <= i < edges.len() && (#[trigger] edges[i]).joins(n.0, n.1) && after == edges.remove(i);
        let j = joining_edge(model, n.0, n.1);
        assert(model[j].joins(n.0, n.1));
        assert(edges[j].joins(n.0, n.1));
        if i < j {
            assert(!edges[j].joins(edges[i].source as int, edges[i].target as int));
        } else if j < i {
            assert(!edges[i].joins(edges[j].source as int, edges[j].target as int));
        }
        assert(i == j);
        assert forall|k: int| 0 <= k < after.len() implies (#[trigger] after[k]).source
            == next[k].source && after[k].target == next[k].target && weights_alike(
            after[k].weight,
            next[k].weight,
        ) by {
            if k < i {
                assert(edges[k].source == model[k].source);
            } else {
                assert(edges[k + 1].source == model[k + 1].source);
            }
        }
    }
}

/// Two lists of edges that are like a third are alike.
pub proof fn lemma_alike_through<C, P>(
    first: Seq<Edge<C, P>>,
    second: Seq<Edge<C, P>>,
    model: Seq<Edge<C, P>>,
)
    requires
        edges_alike(first, model),
        edges_alike(second, model),
    ensures
        edges_alike(first, second),
{
    assert forall|k: int| 0 <= k < first.len() implies (#[trigger] first[k]).source == second[k].source
        && first[k].target == second[k].target && weights_alike(first[k].weight, second[k].weight) by {
        assert(weights_alike(first[k].weight, model[k].weight));
        assert(second[k].source == model[k].source);
        assert(weights_alike(second[k].weight, model[k].weight));
    }
}

/// A list of edges is like itself.
pub proof fn lemma_alike_itself<C, P>(edges: Seq<Edge<C, P>>)
    ensures
        edges_alike(edges, edges),
{
    assert forall|k: int| 0 <= k < edges.len() implies weights_alike(
        (#[trigger] edges[k]).weight,
        edges[k].weight,
    ) by {}
}

/// Each signal names two different objects of the world and their proxies,
/// the proxy with the lesser place first.
pub open spec fn signals_linked<S, T>(
    objects: Map<CollisionObjectHandle, CollisionObject<S, T>>,
    nodes: Seq<CollisionObjectHandle>,
    signals: Seq<PairSignal>,
) -> bool {
    forall|k: int|
        0 <= k < signals.len() ==> {
            let s = #[trigger] signals[k];
            &&& s.data1 != s.data2
            &&& objects.dom().contains(s.data1)
            &&& objects.dom().contains(s.data2)
            &&& objects[s.data1].proxy_handle == s.proxy1
            &&& objects[s.data2].proxy_handle == s.proxy2
            &&& objects[s.data1].graph_index.0 < nodes.len()
            &&& objects[s.data2].graph_index.0 < nodes.len()
            &&& nodes[objects[s.data1].graph_index.0 as int] == s.data1
            &&& nodes[objects[s.data2].graph_index.0 as int] == s.data2
            &&& s.proxy1.0 < s.proxy2.0
        }
}

/// After the signals of an update of the broad phase were handled, every
/// edge joins two objects whose pair the broad phase reports.
pub proof fn lemma_handled_edges_reported<
    S,
    T,
    CD: ContactDispatcher<S>,
    PD: ProximityDispatcher<S>,
    H: BroadPhaseInterferenceHandler,
>(
    contact_dispatcher: CD,
    proximity_dispatcher: PD,
    objects: Map<CollisionObjectHandle, CollisionObject<S, T>>,
    nodes: Seq<CollisionObjectHandle>,
    proxies: Map<BroadPhaseProxyHandle, Proxy>,
    slots: crate::broad_phase::Slots,
    all: bool,
    handler: H,
    signals: Seq<PairSignal>,
    before: Seq<Edge<CD::Algorithm, PD::Algorithm>>,
    after: Seq<Edge<CD::Algorithm, PD::Algorithm>>,
    reported: Seq<(usize, usize)>,
    last: Seq<(usize, usize)>,
)
    requires
        linked(objects, nodes, proxies),
        crate::interaction_graph::edges_wf(nodes.len() as int, before),
        crate::interaction_graph::edges_wf(nodes.len() as int, after),
        edges_reported(objects, nodes, before, reported),
        signals_linked(objects, nodes, signals),
        signals_handled(
            contact_dispatcher,
            proximity_dispatcher,
            objects,
            signals,
            signals.len() as int,
            before,
            after,
        ),
        crate::broad_phase::signals_match(slots, all, handler, reported, signals),
        crate::broad_phase::pairs_match(slots, all, handler, reported, last),
    ensures
        edges_reported(objects, nodes, after, last),
{
    assert forall|e: int| 0 <= e < after.len() implies last.contains(
        edge_pair(objects, nodes, #[trigger] after[e]),
    ) by {
        let edge = after[e];
        let h1 = nodes[edge.source as int];
        let h2 = nodes[edge.target as int];
        assert(objects.dom().contains(nodes[edge.source as int]));
        assert(objects.dom().contains(nodes[edge.target as int]));
        assert(objects[h1].graph_index.0 == edge.source);
        assert(objects[h2].graph_index.0 == edge.target);
        assert(object_linked(objects, nodes, proxies, h1));
        assert(object_linked(objects, nodes, proxies, h2));
        let p = edge_pair(objects, nodes, edge);
        if before.contains(edge) {
            let i = choose|i: int| 0 <= i < before.len() && before[i] == edge;
            assert(reported.contains(edge_pair(objects, nodes, before[i])));
            if !crate::broad_phase::keeps(slots, all, handler, p) {
                let sig = crate::broad_phase::signal_of(slots, p, false);
                assert(signals.contains(sig));
                let k = choose|k: int| 0 <= k < signals.len() && signals[k] == sig;
                let s = signals[k];
                assert(!s.started);
                assert(object_linked(objects, nodes, proxies, s.data1));
                assert(object_linked(objects, nodes, proxies, s.data2));
                assert(proxies[s.proxy1].data == s.data1);
                assert(proxies[s.proxy2].data == s.data2);
                let n = signal_nodes(objects, s);
                assert(edge.joins(n.0, n.1));
                assert(edges_join(after, n.0, n.1));
                assert(false);
            }
        } else {
            assert(begun_edge(
                contact_dispatcher,
                proximity_dispatcher,
                objects,
                signals,
                signals.len() as int,
                edge,
            ));
            let k = choose|k: int|
                0 <= k < signals.len() && (#[trigger] signals[k]).started && edge.source
                    == signal_nodes(objects, signals[k]).0 && edge.target == signal_nodes(
                    objects,
                    signals[k],
                ).1 && begins_with(
                    contact_dispatcher,
                    proximity_dispatcher,
                    objects[sorted_pair(signals[k].data1, signals[k].data2).0],
                    objects[sorted_pair(signals[k].data1, signals[k].data2).1],
                    edge.weight,
                );
            let s = signals[k];
            assert(crate::broad_phase::begins(
                slots,
                all,
                handler,
                reported,
                crate::broad_phase::pair_of(s),
            ));
            assert(p == crate::broad_phase::pair_of(s));
        }
    }
}

/// Handling the signal of one pair leaves the edges of every other pair:
/// whether an edge joins `c` and `d` does not change where the edges stay,
/// or lose or gain an edge between `a` and `b`.
pub proof fn lemma_other_pair<C, P>(
    cur: Seq<Edge<C, P>>,
    after: Seq<Edge<C, P>>,
    a: int,
    b: int,
    c: int,
    d: int,
)
    requires
        !same_nodes((a, b), (c, d)),
        after == cur || (exists|i: int|
            0 <= i < cur.len() && (#[trigger] cur[i]).joins(a, b) && after == cur.remove(i)) || (
        after.len() == cur.len() + 1 && after.drop_last() == cur && after.last().joins(a, b)),
    ensures
        edges_join(after, c, d) == edges_join(cur, c, d),
{
    if after == cur {
    } else if after.len() == cur.len() + 1 && after.drop_last() == cur && after.last().joins(a, b) {
        if edges_join(cur, c, d) {
            let m = choose|m: int| 0 <= m < cur.len() && (#[trigger] cur[m]).joins(c, d);
            assert(after.drop_last()[m] == after[m]);
            assert(after[m].joins(c, d));
        }
        if edges_join(after, c, d) {
            let m = choose|m: int| 0 <= m < after.len() && (#[trigger] after[m]).joins(c, d);
            assert(m < cur.len());
            assert(after.drop_last()[m] == after[m]);
            assert(cur[m].joins(c, d));
        }
    } else {
        let i = choose|i: int|
            0 <= i < cur.len() && (#[trigger] cur[i]).joins(a, b) && after == cur.remove(i);
        if edges_join(cur, c, d) {
            let m = choose|m: int| 0 <= m < cur.len() && (#[trigger] cur[m]).joins(c, d);
            if m < i {
                assert(after[m] == cur[m]);
            } else {
                assert(m > i);
                assert(after[m - 1] == cur[m]);
            }
        }
        if edges_join(after, c, d) {
            let m = choose|m: int| 0 <= m < after.len() && (#[trigger] after[m]).joins(c, d);
            if m < i {
                assert(after[m] == cur[m]);
            } else {
                assert(after[m] == cur[m + 1]);
            }
        }
    }
}

/// The places of the proxies of the two objects of an edge, the lesser
/// first.
pub open spec fn edge_pair<S, T, C, P>(
    objects: Map<CollisionObjectHandle, CollisionObject<S, T>>,
    nodes: Seq<CollisionObjectHandle>,
    edge: Edge<C, P>,
) -> (usize, usize) {
    crate::broad_phase::ordered(
        objects[nodes[edge.source as int]].proxy_handle.0,
        objects[nodes[edge.target as int]].proxy_handle.0,
    )
}

/// Every edge joins two objects whose pair the broad phase reports.
pub open spec fn edges_reported<S, T, C, P>(
    objects: Map<CollisionObjectHandle, CollisionObject<S, T>>,
    nodes: Seq<CollisionObjectHandle>,
    edges: Seq<Edge<C, P>>,
    reported: Seq<(usize, usize)>,
) -> bool {
    forall|e: int|
        0 <= e < edges.len() ==> reported.contains(edge_pair(objects, nodes, #[trigger] edges[e]))
}

/// Each object names its node and its proxy, and they name it.
pub open spec fn object_linked<S, T>(
    objects: Map<CollisionObjectHandle, CollisionObject<S, T>>,
    nodes: Seq<CollisionObjectHandle>,
    proxies: Map<BroadPhaseProxyHandle, Proxy>,
    handle: CollisionObjectHandle,
) -> bool {
    let co = objects[handle];
    &&& co.handle == handle
    &&& co.graph_index.0 < nodes.len()
    &&& nodes[co.graph_index.0 as int] == handle
    &&& proxies.dom().contains(co.proxy_handle)
    &&& proxies[co.proxy_handle].data == handle
}

/// The objects, the nodes of the graph and the proxies of the broad phase
/// stand one to one: each object names its node and its proxy, each node and
/// each proxy names its object.
pub open spec fn linked<S, T>(
    objects: Map<CollisionObjectHandle, CollisionObject<S, T>>,
    nodes: Seq<CollisionObjectHandle>,
    proxies: Map<BroadPhaseProxyHandle, Proxy>,
) -> bool {
    &&& forall|h: CollisionObjectHandle|
        objects.dom().contains(h) ==> #[trigger] object_linked(objects, nodes, proxies, h)
    &&& forall|i: int|
        0 <= i < nodes.len() ==> objects.dom().contains(#[trigger] nodes[i])
            && objects[nodes[i]].graph_index.0 == i
    &&& forall|p: BroadPhaseProxyHandle|
        proxies.dom().contains(p) ==> objects.dom().contains((#[trigger] proxies[p]).data)
            && objects[proxies[p].data].proxy_handle == p
}

/// Whether the group filter and every registered filter let two objects
/// interact.
pub open spec fn interference_allowed<S, T, F: BroadPhasePairFilter<S, T>>(
    filters: Seq<(String, F)>,
    objects: Map<CollisionObjectHandle, CollisionObject<S, T>>,
    handle1: CollisionObjectHandle,
    handle2: CollisionObjectHandle,
) -> bool {
    groups_valid(objects[handle1], objects[handle2]) && all_valid(
        filters,
        objects[handle1],
        objects[handle2],
    )
}

/// Asks the group filter and the registered filters whether two objects may
/// interact.
pub fn filter_collision<S, T, F: BroadPhasePairFilter<S, T>>(
    filters: &BroadPhasePairFilters<F>,
    objects: &CollisionObjectSlab<S, T>,
    handle1: CollisionObjectHandle,
    handle2: CollisionObjectHandle,
) -> (r: bool)
    requires
        objects.has(handle1),
        objects.has(handle2),
    ensures
        r == interference_allowed(filters@, objects@, handle1, handle2),
{
    let o1 = objects.object(handle1);
    let o2 = objects.object(handle2);
    let filter_by_groups = CollisionGroupsPairFilter;
    filter_by_groups.is_pair_valid(o1, o2) && filters.is_pair_valid(o1, o2)
}

/// What the world shows the broad phase: which pairs may interact.
pub struct CollisionWorldInterferenceHandler<'a, S, T, F> {
    pub objects: &'a CollisionObjectSlab<S, T>,
    pub pair_filters: &'a BroadPhasePairFilters<F>,
}

impl<'a, S, T, F: BroadPhasePairFilter<S, T>> BroadPhaseInterferenceHandler for CollisionWorldInterferenceHandler<
    'a,
    S,
    T,
    F,
> {
    open spec fn knows(&self, handle: CollisionObjectHandle) -> bool {
        self.objects.has(handle)
    }

    open spec fn allows(&self, handle1: CollisionObjectHandle, handle2: CollisionObjectHandle) -> bool {
        interference_allowed(self.pair_filters@, self.objects@, handle1, handle2)
    }

    fn is_interference_allowed(
        &self,
        handle1: &CollisionObjectHandle,
        handle2: &CollisionObjectHandle,
    ) -> (r: bool) {
        filter_collision(self.pair_filters, self.objects, *handle1, *handle2)
    }
}

/// A world of collision objects.
///
/// `S` is the type of the shapes and `T` that of the data attached to an
/// object; `CD` and `PD` choose the detectors, and `F` is the type of the
/// registered pair filters.
pub struct CollisionWorld<S, T, CD: ContactDispatcher<S>, PD: ProximityDispatcher<S>, F> {
    objects: CollisionObjectSlab<S, T>,
    broad_phase: DBVTBroadPhase,
    narrow_phase: NarrowPhase<CD, PD>,
    interactions: InteractionGraph<CD::Algorithm, PD::Algorithm>,
    pair_filters: BroadPhasePairFilters<F>,
    timestamp: usize,
}

impl<S, T, CD: ContactDispatcher<S>, PD: ProximityDispatcher<S>, F> CollisionWorld<S, T, CD, PD, F> {
    /// The slab of the objects.
    pub closed spec fn slab(&self) -> CollisionObjectSlab<S, T> {
        self.objects
    }

    /// The broad phase.
    pub closed spec fn broad(&self) -> DBVTBroadPhase {
        self.broad_phase
    }

    /// The narrow phase.
    pub closed spec fn narrow(&self) -> NarrowPhase<CD, PD> {
        self.narrow_phase
    }

    /// The graph of interactions.
    pub closed spec fn graph(&self) -> InteractionGraph<CD::Algorithm, PD::Algorithm> {
        self.interactions
    }

    /// The registered pair filters, each with its name: what `filter_set`
    /// holds.
    pub open spec fn filters(&self) -> Seq<(String, F)> {
        self.filter_set()@
    }

    /// The number of the step that comes next.
    pub closed spec fn now(&self) -> usize {
        self.timestamp
    }

    /// The registered pair filters.
    pub closed spec fn filter_set(&self) -> BroadPhasePairFilters<F> {
        self.pair_filters
    }

    /// What the world shows the broad phase.
    pub open spec fn handler(&self) -> CollisionWorldInterferenceHandler<'_, S, T, F> {
        CollisionWorldInterferenceHandler {
            objects: &self.slab(),
            pair_filters: &self.filter_set(),
        }
    }

    /// Whether a step has nothing to do: the broad phase has nothing pending,
    /// no object changed since the last step, and a contact of the graph has
    /// each identifier of the pool.
    pub open spec fn settled(&self) -> bool {
        &&& self.broad().quiet()
        &&& forall|h: CollisionObjectHandle|
            self.slab().has(h) ==> (#[trigger] self.slab()@[h]).timestamp < self.now()
        &&& forall|bits: u64| #[trigger]
            self.narrow().ids().dom().contains(bits) ==> id_in_use(self.graph().edges(), bits)
    }

    /// The world is well formed: its parts are, objects, nodes and proxies
    /// stand one to one, every contact identifier is null or held by the
    /// pool, every proximity keeps beside its detector what the detector
    /// last found, no object is stamped with a step that is yet to come, no
    /// two pair filters have the same name, and every edge joins two objects
    /// whose pair the broad phase reports.
    pub open spec fn wf(&self) -> bool {
        &&& names_unique(self.filters())
        &&& edges_reported(
            self.slab()@,
            self.graph().nodes(),
            self.graph().edges(),
            self.broad().reported(),
        )
        &&& self.slab().wf()
        &&& self.broad().wf()
        &&& self.narrow().wf()
        &&& self.graph().wf()
        &&& linked(self.slab()@, self.graph().nodes(), self.broad().proxies())
        &&& contact_ids_live(self.narrow().ids(), self.graph().edges())
        &&& edges_kept::<S, CD::Algorithm, PD>(self.graph().edges())
        &&& forall|h: CollisionObjectHandle|
            self.slab().has(h) ==> (#[trigger] self.slab()@[h]).timestamp <= self.now()
    }

    /// Whether the two worlds have the same graph.
    pub open spec fn same_graph(&self, other: &Self) -> bool {
        &&& self.graph().nodes() == other.graph().nodes()
        &&& self.graph().edges() == other.graph().edges()
    }

    /// Whether the two worlds have the same events, contact identifiers and
    /// dispatchers.
    pub open spec fn same_narrow(&self, other: &Self) -> bool {
        &&& self.narrow().contact_log() == other.narrow().contact_log()
        &&& self.narrow().proximity_log() == other.narrow().proximity_log()
        &&& self.narrow().ids() == other.narrow().ids()
        &&& self.narrow().contact_dispatcher() == other.narrow().contact_dispatcher()
        &&& self.narrow().proximity_dispatcher() == other.narrow().proximity_dispatcher()
        &&& self.narrow().id_limit() == other.narrow().id_limit()
    }

    /// Whether the two worlds have the same reported pairs, and the same
    /// settings of the broad phase.
    pub open spec fn same_pairs(&self, other: &Self) -> bool {
        &&& self.broad().reported() == other.broad().reported()
        &&& self.broad().margin() == other.broad().margin()
        &&& self.broad().recompute_all() == other.broad().recompute_all()
    }

    /// Whether the two worlds are in the same state, but for the number of
    /// the step.
    pub open spec fn same_state(&self, other: &Self) -> bool {
        &&& self.slab()@ == other.slab()@
        &&& self.broad().proxies() == other.broad().proxies()
        &&& self.same_pairs(other)
        &&& self.same_graph(other)
        &&& self.same_narrow(other)
        &&& self.filters() == other.filters()
    }

    /// The box that the broad phase gets for an object: that of its shape at
    /// `position`, loosened by the limit of its query.
    pub open spec fn proxy_box(co: CollisionObject<S, T>, position: Isometry) -> AABB where S: Shape {
        co.shape.volume_at(position).loosened_by(co.query_type.limit())
    }

    /// What `add` does to a world.
    pub open spec fn added(
        &self,
        after: &Self,
        handle: CollisionObjectHandle,
        position: Isometry,
        shape: S,
        collision_groups: CollisionGroups,
        query_type: GeometricQueryType,
        data: T,
    ) -> bool where S: Shape {
        let co = after.slab()@[handle];
        let aabb = Self::proxy_box(co, position);
        &&& !self.slab().has(handle)
        &&& !self.broad().has(co.proxy_handle)
        &&& co == (CollisionObject {
            handle,
            proxy_handle: co.proxy_handle,
            graph_index: CollisionObjectGraphIndex(self.graph().nodes().len() as usize),
            position,
            shape,
            collision_groups,
            query_type,
            timestamp: self.now(),
            data,
        })
        &&& after.slab()@ == self.slab()@.insert(handle, co)
        &&& after.graph().nodes() == self.graph().nodes().push(handle)
        &&& after.graph().edges() == self.graph().edges()
        &&& after.broad().proxies() == self.broad().proxies().insert(
            co.proxy_handle,
            Proxy {
                aabb,
                fat: aabb.loosened_by(self.broad().margin()),
                data: handle,
                pending: None,
                dirty: true,
            },
        )
        &&& after.same_pairs(self)
        &&& after.same_narrow(self)
        &&& after.filters() == self.filters()
        &&& after.now() == self.now()
    }

    /// What a setter does to a world: the object under `handle` becomes
    /// `co`, its proxy gets `aabb` as pending box and, with `again`, has its
    /// pairs looked at again. Nothing else changes.
    pub open spec fn changed(
        &self,
        after: &Self,
        handle: CollisionObjectHandle,
        co: CollisionObject<S, T>,
        aabb: AABB,
        again: bool,
    ) -> bool {
        let proxy = self.broad().proxies()[self.slab()@[handle].proxy_handle];
        &&& after.slab()@ == self.slab()@.insert(handle, co)
        &&& after.broad().proxies() == self.broad().proxies().insert(
            self.slab()@[handle].proxy_handle,
            Proxy { pending: Some(aabb), dirty: proxy.dirty || again, ..proxy },
        )
        &&& after.same_pairs(self)
        &&& after.same_graph(self)
        &&& after.same_narrow(self)
        &&& after.filters() == self.filters()
        &&& after.now() == self.now()
    }

    /// A world without objects. Fat boxes will be larger than the boxes of
    /// the objects by `margin` on every side, where that is not negative.
    pub fn new(margin: i64, contact_dispatcher: CD, proximity_dispatcher: PD) -> (world: Self)
        ensures
            world.wf(),
            world.slab()@.len() == 0,
            world.slab()@.dom().finite(),
            world.graph().nodes().len() == 0,
            world.graph().edges().len() == 0,
            world.broad().slots().len() == 0,
            world.broad().reported().len() == 0,
            world.broad().margin() == crate::math::max_of(margin, 0),
            world.broad().quiet(),
            world.narrow().contact_log().len() == 0,
            world.narrow().proximity_log().len() == 0,
            world.narrow().ids() == (Map::<u64, bool>::empty()),
            world.narrow().contact_dispatcher() == contact_dispatcher,
            world.narrow().proximity_dispatcher() == proximity_dispatcher,
            world.narrow().id_limit() == crate::contact_id::POOL_LIMIT,
            world.filters().len() == 0,
            world.now() == 0,
            world.settled(),
    {
        let objects = CollisionObjectSlab::new();
        let broad_phase = DBVTBroadPhase::new(margin);
        let narrow_phase = NarrowPhase::new(contact_dispatcher, proximity_dispatcher);
        CollisionWorld {
            interactions: InteractionGraph::new(),
            objects,
            broad_phase,
            narrow_phase,
            pair_filters: BroadPhasePairFilters::new(),
            timestamp: 0,
        }
    }

    /// The objects.
    pub fn objects(&self) -> (objects: &CollisionObjectSlab<S, T>)
        ensures
            *objects == self.slab(),
    {
        &self.objects
    }

    /// The broad phase.
    pub fn broad_phase(&self) -> (broad_phase: &DBVTBroadPhase)
        ensures
            *broad_phase == self.broad(),
    {
        &self.broad_phase
    }

    /// The narrow phase.
    pub fn narrow_phase(&self) -> (narrow_phase: &NarrowPhase<CD, PD>)
        ensures
            *narrow_phase == self.narrow(),
    {
        &self.narrow_phase
    }

    /// The graph of interactions.
    pub fn interactions(&self) -> (interactions: &InteractionGraph<CD::Algorithm, PD::Algorithm>)
        ensures
            *interactions == self.graph(),
    {
        &self.interactions
    }

    /// The number of the step that comes next.
    pub fn timestamp(&self) -> (t: usize)
        ensures
            t == self.now(),
    {
        self.timestamp
    }

    /// Adds an object to the world, and returns its handle.
    ///
    /// The object is stamped with the step that comes next. It gets a node
    /// in the graph, after all others, and a proxy with the box of its shape
    /// at its pose, loosened by the limit of its query.
    pub fn add(
        &mut self,
        position: Isometry,
        shape: S,
        collision_groups: CollisionGroups,
        query_type: GeometricQueryType,
        data: T,
    ) -> (handle: CollisionObjectHandle) where S: Shape
        requires
            old(self).wf(),
        ensures
            final(self).wf(),
            old(self).added(
                final(self),
                handle,
                position,
                shape,
                collision_groups,
                query_type,
                data,
            ),
    {
        let mut co = CollisionObject::new(
            CollisionObjectHandle::invalid(),
            BroadPhaseProxyHandle::invalid(),
            CollisionObjectGraphIndex::new(0),
            position,
            shape,
            collision_groups,
            query_type,
            data,
        );
        co.timestamp = self.timestamp;
        let aabb = bounding_volume::aabb(co.shape(), co.position()).loosened(
            co.query_type().query_limit(),
        );
        let handle = self.objects.insert(co);
        let proxy_handle = self.broad_phase.create_proxy(aabb, handle);
        let graph_index = self.narrow_phase.handle_collision_object_added(
            &mut self.interactions,
            handle,
        );
        let co = self.objects.get_mut(handle);
        co.set_handle(handle);
        co.set_proxy_handle(proxy_handle);
        co.set_graph_index(graph_index);
        proof {
            let made = self.slab()@[handle];
            assert(self.slab()@ =~= old(self).slab()@.insert(handle, made));
            let objects = self.slab()@;
            let nodes = self.graph().nodes();
            let proxies = self.broad().proxies();
            assert forall|h: CollisionObjectHandle| objects.dom().contains(h) implies #[trigger] object_linked(
                objects,
                nodes,
                proxies,
                h,
            ) by {
                if h != handle {
                    assert(object_linked(
                        old(self).slab()@,
                        old(self).graph().nodes(),
                        old(self).broad().proxies(),
                        h,
                    ));
                }
            }
            assert forall|i: int| 0 <= i < nodes.len() implies objects.dom().contains(
                #[trigger] nodes[i],
            ) && objects[nodes[i]].graph_index.0 == i by {
                if i < old(self).graph().nodes().len() {
                    assert(nodes[i] == old(self).graph().nodes()[i]);
                }
            }
            assert forall|p: BroadPhaseProxyHandle| proxies.dom().contains(p) implies objects.dom().contains(
                (#[trigger] proxies[p]).data,
            ) && objects[proxies[p].data].proxy_handle == p by {
                if p != proxy_handle {
                    assert(old(self).broad().proxies().dom().contains(p));
                    assert(proxies[p] == old(self).broad().proxies()[p]);
                }
            }
        }
        handle
    }

    /// Replaces the narrow phase, and with it the dispatchers, the events and
    /// the pool of contact identifiers. The next step looks at all pairs
    /// again. The pool of the new narrow phase must hold the identifiers of
    /// the contacts of the graph.
    pub fn set_narrow_phase(&mut self, narrow_phase: NarrowPhase<CD, PD>)
        requires
            old(self).wf(),
            narrow_phase.wf(),
            contact_ids_live(narrow_phase.ids(), old(self).graph().edges()),
        ensures
            final(self).wf(),
            final(self).narrow() == narrow_phase,
            final(self).slab() == old(self).slab(),
            final(self).graph() == old(self).graph(),
            final(self).filters() == old(self).filters(),
            final(self).filter_set() == old(self).filter_set(),
            final(self).now() == old(self).now(),
            final(self).broad().slots() == old(self).broad().slots(),
            final(self).broad().reported() == old(self).broad().reported(),
            final(self).broad().margin() == old(self).broad().margin(),
            final(self).broad().tree() == old(self).broad().tree(),
            final(self).broad().recompute_all(),
    {
        self.narrow_phase = narrow_phase;
        self.broad_phase.deferred_recompute_all_proximities();
    }

    /// Replaces the narrow phase as `set_narrow_phase` does, where the pool
    /// of the new narrow phase holds the identifiers of the contacts of the
    /// graph, and says whether it did. Else the world stays as it is.
    pub fn try_set_narrow_phase(&mut self, narrow_phase: NarrowPhase<CD, PD>) -> (done: bool)
        requires
            old(self).wf(),
            narrow_phase.wf(),
        ensures
            final(self).wf(),
            done == contact_ids_live(narrow_phase.ids(), old(self).graph().edges()),
            !done ==> *final(self) == *old(self),
            done ==> {
                &&& final(self).narrow() == narrow_phase
                &&& final(self).slab() == old(self).slab()
                &&& final(self).graph() == old(self).graph()
                &&& final(self).filters() == old(self).filters()
                &&& final(self).filter_set() == old(self).filter_set()
                &&& final(self).now() == old(self).now()
                &&& final(self).broad().slots() == old(self).broad().slots()
                &&& final(self).broad().reported() == old(self).broad().reported()
                &&& final(self).broad().margin() == old(self).broad().margin()
                &&& final(self).broad().tree() == old(self).broad().tree()
                &&& final(self).broad().recompute_all()
            },
    {
        if narrow_phase.holds_ids_of(&self.interactions) {
            self.set_narrow_phase(narrow_phase);
            true
        } else {
            false
        }
    }

    /// Empties the pools of contact and proximity events.
    pub fn clear_events(&mut self)
        ensures
            final(self).wf() == old(self).wf(),
            final(self).slab() == old(self).slab(),
            final(self).broad() == old(self).broad(),
            final(self).graph() == old(self).graph(),
            final(self).filters() == old(self).filters(),
            final(self).filter_set() == old(self).filter_set(),
            final(self).now() == old(self).now(),
            final(self).narrow().contact_log() == Seq::<ContactEvent>::empty(),
            final(self).narrow().proximity_log() == Seq::<ProximityEvent>::empty(),
            final(self).narrow().ids() == old(self).narrow().ids(),
            final(self).narrow().contact_dispatcher() == old(self).narrow().contact_dispatcher(),
            final(self).narrow().proximity_dispatcher() == old(self).narrow().proximity_dispatcher(),
            final(self).narrow().id_limit() == old(self).narrow().id_limit(),
    {
        self.narrow_phase.clear_events();
    }

    /// The contact events of the last step.
    pub fn contact_events(&self) -> (events: &ContactEvents)
        ensures
            events@ == self.narrow().contact_log(),
    {
        self.narrow_phase.contact_events()
    }

    /// The proximity events of the last step.
    pub fn proximity_events(&self) -> (events: &ProximityEvents)
        ensures
            events@ == self.narrow().proximity_log(),
    {
        self.narrow_phase.proximity_events()
    }

    /// The object under `handle`, if there is one.
    pub fn collision_object(&self, handle: CollisionObjectHandle) -> (object: Option<
        &CollisionObject<S, T>,
    >)
        ensures
            object == (if self.slab().has(handle) {
                Some(&self.slab()@[handle])
            } else {
                None
            }),
    {
        self.objects.get(handle)
    }

    /// What the user attached to the object under `handle`, to change it.
    /// Nothing else of the world changes.
    pub fn collision_object_mut(&mut self, handle: CollisionObjectHandle) -> (data: Option<&mut T>)
        requires
            old(self).wf(),
        ensures
            data is Some == old(self).slab().has(handle),
            data is None ==> *final(self) == *old(self),
            data matches Some(d) ==> *d == old(self).slab()@[handle].data && old(self).data_set(
                final(self),
                handle,
                Some(*final(d)),
                handle,
                None,
            ),
    {
        if self.objects.contains(handle) {
            Some(self.objects.get_mut(handle).data_mut())
        } else {
            None
        }
    }

    /// What `collision_object_mut` and `collision_object_pair_mut` do to a
    /// world: the data of up to two objects are replaced, and nothing else
    /// changes.
    pub open spec fn data_set(
        &self,
        after: &Self,
        handle1: CollisionObjectHandle,
        first: Option<T>,
        handle2: CollisionObjectHandle,
        second: Option<T>,
    ) -> bool {
        &&& after.slab().wf()
        &&& after.slab()@ == pair_set(
            self.slab()@,
            handle1,
            match first {
                Some(data) => Some(CollisionObject { data, ..self.slab()@[handle1] }),
                None => None,
            },
            handle2,
            match second {
                Some(data) => Some(CollisionObject { data, ..self.slab()@[handle2] }),
                None => None,
            },
        )
        &&& after.broad() == self.broad()
        &&& after.narrow() == self.narrow()
        &&& after.graph() == self.graph()
        &&& after.filters() == self.filters()
        &&& after.filter_set() == self.filter_set()
        &&& after.now() == self.now()
    }

    /// A world of which only data that the user attached changed is well
    /// formed as it was.
    pub proof fn lemma_data_set(
        self,
        after: Self,
        handle1: CollisionObjectHandle,
        first: Option<T>,
        handle2: CollisionObjectHandle,
        second: Option<T>,
    )
        requires
            self.wf(),
            first is Some ==> self.slab().has(handle1),
            second is Some ==> self.slab().has(handle2),
            self.data_set(&after, handle1, first, handle2, second),
        ensures
            after.wf(),
    {
        let objects = after.slab()@;
        let nodes = after.graph().nodes();
        let proxies = after.broad().proxies();
        assert(objects.dom() =~= self.slab()@.dom());
        assert forall|h: CollisionObjectHandle| objects.dom().contains(h) implies #[trigger] object_linked(
            objects,
            nodes,
            proxies,
            h,
        ) by {
            assert(object_linked(self.slab()@, nodes, proxies, h));
        }
        assert forall|i: int| 0 <= i < nodes.len() implies objects.dom().contains(
            #[trigger] nodes[i],
        ) && objects[nodes[i]].graph_index.0 == i by {
            assert(self.slab()@.dom().contains(nodes[i]));
        }
        assert forall|p: BroadPhaseProxyHandle| proxies.dom().contains(p) implies objects.dom().contains(
            (#[trigger] proxies[p]).data,
        ) && objects[proxies[p].data].proxy_handle == p by {
            assert(self.slab()@.dom().contains(proxies[p].data));
        }
        assert forall|h: CollisionObjectHandle| after.slab().has(h) implies (
        #[trigger] after.slab()@[h]).timestamp <= after.now() by {
            assert(self.slab()@[h].timestamp <= self.now());
        }
    }

    /// What the user attached to the objects under two different handles, to
    /// change it. Nothing else of the world changes.
    pub fn collision_object_pair_mut(
        &mut self,
        handle1: CollisionObjectHandle,
        handle2: CollisionObjectHandle,
    ) -> (r: (Option<&mut T>, Option<&mut T>))
        requires
            old(self).wf(),
            handle1 != handle2,
        ensures
            r.0 is Some == old(self).slab().has(handle1),
            r.1 is Some == old(self).slab().has(handle2),
            r.0 matches Some(d) ==> *d == old(self).slab()@[handle1].data,
            r.1 matches Some(d) ==> *d == old(self).slab()@[handle2].data,
            old(self).data_set(
                final(self),
                handle1,
                match r.0 {
                    Some(d) => Some(*final(d)),
                    None => None,
                },
                handle2,
                match r.1 {
                    Some(d) => Some(*final(d)),
                    None => None,
                },
            ),
    {
        let has1 = self.objects.contains(handle1);
        let has2 = self.objects.contains(handle2);
        if has1 && has2 {
            let (first, second) = self.objects.get_pair_mut(handle1, handle2);
            (Some(first.data_mut()), Some(second.data_mut()))
        } else if has1 {
            (Some(self.objects.get_mut(handle1).data_mut()), None)
        } else if has2 {
            (None, Some(self.objects.get_mut(handle2).data_mut()))
        } else {
            (None, None)
        }
    }

    /// The box in effect in the broad phase for an object.
    pub fn broad_phase_aabb(&self, handle: CollisionObjectHandle) -> (aabb: Option<&AABB>)
        ensures
            aabb == (if self.slab().has(handle) && self.broad().has(
                self.slab()@[handle].proxy_handle,
            ) {
                Some(&self.broad().proxies()[self.slab()@[handle].proxy_handle].aabb)
            } else {
                None
            }),
    {
        match self.objects.get(handle) {
            Some(co) => match self.broad_phase.proxy(co.proxy_handle()) {
                Some(found) => Some(found.0),
                None => None,
            },
            None => None,
        }
    }

    /// Files the box of an object with the broad phase after a change, and
    /// stamps the object with the step that comes next.
    fn refresh(&mut self, handle: CollisionObjectHandle, predicted: Option<&Isometry>, again: bool) where
        S: Shape,

        requires
            old(self).wf(),
            old(self).slab().has(handle),
        ensures
            final(self).wf(),
            ({
                let co = old(self).slab()@[handle];
                let here = Self::proxy_box(co, co.position);
                old(self).changed(
                    final(self),
                    handle,
                    CollisionObject { timestamp: old(self).now(), ..co },
                    match predicted {
                        Some(m) => here.merged_with(Self::proxy_box(co, *m)),
                        None => here,
                    },
                    again,
                )
            }),
    {
        let timestamp = self.timestamp;
        let co = self.objects.get_mut(handle);
        co.timestamp = timestamp;
        let limit: i64 = co.query_type().query_limit();
        let mut aabb = bounding_volume::aabb(co.shape(), co.position()).loosened(limit);
        match predicted {
            Some(m) => {
                let there = bounding_volume::aabb(co.shape(), m).loosened(limit);
                aabb.merge(&there);
            },
            None => {},
        }
        let proxy_handle = co.proxy_handle();
        proof {
            assert(object_linked(
                old(self).slab()@,
                old(self).graph().nodes(),
                old(self).broad().proxies(),
                handle,
            ));
        }
        self.broad_phase.deferred_set_bounding_volume(proxy_handle, aabb);
        if again {
            self.broad_phase.deferred_recompute_all_proximities_with(proxy_handle);
        }
        proof {
            let before = old(self).broad().proxies();
            let proxy = before[proxy_handle];
            assert(self.broad().proxies() =~= before.insert(
                proxy_handle,
                Proxy { pending: Some(aabb), dirty: proxy.dirty || again, ..proxy },
            ));
            assert(self.broad().proxies().dom() =~= before.dom());
            self.lemma_relinked(*old(self), handle);
        }
    }

    /// A world stays well formed where an object changes but keeps its
    /// handle, its node and its proxy, and proxies keep their objects.
    proof fn lemma_relinked(self, before: Self, handle: CollisionObjectHandle)
        requires
            before.wf(),
            before.slab().has(handle),
            self.slab().wf(),
            self.broad().wf(),
            self.narrow().wf(),
            self.filters() == before.filters(),
            self.slab()@ == before.slab()@.insert(handle, self.slab()@[handle]),
            self.slab()@[handle].handle == handle,
            self.slab()@[handle].graph_index == before.slab()@[handle].graph_index,
            self.slab()@[handle].proxy_handle == before.slab()@[handle].proxy_handle,
            self.slab()@[handle].timestamp <= self.now(),
            before.now() <= self.now(),
            self.graph().nodes() == before.graph().nodes(),
            self.graph().edges() == before.graph().edges(),
            self.narrow().ids() == before.narrow().ids(),
            self.broad().reported() == before.broad().reported(),
            self.broad().proxies().dom() == before.broad().proxies().dom(),
            forall|p: BroadPhaseProxyHandle|
                before.broad().proxies().dom().contains(p) ==> (#[trigger] self.broad().proxies()[p]).data
                    == before.broad().proxies()[p].data,
        ensures
            self.wf(),
    {
        let objects = self.slab()@;
        let nodes = self.graph().nodes();
        let proxies = self.broad().proxies();
        assert forall|e: int| 0 <= e < self.graph().edges().len() implies self.broad().reported().contains(
            edge_pair(objects, nodes, #[trigger] self.graph().edges()[e]),
        ) by {
            let edge = self.graph().edges()[e];
            assert(edge_pair(objects, nodes, edge) == edge_pair(before.slab()@, nodes, edge));
        }
        assert forall|h: CollisionObjectHandle| objects.dom().contains(h) implies #[trigger] object_linked(
            objects,
            nodes,
            proxies,
            h,
        ) by {
            assert(object_linked(
                before.slab()@,
                before.graph().nodes(),
                before.broad().proxies(),
                h,
            ));
        }
        assert forall|p: BroadPhaseProxyHandle| proxies.dom().contains(p) implies objects.dom().contains(
            (#[trigger] proxies[p]).data,
        ) && objects[proxies[p].data].proxy_handle == p by {
            assert(before.broad().proxies().dom().contains(p));
            let h = before.broad().proxies()[p].data;
            assert(objects.dom().contains(h));
        }
        assert forall|h: CollisionObjectHandle| self.slab().has(h) implies (
        #[trigger] self.slab()@[h]).timestamp <= self.now() by {
            if h != handle {
                assert(before.slab()@[h].timestamp <= before.now());
            }
        }
    }
}

impl<S, T, CD: ContactDispatcher<S>, PD: ProximityDispatcher<S>, F> CollisionWorld<S, T, CD, PD, F> {
    /// Moves an object. It is stamped with the step that comes next, and the
    /// broad phase gets the box of its shape at the new pose, loosened by the
    /// limit of its query, as pending box of its proxy.
    pub fn set_position(&mut self, handle: CollisionObjectHandle, pos: Isometry) where S: Shape
        requires
            old(self).wf(),
            old(self).slab().has(handle),
        ensures
            final(self).wf(),
            ({
                let co = CollisionObject { position: pos, ..old(self).slab()@[handle] };
                let here = Self::proxy_box(co, co.position);
                old(self).changed(
                    final(self),
                    handle,
                    CollisionObject { timestamp: old(self).now(), ..co },
                    here,
                    false,
                )
            }),
    {
        let co = self.objects.get_mut(handle);
        co.set_position(pos);
        proof {
            assert(self.broad().proxies().dom() =~= old(self).broad().proxies().dom());
            assert(object_linked(
                old(self).slab()@,
                old(self).graph().nodes(),
                old(self).broad().proxies(),
                handle,
            ));
            assert(old(self).slab()@[handle].timestamp <= old(self).now());
            self.lemma_relinked(*old(self), handle);
        }
        self.refresh(handle, None, false);
        proof {
            let made = self.slab()@[handle];
            assert(self.slab()@ =~= old(self).slab()@.insert(handle, made));
        }
    }

    /// Moves an object to `pos`, where it is expected to go on to
    /// `predicted_pos`: the pending box of its proxy is the one around the
    /// loosened boxes at both poses.
    pub fn set_position_with_prediction(&mut self, handle: CollisionObjectHandle, pos: Isometry, predicted_pos: &Isometry) where S: Shape
        requires
            old(self).wf(),
            old(self).slab().has(handle),
        ensures
            final(self).wf(),
            ({
                let co = CollisionObject { position: pos, ..old(self).slab()@[handle] };
                let here = Self::proxy_box(co, co.position);
                old(self).changed(
                    final(self),
                    handle,
                    CollisionObject { timestamp: old(self).now(), ..co },
                    here.merged_with(Self::proxy_box(co, *predicted_pos)),
                    false,
                )
            }),
    {
        let co = self.objects.get_mut(handle);
        co.set_position(pos);
        proof {
            assert(self.broad().proxies().dom() =~= old(self).broad().proxies().dom());
            assert(object_linked(
                old(self).slab()@,
                old(self).graph().nodes(),
                old(self).broad().proxies(),
                handle,
            ));
            assert(old(self).slab()@[handle].timestamp <= old(self).now());
            self.lemma_relinked(*old(self), handle);
        }
        self.refresh(handle, Some(predicted_pos), false);
        proof {
            let made = self.slab()@[handle];
            assert(self.slab()@ =~= old(self).slab()@.insert(handle, made));
        }
    }

    /// Sets what is to be found for an object. Its box is loosened by the new
    /// limit, and the next step looks at all pairs of its proxy again.
    pub fn set_query_type(&mut self, handle: CollisionObjectHandle, query_type: GeometricQueryType) where S: Shape
        requires
            old(self).wf(),
            old(self).slab().has(handle),
        ensures
            final(self).wf(),
            ({
                let co = CollisionObject { query_type, ..old(self).slab()@[handle] };
                let here = Self::proxy_box(co, co.position);
                old(self).changed(
                    final(self),
                    handle,
                    CollisionObject { timestamp: old(self).now(), ..co },
                    here,
                    true,
                )
            }),
    {
        let co = self.objects.get_mut(handle);
        co.set_query_type(query_type);
        proof {
            assert(self.broad().proxies().dom() =~= old(self).broad().proxies().dom());
            assert(object_linked(
                old(self).slab()@,
                old(self).graph().nodes(),
                old(self).broad().proxies(),
                handle,
            ));
            assert(old(self).slab()@[handle].timestamp <= old(self).now());
            self.lemma_relinked(*old(self), handle);
        }
        self.refresh(handle, None, true);
        proof {
            let made = self.slab()@[handle];
            assert(self.slab()@ =~= old(self).slab()@.insert(handle, made));
        }
    }

    /// Replaces the shape of an object. The next step looks at all pairs of
    /// its proxy again.
    pub fn set_shape(&mut self, handle: CollisionObjectHandle, shape: S) where S: Shape
        requires
            old(self).wf(),
            old(self).slab().has(handle),
        ensures
            final(self).wf(),
            ({
                let co = CollisionObject { shape, ..old(self).slab()@[handle] };
                let here = Self::proxy_box(co, co.position);
                old(self).changed(
                    final(self),
                    handle,
                    CollisionObject { timestamp: old(self).now(), ..co },
                    here,
                    true,
                )
            }),
    {
        let co = self.objects.get_mut(handle);
        co.set_shape(shape);
        proof {
            assert(self.broad().proxies().dom() =~= old(self).broad().proxies().dom());
            assert(object_linked(
                old(self).slab()@,
                old(self).graph().nodes(),
                old(self).broad().proxies(),
                handle,
            ));
            assert(old(self).slab()@[handle].timestamp <= old(self).now());
            self.lemma_relinked(*old(self), handle);
        }
        self.refresh(handle, None, true);
        proof {
            let made = self.slab()@[handle];
            assert(self.slab()@ =~= old(self).slab()@.insert(handle, made));
        }
    }

    /// Moves the points that define the shape of an object to `coords`,
    /// where it is deformable. Of the object, only the shape and the stamp
    /// change.
    pub fn set_deformations(&mut self, handle: CollisionObjectHandle, coords: &[i64]) where S: Shape
        requires
            old(self).wf(),
            old(self).slab().has(handle),
        ensures
            final(self).wf(),
            ({
                let co = CollisionObject {
                    shape: old(self).slab()@[handle].shape.deformed(coords),
                    ..old(self).slab()@[handle]
                };
                let here = Self::proxy_box(co, co.position);
                old(self).changed(
                    final(self),
                    handle,
                    CollisionObject { timestamp: old(self).now(), ..co },
                    here,
                    false,
                )
            }),
    {
        let co = self.objects.get_mut(handle);
        co.set_deformations(coords);
        proof {
            assert(self.broad().proxies().dom() =~= old(self).broad().proxies().dom());
            assert(object_linked(
                old(self).slab()@,
                old(self).graph().nodes(),
                old(self).broad().proxies(),
                handle,
            ));
            assert(old(self).slab()@[handle].timestamp <= old(self).now());
            self.lemma_relinked(*old(self), handle);
        }
        self.refresh(handle, None, false);
        proof {
            let made = self.slab()@[handle];
            assert(self.slab()@ =~= old(self).slab()@.insert(handle, made));
        }
    }

    /// Sets the groups of an object. The next step looks at all pairs of its
    /// proxy again.
    pub fn set_collision_groups(&mut self, handle: CollisionObjectHandle, groups: CollisionGroups) where S: Shape
        requires
            old(self).wf(),
            old(self).slab().has(handle),
        ensures
            final(self).wf(),
            ({
                let co = CollisionObject { collision_groups: groups, ..old(self).slab()@[handle] };
                let here = Self::proxy_box(co, co.position);
                old(self).changed(
                    final(self),
                    handle,
                    CollisionObject { timestamp: old(self).now(), ..co },
                    here,
                    true,
                )
            }),
    {
        let co = self.objects.get_mut(handle);
        co.set_collision_groups(groups);
        proof {
            assert(self.broad().proxies().dom() =~= old(self).broad().proxies().dom());
            assert(object_linked(
                old(self).slab()@,
                old(self).graph().nodes(),
                old(self).broad().proxies(),
                handle,
            ));
            assert(old(self).slab()@[handle].timestamp <= old(self).now());
            self.lemma_relinked(*old(self), handle);
        }
        self.refresh(handle, None, true);
        proof {
            let made = self.slab()@[handle];
            assert(self.slab()@ =~= old(self).slab()@.insert(handle, made));
        }
    }

    /// Registers a pair filter under a name, in place of the filter that has
    /// the name where there is one. The next step looks at all pairs again.
    pub fn register_broad_phase_pair_filter(&mut self, name: &str, filter: F)
        requires
            old(self).wf(),
        ensures
            final(self).wf(),
            final(self).slab() == old(self).slab(),
            final(self).graph() == old(self).graph(),
            final(self).narrow() == old(self).narrow(),
            final(self).now() == old(self).now(),
            final(self).broad().slots() == old(self).broad().slots(),
            final(self).broad().reported() == old(self).broad().reported(),
            final(self).broad().margin() == old(self).broad().margin(),
            final(self).broad().recompute_all(),
            ({
                let before = old(self).filters();
                let after = final(self).filters();
                let i = place_of(before, name@);
                if i < before.len() {
                    after.len() == before.len() && after[i].0@ == name@ && after[i].1 == filter
                        && forall|j: int| 0 <= j < before.len() && j != i ==> after[j] == before[j]
                } else {
                    after.len() == before.len() + 1 && after.drop_last() == before
                        && after.last().0@ == name@ && after.last().1 == filter
                }
            }),
    {
        self.pair_filters.register_collision_filter(name, filter);
        self.broad_phase.deferred_recompute_all_proximities();
    }

    /// Takes out the pair filter called `name`. Where there was one, the next
    /// step looks at all pairs again.
    pub fn unregister_broad_phase_pair_filter(&mut self, name: &str)
        requires
            old(self).wf(),
        ensures
            final(self).wf(),
            final(self).slab() == old(self).slab(),
            final(self).graph() == old(self).graph(),
            final(self).narrow() == old(self).narrow(),
            final(self).now() == old(self).now(),
            final(self).broad().slots() == old(self).broad().slots(),
            final(self).broad().reported() == old(self).broad().reported(),
            final(self).broad().margin() == old(self).broad().margin(),
            ({
                let before = old(self).filters();
                let i = place_of(before, name@);
                if i < before.len() {
                    final(self).filters() == before.remove(i) && final(self).broad().recompute_all()
                } else {
                    final(self).filters() == before && final(self).broad().recompute_all() == old(self).broad().recompute_all()
                }
            }),
    {
        if self.pair_filters.unregister_collision_filter(name) {
            self.broad_phase.deferred_recompute_all_proximities();
        }
    }
}

/// The objects after the node of the object under `handle` left the graph:
/// the object of the last node has the index of the node that left.
pub open spec fn detached_objects<S, T>(
    objects: Map<CollisionObjectHandle, CollisionObject<S, T>>,
    nodes: Seq<CollisionObjectHandle>,
    handle: CollisionObjectHandle,
) -> Map<CollisionObjectHandle, CollisionObject<S, T>> {
    let index = objects[handle].graph_index;
    if index.0 + 1 == nodes.len() {
        objects
    } else {
        objects.insert(
            nodes.last(),
            CollisionObject { graph_index: index, ..objects[nodes.last()] },
        )
    }
}

/// The objects, the nodes and the edges after the nodes of the first `k`
/// objects that `handles` names left the graph, one after the other.
pub open spec fn detached_all<S, T, C, P>(
    objects: Map<CollisionObjectHandle, CollisionObject<S, T>>,
    nodes: Seq<CollisionObjectHandle>,
    edges: Seq<Edge<C, P>>,
    handles: Seq<CollisionObjectHandle>,
    k: int,
) -> (Map<CollisionObjectHandle, CollisionObject<S, T>>, Seq<CollisionObjectHandle>, Seq<Edge<C, P>>)
    decreases k,
{
    if k <= 0 {
        (objects, nodes, edges)
    } else {
        let (o, n, e) = detached_all(objects, nodes, edges, handles, k - 1);
        let index = o[handles[k - 1]].graph_index.0 as int;
        (
            detached_objects(o, n, handles[k - 1]),
            n.update(index, n.last()).drop_last(),
            crate::interaction_graph::edges_after_removal(e, n.len() as int, index),
        )
    }
}

/// The objects without those that `handles` names.
pub open spec fn objects_without<S, T>(
    objects: Map<CollisionObjectHandle, CollisionObject<S, T>>,
    handles: Seq<CollisionObjectHandle>,
) -> Map<CollisionObjectHandle, CollisionObject<S, T>> {
    Map::new(
        |h: CollisionObjectHandle| objects.dom().contains(h) && !handles.contains(h),
        |h: CollisionObjectHandle| objects[h],
    )
}

/// `linked`, while the nodes of the objects in `gone` have left the graph
/// and the objects are still in the slab.
pub open spec fn linked_but<S, T>(
    objects: Map<CollisionObjectHandle, CollisionObject<S, T>>,
    nodes: Seq<CollisionObjectHandle>,
    proxies: Map<BroadPhaseProxyHandle, Proxy>,
    gone: Seq<CollisionObjectHandle>,
) -> bool {
    &&& forall|h: CollisionObjectHandle|
        objects.dom().contains(h) ==> {
            let co = #[trigger] objects[h];
            &&& co.handle == h
            &&& proxies.dom().contains(co.proxy_handle)
            &&& proxies[co.proxy_handle].data == h
            &&& !gone.contains(h) ==> co.graph_index.0 < nodes.len() && nodes[co.graph_index.0 as int]
                == h
        }
    &&& forall|i: int|
        0 <= i < nodes.len() ==> objects.dom().contains(#[trigger] nodes[i]) && !gone.contains(
            nodes[i],
        ) && objects[nodes[i]].graph_index.0 == i
    &&& forall|p: BroadPhaseProxyHandle|
        proxies.dom().contains(p) ==> objects.dom().contains((#[trigger] proxies[p]).data)
            && objects[proxies[p].data].proxy_handle == p
}

/// When the node of one more object leaves the graph, the others stay
/// linked, and every object keeps all but its node.
pub proof fn lemma_detach_step<S, T>(
    objects: Map<CollisionObjectHandle, CollisionObject<S, T>>,
    nodes: Seq<CollisionObjectHandle>,
    proxies: Map<BroadPhaseProxyHandle, Proxy>,
    gone: Seq<CollisionObjectHandle>,
    handle: CollisionObjectHandle,
)
    requires
        linked_but(objects, nodes, proxies, gone),
        objects.dom().contains(handle),
        !gone.contains(handle),
    ensures
        ({
            let index = objects[handle].graph_index.0 as int;
            let after = detached_objects(objects, nodes, handle);
            &&& 0 <= index < nodes.len()
            &&& index + 1 != nodes.len() ==> objects.dom().contains(nodes.last()) && nodes.last()
                != handle
            &&& after.dom() == objects.dom()
            &&& forall|h: CollisionObjectHandle|
                objects.dom().contains(h) ==> (#[trigger] after[h]) == (CollisionObject {
                    graph_index: after[h].graph_index,
                    ..objects[h]
                })
            &&& linked_but(
                after,
                nodes.update(index, nodes.last()).drop_last(),
                proxies,
                gone.push(handle),
            )
        }),
{
    let index = objects[handle].graph_index.0 as int;
    let after = detached_objects(objects, nodes, handle);
    let rest = nodes.update(index, nodes.last()).drop_last();
    let more = gone.push(handle);
    let last = nodes.last();
    assert(objects[handle].handle == handle);
    assert(nodes[index] == handle);
    assert(objects.dom().contains(nodes[nodes.len() - 1]));
    assert(after.dom() =~= objects.dom());
    assert forall|h: CollisionObjectHandle| objects.dom().contains(h) implies {
        let co = #[trigger] after[h];
        &&& co.handle == h
        &&& proxies.dom().contains(co.proxy_handle)
        &&& proxies[co.proxy_handle].data == h
        &&& !more.contains(h) ==> co.graph_index.0 < rest.len() && rest[co.graph_index.0 as int] == h
    } by {
        let was = objects[h];
        assert(was.handle == h);
        if !more.contains(h) {
            if gone.contains(h) {
                let w = choose|w: int| 0 <= w < gone.len() && gone[w] == h;
                assert(more[w] == h);
            }
            assert(h != handle) by {
                if h == handle {
                    assert(more[gone.len() as int] == h);
                }
            }
            assert(nodes[was.graph_index.0 as int] == h);
        }
    }
    assert forall|i: int| 0 <= i < rest.len() implies after.dom().contains(#[trigger] rest[i])
        && !more.contains(rest[i]) && after[rest[i]].graph_index.0 == i by {
        let h = rest[i];
        if i == index {
            assert(h == last);
        } else {
            assert(h == nodes[i]);
        }
        assert(objects.dom().contains(nodes[i]));
        assert(objects[nodes[i]].graph_index.0 == i);
        assert(objects[nodes[nodes.len() - 1]].graph_index.0 == nodes.len() - 1);
        if more.contains(h) {
            let w = choose|w: int| 0 <= w < more.len() && more[w] == h;
            if w < gone.len() {
                assert(gone[w] == h);
                assert(gone.contains(h));
                assert(!gone.contains(nodes[i]));
                assert(!gone.contains(nodes[nodes.len() - 1]));
            }
        }
    }
    assert forall|p: BroadPhaseProxyHandle| proxies.dom().contains(p) implies after.dom().contains(
        (#[trigger] proxies[p]).data,
    ) && after[proxies[p].data].proxy_handle == p by {
        assert(objects.dom().contains(proxies[p].data));
    }
}

/// While the nodes of objects leave the graph one after the other, objects,
/// nodes and edges stay linked but for the objects whose nodes left, and every
/// object keeps all but its node.
pub proof fn lemma_detached_linked<S, T, C, P>(
    objects: Map<CollisionObjectHandle, CollisionObject<S, T>>,
    nodes: Seq<CollisionObjectHandle>,
    edges: Seq<Edge<C, P>>,
    proxies: Map<BroadPhaseProxyHandle, Proxy>,
    handles: Seq<CollisionObjectHandle>,
    k: int,
)
    requires
        linked_but(objects, nodes, proxies, Seq::<CollisionObjectHandle>::empty()),
        crate::interaction_graph::edges_wf(nodes.len() as int, edges),
        nodes.len() <= usize::MAX,
        0 <= k <= handles.len(),
        forall|i: int| 0 <= i < handles.len() ==> objects.dom().contains(#[trigger] handles[i]),
        forall|i: int, j: int| 0 <= i < j < handles.len() ==> handles[i] != handles[j],
    ensures
        ({
            let (o, n, e) = detached_all(objects, nodes, edges, handles, k);
            &&& linked_but(o, n, proxies, handles.take(k))
            &&& crate::interaction_graph::edges_wf(n.len() as int, e)
            &&& n.len() <= nodes.len()
            &&& o.dom() == objects.dom()
            &&& forall|h: CollisionObjectHandle|
                objects.dom().contains(h) ==> (#[trigger] o[h]).proxy_handle
                    == objects[h].proxy_handle && o[h].timestamp == objects[h].timestamp
        }),
    decreases k,
{
    if k <= 0 {
        assert(handles.take(k) =~= Seq::<CollisionObjectHandle>::empty());
    } else {
        let gone = handles.take(k - 1);
        let h = handles[k - 1];
        assert(handles.take(k) =~= gone.push(h));
        lemma_detached_linked(objects, nodes, edges, proxies, handles, k - 1);
        let (o, n, e) = detached_all(objects, nodes, edges, handles, k - 1);
        if gone.contains(h) {
            let w = choose|w: int| 0 <= w < gone.len() && gone[w] == h;
            assert(handles[w] == handles[k - 1]);
        }
        lemma_detach_step(o, n, proxies, gone, h);
        let index = o[h].graph_index.0 as int;
        crate::interaction_graph::lemma_removal_keeps_wf(e, n.len() as int, index);
        let o2 = detached_objects(o, n, h);
        assert forall|x: CollisionObjectHandle| objects.dom().contains(x) implies (
        #[trigger] o2[x]).proxy_handle == objects[x].proxy_handle && o2[x].timestamp
            == objects[x].timestamp by {
            assert(o[x].proxy_handle == objects[x].proxy_handle);
        }
    }
}

/// While the nodes of objects leave the graph one after the other, every
/// edge that is left is an edge that the graph had, between the same two
/// objects and with its interaction.
pub proof fn lemma_detached_edges_are_old<S, T, C, P>(
    objects: Map<CollisionObjectHandle, CollisionObject<S, T>>,
    nodes: Seq<CollisionObjectHandle>,
    edges: Seq<Edge<C, P>>,
    proxies: Map<BroadPhaseProxyHandle, Proxy>,
    handles: Seq<CollisionObjectHandle>,
    k: int,
    j: int,
)
    requires
        linked_but(objects, nodes, proxies, Seq::<CollisionObjectHandle>::empty()),
        crate::interaction_graph::edges_wf(nodes.len() as int, edges),
        nodes.len() <= usize::MAX,
        0 <= k <= handles.len(),
        forall|i: int| 0 <= i < handles.len() ==> objects.dom().contains(#[trigger] handles[i]),
        forall|i: int, j: int| 0 <= i < j < handles.len() ==> handles[i] != handles[j],
        0 <= j < detached_all(objects, nodes, edges, handles, k).2.len(),
    ensures
        ({
            let (o, n, e) = detached_all(objects, nodes, edges, handles, k);
            &&& e[j].source < n.len()
            &&& e[j].target < n.len()
            &&& edge_between(
                nodes,
                edges,
                n[e[j].source as int],
                n[e[j].target as int],
                e[j].weight,
            )
        }),
    decreases k,
{
    lemma_detached_linked(objects, nodes, edges, proxies, handles, k);
    if k <= 0 {
        assert(edges[j].weight == edges[j].weight);
    } else {
        let gone = handles.take(k - 1);
        let h = handles[k - 1];
        lemma_detached_linked(objects, nodes, edges, proxies, handles, k - 1);
        let (o, n, e) = detached_all(objects, nodes, edges, handles, k - 1);
        if gone.contains(h) {
            let w = choose|w: int| 0 <= w < gone.len() && gone[w] == h;
            assert(handles[w] == handles[k - 1]);
        }
        lemma_detach_step(o, n, proxies, gone, h);
        let index = o[h].graph_index.0 as int;
        let n2 = n.update(index, n.last()).drop_last();
        let rest = crate::interaction_graph::without_node(e, index);
        let e2 = crate::interaction_graph::edges_after_removal(e, n.len() as int, index);
        crate::interaction_graph::lemma_without_node(e, index);
        assert(e2[j] == rest[j].renamed(n.len() - 1, index));
        assert(e.contains(rest[j]));
        let m = choose|m: int| 0 <= m < e.len() && e[m] == rest[j];
        lemma_detached_edges_are_old(objects, nodes, edges, proxies, handles, k - 1, m);
        assert(!rest[j].touches(index));
        assert(n2[e2[j].source as int] == n[e[m].source as int]);
        assert(n2[e2[j].target as int] == n[e[m].target as int]);
    }
}

/// Whether an edge with this interaction joins the two objects, the object
/// `handle1` at its first end.
pub open spec fn edge_between<C, P>(
    nodes: Seq<CollisionObjectHandle>,
    edges: Seq<Edge<C, P>>,
    handle1: CollisionObjectHandle,
    handle2: CollisionObjectHandle,
    weight: Interaction<C, P>,
) -> bool {
    exists|j: int|
        0 <= j < edges.len() && (#[trigger] edges[j]).weight == weight && edges[j].source
            < nodes.len() && edges[j].target < nodes.len() && nodes[edges[j].source as int]
            == handle1 && nodes[edges[j].target as int] == handle2
}

/// While the nodes of objects leave the graph one after the other, an edge
/// between two objects that stay stays, with its interaction.
pub proof fn lemma_detached_keeps_edge<S, T, C, P>(
    objects: Map<CollisionObjectHandle, CollisionObject<S, T>>,
    nodes: Seq<CollisionObjectHandle>,
    edges: Seq<Edge<C, P>>,
    proxies: Map<BroadPhaseProxyHandle, Proxy>,
    handles: Seq<CollisionObjectHandle>,
    k: int,
    handle1: CollisionObjectHandle,
    handle2: CollisionObjectHandle,
    weight: Interaction<C, P>,
)
    requires
        linked_but(objects, nodes, proxies, Seq::<CollisionObjectHandle>::empty()),
        crate::interaction_graph::edges_wf(nodes.len() as int, edges),
        nodes.len() <= usize::MAX,
        0 <= k <= handles.len(),
        forall|i: int| 0 <= i < handles.len() ==> objects.dom().contains(#[trigger] handles[i]),
        forall|i: int, j: int| 0 <= i < j < handles.len() ==> handles[i] != handles[j],
        edge_between(nodes, edges, handle1, handle2, weight),
        !handles.take(k).contains(handle1),
        !handles.take(k).contains(handle2),
    ensures
        ({
            let (o, n, e) = detached_all(objects, nodes, edges, handles, k);
            &&& linked_but(o, n, proxies, handles.take(k))
            &&& crate::interaction_graph::edges_wf(n.len() as int, e)
            &&& n.len() <= nodes.len()
            &&& o.dom() == objects.dom()
            &&& edge_between(n, e, handle1, handle2, weight)
        }),
    decreases k,
{
    if k <= 0 {
        assert(handles.take(k) =~= Seq::<CollisionObjectHandle>::empty());
    } else {
        let gone = handles.take(k - 1);
        let more = handles.take(k);
        let h = handles[k - 1];
        assert(more =~= gone.push(h));
        assert forall|x: CollisionObjectHandle| gone.contains(x) implies more.contains(x) by {
            let w = choose|w: int| 0 <= w < gone.len() && gone[w] == x;
            assert(more[w] == x);
        }
        assert(more[k - 1] == h);
        lemma_detached_keeps_edge(
            objects,
            nodes,
            edges,
            proxies,
            handles,
            k - 1,
            handle1,
            handle2,
            weight,
        );
        let (o, n, e) = detached_all(objects, nodes, edges, handles, k - 1);
        if gone.contains(h) {
            let w = choose|w: int| 0 <= w < gone.len() && gone[w] == h;
            assert(handles[w] == handles[k - 1]);
        }
        lemma_detach_step(o, n, proxies, gone, h);
        let index = o[h].graph_index.0 as int;
        assert(o[h].handle == h);
        assert(n[index] == h);
        let n2 = n.update(index, n.last()).drop_last();
        let rest = crate::interaction_graph::without_node(e, index);
        let e2 = crate::interaction_graph::edges_after_removal(e, n.len() as int, index);
        crate::interaction_graph::lemma_removal_keeps_wf(e, n.len() as int, index);
        crate::interaction_graph::lemma_without_node(e, index);
        let j = choose|j: int|
            0 <= j < e.len() && (#[trigger] e[j]).weight == weight && e[j].source < n.len()
                && e[j].target < n.len() && n[e[j].source as int] == handle1 && n[e[j].target as int]
                == handle2;
        assert(handle1 != h && handle2 != h);
        assert(!e[j].touches(index));
        assert(rest.contains(e[j]));
        let m = choose|m: int| 0 <= m < rest.len() && rest[m] == e[j];
        let last = n.len() - 1;
        assert(e2[m] == rest[m].renamed(last, index));
        assert(e2[m].weight == weight);
        assert(n2[e2[m].source as int] == handle1);
        assert(n2[e2[m].target as int] == handle2);
    }
}

impl<S, T, CD: ContactDispatcher<S>, PD: ProximityDispatcher<S>, F> CollisionWorld<S, T, CD, PD, F> {
    /// What `remove` does to a world: the nodes of the objects leave the
    /// graph one after the other, each with its edges, then their proxies
    /// leave the broad phase with their reported pairs, and the objects
    /// leave the slab. The events and the contact identifiers stay.
    pub open spec fn removed(&self, after: &Self, handles: Seq<CollisionObjectHandle>) -> bool {
        let (objects, nodes, edges) = detached_all(
            self.slab()@,
            self.graph().nodes(),
            self.graph().edges(),
            handles,
            handles.len() as int,
        );
        let proxies = Seq::new(handles.len(), |i: int| self.slab()@[handles[i]].proxy_handle);
        &&& after.slab()@ == objects_without(objects, handles)
        &&& after.graph().nodes() == nodes
        &&& after.graph().edges() == edges
        &&& after.broad().slots() == crate::broad_phase::slots_without(self.broad().slots(), proxies)
        &&& after.broad().reported() == crate::broad_phase::surviving(
            after.broad().slots(),
            self.broad().reported(),
        )
        &&& after.broad().margin() == self.broad().margin()
        &&& after.broad().recompute_all() == self.broad().recompute_all()
        &&& after.same_narrow(self)
        &&& after.filters() == self.filters()
        &&& after.now() == self.now()
    }

    /// Removes objects from the world.
    ///
    /// The handles must be those of objects of the world, each named once.
    /// No event is raised, and the events of the last step stay. No edge of
    /// the graph ends at an object that left.
    pub fn remove(&mut self, handles: &[CollisionObjectHandle])
        requires
            old(self).wf(),
            forall|i: int| 0 <= i < handles@.len() ==> old(self).slab().has(#[trigger] handles@[i]),
            forall|i: int, j: int| 0 <= i < j < handles@.len() ==> handles@[i] != handles@[j],
        ensures
            final(self).wf(),
            old(self).removed(final(self), handles@),
            forall|i: int| 0 <= i < handles@.len() ==> !final(self).slab().has(#[trigger] handles@[i]),
            forall|h: CollisionObjectHandle|
                final(self).slab().has(h) ==> old(self).slab().has(h) && (#[trigger] final(self).slab()@[h]) == (CollisionObject {
                    graph_index: final(self).slab()@[h].graph_index,
                    ..old(self).slab()@[h]
                }),
    {
        let ghost objects0 = self.slab()@;
        let ghost nodes0 = self.graph().nodes();
        let ghost edges0 = self.graph().edges();
        let ghost proxies = self.broad().proxies();
        let mut proxy_handles: Vec<BroadPhaseProxyHandle> = Vec::new();
        let mut k: usize = 0;
        proof {
            assert forall|h: CollisionObjectHandle| objects0.dom().contains(h) implies {
                let co = #[trigger] objects0[h];
                &&& co.handle == h
                &&& proxies.dom().contains(co.proxy_handle)
                &&& proxies[co.proxy_handle].data == h
                &&& co.graph_index.0 < nodes0.len() && nodes0[co.graph_index.0 as int] == h
            } by {
                assert(object_linked(objects0, nodes0, proxies, h));
            }
            assert(handles@.take(0) =~= Seq::<CollisionObjectHandle>::empty());
        }
        while k < handles.len()
            invariant
                k <= handles@.len(),
                forall|i: int| 0 <= i < handles@.len() ==> objects0.dom().contains(#[trigger] handles@[i]),
                forall|i: int, j: int| 0 <= i < j < handles@.len() ==> handles@[i] != handles@[j],
                objects0 == old(self).slab()@,
                nodes0 == old(self).graph().nodes(),
                edges0 == old(self).graph().edges(),
                proxies == old(self).broad().proxies(),
                self.slab().wf(),
                self.graph().wf(),
                self.broad() == old(self).broad(),
                self.narrow() == old(self).narrow(),
                self.filters() == old(self).filters(),
                self.now() == old(self).now(),
                old(self).wf(),
                self.slab()@.dom() == objects0.dom(),
                (self.slab()@, self.graph().nodes(), self.graph().edges()) == detached_all(
                    objects0,
                    nodes0,
                    edges0,
                    handles@,
                    k as int,
                ),
                linked_but(self.slab()@, self.graph().nodes(), proxies, handles@.take(k as int)),
                contact_ids_live(self.narrow().ids(), self.graph().edges()),
                forall|h: CollisionObjectHandle|
                    objects0.dom().contains(h) ==> (#[trigger] self.slab()@[h]) == (CollisionObject {
                        graph_index: self.slab()@[h].graph_index,
                        ..objects0[h]
                    }),
                proxy_handles@.len() == k,
                forall|i: int|
                    0 <= i < k ==> #[trigger] proxy_handles@[i] == objects0[handles@[i]].proxy_handle,
            decreases handles@.len() - k,
        {
            let handle = handles[k];
            let ghost objects = self.slab()@;
            let ghost nodes = self.graph().nodes();
            let ghost gone = handles@.take(k as int);
            proof {
                assert(objects0.dom().contains(handles@[k as int]));
                if gone.contains(handle) {
                    let w = choose|w: int| 0 <= w < gone.len() && gone[w] == handle;
                    assert(handles@[w] == handles@[k as int]);
                }
                lemma_detach_step(objects, nodes, proxies, gone, handle);
                assert(handles@.take(k + 1) =~= gone.push(handle));
            }
            let co = self.objects.object(handle);
            let graph_index = co.graph_index();
            proxy_handles.push(co.proxy_handle());
            let moved = self.narrow_phase.handle_collision_object_removed(
                &mut self.interactions,
                co,
            );
            match moved {
                Some(handle2) => {
                    let other = self.objects.get_mut(handle2);
                    other.set_graph_index(graph_index);
                },
                None => {},
            }
            proof {
                assert(self.slab()@ =~= detached_objects(objects, nodes, handle));
            }
            k += 1;
        }
        proof {
            assert(handles@.take(k as int) =~= handles@);
        }
        let ghost objects1 = self.slab()@;
        let ghost nodes1 = self.graph().nodes();
        self.broad_phase.remove(proxy_handles.as_slice());
        let mut j: usize = 0;
        proof {
            assert(self.slab()@ =~= objects_without(objects1, handles@.take(0)));
        }
        while j < handles.len()
            invariant
                j <= handles@.len(),
                forall|i: int| 0 <= i < handles@.len() ==> objects0.dom().contains(#[trigger] handles@[i]),
                objects1.dom() == objects0.dom(),
                self.slab().wf(),
                self.slab()@ == objects_without(objects1, handles@.take(j as int)),
                self.graph().nodes() == nodes1,
                self.graph().edges() == detached_all(
                    objects0,
                    nodes0,
                    edges0,
                    handles@,
                    handles@.len() as int,
                ).2,
                self.graph().wf(),
                self.narrow() == old(self).narrow(),
                self.filters() == old(self).filters(),
                self.now() == old(self).now(),
                self.broad().wf(),
                self.broad().slots() == crate::broad_phase::slots_without(
                    old(self).broad().slots(),
                    proxy_handles@,
                ),
                self.broad().reported() == crate::broad_phase::surviving(
                    self.broad().slots(),
                    old(self).broad().reported(),
                ),
                self.broad().margin() == old(self).broad().margin(),
                self.broad().recompute_all() == old(self).broad().recompute_all(),
                contact_ids_live(self.narrow().ids(), self.graph().edges()),
            decreases handles@.len() - j,
        {
            let _ = self.objects.remove(handles[j]);
            proof {
                let named = handles@.take(j as int);
                let more = handles@.take(j + 1);
                assert(more =~= named.push(handles@[j as int]));
                assert forall|h: CollisionObjectHandle|
                    more.contains(h) == (named.contains(h) || h == handles@[j as int]) by {
                    if more.contains(h) {
                        let w = choose|w: int| 0 <= w < more.len() && more[w] == h;
                        if w < j {
                            assert(named[w] == h);
                        }
                    }
                    if named.contains(h) {
                        let w = choose|w: int| 0 <= w < named.len() && named[w] == h;
                        assert(more[w] == h);
                    }
                    if h == handles@[j as int] {
                        assert(more[j as int] == h);
                    }
                }
                assert(self.slab()@ =~= objects_without(objects1, more));
            }
            j += 1;
        }
        proof {
            assert(handles@.take(j as int) =~= handles@);
            let wanted = Seq::new(
                handles@.len(),
                |i: int| old(self).slab()@[handles@[i]].proxy_handle,
            );
            assert(proxy_handles@ =~= wanted);
            let objects = self.slab()@;
            let nodes = self.graph().nodes();
            let after = self.broad().proxies();
            assert forall|p: BroadPhaseProxyHandle| after.dom().contains(p) implies proxies.dom().contains(
                p,
            ) && after[p] == proxies[p] && !proxy_handles@.contains(p) by {
                assert(live(self.broad().slots(), p.0 as int));
            }
            assert forall|h: CollisionObjectHandle| objects.dom().contains(h) implies #[trigger] object_linked(
                objects,
                nodes,
                after,
                h,
            ) by {
                let co = objects1[h];
                assert(objects[h] == co);
                assert(co.handle == h);
                let p = co.proxy_handle;
                if proxy_handles@.contains(p) {
                    let w = choose|w: int| 0 <= w < proxy_handles@.len() && proxy_handles@[w] == p;
                    assert(objects1[handles@[w]] == (CollisionObject {
                        graph_index: objects1[handles@[w]].graph_index,
                        ..objects0[handles@[w]]
                    }));
                    assert(objects1[handles@[w]].handle == handles@[w]);
                    assert(proxies[p].data == handles@[w]);
                    assert(handles@.contains(h));
                }
                assert(live(self.broad().slots(), p.0 as int));
            }
            assert forall|i: int| 0 <= i < nodes.len() implies objects.dom().contains(
                #[trigger] nodes[i],
            ) && objects[nodes[i]].graph_index.0 == i by {
                assert(objects1.dom().contains(nodes[i]));
            }
            assert forall|p: BroadPhaseProxyHandle| after.dom().contains(p) implies objects.dom().contains(
                (#[trigger] after[p]).data,
            ) && objects[after[p].data].proxy_handle == p by {
                let h = proxies[p].data;
                assert(objects1.dom().contains(proxies[p].data));
                if handles@.contains(h) {
                    let w = choose|w: int| 0 <= w < handles@.len() && handles@[w] == h;
                    assert(objects1[handles@[w]] == (CollisionObject {
                        graph_index: objects1[handles@[w]].graph_index,
                        ..objects0[handles@[w]]
                    }));
                    assert(proxy_handles@[w] == p);
                }
            }
            assert forall|h: CollisionObjectHandle| self.slab().has(h) implies (
            #[trigger] self.slab()@[h]).timestamp <= self.now() by {
                assert(objects1[h] == (CollisionObject {
                    graph_index: objects1[h].graph_index,
                    ..objects0[h]
                }));
                assert(old(self).slab()@[h].timestamp <= old(self).now());
            }
            assert forall|h: CollisionObjectHandle| self.slab().has(h) implies old(self).slab().has(h)
                && (#[trigger] self.slab()@[h]) == (CollisionObject {
                graph_index: self.slab()@[h].graph_index,
                ..old(self).slab()@[h]
            }) by {
                assert(objects1[h] == (CollisionObject {
                    graph_index: objects1[h].graph_index,
                    ..objects0[h]
                }));
            }
            assert(old(self).removed(self, handles@));
            old(self).lemma_removed_edges_reported(*self, handles@);
            old(self).lemma_removed_edges_kept(*self, handles@);
        }
    }
}

impl<S, T, CD: ContactDispatcher<S>, PD: ProximityDispatcher<S>, F: BroadPhasePairFilter<S, T>> CollisionWorld<
    S,
    T,
    CD,
    PD,
    F,
> {
    /// What `perform_broad_phase` does to a world.
    ///
    /// The broad phase is updated as `DBVTBroadPhase::update` says. Objects,
    /// nodes, filters, contact identifiers and the number of the step stay.
    /// The events that are added are `Stopped` events and proximity events to
    /// `Disjoint`. No edge joins a pair that the broad phase signals as
    /// ceased; an edge joins a pair that it signals as begun where one did
    /// or where the dispatcher has a detector for the pair; every edge is one
    /// that the graph had or one made for a pair that began, without contact
    /// or with the proximity that its detector begins with: see
    /// `signals_handled` and, for the order of the edges, `handled_edges`.
    /// Where the broad phase had nothing to do, or the world has at most one
    /// object, the graph and the events stay too.
    pub open spec fn pairs_handled(&self, after: &Self) -> bool {
        &&& after.slab() == self.slab()
        &&& after.filters() == self.filters()
        &&& after.filter_set() == self.filter_set()
        &&& after.now() == self.now()
        &&& after.graph().nodes() == self.graph().nodes()
        &&& after.narrow().ids() == self.narrow().ids()
        &&& after.narrow().contact_dispatcher() == self.narrow().contact_dispatcher()
        &&& after.narrow().proximity_dispatcher() == self.narrow().proximity_dispatcher()
        &&& after.narrow().id_limit() == self.narrow().id_limit()
        &&& after.broad().quiet()
        &&& after.broad().margin() == self.broad().margin()
        &&& after.broad().slots() == crate::broad_phase::settled_slots(
            self.broad().slots(),
            self.broad().margin(),
        )
        &&& after.broad().reported() == crate::broad_phase::updated_pairs(
            self.broad(),
            self.handler(),
        )
        &&& after.broad().tree() == crate::broad_phase::flushed_tree(
            self.broad().tree(),
            self.broad().slots(),
            self.broad().margin(),
            self.broad().slots().len() as int,
        )
        &&& crate::broad_phase::pairs_match(
            crate::broad_phase::flushed_slots(self.broad().slots(), self.broad().margin()),
            self.broad().recompute_all(),
            self.handler(),
            self.broad().reported(),
            after.broad().reported(),
        )
        &&& crate::broad_phase::signals_match(
            crate::broad_phase::flushed_slots(self.broad().slots(), self.broad().margin()),
            self.broad().recompute_all(),
            self.handler(),
            self.broad().reported(),
            crate::broad_phase::update_signals(self.broad(), self.handler()),
        )
        &&& edges_alike(
            after.graph().edges(),
            handled_edges(
                self.narrow().contact_dispatcher(),
                self.narrow().proximity_dispatcher(),
                self.slab()@,
                crate::broad_phase::update_signals(self.broad(), self.handler()),
                self.graph().edges(),
                crate::broad_phase::update_signals(self.broad(), self.handler()).len() as int,
            ),
        )
        &&& after.narrow().contact_log() == self.narrow().contact_log() + ceased_contact_events(
            self.slab()@,
            crate::broad_phase::update_signals(self.broad(), self.handler()),
            self.graph().edges(),
            crate::broad_phase::update_signals(self.broad(), self.handler()).len() as int,
        )
        &&& after.narrow().proximity_log() == self.narrow().proximity_log()
            + ceased_proximity_events(
            self.slab()@,
            crate::broad_phase::update_signals(self.broad(), self.handler()),
            self.graph().edges(),
            crate::broad_phase::update_signals(self.broad(), self.handler()).len() as int,
        )
        &&& self.narrow().contact_log().is_prefix_of(after.narrow().contact_log())
        &&& self.narrow().proximity_log().is_prefix_of(after.narrow().proximity_log())
        &&& only_stops(after.narrow().contact_log(), self.narrow().contact_log().len() as int)
        &&& only_parts(after.narrow().proximity_log(), self.narrow().proximity_log().len() as int)
        &&& signals_handled(
            self.narrow().contact_dispatcher(),
            self.narrow().proximity_dispatcher(),
            self.slab()@,
            crate::broad_phase::update_signals(self.broad(), self.handler()),
            crate::broad_phase::update_signals(self.broad(), self.handler()).len() as int,
            self.graph().edges(),
            after.graph().edges(),
        )
        &&& self.broad().quiet() || self.graph().nodes().len() <= 1 ==> after.same_graph(self)
            && after.same_narrow(self)
        &&& self.broad().quiet() ==> after.broad().slots() == self.broad().slots()
            && after.broad().reported() == self.broad().reported() && after.broad().tree()
            == self.broad().tree()
    }

    /// What `clear_events` does to a world: both pools are empty, and
    /// nothing else changes.
    pub open spec fn events_cleared(&self, after: &Self) -> bool {
        &&& after.slab() == self.slab()
        &&& after.broad() == self.broad()
        &&& after.graph() == self.graph()
        &&& after.filters() == self.filters()
        &&& after.filter_set() == self.filter_set()
        &&& after.now() == self.now()
        &&& after.narrow().contact_log() == Seq::<ContactEvent>::empty()
        &&& after.narrow().proximity_log() == Seq::<ProximityEvent>::empty()
        &&& after.narrow().ids() == self.narrow().ids()
        &&& after.narrow().contact_dispatcher() == self.narrow().contact_dispatcher()
        &&& after.narrow().proximity_dispatcher() == self.narrow().proximity_dispatcher()
        &&& after.narrow().id_limit() == self.narrow().id_limit()
    }

    /// What `update` does to a world, by way of the world `cleared` with the
    /// event pools emptied and the world `sorted` with the pairs of the broad
    /// phase handled: see `events_cleared`, `pairs_handled` and `stepped`.
    pub open spec fn updated(
        &self,
        cleared: Self,
        sorted: Self,
        after: &Self,
        r: Result<(), CollisionError>,
    ) -> bool {
        &&& self.events_cleared(&cleared)
        &&& cleared.wf()
        &&& cleared.pairs_handled(&sorted)
        &&& sorted.wf()
        &&& sorted.stepped(after, r)
        &&& after.slab() == sorted.slab()
        &&& after.broad() == sorted.broad()
        &&& after.filters() == sorted.filters()
        &&& after.filter_set() == sorted.filter_set()
        &&& after.now() == (if r is Ok {
            sorted.now() + 1
        } else {
            sorted.now() as int
        })
    }

    /// A step goes one way on a world: two outcomes of `update` on one world
    /// have the same result and hold the same events in the same order.
    pub proof fn lemma_update_events_determined(
        &self,
        cleared1: Self,
        sorted1: Self,
        after1: &Self,
        r1: Result<(), CollisionError>,
        cleared2: Self,
        sorted2: Self,
        after2: &Self,
        r2: Result<(), CollisionError>,
    )
        requires
            self.wf(),
            self.updated(cleared1, sorted1, after1, r1),
            self.updated(cleared2, sorted2, after2, r2),
        ensures
            r1 == r2,
            after1.narrow().contact_log() == after2.narrow().contact_log(),
            after1.narrow().proximity_log() == after2.narrow().proximity_log(),
    {
        assert(cleared1.handler() == cleared2.handler());
        let signals = crate::broad_phase::update_signals(cleared1.broad(), cleared1.handler());
        assert(signals == crate::broad_phase::update_signals(cleared2.broad(), cleared2.handler()));
        assert(sorted1.narrow().contact_log() == sorted2.narrow().contact_log());
        assert(sorted1.narrow().proximity_log() == sorted2.narrow().proximity_log());
        let model = handled_edges(
            self.narrow().contact_dispatcher(),
            self.narrow().proximity_dispatcher(),
            self.slab()@,
            signals,
            self.graph().edges(),
            signals.len() as int,
        );
        lemma_alike_through(sorted1.graph().edges(), sorted2.graph().edges(), model);
        let before = sorted1.graph().edges();
        let held = sorted1.narrow().ids().dom().len();
        let limit = sorted1.narrow().id_limit() as nat;
        assert(sorted2.narrow().ids() == sorted1.narrow().ids());
        crate::narrow_phase::lemma_step_outcome_alike(
            sorted1.narrow().contact_dispatcher(),
            sorted1.slab()@,
            sorted1.graph().nodes(),
            before,
            sorted2.graph().edges(),
            sorted1.now(),
            before.len() as int,
            held,
            limit,
        );
        let reach = crate::narrow_phase::step_reach(
            sorted1.narrow().contact_dispatcher(),
            sorted1.slab()@,
            sorted1.graph().nodes(),
            before,
            sorted1.now(),
            before.len() as int,
            held,
            limit,
        );
        crate::narrow_phase::lemma_step_events_determined(
            sorted1.narrow().contact_dispatcher(),
            sorted1.narrow().proximity_dispatcher(),
            sorted1.slab()@,
            sorted1.graph().nodes(),
            before,
            sorted2.graph().edges(),
            after1.graph().edges(),
            after2.graph().edges(),
            sorted1.now(),
            reach,
            reach,
        );
    }

    /// Where objects left a settled world, the step that follows succeeds
    /// and drops from the pool the identifiers that no contact between the
    /// objects that stay has: the pool becomes smaller by their number.
    pub proof fn lemma_removed_contribution(
        &self,
        left: &Self,
        handles: Seq<CollisionObjectHandle>,
        cleared: Self,
        sorted: Self,
        after: &Self,
        r: Result<(), CollisionError>,
    )
        requires
            self.wf(),
            self.settled(),
            forall|i: int| 0 <= i < handles.len() ==> self.slab().has(#[trigger] handles[i]),
            forall|i: int, j: int| 0 <= i < j < handles.len() ==> handles[i] != handles[j],
            self.removed(left, handles),
            left.wf(),
            left.updated(cleared, sorted, after, r),
        ensures
            r is Ok,
            after.graph().nodes() == left.graph().nodes(),
            after.graph().edges() == left.graph().edges(),
            after.narrow().ids() == collected(self.narrow().ids(), left.graph().edges()),
            after.narrow().ids().dom().len() + crate::narrow_phase::dropped(
                self.narrow().ids(),
                left.graph().edges(),
            ).len() == self.narrow().ids().dom().len(),
    {
        self.graph().lemma_node_count();
        assert forall|h: CollisionObjectHandle| self.slab()@.dom().contains(h) implies {
            let co = #[trigger] self.slab()@[h];
            &&& co.handle == h
            &&& self.broad().proxies().dom().contains(co.proxy_handle)
            &&& self.broad().proxies()[co.proxy_handle].data == h
            &&& co.graph_index.0 < self.graph().nodes().len() && self.graph().nodes()[co.graph_index.0 as int]
                == h
        } by {
            assert(object_linked(self.slab()@, self.graph().nodes(), self.broad().proxies(), h));
        }
        lemma_detached_linked(
            self.slab()@,
            self.graph().nodes(),
            self.graph().edges(),
            self.broad().proxies(),
            handles,
            handles.len() as int,
        );
        let slots = left.broad().slots();
        assert forall|i: int| live(slots, i) implies (#[trigger] slots[i])->0.quiet() by {
            assert(live(self.broad().slots(), i));
        }
        assert(left.broad().quiet());
        assert(cleared.broad().quiet());
        assert(sorted.same_graph(&cleared));
        let objects = sorted.slab()@;
        let nodes = sorted.graph().nodes();
        let before = sorted.graph().edges();
        assert forall|k: int| 0 <= k < before.len() implies !touched(
            objects,
            nodes,
            #[trigger] before[k],
            sorted.now(),
        ) by {
            assert(before[k].source < nodes.len());
            assert(before[k].target < nodes.len());
            let h1 = nodes[before[k].source as int];
            let h2 = nodes[before[k].target as int];
            assert(objects.dom().contains(h1));
            assert(objects.dom().contains(h2));
            assert(self.slab().has(h1) && self.slab()@[h1].timestamp == objects[h1].timestamp);
            assert(self.slab().has(h2) && self.slab()@[h2].timestamp == objects[h2].timestamp);
        }
        assert(after.graph().edges() =~= before);
        self.narrow().lemma_pool_finite();
        crate::narrow_phase::lemma_collected_count(self.narrow().ids(), left.graph().edges());
    }

    /// Where one object left a settled world in which any two contacts had
    /// different identifiers, the step that follows makes the pool smaller
    /// by the number of contacts on the edges of that object.
    pub proof fn lemma_removed_contacts_counted(
        &self,
        left: &Self,
        handle: CollisionObjectHandle,
        cleared: Self,
        sorted: Self,
        after: &Self,
        r: Result<(), CollisionError>,
    )
        requires
            self.wf(),
            self.settled(),
            crate::narrow_phase::ids_distinct(self.graph().edges()),
            self.slab().has(handle),
            self.removed(left, seq![handle]),
            left.wf(),
            left.updated(cleared, sorted, after, r),
        ensures
            r is Ok,
            after.narrow().ids().dom().len() + crate::narrow_phase::contacts_at(
                self.graph().edges(),
                self.slab()@[handle].graph_index.0 as int,
                self.graph().edges().len() as int,
            ) == self.narrow().ids().dom().len(),
    {
        let handles = seq![handle];
        let ids = self.narrow().ids();
        let edges = self.graph().edges();
        let nodes = self.graph().nodes();
        let node = self.slab()@[handle].graph_index.0 as int;
        self.lemma_removed_contribution(left, handles, cleared, sorted, after, r);
        self.narrow().lemma_pool_finite();
        assert(detached_all(self.slab()@, nodes, edges, handles, 0) == (self.slab()@, nodes, edges));
        assert(left.graph().edges() == crate::interaction_graph::edges_after_removal(
            edges,
            nodes.len() as int,
            node,
        ));
        assert forall|bits: u64| ids.dom().contains(bits) <==> id_in_use(edges, bits) by {
            if id_in_use(edges, bits) {
                let (e, c) = choose|e: int, c: int|
                    0 <= e < edges.len() && 0 <= c < edges[e].weight.contacts().len() && (
                    #[trigger] edges[e].weight.contacts()[c]).id.bits == bits;
                assert(crate::narrow_phase::manifold_ids_live(ids, edges[e].weight.contacts()));
                assert(!edges[e].weight.contacts()[c].id.null());
            }
        }
        crate::narrow_phase::lemma_removed_count(ids, edges, nodes.len() as int, node);
    }

    /// A pair that begins is reported after the step of the broad phase, and
    /// an edge joins its two objects where the dispatcher has a detector for
    /// them. A pair begins where the step looks at it again, it was not
    /// reported, the groups and the filters allow it, and the loosened boxes
    /// of its two proxies share a point, be it only a point of their faces.
    pub proof fn lemma_pair_begins(&self, after: &Self, pair: (usize, usize))
        requires
            self.wf(),
            self.pairs_handled(after),
            crate::broad_phase::begins(
                crate::broad_phase::flushed_slots(self.broad().slots(), self.broad().margin()),
                self.broad().recompute_all(),
                self.handler(),
                self.broad().reported(),
                pair,
            ),
        ensures
            after.broad().reported().contains(pair),
            ({
                let slots = crate::broad_phase::flushed_slots(
                    self.broad().slots(),
                    self.broad().margin(),
                );
                let signal = crate::broad_phase::signal_of(slots, pair, true);
                let (lo, hi) = sorted_pair(signal.data1, signal.data2);
                has_detector(
                    self.narrow().contact_dispatcher(),
                    self.narrow().proximity_dispatcher(),
                    self.slab()@[lo],
                    self.slab()@[hi],
                ) ==> edges_join(
                    after.graph().edges(),
                    signal_nodes(self.slab()@, signal).0,
                    signal_nodes(self.slab()@, signal).1,
                )
            }),
    {
        let slots = crate::broad_phase::flushed_slots(self.broad().slots(), self.broad().margin());
        let signals = crate::broad_phase::update_signals(self.broad(), self.handler());
        let signal = crate::broad_phase::signal_of(slots, pair, true);
        assert(signals.contains(signal));
        let k = choose|k: int| 0 <= k < signals.len() && signals[k] == signal;
        assert(signals[k].started);
    }

    /// Where a registered filter rejects every pair and the broad phase
    /// looks at every pair again, as it does once a filter was registered,
    /// its step leaves the graph without an edge.
    pub proof fn lemma_rejecting_filter(&self, after: &Self, place: int)
        requires
            self.wf(),
            after.wf(),
            self.pairs_handled(after),
            self.broad().recompute_all(),
            0 <= place < self.filters().len(),
            forall|co1: CollisionObject<S, T>, co2: CollisionObject<S, T>|
                !#[trigger] self.filters()[place].1.pair_valid(co1, co2),
        ensures
            after.graph().edges().len() == 0,
    {
        assert forall|h1: CollisionObjectHandle, h2: CollisionObjectHandle|
            !#[trigger] interference_allowed(self.filters(), self.slab()@, h1, h2) by {
            assert(!self.filters()[place].1.pair_valid(self.slab()@[h1], self.slab()@[h2]));
        }
        self.lemma_no_pair_allowed(after);
    }

    /// Where the broad phase looks at every pair again and the groups and
    /// filters allow no pair, its step leaves the graph without an edge.
    pub proof fn lemma_no_pair_allowed(&self, after: &Self)
        requires
            self.wf(),
            after.wf(),
            self.pairs_handled(after),
            self.broad().recompute_all(),
            forall|h1: CollisionObjectHandle, h2: CollisionObjectHandle|
                !#[trigger] interference_allowed(self.filters(), self.slab()@, h1, h2),
        ensures
            after.broad().reported().len() == 0,
            after.graph().edges().len() == 0,
    {
        let slots = crate::broad_phase::flushed_slots(self.broad().slots(), self.broad().margin());
        let last = after.broad().reported();
        if last.len() > 0 {
            let p = last[0];
            assert(last.contains(p));
            assert(!self.handler().allows(slots[p.0 as int]->0.data, slots[p.1 as int]->0.data));
            assert(crate::broad_phase::stale(slots, true, p));
            assert(false);
        }
        let edges = after.graph().edges();
        if edges.len() > 0 {
            assert(last.contains(edge_pair(after.slab()@, after.graph().nodes(), edges[0])));
            assert(false);
        }
    }

    /// Runs the broad phase, and tells the narrow phase of each pair that
    /// began or ceased to overlap, in the order of the signals: see
    /// `DBVTBroadPhase::update` and `NarrowPhase::handle_interaction`.
    ///
    /// The pairs are filtered by the collision groups and by the registered
    /// filters. The events of the pairs that ceased are added to the pools
    /// (`ceased_contact_events`, `ceased_proximity_events`), and no object
    /// changes. Afterwards every edge joins a pair that the broad phase
    /// reports.
    #[verifier::rlimit(100)]
    pub fn perform_broad_phase(&mut self)
        requires
            old(self).wf(),
        ensures
            final(self).wf(),
            old(self).pairs_handled(final(self)),
    {
        let _ = self.broad_phase.capacity();
        proof {
            let proxies = self.broad().proxies();
            assert forall|i: int| live(self.broad().slots(), i) implies self.handler().knows(
                (#[trigger] self.broad().slots()[i])->0.data,
            ) by {
                let p = BroadPhaseProxyHandle(i as usize);
                assert(proxies.dom().contains(p));
                assert(self.slab()@.dom().contains(proxies[p].data));
            }
        }
        let handler = CollisionWorldInterferenceHandler {
            objects: &self.objects,
            pair_filters: &self.pair_filters,
        };
        let signals = self.broad_phase.update(&handler);
        let ghost objects = self.slab()@;
        let ghost nodes = self.graph().nodes();
        let ghost slots = self.broad().slots();
        proof {
            let before = old(self).broad().proxies();
            let after = self.broad().proxies();
            assert forall|p: BroadPhaseProxyHandle| after.dom().contains(p) implies before.dom().contains(
                p,
            ) && (#[trigger] after[p]).data == before[p].data by {
                assert(live(old(self).broad().slots(), p.0 as int));
            }
            assert forall|h: CollisionObjectHandle| objects.dom().contains(h) implies #[trigger] object_linked(
                objects,
                nodes,
                after,
                h,
            ) by {
                assert(object_linked(objects, nodes, before, h));
                let p = objects[h].proxy_handle;
                assert(live(old(self).broad().slots(), p.0 as int));
                assert(live(slots, p.0 as int));
            }
            assert(signals_linked(objects, nodes, signals@)) by {
                assert forall|j: int| 0 <= j < signals@.len() implies {
                    let s = #[trigger] signals@[j];
                    &&& s.data1 != s.data2
                    &&& objects.dom().contains(s.data1)
                    &&& objects.dom().contains(s.data2)
                    &&& objects[s.data1].proxy_handle == s.proxy1
                    &&& objects[s.data2].proxy_handle == s.proxy2
                    &&& objects[s.data1].graph_index.0 < nodes.len()
                    &&& objects[s.data2].graph_index.0 < nodes.len()
                    &&& nodes[objects[s.data1].graph_index.0 as int] == s.data1
                    &&& nodes[objects[s.data2].graph_index.0 as int] == s.data2
                    &&& s.proxy1.0 < s.proxy2.0
                } by {
                    let s = signals@[j];
                    assert(signal_ok(slots, s));
                    assert(after.dom().contains(s.proxy1));
                    assert(after.dom().contains(s.proxy2));
                    assert(after[s.proxy1].data == s.data1);
                    assert(after[s.proxy2].data == s.data2);
                    assert(object_linked(objects, nodes, after, s.data1));
                    assert(object_linked(objects, nodes, after, s.data2));
                }
            }
            assert(pairs_distinct(objects, signals@)) by {
                assert forall|j: int, k: int| 0 <= j < k < signals@.len() implies !same_nodes(
                    signal_nodes(objects, #[trigger] signals@[j]),
                    signal_nodes(objects, #[trigger] signals@[k]),
                ) by {
                    assert(crate::broad_phase::pair_of(signals@[j]) != crate::broad_phase::pair_of(
                        signals@[k],
                    ));
                }
            }
            if nodes.len() <= 1 && signals@.len() > 0 {
                let s = signals@[0];
                assert(signal_ok(slots, s));
                assert(after.dom().contains(s.proxy1));
                assert(after.dom().contains(s.proxy2));
                assert(objects.dom().contains(after[s.proxy1].data));
                assert(objects.dom().contains(after[s.proxy2].data));
                assert(object_linked(objects, nodes, after, after[s.proxy1].data));
                assert(object_linked(objects, nodes, after, after[s.proxy2].data));
                assert(false);
            }
        }
        proof {
            lemma_alike_itself(self.graph().edges());
            assert(self.narrow().contact_log() =~= old(self).narrow().contact_log()
                + ceased_contact_events(objects, signals@, old(self).graph().edges(), 0));
            assert(self.narrow().proximity_log() =~= old(self).narrow().proximity_log()
                + ceased_proximity_events(objects, signals@, old(self).graph().edges(), 0));
        }
        let mut k: usize = 0;
        while k < signals.len()
            invariant
                k <= signals@.len(),
                self.slab() == old(self).slab(),
                self.filters() == old(self).filters(),
                self.filter_set() == old(self).filter_set(),
                self.now() == old(self).now(),
                self.broad().wf(),
                self.broad().slots() == slots,
                self.broad().quiet(),
                self.broad().margin() == old(self).broad().margin(),
                self.broad().reported() == crate::broad_phase::updated_pairs(
                    old(self).broad(),
                    old(self).handler(),
                ),
                self.broad().tree() == crate::broad_phase::flushed_tree(
                    old(self).broad().tree(),
                    old(self).broad().slots(),
                    old(self).broad().margin(),
                    old(self).broad().slots().len() as int,
                ),
                old(self).broad().quiet() ==> self.broad().slots() == old(self).broad().slots()
                    && self.broad().reported() == old(self).broad().reported()
                    && self.broad().tree() == old(self).broad().tree(),
                objects == self.slab()@,
                nodes == self.graph().nodes(),
                nodes == old(self).graph().nodes(),
                self.slab().wf(),
                self.narrow().wf(),
                self.graph().wf(),
                linked(objects, nodes, self.broad().proxies()),
                contact_ids_live(self.narrow().ids(), self.graph().edges()),
                forall|i: int| 0 <= i < signals@.len() ==> signal_ok(slots, #[trigger] signals@[i]),
                self.narrow().ids() == old(self).narrow().ids(),
                self.narrow().contact_dispatcher() == old(self).narrow().contact_dispatcher(),
                self.narrow().proximity_dispatcher() == old(self).narrow().proximity_dispatcher(),
                self.narrow().id_limit() == old(self).narrow().id_limit(),
                old(self).narrow().contact_log().is_prefix_of(self.narrow().contact_log()),
                old(self).narrow().proximity_log().is_prefix_of(self.narrow().proximity_log()),
                only_stops(self.narrow().contact_log(), old(self).narrow().contact_log().len() as int),
                only_parts(
                    self.narrow().proximity_log(),
                    old(self).narrow().proximity_log().len() as int,
                ),
                edges_kept::<S, CD::Algorithm, PD>(self.graph().edges()),
                edges_alike(
                    self.graph().edges(),
                    handled_edges(
                        old(self).narrow().contact_dispatcher(),
                        old(self).narrow().proximity_dispatcher(),
                        objects,
                        signals@,
                        old(self).graph().edges(),
                        k as int,
                    ),
                ),
                self.narrow().contact_log() == old(self).narrow().contact_log()
                    + ceased_contact_events(objects, signals@, old(self).graph().edges(), k as int),
                self.narrow().proximity_log() == old(self).narrow().proximity_log()
                    + ceased_proximity_events(objects, signals@, old(self).graph().edges(), k as int),
                pairs_distinct(objects, signals@),
                signals_linked(objects, nodes, signals@),
                crate::broad_phase::signals_match(
                    crate::broad_phase::flushed_slots(
                        old(self).broad().slots(),
                        old(self).broad().margin(),
                    ),
                    old(self).broad().recompute_all(),
                    old(self).handler(),
                    old(self).broad().reported(),
                    signals@,
                ),
                crate::broad_phase::pairs_match(
                    crate::broad_phase::flushed_slots(
                        old(self).broad().slots(),
                        old(self).broad().margin(),
                    ),
                    old(self).broad().recompute_all(),
                    old(self).handler(),
                    old(self).broad().reported(),
                    self.broad().reported(),
                ),
                old(self).wf(),
                signals@ == crate::broad_phase::update_signals(old(self).broad(), old(self).handler()),
                signals_handled(
                    old(self).narrow().contact_dispatcher(),
                    old(self).narrow().proximity_dispatcher(),
                    objects,
                    signals@,
                    k as int,
                    old(self).graph().edges(),
                    self.graph().edges(),
                ),
                signals@.len() == 0 ==> self.same_graph(old(self)) && self.same_narrow(old(self)),
            decreases signals@.len() - k,
        {
            let signal = signals[k];
            let ghost contact_log = self.narrow().contact_log();
            let ghost proximity_log = self.narrow().proximity_log();
            let ghost edges = self.graph().edges();
            proof {
                let proxies = self.broad().proxies();
                assert(signal_ok(slots, signals@[k as int]));
                assert(proxies.dom().contains(signal.proxy1));
                assert(proxies.dom().contains(signal.proxy2));
                assert(proxies[signal.proxy1].data == signal.data1);
                assert(proxies[signal.proxy2].data == signal.data2);
                assert(object_linked(objects, nodes, proxies, signal.data1));
                assert(object_linked(objects, nodes, proxies, signal.data2));
            }
            self.narrow_phase.handle_interaction(
                &mut self.interactions,
                &self.objects,
                signal.data1,
                signal.data2,
                signal.started,
            );
            proof {
                let (lo, hi) = crate::narrow_phase::sorted_pair(signal.data1, signal.data2);
                let id1 = objects[lo].graph_index.0;
                let id2 = objects[hi].graph_index.0;
                let after = self.graph().edges();
                let first = old(self).graph().edges();
                if !signal.started && (exists|i: int|
                    0 <= i < edges.len() && (#[trigger] edges[i]).joins(id1 as int, id2 as int)) {
                    let i = choose|i: int|
                        0 <= i < edges.len() && (#[trigger] edges[i]).joins(id1 as int, id2 as int);
                    assert(contact_log.is_prefix_of(self.narrow().contact_log()));
                    assert(proximity_log.is_prefix_of(self.narrow().proximity_log()));
                } else {
                    assert(self.narrow().contact_log() == contact_log);
                    assert(self.narrow().proximity_log() == proximity_log);
                }
                let cd = old(self).narrow().contact_dispatcher();
                let pd = old(self).narrow().proximity_dispatcher();
                let a = id1 as int;
                let b = id2 as int;
                assert(signal_nodes(objects, signals@[k as int]) == (a, b));
                assert(a != b);
                // The edges as the signal left them.
                lemma_handled_signal(
                    cd,
                    pd,
                    objects,
                    nodes.len() as int,
                    signals@[k as int],
                    edges,
                    after,
                    handled_edges(cd, pd, objects, signals@, first, k as int),
                );
                // The events that the signal raised.
                lemma_ceased_signal(cd, pd, objects, nodes.len() as int, signals@, first, edges, k as int);
                let raised = ceased_contact_events(objects, signals@, first, k as int);
                let parted = ceased_proximity_events(objects, signals@, first, k as int);
                if !signal.started && edges_join(edges, a, b) {
                    let i = choose|i: int|
                        0 <= i < edges.len() && (#[trigger] edges[i]).joins(a, b);
                    let stop = crate::narrow_phase::contact_transition(
                        edges[i].weight.contacts().len() > 0,
                        false,
                        objects[lo].handle,
                        objects[hi].handle,
                    );
                    let part = crate::narrow_phase::stop_proximity_events(
                        edges[i].weight,
                        objects[lo].handle,
                        objects[hi].handle,
                    );
                    assert(self.narrow().contact_log() == contact_log + stop);
                    assert(self.narrow().proximity_log() == proximity_log + part);
                    assert(self.narrow().contact_log() =~= old(self).narrow().contact_log() + (raised
                        + stop));
                    assert(self.narrow().proximity_log() =~= old(self).narrow().proximity_log() + (
                    parted + part));
                } else {
                    assert(self.narrow().contact_log() =~= old(self).narrow().contact_log() + (raised
                        + Seq::<ContactEvent>::empty()));
                    assert(self.narrow().proximity_log() =~= old(self).narrow().proximity_log() + (
                    parted + Seq::<ProximityEvent>::empty()));
                }
                let joined = edges_join(edges, a, b);
                let owed = has_detector(cd, pd, objects[lo], objects[hi]);
                // How the edges changed.
                assert(after == edges || (exists|i: int|
                    0 <= i < edges.len() && (#[trigger] edges[i]).joins(a, b) && after
                        == edges.remove(i)) || (after.len() == edges.len() + 1 && after.drop_last()
                    == edges && after.last().joins(a, b))) by {
                    if !signal.started && joined {
                        let i = choose|i: int|
                            0 <= i < edges.len() && (#[trigger] edges[i]).joins(a, b);
                        assert(after == edges.remove(i));
                    }
                }
                assert forall|j: int| 0 <= j < signals@.len() implies edges_join(
                    after,
                    signal_nodes(objects, #[trigger] signals@[j]).0,
                    signal_nodes(objects, signals@[j]).1,
                ) == edge_owed(
                    cd,
                    pd,
                    objects,
                    signals@[j],
                    j < k + 1,
                    edges_join(
                        first,
                        signal_nodes(objects, signals@[j]).0,
                        signal_nodes(objects, signals@[j]).1,
                    ),
                ) by {
                    let n = signal_nodes(objects, signals@[j]);
                    if j != k {
                        if j < k {
                            assert(!same_nodes(n, (a, b)));
                        } else {
                            assert(!same_nodes((a, b), n));
                        }
                        lemma_other_pair(edges, after, a, b, n.0, n.1);
                    } else if !signal.started {
                        if joined {
                            let i = choose|i: int|
                                0 <= i < edges.len() && (#[trigger] edges[i]).joins(a, b);
                            assert(after == edges.remove(i));
                            if edges_join(after, a, b) {
                                let m = choose|m: int|
                                    0 <= m < after.len() && (#[trigger] after[m]).joins(a, b);
                                let m0 = if m < i {
                                    m
                                } else {
                                    m + 1
                                };
                                assert(after[m] == edges[m0]);
                                if m0 < i {
                                    assert(!edges[i].joins(
                                        edges[m0].source as int,
                                        edges[m0].target as int,
                                    ));
                                } else {
                                    assert(!edges[m0].joins(
                                        edges[i].source as int,
                                        edges[i].target as int,
                                    ));
                                }
                            }
                        }
                    } else {
                        if !joined && owed {
                            assert(after[after.len() - 1].joins(a, b));
                        }
                    }
                }
                assert forall|e: int| 0 <= e < after.len() implies first.contains(
                    #[trigger] after[e],
                ) || begun_edge(cd, pd, objects, signals@, k + 1, after[e]) by {
                    if after == edges {
                        if begun_edge(cd, pd, objects, signals@, k as int, edges[e]) {
                            let w = choose|w: int|
                                0 <= w < k && (#[trigger] signals@[w]).started && edges[e].source
                                    == signal_nodes(objects, signals@[w]).0 && edges[e].target
                                    == signal_nodes(objects, signals@[w]).1 && begins_with(
                                    cd,
                                    pd,
                                    objects[sorted_pair(signals@[w].data1, signals@[w].data2).0],
                                    objects[sorted_pair(signals@[w].data1, signals@[w].data2).1],
                                    edges[e].weight,
                                );
                            assert(signals@[w].started);
                        }
                    } else if after.len() == edges.len() + 1 {
                        if e < edges.len() {
                            assert(after.drop_last()[e] == edges[e]);
                            if begun_edge(cd, pd, objects, signals@, k as int, edges[e]) {
                                let w = choose|w: int|
                                    0 <= w < k && (#[trigger] signals@[w]).started
                                        && edges[e].source == signal_nodes(objects, signals@[w]).0
                                        && edges[e].target == signal_nodes(objects, signals@[w]).1
                                        && begins_with(
                                        cd,
                                        pd,
                                        objects[sorted_pair(signals@[w].data1, signals@[w].data2).0],
                                        objects[sorted_pair(signals@[w].data1, signals@[w].data2).1],
                                        edges[e].weight,
                                    );
                                assert(signals@[w].started);
                            }
                        } else {
                            assert(signals@[k as int].started);
                        }
                    } else {
                        let i = choose|i: int|
                            0 <= i < edges.len() && (#[trigger] edges[i]).joins(a, b) && after
                                == edges.remove(i);
                        let e0 = if e < i {
                            e
                        } else {
                            e + 1
                        };
                        assert(after[e] == edges[e0]);
                        if begun_edge(cd, pd, objects, signals@, k as int, edges[e0]) {
                            let w = choose|w: int|
                                0 <= w < k && (#[trigger] signals@[w]).started && edges[e0].source
                                    == signal_nodes(objects, signals@[w]).0 && edges[e0].target
                                    == signal_nodes(objects, signals@[w]).1 && begins_with(
                                    cd,
                                    pd,
                                    objects[sorted_pair(signals@[w].data1, signals@[w].data2).0],
                                    objects[sorted_pair(signals@[w].data1, signals@[w].data2).1],
                                    edges[e0].weight,
                                );
                            assert(signals@[w].started);
                        }
                    }
                }
            }
            k += 1;
        }
        proof {
            old(self).graph().lemma_node_count();
            lemma_handled_edges_reported(
                old(self).narrow().contact_dispatcher(),
                old(self).narrow().proximity_dispatcher(),
                objects,
                nodes,
                self.broad().proxies(),
                crate::broad_phase::flushed_slots(
                    old(self).broad().slots(),
                    old(self).broad().margin(),
                ),
                old(self).broad().recompute_all(),
                old(self).handler(),
                signals@,
                old(self).graph().edges(),
                self.graph().edges(),
                old(self).broad().reported(),
                self.broad().reported(),
            );
        }
    }

    /// Runs the narrow phase on the pairs of the graph of which an object
    /// changed since the last step, and drops the contact identifiers that no
    /// contact has: see `NarrowPhase::update`. Then the number of the step
    /// goes up by one. Where the narrow phase fails, the number stays and
    /// the identifiers without a contact stay in the pool.
    pub fn perform_narrow_phase(&mut self) -> (r: Result<(), CollisionError>)
        requires
            old(self).wf(),
            old(self).now() < usize::MAX,
        ensures
            final(self).wf(),
            final(self).slab() == old(self).slab(),
            final(self).broad() == old(self).broad(),
            final(self).filters() == old(self).filters(),
            final(self).filter_set() == old(self).filter_set(),
            final(self).now() == (if r is Ok {
                old(self).now() + 1
            } else {
                old(self).now() as int
            }),
            old(self).stepped(final(self), r),
    {
        proof {
            assert forall|i: int| 0 <= i < self.graph().nodes().len() implies self.slab()@.dom().contains(
                #[trigger] self.graph().nodes()[i],
            ) by {}
        }
        let r = self.narrow_phase.update(&mut self.interactions, &self.objects, self.timestamp);
        if r.is_ok() {
            self.timestamp = self.timestamp + 1;
        }
        proof {
            assert forall|h: CollisionObjectHandle| self.slab().has(h) implies (
            #[trigger] self.slab()@[h]).timestamp <= self.now() by {
                assert(old(self).slab()@[h].timestamp <= old(self).now());
            }
            let before = old(self).graph().edges();
            assert forall|e: int| 0 <= e < self.graph().edges().len() implies self.broad().reported().contains(
                edge_pair(self.slab()@, self.graph().nodes(), #[trigger] self.graph().edges()[e]),
            ) by {
                assert(same_edge(before[e], self.graph().edges()[e]));
                assert(edge_pair(self.slab()@, self.graph().nodes(), self.graph().edges()[e])
                    == edge_pair(self.slab()@, self.graph().nodes(), before[e]));
            }
        }
        r
    }

    /// What the narrow phase does to the graph, the events and the contact
    /// identifiers in a step.
    pub open spec fn stepped(&self, after: &Self, r: Result<(), CollisionError>) -> bool {
        let before = self.graph().edges();
        let edges = after.graph().edges();
        let nodes = self.graph().nodes();
        let quiet = forall|k: int|
            0 <= k < before.len() ==> !touched(self.slab()@, nodes, #[trigger] before[k], self.now());
        &&& after.graph().nodes() == nodes
        &&& edges.len() == before.len()
        &&& after.narrow().contact_dispatcher() == self.narrow().contact_dispatcher()
        &&& after.narrow().proximity_dispatcher() == self.narrow().proximity_dispatcher()
        &&& after.narrow().id_limit() == self.narrow().id_limit()
        &&& forall|k: int| 0 <= k < before.len() ==> same_edge(#[trigger] before[k], edges[k])
        &&& forall|k: int|
            0 <= k < before.len() && !touched(self.slab()@, nodes, #[trigger] before[k], self.now())
                ==> edges[k] == before[k]
        &&& self.narrow().contact_log().is_prefix_of(after.narrow().contact_log())
        &&& self.narrow().proximity_log().is_prefix_of(after.narrow().proximity_log())
        &&& (forall|k: int|
            0 <= k < before.len() && touched(self.slab()@, nodes, #[trigger] before[k], self.now())
                ==> crate::narrow_phase::compatible(self.slab()@, nodes, before[k])) ==> r
            != Err::<(), CollisionError>(CollisionError::IncompatibleQueryTypes)
        &&& (forall|k: int|
            0 <= k < before.len() && touched(self.slab()@, nodes, #[trigger] before[k], self.now())
                ==> before[k].weight is Proximity) ==> r is Ok
        &&& r == crate::narrow_phase::step_result(
            crate::narrow_phase::step_outcome(
                self.narrow().contact_dispatcher(),
                self.slab()@,
                nodes,
                before,
                self.now(),
                before.len() as int,
                self.narrow().ids().dom().len(),
                self.narrow().id_limit() as nat,
            ),
        )
        &&& crate::narrow_phase::step_went(
            self.narrow().contact_dispatcher(),
            self.narrow().proximity_dispatcher(),
            self.slab()@,
            nodes,
            before,
            edges,
            self.now(),
            crate::narrow_phase::step_reach(
                self.narrow().contact_dispatcher(),
                self.slab()@,
                nodes,
                before,
                self.now(),
                before.len() as int,
                self.narrow().ids().dom().len(),
                self.narrow().id_limit() as nat,
            ),
        )
        &&& after.narrow().contact_log() == self.narrow().contact_log() + step_contact_events(
            self.slab()@,
            nodes,
            before,
            edges,
            self.now(),
            crate::narrow_phase::step_reach(
                self.narrow().contact_dispatcher(),
                self.slab()@,
                nodes,
                before,
                self.now(),
                before.len() as int,
                self.narrow().ids().dom().len(),
                self.narrow().id_limit() as nat,
            ),
        )
        &&& after.narrow().proximity_log() == self.narrow().proximity_log() + step_proximity_events(
            self.slab()@,
            nodes,
            before,
            edges,
            self.now(),
            crate::narrow_phase::step_reach(
                self.narrow().contact_dispatcher(),
                self.slab()@,
                nodes,
                before,
                self.now(),
                before.len() as int,
                self.narrow().ids().dom().len(),
                self.narrow().id_limit() as nat,
            ),
        )
        &&& r is Err ==> after.narrow().ids().dom().len() == crate::narrow_phase::step_outcome(
            self.narrow().contact_dispatcher(),
            self.slab()@,
            nodes,
            before,
            self.now(),
            before.len() as int,
            self.narrow().ids().dom().len(),
            self.narrow().id_limit() as nat,
        ).1
        &&& crate::narrow_phase::fails_incompatible(self.slab()@, nodes, before, self.now()) ==> r
            == Err::<(), CollisionError>(CollisionError::IncompatibleQueryTypes)
        &&& crate::narrow_phase::all_compatible(self.slab()@, nodes, before, self.now())
            && self.narrow().ids().dom().len() + crate::narrow_phase::step_points(
            self.narrow().contact_dispatcher(),
            self.slab()@,
            nodes,
            before,
            self.now(),
            before.len() as int,
        ) <= self.narrow().id_limit() ==> r is Ok
        &&& r is Ok ==> {
            &&& forall|k: int|
                0 <= k < before.len() && touched(self.slab()@, nodes, #[trigger] before[k], self.now())
                    ==> edges[k].weight == crate::narrow_phase::proximity_updated(
                    self.narrow().proximity_dispatcher(),
                    self.slab()@[nodes[before[k].source as int]],
                    self.slab()@[nodes[before[k].target as int]],
                    before[k].weight,
                ) || before[k].weight is Contact
            &&& forall|k: int|
                0 <= k < before.len() && touched(self.slab()@, nodes, #[trigger] before[k], self.now())
                    ==> crate::narrow_phase::contact_found(
                    self.narrow().contact_dispatcher(),
                    self.slab()@[nodes[before[k].source as int]],
                    self.slab()@[nodes[before[k].target as int]],
                    before[k].weight,
                    edges[k].weight,
                )
            &&& forall|k: int|
                0 <= k < before.len() && touched(self.slab()@, nodes, #[trigger] before[k], self.now())
                    ==> crate::narrow_phase::compatible(self.slab()@, nodes, before[k])
            &&& forall|bits: u64| #[trigger]
                after.narrow().ids().dom().contains(bits) ==> id_in_use(edges, bits)
            &&& after.narrow().contact_log() == self.narrow().contact_log() + step_contact_events(
                self.slab()@,
                nodes,
                before,
                edges,
                self.now(),
                before.len() as int,
            )
            &&& after.narrow().proximity_log() == self.narrow().proximity_log()
                + step_proximity_events(
                self.slab()@,
                nodes,
                before,
                edges,
                self.now(),
                before.len() as int,
            )
        }
        &&& quiet ==> r is Ok && after.narrow().ids() == collected(self.narrow().ids(), before)
    }

    /// The narrow phase goes one way on a world: two outcomes of its step on
    /// one world have the same result and hold the same events in the same
    /// order.
    pub proof fn lemma_events_determined(
        &self,
        first: &Self,
        r1: Result<(), CollisionError>,
        second: &Self,
        r2: Result<(), CollisionError>,
    )
        requires
            self.wf(),
            self.stepped(first, r1),
            self.stepped(second, r2),
        ensures
            r1 == r2,
            first.narrow().contact_log() == second.narrow().contact_log(),
            first.narrow().proximity_log() == second.narrow().proximity_log(),
    {
        let before = self.graph().edges();
        let reach = crate::narrow_phase::step_reach(
            self.narrow().contact_dispatcher(),
            self.slab()@,
            self.graph().nodes(),
            before,
            self.now(),
            before.len() as int,
            self.narrow().ids().dom().len(),
            self.narrow().id_limit() as nat,
        );
        lemma_alike_itself(before);
        crate::narrow_phase::lemma_step_events_determined(
            self.narrow().contact_dispatcher(),
            self.narrow().proximity_dispatcher(),
            self.slab()@,
            self.graph().nodes(),
            before,
            before,
            first.graph().edges(),
            second.graph().edges(),
            self.now(),
            reach,
            reach,
        );
    }

    /// Runs a step: empties the event pools, then runs the broad phase, then
    /// the narrow phase.
    ///
    /// No object changes. Where the step succeeds, the world is settled: a
    /// step that follows at once raises no event and changes nothing but the
    /// number of the step. A world with at most one object raises no event.
    pub fn update(&mut self) -> (r: Result<(), CollisionError>)
        requires
            old(self).wf(),
            old(self).now() < usize::MAX,
        ensures
            final(self).wf(),
            final(self).slab() == old(self).slab(),
            final(self).filters() == old(self).filters(),
            final(self).filter_set() == old(self).filter_set(),
            final(self).graph().nodes() == old(self).graph().nodes(),
            final(self).broad().quiet(),
            final(self).broad().slots() == crate::broad_phase::settled_slots(
                old(self).broad().slots(),
                old(self).broad().margin(),
            ),
            final(self).broad().reported() == crate::broad_phase::updated_pairs(
                old(self).broad(),
                old(self).handler(),
            ),
            final(self).now() == (if r is Ok {
                old(self).now() + 1
            } else {
                old(self).now() as int
            }),
            exists|cleared: Self, sorted: Self| #[trigger]
                old(self).updated(cleared, sorted, final(self), r),
            r is Ok ==> final(self).settled(),
            old(self).settled() || old(self).graph().nodes().len() <= 1 ==> r is Ok && final(self).narrow().contact_log().len() == 0 && final(self).narrow().proximity_log().len() == 0
                && final(self).same_graph(old(self)),
            old(self).settled() ==> final(self).narrow().ids() == old(self).narrow().ids() && final(self).broad().slots() == old(self).broad().slots() && final(self).broad().reported() == old(self).broad().reported(),
    {
        self.clear_events();
        let ghost cleared = *self;
        self.perform_broad_phase();
        let ghost sorted = *self;
        let r = self.perform_narrow_phase();
        proof {
            assert(old(self).updated(cleared, sorted, self, r));
            let objects = self.slab()@;
            let nodes = sorted.graph().nodes();
            let before = sorted.graph().edges();
            let after = self.graph().edges();
            if r is Ok {
                assert forall|h: CollisionObjectHandle| self.slab().has(h) implies (
                #[trigger] self.slab()@[h]).timestamp < self.now() by {
                    assert(sorted.slab()@[h].timestamp <= sorted.now());
                }
            }
            if old(self).settled() || nodes.len() <= 1 {
                assert(sorted.graph().edges() == old(self).graph().edges());
                assert forall|k: int| 0 <= k < before.len() implies !touched(
                    objects,
                    nodes,
                    #[trigger] before[k],
                    sorted.now(),
                ) by {
                    assert(before[k].source < nodes.len());
                    assert(before[k].source != before[k].target);
                    if old(self).settled() {
                        assert(objects.dom().contains(nodes[before[k].source as int]));
                        assert(objects.dom().contains(nodes[before[k].target as int]));
                        assert(old(self).slab()@[nodes[before[k].source as int]].timestamp < old(self).now());
                        assert(old(self).slab()@[nodes[before[k].target as int]].timestamp < old(self).now());
                    }
                }
                crate::narrow_phase::lemma_quiet_step_raises_nothing(
                    objects,
                    nodes,
                    before,
                    after,
                    sorted.now(),
                    before.len() as int,
                );
                assert(after =~= before);
                if old(self).settled() {
                    sorted.narrow().lemma_collect_keeps_used(before);
                }
            }
        }
        r
    }
}

impl<S, T, CD: ContactDispatcher<S>, PD: ProximityDispatcher<S>, F> CollisionWorld<S, T, CD, PD, F> {
    /// Every edge of the graph joins two different objects of the world.
    pub proof fn lemma_edges_join_objects(self)
        requires
            self.wf(),
        ensures
            forall|e: int|
                0 <= e < self.graph().edges().len() ==> {
                    let edge = #[trigger] self.graph().edges()[e];
                    let first = self.graph().nodes()[edge.source as int];
                    let second = self.graph().nodes()[edge.target as int];
                    first != second && self.slab().has(first) && self.slab().has(second)
                },
    {
        let nodes = self.graph().nodes();
        let objects = self.slab()@;
        assert forall|e: int| 0 <= e < self.graph().edges().len() implies {
            let edge = #[trigger] self.graph().edges()[e];
            let first = nodes[edge.source as int];
            let second = nodes[edge.target as int];
            first != second && self.slab().has(first) && self.slab().has(second)
        } by {
            let edge = self.graph().edges()[e];
            assert(edge.source < nodes.len() && edge.target < nodes.len());
            assert(objects[nodes[edge.source as int]].graph_index.0 == edge.source);
            assert(objects[nodes[edge.target as int]].graph_index.0 == edge.target);
        }
    }

    /// The identifier of every contact of the graph is null or held by the
    /// pool.
    pub proof fn lemma_contact_ids_are_live(self)
        requires
            self.wf(),
        ensures
            forall|e: int, c: int|
                0 <= e < self.graph().edges().len() && 0 <= c
                    < self.graph().edges()[e].weight.contacts().len() ==> {
                    let id = (#[trigger] self.graph().edges()[e].weight.contacts()[c]).id;
                    id.null() || self.narrow().ids().dom().contains(id.bits)
                },
    {
        assert forall|e: int, c: int|
            0 <= e < self.graph().edges().len() && 0 <= c
                < self.graph().edges()[e].weight.contacts().len() implies {
            let id = (#[trigger] self.graph().edges()[e].weight.contacts()[c]).id;
            id.null() || self.narrow().ids().dom().contains(id.bits)
        } by {
            assert(crate::narrow_phase::manifold_ids_live(
                self.narrow().ids(),
                self.graph().edges()[e].weight.contacts(),
            ));
        }
    }

    /// After objects were removed, no edge of the graph ends at one of them,
    /// and the events and the contact identifiers are as they were.
    pub proof fn lemma_removed_objects_have_no_edge(
        self,
        after: Self,
        handles: Seq<CollisionObjectHandle>,
    )
        requires
            self.wf(),
            after.wf(),
            self.removed(&after, handles),
        ensures
            after.same_narrow(&self),
            forall|e: int, i: int|
                0 <= e < after.graph().edges().len() && 0 <= i < handles.len() ==> {
                    let edge = #[trigger] after.graph().edges()[e];
                    after.graph().nodes()[edge.source as int] != #[trigger] handles[i]
                        && after.graph().nodes()[edge.target as int] != handles[i]
                },
    {
        after.lemma_edges_join_objects();
        assert forall|e: int, i: int|
            0 <= e < after.graph().edges().len() && 0 <= i < handles.len() implies {
            let edge = #[trigger] after.graph().edges()[e];
            after.graph().nodes()[edge.source as int] != #[trigger] handles[i]
                && after.graph().nodes()[edge.target as int] != handles[i]
        } by {
            assert(handles.contains(handles[i]));
            assert(!after.slab().has(handles[i]));
        }
    }

    /// After objects were removed, every proximity still keeps beside its
    /// detector what the detector last found.
    pub proof fn lemma_removed_edges_kept(self, after: Self, handles: Seq<CollisionObjectHandle>)
        requires
            self.wf(),
            forall|i: int| 0 <= i < handles.len() ==> self.slab().has(#[trigger] handles[i]),
            forall|i: int, j: int| 0 <= i < j < handles.len() ==> handles[i] != handles[j],
            self.removed(&after, handles),
        ensures
            edges_kept::<S, CD::Algorithm, PD>(after.graph().edges()),
    {
        let objects = self.slab()@;
        let nodes = self.graph().nodes();
        let edges = self.graph().edges();
        let proxies = self.broad().proxies();
        self.graph().lemma_node_count();
        assert forall|h: CollisionObjectHandle| objects.dom().contains(h) implies {
            let co = #[trigger] objects[h];
            &&& co.handle == h
            &&& proxies.dom().contains(co.proxy_handle)
            &&& proxies[co.proxy_handle].data == h
            &&& co.graph_index.0 < nodes.len() && nodes[co.graph_index.0 as int] == h
        } by {
            assert(object_linked(objects, nodes, proxies, h));
        }
        let k = handles.len() as int;
        let (o, n, e) = detached_all(objects, nodes, edges, handles, k);
        assert forall|j: int| 0 <= j < e.len() implies status_kept::<S, CD::Algorithm, PD>(
            (#[trigger] e[j]).weight,
        ) by {
            lemma_detached_edges_are_old(objects, nodes, edges, proxies, handles, k, j);
            let i = choose|i: int|
                0 <= i < edges.len() && (#[trigger] edges[i]).weight == e[j].weight;
            assert(status_kept::<S, CD::Algorithm, PD>(edges[i].weight));
        }
    }

    /// After objects were removed, every edge joins two objects whose pair
    /// the broad phase still reports.
    pub proof fn lemma_removed_edges_reported(
        self,
        after: Self,
        handles: Seq<CollisionObjectHandle>,
    )
        requires
            self.wf(),
            forall|i: int| 0 <= i < handles.len() ==> self.slab().has(#[trigger] handles[i]),
            forall|i: int, j: int| 0 <= i < j < handles.len() ==> handles[i] != handles[j],
            self.removed(&after, handles),
        ensures
            edges_reported(
                after.slab()@,
                after.graph().nodes(),
                after.graph().edges(),
                after.broad().reported(),
            ),
    {
        let objects = self.slab()@;
        let nodes = self.graph().nodes();
        let edges = self.graph().edges();
        let proxies = self.broad().proxies();
        let slots = self.broad().slots();
        let reported = self.broad().reported();
        self.graph().lemma_node_count();
        assert forall|h: CollisionObjectHandle| objects.dom().contains(h) implies {
            let co = #[trigger] objects[h];
            &&& co.handle == h
            &&& proxies.dom().contains(co.proxy_handle)
            &&& proxies[co.proxy_handle].data == h
            &&& co.graph_index.0 < nodes.len() && nodes[co.graph_index.0 as int] == h
        } by {
            assert(object_linked(objects, nodes, proxies, h));
        }
        let k = handles.len() as int;
        assert(handles.take(k) =~= handles);
        lemma_detached_linked(objects, nodes, edges, proxies, handles, k);
        let (o, n, e) = detached_all(objects, nodes, edges, handles, k);
        let gone = Seq::new(handles.len(), |i: int| objects[handles[i]].proxy_handle);
        let slots2 = after.broad().slots();
        crate::broad_phase::lemma_surviving(slots2, reported);
        assert forall|j: int| 0 <= j < e.len() implies after.broad().reported().contains(
            edge_pair(after.slab()@, n, #[trigger] e[j]),
        ) by {
            lemma_detached_edges_are_old(objects, nodes, edges, proxies, handles, k, j);
            let h1 = n[e[j].source as int];
            let h2 = n[e[j].target as int];
            assert(!handles.contains(h1) && !handles.contains(h2));
            assert(o.dom().contains(h1) && o.dom().contains(h2));
            assert(after.slab()@[h1] == o[h1] && after.slab()@[h2] == o[h2]);
            assert(o[h1].proxy_handle == objects[h1].proxy_handle);
            assert(o[h2].proxy_handle == objects[h2].proxy_handle);
            let i = choose|i: int|
                0 <= i < edges.len() && (#[trigger] edges[i]).weight == e[j].weight
                    && edges[i].source < nodes.len() && edges[i].target < nodes.len()
                    && nodes[edges[i].source as int] == h1 && nodes[edges[i].target as int] == h2;
            let p = edge_pair(objects, nodes, edges[i]);
            assert(reported.contains(p));
            assert(edge_pair(after.slab()@, n, e[j]) == p);
            let w = choose|w: int| 0 <= w < reported.len() && reported[w] == p;
            assert(crate::broad_phase::pair_ok(slots, reported[w]));
            let p1 = objects[h1].proxy_handle;
            let p2 = objects[h2].proxy_handle;
            assert(live(slots, p1.0 as int) && live(slots, p2.0 as int));
            assert(!gone.contains(p1)) by {
                if gone.contains(p1) {
                    let x = choose|x: int| 0 <= x < gone.len() && gone[x] == p1;
                    assert(proxies[p1].data == h1);
                    assert(proxies[objects[handles[x]].proxy_handle].data == handles[x]);
                    assert(handles[x] == h1);
                }
            }
            assert(!gone.contains(p2)) by {
                if gone.contains(p2) {
                    let x = choose|x: int| 0 <= x < gone.len() && gone[x] == p2;
                    assert(proxies[p2].data == h2);
                    assert(proxies[objects[handles[x]].proxy_handle].data == handles[x]);
                    assert(handles[x] == h2);
                }
            }
            assert(live(slots2, p1.0 as int) && live(slots2, p2.0 as int));
            assert(crate::broad_phase::pair_ok(slots2, reported[w]));
        }
    }

    /// After objects were removed, every edge between two objects that stay
    /// is still there, with its interaction.
    pub proof fn lemma_survivors_keep_edges(self, after: Self, handles: Seq<CollisionObjectHandle>)
        requires
            self.wf(),
            forall|i: int| 0 <= i < handles.len() ==> self.slab().has(#[trigger] handles[i]),
            forall|i: int, j: int| 0 <= i < j < handles.len() ==> handles[i] != handles[j],
            self.removed(&after, handles),
        ensures
            forall|e: int|
                0 <= e < self.graph().edges().len() && !handles.contains(
                    self.graph().nodes()[(#[trigger] self.graph().edges()[e]).source as int],
                ) && !handles.contains(self.graph().nodes()[self.graph().edges()[e].target as int])
                    ==> edge_between(
                    after.graph().nodes(),
                    after.graph().edges(),
                    self.graph().nodes()[self.graph().edges()[e].source as int],
                    self.graph().nodes()[self.graph().edges()[e].target as int],
                    self.graph().edges()[e].weight,
                ),
    {
        let objects = self.slab()@;
        let nodes = self.graph().nodes();
        let edges = self.graph().edges();
        let proxies = self.broad().proxies();
        self.graph().lemma_node_count();
        assert forall|h: CollisionObjectHandle| objects.dom().contains(h) implies {
            let co = #[trigger] objects[h];
            &&& co.handle == h
            &&& proxies.dom().contains(co.proxy_handle)
            &&& proxies[co.proxy_handle].data == h
            &&& co.graph_index.0 < nodes.len() && nodes[co.graph_index.0 as int] == h
        } by {
            assert(object_linked(objects, nodes, proxies, h));
        }
        assert(handles.take(handles.len() as int) =~= handles);
        assert forall|e: int|
            0 <= e < edges.len() && !handles.contains(nodes[(#[trigger] edges[e]).source as int])
                && !handles.contains(nodes[edges[e].target as int]) implies edge_between(
            after.graph().nodes(),
            after.graph().edges(),
            nodes[edges[e].source as int],
            nodes[edges[e].target as int],
            edges[e].weight,
        ) by {
            assert(edge_between(
                nodes,
                edges,
                nodes[edges[e].source as int],
                nodes[edges[e].target as int],
                edges[e].weight,
            ));
            lemma_detached_keeps_edge(
                objects,
                nodes,
                edges,
                proxies,
                handles,
                handles.len() as int,
                nodes[edges[e].source as int],
                nodes[edges[e].target as int],
                edges[e].weight,
            );
        }
    }

    /// Moving an object and moving it back leaves the object where it was,
    /// and the graph, the events and the contact identifiers as they were.
    pub proof fn lemma_move_and_back(
        self,
        moved: Self,
        back: Self,
        handle: CollisionObjectHandle,
        there: Isometry,
    ) where S: Shape
        requires
            self.wf(),
            self.slab().has(handle),
            ({
                let co = CollisionObject { position: there, ..self.slab()@[handle] };
                self.changed(
                    &moved,
                    handle,
                    CollisionObject { timestamp: self.now(), ..co },
                    Self::proxy_box(co, there),
                    false,
                )
            }),
            ({
                let co = CollisionObject {
                    position: self.slab()@[handle].position,
                    ..moved.slab()@[handle]
                };
                moved.changed(
                    &back,
                    handle,
                    CollisionObject { timestamp: moved.now(), ..co },
                    Self::proxy_box(co, co.position),
                    false,
                )
            }),
        ensures
            back.same_graph(&self),
            back.same_narrow(&self),
            back.slab()@ == self.slab()@.insert(
                handle,
                CollisionObject { timestamp: self.now(), ..self.slab()@[handle] },
            ),
    {
        assert(back.slab()@ =~= self.slab()@.insert(
            handle,
            CollisionObject { timestamp: self.now(), ..self.slab()@[handle] },
        ));
    }

    /// Adding an object and removing it at once leaves the world as it was.
    pub proof fn lemma_add_then_remove(
        self,
        added: Self,
        removed: Self,
        handle: CollisionObjectHandle,
        position: Isometry,
        shape: S,
        collision_groups: CollisionGroups,
        query_type: GeometricQueryType,
        data: T,
    ) where S: Shape
        requires
            self.wf(),
            added.wf(),
            self.added(&added, handle, position, shape, collision_groups, query_type, data),
            added.removed(&removed, seq![handle]),
        ensures
            removed.same_state(&self),
            removed.now() == self.now(),
    {
        let handles = seq![handle];
        let objects0 = self.slab()@;
        let nodes0 = self.graph().nodes();
        let edges0 = self.graph().edges();
        let objects1 = added.slab()@;
        let nodes1 = added.graph().nodes();
        let co = objects1[handle];
        let index = nodes0.len() as int;
        assert(detached_all(objects1, nodes1, edges0, handles, 0) == (objects1, nodes1, edges0));
        assert(handles[0] == handle);
        let (o, n, e) = detached_all(objects1, nodes1, edges0, handles, 1);
        assert(nodes1[index] == handle);
        assert(objects1[nodes1[index]].graph_index.0 == index);
        assert(o == objects1);
        assert(n =~= nodes0);
        crate::interaction_graph::lemma_untouched_node_leaves(edges0, index);
        assert(e == edges0);
        assert forall|h: CollisionObjectHandle| handles.contains(h) == (h == handle) by {
            if h == handle {
                assert(handles[0] == h);
            }
        }
        assert(removed.slab()@ =~= objects0);
        let p = co.proxy_handle;
        let gone = Seq::new(handles.len(), |i: int| objects1[handles[i]].proxy_handle);
        assert forall|q: BroadPhaseProxyHandle| gone.contains(q) == (q == p) by {
            if q == p {
                assert(gone[0] == q);
            }
        }
        let slots0 = self.broad().slots();
        let slots1 = added.broad().slots();
        let slots2 = removed.broad().slots();
        assert forall|q: BroadPhaseProxyHandle| q != p implies (live(slots2, q.0 as int) == live(
            slots0,
            q.0 as int,
        )) && (live(slots0, q.0 as int) ==> slots2[q.0 as int] == slots0[q.0 as int]) by {
            assert(added.broad().proxies().dom().contains(q) == self.broad().proxies().dom().contains(
                q,
            ));
            if self.broad().proxies().dom().contains(q) {
                assert(added.broad().proxies()[q] == self.broad().proxies()[q]);
            }
        }
        assert(!live(slots2, p.0 as int));
        assert(!self.broad().proxies().dom().contains(p));
        assert(removed.broad().proxies() =~= self.broad().proxies());
        let reported = self.broad().reported();
        crate::broad_phase::lemma_surviving(slots2, reported);
        assert forall|i: int| 0 <= i < reported.len() implies crate::broad_phase::pair_ok(
            slots2,
            #[trigger] reported[i],
        ) by {
            assert(crate::broad_phase::pair_ok(slots0, reported[i]));
            let a = BroadPhaseProxyHandle(reported[i].0);
            let b = BroadPhaseProxyHandle(reported[i].1);
            assert(self.broad().proxies().dom().contains(a));
            assert(self.broad().proxies().dom().contains(b));
            assert(a != p && b != p);
        }
    }
}


/// The objects of a world that a ray meets, one after the other.
pub struct InterferencesWithRay<'a, 'b, S, T> {
    ray: &'b Ray,
    objects: &'a CollisionObjectSlab<S, T>,
    groups: &'b CollisionGroups,
    handles: Vec<CollisionObjectHandle>,
    position: usize,
}

impl<'a, 'b, S: Shape, T> InterferencesWithRay<'a, 'b, S, T> {
    /// The handles of the objects that are still to be looked at.
    pub closed spec fn remaining(&self) -> Seq<CollisionObjectHandle> {
        self.handles@.skip(self.position as int)
    }

    /// The objects among which the iterator looks.
    pub closed spec fn slab(&self) -> CollisionObjectSlab<S, T> {
        *self.objects
    }

    /// The groups with which an object must be compatible.
    pub closed spec fn groups(&self) -> CollisionGroups {
        *self.groups
    }

    /// What the objects are tested against.
    pub closed spec fn ray(&self) -> Ray {
        *self.ray
    }

    /// Every handle that is still to be looked at is that of an object.
    pub closed spec fn wf(&self) -> bool {
        &&& self.position <= self.handles@.len()
        &&& forall|i: int|
            self.position <= i < self.handles@.len() ==> self.objects.has(#[trigger] self.handles@[i])
    }

    /// Whether the iterator yields the object under `handle`: its
    /// groups are compatible with those of the query, and the ray meets its
    /// shape, taken as solid.
    pub open spec fn yields(&self, handle: CollisionObjectHandle) -> bool {
        let co = self.slab()@[handle];
        co.collision_groups.compatible(self.groups()) && co.shape.ray_hit(co.position, self.ray(), true) is Some
    }

    /// The next object that the iterator yields, if there is one: the first
    /// that is still to be looked at and that `yields` holds of.
    pub fn next(&mut self) -> (r: Option<(&'a CollisionObject<S, T>, RayIntersection)>)
        requires
            old(self).wf(),
        ensures
            final(self).wf(),
            final(self).slab() == old(self).slab(),
            final(self).groups() == old(self).groups(),
            final(self).ray() == old(self).ray(),
            r is None ==> final(self).remaining().len() == 0 && forall|m: int|
                0 <= m < old(self).remaining().len() ==> !old(self).yields(
                    #[trigger] old(self).remaining()[m],
                ),
            r matches Some(item) ==> exists|n: int|
                0 <= n < old(self).remaining().len() && old(self).yields(
                    #[trigger] old(self).remaining()[n],
                ) && (forall|m: int|
                    0 <= m < n ==> !old(self).yields(#[trigger] old(self).remaining()[m]))
                    && final(self).remaining() == old(self).remaining().skip(n + 1) && item.0 == &old(self).slab()@[old(self).remaining()[n]] && Some(item.1) == old(self).slab()@[old(self).remaining()[n]].shape.ray_hit(old(self).slab()@[old(self).remaining()[n]].position, old(self).ray(), true),
    {
        let ghost start = self.position as int;
        while self.position < self.handles.len()
            invariant
                self.wf(),
                start == old(self).position,
                start <= self.position <= self.handles@.len(),
                self.handles == old(self).handles,
                self.objects == old(self).objects,
                self.groups == old(self).groups,
                self.ray == old(self).ray,
                forall|i: int| start <= i < self.position ==> !old(self).yields(#[trigger] self.handles@[i]),
            decreases self.handles@.len() - self.position,
        {
            let handle = self.handles[self.position];
            let co = self.objects.object(handle);
            self.position = self.position + 1;
            if co.collision_groups().can_interact_with_groups(self.groups) {
                match co.shape().toi_and_normal_with_ray(co.position(), self.ray, true) {
                    Some(hit) => {
                proof {
                    let n = self.position - 1 - start;
                    assert(old(self).remaining()[n] == handle);
                    assert forall|m: int| 0 <= m < n implies !old(self).yields(
                        #[trigger] old(self).remaining()[m],
                    ) by {
                        assert(old(self).remaining()[m] == self.handles@[start + m]);
                    }
                    assert(self.remaining() =~= old(self).remaining().skip(n + 1));
                }
                        return Some((co, hit));
                    },
                    None => {},
                }
            }
        }
        proof {
            assert forall|m: int| 0 <= m < old(self).remaining().len() implies !old(self).yields(
                #[trigger] old(self).remaining()[m],
            ) by {
                assert(old(self).remaining()[m] == self.handles@[start + m]);
            }
        }
        None
    }
}

/// The objects of a world that hold a point, one after the other.
pub struct InterferencesWithPoint<'a, 'b, S, T> {
    point: &'b Point,
    objects: &'a CollisionObjectSlab<S, T>,
    groups: &'b CollisionGroups,
    handles: Vec<CollisionObjectHandle>,
    position: usize,
}

impl<'a, 'b, S: Shape, T> InterferencesWithPoint<'a, 'b, S, T> {
    /// The handles of the objects that are still to be looked at.
    pub closed spec fn remaining(&self) -> Seq<CollisionObjectHandle> {
        self.handles@.skip(self.position as int)
    }

    /// The objects among which the iterator looks.
    pub closed spec fn slab(&self) -> CollisionObjectSlab<S, T> {
        *self.objects
    }

    /// The groups with which an object must be compatible.
    pub closed spec fn groups(&self) -> CollisionGroups {
        *self.groups
    }

    /// What the objects are tested against.
    pub closed spec fn point(&self) -> Point {
        *self.point
    }

    /// Every handle that is still to be looked at is that of an object.
    pub closed spec fn wf(&self) -> bool {
        &&& self.position <= self.handles@.len()
        &&& forall|i: int|
            self.position <= i < self.handles@.len() ==> self.objects.has(#[trigger] self.handles@[i])
    }

    /// Whether the iterator yields the object under `handle`: its
    /// groups are compatible with those of the query, and its shape holds
    /// the point.
    pub open spec fn yields(&self, handle: CollisionObjectHandle) -> bool {
        let co = self.slab()@[handle];
        co.collision_groups.compatible(self.groups()) && co.shape.holds_point(co.position, self.point())
    }

    /// The next object that the iterator yields, if there is one: the first
    /// that is still to be looked at and that `yields` holds of.
    pub fn next(&mut self) -> (r: Option<&'a CollisionObject<S, T>>)
        requires
            old(self).wf(),
        ensures
            final(self).wf(),
            final(self).slab() == old(self).slab(),
            final(self).groups() == old(self).groups(),
            final(self).point() == old(self).point(),
            r is None ==> final(self).remaining().len() == 0 && forall|m: int|
                0 <= m < old(self).remaining().len() ==> !old(self).yields(
                    #[trigger] old(self).remaining()[m],
                ),
            r matches Some(item) ==> exists|n: int|
                0 <= n < old(self).remaining().len() && old(self).yields(
                    #[trigger] old(self).remaining()[n],
                ) && (forall|m: int|
                    0 <= m < n ==> !old(self).yields(#[trigger] old(self).remaining()[m]))
                    && final(self).remaining() == old(self).remaining().skip(n + 1) && item == &old(self).slab()@[old(self).remaining()[n]],
    {
        let ghost start = self.position as int;
        while self.position < self.handles.len()
            invariant
                self.wf(),
                start == old(self).position,
                start <= self.position <= self.handles@.len(),
                self.handles == old(self).handles,
                self.objects == old(self).objects,
                self.groups == old(self).groups,
                self.point == old(self).point,
                forall|i: int| start <= i < self.position ==> !old(self).yields(#[trigger] self.handles@[i]),
            decreases self.handles@.len() - self.position,
        {
            let handle = self.handles[self.position];
            let co = self.objects.object(handle);
            self.position = self.position + 1;
            if co.collision_groups().can_interact_with_groups(self.groups) && co.shape().contains_point(
                co.position(),
                self.point,
            ) {
                proof {
                    let n = self.position - 1 - start;
                    assert(old(self).remaining()[n] == handle);
                    assert forall|m: int| 0 <= m < n implies !old(self).yields(
                        #[trigger] old(self).remaining()[m],
                    ) by {
                        assert(old(self).remaining()[m] == self.handles@[start + m]);
                    }
                    assert(self.remaining() =~= old(self).remaining().skip(n + 1));
                }
                return Some(co);
            }
        }
        proof {
            assert forall|m: int| 0 <= m < old(self).remaining().len() implies !old(self).yields(
                #[trigger] old(self).remaining()[m],
            ) by {
                assert(old(self).remaining()[m] == self.handles@[start + m]);
            }
        }
        None
    }
}

/// The objects of a world whose box shares a point with a box, one after the other.
pub struct InterferencesWithAABB<'a, 'b, S, T> {
    
    objects: &'a CollisionObjectSlab<S, T>,
    groups: &'b CollisionGroups,
    handles: Vec<CollisionObjectHandle>,
    position: usize,
}

impl<'a, 'b, S: Shape, T> InterferencesWithAABB<'a, 'b, S, T> {
    /// The handles of the objects that are still to be looked at.
    pub closed spec fn remaining(&self) -> Seq<CollisionObjectHandle> {
        self.handles@.skip(self.position as int)
    }

    /// The objects among which the iterator looks.
    pub closed spec fn slab(&self) -> CollisionObjectSlab<S, T> {
        *self.objects
    }

    /// The groups with which an object must be compatible.
    pub closed spec fn groups(&self) -> CollisionGroups {
        *self.groups
    }

    /// Every handle that is still to be looked at is that of an object.
    pub closed spec fn wf(&self) -> bool {
        &&& self.position <= self.handles@.len()
        &&& forall|i: int|
            self.position <= i < self.handles@.len() ==> self.objects.has(#[trigger] self.handles@[i])
    }

    /// Whether the iterator yields the object under `handle`: its
    /// groups are compatible with those of the query.
    pub open spec fn yields(&self, handle: CollisionObjectHandle) -> bool {
        let co = self.slab()@[handle];
        co.collision_groups.compatible(self.groups())
    }

    /// The next object that the iterator yields, if there is one: the first
    /// that is still to be looked at and that `yields` holds of.
    pub fn next(&mut self) -> (r: Option<&'a CollisionObject<S, T>>)
        requires
            old(self).wf(),
        ensures
            final(self).wf(),
            final(self).slab() == old(self).slab(),
            final(self).groups() == old(self).groups(),
            r is None ==> final(self).remaining().len() == 0 && forall|m: int|
                0 <= m < old(self).remaining().len() ==> !old(self).yields(
                    #[trigger] old(self).remaining()[m],
                ),
            r matches Some(item) ==> exists|n: int|
                0 <= n < old(self).remaining().len() && old(self).yields(
                    #[trigger] old(self).remaining()[n],
                ) && (forall|m: int|
                    0 <= m < n ==> !old(self).yields(#[trigger] old(self).remaining()[m]))
                    && final(self).remaining() == old(self).remaining().skip(n + 1) && item == &old(self).slab()@[old(self).remaining()[n]],
    {
        let ghost start = self.position as int;
        while self.position < self.handles.len()
            invariant
                self.wf(),
                start == old(self).position,
                start <= self.position <= self.handles@.len(),
                self.handles == old(self).handles,
                self.objects == old(self).objects,
                self.groups == old(self).groups,
                forall|i: int| start <= i < self.position ==> !old(self).yields(#[trigger] self.handles@[i]),
            decreases self.handles@.len() - self.position,
        {
            let handle = self.handles[self.position];
            let co = self.objects.object(handle);
            self.position = self.position + 1;
            if co.collision_groups().can_interact_with_groups(self.groups) {
                proof {
                    let n = self.position - 1 - start;
                    assert(old(self).remaining()[n] == handle);
                    assert forall|m: int| 0 <= m < n implies !old(self).yields(
                        #[trigger] old(self).remaining()[m],
                    ) by {
                        assert(old(self).remaining()[m] == self.handles@[start + m]);
                    }
                    assert(self.remaining() =~= old(self).remaining().skip(n + 1));
                }
                return Some(co);
            }
        }
        proof {
            assert forall|m: int| 0 <= m < old(self).remaining().len() implies !old(self).yields(
                #[trigger] old(self).remaining()[m],
            ) by {
                assert(old(self).remaining()[m] == self.handles@[start + m]);
            }
        }
        None
    }
}

impl<S, T, CD: ContactDispatcher<S>, PD: ProximityDispatcher<S>, F> CollisionWorld<S, T, CD, PD, F> {
    /// The objects that a ray meets: those that the broad phase finds for
    /// the ray, whose groups are compatible with `groups` and whose shape the
    /// ray meets, by the places of their proxies.
    pub fn interferences_with_ray<'a, 'b>(&'a self, ray: &'b Ray, groups: &'b CollisionGroups) -> (it: InterferencesWithRay<
        'a,
        'b,
        S,
        T,
    >) where S: Shape
        requires
            self.wf(),
        ensures
            it.wf(),
            it.slab() == self.slab(),
            it.groups() == *groups,
            it.ray() == *ray,
            it.remaining() == self.broad().found(SpatialQuery::Ray(*ray)),
    {
        let mut handles: Vec<CollisionObjectHandle> = Vec::new();
        self.broad_phase.interferences_with_ray(ray, &mut handles);
        proof {
            let slots = self.broad().slots();
            let query = SpatialQuery::Ray(*ray);
            self.broad().lemma_found(query);
            assert(handles@ =~= self.broad().found(query));
            assert forall|i: int| 0 <= i < handles@.len() implies self.slab().has(
                #[trigger] handles@[i],
            ) by {
                assert(crate::broad_phase::object_of_proxy(slots, self.broad().found(query)[i]));
                let w = choose|w: usize|
                    #[trigger] live(slots, w as int) && self.broad().found(query)[i] == slots[w as int]->0.data;
                let p = BroadPhaseProxyHandle(w);
                assert(self.broad().proxies().dom().contains(p));
                assert(self.slab()@.dom().contains(self.broad().proxies()[p].data));
            }
            assert(handles@.skip(0) =~= handles@);
        }
        InterferencesWithRay { ray, objects: &self.objects, groups, handles, position: 0 }
    }

    /// The objects that hold a point: those that the broad phase finds for
    /// the point, whose groups are compatible with `groups` and whose shape
    /// holds the point, by the places of their proxies.
    pub fn interferences_with_point<'a, 'b>(&'a self, point: &'b Point, groups: &'b CollisionGroups) -> (it: InterferencesWithPoint<
        'a,
        'b,
        S,
        T,
    >) where S: Shape
        requires
            self.wf(),
        ensures
            it.wf(),
            it.slab() == self.slab(),
            it.groups() == *groups,
            it.point() == *point,
            it.remaining() == self.broad().found(SpatialQuery::Point(*point)),
    {
        let mut handles: Vec<CollisionObjectHandle> = Vec::new();
        self.broad_phase.interferences_with_point(point, &mut handles);
        proof {
            let slots = self.broad().slots();
            let query = SpatialQuery::Point(*point);
            self.broad().lemma_found(query);
            assert(handles@ =~= self.broad().found(query));
            assert forall|i: int| 0 <= i < handles@.len() implies self.slab().has(
                #[trigger] handles@[i],
            ) by {
                assert(crate::broad_phase::object_of_proxy(slots, self.broad().found(query)[i]));
                let w = choose|w: usize|
                    #[trigger] live(slots, w as int) && self.broad().found(query)[i] == slots[w as int]->0.data;
                let p = BroadPhaseProxyHandle(w);
                assert(self.broad().proxies().dom().contains(p));
                assert(self.slab()@.dom().contains(self.broad().proxies()[p].data));
            }
            assert(handles@.skip(0) =~= handles@);
        }
        InterferencesWithPoint { point, objects: &self.objects, groups, handles, position: 0 }
    }

    /// The objects whose box in the broad phase shares a point with `aabb`
    /// and whose groups are compatible with `groups`, by the places of their
    /// proxies.
    pub fn interferences_with_aabb<'a, 'b>(&'a self, aabb: &'b AABB, groups: &'b CollisionGroups) -> (it: InterferencesWithAABB<
        'a,
        'b,
        S,
        T,
    >) where S: Shape
        requires
            self.wf(),
        ensures
            it.wf(),
            it.slab() == self.slab(),
            it.groups() == *groups,
            it.remaining() == self.broad().found(SpatialQuery::Volume(*aabb)),
    {
        let mut handles: Vec<CollisionObjectHandle> = Vec::new();
        self.broad_phase.interferences_with_bounding_volume(aabb, &mut handles);
        proof {
            let slots = self.broad().slots();
            let query = SpatialQuery::Volume(*aabb);
            self.broad().lemma_found(query);
            assert(handles@ =~= self.broad().found(query));
            assert forall|i: int| 0 <= i < handles@.len() implies self.slab().has(
                #[trigger] handles@[i],
            ) by {
                assert(crate::broad_phase::object_of_proxy(slots, self.broad().found(query)[i]));
                let w = choose|w: usize|
                    #[trigger] live(slots, w as int) && self.broad().found(query)[i] == slots[w as int]->0.data;
                let p = BroadPhaseProxyHandle(w);
                assert(self.broad().proxies().dom().contains(p));
                assert(self.slab()@.dom().contains(self.broad().proxies()[p].data));
            }
            assert(handles@.skip(0) =~= handles@);
        }
        InterferencesWithAABB { objects: &self.objects, groups, handles, position: 0 }
    }

    /// The objects of the world, by rising handle.
    pub fn collision_objects(&self) -> (out: Vec<&CollisionObject<S, T>>)
        ensures
            out@.len() == self.slab().handle_list().len(),
            forall|k: int|
                0 <= k < out@.len() ==> *(#[trigger] out@[k]) == self.slab()@[self.slab().handle_list()[k]],
    {
        self.objects.objects()
    }

    /// All interactions, or those that are effective, each with its two
    /// objects, in the order of the edges.
    pub fn interaction_pairs(&self, effective_only: bool) -> (out: Vec<(
        CollisionObjectHandle,
        CollisionObjectHandle,
        &Interaction<CD::Algorithm, PD::Algorithm>,
    )>)
        requires
            self.wf(),
        ensures
            out@.len() == self.graph().pairs_chosen(InteractionKind::Any, None, effective_only).len(),
            forall|k: int|
                0 <= k < out@.len() ==> {
                    let row = self.graph().pairs_chosen(InteractionKind::Any, None, effective_only)[k];
                    #[trigger] out@[k] == (row.0, row.1, &self.graph().edges()[row.2.0 as int].weight)
                },
    {
        self.interactions.interaction_pairs(effective_only)
    }

    /// All contacts, or those of pairs that touch, each with its two objects,
    /// in the order of the edges.
    pub fn contact_pairs(&self, effective_only: bool) -> (out: Vec<(
        CollisionObjectHandle,
        CollisionObjectHandle,
        &CD::Algorithm,
        &ContactManifold,
    )>)
        requires
            self.wf(),
        ensures
            out@.len() == self.graph().pairs_chosen(InteractionKind::Contact, None, effective_only).len(),
            forall|k: int|
                0 <= k < out@.len() ==> {
                    let row = self.graph().pairs_chosen(InteractionKind::Contact, None, effective_only)[k];
                    #[trigger] out@[k] == (
                        row.0,
                        row.1,
                        &self.graph().edges()[row.2.0 as int].weight->Contact_0,
                        &self.graph().edges()[row.2.0 as int].weight->Contact_1,
                    )
                },
    {
        self.interactions.contact_pairs(effective_only)
    }

    /// All proximities, or those that are not `Disjoint`, each with its two
    /// objects, in the order of the edges.
    pub fn proximity_pairs(&self, effective_only: bool) -> (out: Vec<(
        CollisionObjectHandle,
        CollisionObjectHandle,
        &PD::Algorithm,
        Proximity,
    )>)
        requires
            self.wf(),
        ensures
            out@.len() == self.graph().pairs_chosen(InteractionKind::Proximity, None, effective_only).len(),
            forall|k: int|
                0 <= k < out@.len() ==> {
                    let row = self.graph().pairs_chosen(InteractionKind::Proximity, None, effective_only)[k];
                    #[trigger] out@[k] == (
                        row.0,
                        row.1,
                        &self.graph().edges()[row.2.0 as int].weight->Proximity_0,
                        self.graph().edges()[row.2.0 as int].weight->Proximity_1,
                    )
                },
    {
        self.interactions.proximity_pairs(effective_only)
    }

    /// The interactions of an object, or those that are effective. `None` where no object has the handle.
    pub fn interactions_with(&self, handle: CollisionObjectHandle, effective_only: bool) -> (out: Option<Vec<(
        CollisionObjectHandle,
        CollisionObjectHandle,
        &Interaction<CD::Algorithm, PD::Algorithm>,
    )>>)
        requires
            self.wf(),
        ensures
            out is Some == self.slab().has(handle),
            out matches Some(list) ==> {
                let id = self.slab()@[handle].graph_index.0;
                list@.len() == self.graph().pairs_chosen(InteractionKind::Any, Some(id), effective_only).len()
                    && forall|k: int|
                    0 <= k < list@.len() ==> {
                        let row = self.graph().pairs_chosen(InteractionKind::Any, Some(id), effective_only)[k];
                        #[trigger] list@[k] == (row.0, row.1, &self.graph().edges()[row.2.0 as int].weight)
                    }
            },
    {
        match self.objects.get(handle) {
            Some(co) => Some(self.interactions.interactions_with(co.graph_index(), effective_only)),
            None => None,
        }
    }

    /// What a world is once its narrow phase became `narrow` and the
    /// interaction on the edge `index` became `weight`: nothing else changed.
    pub open spec fn interaction_set(
        &self,
        after: &Self,
        index: int,
        narrow: NarrowPhase<CD, PD>,
        weight: Interaction<CD::Algorithm, PD::Algorithm>,
    ) -> bool {
        &&& after.slab() == self.slab()
        &&& after.broad() == self.broad()
        &&& after.filter_set() == self.filter_set()
        &&& after.now() == self.now()
        &&& after.narrow() == narrow
        &&& after.graph().nodes() == self.graph().nodes()
        &&& after.graph().edges() == self.graph().edges().update(
            index,
            (Edge { weight, ..self.graph().edges()[index] }),
        )
    }

    /// A world of which the narrow phase and one interaction changed is well
    /// formed where the narrow phase is, its pool holds the identifiers of
    /// the contacts of the graph, and the interaction, if it is a proximity,
    /// keeps what its detector last found.
    pub proof fn lemma_interaction_set(
        self,
        after: Self,
        index: int,
        narrow: NarrowPhase<CD, PD>,
        weight: Interaction<CD::Algorithm, PD::Algorithm>,
    )
        requires
            self.wf(),
            0 <= index < self.graph().edges().len(),
            self.interaction_set(&after, index, narrow, weight),
            narrow.wf(),
            contact_ids_live(narrow.ids(), after.graph().edges()),
            status_kept::<S, CD::Algorithm, PD>(weight),
        ensures
            after.wf(),
    {
        let before = self.graph().edges();
        let edges = after.graph().edges();
        let nodes = self.graph().nodes();
        assert forall|i: int| 0 <= i < edges.len() implies (#[trigger] edges[i]).source
            == before[i].source && edges[i].target == before[i].target by {}
        assert(crate::interaction_graph::edges_wf(nodes.len() as int, edges)) by {
            assert forall|i: int, j: int| 0 <= i < j < edges.len() implies !(#[trigger] edges[j]).joins(
                (#[trigger] edges[i]).source as int,
                edges[i].target as int,
            ) by {
                assert(!before[j].joins(before[i].source as int, before[i].target as int));
            }
        }
        assert forall|k: int| 0 <= k < edges.len() implies status_kept::<S, CD::Algorithm, PD>(
            (#[trigger] edges[k]).weight,
        ) by {
            if k != index {
                assert(status_kept::<S, CD::Algorithm, PD>(before[k].weight));
            }
        }
        assert forall|e: int| 0 <= e < edges.len() implies after.broad().reported().contains(
            edge_pair(after.slab()@, nodes, #[trigger] edges[e]),
        ) by {
            assert(self.broad().reported().contains(edge_pair(self.slab()@, nodes, before[e])));
        }
    }

    /// Whether the pool of the narrow phase holds the identifiers of the
    /// contacts of the graph, and every proximity keeps what its detector
    /// last found: what `lemma_interaction_set` asks after a change.
    pub fn interactions_hold(&self) -> (r: bool)
        requires
            self.narrow().wf(),
        ensures
            r == (contact_ids_live(self.narrow().ids(), self.graph().edges()) && edges_kept::<
                S,
                CD::Algorithm,
                PD,
            >(self.graph().edges())),
    {
        self.narrow_phase.holds_ids_of(&self.interactions)
            && self.narrow_phase.holds_statuses_of::<S, CD::Algorithm>(&self.interactions)
    }

    /// The narrow phase and the interaction on the edge `index`, to change
    /// them: the other parts of the world stay as they are. Before its next
    /// use the world has to be well formed again, as `lemma_interaction_set`
    /// says; `interactions_hold` tests it.
    pub fn interaction_mut(&mut self, index: TemporaryInteractionIndex) -> (parts: (
        &mut NarrowPhase<CD, PD>,
        &mut Interaction<CD::Algorithm, PD::Algorithm>,
    ))
        requires
            old(self).wf(),
            index.0 < old(self).graph().edges().len(),
        ensures
            *parts.0 == old(self).narrow(),
            *parts.1 == old(self).graph().edges()[index.0 as int].weight,
            old(self).interaction_set(final(self), index.0 as int, *final(parts.0), *final(parts.1)),
    {
        (&mut self.narrow_phase, self.interactions.edge_weight_mut(index))
    }

    /// The two objects and the index in the graph of each interaction of an
    /// object, to change them one by one with `interaction_mut`. `None`
    /// where no object has the handle.
    pub fn interactions_with_mut(&self, handle: CollisionObjectHandle) -> (out: Option<Vec<PairIndex>>)
        requires
            self.wf(),
        ensures
            out is Some == self.slab().has(handle),
            out matches Some(list) ==> {
                let id = self.slab()@[handle].graph_index.0;
                list@ == self.graph().pairs_chosen(InteractionKind::Any, Some(id), false)
            },
    {
        match self.objects.get(handle) {
            Some(co) => Some(self.interactions.interactions_with_mut(co.graph_index())),
            None => None,
        }
    }

    /// The proximities of an object, or those that are not `Disjoint`. `None` where no object has the handle.
    pub fn proximities_with(&self, handle: CollisionObjectHandle, effective_only: bool) -> (out: Option<Vec<(
        CollisionObjectHandle,
        CollisionObjectHandle,
        &PD::Algorithm,
        Proximity,
    )>>)
        requires
            self.wf(),
        ensures
            out is Some == self.slab().has(handle),
            out matches Some(list) ==> {
                let id = self.slab()@[handle].graph_index.0;
                list@.len() == self.graph().pairs_chosen(InteractionKind::Proximity, Some(id), effective_only).len()
                    && forall|k: int|
                    0 <= k < list@.len() ==> {
                        let row = self.graph().pairs_chosen(InteractionKind::Proximity, Some(id), effective_only)[k];
                        #[trigger] list@[k] == (
                        row.0,
                        row.1,
                        &self.graph().edges()[row.2.0 as int].weight->Proximity_0,
                        self.graph().edges()[row.2.0 as int].weight->Proximity_1,
                    )
                    }
            },
    {
        match self.objects.get(handle) {
            Some(co) => Some(self.interactions.proximities_with(co.graph_index(), effective_only)),
            None => None,
        }
    }

    /// The contacts of an object, or those of pairs that touch. `None` where no object has the handle.
    pub fn contacts_with(&self, handle: CollisionObjectHandle, effective_only: bool) -> (out: Option<Vec<(
        CollisionObjectHandle,
        CollisionObjectHandle,
        &CD::Algorithm,
        &ContactManifold,
    )>>)
        requires
            self.wf(),
        ensures
            out is Some == self.slab().has(handle),
            out matches Some(list) ==> {
                let id = self.slab()@[handle].graph_index.0;
                list@.len() == self.graph().pairs_chosen(InteractionKind::Contact, Some(id), effective_only).len()
                    && forall|k: int|
                    0 <= k < list@.len() ==> {
                        let row = self.graph().pairs_chosen(InteractionKind::Contact, Some(id), effective_only)[k];
                        #[trigger] list@[k] == (
                        row.0,
                        row.1,
                        &self.graph().edges()[row.2.0 as int].weight->Contact_0,
                        &self.graph().edges()[row.2.0 as int].weight->Contact_1,
                    )
                    }
            },
    {
        match self.objects.get(handle) {
            Some(co) => Some(self.interactions.contacts_with(co.graph_index(), effective_only)),
            None => None,
        }
    }

    /// The objects that interact with an object: those at the other end of
    /// its effective edges. `None` where no object has the handle.
    pub fn collision_objects_interacting_with(&self, handle: CollisionObjectHandle) -> (out: Option<Vec<CollisionObjectHandle>>)
        requires
            self.wf(),
        ensures
            out is Some == self.slab().has(handle),
            out matches Some(list) ==> {
                let id = self.slab()@[handle].graph_index.0;
                list@.len() == self.graph().pairs_chosen(InteractionKind::Any, Some(id), true).len()
                    && forall|k: int|
                    0 <= k < list@.len() ==> #[trigger] list@[k] == self.graph().other_end(
                        self.graph().pairs_chosen(InteractionKind::Any, Some(id), true)[k].2.0,
                        id,
                    )
            },
    {
        match self.objects.get(handle) {
            Some(co) => Some(self.interactions.collision_objects_interacting_with(co.graph_index())),
            None => None,
        }
    }

    /// The objects that touch an object. `None` where no object has the handle.
    pub fn collision_objects_in_contact_with(&self, handle: CollisionObjectHandle) -> (out: Option<Vec<CollisionObjectHandle>>)
        requires
            self.wf(),
        ensures
            out is Some == self.slab().has(handle),
            out matches Some(list) ==> {
                let id = self.slab()@[handle].graph_index.0;
                list@.len() == self.graph().pairs_chosen(InteractionKind::Contact, Some(id), true).len()
                    && forall|k: int|
                    0 <= k < list@.len() ==> #[trigger] list@[k] == self.graph().other_end(
                        self.graph().pairs_chosen(InteractionKind::Contact, Some(id), true)[k].2.0,
                        id,
                    )
            },
    {
        match self.objects.get(handle) {
            Some(co) => Some(self.interactions.collision_objects_in_contact_with(co.graph_index())),
            None => None,
        }
    }

    /// The objects whose proximity to an object is not `Disjoint`. `None` where no object has the handle.
    pub fn collision_objects_in_proximity_of(&self, handle: CollisionObjectHandle) -> (out: Option<Vec<CollisionObjectHandle>>)
        requires
            self.wf(),
        ensures
            out is Some == self.slab().has(handle),
            out matches Some(list) ==> {
                let id = self.slab()@[handle].graph_index.0;
                list@.len() == self.graph().pairs_chosen(InteractionKind::Proximity, Some(id), true).len()
                    && forall|k: int|
                    0 <= k < list@.len() ==> #[trigger] list@[k] == self.graph().other_end(
                        self.graph().pairs_chosen(InteractionKind::Proximity, Some(id), true)[k].2.0,
                        id,
                    )
            },
    {
        match self.objects.get(handle) {
            Some(co) => Some(self.interactions.collision_objects_in_proximity_of(co.graph_index())),
            None => None,
        }
    }

    /// The interaction between two objects, if there is one, and if it is
    /// effective where only those are asked for. `None` too where no object has one of the handles.
    pub fn interaction_pair(
        &self,
        handle1: CollisionObjectHandle,
        handle2: CollisionObjectHandle,
        effective_only: bool,
    ) -> (r: Option<(
        CollisionObjectHandle,
        CollisionObjectHandle,
        &Interaction<CD::Algorithm, PD::Algorithm>,
    )>)
        requires
            self.wf(),
        ensures
            r is Some <==> self.slab().has(handle1) && self.slab().has(handle2) && exists|i: int|
                0 <= i < self.graph().edges().len() && (#[trigger] self.graph().edges()[i]).joins(
                    self.slab()@[handle1].graph_index.0 as int,
                    self.slab()@[handle2].graph_index.0 as int,
                ) && chosen(self.graph().edges()[i], InteractionKind::Any, None, effective_only),
            r matches Some(row) ==> exists|i: int|
                0 <= i < self.graph().edges().len() && (#[trigger] self.graph().edges()[i]).joins(
                    self.slab()@[handle1].graph_index.0 as int,
                    self.slab()@[handle2].graph_index.0 as int,
                ) && row == (
                    self.graph().pair_index(i as usize).0,
                    self.graph().pair_index(i as usize).1,
                    &self.graph().edges()[i].weight,
                ),
    {
        match (self.objects.get(handle1), self.objects.get(handle2)) {
            (Some(co1), Some(co2)) => self.interactions.interaction_pair(
                co1.graph_index(),
                co2.graph_index(),
                effective_only,
            ),
            _ => None,
        }
    }

    /// The contact between two objects, if there is one, and if the pair
    /// touches where only those are asked for. `None` too where no object has one of the handles.
    pub fn contact_pair(
        &self,
        handle1: CollisionObjectHandle,
        handle2: CollisionObjectHandle,
        effective_only: bool,
    ) -> (r: Option<(
        CollisionObjectHandle,
        CollisionObjectHandle,
        &CD::Algorithm,
        &ContactManifold,
    )>)
        requires
            self.wf(),
        ensures
            r is Some <==> self.slab().has(handle1) && self.slab().has(handle2) && exists|i: int|
                0 <= i < self.graph().edges().len() && (#[trigger] self.graph().edges()[i]).joins(
                    self.slab()@[handle1].graph_index.0 as int,
                    self.slab()@[handle2].graph_index.0 as int,
                ) && chosen(self.graph().edges()[i], InteractionKind::Contact, None, effective_only),
            r matches Some(row) ==> exists|i: int|
                0 <= i < self.graph().edges().len() && (#[trigger] self.graph().edges()[i]).joins(
                    self.slab()@[handle1].graph_index.0 as int,
                    self.slab()@[handle2].graph_index.0 as int,
                ) && self.graph().edges()[i].weight is Contact && row == (
                    self.graph().pair_index(i as usize).0,
                    self.graph().pair_index(i as usize).1,
                    &self.graph().edges()[i].weight->Contact_0,
                    &self.graph().edges()[i].weight->Contact_1,
                ),
    {
        match (self.objects.get(handle1), self.objects.get(handle2)) {
            (Some(co1), Some(co2)) => self.interactions.contact_pair(
                co1.graph_index(),
                co2.graph_index(),
                effective_only,
            ),
            _ => None,
        }
    }

    /// The proximity between two objects, if there is one, and if it is not
    /// `Disjoint` where only those are asked for. `None` too where no object has one of the handles.
    pub fn proximity_pair(
        &self,
        handle1: CollisionObjectHandle,
        handle2: CollisionObjectHandle,
        effective_only: bool,
    ) -> (r: Option<(
        CollisionObjectHandle,
        CollisionObjectHandle,
        &PD::Algorithm,
        Proximity,
    )>)
        requires
            self.wf(),
        ensures
            r is Some <==> self.slab().has(handle1) && self.slab().has(handle2) && exists|i: int|
                0 <= i < self.graph().edges().len() && (#[trigger] self.graph().edges()[i]).joins(
                    self.slab()@[handle1].graph_index.0 as int,
                    self.slab()@[handle2].graph_index.0 as int,
                ) && chosen(self.graph().edges()[i], InteractionKind::Proximity, None, effective_only),
            r matches Some(row) ==> exists|i: int|
                0 <= i < self.graph().edges().len() && (#[trigger] self.graph().edges()[i]).joins(
                    self.slab()@[handle1].graph_index.0 as int,
                    self.slab()@[handle2].graph_index.0 as int,
                ) && self.graph().edges()[i].weight is Proximity && row == (
                    self.graph().pair_index(i as usize).0,
                    self.graph().pair_index(i as usize).1,
                    &self.graph().edges()[i].weight->Proximity_0,
                    self.graph().edges()[i].weight->Proximity_1,
                ),
    {
        match (self.objects.get(handle1), self.objects.get(handle2)) {
            (Some(co1), Some(co2)) => self.interactions.proximity_pair(
                co1.graph_index(),
                co2.graph_index(),
                effective_only,
            ),
            _ => None,
        }
    }
}

} // verus!
