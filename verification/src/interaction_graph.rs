//! The graph of the interactions between collision objects.

use crate::collision_object::CollisionObjectHandle;
use crate::contact::ContactManifold;
use crate::query::Proximity;
use vstd::prelude::*;

verus! {

/// The index of the node of a collision object in the interaction graph.
#[derive(Clone, Copy, Debug, PartialEq, Eq, Hash, Structural)]
pub struct CollisionObjectGraphIndex(pub usize);

impl CollisionObjectGraphIndex {
    /// The index of the `i`-th node.
    pub fn new(i: usize) -> (index: CollisionObjectGraphIndex)
        ensures
            index.0 == i,
    {
        CollisionObjectGraphIndex(i)
    }

    /// The number of the node.
    pub fn index(&self) -> (i: usize)
        ensures
            i == self.0,
    {
        self.0
    }
}

/// The index of an interaction in the graph. It holds until an interaction
/// or a node is removed.
#[derive(Clone, Copy, Debug, PartialEq, Eq, Hash, Structural)]
pub struct TemporaryInteractionIndex(pub usize);

impl TemporaryInteractionIndex {
    /// The index of the `i`-th interaction.
    pub fn new(i: usize) -> (index: TemporaryInteractionIndex)
        ensures
            index.0 == i,
    {
        TemporaryInteractionIndex(i)
    }

    /// The number of the interaction.
    pub fn index(&self) -> (i: usize)
        ensures
            i == self.0,
    {
        self.0
    }
}

/// What the narrow phase keeps for a pair of objects.
pub enum Interaction<C, P> {
    /// A contact generator and the contacts it found.
    Contact(C, ContactManifold),
    /// A proximity detector and, beside it, the proximity that it last
    /// found.
    Proximity(P, Proximity),
}

impl<C, P> Interaction<C, P> {
    /// Whether the pair has a contact, or is nearer than disjoint.
    pub open spec fn effective(self) -> bool {
        match self {
            Interaction::Contact(_, manifold) => manifold@.len() > 0,
            Interaction::Proximity(_, status) => status != Proximity::Disjoint,
        }
    }

    /// The contacts of the pair; none for a proximity.
    pub open spec fn contacts(self) -> Seq<crate::contact::TrackedContact> {
        match self {
            Interaction::Contact(_, manifold) => manifold@,
            Interaction::Proximity(_, _) => Seq::empty(),
        }
    }

    /// Whether this is a contact.
    pub fn is_contact(&self) -> (r: bool)
        ensures
            r == (*self is Contact),
    {
        match self {
            Interaction::Contact(_, _) => true,
            Interaction::Proximity(_, _) => false,
        }
    }

    /// Whether this is a proximity.
    pub fn is_proximity(&self) -> (r: bool)
        ensures
            r == (*self is Proximity),
    {
        match self {
            Interaction::Contact(_, _) => false,
            Interaction::Proximity(_, _) => true,
        }
    }

    /// Whether the pair has a contact, or is nearer than disjoint.
    pub fn is_effective(&self) -> (r: bool)
        ensures
            r == self.effective(),
    {
        match self {
            Interaction::Contact(_, manifold) => manifold.len() > 0,
            Interaction::Proximity(_, status) => *status != Proximity::Disjoint,
        }
    }
}

/// An edge of the graph: the interaction of the objects at two nodes.
pub struct Edge<C, P> {
    /// The node of the first object.
    pub source: usize,
    /// The node of the second object.
    pub target: usize,
    /// The interaction of the two.
    pub weight: Interaction<C, P>,
}

impl<C, P> Edge<C, P> {
    /// Whether the edge ends at `node`.
    pub open spec fn touches(self, node: int) -> bool {
        self.source == node || self.target == node
    }

    /// Whether the edge joins `a` and `b`, in either order.
    pub open spec fn joins(self, a: int, b: int) -> bool {
        (self.source == a && self.target == b) || (self.source == b && self.target == a)
    }

    /// The edge with the node `from` renamed to `to`.
    pub open spec fn renamed(self, from: int, to: int) -> Self {
        Edge {
            source: if self.source == from {
                to as usize
            } else {
                self.source
            },
            target: if self.target == from {
                to as usize
            } else {
                self.target
            },
            weight: self.weight,
        }
    }
}

/// The edges of `edges` that do not end at `node`, in their order.
pub open spec fn without_node<C, P>(edges: Seq<Edge<C, P>>, node: int) -> Seq<Edge<C, P>>
    decreases edges.len(),
{
    if edges.len() == 0 {
        edges
    } else if edges.last().touches(node) {
        without_node(edges.drop_last(), node)
    } else {
        without_node(edges.drop_last(), node).push(edges.last())
    }
}

/// Every edge joins two different nodes out of `n`, and no two edges join the
/// same two nodes.
pub open spec fn edges_wf<C, P>(n: int, edges: Seq<Edge<C, P>>) -> bool {
    &&& forall|i: int|
        0 <= i < edges.len() ==> {
            &&& (#[trigger] edges[i]).source < n
            &&& edges[i].target < n
            &&& edges[i].source != edges[i].target
        }
    &&& forall|i: int, j: int|
        0 <= i < j < edges.len() ==> !(#[trigger] edges[j]).joins(
            (#[trigger] edges[i]).source as int,
            edges[i].target as int,
        )
}

/// What is left of a graph's edges when the node `node` leaves and the last
/// of the `n` nodes takes its place.
pub open spec fn edges_after_removal<C, P>(edges: Seq<Edge<C, P>>, n: int, node: int) -> Seq<
    Edge<C, P>,
> {
    let rest = without_node(edges, node);
    Seq::new(rest.len(), |i: int| rest[i].renamed(n - 1, node))
}

/// Whether the `i`-th and the `j`-th edge of `out` stand in `edges`, in this order.
pub open spec fn in_order<C, P>(edges: Seq<Edge<C, P>>, out: Seq<Edge<C, P>>, i: int, j: int) -> bool {
    exists|a: int, b: int|
        0 <= a < b < edges.len() && #[trigger] edges[a] == out[i] && #[trigger] edges[b] == out[j]
}

/// Every edge of `without_node` is an edge of the graph that does not end at
/// the node, and every such edge of the graph is one of them.
pub proof fn lemma_without_node<C, P>(edges: Seq<Edge<C, P>>, node: int)
    ensures
        without_node(edges, node).len() <= edges.len(),
        forall|i: int|
            0 <= i < without_node(edges, node).len() ==> !(#[trigger] without_node(
                edges,
                node,
            )[i]).touches(node) && edges.contains(without_node(edges, node)[i]),
        forall|j: int|
            0 <= j < edges.len() && !(#[trigger] edges[j]).touches(node) ==> without_node(
                edges,
                node,
            ).contains(edges[j]),
        forall|i: int, j: int|
            0 <= i < j < without_node(edges, node).len() ==> #[trigger] in_order(
                edges,
                without_node(edges, node),
                i,
                j,
            ),
    decreases edges.len(),
{
    let out = without_node(edges, node);
    if edges.len() > 0 {
        let front = edges.drop_last();
        let sub = without_node(front, node);
        lemma_without_node(front, node);
        assert forall|i: int| 0 <= i < out.len() implies !(#[trigger] out[i]).touches(node)
            && edges.contains(out[i]) by {
            if i < sub.len() {
                assert(out[i] == sub[i]);
                assert(front.contains(sub[i]));
                let k = choose|k: int| 0 <= k < front.len() && front[k] == sub[i];
                assert(edges[k] == sub[i]);
            } else {
                assert(out[i] == edges[edges.len() - 1]);
            }
        }
        assert forall|j: int| 0 <= j < edges.len() && !(#[trigger] edges[j]).touches(
            node,
        ) implies out.contains(edges[j]) by {
            if j < front.len() {
                assert(front[j] == edges[j]);
                assert(sub.contains(front[j]));
                let k = choose|k: int| 0 <= k < sub.len() && sub[k] == front[j];
                assert(out[k] == edges[j]);
            } else {
                assert(out[out.len() - 1] == edges[j]);
            }
        }
        assert forall|i: int, j: int| 0 <= i < j < out.len() implies #[trigger] in_order(
            edges,
            out,
            i,
            j,
        ) by {
            if j < sub.len() {
                assert(out[i] == sub[i] && out[j] == sub[j]);
                assert(in_order(front, sub, i, j));
                let (a, b) = choose|a: int, b: int|
                    0 <= a < b < front.len() && #[trigger] front[a] == sub[i] && #[trigger] front[b]
                        == sub[j];
                assert(edges[a] == out[i] && edges[b] == out[j]);
            } else {
                assert(out[i] == sub[i]);
                assert(front.contains(sub[i]));
                let a = choose|a: int| 0 <= a < front.len() && front[a] == sub[i];
                let b = edges.len() - 1;
                assert(edges[a] == out[i] && edges[b] == out[j]);
            }
        }
    }
}

/// Where no edge ends at the last node, the edges stay as they are when it
/// leaves.
pub proof fn lemma_untouched_node_leaves<C, P>(edges: Seq<Edge<C, P>>, node: int)
    requires
        forall|i: int| 0 <= i < edges.len() ==> !(#[trigger] edges[i]).touches(node),
    ensures
        without_node(edges, node) == edges,
        edges_after_removal(edges, node + 1, node) == edges,
    decreases edges.len(),
{
    if edges.len() > 0 {
        let front = edges.drop_last();
        assert forall|i: int| 0 <= i < front.len() implies !(#[trigger] front[i]).touches(node) by {
            assert(front[i] == edges[i]);
        }
        lemma_untouched_node_leaves(front, node);
        assert(!edges[edges.len() - 1].touches(node));
        assert(without_node(edges, node) =~= edges);
    }
    let out = edges_after_removal(edges, node + 1, node);
    assert forall|i: int| 0 <= i < edges.len() implies out[i] == edges[i] by {
        assert(!edges[i].touches(node));
    }
    assert(out =~= edges);
}

/// Taking a node out of a well-formed graph leaves a well-formed graph.
pub proof fn lemma_removal_keeps_wf<C, P>(edges: Seq<Edge<C, P>>, n: int, node: int)
    requires
        edges_wf(n, edges),
        0 <= node < n,
        n <= usize::MAX,
    ensures
        edges_wf(n - 1, edges_after_removal(edges, n, node)),
{
    let rest = without_node(edges, node);
    let out = edges_after_removal(edges, n, node);
    lemma_without_node(edges, node);
    assert forall|i: int| 0 <= i < out.len() implies {
        &&& (#[trigger] out[i]).source < n - 1
        &&& out[i].target < n - 1
        &&& out[i].source != out[i].target
    } by {
        assert(edges.contains(rest[i]));
        assert(!rest[i].touches(node));
    }
    assert forall|i: int, j: int| 0 <= i < j < out.len() implies !(#[trigger] out[j]).joins(
        (#[trigger] out[i]).source as int,
        out[i].target as int,
    ) by {
        assert(in_order(edges, rest, i, j));
        let (a, b) = choose|a: int, b: int|
            0 <= a < b < edges.len() && #[trigger] edges[a] == rest[i] && #[trigger] edges[b]
                == rest[j];
        assert(!edges[b].joins(edges[a].source as int, edges[a].target as int));
        assert(!rest[i].touches(node));
        assert(!rest[j].touches(node));
    }
}

/// The interactions between collision objects: a node for each object, and at
/// most one edge between two nodes.
pub struct InteractionGraph<C, P> {
    nodes: Vec<CollisionObjectHandle>,
    edges: Vec<Edge<C, P>>,
}

impl<C, P> InteractionGraph<C, P> {
    /// The object of each node.
    pub closed spec fn nodes(&self) -> Seq<CollisionObjectHandle> {
        self.nodes@
    }

    /// The edges, in the order of their indices.
    pub closed spec fn edges(&self) -> Seq<Edge<C, P>> {
        self.edges@
    }

    /// Every edge joins two different nodes of the graph, and no two edges
    /// join the same two nodes.
    pub open spec fn wf(&self) -> bool {
        edges_wf(self.nodes().len() as int, self.edges())
    }

    /// Whether an edge joins the nodes `a` and `b`.
    pub open spec fn joined(&self, a: int, b: int) -> bool {
        exists|i: int| 0 <= i < self.edges().len() && (#[trigger] self.edges()[i]).joins(a, b)
    }

    /// The nodes of a graph can be counted.
    pub proof fn lemma_node_count(&self)
        ensures
            self.nodes().len() <= usize::MAX,
    {
        assert(self.nodes.len() == self.nodes@.len());
    }

    /// A graph without nodes.
    pub fn new() -> (graph: Self)
        ensures
            graph.wf(),
            graph.nodes().len() == 0,
            graph.edges().len() == 0,
    {
        InteractionGraph { nodes: Vec::new(), edges: Vec::new() }
    }

    /// The number of nodes.
    pub fn node_count(&self) -> (n: usize)
        ensures
            n == self.nodes().len(),
    {
        self.nodes.len()
    }

    /// The number of edges.
    pub fn edge_count(&self) -> (n: usize)
        ensures
            n == self.edges().len(),
    {
        self.edges.len()
    }

    /// The object at a node.
    pub fn node_weight(&self, index: CollisionObjectGraphIndex) -> (handle: Option<
        CollisionObjectHandle,
    >)
        ensures
            handle == (if index.0 < self.nodes().len() {
                Some(self.nodes()[index.0 as int])
            } else {
                None
            }),
    {
        if index.0 < self.nodes.len() {
            Some(self.nodes[index.0])
        } else {
            None
        }
    }

    /// Adds a node for `handle`, after all others.
    pub fn add_node(&mut self, handle: CollisionObjectHandle) -> (index: CollisionObjectGraphIndex)
        requires
            old(self).wf(),
        ensures
            final(self).wf(),
            index.0 == old(self).nodes().len(),
            final(self).nodes() == old(self).nodes().push(handle),
            final(self).edges() == old(self).edges(),
    {
        let index = CollisionObjectGraphIndex(self.nodes.len());
        self.nodes.push(handle);
        index
    }

    /// The first edge that joins the nodes `a` and `b`, if there is one.
    pub fn find_edge(&self, a: CollisionObjectGraphIndex, b: CollisionObjectGraphIndex) -> (r:
        Option<TemporaryInteractionIndex>)
        ensures
            r is Some <==> self.joined(a.0 as int, b.0 as int),
            r matches Some(i) ==> i.0 < self.edges().len() && self.edges()[i.0 as int].joins(
                a.0 as int,
                b.0 as int,
            ) && forall|j: int| 0 <= j < i.0 ==> !(#[trigger] self.edges()[j]).joins(a.0 as int, b.0 as int),
    {
        let mut i: usize = 0;
        while i < self.edges.len()
            invariant
                i <= self.edges@.len(),
                forall|j: int| 0 <= j < i ==> !(#[trigger] self.edges@[j]).joins(a.0 as int, b.0 as int),
            decreases self.edges@.len() - i,
        {
            let e = &self.edges[i];
            if (e.source == a.0 && e.target == b.0) || (e.source == b.0 && e.target == a.0) {
                return Some(TemporaryInteractionIndex(i));
            }
            i += 1;
        }
        None
    }

    /// Whether an edge joins the nodes `a` and `b`.
    pub fn contains_edge(&self, a: CollisionObjectGraphIndex, b: CollisionObjectGraphIndex) -> (r:
        bool)
        ensures
            r == self.joined(a.0 as int, b.0 as int),
    {
        self.find_edge(a, b).is_some()
    }

    /// Adds an edge between two different nodes that no edge joins yet, after
    /// all others.
    pub fn add_edge(
        &mut self,
        a: CollisionObjectGraphIndex,
        b: CollisionObjectGraphIndex,
        weight: Interaction<C, P>,
    ) -> (index: TemporaryInteractionIndex)
        requires
            old(self).wf(),
            a.0 < old(self).nodes().len(),
            b.0 < old(self).nodes().len(),
            a.0 != b.0,
            !old(self).joined(a.0 as int, b.0 as int),
        ensures
            final(self).wf(),
            index.0 == old(self).edges().len(),
            final(self).nodes() == old(self).nodes(),
            final(self).edges() == old(self).edges().push(
                (Edge { source: a.0, target: b.0, weight }),
            ),
    {
        let index = TemporaryInteractionIndex(self.edges.len());
        self.edges.push(Edge { source: a.0, target: b.0, weight });
        proof {
            let edges = self.edges@;
            assert forall|i: int, j: int| 0 <= i < j < edges.len() implies !(#[trigger] edges[j]).joins(
                (#[trigger] edges[i]).source as int,
                edges[i].target as int,
            ) by {
                if j == edges.len() - 1 {
                    assert(old(self).edges()[i] == edges[i]);
                    assert(!old(self).edges()[i].joins(a.0 as int, b.0 as int));
                } else {
                    assert(old(self).edges()[i] == edges[i]);
                    assert(old(self).edges()[j] == edges[j]);
                }
            }
        }
        index
    }

    /// Takes an edge out of the graph. The edges after it move down by one.
    pub fn remove_edge(&mut self, index: TemporaryInteractionIndex) -> (weight: Option<
        Interaction<C, P>,
    >)
        requires
            old(self).wf(),
        ensures
            final(self).wf(),
            final(self).nodes() == old(self).nodes(),
            index.0 < old(self).edges().len() ==> weight == Some(
                old(self).edges()[index.0 as int].weight,
            ) && final(self).edges() == old(self).edges().remove(index.0 as int),
            index.0 >= old(self).edges().len() ==> weight is None && final(self).edges() == old(self).edges(),
    {
        if index.0 < self.edges.len() {
            let edge = self.edges.remove(index.0);
            proof {
                let before = old(self).edges();
                let after = self.edges@;
                assert forall|i: int| 0 <= i < after.len() implies {
                    &&& (#[trigger] after[i]).source < self.nodes@.len()
                    &&& after[i].target < self.nodes@.len()
                    &&& after[i].source != after[i].target
                } by {
                    if i < index.0 {
                        assert(after[i] == before[i]);
                    } else {
                        assert(after[i] == before[i + 1]);
                    }
                }
                assert forall|i: int, j: int| 0 <= i < j < after.len() implies !(
                #[trigger] after[j]).joins((#[trigger] after[i]).source as int, after[i].target as int) by {
                    let i0 = if i < index.0 { i } else { i + 1 };
                    let j0 = if j < index.0 { j } else { j + 1 };
                    assert(after[i] == before[i0]);
                    assert(after[j] == before[j0]);
                }
            }
            Some(edge.weight)
        } else {
            None
        }
    }

    /// The nodes that an edge joins.
    pub fn edge_endpoints(&self, index: TemporaryInteractionIndex) -> (r: Option<
        (CollisionObjectGraphIndex, CollisionObjectGraphIndex),
    >)
        ensures
            r == (if index.0 < self.edges().len() {
                Some(
                    (
                        CollisionObjectGraphIndex(self.edges()[index.0 as int].source),
                        CollisionObjectGraphIndex(self.edges()[index.0 as int].target),
                    ),
                )
            } else {
                None
            }),
    {
        if index.0 < self.edges.len() {
            let e = &self.edges[index.0];
            Some((CollisionObjectGraphIndex(e.source), CollisionObjectGraphIndex(e.target)))
        } else {
            None
        }
    }

    /// The interaction on an edge.
    pub fn edge_weight(&self, index: TemporaryInteractionIndex) -> (r: Option<&Interaction<C, P>>)
        ensures
            r == (if index.0 < self.edges().len() {
                Some(&self.edges()[index.0 as int].weight)
            } else {
                None
            }),
    {
        if index.0 < self.edges.len() {
            Some(&self.edges[index.0].weight)
        } else {
            None
        }
    }

    /// The interaction on an edge, to change it.
    pub fn edge_weight_mut(&mut self, index: TemporaryInteractionIndex) -> (weight: &mut Interaction<
        C,
        P,
    >)
        requires
            index.0 < old(self).edges().len(),
        ensures
            *weight == old(self).edges()[index.0 as int].weight,
            final(self).nodes() == old(self).nodes(),
            final(self).edges() == old(self).edges().update(
                index.0 as int,
                (Edge { weight: *final(weight), ..old(self).edges()[index.0 as int] }),
            ),
    {
        &mut self.edges[index.0].weight
    }

    /// Takes a node out of the graph, with the edges that end at it. The last
    /// node takes its place, and its object is returned; `None` where the
    /// node was the last itself.
    pub fn remove_node(&mut self, index: CollisionObjectGraphIndex) -> (moved: Option<
        CollisionObjectHandle,
    >)
        requires
            old(self).wf(),
            index.0 < old(self).nodes().len(),
        ensures
            final(self).wf(),
            final(self).nodes() == old(self).nodes().update(
                index.0 as int,
                old(self).nodes().last(),
            ).drop_last(),
            final(self).edges() == edges_after_removal(
                old(self).edges(),
                old(self).nodes().len() as int,
                index.0 as int,
            ),
            moved == (if index.0 + 1 == old(self).nodes().len() {
                None
            } else {
                Some(old(self).nodes().last())
            }),
    {
        let node: usize = index.0;
        let ghost before = self.edges@;
        let ghost mut seen: int = 0;
        let mut i: usize = 0;
        while i < self.edges.len()
            invariant
                0 <= seen <= before.len(),
                i == without_node(before.take(seen), node as int).len(),
                self.edges@ == without_node(before.take(seen), node as int) + before.skip(seen),
                self.nodes@ == old(self).nodes@,
            decreases before.len() - seen,
        {
            proof {
                assert(self.edges@[i as int] == before.skip(seen)[0]);
                assert(before.take(seen + 1).drop_last() =~= before.take(seen));
                assert(before.take(seen + 1).last() == before[seen]);
            }
            let touches = self.edges[i].source == node || self.edges[i].target == node;
            if touches {
                let _ = self.edges.remove(i);
                proof {
                    assert(self.edges@ =~= without_node(before.take(seen + 1), node as int)
                        + before.skip(seen + 1));
                }
            } else {
                proof {
                    assert(self.edges@ =~= without_node(before.take(seen + 1), node as int)
                        + before.skip(seen + 1));
                }
                i += 1;
            }
            proof {
                seen = seen + 1;
            }
        }
        proof {
            assert(seen == before.len()) by {
                if seen < before.len() {
                    assert(self.edges@.len() == i + before.skip(seen).len());
                }
            }
            assert(before.take(seen) =~= before);
            assert(self.edges@ =~= without_node(before, node as int));
        }
        let last: usize = self.nodes.len() - 1;
        let _ = self.nodes.swap_remove(node);
        let ghost rest = self.edges@;
        let mut j: usize = 0;
        while j < self.edges.len()
            invariant
                j <= self.edges@.len(),
                self.edges@.len() == rest.len(),
                forall|k: int| 0 <= k < j ==> self.edges@[k] == (#[trigger] rest[k]).renamed(last as int, node as int),
                forall|k: int| j <= k < rest.len() ==> self.edges@[k] == #[trigger] rest[k],
                node <= last,
                last + 1 == old(self).nodes@.len(),
                self.nodes@ == old(self).nodes@.update(node as int, old(self).nodes@.last()).drop_last(),
            decreases self.edges@.len() - j,
        {
            let edge = &mut self.edges[j];
            if edge.source == last {
                edge.source = node;
            }
            if edge.target == last {
                edge.target = node;
            }
            j += 1;
        }
        proof {
            assert(self.edges@ =~= edges_after_removal(
                before,
                old(self).nodes@.len() as int,
                node as int,
            ));
            lemma_removal_keeps_wf(before, old(self).nodes@.len() as int, node as int);
        }
        if node == last {
            None
        } else {
            Some(self.nodes[node])
        }
    }
}

/// The interactions that a query is about.
#[derive(Clone, Copy, Debug, PartialEq, Eq, Structural)]
pub enum InteractionKind {
    /// Contacts and proximities.
    Any,
    /// Contacts only.
    Contact,
    /// Proximities only.
    Proximity,
}

/// Whether a query chooses an edge: the edge is of the kind asked for, ends
/// at the node asked for if one is, and is effective if only those are asked
/// for.
pub open spec fn chosen<C, P>(
    edge: Edge<C, P>,
    kind: InteractionKind,
    node: Option<usize>,
    effective_only: bool,
) -> bool {
    &&& match kind {
        InteractionKind::Any => true,
        InteractionKind::Contact => edge.weight is Contact,
        InteractionKind::Proximity => edge.weight is Proximity,
    }
    &&& match node {
        Some(n) => edge.touches(n as int),
        None => true,
    }
    &&& effective_only ==> edge.weight.effective()
}

/// The indices of the edges among the first `upto` that a query chooses, in
/// their order.
pub open spec fn choice<C, P>(
    edges: Seq<Edge<C, P>>,
    kind: InteractionKind,
    node: Option<usize>,
    effective_only: bool,
    upto: int,
) -> Seq<usize>
    decreases upto,
{
    if upto <= 0 {
        Seq::empty()
    } else {
        let rest = choice(edges, kind, node, effective_only, upto - 1);
        if chosen(edges[upto - 1], kind, node, effective_only) {
            rest.push((upto - 1) as usize)
        } else {
            rest
        }
    }
}

/// Every index of a choice is that of an edge that the query chooses.
pub proof fn lemma_choice<C, P>(
    edges: Seq<Edge<C, P>>,
    kind: InteractionKind,
    node: Option<usize>,
    effective_only: bool,
    upto: int,
)
    requires
        upto <= edges.len() <= usize::MAX,
    ensures
        forall|k: int|
            0 <= k < choice(edges, kind, node, effective_only, upto).len() ==> {
                let i = #[trigger] choice(edges, kind, node, effective_only, upto)[k];
                i < upto && chosen(edges[i as int], kind, node, effective_only)
            },
    decreases upto,
{
    if upto > 0 {
        lemma_choice(edges, kind, node, effective_only, upto - 1);
        let rest = choice(edges, kind, node, effective_only, upto - 1);
        let out = choice(edges, kind, node, effective_only, upto);
        assert forall|k: int| 0 <= k < out.len() implies {
            let i = #[trigger] out[k];
            i < upto && chosen(edges[i as int], kind, node, effective_only)
        } by {
            if k < rest.len() {
                assert(out[k] == rest[k]);
            }
        }
    }
}

/// The objects of an edge, the first node's first, and its index.
pub type PairIndex = (CollisionObjectHandle, CollisionObjectHandle, TemporaryInteractionIndex);

impl<C, P> InteractionGraph<C, P> {
    /// The objects of the `i`-th edge and its index.
    pub open spec fn pair_index(&self, i: usize) -> PairIndex {
        (
            self.nodes()[self.edges()[i as int].source as int],
            self.nodes()[self.edges()[i as int].target as int],
            TemporaryInteractionIndex(i),
        )
    }

    /// The objects and the index of each edge that a query chooses, in the
    /// order of the edges.
    pub open spec fn pairs_chosen(
        &self,
        kind: InteractionKind,
        node: Option<usize>,
        effective_only: bool,
    ) -> Seq<PairIndex> {
        let picked = choice(self.edges(), kind, node, effective_only, self.edges().len() as int);
        Seq::new(picked.len(), |k: int| self.pair_index(picked[k]))
    }

    /// The objects and the index of each edge that a query chooses.
    pub fn pairs(&self, kind: InteractionKind, node: Option<usize>, effective_only: bool) -> (out: Vec<
        PairIndex,
    >)
        requires
            self.wf(),
        ensures
            out@ == self.pairs_chosen(kind, node, effective_only),
            forall|k: int|
                0 <= k < out@.len() ==> (#[trigger] out@[k]).2.0 < self.edges().len() && chosen(
                    self.edges()[out@[k].2.0 as int],
                    kind,
                    node,
                    effective_only,
                ),
    {
        let mut out: Vec<PairIndex> = Vec::new();
        let mut i: usize = 0;
        while i < self.edges.len()
            invariant
                i <= self.edges@.len(),
                self.wf(),
                out@.len() == choice(self.edges@, kind, node, effective_only, i as int).len(),
                forall|k: int|
                    0 <= k < out@.len() ==> #[trigger] out@[k] == self.pair_index(
                        choice(self.edges@, kind, node, effective_only, i as int)[k],
                    ),
            decreases self.edges@.len() - i,
        {
            let edge = &self.edges[i];
            let of_kind = match kind {
                InteractionKind::Any => true,
                InteractionKind::Contact => edge.weight.is_contact(),
                InteractionKind::Proximity => edge.weight.is_proximity(),
            };
            let at_node = match node {
                Some(n) => edge.source == n || edge.target == n,
                None => true,
            };
            if of_kind && at_node && (!effective_only || edge.weight.is_effective()) {
                out.push(
                    (self.nodes[edge.source], self.nodes[edge.target], TemporaryInteractionIndex(i)),
                );
            }
            i += 1;
        }
        proof {
            lemma_choice(self.edges@, kind, node, effective_only, self.edges@.len() as int);
            assert(out@ =~= self.pairs_chosen(kind, node, effective_only));
        }
        out
    }

    /// The interactions of some edges, each with the objects of its edge.
    fn with_interactions(&self, list: Vec<PairIndex>) -> (out: Vec<
        (CollisionObjectHandle, CollisionObjectHandle, &Interaction<C, P>),
    >)
        requires
            forall|k: int| 0 <= k < list@.len() ==> (#[trigger] list@[k]).2.0 < self.edges().len(),
        ensures
            out@.len() == list@.len(),
            forall|k: int|
                0 <= k < list@.len() ==> #[trigger] out@[k] == (
                    list@[k].0,
                    list@[k].1,
                    &self.edges()[list@[k].2.0 as int].weight,
                ),
    {
        let mut out: Vec<(CollisionObjectHandle, CollisionObjectHandle, &Interaction<C, P>)> =
            Vec::new();
        let mut k: usize = 0;
        while k < list.len()
            invariant
                k <= list@.len(),
                forall|j: int| 0 <= j < list@.len() ==> (#[trigger] list@[j]).2.0 < self.edges@.len(),
                out@.len() == k,
                forall|j: int|
                    0 <= j < k ==> #[trigger] out@[j] == (
                        list@[j].0,
                        list@[j].1,
                        &self.edges@[list@[j].2.0 as int].weight,
                    ),
            decreases list@.len() - k,
        {
            let row = list[k];
            out.push((row.0, row.1, &self.edges[row.2.0].weight));
            k += 1;
        }
        out
    }

    /// The generators and the manifolds of some contact edges, each with the
    /// objects of its edge.
    fn with_contacts(&self, list: Vec<PairIndex>) -> (out: Vec<
        (CollisionObjectHandle, CollisionObjectHandle, &C, &ContactManifold),
    >)
        requires
            forall|k: int|
                0 <= k < list@.len() ==> (#[trigger] list@[k]).2.0 < self.edges().len()
                    && self.edges()[list@[k].2.0 as int].weight is Contact,
        ensures
            out@.len() == list@.len(),
            forall|k: int|
                0 <= k < list@.len() ==> #[trigger] out@[k] == (
                    list@[k].0,
                    list@[k].1,
                    &self.edges()[list@[k].2.0 as int].weight->Contact_0,
                    &self.edges()[list@[k].2.0 as int].weight->Contact_1,
                ),
    {
        let mut out: Vec<(CollisionObjectHandle, CollisionObjectHandle, &C, &ContactManifold)> =
            Vec::new();
        let mut k: usize = 0;
        while k < list.len()
            invariant
                k <= list@.len(),
                forall|j: int|
                    0 <= j < list@.len() ==> (#[trigger] list@[j]).2.0 < self.edges@.len()
                        && self.edges@[list@[j].2.0 as int].weight is Contact,
                out@.len() == k,
                forall|j: int|
                    0 <= j < k ==> #[trigger] out@[j] == (
                        list@[j].0,
                        list@[j].1,
                        &self.edges@[list@[j].2.0 as int].weight->Contact_0,
                        &self.edges@[list@[j].2.0 as int].weight->Contact_1,
                    ),
            decreases list@.len() - k,
        {
            let row = list[k];
            match &self.edges[row.2.0].weight {
                Interaction::Contact(generator, manifold) => {
                    out.push((row.0, row.1, generator, manifold));
                },
                Interaction::Proximity(_, _) => {
                    assert(false);
                },
            }
            k += 1;
        }
        out
    }

    /// The detectors and the proximities of some proximity edges, each with
    /// the objects of its edge.
    fn with_proximities(&self, list: Vec<PairIndex>) -> (out: Vec<
        (CollisionObjectHandle, CollisionObjectHandle, &P, Proximity),
    >)
        requires
            forall|k: int|
                0 <= k < list@.len() ==> (#[trigger] list@[k]).2.0 < self.edges().len()
                    && self.edges()[list@[k].2.0 as int].weight is Proximity,
        ensures
            out@.len() == list@.len(),
            forall|k: int|
                0 <= k < list@.len() ==> #[trigger] out@[k] == (
                    list@[k].0,
                    list@[k].1,
                    &self.edges()[list@[k].2.0 as int].weight->Proximity_0,
                    self.edges()[list@[k].2.0 as int].weight->Proximity_1,
                ),
    {
        let mut out: Vec<(CollisionObjectHandle, CollisionObjectHandle, &P, Proximity)> = Vec::new();
        let mut k: usize = 0;
        while k < list.len()
            invariant
                k <= list@.len(),
                forall|j: int|
                    0 <= j < list@.len() ==> (#[trigger] list@[j]).2.0 < self.edges@.len()
                        && self.edges@[list@[j].2.0 as int].weight is Proximity,
                out@.len() == k,
                forall|j: int|
                    0 <= j < k ==> #[trigger] out@[j] == (
                        list@[j].0,
                        list@[j].1,
                        &self.edges@[list@[j].2.0 as int].weight->Proximity_0,
                        self.edges@[list@[j].2.0 as int].weight->Proximity_1,
                    ),
            decreases list@.len() - k,
        {
            let row = list[k];
            match &self.edges[row.2.0].weight {
                Interaction::Proximity(detector, status) => {
                    out.push((row.0, row.1, detector, *status));
                },
                Interaction::Contact(_, _) => {
                    assert(false);
                },
            }
            k += 1;
        }
        out
    }

    /// The objects at the other end of some edges of a node.
    fn others(&self, list: Vec<PairIndex>, node: usize) -> (out: Vec<CollisionObjectHandle>)
        requires
            self.wf(),
            forall|k: int| 0 <= k < list@.len() ==> (#[trigger] list@[k]).2.0 < self.edges().len(),
        ensures
            out@.len() == list@.len(),
            forall|k: int|
                0 <= k < list@.len() ==> #[trigger] out@[k] == self.other_end(list@[k].2.0, node),
    {
        let mut out: Vec<CollisionObjectHandle> = Vec::new();
        let mut k: usize = 0;
        while k < list.len()
            invariant
                k <= list@.len(),
                self.wf(),
                forall|j: int| 0 <= j < list@.len() ==> (#[trigger] list@[j]).2.0 < self.edges@.len(),
                out@.len() == k,
                forall|j: int| 0 <= j < k ==> #[trigger] out@[j] == self.other_end(list@[j].2.0, node),
            decreases list@.len() - k,
        {
            let edge = &self.edges[list[k].2.0];
            if edge.source == node {
                out.push(self.nodes[edge.target]);
            } else {
                out.push(self.nodes[edge.source]);
            }
            k += 1;
        }
        out
    }

    /// The object at the end of the `i`-th edge that is not `node`.
    pub open spec fn other_end(&self, i: usize, node: usize) -> CollisionObjectHandle {
        let edge = self.edges()[i as int];
        if edge.source == node {
            self.nodes()[edge.target as int]
        } else {
            self.nodes()[edge.source as int]
        }
    }

    /// All interactions, or those that are effective, each with its two
    /// objects, in the order of the edges.
    pub fn interaction_pairs(&self, effective_only: bool) -> (out: Vec<
        (CollisionObjectHandle, CollisionObjectHandle, &Interaction<C, P>),
    >)
        requires
            self.wf(),
        ensures
            out@.len() == self.pairs_chosen(InteractionKind::Any, None, effective_only).len(),
            forall|k: int|
                0 <= k < out@.len() ==> {
                    let row = self.pairs_chosen(InteractionKind::Any, None, effective_only)[k];
                    #[trigger] out@[k] == (row.0, row.1, &self.edges()[row.2.0 as int].weight)
                },
    {
        let list = self.pairs(InteractionKind::Any, None, effective_only);
        self.with_interactions(list)
    }

    /// All contacts, or those of pairs that touch, each with its two objects,
    /// in the order of the edges.
    pub fn contact_pairs(&self, effective_only: bool) -> (out: Vec<
        (CollisionObjectHandle, CollisionObjectHandle, &C, &ContactManifold),
    >)
        requires
            self.wf(),
        ensures
            out@.len() == self.pairs_chosen(InteractionKind::Contact, None, effective_only).len(),
            forall|k: int|
                0 <= k < out@.len() ==> {
                    let row = self.pairs_chosen(InteractionKind::Contact, None, effective_only)[k];
                    #[trigger] out@[k] == (
                        row.0,
                        row.1,
                        &self.edges()[row.2.0 as int].weight->Contact_0,
                        &self.edges()[row.2.0 as int].weight->Contact_1,
                    )
                },
    {
        let list = self.pairs(InteractionKind::Contact, None, effective_only);
        self.with_contacts(list)
    }

    /// All proximities, or those that are not `Disjoint`, each with its two
    /// objects, in the order of the edges.
    pub fn proximity_pairs(&self, effective_only: bool) -> (out: Vec<
        (CollisionObjectHandle, CollisionObjectHandle, &P, Proximity),
    >)
        requires
            self.wf(),
        ensures
            out@.len() == self.pairs_chosen(InteractionKind::Proximity, None, effective_only).len(),
            forall|k: int|
                0 <= k < out@.len() ==> {
                    let row = self.pairs_chosen(InteractionKind::Proximity, None, effective_only)[k];
                    #[trigger] out@[k] == (
                        row.0,
                        row.1,
                        &self.edges()[row.2.0 as int].weight->Proximity_0,
                        self.edges()[row.2.0 as int].weight->Proximity_1,
                    )
                },
    {
        let list = self.pairs(InteractionKind::Proximity, None, effective_only);
        self.with_proximities(list)
    }

    /// The interactions of a node, or those that are effective.
    pub fn interactions_with(&self, id: CollisionObjectGraphIndex, effective_only: bool) -> (out: Vec<
        (CollisionObjectHandle, CollisionObjectHandle, &Interaction<C, P>),
    >)
        requires
            self.wf(),
        ensures
            out@.len() == self.pairs_chosen(InteractionKind::Any, Some(id.0), effective_only).len(),
            forall|k: int|
                0 <= k < out@.len() ==> {
                    let row = self.pairs_chosen(InteractionKind::Any, Some(id.0), effective_only)[k];
                    #[trigger] out@[k] == (row.0, row.1, &self.edges()[row.2.0 as int].weight)
                },
    {
        let list = self.pairs(InteractionKind::Any, Some(id.0), effective_only);
        self.with_interactions(list)
    }

    /// The objects and the index of each interaction of a node, for
    /// `edge_weight_mut`.
    pub fn interactions_with_mut(&self, id: CollisionObjectGraphIndex) -> (out: Vec<PairIndex>)
        requires
            self.wf(),
        ensures
            out@ == self.pairs_chosen(InteractionKind::Any, Some(id.0), false),
            forall|k: int| 0 <= k < out@.len() ==> (#[trigger] out@[k]).2.0 < self.edges().len(),
    {
        self.pairs(InteractionKind::Any, Some(id.0), false)
    }

    /// The contacts of a node, or those of pairs that touch.
    pub fn contacts_with(&self, id: CollisionObjectGraphIndex, effective_only: bool) -> (out: Vec<
        (CollisionObjectHandle, CollisionObjectHandle, &C, &ContactManifold),
    >)
        requires
            self.wf(),
        ensures
            out@.len() == self.pairs_chosen(
                InteractionKind::Contact,
                Some(id.0),
                effective_only,
            ).len(),
            forall|k: int|
                0 <= k < out@.len() ==> {
                    let row = self.pairs_chosen(
                        InteractionKind::Contact,
                        Some(id.0),
                        effective_only,
                    )[k];
                    #[trigger] out@[k] == (
                        row.0,
                        row.1,
                        &self.edges()[row.2.0 as int].weight->Contact_0,
                        &self.edges()[row.2.0 as int].weight->Contact_1,
                    )
                },
    {
        let list = self.pairs(InteractionKind::Contact, Some(id.0), effective_only);
        self.with_contacts(list)
    }

    /// The proximities of a node, or those that are not `Disjoint`.
    pub fn proximities_with(&self, id: CollisionObjectGraphIndex, effective_only: bool) -> (out: Vec<
        (CollisionObjectHandle, CollisionObjectHandle, &P, Proximity),
    >)
        requires
            self.wf(),
        ensures
            out@.len() == self.pairs_chosen(
                InteractionKind::Proximity,
                Some(id.0),
                effective_only,
            ).len(),
            forall|k: int|
                0 <= k < out@.len() ==> {
                    let row = self.pairs_chosen(
                        InteractionKind::Proximity,
                        Some(id.0),
                        effective_only,
                    )[k];
                    #[trigger] out@[k] == (
                        row.0,
                        row.1,
                        &self.edges()[row.2.0 as int].weight->Proximity_0,
                        self.edges()[row.2.0 as int].weight->Proximity_1,
                    )
                },
    {
        let list = self.pairs(InteractionKind::Proximity, Some(id.0), effective_only);
        self.with_proximities(list)
    }

    /// The objects that interact with the object of a node: those at the
    /// other end of its effective edges.
    pub fn collision_objects_interacting_with(&self, id: CollisionObjectGraphIndex) -> (out: Vec<
        CollisionObjectHandle,
    >)
        requires
            self.wf(),
        ensures
            out@.len() == self.pairs_chosen(InteractionKind::Any, Some(id.0), true).len(),
            forall|k: int|
                0 <= k < out@.len() ==> #[trigger] out@[k] == self.other_end(
                    self.pairs_chosen(InteractionKind::Any, Some(id.0), true)[k].2.0,
                    id.0,
                ),
    {
        let list = self.pairs(InteractionKind::Any, Some(id.0), true);
        self.others(list, id.0)
    }

    /// The objects that touch the object of a node.
    pub fn collision_objects_in_contact_with(&self, id: CollisionObjectGraphIndex) -> (out: Vec<
        CollisionObjectHandle,
    >)
        requires
            self.wf(),
        ensures
            out@.len() == self.pairs_chosen(InteractionKind::Contact, Some(id.0), true).len(),
            forall|k: int|
                0 <= k < out@.len() ==> #[trigger] out@[k] == self.other_end(
                    self.pairs_chosen(InteractionKind::Contact, Some(id.0), true)[k].2.0,
                    id.0,
                ),
    {
        let list = self.pairs(InteractionKind::Contact, Some(id.0), true);
        self.others(list, id.0)
    }

    /// The objects whose proximity to the object of a node is not `Disjoint`.
    pub fn collision_objects_in_proximity_of(&self, id: CollisionObjectGraphIndex) -> (out: Vec<
        CollisionObjectHandle,
    >)
        requires
            self.wf(),
        ensures
            out@.len() == self.pairs_chosen(InteractionKind::Proximity, Some(id.0), true).len(),
            forall|k: int|
                0 <= k < out@.len() ==> #[trigger] out@[k] == self.other_end(
                    self.pairs_chosen(InteractionKind::Proximity, Some(id.0), true)[k].2.0,
                    id.0,
                ),
    {
        let list = self.pairs(InteractionKind::Proximity, Some(id.0), true);
        self.others(list, id.0)
    }

    /// The edge between two nodes, if there is one of the kind asked for,
    /// and effective where only those are asked for.
    pub fn pair(
        &self,
        id1: CollisionObjectGraphIndex,
        id2: CollisionObjectGraphIndex,
        kind: InteractionKind,
        effective_only: bool,
    ) -> (r: Option<PairIndex>)
        requires
            self.wf(),
        ensures
            r is Some <==> exists|i: int|
                0 <= i < self.edges().len() && (#[trigger] self.edges()[i]).joins(
                    id1.0 as int,
                    id2.0 as int,
                ) && chosen(self.edges()[i], kind, None, effective_only),
            r matches Some(row) ==> row.2.0 < self.edges().len() && row == self.pair_index(row.2.0)
                && self.edges()[row.2.0 as int].joins(id1.0 as int, id2.0 as int) && chosen(
                self.edges()[row.2.0 as int],
                kind,
                None,
                effective_only,
            ),
    {
        match self.find_edge(id1, id2) {
            Some(index) => {
                let edge = &self.edges[index.0];
                let of_kind = match kind {
                    InteractionKind::Any => true,
                    InteractionKind::Contact => edge.weight.is_contact(),
                    InteractionKind::Proximity => edge.weight.is_proximity(),
                };
                proof {
                    assert forall|i: int|
                        0 <= i < self.edges().len() && (#[trigger] self.edges()[i]).joins(
                            id1.0 as int,
                            id2.0 as int,
                        ) implies i == index.0 by {
                        if i < index.0 {
                        } else if index.0 < i {
                            assert(!self.edges()[i].joins(
                                self.edges()[index.0 as int].source as int,
                                self.edges()[index.0 as int].target as int,
                            ));
                        }
                    }
                }
                if of_kind && (!effective_only || edge.weight.is_effective()) {
                    Some((self.nodes[edge.source], self.nodes[edge.target], index))
                } else {
                    None
                }
            },
            None => None,
        }
    }

    /// The interaction between two nodes, if there is one, and if it is
    /// effective where only those are asked for.
    pub fn interaction_pair(
        &self,
        id1: CollisionObjectGraphIndex,
        id2: CollisionObjectGraphIndex,
        effective_only: bool,
    ) -> (r: Option<(CollisionObjectHandle, CollisionObjectHandle, &Interaction<C, P>)>)
        requires
            self.wf(),
        ensures
            r is Some <==> exists|i: int|
                0 <= i < self.edges().len() && (#[trigger] self.edges()[i]).joins(
                    id1.0 as int,
                    id2.0 as int,
                ) && chosen(self.edges()[i], InteractionKind::Any, None, effective_only),
            r matches Some(row) ==> exists|i: int|
                0 <= i < self.edges().len() && (#[trigger] self.edges()[i]).joins(
                    id1.0 as int,
                    id2.0 as int,
                ) && row == (
                    self.pair_index(i as usize).0,
                    self.pair_index(i as usize).1,
                    &self.edges()[i].weight,
                ),
    {
        match self.pair(id1, id2, InteractionKind::Any, effective_only) {
            Some(row) => Some((row.0, row.1, &self.edges[row.2.0].weight)),
            None => None,
        }
    }

    /// The contact between two nodes, if there is one, and if the pair
    /// touches where only those are asked for.
    pub fn contact_pair(
        &self,
        id1: CollisionObjectGraphIndex,
        id2: CollisionObjectGraphIndex,
        effective_only: bool,
    ) -> (r: Option<(CollisionObjectHandle, CollisionObjectHandle, &C, &ContactManifold)>)
        requires
            self.wf(),
        ensures
            r is Some <==> exists|i: int|
                0 <= i < self.edges().len() && (#[trigger] self.edges()[i]).joins(
                    id1.0 as int,
                    id2.0 as int,
                ) && chosen(self.edges()[i], InteractionKind::Contact, None, effective_only),
            r matches Some(row) ==> exists|i: int|
                0 <= i < self.edges().len() && (#[trigger] self.edges()[i]).joins(
                    id1.0 as int,
                    id2.0 as int,
                ) && self.edges()[i].weight is Contact && row == (
                    self.pair_index(i as usize).0,
                    self.pair_index(i as usize).1,
                    &self.edges()[i].weight->Contact_0,
                    &self.edges()[i].weight->Contact_1,
                ),
    {
        match self.pair(id1, id2, InteractionKind::Contact, effective_only) {
            Some(row) => match &self.edges[row.2.0].weight {
                Interaction::Contact(generator, manifold) => Some(
                    (row.0, row.1, generator, manifold),
                ),
                Interaction::Proximity(_, _) => None,
            },
            None => None,
        }
    }

    /// The proximity between two nodes, if there is one, and if it is not
    /// `Disjoint` where only those are asked for.
    pub fn proximity_pair(
        &self,
        id1: CollisionObjectGraphIndex,
        id2: CollisionObjectGraphIndex,
        effective_only: bool,
    ) -> (r: Option<(CollisionObjectHandle, CollisionObjectHandle, &P, Proximity)>)
        requires
            self.wf(),
        ensures
            r is Some <==> exists|i: int|
                0 <= i < self.edges().len() && (#[trigger] self.edges()[i]).joins(
                    id1.0 as int,
                    id2.0 as int,
                ) && chosen(self.edges()[i], InteractionKind::Proximity, None, effective_only),
            r matches Some(row) ==> exists|i: int|
                0 <= i < self.edges().len() && (#[trigger] self.edges()[i]).joins(
                    id1.0 as int,
                    id2.0 as int,
                ) && self.edges()[i].weight is Proximity && row == (
                    self.pair_index(i as usize).0,
                    self.pair_index(i as usize).1,
                    &self.edges()[i].weight->Proximity_0,
                    self.edges()[i].weight->Proximity_1,
                ),
    {
        match self.pair(id1, id2, InteractionKind::Proximity, effective_only) {
            Some(row) => match &self.edges[row.2.0].weight {
                Interaction::Proximity(detector, status) => Some((row.0, row.1, detector, *status)),
                Interaction::Contact(_, _) => None,
            },
            None => None,
        }
    }
}

} // verus!
