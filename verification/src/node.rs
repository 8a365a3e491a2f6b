use vstd::prelude::*;
use crate::seqs::{lemma_without_empty, lemma_without_push, without};
use crate::triple::Edge;

verus! {

/// Whether some edge of the list carries the predicate.
pub open spec fn carries(edges: Seq<Edge>, pred: u32) -> bool {
    exists|i: int| 0 <= i < edges.len() && (#[trigger] edges[i]).0 == pred
}

/// What a node record holds, as plain mathematics.
pub struct NodeView {
    pub parent: Option<u32>,
    pub incoming: Seq<Edge>,
    pub outgoing: Seq<Edge>,
}

impl NodeView {
    /// The outgoing list when `outgoing` holds, else the incoming one.
    pub open spec fn edges(self, outgoing: bool) -> Seq<Edge> {
        if outgoing { self.outgoing } else { self.incoming }
    }

    /// The same record with the chosen edge list replaced.
    pub open spec fn with_edges(self, outgoing: bool, edges: Seq<Edge>) -> NodeView {
        if outgoing {
            NodeView { outgoing: edges, ..self }
        } else {
            NodeView { incoming: edges, ..self }
        }
    }

    /// The same record under another parent.
    pub open spec fn with_parent(self, parent: Option<u32>) -> NodeView {
        NodeView { parent, ..self }
    }

    /// Every edge of the node, whichever way it points.
    pub open spec fn edge_set(self) -> Set<Edge> {
        self.incoming.to_set().union(self.outgoing.to_set())
    }

    /// A node that has just been seen as one end of a single edge.
    pub open spec fn fresh(edge: Edge, outgoing: bool) -> NodeView {
        NodeView {
            parent: None,
            incoming: if outgoing { Seq::empty() } else { seq![edge] },
            outgoing: if outgoing { seq![edge] } else { Seq::empty() },
        }
    }
}

/// The record of one node: the cluster it belongs to, if any, and its edges.
///
/// `incoming` holds `(predicate, source)` for each edge that ends here,
/// `outgoing` holds `(predicate, target)` for each edge that starts here.
#[derive(Clone, Debug, PartialEq, Eq)]
pub struct NodeInfo {
    pub parent: Option<u32>,
    pub incoming: Vec<Edge>,
    pub outgoing: Vec<Edge>,
}

impl View for NodeInfo {
    type V = NodeView;

    open spec fn view(&self) -> NodeView {
        NodeView { parent: self.parent, incoming: self.incoming@, outgoing: self.outgoing@ }
    }
}

/// A copy of an edge list.
pub fn copy_edges(edges: &Vec<Edge>) -> (copy: Vec<Edge>)
    ensures
        copy@ == edges@,
{
    let mut copy: Vec<Edge> = Vec::new();
    let mut i: usize = 0;
    while i < edges.len()
        invariant
            i <= edges.len(),
            copy@ == edges@.take(i as int),
        decreases edges.len() - i,
    {
        copy.push(edges[i]);
        i += 1;
        assert(edges@.take(i as int) == edges@.take(i - 1).push(edges@[i - 1]));
    }
    assert(edges@.take(edges.len() as int) == edges@);
    copy
}

/// Whether some edge of the list carries `pred`.
pub fn edges_carry(edges: &Vec<Edge>, pred: u32) -> (found: bool)
    ensures
        found == carries(edges@, pred),
{
    let mut i: usize = 0;
    while i < edges.len()
        invariant
            i <= edges.len(),
            forall|j: int| 0 <= j < i ==> (#[trigger] edges@[j]).0 != pred,
        decreases edges.len() - i,
    {
        if edges[i].0 == pred {
            return true;
        }
        i += 1;
    }
    false
}

/// Takes every edge equal to `edge` out of the list; the others keep their order.
pub fn drop_edge(edges: &mut Vec<Edge>, edge: Edge)
    ensures
        final(edges)@ == without(old(edges)@, edge),
{
    let mut kept: Vec<Edge> = Vec::new();
    let mut i: usize = 0;
    proof {
        lemma_without_empty(edge);
        assert(edges@.take(0) == Seq::<Edge>::empty());
    }
    while i < edges.len()
        invariant
            i <= edges.len(),
            kept@ == without(edges@.take(i as int), edge),
        decreases edges.len() - i,
    {
        let e = edges[i];
        proof {
            assert(edges@.take(i + 1) == edges@.take(i as int).push(e));
            lemma_without_push(edges@.take(i as int), e, edge);
        }
        if e.0 != edge.0 || e.1 != edge.1 {
            kept.push(e);
        }
        i += 1;
    }
    assert(edges@.take(edges.len() as int) == edges@);
    *edges = kept;
}

impl NodeInfo {
    /// A record with copies of the given parent and edge lists.
    pub fn new(parent: &Option<u32>, incoming: &Vec<Edge>, outgoing: &Vec<Edge>) -> (info: Self)
        ensures
            info@ == (NodeView { parent: *parent, incoming: incoming@, outgoing: outgoing@ }),
    {
        NodeInfo {
            parent: *parent,
            incoming: copy_edges(incoming),
            outgoing: copy_edges(outgoing),
        }
    }

    /// Leaves the cluster, if the node was in one.
    pub fn remove_parent(&mut self)
        ensures
            final(self)@ == old(self)@.with_parent(None),
    {
        self.parent = None;
    }

    /// Records `parent` as the cluster of this node.
    pub fn set_parent(&mut self, parent: &u32)
        ensures
            final(self)@ == old(self)@.with_parent(Some(*parent)),
    {
        self.parent = Some(*parent);
    }

    /// Whether the node has no edge in the chosen direction.
    pub fn is_edges_empty(&self, is_outgoing: bool) -> (empty: bool)
        ensures
            empty == (self@.edges(is_outgoing).len() == 0),
    {
        if is_outgoing {
            self.outgoing.is_empty()
        } else {
            self.incoming.is_empty()
        }
    }
}

} // verus!
