use vstd::prelude::*;
use crate::node::{carries, NodeView};
use crate::seqs::without;
use crate::triple::Triple;

verus! {

/// The graph model as plain mathematics: the member list of each cluster and
/// the record of each node, both keyed by id.
pub struct MetaView {
    pub supernodes: Map<u32, Seq<u32>>,
    pub nodes: Map<u32, NodeView>,
}

impl MetaView {
    /// Whether `id` names a node or a cluster.
    pub open spec fn contains(self, id: u32) -> bool {
        self.nodes.contains_key(id) || self.supernodes.contains_key(id)
    }

    /// Whether `n` is a node whose parent is `p`.
    pub open spec fn is_child(self, n: u32, p: u32) -> bool {
        self.nodes.contains_key(n) && self.nodes[n].parent == Some(p)
    }

    /// Whether `n` is a node that belongs to no cluster.
    pub open spec fn is_plain(self, n: u32) -> bool {
        self.nodes.contains_key(n) && self.nodes[n].parent is None
    }

    /// No id names both a node and a cluster.
    pub open spec fn ids_disjoint(self) -> bool {
        forall|id: u32| !(#[trigger] self.nodes.contains_key(id) && self.supernodes.contains_key(id))
    }

    /// Every member of a cluster is a node whose parent is that cluster.
    pub open spec fn members_are_children(self) -> bool {
        forall|p: u32, i: int|
            self.supernodes.contains_key(p) && 0 <= i < self.supernodes[p].len() ==> self.is_child(
                #[trigger] self.supernodes[p][i],
                p,
            )
    }

    /// No member list names a node twice.
    pub open spec fn members_distinct(self) -> bool {
        forall|p: u32|
            self.supernodes.contains_key(p) ==> (#[trigger] self.supernodes[p]).no_duplicates()
    }

    /// The parent of a node, where it has one, is a cluster that lists the node.
    pub open spec fn children_are_members(self) -> bool {
        forall|n: u32|
            #[trigger] self.nodes.contains_key(n) ==> (self.nodes[n].parent matches Some(p)
                ==> self.supernodes.contains_key(p) && self.supernodes[p].contains(n))
    }

    /// The invariant of the model: ids name one thing, and parents and member
    /// lists agree with each other.
    pub open spec fn wf(self) -> bool {
        &&& self.ids_disjoint()
        &&& self.members_are_children()
        &&& self.members_distinct()
        &&& self.children_are_members()
    }

    /// No cluster has exactly one member.
    pub open spec fn no_singletons(self) -> bool {
        forall|p: u32|
            self.supernodes.contains_key(p) ==> (#[trigger] self.supernodes[p]).len() != 1
    }

    /// Every cluster of one member here was the same cluster in `before`.
    pub open spec fn singletons_within(self, before: MetaView) -> bool {
        forall|p: u32|
            self.supernodes.contains_key(p) && (#[trigger] self.supernodes[p]).len() == 1
                ==> before.supernodes.contains_key(p) && before.supernodes[p]
                == self.supernodes[p]
    }

    /// Whether an edge of node `n` in the chosen direction carries `pred`.
    pub open spec fn node_has_pred(self, n: u32, pred: u32, outgoing: bool) -> bool {
        carries(self.nodes[n].edges(outgoing), pred)
    }

    /// Whether `id` carries `pred` in the chosen direction: a node by one of its
    /// own edges, a cluster by an edge of one of its members.
    pub open spec fn has_pred(self, id: u32, pred: u32, outgoing: bool) -> bool {
        if self.supernodes.contains_key(id) {
            exists|i: int|
                0 <= i < self.supernodes[id].len() && self.node_has_pred(
                    #[trigger] self.supernodes[id][i],
                    pred,
                    outgoing,
                )
        } else {
            self.node_has_pred(id, pred, outgoing)
        }
    }

    /// The model with one more node: the chosen endpoint of `t`, with the edge
    /// that `t` gives it and no parent.
    pub open spec fn with_node(self, t: Triple, is_sub: bool) -> MetaView {
        MetaView {
            nodes: self.nodes.insert(t.endpoint(is_sub), NodeView::fresh(t.edge(is_sub), is_sub)),
            ..self
        }
    }

    /// The model with the edge of `t` appended at the chosen endpoint.
    pub open spec fn with_edge(self, t: Triple, is_sub: bool) -> MetaView {
        let n = t.endpoint(is_sub);
        let edges = self.nodes[n].edges(is_sub).push(t.edge(is_sub));
        MetaView { nodes: self.nodes.insert(n, self.nodes[n].with_edges(is_sub, edges)), ..self }
    }

    /// The model with the edge of `t` taken out at the chosen endpoint.
    pub open spec fn without_edge(self, t: Triple, is_sub: bool) -> MetaView {
        let n = t.endpoint(is_sub);
        let edges = without(self.nodes[n].edges(is_sub), t.edge(is_sub));
        MetaView { nodes: self.nodes.insert(n, self.nodes[n].with_edges(is_sub, edges)), ..self }
    }

    /// The model after node `n` has left its cluster.
    pub open spec fn detached(self, n: u32) -> MetaView {
        let p = self.nodes[n].parent->0;
        MetaView {
            supernodes: self.supernodes.insert(p, without(self.supernodes[p], n)),
            nodes: self.nodes.insert(n, self.nodes[n].with_parent(None)),
        }
    }

    /// The model after cluster `p`, of one member, has been dissolved.
    pub open spec fn collapsed(self, p: u32) -> MetaView {
        let n = self.supernodes[p][0];
        MetaView {
            supernodes: self.supernodes.remove(p),
            nodes: self.nodes.insert(n, self.nodes[n].with_parent(None)),
        }
    }

    /// What `id` brings into a merge: its members if it is a cluster, else itself.
    pub open spec fn members_of(self, id: u32) -> Seq<u32> {
        if self.supernodes.contains_key(id) {
            self.supernodes[id]
        } else {
            seq![id]
        }
    }

    /// What the ids bring into a merge, one after the other.
    pub open spec fn gathered(self, ids: Seq<u32>) -> Seq<u32>
        decreases ids.len(),
    {
        if ids.len() == 0 {
            Seq::empty()
        } else {
            self.gathered(ids.drop_last()) + self.members_of(ids.last())
        }
    }

    /// The model after the ids have been merged into the new cluster `new`.
    pub open spec fn merged(self, ids: Seq<u32>, new: u32) -> MetaView {
        let members = self.gathered(ids);
        MetaView {
            supernodes: self.supernodes.remove_keys(ids.to_set()).insert(new, members),
            nodes: self.reparented(members, new),
        }
    }

    /// The node table after each of `members` has been put under `new`.
    pub open spec fn reparented(self, members: Seq<u32>, new: u32) -> Map<u32, NodeView> {
        Map::new(
            |n: u32| self.nodes.contains_key(n),
            |n: u32|
                if members.contains(n) {
                    self.nodes[n].with_parent(Some(new))
                } else {
                    self.nodes[n]
                },
        )
    }

    /// Whether the ids can be merged: none is named twice, and each names a
    /// cluster or a node that belongs to none.
    pub open spec fn mergeable(self, ids: Seq<u32>) -> bool {
        &&& ids.no_duplicates()
        &&& forall|i: int|
            0 <= i < ids.len() ==> self.supernodes.contains_key(#[trigger] ids[i]) || self.is_plain(
                ids[i],
            )
    }

    /// What the invariant asks of one cluster: its id names no node, and its
    /// members are distinct nodes whose parent it is.
    pub open spec fn cluster_ok(self, p: u32) -> bool {
        &&& !self.nodes.contains_key(p)
        &&& self.supernodes[p].no_duplicates()
        &&& forall|i: int|
            0 <= i < self.supernodes[p].len() ==> self.is_child(#[trigger] self.supernodes[p][i], p)
    }

    /// What the invariant asks of one node: its parent, if it has one, is a
    /// cluster that lists it.
    pub open spec fn node_ok(self, n: u32) -> bool {
        self.nodes[n].parent matches Some(q) ==> self.supernodes.contains_key(q)
            && self.supernodes[q].contains(n)
    }

    /// The invariant, cluster by cluster and node by node.
    pub proof fn lemma_wf_by_parts(self)
        ensures
            self.wf() <==> ((forall|p: u32| #[trigger]
                self.supernodes.contains_key(p) ==> self.cluster_ok(p)) && (forall|n: u32| #[trigger]
                self.nodes.contains_key(n) ==> self.node_ok(n))),
    {
        if self.wf() {
            assert forall|p: u32| #[trigger] self.supernodes.contains_key(p) implies self.cluster_ok(
                p,
            ) by {
                assert(!(self.nodes.contains_key(p) && self.supernodes.contains_key(p)));
            }
        }
        if (forall|p: u32| #[trigger] self.supernodes.contains_key(p) ==> self.cluster_ok(p)) && (
        forall|n: u32| #[trigger] self.nodes.contains_key(n) ==> self.node_ok(n)) {
            assert forall|id: u32| !(#[trigger] self.nodes.contains_key(id)
                && self.supernodes.contains_key(id)) by {
                if self.supernodes.contains_key(id) {
                    assert(self.cluster_ok(id));
                }
            }
            assert forall|p: u32, i: int|
                self.supernodes.contains_key(p) && 0 <= i < self.supernodes[p].len()
                implies self.is_child(#[trigger] self.supernodes[p][i], p) by {
                assert(self.cluster_ok(p));
            }
            assert forall|p: u32| self.supernodes.contains_key(p) implies (
            #[trigger] self.supernodes[p]).no_duplicates() by {
                assert(self.cluster_ok(p));
            }
            assert forall|n: u32| #[trigger] self.nodes.contains_key(n) implies (
            self.nodes[n].parent matches Some(p) ==> self.supernodes.contains_key(p)
                && self.supernodes[p].contains(n)) by {
                assert(self.node_ok(n));
            }
        }
    }
}

} // verus!
