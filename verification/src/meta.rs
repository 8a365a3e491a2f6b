use std::collections::{HashMap, HashSet};
use vstd::prelude::*;
use vstd::std_specs::hash::spec_hash_map_iter;
use vstd::std_specs::iter::IteratorSpec;
use crate::model::MetaView;
use crate::node::{copy_edges, drop_edge, edges_carry, NodeInfo, NodeView};
use crate::snapshot::{
    cluster_ids, clusters_of, lemma_first_repeat, node_ids, nodes_of, MetaFile, Node, SnapshotError,
    Supernode,
};
use crate::seqs::{lemma_without_empty, lemma_without_push, without};
use crate::triple::{Edge, Triple};
use crate::wellformed::{
    lemma_collapsed_wf, lemma_detached_wf, lemma_edges_wf, lemma_merged_wf, lemma_reparented_push,
    lemma_with_node_wf,
};

verus! {

broadcast use vstd::std_specs::hash::group_hash_axioms;

/// The member lists of a cluster table, as sequences.
pub open spec fn members_view(supernodes: Map<u32, Vec<u32>>) -> Map<u32, Seq<u32>> {
    supernodes.map_values(|v: Vec<u32>| v@)
}

/// The records of a node table, as plain values.
pub open spec fn nodes_view(nodes: Map<u32, NodeInfo>) -> Map<u32, NodeView> {
    nodes.map_values(|n: NodeInfo| n@)
}

/// The graph model: the clusters with their members, and the nodes with
/// their parent and edges. Nodes and clusters share one space of ids.
pub struct Meta {
    supernodes: HashMap<u32, Vec<u32>>,
    nodes: HashMap<u32, NodeInfo>,
}

impl View for Meta {
    type V = MetaView;

    closed spec fn view(&self) -> MetaView {
        MetaView { supernodes: members_view(self.supernodes@), nodes: nodes_view(self.nodes@) }
    }
}

impl Meta {
    /// A model over the two given tables.
    pub fn new(supernodes: HashMap<u32, Vec<u32>>, nodes: HashMap<u32, NodeInfo>) -> (meta: Self)
        ensures
            meta@.supernodes == members_view(supernodes@),
            meta@.nodes == nodes_view(nodes@),
    {
        Self { supernodes, nodes }
    }

    /// Whether `node` names a node or a cluster.
    pub fn contains(&self, node: &u32) -> (found: bool)
        ensures
            found == self@.contains(*node),
    {
        self.nodes.contains_key(node) || self.supernodes.contains_key(node)
    }

    /// Whether `node` names a cluster.
    pub fn contains_supernode(&self, node: &u32) -> (found: bool)
        ensures
            found == self@.supernodes.contains_key(*node),
    {
        self.supernodes.contains_key(node)
    }

    /// Whether `node` names a node.
    pub fn contains_node(&self, node: &u32) -> (found: bool)
        ensures
            found == self@.nodes.contains_key(*node),
    {
        self.nodes.contains_key(node)
    }

    /// The record of a node.
    pub fn node(&self, node: &u32) -> (info: &NodeInfo)
        requires
            self@.nodes.contains_key(*node),
        ensures
            info@ == self@.nodes[*node],
    {
        self.nodes.get(node).unwrap()
    }

    /// The member list of a cluster.
    pub fn members(&self, snode: &u32) -> (members: &Vec<u32>)
        requires
            self@.supernodes.contains_key(*snode),
        ensures
            members@ == self@.supernodes[*snode],
    {
        self.supernodes.get(snode).unwrap()
    }

    /// Registers the subject of `triple` (its object, if `is_sub` is false) as
    /// a node that belongs to no cluster and has the one edge that the triple
    /// gives it.
    pub fn new_node(&mut self, triple: &Triple, is_sub: bool)
        requires
            !old(self)@.contains(triple.endpoint(is_sub)),
        ensures
            final(self)@ == old(self)@.with_node(*triple, is_sub),
            old(self)@.wf() ==> final(self)@.wf(),
    {
        let node = if is_sub { triple.sub } else { triple.obj };
        let other = if is_sub { triple.obj } else { triple.sub };
        let mut edges: Vec<Edge> = Vec::new();
        edges.push((triple.pred, other));
        let info = if is_sub {
            NodeInfo { parent: None, incoming: Vec::new(), outgoing: edges }
        } else {
            NodeInfo { parent: None, incoming: edges, outgoing: Vec::new() }
        };
        assert(info@ == NodeView::fresh(triple.edge(is_sub), is_sub));
        self.nodes.insert(node, info);
        assert(self@.nodes == old(self)@.nodes.insert(node, info@));
        proof {
            if old(self)@.wf() {
                lemma_with_node_wf(old(self)@, *triple, is_sub);
            }
        }
    }

    /// Appends the edge of `triple` to the outgoing list of its subject.
    pub fn add_outgoing(&mut self, triple: &Triple)
        requires
            old(self)@.nodes.contains_key(triple.sub),
        ensures
            final(self)@ == old(self)@.with_edge(*triple, true),
            old(self)@.wf() ==> final(self)@.wf(),
    {
        let mut info = self.nodes.remove(&triple.sub).unwrap();
        info.outgoing.push((triple.pred, triple.obj));
        self.nodes.insert(triple.sub, info);
        assert(self@.nodes == old(self)@.with_edge(*triple, true).nodes);
        proof {
            if old(self)@.wf() {
                lemma_edges_wf(old(self)@, self@, triple.sub);
            }
        }
    }

    /// Appends the edge of `triple` to the incoming list of its object.
    pub fn add_incoming(&mut self, triple: &Triple)
        requires
            old(self)@.nodes.contains_key(triple.obj),
        ensures
            final(self)@ == old(self)@.with_edge(*triple, false),
            old(self)@.wf() ==> final(self)@.wf(),
    {
        let mut info = self.nodes.remove(&triple.obj).unwrap();
        info.incoming.push((triple.pred, triple.sub));
        self.nodes.insert(triple.obj, info);
        assert(self@.nodes == old(self)@.with_edge(*triple, false).nodes);
        proof {
            if old(self)@.wf() {
                lemma_edges_wf(old(self)@, self@, triple.obj);
            }
        }
    }

    /// The cluster that `node` belongs to, if any.
    pub fn get_parent(&self, node: &u32) -> (parent: Option<u32>)
        requires
            self@.nodes.contains_key(*node),
        ensures
            parent == self@.nodes[*node].parent,
    {
        self.nodes.get(node).unwrap().parent
    }

    /// Whether `node` belongs to a cluster.
    pub fn has_parent(&self, node: &u32) -> (clustered: bool)
        requires
            self@.nodes.contains_key(*node),
        ensures
            clustered == self@.nodes[*node].parent is Some,
    {
        self.get_parent(node).is_some()
    }

    /// The number of members of a cluster.
    pub fn supernode_len(&self, node: &u32) -> (len: usize)
        requires
            self@.supernodes.contains_key(*node),
        ensures
            len == self@.supernodes[*node].len(),
    {
        self.supernodes.get(node).unwrap().len()
    }

    /// Puts `node` under `parent`, or under no cluster.
    fn set_parent_of(&mut self, node: u32, parent: Option<u32>)
        requires
            old(self)@.nodes.contains_key(node),
        ensures
            final(self)@.nodes == old(self)@.nodes.insert(
                node,
                old(self)@.nodes[node].with_parent(parent),
            ),
            final(self)@.supernodes == old(self)@.supernodes,
    {
        let mut info = self.nodes.remove(&node).unwrap();
        match parent {
            Some(p) => info.set_parent(&p),
            None => info.remove_parent(),
        }
        self.nodes.insert(node, info);
        assert(self@.nodes == old(self)@.nodes.insert(
            node,
            old(self)@.nodes[node].with_parent(parent),
        ));
    }

    /// Takes the edge of `triple` out of the edge list of its subject (of its
    /// object, if `is_sub` is false). Every entry equal to the edge leaves.
    pub fn remove_from_node(&mut self, triple: &Triple, is_sub: bool)
        requires
            old(self)@.nodes.contains_key(triple.endpoint(is_sub)),
        ensures
            final(self)@ == old(self)@.without_edge(*triple, is_sub),
            old(self)@.wf() ==> final(self)@.wf(),
            old(self)@.no_singletons() ==> final(self)@.no_singletons(),
    {
        let node = if is_sub { triple.sub } else { triple.obj };
        let other = if is_sub { triple.obj } else { triple.sub };
        let mut info = self.nodes.remove(&node).unwrap();
        if is_sub {
            drop_edge(&mut info.outgoing, (triple.pred, other));
        } else {
            drop_edge(&mut info.incoming, (triple.pred, other));
        }
        self.nodes.insert(node, info);
        assert(self@.nodes == old(self)@.without_edge(*triple, is_sub).nodes);
        proof {
            if old(self)@.wf() {
                lemma_edges_wf(old(self)@, self@, node);
            }
        }
    }

    /// Detaches `node` from its cluster: the node leaves the member list and
    /// has no parent afterwards.
    pub fn remove_from_supernode(&mut self, node: &u32)
        requires
            old(self)@.wf(),
            old(self)@.nodes.contains_key(*node),
            old(self)@.nodes[*node].parent is Some,
        ensures
            final(self)@ == old(self)@.detached(*node),
            final(self)@.wf(),
    {
        let p = self.get_parent(node).unwrap();
        assert(self@.supernodes.contains_key(p));
        let mut members = self.supernodes.remove(&p).unwrap();
        remove_id(&mut members, *node);
        self.supernodes.insert(p, members);
        self.set_parent_of(*node, None);
        assert(self@.supernodes == old(self)@.detached(*node).supernodes);
        proof {
            lemma_detached_wf(old(self)@, *node);
        }
    }

    /// Dissolves a cluster that has one member: the member has no parent
    /// afterwards and the cluster is gone.
    pub fn to_single_node(&mut self, snode: &u32)
        requires
            old(self)@.wf(),
            old(self)@.supernodes.contains_key(*snode),
            old(self)@.supernodes[*snode].len() == 1,
        ensures
            final(self)@ == old(self)@.collapsed(*snode),
            final(self)@.wf(),
    {
        let node = self.supernodes.get(snode).unwrap()[0];
        assert(self@.is_child(self@.supernodes[*snode][0], *snode));
        self.set_parent_of(node, None);
        self.supernodes.remove(snode);
        assert(self@.supernodes == old(self)@.collapsed(*snode).supernodes);
        proof {
            lemma_collapsed_wf(old(self)@, *snode);
        }
    }

    /// Whether `node` carries `pred` in the chosen direction; a cluster does
    /// so when one of its members does.
    fn has_pred(&self, node: &u32, pred: &u32, outgoing: bool) -> (found: bool)
        requires
            self@.wf(),
            self@.contains(*node),
        ensures
            found == self@.has_pred(*node, *pred, outgoing),
        decreases (if self@.supernodes.contains_key(*node) { 1nat } else { 0nat }),
    {
        if !self.contains_supernode(node) {
            let info = self.nodes.get(node).unwrap();
            if outgoing {
                edges_carry(&info.outgoing, *pred)
            } else {
                edges_carry(&info.incoming, *pred)
            }
        } else {
            let members = self.supernodes.get(node).unwrap();
            let mut i: usize = 0;
            while i < members.len()
                invariant
                    i <= members.len(),
                    self@.wf(),
                    self@.supernodes.contains_key(*node),
                    members@ == self@.supernodes[*node],
                    forall|j: int|
                        0 <= j < i ==> !self@.node_has_pred(
                            #[trigger] self@.supernodes[*node][j],
                            *pred,
                            outgoing,
                        ),
                decreases members.len() - i,
            {
                assert(self@.is_child(self@.supernodes[*node][i as int], *node));
                if self.has_pred(&members[i], pred, outgoing) {
                    return true;
                }
                i += 1;
            }
            false
        }
    }

    /// Whether an outgoing edge of `node` carries `pred`. For a cluster:
    /// whether an outgoing edge of one of its members does.
    pub fn has_outgoing_pred(&self, node: &u32, pred: &u32) -> (found: bool)
        requires
            self@.wf(),
            self@.contains(*node),
        ensures
            found == self@.has_pred(*node, *pred, true),
    {
        self.has_pred(node, pred, true)
    }

    /// Whether an incoming edge of `node` carries `pred`. For a cluster:
    /// whether an incoming edge of one of its members does.
    pub fn has_incoming_pred(&self, node: &u32, pred: &u32) -> (found: bool)
        requires
            self@.wf(),
            self@.contains(*node),
        ensures
            found == self@.has_pred(*node, *pred, false),
    {
        self.has_pred(node, pred, false)
    }

    /// Merges `parts` into the new cluster `new`. A part that is a cluster is
    /// absorbed, its members move over and it is gone; a part that is a node
    /// joins as it is. The new member list holds them in the order of `parts`,
    /// and each of them has `new` as its parent.
    pub fn new_snode(&mut self, parts: &Vec<u32>, new: &u32)
        requires
            old(self)@.wf(),
            old(self)@.mergeable(parts@),
            !old(self)@.contains(*new),
        ensures
            final(self)@ == old(self)@.merged(parts@, *new),
            final(self)@.wf(),
    {
        let ghost m0 = self@;
        let mut members: Vec<u32> = Vec::new();
        let mut i: usize = 0;
        proof {
            assert(parts@.take(0) == Seq::<u32>::empty());
            assert(self@.supernodes == m0.supernodes.remove_keys(parts@.take(0).to_set()));
            assert(self@.nodes == m0.reparented(members@, *new));
        }
        while i < parts.len()
            invariant
                i <= parts.len(),
                m0.wf(),
                m0.mergeable(parts@),
                members@ == m0.gathered(parts@.take(i as int)),
                self@.supernodes == m0.supernodes.remove_keys(parts@.take(i as int).to_set()),
                self@.nodes == m0.reparented(members@, *new),
            decreases parts.len() - i,
        {
            let id = parts[i];
            let ghost done = parts@.take(i as int);
            proof {
                assert(parts@.take(i + 1) == done.push(id));
                assert(done.push(id).drop_last() == done);
                assert(m0.gathered(done.push(id)) == m0.gathered(done) + m0.members_of(id));
                assert(!done.contains(id)) by {
                    if done.contains(id) {
                        let k = choose|k: int| 0 <= k < done.len() && done[k] == id;
                        assert(parts@[k] == parts@[i as int]);
                    }
                }
                assert(m0.supernodes.contains_key(parts@[i as int]) || m0.is_plain(
                    parts@[i as int],
                ));
                assert(done.push(id).to_set() == done.to_set().insert(id)) by {
                    done.lemma_push_to_set_commute(id);
                }
            }
            if self.contains_supernode(&id) {
                let ghost clusters = self@.supernodes;
                assert(clusters.contains_key(id) && clusters[id] == m0.supernodes[id]);
                let absorbed = self.supernodes.remove(&id).unwrap();
                assert(absorbed@ == clusters[id]);
                assert(self@.supernodes == clusters.remove(id));
                assert(clusters.remove(id) == m0.supernodes.remove_keys(
                    done.to_set().insert(id),
                ));
                let ghost before = members@;
                let mut j: usize = 0;
                assert(absorbed@.take(0) == Seq::<u32>::empty());
                while j < absorbed.len()
                    invariant
                        j <= absorbed.len(),
                        m0.wf(),
                        m0.supernodes.contains_key(id),
                        absorbed@ == m0.supernodes[id],
                        members@ == before + absorbed@.take(j as int),
                        self@.supernodes == m0.supernodes.remove_keys(done.to_set().insert(id)),
                        self@.nodes == m0.reparented(members@, *new),
                    decreases absorbed.len() - j,
                {
                    let member = absorbed[j];
                    assert(m0.is_child(m0.supernodes[id][j as int], id));
                    let ghost so_far = members@;
                    self.set_parent_of(member, Some(*new));
                    members.push(member);
                    proof {
                        assert(absorbed@.take(j + 1) == absorbed@.take(j as int).push(member));
                        assert(members@ == before + absorbed@.take(j + 1));
                        lemma_reparented_push(m0, so_far, member, *new);
                    }
                    j += 1;
                }
                assert(absorbed@.take(absorbed.len() as int) == absorbed@);
            } else {
                assert(m0.is_plain(id));
                let ghost so_far = members@;
                self.set_parent_of(id, Some(*new));
                members.push(id);
                proof {
                    assert(members@ == so_far + seq![id]);
                    lemma_reparented_push(m0, so_far, id, *new);
                    assert(self@.supernodes == m0.supernodes.remove_keys(
                        done.to_set().insert(id),
                    ));
                }
            }
            i += 1;
        }
        assert(parts@.take(parts.len() as int) == parts@);
        self.supernodes.insert(*new, members);
        assert(self@.supernodes == m0.merged(parts@, *new).supernodes);
        proof {
            lemma_merged_wf(m0, parts@, *new);
        }
    }

    /// Whether cluster `p`, with the member list `members`, is as the
    /// invariant asks.
    fn cluster_is_sound(&self, p: &u32, members: &Vec<u32>) -> (ok: bool)
        requires
            self@.supernodes.contains_key(*p),
            members@ == self@.supernodes[*p],
        ensures
            ok == self@.cluster_ok(*p),
    {
        if self.nodes.contains_key(p) {
            return false;
        }
        let mut seen: HashSet<u32> = HashSet::new();
        let mut i: usize = 0;
        assert(members@.take(0) == Seq::<u32>::empty());
        while i < members.len()
            invariant
                i <= members.len(),
                members@ == self@.supernodes[*p],
                seen@ == members@.take(i as int).to_set(),
                members@.take(i as int).no_duplicates(),
                forall|j: int| 0 <= j < i ==> self@.is_child(#[trigger] self@.supernodes[*p][j], *p),
            decreases members.len() - i,
        {
            let member = members[i];
            let ghost done = members@.take(i as int);
            proof {
                assert(members@.take(i + 1) == done.push(member));
                done.lemma_push_to_set_commute(member);
            }
            match self.nodes.get(&member) {
                Some(info) => {
                    if info.parent != Some(*p) {
                        assert(!self@.is_child(self@.supernodes[*p][i as int], *p));
                        return false;
                    }
                },
                None => {
                    assert(!self@.is_child(self@.supernodes[*p][i as int], *p));
                    return false;
                },
            }
            if !seen.insert(member) {
                proof {
                    assert(done.contains(member));
                    let k = choose|k: int| 0 <= k < done.len() && done[k] == member;
                    assert(members@[k] == members@[i as int]);
                }
                return false;
            }
            proof {
                assert(!done.contains(member));
                assert forall|a: int, b: int|
                    0 <= a < done.len() + 1 && 0 <= b < done.len() + 1 && a != b implies done.push(
                    member,
                )[a] != done.push(member)[b] by {
                    if a < done.len() && b < done.len() {
                    } else if a < done.len() {
                        assert(done.contains(done[a]));
                    } else {
                        assert(done.contains(done[b]));
                    }
                }
            }
            i += 1;
        }
        assert(members@.take(members.len() as int) == members@);
        true
    }

    /// Whether node `n`, with the record `info`, is as the invariant asks.
    fn node_is_sound(&self, n: &u32, info: &NodeInfo) -> (ok: bool)
        requires
            self@.nodes.contains_key(*n),
            info@ == self@.nodes[*n],
        ensures
            ok == self@.node_ok(*n),
    {
        match info.parent {
            None => true,
            Some(q) => match self.supernodes.get(&q) {
                None => false,
                Some(members) => {
                    let mut i: usize = 0;
                    while i < members.len()
                        invariant
                            i <= members.len(),
                            self@.nodes[*n].parent == Some(q),
                            self@.supernodes.contains_key(q),
                            members@ == self@.supernodes[q],
                            forall|j: int| 0 <= j < i ==> members@[j] != *n,
                        decreases members.len() - i,
                    {
                        if members[i] == *n {
                            assert(self@.supernodes[q][i as int] == *n);
                            return true;
                        }
                        i += 1;
                    }
                    false
                },
            },
        }
    }

    /// Whether the model satisfies its invariant: no id names both a node and
    /// a cluster, every member of a cluster is a node whose parent is that
    /// cluster, no member list names a node twice, and the parent of every
    /// node is a cluster that lists it.
    pub fn is_well_formed(&self) -> (ok: bool)
        ensures
            ok == self@.wf(),
    {
        proof {
            self@.lemma_wf_by_parts();
        }
        for (p, members) in it: self.supernodes.iter()
            invariant
                it.seq() == spec_hash_map_iter(&self.supernodes).remaining(),
                forall|j: int|
                    0 <= j < it.index() ==> self@.cluster_ok(*(#[trigger] it.seq()[j]).0),
                self@.wf() <==> ((forall|p: u32| #[trigger]
                    self@.supernodes.contains_key(p) ==> self@.cluster_ok(p)) && (forall|n: u32|
                 #[trigger] self@.nodes.contains_key(n) ==> self@.node_ok(n))),
        {
            assert(self.supernodes@.contains_key(*p) && self.supernodes@[*p] == *members) by {
                let s = spec_hash_map_iter(&self.supernodes).remaining();
                let j = it.index();
                assert(self.supernodes@.contains_key(*s[j].0));
            }
            if !self.cluster_is_sound(p, members) {
                return false;
            }
        }
        proof {
            let s = spec_hash_map_iter(&self.supernodes).remaining();
            assert forall|p: u32| #[trigger] self@.supernodes.contains_key(p) implies self@.cluster_ok(
                p,
            ) by {
                assert(self.supernodes@.contains_key(p));
                assert(s.contains((&p, &self.supernodes@[p])));
                let j = choose|j: int| 0 <= j < s.len() && s[j] == (&p, &self.supernodes@[p]);
                assert(self@.cluster_ok(*s[j].0));
            }
        }
        for (n, info) in it: self.nodes.iter()
            invariant
                it.seq() == spec_hash_map_iter(&self.nodes).remaining(),
                forall|j: int| 0 <= j < it.index() ==> self@.node_ok(*(#[trigger] it.seq()[j]).0),
                forall|p: u32| #[trigger] self@.supernodes.contains_key(p) ==> self@.cluster_ok(p),
                self@.wf() <==> ((forall|p: u32| #[trigger]
                    self@.supernodes.contains_key(p) ==> self@.cluster_ok(p)) && (forall|n: u32|
                 #[trigger] self@.nodes.contains_key(n) ==> self@.node_ok(n))),
        {
            assert(self.nodes@.contains_key(*n) && self.nodes@[*n] == *info) by {
                let s = spec_hash_map_iter(&self.nodes).remaining();
                let j = it.index();
                assert(self.nodes@.contains_key(*s[j].0));
            }
            if !self.node_is_sound(n, info) {
                assert(self@.nodes.contains_key(*n) && !self@.node_ok(*n));
                return false;
            }
        }
        proof {
            let s = spec_hash_map_iter(&self.nodes).remaining();
            assert forall|n: u32| #[trigger] self@.nodes.contains_key(n) implies self@.node_ok(n) by {
                assert(self.nodes@.contains_key(n));
                assert(s.contains((&n, &self.nodes@[n])));
                let j = choose|j: int| 0 <= j < s.len() && s[j] == (&n, &self.nodes@[n]);
                assert(self@.node_ok(*s[j].0));
            }
        }
        true
    }

    /// A snapshot of the model: one record for each cluster and one for each
    /// node, in no particular order; the lists on a record keep their order.
    pub fn serialize(&self) -> (file: MetaFile)
        ensures
            file.depicts(self@),
    {
        let mut s: Vec<Supernode> = Vec::new();
        let mut q: Vec<Node> = Vec::new();
        for (k, v) in it: self.supernodes.iter()
            invariant
                it.seq() == spec_hash_map_iter(&self.supernodes).remaining(),
                s@.len() == it.index(),
                forall|j: int|
                    0 <= j < s@.len() ==> (#[trigger] s@[j]).i == *it.seq()[j].0 && s@[j].g@ == (
                    *it.seq()[j].1)@,
        {
            s.push(Supernode { i: *k, g: v.clone() });
        }
        proof {
            let entries = spec_hash_map_iter(&self.supernodes).remaining();
            let ids = cluster_ids(s@);
            assert forall|j: int| 0 <= j < entries.len() implies self.supernodes@.contains_key(
                *(#[trigger] entries[j]).0,
            ) && self.supernodes@[*entries[j].0] == *entries[j].1 by {
                assert(self.supernodes@.contains_key(*entries[j].0));
            }
            assert forall|a: int, b: int| 0 <= a < ids.len() && 0 <= b < ids.len() && a != b
                implies ids[a] != ids[b] by {
                if ids[a] == ids[b] {
                    assert(s@[a].i == *entries[a].0 && s@[b].i == *entries[b].0);
                    assert(entries[a] == entries[b]);
                }
            }
            assert forall|id: u32| ids.to_set().contains(id) <==> self@.supernodes.dom().contains(
                id,
            ) by {
                if ids.to_set().contains(id) {
                    let j = choose|j: int| 0 <= j < ids.len() && ids[j] == id;
                    assert(s@[j].i == *entries[j].0);
                }
                if self@.supernodes.dom().contains(id) {
                    assert(self.supernodes@.contains_key(id));
                    assert(entries.contains((&id, &self.supernodes@[id])));
                    let j = choose|j: int|
                        0 <= j < entries.len() && entries[j] == (&id, &self.supernodes@[id]);
                    assert(s@[j].i == id);
                    assert(ids[j] == id);
                }
            }
            assert(ids.to_set() =~= self@.supernodes.dom());
            assert forall|k: int| 0 <= k < s@.len() implies self@.supernodes[(#[trigger] s@[k]).i]
                == s@[k].g@ by {
                assert(s@[k].i == *entries[k].0);
            }
        }
        for (k, v) in it: self.nodes.iter()
            invariant
                it.seq() == spec_hash_map_iter(&self.nodes).remaining(),
                q@.len() == it.index(),
                forall|j: int|
                    0 <= j < q@.len() ==> (#[trigger] q@[j]).i == *it.seq()[j].0 && q@[j].info() == (
                    *it.seq()[j].1)@,
        {
            q.push(Node { i: *k, p: v.parent, n: copy_edges(&v.incoming), o: copy_edges(&v.outgoing) });
        }
        proof {
            let entries = spec_hash_map_iter(&self.nodes).remaining();
            let ids = node_ids(q@);
            assert forall|j: int| 0 <= j < entries.len() implies self.nodes@.contains_key(
                *(#[trigger] entries[j]).0,
            ) && self.nodes@[*entries[j].0] == *entries[j].1 by {
                assert(self.nodes@.contains_key(*entries[j].0));
            }
            assert forall|a: int, b: int| 0 <= a < ids.len() && 0 <= b < ids.len() && a != b
                implies ids[a] != ids[b] by {
                if ids[a] == ids[b] {
                    assert(q@[a].i == *entries[a].0 && q@[b].i == *entries[b].0);
                    assert(entries[a] == entries[b]);
                }
            }
            assert forall|id: u32| ids.to_set().contains(id) <==> self@.nodes.dom().contains(
                id,
            ) by {
                if ids.to_set().contains(id) {
                    let j = choose|j: int| 0 <= j < ids.len() && ids[j] == id;
                    assert(q@[j].i == *entries[j].0);
                }
                if self@.nodes.dom().contains(id) {
                    assert(self.nodes@.contains_key(id));
                    assert(entries.contains((&id, &self.nodes@[id])));
                    let j = choose|j: int|
                        0 <= j < entries.len() && entries[j] == (&id, &self.nodes@[id]);
                    assert(q@[j].i == id);
                    assert(ids[j] == id);
                }
            }
            assert(ids.to_set() =~= self@.nodes.dom());
            assert forall|k: int| 0 <= k < q@.len() implies self@.nodes[(#[trigger] q@[k]).i]
                == q@[k].info() by {
                assert(q@[k].i == *entries[k].0);
            }
        }
        MetaFile { s, q }
    }

    /// The model that a snapshot describes. A snapshot that names an id on
    /// more than one record, be it two clusters, two nodes or one of each, is
    /// turned down, with the first id that repeats an earlier one.
    pub fn deserialize(file: MetaFile) -> (result: Result<Self, SnapshotError>)
        ensures
            match result {
                Ok(meta) => file.ids().no_duplicates() && meta@ == file.model(),
                Err(e) => !file.ids().no_duplicates() && e == SnapshotError::DuplicateId(
                    file.ids()[file.first_repeat()],
                ),
            },
    {
        let mut supernodes: HashMap<u32, Vec<u32>> = HashMap::new();
        let mut nodes: HashMap<u32, NodeInfo> = HashMap::new();
        let ghost a = cluster_ids(file.s@);
        let ghost b = node_ids(file.q@);
        let mut i: usize = 0;
        proof {
            assert(file.s@.take(0) == Seq::<Supernode>::empty());
            assert(members_view(supernodes@) =~= clusters_of(file.s@.take(0)));
        }
        while i < file.s.len()
            invariant
                i <= file.s.len(),
                a == cluster_ids(file.s@),
                b == node_ids(file.q@),
                nodes@ == Map::<u32, NodeInfo>::empty(),
                a.take(i as int).no_duplicates(),
                supernodes@.dom() == a.take(i as int).to_set(),
                members_view(supernodes@) == clusters_of(file.s@.take(i as int)),
            decreases file.s.len() - i,
        {
            let record = &file.s[i];
            proof {
                assert(file.ids().take(i as int) == a.take(i as int));
                assert(file.ids()[i as int] == record.i);
                assert(a.take(i + 1) == a.take(i as int).push(record.i));
                a.take(i as int).lemma_push_to_set_commute(record.i);
                assert(file.s@.take(i + 1).drop_last() == file.s@.take(i as int));
            }
            if supernodes.contains_key(&record.i) {
                proof {
                    lemma_first_repeat(file, i as int);
                }
                return Err(SnapshotError::DuplicateId(record.i));
            }
            supernodes.insert(record.i, record.g.clone());
            proof {
                let done = a.take(i as int);
                assert(!done.contains(record.i));
                assert forall|x: int, y: int|
                    0 <= x < done.len() + 1 && 0 <= y < done.len() + 1 && x != y implies done.push(
                    record.i,
                )[x] != done.push(record.i)[y] by {
                    if x < done.len() && y < done.len() {
                    } else if x < done.len() {
                        assert(done.contains(done[x]));
                    } else {
                        assert(done.contains(done[y]));
                    }
                }
                assert(members_view(supernodes@) =~= clusters_of(file.s@.take(i + 1)));
            }
            i += 1;
        }
        let mut j: usize = 0;
        proof {
            assert(a.take(a.len() as int) == a);
            assert(file.s@.take(file.s@.len() as int) == file.s@);
            assert(b.take(0) == Seq::<u32>::empty());
            assert(a + b.take(0) == a);
            assert(file.q@.take(0) == Seq::<Node>::empty());
            assert(nodes_view(nodes@) =~= nodes_of(file.q@.take(0)));
        }
        while j < file.q.len()
            invariant
                j <= file.q.len(),
                a == cluster_ids(file.s@),
                b == node_ids(file.q@),
                (a + b.take(j as int)).no_duplicates(),
                supernodes@.dom() == a.to_set(),
                members_view(supernodes@) == clusters_of(file.s@),
                nodes@.dom() == b.take(j as int).to_set(),
                nodes_view(nodes@) == nodes_of(file.q@.take(j as int)),
            decreases file.q.len() - j,
        {
            let record = &file.q[j];
            let ghost done = a + b.take(j as int);
            proof {
                assert(file.ids().take(a.len() + j) == done);
                assert(file.ids()[a.len() + j] == record.i);
                assert(b.take(j + 1) == b.take(j as int).push(record.i));
                b.take(j as int).lemma_push_to_set_commute(record.i);
                assert(a + b.take(j + 1) == done.push(record.i));
                assert(file.q@.take(j + 1).drop_last() == file.q@.take(j as int));
                vstd::seq_lib::lemma_seq_concat_contains_all_elements(
                    a,
                    b.take(j as int),
                    record.i,
                );
            }
            if nodes.contains_key(&record.i) || supernodes.contains_key(&record.i) {
                proof {
                    lemma_first_repeat(file, a.len() + j);
                }
                return Err(SnapshotError::DuplicateId(record.i));
            }
            nodes.insert(record.i, NodeInfo::new(&record.p, &record.n, &record.o));
            proof {
                assert(!done.contains(record.i));
                assert forall|x: int, y: int|
                    0 <= x < done.len() + 1 && 0 <= y < done.len() + 1 && x != y implies done.push(
                    record.i,
                )[x] != done.push(record.i)[y] by {
                    if x < done.len() && y < done.len() {
                    } else if x < done.len() {
                        assert(done.contains(done[x]));
                    } else {
                        assert(done.contains(done[y]));
                    }
                }
                assert(nodes_view(nodes@) =~= nodes_of(file.q@.take(j + 1)));
            }
            j += 1;
        }
        proof {
            assert(b.take(b.len() as int) == b);
            assert(file.q@.take(file.q@.len() as int) == file.q@);
        }
        Ok(Meta::new(supernodes, nodes))
    }
}

/// Takes every occurrence of `id` out of the list; the others keep their order.
pub fn remove_id(ids: &mut Vec<u32>, id: u32)
    ensures
        final(ids)@ == without(old(ids)@, id),
{
    let mut kept: Vec<u32> = Vec::new();
    let mut i: usize = 0;
    proof {
        lemma_without_empty(id);
        assert(ids@.take(0) == Seq::<u32>::empty());
    }
    while i < ids.len()
        invariant
            i <= ids.len(),
            kept@ == without(ids@.take(i as int), id),
        decreases ids.len() - i,
    {
        let x = ids[i];
        proof {
            assert(ids@.take(i + 1) == ids@.take(i as int).push(x));
            lemma_without_push(ids@.take(i as int), x, id);
        }
        if x != id {
            kept.push(x);
        }
        i += 1;
    }
    assert(ids@.take(ids.len() as int) == ids@);
    *ids = kept;
}

} // verus!
