use vstd::prelude::*;
use crate::model::MetaView;
use crate::node::NodeView;
use crate::triple::Edge;

verus! {

/// The record of one cluster in a snapshot: its id `i` and its members `g`.
#[derive(Clone, Debug, PartialEq, Eq)]
pub struct Supernode {
    pub i: u32,
    pub g: Vec<u32>,
}

/// The record of one node in a snapshot: its id `i`, its parent `p`, its
/// incoming edges `n` and its outgoing edges `o`.
#[derive(Clone, Debug, PartialEq, Eq)]
pub struct Node {
    pub i: u32,
    pub p: Option<u32>,
    pub n: Vec<Edge>,
    pub o: Vec<Edge>,
}

/// A snapshot of the graph model: the cluster records `s` and the node
/// records `q`. The order of the records carries no meaning.
#[derive(Clone, Debug, PartialEq, Eq)]
pub struct MetaFile {
    pub s: Vec<Supernode>,
    pub q: Vec<Node>,
}

/// Why a snapshot was turned down.
#[derive(Debug, PartialEq, Eq, Clone, Copy)]
pub enum SnapshotError {
    /// The id stands on more than one record.
    DuplicateId(u32),
}

impl Node {
    /// The node record without its id.
    pub open spec fn info(self) -> NodeView {
        NodeView { parent: self.p, incoming: self.n@, outgoing: self.o@ }
    }
}

/// The ids of the cluster records, in order.
pub open spec fn cluster_ids(s: Seq<Supernode>) -> Seq<u32> {
    s.map_values(|r: Supernode| r.i)
}

/// The ids of the node records, in order.
pub open spec fn node_ids(q: Seq<Node>) -> Seq<u32> {
    q.map_values(|r: Node| r.i)
}

/// The cluster table that the records give when each is entered in turn.
pub open spec fn clusters_of(s: Seq<Supernode>) -> Map<u32, Seq<u32>>
    decreases s.len(),
{
    if s.len() == 0 {
        Map::empty()
    } else {
        clusters_of(s.drop_last()).insert(s.last().i, s.last().g@)
    }
}

/// The node table that the records give when each is entered in turn.
pub open spec fn nodes_of(q: Seq<Node>) -> Map<u32, NodeView>
    decreases q.len(),
{
    if q.len() == 0 {
        Map::empty()
    } else {
        nodes_of(q.drop_last()).insert(q.last().i, q.last().info())
    }
}

impl MetaFile {
    /// The ids of all records: those of the clusters, then those of the nodes.
    pub open spec fn ids(self) -> Seq<u32> {
        cluster_ids(self.s@) + node_ids(self.q@)
    }

    /// The first place in `ids` whose id stands at an earlier place too.
    pub open spec fn first_repeat(self) -> int {
        choose|k: int|
            0 <= k < self.ids().len() && self.ids().take(k).contains(self.ids()[k])
                && self.ids().take(k).no_duplicates()
    }

    /// The model that the snapshot describes.
    pub open spec fn model(self) -> MetaView {
        MetaView { supernodes: clusters_of(self.s@), nodes: nodes_of(self.q@) }
    }

    /// Whether the snapshot holds the model `m`: one record for each cluster
    /// and one for each node, with the member list, the parent and the edge
    /// lists as they are in `m`.
    pub open spec fn depicts(self, m: MetaView) -> bool {
        &&& cluster_ids(self.s@).no_duplicates()
        &&& cluster_ids(self.s@).to_set() == m.supernodes.dom()
        &&& forall|k: int|
            0 <= k < self.s@.len() ==> m.supernodes[(#[trigger] self.s@[k]).i] == self.s@[k].g@
        &&& node_ids(self.q@).no_duplicates()
        &&& node_ids(self.q@).to_set() == m.nodes.dom()
        &&& forall|k: int|
            0 <= k < self.q@.len() ==> m.nodes[(#[trigger] self.q@[k]).i] == self.q@[k].info()
    }
}

/// The place of the first repeat is the one place that repeats an earlier
/// id while no id before it does.
pub proof fn lemma_first_repeat(file: MetaFile, k: int)
    requires
        0 <= k < file.ids().len(),
        file.ids().take(k).contains(file.ids()[k]),
        file.ids().take(k).no_duplicates(),
    ensures
        file.first_repeat() == k,
        !file.ids().no_duplicates(),
{
    let ids = file.ids();
    let f = file.first_repeat();
    let j = choose|j: int| 0 <= j < ids.take(k).len() && ids.take(k)[j] == ids[k];
    assert(ids[j] == ids[k] && j != k);
    if f < k {
        let a = choose|a: int| 0 <= a < ids.take(f).len() && ids.take(f)[a] == ids[f];
        assert(ids.take(k)[a] == ids.take(k)[f]);
    } else if f > k {
        assert(ids.take(f)[j] == ids.take(f)[k]);
    }
}

/// Entering records with distinct ids gives a table with one entry for each.
pub proof fn lemma_clusters_of(s: Seq<Supernode>)
    requires
        cluster_ids(s).no_duplicates(),
    ensures
        clusters_of(s).dom() == cluster_ids(s).to_set(),
        forall|k: int| 0 <= k < s.len() ==> clusters_of(s)[(#[trigger] s[k]).i] == s[k].g@,
    decreases s.len(),
{
    if s.len() == 0 {
        assert(clusters_of(s).dom() =~= cluster_ids(s).to_set());
    } else {
        let init = s.drop_last();
        assert(cluster_ids(init) == cluster_ids(s).drop_last());
        assert forall|a: int, b: int|
            0 <= a < init.len() && 0 <= b < init.len() && a != b implies cluster_ids(init)[a]
            != cluster_ids(init)[b] by {
            assert(cluster_ids(s)[a] != cluster_ids(s)[b]);
        }
        lemma_clusters_of(init);
        assert(cluster_ids(s) == cluster_ids(init).push(s.last().i));
        cluster_ids(init).lemma_push_to_set_commute(s.last().i);
        assert forall|k: int| 0 <= k < s.len() implies clusters_of(s)[(#[trigger] s[k]).i]
            == s[k].g@ by {
            if k < init.len() {
                assert(cluster_ids(s)[k] != cluster_ids(s)[s.len() - 1]);
                assert(init[k] == s[k]);
            }
        }
    }
}

/// Entering records with distinct ids gives a table with one entry for each.
pub proof fn lemma_nodes_of(q: Seq<Node>)
    requires
        node_ids(q).no_duplicates(),
    ensures
        nodes_of(q).dom() == node_ids(q).to_set(),
        forall|k: int| 0 <= k < q.len() ==> nodes_of(q)[(#[trigger] q[k]).i] == q[k].info(),
    decreases q.len(),
{
    if q.len() == 0 {
        assert(nodes_of(q).dom() =~= node_ids(q).to_set());
    } else {
        let init = q.drop_last();
        assert(node_ids(init) == node_ids(q).drop_last());
        assert forall|a: int, b: int|
            0 <= a < init.len() && 0 <= b < init.len() && a != b implies node_ids(init)[a]
            != node_ids(init)[b] by {
            assert(node_ids(q)[a] != node_ids(q)[b]);
        }
        lemma_nodes_of(init);
        assert(node_ids(q) == node_ids(init).push(q.last().i));
        node_ids(init).lemma_push_to_set_commute(q.last().i);
        assert forall|k: int| 0 <= k < q.len() implies nodes_of(q)[(#[trigger] q[k]).i]
            == q[k].info() by {
            if k < init.len() {
                assert(node_ids(q)[k] != node_ids(q)[q.len() - 1]);
                assert(init[k] == q[k]);
            }
        }
    }
}

} // verus!
