use vstd::prelude::*;
use crate::model::MetaView;
use crate::pass::{lemma_delete_keeps, lemma_settle_admits, lemma_settle_wf, PassView};
use crate::seqs::{lemma_without_contains, lemma_without_len, without};
use crate::snapshot::{
    cluster_ids, clusters_of, lemma_clusters_of, lemma_nodes_of, node_ids, nodes_of, MetaFile,
};
use crate::triple::Triple;
use crate::wellformed::{lemma_gathered_contains, lemma_members_of};

verus! {

/// The ids are partitioned. In a model that satisfies its invariant no id
/// names both a node and a cluster, and no id stands in the member lists of
/// two clusters. The members of a cluster are nodes themselves, so the node
/// ids and the ids on member lists have nothing in common only where every
/// member list is empty.
pub proof fn lemma_partition(m: MetaView)
    requires
        m.wf(),
    ensures
        forall|id: u32| !(m.nodes.contains_key(id) && m.supernodes.contains_key(id)),
        forall|p: u32, q: u32, id: u32|
            m.supernodes.contains_key(p) && m.supernodes.contains_key(q) && p != q ==> !(
            m.supernodes[p].contains(id) && m.supernodes[q].contains(id)),
        (forall|p: u32, id: u32|
            m.supernodes.contains_key(p) && m.supernodes[p].contains(id) ==> !m.nodes.contains_key(
                id,
            )) <==> (forall|p: u32| m.supernodes.contains_key(p) ==> m.supernodes[p].len() == 0),
{
    assert forall|id: u32| !(m.nodes.contains_key(id) && m.supernodes.contains_key(id)) by {}
    assert forall|p: u32, q: u32, id: u32|
        m.supernodes.contains_key(p) && m.supernodes.contains_key(q) && p != q implies !(
    m.supernodes[p].contains(id) && m.supernodes[q].contains(id)) by {
        if m.supernodes[p].contains(id) && m.supernodes[q].contains(id) {
            let i = choose|i: int| 0 <= i < m.supernodes[p].len() && m.supernodes[p][i] == id;
            let j = choose|j: int| 0 <= j < m.supernodes[q].len() && m.supernodes[q][j] == id;
            assert(m.is_child(m.supernodes[p][i], p));
            assert(m.is_child(m.supernodes[q][j], q));
        }
    }
    if forall|p: u32, id: u32|
        m.supernodes.contains_key(p) && m.supernodes[p].contains(id) ==> !m.nodes.contains_key(id) {
        assert forall|p: u32| m.supernodes.contains_key(p) implies m.supernodes[p].len() == 0 by {
            if m.supernodes[p].len() > 0 {
                assert(m.is_child(m.supernodes[p][0], p));
                assert(m.supernodes[p].contains(m.supernodes[p][0]));
            }
        }
    }
}

/// Parents and member lists agree. In a model that satisfies its invariant
/// a node with a parent stands exactly once in the member list of that
/// parent, which is a cluster, and a node without parent stands in none.
pub proof fn lemma_parent_consistency(m: MetaView, n: u32)
    requires
        m.wf(),
        m.nodes.contains_key(n),
    ensures
        m.nodes[n].parent matches Some(p) ==> {
            &&& m.supernodes.contains_key(p)
            &&& exists|i: int| 0 <= i < m.supernodes[p].len() && m.supernodes[p][i] == n
            &&& forall|i: int, j: int|
                0 <= i < m.supernodes[p].len() && 0 <= j < m.supernodes[p].len()
                    && m.supernodes[p][i] == n && m.supernodes[p][j] == n ==> i == j
        },
        m.nodes[n].parent is None ==> forall|p: u32|
            m.supernodes.contains_key(p) ==> !m.supernodes[p].contains(n),
{
    if m.nodes[n].parent is None {
        assert forall|p: u32| m.supernodes.contains_key(p) implies !m.supernodes[p].contains(n) by {
            if m.supernodes[p].contains(n) {
                let i = choose|i: int| 0 <= i < m.supernodes[p].len() && m.supernodes[p][i] == n;
                assert(m.is_child(m.supernodes[p][i], p));
            }
        }
    }
}

/// What a merge makes. The new cluster is there and the clusters that went
/// into it are gone; its members are exactly the nodes that the merged ids
/// brought, each of them now with the new cluster as its parent; and every
/// other cluster is as it was.
pub proof fn lemma_merge(m: MetaView, ids: Seq<u32>, new: u32)
    requires
        m.wf(),
        m.mergeable(ids),
        !m.contains(new),
    ensures
        m.merged(ids, new).supernodes.contains_key(new),
        forall|i: int| 0 <= i < ids.len() ==> !m.merged(ids, new).supernodes.contains_key(ids[i]),
        forall|n: u32|
            m.merged(ids, new).supernodes[new].contains(n) <==> exists|i: int|
                0 <= i < ids.len() && m.members_of(#[trigger] ids[i]).contains(n),
        forall|n: u32|
            m.merged(ids, new).supernodes[new].contains(n) ==> m.merged(ids, new).is_child(n, new),
        forall|p: u32|
            m.supernodes.contains_key(p) && !ids.contains(p) ==> m.merged(
                ids,
                new,
            ).supernodes.contains_key(p) && m.merged(ids, new).supernodes[p] == m.supernodes[p],
{
    let r = m.merged(ids, new);
    assert forall|i: int| 0 <= i < ids.len() implies !r.supernodes.contains_key(ids[i]) by {
        assert(ids.to_set().contains(ids[i]));
        assert(m.contains(ids[i]));
    }
    assert forall|n: u32|
        r.supernodes[new].contains(n) <==> exists|i: int|
            0 <= i < ids.len() && m.members_of(#[trigger] ids[i]).contains(n) by {
        lemma_gathered_contains(m, ids, n);
    }
    assert forall|n: u32| r.supernodes[new].contains(n) implies r.is_child(n, new) by {
        lemma_gathered_contains(m, ids, n);
        let i = choose|i: int| 0 <= i < ids.len() && m.members_of(#[trigger] ids[i]).contains(n);
        lemma_members_of(m, ids[i], n);
    }
    assert forall|p: u32| m.supernodes.contains_key(p) && !ids.contains(p)
        implies r.supernodes.contains_key(p) && r.supernodes[p] == m.supernodes[p] by {
        assert(!ids.to_set().contains(p));
        assert(m.contains(p));
    }
}

/// When a cluster splits. After an endpoint that belongs to a cluster has
/// been handled, the endpoint is still a member if, with the edge gone, it
/// has an edge in common with another member; the model is then as it was
/// but for that edge. If it has none, it has left, and a cluster that keeps
/// two members or more stays, with the other members in their order.
pub proof fn lemma_split_rule(s: PassView, index: Map<u32, [usize; 2]>, t: Triple, is_sub: bool)
    requires
        s.meta.wf(),
        s.admits(index, t, is_sub),
        s.meta.nodes[t.endpoint(is_sub)].parent is Some,
    ensures
        ({
            let e = t.endpoint(is_sub);
            let p = s.meta.nodes[e].parent->0;
            let trimmed = s.meta.without_edge(t, is_sub);
            let after = s.settle(index, t, is_sub);
            &&& trimmed.tied(e) ==> after.meta == trimmed && after.meta.is_child(e, p)
                && after.source == s.source && after.target == s.target
            &&& !trimmed.tied(e) && s.meta.supernodes[p].len() >= 3 ==> after.meta
                == trimmed.detached(e) && after.meta.nodes[e].parent is None
                && after.meta.supernodes.contains_key(p) && after.meta.supernodes[p] == without(
                s.meta.supernodes[p],
                e,
            ) && after.meta.supernodes[p].len() == s.meta.supernodes[p].len() - 1
                && after.source == s.source && after.target == s.target
        }),
{
    let e = t.endpoint(is_sub);
    let p = s.meta.nodes[e].parent->0;
    let trimmed = s.meta.without_edge(t, is_sub);
    let members = s.meta.supernodes[p];
    assert(s.meta.supernodes.contains_key(p) && members.contains(e));
    lemma_without_len(members, e);
    if trimmed.tied(e) {
        let i = choose|i: int|
            0 <= i < members.len() && #[trigger] members[i] != e && trimmed.shares_edge(
                e,
                members[i],
            );
        let j = choose|j: int| 0 <= j < members.len() && members[j] == e;
        assert(i != j);
        assert(members.len() >= 2);
    }
}

/// When a cluster is dissolved. After an endpoint that belongs to a cluster
/// of two has been handled, and has no edge in common with the other member
/// any more, the cluster is gone and neither of the two has a parent.
pub proof fn lemma_collapse_rule(s: PassView, index: Map<u32, [usize; 2]>, t: Triple, is_sub: bool)
    requires
        s.meta.wf(),
        s.admits(index, t, is_sub),
        s.meta.nodes[t.endpoint(is_sub)].parent is Some,
        s.meta.supernodes[s.meta.nodes[t.endpoint(is_sub)].parent->0].len() == 2,
        !s.meta.without_edge(t, is_sub).tied(t.endpoint(is_sub)),
    ensures
        ({
            let e = t.endpoint(is_sub);
            let p = s.meta.nodes[e].parent->0;
            let after = s.settle(index, t, is_sub);
            &&& !after.meta.supernodes.contains_key(p)
            &&& forall|i: int|
                0 <= i < 2 ==> after.meta.is_plain(#[trigger] s.meta.supernodes[p][i])
            &&& forall|q: u32|
                q != p && s.meta.supernodes.contains_key(q) ==> after.meta.supernodes.contains_key(
                    q,
                ) && after.meta.supernodes[q] == s.meta.supernodes[q]
        }),
{
    let e = t.endpoint(is_sub);
    let p = s.meta.nodes[e].parent->0;
    let trimmed = s.meta.without_edge(t, is_sub);
    let members = s.meta.supernodes[p];
    assert(s.meta.supernodes.contains_key(p) && members.contains(e));
    lemma_without_len(members, e);
    let split = trimmed.detached(e);
    let rest = without(members, e);
    assert(split.supernodes[p] == rest);
    assert(rest.len() == 1);
    assert(rest.contains(rest[0]));
    lemma_without_contains(members, e, rest[0]);
    assert(s.meta.is_child(members[0], p));
    assert(s.meta.is_child(members[1], p));
    let k = choose|k: int| 0 <= k < members.len() && members[k] == e;
    let l = choose|l: int| 0 <= l < members.len() && members[l] == rest[0];
    assert(k != l);
}

/// A pass keeps the invariant of the model and makes no cluster of one
/// member: a cluster that has one member after the pass had that one member
/// before, and was not touched. So a model without such clusters has none
/// after the pass either. What could be handled before can be handled after.
pub proof fn lemma_pass(s: PassView, index: Map<u32, [usize; 2]>, batch: Seq<Triple>)
    requires
        s.meta.wf(),
        s.accepts_all(index, batch),
    ensures
        s.delete_all(index, batch).meta.wf(),
        s.delete_all(index, batch).meta.singletons_within(s.meta),
        s.meta.no_singletons() ==> s.delete_all(index, batch).meta.no_singletons(),
        forall|next: Triple|
            s.accepts(index, next) ==> #[trigger] s.delete_all(index, batch).accepts(index, next),
    decreases batch.len(),
{
    if batch.len() > 0 {
        let init = batch.drop_last();
        let t = batch.last();
        assert forall|i: int| 0 <= i < init.len() implies s.accepts(index, #[trigger] init[i]) by {
            assert(init[i] == batch[i]);
        }
        lemma_pass(s, index, init);
        let mid = s.delete_all(index, init);
        assert(s.accepts(index, batch[batch.len() - 1]));
        assert(mid.accepts(index, t));
        lemma_settle_wf(mid, index, t, true);
        lemma_settle_admits(mid, index, t, true, t, false);
        lemma_settle_wf(mid.settle(index, t, true), index, t, false);
        lemma_delete_keeps(mid, index, t);
        assert forall|next: Triple| s.accepts(index, next) implies #[trigger] s.delete_all(
            index,
            batch,
        ).accepts(index, next) by {
            assert(mid.accepts(index, next));
            assert(mid.delete(index, t).accepts(index, next));
        }
    }
}

/// Reading back what was written gives the model again: a snapshot that
/// holds a model whose nodes and clusters share no id names no id twice, and
/// describes that very model.
pub proof fn lemma_round_trip(file: MetaFile, m: MetaView)
    requires
        file.depicts(m),
        m.ids_disjoint(),
    ensures
        file.ids().no_duplicates(),
        file.model() == m,
{
    let a = cluster_ids(file.s@);
    let b = node_ids(file.q@);
    assert forall|i: int, j: int| 0 <= i < a.len() && 0 <= j < b.len() implies a[i] != b[j] by {
        assert(a.to_set().contains(a[i]));
        assert(b.to_set().contains(b[j]));
        assert(m.supernodes.contains_key(a[i]));
        assert(m.nodes.contains_key(b[j]));
    }
    vstd::seq_lib::lemma_no_dup_in_concat(a, b);
    lemma_clusters_of(file.s@);
    lemma_nodes_of(file.q@);
    assert forall|id: u32| m.supernodes.contains_key(id) implies clusters_of(file.s@)[id]
        == m.supernodes[id] by {
        assert(a.to_set().contains(id));
        let k = choose|k: int| 0 <= k < a.len() && a[k] == id;
        assert(file.s@[k].i == id);
    }
    assert forall|id: u32| m.nodes.contains_key(id) implies nodes_of(file.q@)[id]
        == m.nodes[id] by {
        assert(b.to_set().contains(id));
        let k = choose|k: int| 0 <= k < b.len() && b[k] == id;
        assert(file.q@[k].i == id);
    }
    assert(clusters_of(file.s@) =~= m.supernodes);
    assert(nodes_of(file.q@) =~= m.nodes);
}

} // verus!
