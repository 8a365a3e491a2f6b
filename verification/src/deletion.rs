use vstd::prelude::*;
use crate::clique::{cliques_view, pruned, relabeled, Clique};
use crate::meta::{remove_id, Meta};
use crate::metadata::MetaData;
use crate::model::MetaView;
use crate::node::{copy_edges, NodeInfo};
use crate::pass::{
    lemma_batch_fault, lemma_delete_keeps, lemma_fault_stays, lemma_tied_meets, role, PassError,
    PassView,
};
use crate::seqs::{intersects, lemma_without_contains, renamed};
use crate::triple::{Edge, Triple};

verus! {

broadcast use vstd::std_specs::hash::group_hash_axioms;

/// The state of a pass, read off its parts.
pub open spec fn pass_view(meta: MetaView, source: Seq<Clique>, target: Seq<Clique>) -> PassView {
    PassView { meta, source: cliques_view(source), target: cliques_view(target) }
}

/// Whether `edge` occurs in the list.
fn holds_edge(edges: &Vec<Edge>, edge: Edge) -> (found: bool)
    ensures
        found == edges@.contains(edge),
{
    let mut i: usize = 0;
    while i < edges.len()
        invariant
            i <= edges.len(),
            forall|j: int| 0 <= j < i ==> edges@[j] != edge,
        decreases edges.len() - i,
    {
        let e = edges[i];
        if e.0 == edge.0 && e.1 == edge.1 {
            return true;
        }
        i += 1;
    }
    false
}

/// Whether some edge occurs in both lists.
pub fn intersects_for_vec_vec(v1: &Vec<Edge>, v2: &Vec<Edge>) -> (found: bool)
    ensures
        found == intersects(v1@, v2@),
{
    let mut i: usize = 0;
    while i < v1.len()
        invariant
            i <= v1.len(),
            forall|j: int| 0 <= j < i ==> !v2@.contains(#[trigger] v1@[j]),
        decreases v1.len() - i,
    {
        if holds_edge(v2, v1[i]) {
            return true;
        }
        i += 1;
    }
    false
}

/// The incoming edges of the given nodes, node after node, and their
/// outgoing edges likewise.
pub fn get_inc_and_out(meta: &Meta, snode: &Vec<u32>) -> (edges: (Vec<Edge>, Vec<Edge>))
    requires
        forall|i: int| 0 <= i < snode@.len() ==> meta@.nodes.contains_key(#[trigger] snode@[i]),
    ensures
        edges.0@ == meta@.gathered_edges(snode@, false),
        edges.1@ == meta@.gathered_edges(snode@, true),
{
    let mut inc: Vec<Edge> = Vec::new();
    let mut out: Vec<Edge> = Vec::new();
    let mut i: usize = 0;
    assert(snode@.take(0) == Seq::<u32>::empty());
    while i < snode.len()
        invariant
            i <= snode.len(),
            forall|i: int| 0 <= i < snode@.len() ==> meta@.nodes.contains_key(#[trigger] snode@[i]),
            inc@ == meta@.gathered_edges(snode@.take(i as int), false),
            out@ == meta@.gathered_edges(snode@.take(i as int), true),
        decreases snode.len() - i,
    {
        let info = meta.node(&snode[i]);
        let mut more_inc = copy_edges(&info.incoming);
        let mut more_out = copy_edges(&info.outgoing);
        inc.append(&mut more_inc);
        out.append(&mut more_out);
        proof {
            let next = snode@.take(i + 1);
            assert(next.drop_last() == snode@.take(i as int));
            assert(next.last() == snode@[i as int]);
        }
        i += 1;
    }
    assert(snode@.take(snode.len() as int) == snode@);
    (inc, out)
}

/// Looks at the cluster of `node` again: the node stays where one of its
/// edges, incoming or outgoing, is also an edge of another member, and is
/// detached otherwise.
pub fn handle_split(meta: &mut Meta, node: &u32)
    requires
        old(meta)@.wf(),
        old(meta)@.nodes.contains_key(*node),
        old(meta)@.nodes[*node].parent is Some,
    ensures
        final(meta)@ == old(meta)@.split(*node),
        final(meta)@.wf(),
{
    let info = meta.node(node);
    let p = info.parent.unwrap();
    assert(meta@.supernodes.contains_key(p));
    let mut rest = meta.members(&p).clone();
    remove_id(&mut rest, *node);
    proof {
        assert forall|i: int| 0 <= i < rest@.len() implies meta@.nodes.contains_key(
            #[trigger] rest@[i],
        ) by {
            assert(rest@.contains(rest@[i]));
            lemma_without_contains(meta@.supernodes[p], *node, rest@[i]);
            let k = choose|k: int|
                0 <= k < meta@.supernodes[p].len() && meta@.supernodes[p][k] == rest@[i];
            assert(meta@.is_child(meta@.supernodes[p][k], p));
        }
        lemma_tied_meets(meta@, *node);
    }
    let (rest_inc, rest_out) = get_inc_and_out(meta, &rest);
    let tied = intersects_for_vec_vec(&info.incoming, &rest_inc) || intersects_for_vec_vec(
        &info.incoming,
        &rest_out,
    ) || intersects_for_vec_vec(&info.outgoing, &rest_inc) || intersects_for_vec_vec(
        &info.outgoing,
        &rest_out,
    );
    if !tied {
        meta.remove_from_supernode(node);
    }
}

/// Turns every entry `from` of the list into `to`.
fn rename_id(ids: &mut Vec<u32>, from: u32, to: u32)
    ensures
        final(ids)@ == renamed(old(ids)@, from, to),
{
    let mut i: usize = 0;
    while i < ids.len()
        invariant
            i <= ids.len(),
            ids@.len() == old(ids)@.len(),
            forall|j: int| 0 <= j < i ==> ids@[j] == renamed(old(ids)@, from, to)[j],
            forall|j: int| i <= j < ids@.len() ==> ids@[j] == old(ids)@[j],
        decreases ids.len() - i,
    {
        if ids[i] == from {
            ids[i] = to;
        }
        i += 1;
    }
}

/// Brings the fingerprint of a clique in line with the edges of its only
/// member. The clique is that of the subject of `triple` among `clique`, the
/// cliques of its role (of the object, if `is_sub` is false). Where the clique
/// has one member and no edge of the node carries the predicate of `triple`
/// any more, the predicate leaves the fingerprint; else nothing changes.
pub fn remove_preds_in_clique(
    stuff: &MetaData,
    triple: &Triple,
    clique: &mut Vec<Clique>,
    is_sub: bool,
)
    requires
        stuff.meta@.wf(),
        stuff.meta@.nodes.contains_key(triple.endpoint(is_sub)),
        stuff.index_map@.contains_key(triple.endpoint(is_sub)),
        stuff.index_map@[triple.endpoint(is_sub)][role(is_sub)] < old(clique)@.len(),
    ensures
        cliques_view(final(clique)@) == pruned(
            cliques_view(old(clique)@),
            stuff.index_map@[triple.endpoint(is_sub)][role(is_sub)] as int,
            triple.pred,
            stuff.meta@.has_pred(triple.endpoint(is_sub), triple.pred, is_sub),
        ),
{
    let node = if is_sub { triple.sub } else { triple.obj };
    let entry = stuff.index_map.get(&node).unwrap();
    let slot = if is_sub { entry[0] } else { entry[1] };
    if clique[slot].nodes.len() == 1 {
        let justified = if is_sub {
            stuff.meta.has_outgoing_pred(&node, &triple.pred)
        } else {
            stuff.meta.has_incoming_pred(&node, &triple.pred)
        };
        if !justified {
            remove_id(&mut clique[slot].preds, triple.pred);
        }
    }
}

/// Dissolves cluster `snode` where it is down to one member: that member
/// has no parent afterwards, the cluster is gone, and its entry in its source
/// clique and in its target clique now names the member. A cluster of any
/// other size is left as it is.
pub fn handle_singleton_supernodes(
    stuff: &mut MetaData,
    sc: &mut Vec<Clique>,
    tc: &mut Vec<Clique>,
    snode: &u32,
)
    requires
        old(stuff).meta@.wf(),
        old(stuff).meta@.supernodes.contains_key(*snode),
        old(stuff).index_map@.contains_key(*snode),
        old(stuff).index_map@[*snode][0] < old(sc)@.len(),
        old(stuff).index_map@[*snode][1] < old(tc)@.len(),
    ensures
        pass_view(final(stuff).meta@, final(sc)@, final(tc)@) == pass_view(
            old(stuff).meta@,
            old(sc)@,
            old(tc)@,
        ).tidy(old(stuff).index_map@, *snode),
        final(stuff).index_map@ == old(stuff).index_map@,
        final(stuff).triples@ == old(stuff).triples@,
        final(stuff).meta@.wf(),
{
    let entry = stuff.index_map.get(snode).unwrap();
    let source_index = entry[0];
    let target_index = entry[1];
    if stuff.meta.supernode_len(snode) == 1 {
        let last = stuff.meta.members(snode)[0];
        stuff.meta.to_single_node(snode);
        rename_id(&mut sc[source_index].nodes, *snode, last);
        rename_id(&mut tc[target_index].nodes, *snode, last);
        assert(cliques_view(sc@) =~= relabeled(
            cliques_view(old(sc)@),
            source_index as int,
            *snode,
            last,
        ));
        assert(cliques_view(tc@) =~= relabeled(
            cliques_view(old(tc)@),
            target_index as int,
            *snode,
            last,
        ));
    }
}

/// Handles one endpoint of a removed triple: the subject, or the object if
/// `is_sub` is false. The edge is taken out of the endpoint. An endpoint that
/// belongs to no cluster then has its clique pruned. An endpoint in a cluster
/// is detached unless an edge still ties it to another member, and the
/// cluster is dissolved if that leaves it with one member.
pub fn settle_endpoint(
    stuff: &mut MetaData,
    triple: &Triple,
    source_clique: &mut Vec<Clique>,
    target_clique: &mut Vec<Clique>,
    is_sub: bool,
)
    requires
        old(stuff).meta@.wf(),
        pass_view(old(stuff).meta@, old(source_clique)@, old(target_clique)@).admits(
            old(stuff).index_map@,
            *triple,
            is_sub,
        ),
    ensures
        pass_view(final(stuff).meta@, final(source_clique)@, final(target_clique)@) == pass_view(
            old(stuff).meta@,
            old(source_clique)@,
            old(target_clique)@,
        ).settle(old(stuff).index_map@, *triple, is_sub),
        final(stuff).index_map@ == old(stuff).index_map@,
        final(stuff).triples@ == old(stuff).triples@,
        final(stuff).meta@.wf(),
{
    let node = if is_sub { triple.sub } else { triple.obj };
    stuff.meta.remove_from_node(triple, is_sub);
    match stuff.meta.get_parent(&node) {
        Some(p) => {
            handle_split(&mut stuff.meta, &node);
            handle_singleton_supernodes(stuff, source_clique, target_clique, &p);
        },
        None => {
            if is_sub {
                remove_preds_in_clique(stuff, triple, source_clique, true);
            } else {
                remove_preds_in_clique(stuff, triple, target_clique, false);
            }
        },
    }
}

/// Handles one removed triple: its subject, then its object. At each the
/// edge is taken out; a node outside any cluster has its clique pruned; a
/// node in a cluster is detached unless an edge still ties it there, and a
/// cluster left with one member is dissolved. The object is handled on what
/// the subject left behind: its parent is read then, not before.
pub fn handle_deletion(
    stuff: &mut MetaData,
    triple: &Triple,
    source_clique: &mut Vec<Clique>,
    target_clique: &mut Vec<Clique>,
)
    requires
        old(stuff).meta@.wf(),
        pass_view(old(stuff).meta@, old(source_clique)@, old(target_clique)@).accepts(
            old(stuff).index_map@,
            *triple,
        ),
    ensures
        pass_view(final(stuff).meta@, final(source_clique)@, final(target_clique)@) == pass_view(
            old(stuff).meta@,
            old(source_clique)@,
            old(target_clique)@,
        ).delete(old(stuff).index_map@, *triple),
        final(stuff).index_map@ == old(stuff).index_map@,
        final(stuff).triples@ == old(stuff).triples@,
        final(stuff).meta@.wf(),
{
    settle_endpoint(stuff, triple, source_clique, target_clique, true);
    settle_endpoint(stuff, triple, source_clique, target_clique, false);
}

/// Handles a batch of removed triples, one after the other in the order of
/// `deletions`.
pub fn delete_triple(
    deletions: &Vec<Triple>,
    source_clique: &mut Vec<Clique>,
    target_clique: &mut Vec<Clique>,
    stuff: &mut MetaData,
)
    requires
        old(stuff).meta@.wf(),
        pass_view(old(stuff).meta@, old(source_clique)@, old(target_clique)@).accepts_all(
            old(stuff).index_map@,
            deletions@,
        ),
    ensures
        pass_view(final(stuff).meta@, final(source_clique)@, final(target_clique)@) == pass_view(
            old(stuff).meta@,
            old(source_clique)@,
            old(target_clique)@,
        ).delete_all(old(stuff).index_map@, deletions@),
        final(stuff).index_map@ == old(stuff).index_map@,
        final(stuff).triples@ == old(stuff).triples@,
        final(stuff).meta@.wf(),
        final(stuff).meta@.singletons_within(old(stuff).meta@),
        old(stuff).meta@.no_singletons() ==> final(stuff).meta@.no_singletons(),
{
    let ghost start = pass_view(stuff.meta@, source_clique@, target_clique@);
    let ghost index = stuff.index_map@;
    let mut i: usize = 0;
    assert(deletions@.take(0) == Seq::<Triple>::empty());
    while i < deletions.len()
        invariant
            i <= deletions.len(),
            stuff.index_map@ == index,
            stuff.triples@ == old(stuff).triples@,
            stuff.meta@.wf(),
            start.meta == old(stuff).meta@,
            pass_view(stuff.meta@, source_clique@, target_clique@) == start.delete_all(
                index,
                deletions@.take(i as int),
            ),
            pass_view(stuff.meta@, source_clique@, target_clique@).accepts_all(index, deletions@),
            stuff.meta@.singletons_within(start.meta),
        decreases deletions.len() - i,
    {
        let ghost now = pass_view(stuff.meta@, source_clique@, target_clique@);
        proof {
            assert(now.accepts(index, deletions@[i as int]));
            lemma_delete_keeps(now, index, deletions@[i as int]);
            let done = deletions@.take(i + 1);
            assert(done.drop_last() == deletions@.take(i as int));
            assert(done.last() == deletions@[i as int]);
        }
        handle_deletion(stuff, &deletions[i], source_clique, target_clique);
        i += 1;
    }
    assert(deletions@.take(deletions.len() as int) == deletions@);
}

/// What keeps one endpoint of `triple` from being handled on this state, if
/// anything does.
pub fn endpoint_fault(
    stuff: &MetaData,
    triple: &Triple,
    source_clique: &Vec<Clique>,
    target_clique: &Vec<Clique>,
    is_sub: bool,
) -> (fault: Option<PassError>)
    ensures
        fault == pass_view(stuff.meta@, source_clique@, target_clique@).fault(
            stuff.index_map@,
            *triple,
            is_sub,
        ),
{
    let node = if is_sub { triple.sub } else { triple.obj };
    if !stuff.meta.contains_node(&node) {
        return Some(PassError::UnknownNode(node));
    }
    match stuff.index_map.get(&node) {
        None => {
            return Some(PassError::Unplaced(node));
        },
        Some(entry) => {
            if is_sub {
                if entry[0] >= source_clique.len() {
                    return Some(PassError::Unplaced(node));
                }
            } else {
                if entry[1] >= target_clique.len() {
                    return Some(PassError::Unplaced(node));
                }
            }
        },
    }
    match stuff.meta.get_parent(&node) {
        None => None,
        Some(p) => match stuff.index_map.get(&p) {
            None => Some(PassError::Unplaced(p)),
            Some(entry) => {
                if entry[0] >= source_clique.len() || entry[1] >= target_clique.len() {
                    Some(PassError::Unplaced(p))
                } else {
                    None
                }
            },
        },
    }
}

/// What keeps the batch from being handled on this state: the fault of the
/// first triple that has one, at its subject or else at its object. A batch
/// without fault is one that `delete_triple` takes.
pub fn batch_fault(
    deletions: &Vec<Triple>,
    source_clique: &Vec<Clique>,
    target_clique: &Vec<Clique>,
    stuff: &MetaData,
) -> (fault: Option<PassError>)
    ensures
        fault == pass_view(stuff.meta@, source_clique@, target_clique@).batch_fault(
            stuff.index_map@,
            deletions@,
        ),
        fault is None <==> pass_view(stuff.meta@, source_clique@, target_clique@).accepts_all(
            stuff.index_map@,
            deletions@,
        ),
{
    let ghost state = pass_view(stuff.meta@, source_clique@, target_clique@);
    proof {
        lemma_batch_fault(state, stuff.index_map@, deletions@);
    }
    let mut i: usize = 0;
    assert(deletions@.take(0) == Seq::<Triple>::empty());
    while i < deletions.len()
        invariant
            i <= deletions.len(),
            state == pass_view(stuff.meta@, source_clique@, target_clique@),
            state.batch_fault(stuff.index_map@, deletions@.take(i as int)) is None,
        decreases deletions.len() - i,
    {
        let ghost seen = deletions@.take(i + 1);
        proof {
            assert(seen.drop_last() == deletions@.take(i as int));
            assert(seen.last() == deletions@[i as int]);
        }
        let at_subject = endpoint_fault(stuff, &deletions[i], source_clique, target_clique, true);
        let found = match at_subject {
            Some(e) => Some(e),
            None => endpoint_fault(stuff, &deletions[i], source_clique, target_clique, false),
        };
        if found.is_some() {
            proof {
                lemma_fault_stays(state, stuff.index_map@, deletions@, i + 1);
            }
            return found;
        }
        i += 1;
    }
    assert(deletions@.take(deletions.len() as int) == deletions@);
    None
}

/// Handles a batch of removed triples if it can be handled, and says why
/// not otherwise; nothing is changed then. The model has to satisfy its
/// invariant, and the batch has to be without fault.
pub fn try_delete_triple(
    deletions: &Vec<Triple>,
    source_clique: &mut Vec<Clique>,
    target_clique: &mut Vec<Clique>,
    stuff: &mut MetaData,
) -> (result: Result<(), PassError>)
    ensures
        final(stuff).index_map@ == old(stuff).index_map@,
        final(stuff).triples@ == old(stuff).triples@,
        match result {
            Ok(_) => {
                &&& old(stuff).meta@.wf()
                &&& pass_view(old(stuff).meta@, old(source_clique)@, old(target_clique)@).accepts_all(
                    old(stuff).index_map@,
                    deletions@,
                )
                &&& pass_view(final(stuff).meta@, final(source_clique)@, final(target_clique)@)
                    == pass_view(
                    old(stuff).meta@,
                    old(source_clique)@,
                    old(target_clique)@,
                ).delete_all(old(stuff).index_map@, deletions@)
                &&& final(stuff).meta@.wf()
                &&& final(stuff).meta@.singletons_within(old(stuff).meta@)
            },
            Err(e) => {
                &&& final(stuff).meta@ == old(stuff).meta@
                &&& final(source_clique)@ == old(source_clique)@
                &&& final(target_clique)@ == old(target_clique)@
                &&& if !old(stuff).meta@.wf() {
                    e == PassError::BrokenModel
                } else {
                    Some(e) == pass_view(
                        old(stuff).meta@,
                        old(source_clique)@,
                        old(target_clique)@,
                    ).batch_fault(old(stuff).index_map@, deletions@)
                }
            },
        },
{
    if !stuff.meta.is_well_formed() {
        return Err(PassError::BrokenModel);
    }
    match batch_fault(deletions, source_clique, target_clique, stuff) {
        Some(e) => Err(e),
        None => {
            delete_triple(deletions, source_clique, target_clique, stuff);
            Ok(())
        },
    }
}

/// The outgoing edges of a node in one list: for each edge its predicate,
/// then its target.
pub fn group_outgoing_edges(nodeinfo: &NodeInfo) -> (flat: Vec<u32>)
    ensures
        flat@.len() == 2 * nodeinfo@.outgoing.len(),
        forall|k: int|
            0 <= k < nodeinfo@.outgoing.len() ==> flat@[2 * k] == (#[trigger] nodeinfo@.outgoing[k]).0
                && flat@[2 * k + 1] == nodeinfo@.outgoing[k].1,
{
    let mut flat: Vec<u32> = Vec::new();
    let mut i: usize = 0;
    while i < nodeinfo.outgoing.len()
        invariant
            i <= nodeinfo.outgoing.len(),
            flat@.len() == 2 * i,
            forall|k: int|
                0 <= k < i ==> flat@[2 * k] == (#[trigger] nodeinfo@.outgoing[k]).0 && flat@[2 * k
                    + 1] == nodeinfo@.outgoing[k].1,
        decreases nodeinfo.outgoing.len() - i,
    {
        let edge = nodeinfo.outgoing[i];
        flat.push(edge.0);
        flat.push(edge.1);
        i += 1;
    }
    flat
}

} // verus!
