use vstd::prelude::*;
use crate::clique::{pruned, relabeled, CliqueView};
use crate::model::MetaView;
use crate::seqs::{intersects, lemma_without_contains, without};
use crate::triple::{Edge, Triple};
use crate::wellformed::{lemma_collapsed_wf, lemma_detached_wf, lemma_edges_wf};

verus! {

/// The place of a clique index in an entry of the index map: the source
/// clique comes first, the target clique second.
pub open spec fn role(is_sub: bool) -> int {
    if is_sub { 0 } else { 1 }
}

impl MetaView {
    /// Whether nodes `a` and `b` have an edge in common: the same predicate
    /// towards, or from, the same id.
    pub open spec fn shares_edge(self, a: u32, b: u32) -> bool {
        exists|e: Edge|
            #![trigger self.nodes[a].edge_set().contains(e)]
            self.nodes[a].edge_set().contains(e) && self.nodes[b].edge_set().contains(e)
    }

    /// Whether node `n` has an edge in common with another member of its cluster.
    pub open spec fn tied(self, n: u32) -> bool {
        let members = self.supernodes[self.nodes[n].parent->0];
        exists|i: int|
            0 <= i < members.len() && #[trigger] members[i] != n && self.shares_edge(n, members[i])
    }

    /// The model after the cluster of `n` has been looked at again: `n` stays
    /// where an edge still ties it to another member, and leaves otherwise.
    pub open spec fn split(self, n: u32) -> MetaView {
        if self.tied(n) { self } else { self.detached(n) }
    }

    /// The edges of the given nodes in one direction, node after node.
    pub open spec fn gathered_edges(self, ids: Seq<u32>, outgoing: bool) -> Seq<Edge>
        decreases ids.len(),
    {
        if ids.len() == 0 {
            Seq::empty()
        } else {
            self.gathered_edges(ids.drop_last(), outgoing) + self.nodes[ids.last()].edges(outgoing)
        }
    }
}

/// Why a batch of removed triples cannot be handled.
#[derive(Clone, Copy, Debug, PartialEq, Eq)]
pub enum PassError {
    /// The graph model breaks its invariant: parents and member lists
    /// disagree, or an id names both a node and a cluster.
    BrokenModel,
    /// A removed triple has this id as an endpoint, and the id names no node.
    UnknownNode(u32),
    /// The index map does not place this id, or places it in a clique that is
    /// not there. The id is an endpoint of a removed triple or the cluster
    /// that such an endpoint belongs to.
    Unplaced(u32),
}

/// All that a maintenance pass works on: the graph model and the cliques of
/// the two roles.
pub struct PassView {
    pub meta: MetaView,
    pub source: Seq<CliqueView>,
    pub target: Seq<CliqueView>,
}

impl PassView {
    /// Whether one endpoint of a removed triple can be handled: it is a node,
    /// the index map places it in a clique of its role, and places the
    /// cluster it belongs to, if any, in a clique of each role.
    pub open spec fn admits(self, index: Map<u32, [usize; 2]>, t: Triple, is_sub: bool) -> bool {
        let e = t.endpoint(is_sub);
        &&& self.meta.nodes.contains_key(e)
        &&& index.contains_key(e)
        &&& index[e][role(is_sub)] < (if is_sub { self.source.len() } else { self.target.len() })
        &&& (self.meta.nodes[e].parent matches Some(p) ==> index.contains_key(p) && index[p][0]
            < self.source.len() && index[p][1] < self.target.len())
    }

    /// What keeps one endpoint of a removed triple from being handled, if
    /// anything does.
    pub open spec fn fault(self, index: Map<u32, [usize; 2]>, t: Triple, is_sub: bool) -> Option<
        PassError,
    > {
        let e = t.endpoint(is_sub);
        if !self.meta.nodes.contains_key(e) {
            Some(PassError::UnknownNode(e))
        } else if !index.contains_key(e) || index[e][role(is_sub)] >= (if is_sub {
            self.source.len()
        } else {
            self.target.len()
        }) {
            Some(PassError::Unplaced(e))
        } else {
            match self.meta.nodes[e].parent {
                Some(p) if !index.contains_key(p) || index[p][0] >= self.source.len() || index[p][1]
                    >= self.target.len() => Some(PassError::Unplaced(p)),
                _ => None,
            }
        }
    }

    /// What keeps a removed triple from being handled: the fault at its
    /// subject, else the one at its object.
    pub open spec fn triple_fault(self, index: Map<u32, [usize; 2]>, t: Triple) -> Option<
        PassError,
    > {
        match self.fault(index, t, true) {
            Some(e) => Some(e),
            None => self.fault(index, t, false),
        }
    }

    /// What keeps a batch from being handled: the fault of the first triple
    /// that has one.
    pub open spec fn batch_fault(self, index: Map<u32, [usize; 2]>, batch: Seq<Triple>) -> Option<
        PassError,
    >
        decreases batch.len(),
    {
        if batch.len() == 0 {
            None
        } else {
            match self.batch_fault(index, batch.drop_last()) {
                Some(e) => Some(e),
                None => self.triple_fault(index, batch.last()),
            }
        }
    }

    /// Whether a removed triple can be handled: both its endpoints can.
    pub open spec fn accepts(self, index: Map<u32, [usize; 2]>, t: Triple) -> bool {
        self.admits(index, t, true) && self.admits(index, t, false)
    }

    /// Whether each triple of a batch can be handled.
    pub open spec fn accepts_all(self, index: Map<u32, [usize; 2]>, batch: Seq<Triple>) -> bool {
        forall|i: int| 0 <= i < batch.len() ==> self.accepts(index, #[trigger] batch[i])
    }

    /// The state after cluster `p` has been looked at: where it is down to
    /// one member it is dissolved, and its entry in its two cliques now names
    /// that member.
    pub open spec fn tidy(self, index: Map<u32, [usize; 2]>, p: u32) -> PassView {
        if self.meta.supernodes[p].len() == 1 {
            let last = self.meta.supernodes[p][0];
            PassView {
                meta: self.meta.collapsed(p),
                source: relabeled(self.source, index[p][0] as int, p, last),
                target: relabeled(self.target, index[p][1] as int, p, last),
            }
        } else {
            self
        }
    }

    /// The state after the fingerprint of the clique of plain node `e` has
    /// been brought in line with the edges that `e` still has.
    pub open spec fn prune(self, index: Map<u32, [usize; 2]>, t: Triple, is_sub: bool) -> PassView {
        let e = t.endpoint(is_sub);
        let slot = index[e][role(is_sub)] as int;
        let justified = self.meta.has_pred(e, t.pred, is_sub);
        if is_sub {
            PassView { source: pruned(self.source, slot, t.pred, justified), ..self }
        } else {
            PassView { target: pruned(self.target, slot, t.pred, justified), ..self }
        }
    }

    /// The state after one endpoint of the removed triple `t` has been
    /// handled. The edge leaves the endpoint first. A node that belongs to no
    /// cluster then has its clique pruned. A node in a cluster stays there if
    /// an edge still ties it to another member and leaves otherwise, and a
    /// cluster that is left with one member is dissolved. It is the endpoint
    /// itself that is looked at and that leaves, wherever it stands on the
    /// member list; no other member stands in for it.
    pub open spec fn settle(self, index: Map<u32, [usize; 2]>, t: Triple, is_sub: bool) -> PassView {
        let e = t.endpoint(is_sub);
        let trimmed = PassView { meta: self.meta.without_edge(t, is_sub), ..self };
        match trimmed.meta.nodes[e].parent {
            None => trimmed.prune(index, t, is_sub),
            Some(p) => (PassView { meta: trimmed.meta.split(e), ..trimmed }).tidy(index, p),
        }
    }

    /// The state after the removed triple `t` has been handled: its subject
    /// first, then its object.
    pub open spec fn delete(self, index: Map<u32, [usize; 2]>, t: Triple) -> PassView {
        self.settle(index, t, true).settle(index, t, false)
    }

    /// The state after a batch of removed triples has been handled in order.
    pub open spec fn delete_all(self, index: Map<u32, [usize; 2]>, batch: Seq<Triple>) -> PassView
        decreases batch.len(),
    {
        if batch.len() == 0 {
            self
        } else {
            self.delete_all(index, batch.drop_last()).delete(index, batch.last())
        }
    }
}

/// An edge is gathered exactly when one of the nodes has it.
pub proof fn lemma_gathered_edges_contains(m: MetaView, ids: Seq<u32>, outgoing: bool, e: Edge)
    ensures
        m.gathered_edges(ids, outgoing).contains(e) <==> exists|i: int|
            0 <= i < ids.len() && m.nodes[#[trigger] ids[i]].edges(outgoing).contains(e),
    decreases ids.len(),
{
    if ids.len() == 0 {
    } else {
        let init = ids.drop_last();
        lemma_gathered_edges_contains(m, init, outgoing, e);
        vstd::seq_lib::lemma_seq_concat_contains_all_elements(
            m.gathered_edges(init, outgoing),
            m.nodes[ids.last()].edges(outgoing),
            e,
        );
        if m.gathered_edges(ids, outgoing).contains(e) {
            if m.gathered_edges(init, outgoing).contains(e) {
                let i = choose|i: int|
                    0 <= i < init.len() && m.nodes[#[trigger] init[i]].edges(outgoing).contains(e);
                assert(m.nodes[ids[i]].edges(outgoing).contains(e));
            } else {
                assert(m.nodes[ids[ids.len() - 1]].edges(outgoing).contains(e));
            }
        }
        if exists|i: int|
            0 <= i < ids.len() && m.nodes[#[trigger] ids[i]].edges(outgoing).contains(e) {
            let i = choose|i: int|
                0 <= i < ids.len() && m.nodes[#[trigger] ids[i]].edges(outgoing).contains(e);
            if i < init.len() {
                assert(m.nodes[init[i]].edges(outgoing).contains(e));
            }
        }
    }
}

/// Whether the edges of `n` meet those gathered from `rest`, taking both
/// directions on either side.
pub open spec fn meets(m: MetaView, n: u32, rest: Seq<u32>) -> bool {
    let inc = m.gathered_edges(rest, false);
    let out = m.gathered_edges(rest, true);
    ||| intersects(m.nodes[n].incoming, inc)
    ||| intersects(m.nodes[n].incoming, out)
    ||| intersects(m.nodes[n].outgoing, inc)
    ||| intersects(m.nodes[n].outgoing, out)
}

/// A node is tied to its cluster exactly when its edges meet those of the
/// other members.
pub proof fn lemma_tied_meets(m: MetaView, n: u32)
    ensures
        m.tied(n) <==> meets(m, n, without(m.supernodes[m.nodes[n].parent->0], n)),
{
    let members = m.supernodes[m.nodes[n].parent->0];
    let rest = without(members, n);
    let inc = m.gathered_edges(rest, false);
    let out = m.gathered_edges(rest, true);
    let own = m.nodes[n];
    if m.tied(n) {
        let i = choose|i: int|
            0 <= i < members.len() && #[trigger] members[i] != n && m.shares_edge(n, members[i]);
        let other = members[i];
        let e = choose|e: Edge|
            #![trigger own.edge_set().contains(e)]
            own.edge_set().contains(e) && m.nodes[other].edge_set().contains(e);
        assert(members.contains(other));
        lemma_without_contains(members, n, other);
        let k = choose|k: int| 0 <= k < rest.len() && rest[k] == other;
        lemma_gathered_edges_contains(m, rest, false, e);
        lemma_gathered_edges_contains(m, rest, true, e);
        if m.nodes[other].incoming.contains(e) {
            assert(m.nodes[rest[k]].edges(false).contains(e));
        } else {
            assert(m.nodes[rest[k]].edges(true).contains(e));
        }
        if own.incoming.contains(e) {
            let j = choose|j: int| 0 <= j < own.incoming.len() && own.incoming[j] == e;
            assert(inc.contains(own.incoming[j]) || out.contains(own.incoming[j]));
        } else {
            let j = choose|j: int| 0 <= j < own.outgoing.len() && own.outgoing[j] == e;
            assert(inc.contains(own.outgoing[j]) || out.contains(own.outgoing[j]));
        }
    }
    if meets(m, n, rest) {
        let (e, outgoing): (Edge, bool) = if intersects(own.incoming, inc) {
            let j = choose|j: int| 0 <= j < own.incoming.len() && inc.contains(#[trigger] own.incoming[j]);
            assert(own.incoming.contains(own.incoming[j]));
            (own.incoming[j], false)
        } else if intersects(own.incoming, out) {
            let j = choose|j: int| 0 <= j < own.incoming.len() && out.contains(#[trigger] own.incoming[j]);
            assert(own.incoming.contains(own.incoming[j]));
            (own.incoming[j], true)
        } else if intersects(own.outgoing, inc) {
            let j = choose|j: int| 0 <= j < own.outgoing.len() && inc.contains(#[trigger] own.outgoing[j]);
            assert(own.outgoing.contains(own.outgoing[j]));
            (own.outgoing[j], false)
        } else {
            let j = choose|j: int| 0 <= j < own.outgoing.len() && out.contains(#[trigger] own.outgoing[j]);
            assert(own.outgoing.contains(own.outgoing[j]));
            (own.outgoing[j], true)
        };
        assert(own.edge_set().contains(e));
        assert(m.gathered_edges(rest, outgoing).contains(e));
        lemma_gathered_edges_contains(m, rest, outgoing, e);
        let k = choose|k: int|
            0 <= k < rest.len() && m.nodes[#[trigger] rest[k]].edges(outgoing).contains(e);
        let other = rest[k];
        assert(rest.contains(other));
        lemma_without_contains(members, n, other);
        let i = choose|i: int| 0 <= i < members.len() && members[i] == other;
        assert(m.nodes[other].edge_set().contains(e));
        assert(m.shares_edge(n, members[i]));
    }
}

/// Handling one endpoint leaves every other endpoint as easy to handle as it was.
pub proof fn lemma_settle_admits(
    s: PassView,
    index: Map<u32, [usize; 2]>,
    t: Triple,
    is_sub: bool,
    next: Triple,
    next_is_sub: bool,
)
    requires
        s.admits(index, t, is_sub),
        s.admits(index, next, next_is_sub),
    ensures
        s.settle(index, t, is_sub).admits(index, next, next_is_sub),
{
}

/// Handling one endpoint makes no cluster of one member.
pub proof fn lemma_settle_singletons(
    s: PassView,
    index: Map<u32, [usize; 2]>,
    t: Triple,
    is_sub: bool,
)
    ensures
        s.settle(index, t, is_sub).meta.singletons_within(s.meta),
{
}

/// Handling one triple leaves every other triple as easy to handle as it
/// was, and makes no cluster of one member.
pub proof fn lemma_delete_keeps(s: PassView, index: Map<u32, [usize; 2]>, t: Triple)
    requires
        s.accepts(index, t),
    ensures
        forall|next: Triple| s.accepts(index, next) ==> #[trigger] s.delete(index, t).accepts(index, next),
        s.delete(index, t).meta.singletons_within(s.meta),
{
    let mid = s.settle(index, t, true);
    lemma_settle_admits(s, index, t, true, t, false);
    assert forall|next: Triple| s.accepts(index, next) implies #[trigger] s.delete(
        index,
        t,
    ).accepts(index, next) by {
        lemma_settle_admits(s, index, t, true, next, true);
        lemma_settle_admits(s, index, t, true, next, false);
        lemma_settle_admits(mid, index, t, false, next, true);
        lemma_settle_admits(mid, index, t, false, next, false);
    }
    lemma_settle_singletons(s, index, t, true);
    lemma_settle_singletons(mid, index, t, false);
}

/// Handling one endpoint keeps the invariant of the model.
pub proof fn lemma_settle_wf(s: PassView, index: Map<u32, [usize; 2]>, t: Triple, is_sub: bool)
    requires
        s.meta.wf(),
        s.admits(index, t, is_sub),
    ensures
        s.settle(index, t, is_sub).meta.wf(),
{
    let e = t.endpoint(is_sub);
    let trimmed = s.meta.without_edge(t, is_sub);
    assert(trimmed.nodes.dom() =~= s.meta.nodes.dom());
    lemma_edges_wf(s.meta, trimmed, e);
    if let Some(p) = trimmed.nodes[e].parent {
        assert(trimmed.supernodes.contains_key(p));
        if !trimmed.tied(e) {
            lemma_detached_wf(trimmed, e);
        }
        let split = trimmed.split(e);
        assert(split.supernodes.contains_key(p));
        if split.supernodes[p].len() == 1 {
            lemma_collapsed_wf(split, p);
        }
    }
}

/// A batch can be handled exactly when none of its triples has a fault.
pub proof fn lemma_batch_fault(s: PassView, index: Map<u32, [usize; 2]>, batch: Seq<Triple>)
    ensures
        s.batch_fault(index, batch) is None <==> s.accepts_all(index, batch),
    decreases batch.len(),
{
    if batch.len() > 0 {
        let init = batch.drop_last();
        lemma_batch_fault(s, index, init);
        if s.accepts_all(index, batch) {
            assert forall|i: int| 0 <= i < init.len() implies s.accepts(index, #[trigger] init[i]) by {
                assert(init[i] == batch[i]);
            }
            assert(s.accepts(index, batch[batch.len() - 1]));
        }
        if s.batch_fault(index, batch) is None {
            assert forall|i: int| 0 <= i < batch.len() implies s.accepts(
                index,
                #[trigger] batch[i],
            ) by {
                if i < init.len() {
                    assert(init[i] == batch[i]);
                }
            }
        }
    }
}

/// A fault found among the first triples of a batch is the fault of the batch.
pub proof fn lemma_fault_stays(
    s: PassView,
    index: Map<u32, [usize; 2]>,
    batch: Seq<Triple>,
    n: int,
)
    requires
        0 <= n <= batch.len(),
        s.batch_fault(index, batch.take(n)) is Some,
    ensures
        s.batch_fault(index, batch) == s.batch_fault(index, batch.take(n)),
    decreases batch.len() - n,
{
    if n < batch.len() {
        let longer = batch.take(n + 1);
        assert(longer.drop_last() == batch.take(n));
        lemma_fault_stays(s, index, batch, n + 1);
    } else {
        assert(batch.take(n) == batch);
    }
}

} // verus!
