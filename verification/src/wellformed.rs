use vstd::prelude::*;
use vstd::seq_lib::{lemma_no_dup_in_concat, lemma_seq_concat_contains_all_elements};
use crate::model::MetaView;
use crate::seqs::{lemma_without_contains, lemma_without_no_duplicates};
use crate::triple::Triple;

verus! {

/// Registering an unseen id as a node keeps the invariant.
pub proof fn lemma_with_node_wf(m: MetaView, t: Triple, is_sub: bool)
    requires
        m.wf(),
        !m.contains(t.endpoint(is_sub)),
    ensures
        m.with_node(t, is_sub).wf(),
{
    let r = m.with_node(t, is_sub);
    let e = t.endpoint(is_sub);
    assert forall|p: u32, i: int|
        r.supernodes.contains_key(p) && 0 <= i < r.supernodes[p].len() implies r.is_child(
        #[trigger] r.supernodes[p][i],
        p,
    ) by {
        assert(m.is_child(m.supernodes[p][i], p));
    }
    assert forall|n: u32| #[trigger] r.nodes.contains_key(n) implies (r.nodes[n].parent matches Some(
        p,
    ) ==> r.supernodes.contains_key(p) && r.supernodes[p].contains(n)) by {
        if n != e {
            assert(m.nodes.contains_key(n));
        }
    }
}

/// Changing the edges of a node keeps the invariant.
pub proof fn lemma_edges_wf(m: MetaView, r: MetaView, n: u32)
    requires
        m.wf(),
        m.nodes.contains_key(n),
        r.supernodes == m.supernodes,
        r.nodes.dom() == m.nodes.dom(),
        forall|k: u32| k != n && m.nodes.contains_key(k) ==> #[trigger] r.nodes[k] == m.nodes[k],
        r.nodes[n].parent == m.nodes[n].parent,
    ensures
        r.wf(),
        m.no_singletons() ==> r.no_singletons(),
{
    assert forall|id: u32| !(#[trigger] r.nodes.contains_key(id) && r.supernodes.contains_key(
        id,
    )) by {
        assert(r.nodes.contains_key(id) == m.nodes.contains_key(id));
    }
    assert forall|p: u32, i: int|
        r.supernodes.contains_key(p) && 0 <= i < r.supernodes[p].len() implies r.is_child(
        #[trigger] r.supernodes[p][i],
        p,
    ) by {
        assert(m.is_child(m.supernodes[p][i], p));
    }
    assert forall|k: u32| #[trigger] r.nodes.contains_key(k) implies (r.nodes[k].parent matches Some(
        p,
    ) ==> r.supernodes.contains_key(p) && r.supernodes[p].contains(k)) by {
        assert(m.nodes.contains_key(k));
    }
}

/// A node that leaves its cluster keeps the invariant.
pub proof fn lemma_detached_wf(m: MetaView, n: u32)
    requires
        m.wf(),
        m.nodes.contains_key(n),
        m.nodes[n].parent is Some,
    ensures
        m.detached(n).wf(),
{
    let r = m.detached(n);
    let q = m.nodes[n].parent->0;
    assert(m.supernodes.contains_key(q) && m.supernodes[q].contains(n));
    lemma_without_no_duplicates(m.supernodes[q], n);
    assert forall|id: u32| !(#[trigger] r.nodes.contains_key(id) && r.supernodes.contains_key(
        id,
    )) by {
        assert(r.nodes.contains_key(id) == m.nodes.contains_key(id));
    }
    assert forall|p: u32, i: int|
        r.supernodes.contains_key(p) && 0 <= i < r.supernodes[p].len() implies r.is_child(
        #[trigger] r.supernodes[p][i],
        p,
    ) by {
        let x = r.supernodes[p][i];
        if p == q {
            assert(r.supernodes[p].contains(x));
            lemma_without_contains(m.supernodes[q], n, x);
            let j = choose|j: int| 0 <= j < m.supernodes[q].len() && m.supernodes[q][j] == x;
            assert(m.is_child(m.supernodes[q][j], q));
        } else {
            assert(m.is_child(m.supernodes[p][i], p));
        }
    }
    assert forall|k: u32| #[trigger] r.nodes.contains_key(k) implies (r.nodes[k].parent matches Some(
        p,
    ) ==> r.supernodes.contains_key(p) && r.supernodes[p].contains(k)) by {
        assert(m.nodes.contains_key(k));
        if k != n {
            if let Some(p) = m.nodes[k].parent {
                if p == q {
                    lemma_without_contains(m.supernodes[q], n, k);
                }
            }
        }
    }
}

/// Dissolving a cluster of one member keeps the invariant.
pub proof fn lemma_collapsed_wf(m: MetaView, p: u32)
    requires
        m.wf(),
        m.supernodes.contains_key(p),
        m.supernodes[p].len() == 1,
    ensures
        m.collapsed(p).wf(),
{
    let r = m.collapsed(p);
    let n = m.supernodes[p][0];
    assert(m.is_child(m.supernodes[p][0], p));
    assert forall|id: u32| !(#[trigger] r.nodes.contains_key(id) && r.supernodes.contains_key(
        id,
    )) by {
        assert(r.nodes.contains_key(id) == m.nodes.contains_key(id));
    }
    assert forall|q: u32, i: int|
        r.supernodes.contains_key(q) && 0 <= i < r.supernodes[q].len() implies r.is_child(
        #[trigger] r.supernodes[q][i],
        q,
    ) by {
        assert(m.is_child(m.supernodes[q][i], q));
    }
    assert forall|k: u32| #[trigger] r.nodes.contains_key(k) implies (r.nodes[k].parent matches Some(
        q,
    ) ==> r.supernodes.contains_key(q) && r.supernodes[q].contains(k)) by {
        assert(m.nodes.contains_key(k));
        if k != n {
            if let Some(q) = m.nodes[k].parent {
                if q == p {
                    let j = choose|j: int| 0 <= j < m.supernodes[p].len() && m.supernodes[p][j] == k;
                    assert(j == 0);
                }
            }
        }
    }
}

/// An id is gathered exactly when one of the merged ids brings it.
pub proof fn lemma_gathered_contains(m: MetaView, ids: Seq<u32>, n: u32)
    ensures
        m.gathered(ids).contains(n) <==> exists|i: int|
            0 <= i < ids.len() && m.members_of(#[trigger] ids[i]).contains(n),
    decreases ids.len(),
{
    if ids.len() == 0 {
    } else {
        let init = ids.drop_last();
        lemma_gathered_contains(m, init, n);
        lemma_seq_concat_contains_all_elements(m.gathered(init), m.members_of(ids.last()), n);
        if m.gathered(ids).contains(n) {
            if m.gathered(init).contains(n) {
                let i = choose|i: int|
                    0 <= i < init.len() && m.members_of(#[trigger] init[i]).contains(n);
                assert(m.members_of(ids[i]).contains(n));
            } else {
                assert(m.members_of(ids[ids.len() - 1]).contains(n));
            }
        }
        if exists|i: int| 0 <= i < ids.len() && m.members_of(#[trigger] ids[i]).contains(n) {
            let i = choose|i: int| 0 <= i < ids.len() && m.members_of(#[trigger] ids[i]).contains(n);
            if i < init.len() {
                assert(m.members_of(init[i]).contains(n));
            }
        }
    }
}

/// What one mergeable id brings: nodes, each under that cluster or under none.
pub proof fn lemma_members_of(m: MetaView, id: u32, n: u32)
    requires
        m.wf(),
        m.supernodes.contains_key(id) || m.is_plain(id),
        m.members_of(id).contains(n),
    ensures
        m.nodes.contains_key(n),
        m.supernodes.contains_key(id) ==> m.nodes[n].parent == Some(id),
        !m.supernodes.contains_key(id) ==> n == id && m.nodes[n].parent is None,
{
    let s = m.members_of(id);
    let j = choose|j: int| 0 <= j < s.len() && s[j] == n;
    if m.supernodes.contains_key(id) {
        assert(m.is_child(m.supernodes[id][j], id));
    }
}

/// Merging gathers every node at most once.
pub proof fn lemma_gathered_no_duplicates(m: MetaView, ids: Seq<u32>)
    requires
        m.wf(),
        m.mergeable(ids),
    ensures
        m.gathered(ids).no_duplicates(),
    decreases ids.len(),
{
    if ids.len() == 0 {
    } else {
        let init = ids.drop_last();
        let last = ids.last();
        assert forall|i: int| 0 <= i < init.len() implies m.supernodes.contains_key(
            #[trigger] init[i],
        ) || m.is_plain(init[i]) by {
            assert(init[i] == ids[i]);
        }
        lemma_gathered_no_duplicates(m, init);
        let a = m.gathered(init);
        let b = m.members_of(last);
        assert(m.supernodes.contains_key(ids[ids.len() - 1]) || m.is_plain(ids[ids.len() - 1]));
        assert(b.no_duplicates());
        assert forall|i: int, j: int| 0 <= i < a.len() && 0 <= j < b.len() implies a[i] != b[j] by {
            if a[i] == b[j] {
                let x = a[i];
                assert(a.contains(x));
                assert(b.contains(x));
                lemma_gathered_contains(m, init, x);
                let k = choose|k: int|
                    0 <= k < init.len() && m.members_of(#[trigger] init[k]).contains(x);
                assert(init[k] == ids[k]);
                lemma_members_of(m, ids[k], x);
                lemma_members_of(m, last, x);
                assert(ids[k] != ids[ids.len() - 1]);
            }
        }
        lemma_no_dup_in_concat(a, b);
    }
}

/// Merging nodes and clusters into a fresh cluster keeps the invariant.
pub proof fn lemma_merged_wf(m: MetaView, ids: Seq<u32>, new: u32)
    requires
        m.wf(),
        m.mergeable(ids),
        !m.contains(new),
    ensures
        m.merged(ids, new).wf(),
{
    let r = m.merged(ids, new);
    let g = m.gathered(ids);
    lemma_gathered_no_duplicates(m, ids);
    assert forall|x: u32| g.contains(x) implies m.nodes.contains_key(x) && (m.nodes[x].parent matches Some(
        q,
    ) ==> ids.contains(q)) by {
        lemma_gathered_contains(m, ids, x);
        let k = choose|k: int| 0 <= k < ids.len() && m.members_of(#[trigger] ids[k]).contains(x);
        lemma_members_of(m, ids[k], x);
    }
    assert forall|id: u32| !(#[trigger] r.nodes.contains_key(id) && r.supernodes.contains_key(
        id,
    )) by {
        assert(r.nodes.contains_key(id) == m.nodes.contains_key(id));
    }
    assert forall|p: u32, i: int|
        r.supernodes.contains_key(p) && 0 <= i < r.supernodes[p].len() implies r.is_child(
        #[trigger] r.supernodes[p][i],
        p,
    ) by {
        let x = r.supernodes[p][i];
        if p == new {
            assert(g.contains(x));
        } else {
            assert(m.is_child(m.supernodes[p][i], p));
            assert(!ids.to_set().contains(p));
            assert(!g.contains(x));
        }
    }
    assert forall|k: u32| #[trigger] r.nodes.contains_key(k) implies (r.nodes[k].parent matches Some(
        p,
    ) ==> r.supernodes.contains_key(p) && r.supernodes[p].contains(k)) by {
        assert(m.nodes.contains_key(k));
        if !g.contains(k) {
            if let Some(p) = m.nodes[k].parent {
                if ids.contains(p) {
                    let i = choose|i: int| 0 <= i < ids.len() && ids[i] == p;
                    assert(m.members_of(ids[i]).contains(k));
                    lemma_gathered_contains(m, ids, k);
                }
                assert(!ids.to_set().contains(p));
            }
        }
    }
}

/// Putting one more node under the new parent, on top of those already there.
pub proof fn lemma_reparented_push(m: MetaView, members: Seq<u32>, n: u32, new: u32)
    requires
        m.nodes.contains_key(n),
    ensures
        m.reparented(members.push(n), new) == m.reparented(members, new).insert(
            n,
            m.reparented(members, new)[n].with_parent(Some(new)),
        ),
{
    let a = m.reparented(members.push(n), new);
    let b = m.reparented(members, new).insert(
        n,
        m.reparented(members, new)[n].with_parent(Some(new)),
    );
    assert forall|k: u32| a.contains_key(k) implies a[k] == b[k] by {
        vstd::seq_lib::lemma_seq_contains_after_push(members, n, k);
    }
    assert(a =~= b);
}

} // verus!
