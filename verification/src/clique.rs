use vstd::prelude::*;
use crate::seqs::{renamed, without};

verus! {

/// What a clique holds, as plain mathematics.
pub struct CliqueView {
    pub nodes: Seq<u32>,
    pub preds: Seq<u32>,
}

/// A group of ids that share one set of predicates: `preds` is that set, the
/// fingerprint of the group, and `nodes` lists the ids.
#[derive(Clone, Debug, PartialEq, Eq)]
pub struct Clique {
    pub nodes: Vec<u32>,
    pub preds: Vec<u32>,
}

impl View for Clique {
    type V = CliqueView;

    open spec fn view(&self) -> CliqueView {
        CliqueView { nodes: self.nodes@, preds: self.preds@ }
    }
}

/// A list of cliques, as plain values.
pub open spec fn cliques_view(cliques: Seq<Clique>) -> Seq<CliqueView> {
    cliques.map_values(|c: Clique| c@)
}

/// The cliques after `pred` has been dropped from the fingerprint of the one
/// at `slot`. That happens only where the clique has a single member and
/// `pred` is no longer `justified` by an edge of it; else nothing changes.
pub open spec fn pruned(cliques: Seq<CliqueView>, slot: int, pred: u32, justified: bool) -> Seq<
    CliqueView,
> {
    if cliques[slot].nodes.len() == 1 && !justified {
        cliques.update(
            slot,
            CliqueView { preds: without(cliques[slot].preds, pred), ..cliques[slot] },
        )
    } else {
        cliques
    }
}

/// The cliques after the one at `slot` has had each entry `from` in its
/// member list turned into `to`.
pub open spec fn relabeled(cliques: Seq<CliqueView>, slot: int, from: u32, to: u32) -> Seq<
    CliqueView,
> {
    cliques.update(
        slot,
        CliqueView { nodes: renamed(cliques[slot].nodes, from, to), ..cliques[slot] },
    )
}

} // verus!
