use std::collections::HashMap;
use vstd::prelude::*;
use crate::meta::{members_view, nodes_view, Meta};
use crate::node::NodeInfo;
use crate::triple::Triple;

verus! {

/// What a maintenance pass is run on, besides the cliques: the facts, the
/// graph model built over them, and the index map, which gives for an id the
/// positions of its source clique and of its target clique.
pub struct MetaData {
    pub triples: Vec<Triple>,
    pub index_map: HashMap<u32, [usize; 2]>,
    pub meta: Meta,
}

impl MetaData {
    /// Puts the parts together; the two tables become the graph model.
    pub fn new(
        triples: Vec<Triple>,
        index_map: HashMap<u32, [usize; 2]>,
        supernodes: HashMap<u32, Vec<u32>>,
        nodes: HashMap<u32, NodeInfo>,
    ) -> (data: Self)
        ensures
            data.triples@ == triples@,
            data.index_map@ == index_map@,
            data.meta@.supernodes == members_view(supernodes@),
            data.meta@.nodes == nodes_view(nodes@),
    {
        Self { triples, index_map, meta: Meta::new(supernodes, nodes) }
    }
}

} // verus!
