use std::collections::HashMap;
use summary_graph::clique::Clique;
use summary_graph::deletion::{
    batch_fault, delete_triple, endpoint_fault, get_inc_and_out, group_outgoing_edges,
    handle_deletion, handle_singleton_supernodes, handle_split, intersects_for_vec_vec,
    remove_preds_in_clique, settle_endpoint, try_delete_triple,
};
use summary_graph::pass::PassError;
use summary_graph::meta::Meta;
use summary_graph::metadata::MetaData;
use summary_graph::node::NodeInfo;
use summary_graph::triple::Triple;

fn record(parent: Option<u32>, incoming: Vec<(u32, u32)>, outgoing: Vec<(u32, u32)>) -> NodeInfo {
    NodeInfo { parent, incoming, outgoing }
}

fn clique(nodes: Vec<u32>, preds: Vec<u32>) -> Clique {
    Clique { nodes, preds }
}

/// Subjects 1 and 2 point at the members of cluster 80 = [5, 6, 7]:
/// 5 and 6 both have the incoming edge (10, 1); 7 shares (11, 2) with 6;
/// 5 has (12, 2) on its own.
fn cluster_of_three() -> (MetaData, Vec<Clique>, Vec<Clique>) {
    let mut nodes: HashMap<u32, NodeInfo> = HashMap::new();
    nodes.insert(1, record(None, vec![], vec![(10, 5), (10, 6)]));
    nodes.insert(2, record(None, vec![], vec![(11, 6), (11, 7), (12, 5)]));
    nodes.insert(5, record(Some(80), vec![(10, 1), (12, 2)], vec![]));
    nodes.insert(6, record(Some(80), vec![(10, 1), (11, 2)], vec![]));
    nodes.insert(7, record(Some(80), vec![(11, 2)], vec![]));
    let mut supernodes: HashMap<u32, Vec<u32>> = HashMap::new();
    supernodes.insert(80, vec![5, 6, 7]);
    let mut index_map: HashMap<u32, [usize; 2]> = HashMap::new();
    index_map.insert(1, [0, 0]);
    index_map.insert(2, [1, 0]);
    index_map.insert(5, [2, 1]);
    index_map.insert(6, [2, 1]);
    index_map.insert(7, [2, 1]);
    index_map.insert(80, [2, 1]);
    let triples = vec![
        Triple { sub: 1, pred: 10, obj: 5 },
        Triple { sub: 1, pred: 10, obj: 6 },
        Triple { sub: 2, pred: 11, obj: 6 },
        Triple { sub: 2, pred: 11, obj: 7 },
        Triple { sub: 2, pred: 12, obj: 5 },
    ];
    let source = vec![clique(vec![1], vec![10]), clique(vec![2], vec![11, 12]), clique(vec![80], vec![])];
    let target = vec![clique(vec![1, 2], vec![]), clique(vec![80], vec![10, 11, 12])];
    (MetaData::new(triples, index_map, supernodes, nodes), source, target)
}

/// Cluster 90 = [3, 4] under the one subject 1.
fn cluster_of_two() -> (MetaData, Vec<Clique>, Vec<Clique>) {
    let mut nodes: HashMap<u32, NodeInfo> = HashMap::new();
    nodes.insert(1, record(None, vec![], vec![(10, 3), (10, 4), (11, 4)]));
    nodes.insert(3, record(Some(90), vec![(10, 1)], vec![]));
    nodes.insert(4, record(Some(90), vec![(10, 1), (11, 1)], vec![]));
    let mut supernodes: HashMap<u32, Vec<u32>> = HashMap::new();
    supernodes.insert(90, vec![3, 4]);
    let mut index_map: HashMap<u32, [usize; 2]> = HashMap::new();
    index_map.insert(1, [0, 0]);
    index_map.insert(3, [1, 1]);
    index_map.insert(4, [1, 1]);
    index_map.insert(90, [1, 1]);
    let source = vec![clique(vec![1], vec![10, 11]), clique(vec![90], vec![])];
    let target = vec![clique(vec![1], vec![]), clique(vec![90], vec![10, 11])];
    (MetaData::new(vec![], index_map, supernodes, nodes), source, target)
}

fn no_cluster_of_one(meta: &Meta) -> bool {
    meta.serialize().s.iter().all(|r| r.g.len() != 1)
}

#[test]
fn metadata_new_keeps_its_parts() {
    let mut nodes: HashMap<u32, NodeInfo> = HashMap::new();
    nodes.insert(1, record(Some(9), vec![], vec![(10, 2)]));
    let mut supernodes: HashMap<u32, Vec<u32>> = HashMap::new();
    supernodes.insert(9, vec![1]);
    let mut index_map: HashMap<u32, [usize; 2]> = HashMap::new();
    index_map.insert(1, [3, 4]);
    let triples = vec![Triple { sub: 1, pred: 10, obj: 2 }];
    let data = MetaData::new(triples.clone(), index_map.clone(), supernodes, nodes);
    assert_eq!(data.triples, triples);
    assert_eq!(data.index_map, index_map);
    assert_eq!(*data.meta.members(&9), vec![1]);
    assert_eq!(*data.meta.node(&1), record(Some(9), vec![], vec![(10, 2)]));
}

#[test]
fn intersects_for_vec_vec_wants_the_whole_edge_to_match() {
    assert!(intersects_for_vec_vec(&vec![(1, 2), (3, 4)], &vec![(5, 6), (3, 4)]));
    assert!(!intersects_for_vec_vec(&vec![(1, 2), (3, 4)], &vec![(1, 3), (4, 3), (2, 1)]));
    assert!(!intersects_for_vec_vec(&vec![], &vec![(1, 2)]));
    assert!(!intersects_for_vec_vec(&vec![(1, 2)], &vec![]));
    assert!(!intersects_for_vec_vec(&vec![], &vec![]));
}

#[test]
fn get_inc_and_out_gathers_in_the_order_of_the_ids() {
    let mut nodes: HashMap<u32, NodeInfo> = HashMap::new();
    nodes.insert(1, record(None, vec![(1, 1)], vec![(2, 2), (3, 3)]));
    nodes.insert(2, record(None, vec![(4, 4), (5, 5)], vec![]));
    nodes.insert(3, record(None, vec![], vec![(6, 6)]));
    let meta = Meta::new(HashMap::new(), nodes);
    let (inc, out) = get_inc_and_out(&meta, &vec![2, 3, 1]);
    assert_eq!(inc, vec![(4, 4), (5, 5), (1, 1)]);
    assert_eq!(out, vec![(6, 6), (2, 2), (3, 3)]);
    let (inc, out) = get_inc_and_out(&meta, &vec![]);
    assert!(inc.is_empty() && out.is_empty());
    let (inc, out) = get_inc_and_out(&meta, &vec![1, 1]);
    assert_eq!(inc, vec![(1, 1), (1, 1)]);
    assert_eq!(out, vec![(2, 2), (3, 3), (2, 2), (3, 3)]);
}

#[test]
fn group_outgoing_edges_flattens_the_pairs() {
    let info = record(None, vec![(9, 9)], vec![(10, 2), (11, 3)]);
    assert_eq!(group_outgoing_edges(&info), vec![10, 2, 11, 3]);
    assert!(group_outgoing_edges(&record(None, vec![(9, 9)], vec![])).is_empty());
}

#[test]
fn handle_split_keeps_a_node_that_shares_an_edge() {
    let (mut stuff, _, _) = cluster_of_three();
    handle_split(&mut stuff.meta, &7);
    assert_eq!(stuff.meta.get_parent(&7), Some(80));
    assert_eq!(*stuff.meta.members(&80), vec![5, 6, 7]);
    handle_split(&mut stuff.meta, &5);
    assert_eq!(stuff.meta.get_parent(&5), Some(80));
    assert_eq!(*stuff.meta.members(&80), vec![5, 6, 7]);
}

#[test]
fn handle_split_detaches_a_node_that_shares_none() {
    let (mut stuff, _, _) = cluster_of_three();
    stuff.meta.remove_from_node(&Triple { sub: 2, pred: 11, obj: 7 }, false);
    handle_split(&mut stuff.meta, &7);
    assert_eq!(stuff.meta.get_parent(&7), None);
    assert_eq!(*stuff.meta.members(&80), vec![5, 6]);
    assert_eq!(stuff.meta.get_parent(&5), Some(80));
    assert!(stuff.meta.is_well_formed());
}

#[test]
fn handle_split_counts_an_edge_whichever_way_it_points() {
    // 1 has the outgoing edge (10, 9), 2 the incoming edge (10, 9)
    let mut nodes: HashMap<u32, NodeInfo> = HashMap::new();
    nodes.insert(1, record(Some(50), vec![], vec![(10, 9)]));
    nodes.insert(2, record(Some(50), vec![(10, 9)], vec![]));
    nodes.insert(3, record(Some(50), vec![(9, 10)], vec![(11, 9)]));
    let mut supernodes: HashMap<u32, Vec<u32>> = HashMap::new();
    supernodes.insert(50, vec![1, 2, 3]);
    let mut meta = Meta::new(supernodes, nodes);
    handle_split(&mut meta, &1);
    assert_eq!(meta.get_parent(&1), Some(50));
    handle_split(&mut meta, &2);
    assert_eq!(meta.get_parent(&2), Some(50));
    // (9, 10) is not (10, 9), and (11, 9) is on no other member
    handle_split(&mut meta, &3);
    assert_eq!(meta.get_parent(&3), None);
    assert_eq!(*meta.members(&50), vec![1, 2]);
}

#[test]
fn handle_split_does_not_tie_a_node_to_itself() {
    let mut nodes: HashMap<u32, NodeInfo> = HashMap::new();
    nodes.insert(1, record(Some(50), vec![(10, 9)], vec![(10, 9)]));
    nodes.insert(2, record(Some(50), vec![(11, 9)], vec![]));
    let mut supernodes: HashMap<u32, Vec<u32>> = HashMap::new();
    supernodes.insert(50, vec![1, 2]);
    let mut meta = Meta::new(supernodes, nodes);
    handle_split(&mut meta, &1);
    assert_eq!(meta.get_parent(&1), None);
    assert_eq!(*meta.members(&50), vec![2]);
}

#[test]
fn handle_singleton_supernodes_leaves_larger_clusters() {
    let (mut stuff, mut source, mut target) = cluster_of_two();
    let before = (source.clone(), target.clone());
    handle_singleton_supernodes(&mut stuff, &mut source, &mut target, &90);
    assert_eq!(*stuff.meta.members(&90), vec![3, 4]);
    assert_eq!((source, target), before);
}

#[test]
fn handle_singleton_supernodes_leaves_an_empty_cluster() {
    let (mut stuff, mut source, mut target) = cluster_of_two();
    stuff.meta.remove_from_supernode(&3);
    stuff.meta.remove_from_supernode(&4);
    let before = (source.clone(), target.clone());
    handle_singleton_supernodes(&mut stuff, &mut source, &mut target, &90);
    assert!(stuff.meta.contains_supernode(&90));
    assert_eq!(stuff.meta.supernode_len(&90), 0);
    assert_eq!((source, target), before);
}

#[test]
fn handle_singleton_supernodes_dissolves_a_cluster_of_one() {
    let (mut stuff, mut source, mut target) = cluster_of_two();
    stuff.meta.remove_from_supernode(&3);
    handle_singleton_supernodes(&mut stuff, &mut source, &mut target, &90);
    assert!(!stuff.meta.contains_supernode(&90));
    assert_eq!(stuff.meta.get_parent(&4), None);
    assert_eq!(source, vec![clique(vec![1], vec![10, 11]), clique(vec![4], vec![])]);
    assert_eq!(target, vec![clique(vec![1], vec![]), clique(vec![4], vec![10, 11])]);
    assert!(stuff.meta.is_well_formed());
}

#[test]
fn remove_preds_in_clique_drops_a_predicate_without_edge() {
    let (mut stuff, mut source, _) = cluster_of_two();
    let triple = Triple { sub: 1, pred: 11, obj: 4 };
    stuff.meta.remove_from_node(&triple, true);
    remove_preds_in_clique(&stuff, &triple, &mut source, true);
    assert_eq!(source, vec![clique(vec![1], vec![10]), clique(vec![90], vec![])]);
}

#[test]
fn remove_preds_in_clique_keeps_a_predicate_with_an_edge() {
    let (mut stuff, mut source, _) = cluster_of_two();
    let triple = Triple { sub: 1, pred: 10, obj: 3 };
    stuff.meta.remove_from_node(&triple, true);
    remove_preds_in_clique(&stuff, &triple, &mut source, true);
    assert_eq!(source, vec![clique(vec![1], vec![10, 11]), clique(vec![90], vec![])]);
}

#[test]
fn remove_preds_in_clique_leaves_a_shared_clique() {
    let mut nodes: HashMap<u32, NodeInfo> = HashMap::new();
    nodes.insert(1, record(None, vec![], vec![]));
    nodes.insert(2, record(None, vec![], vec![(10, 3)]));
    let mut index_map: HashMap<u32, [usize; 2]> = HashMap::new();
    index_map.insert(1, [0, 0]);
    index_map.insert(2, [0, 0]);
    let stuff = MetaData::new(vec![], index_map, HashMap::new(), nodes);
    let mut source = vec![clique(vec![1, 2], vec![10])];
    remove_preds_in_clique(&stuff, &Triple { sub: 1, pred: 10, obj: 3 }, &mut source, true);
    assert_eq!(source, vec![clique(vec![1, 2], vec![10])]);
}

#[test]
fn remove_preds_in_clique_for_the_object_reads_incoming_edges() {
    let mut nodes: HashMap<u32, NodeInfo> = HashMap::new();
    nodes.insert(3, record(None, vec![(11, 1)], vec![(10, 4)]));
    let mut index_map: HashMap<u32, [usize; 2]> = HashMap::new();
    index_map.insert(3, [0, 1]);
    let stuff = MetaData::new(vec![], index_map, HashMap::new(), nodes);
    let mut target = vec![clique(vec![9], vec![10]), clique(vec![3], vec![10, 11, 10])];
    // 3 has an outgoing edge with 10 but no incoming one
    remove_preds_in_clique(&stuff, &Triple { sub: 1, pred: 10, obj: 3 }, &mut target, false);
    assert_eq!(target, vec![clique(vec![9], vec![10]), clique(vec![3], vec![11])]);
    remove_preds_in_clique(&stuff, &Triple { sub: 1, pred: 11, obj: 3 }, &mut target, false);
    assert_eq!(target, vec![clique(vec![9], vec![10]), clique(vec![3], vec![11])]);
}

#[test]
fn a_node_that_still_shares_an_edge_is_not_split_out() {
    let (mut stuff, mut source, mut target) = cluster_of_three();
    // 5 loses (12, 2), which no other member had; (10, 1) still ties it to 6
    let deletions = vec![Triple { sub: 2, pred: 12, obj: 5 }];
    assert_eq!(batch_fault(&deletions, &source, &target, &stuff), None);
    delete_triple(&deletions, &mut source, &mut target, &mut stuff);
    assert_eq!(stuff.meta.get_parent(&5), Some(80));
    assert_eq!(*stuff.meta.members(&80), vec![5, 6, 7]);
    assert_eq!(stuff.meta.node(&5).incoming, vec![(10, 1)]);
    assert_eq!(stuff.meta.node(&2).outgoing, vec![(11, 6), (11, 7)]);
    // 2 has no edge with 12 left and is alone in its clique
    assert_eq!(source[1], clique(vec![2], vec![11]));
    assert_eq!(source[2], clique(vec![80], vec![]));
    assert_eq!(target[1], clique(vec![80], vec![10, 11, 12]));
    assert!(stuff.meta.is_well_formed());
}

#[test]
fn a_node_that_loses_its_last_shared_edge_is_split_out_without_collapse() {
    let (mut stuff, mut source, mut target) = cluster_of_three();
    let deletions = vec![
        Triple { sub: 2, pred: 12, obj: 5 },
        Triple { sub: 1, pred: 10, obj: 5 },
    ];
    assert_eq!(batch_fault(&deletions, &source, &target, &stuff), None);
    delete_triple(&deletions, &mut source, &mut target, &mut stuff);
    assert_eq!(stuff.meta.get_parent(&5), None);
    assert!(stuff.meta.node(&5).incoming.is_empty());
    assert!(stuff.meta.contains_supernode(&80));
    assert_eq!(*stuff.meta.members(&80), vec![6, 7]);
    assert_eq!(stuff.meta.get_parent(&6), Some(80));
    assert_eq!(stuff.meta.get_parent(&7), Some(80));
    assert_eq!(source[2], clique(vec![80], vec![]));
    assert_eq!(target[1], clique(vec![80], vec![10, 11, 12]));
    assert_eq!(stuff.meta.node(&1).outgoing, vec![(10, 6)]);
    assert_eq!(source[0], clique(vec![1], vec![10]));
    assert!(stuff.meta.is_well_formed());
    assert!(no_cluster_of_one(&stuff.meta));
}

#[test]
fn a_cluster_of_two_collapses_when_one_member_is_split_out() {
    let (mut stuff, mut source, mut target) = cluster_of_two();
    let deletions = vec![Triple { sub: 1, pred: 10, obj: 3 }];
    assert_eq!(batch_fault(&deletions, &source, &target, &stuff), None);
    delete_triple(&deletions, &mut source, &mut target, &mut stuff);
    assert!(!stuff.meta.contains_supernode(&90));
    assert!(!stuff.meta.contains(&90));
    assert_eq!(stuff.meta.get_parent(&3), None);
    assert_eq!(stuff.meta.get_parent(&4), None);
    assert!(stuff.meta.node(&3).incoming.is_empty());
    assert_eq!(stuff.meta.node(&4).incoming, vec![(10, 1), (11, 1)]);
    assert_eq!(source[1], clique(vec![4], vec![]));
    assert_eq!(target[1], clique(vec![4], vec![10, 11]));
    assert!(stuff.meta.is_well_formed());
    assert!(no_cluster_of_one(&stuff.meta));
}

#[test]
fn a_cluster_of_two_stays_while_an_edge_is_shared() {
    let (mut stuff, mut source, mut target) = cluster_of_two();
    let deletions = vec![Triple { sub: 1, pred: 11, obj: 4 }];
    delete_triple(&deletions, &mut source, &mut target, &mut stuff);
    assert_eq!(*stuff.meta.members(&90), vec![3, 4]);
    assert_eq!(stuff.meta.node(&4).incoming, vec![(10, 1)]);
    assert_eq!(stuff.meta.node(&1).outgoing, vec![(10, 3), (10, 4)]);
    assert_eq!(source[0], clique(vec![1], vec![10]));
    assert_eq!(target[1], clique(vec![90], vec![10, 11]));
}

#[test]
fn both_endpoints_in_one_cluster_are_handled_in_turn() {
    // 1 -> 2 inside cluster 50 = [1, 2, 3]; 3 shares nothing after the deletion
    let mut nodes: HashMap<u32, NodeInfo> = HashMap::new();
    nodes.insert(1, record(Some(50), vec![], vec![(10, 2)]));
    nodes.insert(2, record(Some(50), vec![(10, 1)], vec![]));
    nodes.insert(3, record(Some(50), vec![], vec![(10, 2)]));
    let mut supernodes: HashMap<u32, Vec<u32>> = HashMap::new();
    supernodes.insert(50, vec![1, 2, 3]);
    let mut index_map: HashMap<u32, [usize; 2]> = HashMap::new();
    for id in [1u32, 2, 3, 50] {
        index_map.insert(id, [0, 0]);
    }
    let mut stuff = MetaData::new(vec![], index_map, supernodes, nodes);
    let mut source = vec![clique(vec![50], vec![10])];
    let mut target = vec![clique(vec![50], vec![10])];
    let triple = Triple { sub: 1, pred: 10, obj: 2 };
    assert_eq!(endpoint_fault(&stuff, &triple, &source, &target, true), None);
    assert_eq!(endpoint_fault(&stuff, &triple, &source, &target, false), None);
    handle_deletion(&mut stuff, &triple, &mut source, &mut target);
    // the subject has no edge left and leaves; the object has none either and
    // leaves too, which brings the cluster down to 3 alone
    assert!(!stuff.meta.contains_supernode(&50));
    for id in [1u32, 2, 3] {
        assert_eq!(stuff.meta.get_parent(&id), None);
    }
    assert_eq!(stuff.meta.node(&3).outgoing, vec![(10, 2)]);
    assert_eq!(source, vec![clique(vec![3], vec![10])]);
    assert_eq!(target, vec![clique(vec![3], vec![10])]);
    assert!(stuff.meta.is_well_formed());
}

#[test]
fn a_triple_from_a_node_to_itself() {
    let mut nodes: HashMap<u32, NodeInfo> = HashMap::new();
    nodes.insert(1, record(None, vec![(10, 1), (11, 2)], vec![(10, 1)]));
    let mut index_map: HashMap<u32, [usize; 2]> = HashMap::new();
    index_map.insert(1, [0, 0]);
    let mut stuff = MetaData::new(vec![], index_map, HashMap::new(), nodes);
    let mut source = vec![clique(vec![1], vec![10])];
    let mut target = vec![clique(vec![1], vec![10, 11])];
    let deletions = vec![Triple { sub: 1, pred: 10, obj: 1 }];
    assert_eq!(batch_fault(&deletions, &source, &target, &stuff), None);
    delete_triple(&deletions, &mut source, &mut target, &mut stuff);
    assert_eq!(*stuff.meta.node(&1), record(None, vec![(11, 2)], vec![]));
    assert_eq!(source, vec![clique(vec![1], vec![])]);
    assert_eq!(target, vec![clique(vec![1], vec![11])]);
}

#[test]
fn settle_endpoint_touches_one_endpoint_only() {
    let (mut stuff, mut source, mut target) = cluster_of_two();
    let triple = Triple { sub: 1, pred: 10, obj: 3 };
    settle_endpoint(&mut stuff, &triple, &mut source, &mut target, true);
    assert_eq!(stuff.meta.node(&1).outgoing, vec![(10, 4), (11, 4)]);
    assert_eq!(stuff.meta.node(&3).incoming, vec![(10, 1)]);
    assert_eq!(*stuff.meta.members(&90), vec![3, 4]);
    settle_endpoint(&mut stuff, &triple, &mut source, &mut target, false);
    assert!(stuff.meta.node(&3).incoming.is_empty());
    assert!(!stuff.meta.contains_supernode(&90));
}

#[test]
fn an_empty_batch_changes_nothing() {
    let (mut stuff, mut source, mut target) = cluster_of_three();
    let before = stuff.meta.serialize();
    let cliques = (source.clone(), target.clone());
    assert_eq!(batch_fault(&vec![], &source, &target, &stuff), None);
    delete_triple(&vec![], &mut source, &mut target, &mut stuff);
    let mut a = stuff.meta.serialize();
    let mut b = before;
    a.q.sort_by_key(|r| r.i);
    b.q.sort_by_key(|r| r.i);
    assert_eq!(a, b);
    assert_eq!((source, target), cliques);
}

#[test]
fn a_batch_keeps_the_facts_and_the_index_map() {
    let (mut stuff, mut source, mut target) = cluster_of_three();
    let triples = stuff.triples.clone();
    let index_map = stuff.index_map.clone();
    let deletions = stuff.triples.clone();
    assert_eq!(batch_fault(&deletions, &source, &target, &stuff), None);
    delete_triple(&deletions, &mut source, &mut target, &mut stuff);
    assert_eq!(stuff.triples, triples);
    assert_eq!(stuff.index_map, index_map);
    // every fact is gone: no edge is left, and so no cluster
    for id in [1u32, 2, 5, 6, 7] {
        assert_eq!(*stuff.meta.node(&id), record(None, vec![], vec![]));
    }
    assert!(!stuff.meta.contains_supernode(&80));
    assert!(stuff.meta.is_well_formed());
    assert!(no_cluster_of_one(&stuff.meta));
    assert_eq!(source[0], clique(vec![1], vec![]));
    assert_eq!(source[1], clique(vec![2], vec![]));
}

#[test]
fn a_pass_does_not_mend_a_cluster_of_one_it_never_touches() {
    let (stuff, mut source, mut target) = cluster_of_two();
    let mut file = stuff.meta.serialize();
    file.s.push(summary_graph::snapshot::Supernode { i: 70, g: vec![8] });
    file.q.push(summary_graph::snapshot::Node { i: 8, p: Some(70), n: vec![], o: vec![] });
    let mut stuff = MetaData {
        triples: vec![],
        index_map: stuff.index_map,
        meta: Meta::deserialize(file).unwrap(),
    };
    assert!(stuff.meta.is_well_formed());
    let deletions = vec![Triple { sub: 1, pred: 10, obj: 3 }];
    delete_triple(&deletions, &mut source, &mut target, &mut stuff);
    assert!(!stuff.meta.contains_supernode(&90));
    assert_eq!(*stuff.meta.members(&70), vec![8]);
}

#[test]
fn every_endpoint_has_to_be_a_node() {
    let (stuff, source, target) = cluster_of_two();
    let fault = |t: Triple| batch_fault(&vec![t], &source, &target, &stuff);
    assert_eq!(fault(Triple { sub: 1, pred: 10, obj: 8 }), Some(PassError::UnknownNode(8)));
    assert_eq!(fault(Triple { sub: 8, pred: 10, obj: 3 }), Some(PassError::UnknownNode(8)));
    // a cluster id is no endpoint
    assert_eq!(fault(Triple { sub: 1, pred: 10, obj: 90 }), Some(PassError::UnknownNode(90)));
    // the subject is looked at first
    assert_eq!(fault(Triple { sub: 7, pred: 10, obj: 8 }), Some(PassError::UnknownNode(7)));
    // a fact that is not there can be handled: nothing will match it
    assert_eq!(fault(Triple { sub: 1, pred: 77, obj: 3 }), None);
}

#[test]
fn the_first_fault_of_a_batch_is_named() {
    let (stuff, source, target) = cluster_of_two();
    let batch = vec![
        Triple { sub: 1, pred: 10, obj: 3 },
        Triple { sub: 1, pred: 10, obj: 8 },
        Triple { sub: 9, pred: 10, obj: 3 },
    ];
    assert_eq!(batch_fault(&batch, &source, &target, &stuff), Some(PassError::UnknownNode(8)));
    assert_eq!(batch_fault(&vec![], &source, &target, &stuff), None);
}

#[test]
fn index_entries_have_to_be_in_range() {
    let (mut stuff, source, target) = cluster_of_two();
    let batch = vec![Triple { sub: 1, pred: 10, obj: 3 }];
    assert_eq!(batch_fault(&batch, &source, &target, &stuff), None);
    stuff.index_map.insert(1, [2, 0]);
    assert_eq!(batch_fault(&batch, &source, &target, &stuff), Some(PassError::Unplaced(1)));
    // only the place of its own role counts for an endpoint
    stuff.index_map.insert(1, [1, 5]);
    assert_eq!(batch_fault(&batch, &source, &target, &stuff), None);
    stuff.index_map.insert(3, [5, 2]);
    assert_eq!(batch_fault(&batch, &source, &target, &stuff), Some(PassError::Unplaced(3)));
    stuff.index_map.insert(3, [5, 1]);
    assert_eq!(batch_fault(&batch, &source, &target, &stuff), None);
    stuff.index_map.remove(&3);
    assert_eq!(batch_fault(&batch, &source, &target, &stuff), Some(PassError::Unplaced(3)));
}

#[test]
fn the_cluster_of_an_endpoint_has_to_be_placed() {
    let (mut stuff, source, target) = cluster_of_two();
    let batch = vec![Triple { sub: 1, pred: 10, obj: 3 }];
    stuff.index_map.insert(90, [2, 1]);
    assert_eq!(batch_fault(&batch, &source, &target, &stuff), Some(PassError::Unplaced(90)));
    stuff.index_map.insert(90, [1, 2]);
    assert_eq!(batch_fault(&batch, &source, &target, &stuff), Some(PassError::Unplaced(90)));
    stuff.index_map.remove(&90);
    assert_eq!(batch_fault(&batch, &source, &target, &stuff), Some(PassError::Unplaced(90)));
    assert_eq!(endpoint_fault(&stuff, &batch[0], &source, &target, true), None);
    assert_eq!(
        endpoint_fault(&stuff, &batch[0], &source, &target, false),
        Some(PassError::Unplaced(90))
    );
}

#[test]
fn try_delete_triple_handles_a_batch_without_fault() {
    let (mut stuff, mut source, mut target) = cluster_of_two();
    let deletions = vec![Triple { sub: 1, pred: 10, obj: 3 }];
    assert_eq!(try_delete_triple(&deletions, &mut source, &mut target, &mut stuff), Ok(()));
    assert!(!stuff.meta.contains_supernode(&90));
    assert_eq!(stuff.meta.get_parent(&4), None);
    assert!(stuff.meta.node(&3).incoming.is_empty());
    assert_eq!(source[1], clique(vec![4], vec![]));
}

#[test]
fn try_delete_triple_changes_nothing_when_it_refuses() {
    let (mut stuff, mut source, mut target) = cluster_of_two();
    let cliques = (source.clone(), target.clone());
    // the first triple could be handled, the second names an unknown id
    let deletions = vec![
        Triple { sub: 1, pred: 10, obj: 3 },
        Triple { sub: 1, pred: 10, obj: 8 },
    ];
    assert_eq!(
        try_delete_triple(&deletions, &mut source, &mut target, &mut stuff),
        Err(PassError::UnknownNode(8))
    );
    assert_eq!(*stuff.meta.members(&90), vec![3, 4]);
    assert_eq!(stuff.meta.node(&1).outgoing, vec![(10, 3), (10, 4), (11, 4)]);
    assert_eq!(stuff.meta.node(&3).incoming, vec![(10, 1)]);
    assert_eq!((source, target), cliques);
}

#[test]
fn try_delete_triple_refuses_a_broken_model() {
    let mut nodes: HashMap<u32, NodeInfo> = HashMap::new();
    nodes.insert(1, record(Some(50), vec![], vec![(10, 2)]));
    nodes.insert(2, record(None, vec![(10, 1)], vec![]));
    let mut index_map: HashMap<u32, [usize; 2]> = HashMap::new();
    index_map.insert(1, [0, 0]);
    index_map.insert(2, [0, 0]);
    index_map.insert(50, [0, 0]);
    // node 1 names a parent that is no cluster
    let mut stuff = MetaData::new(vec![], index_map, HashMap::new(), nodes);
    let mut source = vec![clique(vec![1], vec![10])];
    let mut target = vec![clique(vec![2], vec![10])];
    let deletions = vec![Triple { sub: 1, pred: 10, obj: 2 }];
    assert_eq!(
        try_delete_triple(&deletions, &mut source, &mut target, &mut stuff),
        Err(PassError::BrokenModel)
    );
    // an empty batch does not make it acceptable
    assert_eq!(
        try_delete_triple(&vec![], &mut source, &mut target, &mut stuff),
        Err(PassError::BrokenModel)
    );
    assert_eq!(stuff.meta.node(&1).outgoing, vec![(10, 2)]);
}
