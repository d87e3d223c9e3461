use connectivity::coord::Coord;
use connectivity::topology::{get_graph_nodes_lookup, process, split_ways_into_edges, Way};
use std::collections::HashMap;

fn coords(ids: &[i64]) -> HashMap<i64, Coord> {
    let mut m = HashMap::new();
    for &id in ids {
        m.insert(id, Coord { x: id * 10, y: id * 100 });
    }
    m
}

fn way(id: i64, nodes: &[i64]) -> Way {
    Way { id, node_ids: nodes.to_vec(), forward: true, backward: true }
}

#[test]
fn single_way_gives_one_edge() {
    let m = coords(&[1, 2, 3]);
    let edges = split_ways_into_edges(&m, &vec![way(7, &[1, 2, 3])]);
    assert_eq!(edges.len(), 1);
    assert_eq!(edges[0].id, 0);
    assert_eq!(edges[0].osm_id, 7);
    assert_eq!(edges[0].start_node, 1);
    assert_eq!(edges[0].end_node, 3);
    assert_eq!(edges[0].linestring, vec![m[&1], m[&2], m[&3]]);
}

#[test]
fn shared_node_splits_way() {
    let m = coords(&[1, 2, 3, 4, 5]);
    let edges = split_ways_into_edges(&m, &vec![way(7, &[1, 2, 3]), way(8, &[4, 2, 5])]);
    assert_eq!(edges.len(), 4);
    assert_eq!((edges[0].start_node, edges[0].end_node), (1, 2));
    assert_eq!((edges[1].start_node, edges[1].end_node), (2, 3));
    assert_eq!((edges[2].start_node, edges[2].end_node), (4, 2));
    assert_eq!((edges[3].start_node, edges[3].end_node), (2, 5));
    assert_eq!(edges[1].linestring, vec![m[&2], m[&3]]);
    let ids: Vec<usize> = edges.iter().map(|e| e.id).collect();
    assert_eq!(ids, vec![0, 1, 2, 3]);
}

#[test]
fn node_without_coordinate_is_skipped() {
    let m = coords(&[1, 3]);
    let edges = split_ways_into_edges(&m, &vec![way(7, &[1, 2, 3])]);
    assert_eq!(edges.len(), 1);
    assert_eq!(edges[0].linestring, vec![m[&1], m[&3]]);
}

#[test]
fn short_way_is_rejected() {
    let m = coords(&[1]);
    let edges = split_ways_into_edges(&m, &vec![way(7, &[1, 2]), way(8, &[1])]);
    assert!(edges.is_empty());
}

#[test]
fn directions_carry_over_to_edges() {
    let m = coords(&[1, 2, 3, 4]);
    let mut w = way(7, &[1, 2, 3]);
    w.backward = false;
    let edges = split_ways_into_edges(&m, &vec![w, way(8, &[2, 4])]);
    assert_eq!(edges.len(), 3);
    assert!(edges[0].forward && !edges[0].backward);
    assert!(edges[1].forward && !edges[1].backward);
    assert!(edges[2].forward && edges[2].backward);
}

#[test]
fn closed_way_splits_at_repeated_node() {
    let m = coords(&[1, 2, 3]);
    let edges = split_ways_into_edges(&m, &vec![way(7, &[1, 2, 3, 1])]);
    assert_eq!(edges.len(), 1);
    assert_eq!((edges[0].start_node, edges[0].end_node), (1, 1));
    assert_eq!(edges[0].linestring.len(), 4);
}

#[test]
fn compacted_ids_are_dense_in_first_seen_order() {
    let m = coords(&[1, 2, 3, 4, 5]);
    let edges = split_ways_into_edges(&m, &vec![way(7, &[1, 2, 3]), way(8, &[4, 2, 5])]);
    let lookup = get_graph_nodes_lookup(&m, &edges);
    assert_eq!(lookup.len(), 5);
    assert_eq!(lookup[&1], (0, m[&1]));
    assert_eq!(lookup[&2], (1, m[&2]));
    assert_eq!(lookup[&3], (2, m[&3]));
    assert_eq!(lookup[&4], (3, m[&4]));
    assert_eq!(lookup[&5], (4, m[&5]));
}

#[test]
fn process_returns_edges_and_lookup() {
    let m = coords(&[1, 2, 3]);
    let (lookup, edges) = process(&m, &vec![way(7, &[3, 2, 1])]);
    assert_eq!(edges.len(), 1);
    assert_eq!(lookup[&3].0, 0);
    assert_eq!(lookup[&1].0, 1);
    assert!(!lookup.contains_key(&2));
}
