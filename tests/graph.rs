use connectivity::angles::{angle_segments, arrival_departure_angle_from_north, get_angle, Angles, Bearings};
use connectivity::coord::Coord;
use connectivity::graph::{convert_graph_nodes_lookup_to_nodes, group_links_into_graph, process};
use connectivity::topology::Edge;
use std::collections::HashMap;

#[test]
fn angles_round_to_whole_degrees_below_360() {
    assert_eq!(get_angle(0), 0);
    assert_eq!(get_angle(4549), 45);
    assert_eq!(get_angle(4550), 46);
    assert_eq!(get_angle(35949), 359);
    assert_eq!(get_angle(35960), 0);
    assert_eq!(get_angle(36000), 0);
    let a = arrival_departure_angle_from_north(&Bearings {
        forward_arrival: 9000,
        forward_departure: 18049,
        backward_arrival: 35999,
        backward_departure: 27010,
    });
    assert_eq!(
        a,
        Angles { forward_arrival: 90, forward_departure: 180, backward_arrival: 0, backward_departure: 270 }
    );
}

#[test]
fn angle_segments_take_the_end_pairs() {
    let p = |x: i64| Coord { x, y: 0 };
    let s = angle_segments(&vec![p(1), p(2), p(3), p(4)]);
    assert_eq!(s.forward_arrival, (p(1), p(2)));
    assert_eq!(s.forward_departure, (p(3), p(4)));
    assert_eq!(s.backward_arrival, (p(4), p(3)));
    assert_eq!(s.backward_departure, (p(2), p(1)));
}

#[test]
fn links_group_by_start_with_sequential_ids() {
    let links = vec![(0, 1, 5, 10, 20), (0, 2, 3, 11, 21), (2, 0, 7, 12, 22)];
    let g = group_links_into_graph(&links);
    assert_eq!(g.len(), 3);
    assert_eq!(g[0], vec![(5, 1, 10, 20, 0), (3, 2, 11, 21, 1)]);
    assert!(g[1].is_empty());
    assert_eq!(g[2], vec![(7, 0, 12, 22, 2)]);
    assert!(group_links_into_graph(&vec![]).is_empty());
}

fn edge(id: usize, start: i64, end: i64, forward: bool, backward: bool) -> Edge {
    Edge {
        id,
        osm_id: 1,
        start_node: start,
        end_node: end,
        linestring: vec![Coord { x: 0, y: 0 }, Coord { x: 1, y: 1 }],
        forward,
        backward,
    }
}

#[test]
fn graph_links_are_sorted_and_numbered() {
    let mut lookup = HashMap::new();
    lookup.insert(100, (0usize, Coord { x: 1, y: 2 }));
    lookup.insert(200, (1usize, Coord { x: 3, y: 4 }));
    lookup.insert(300, (2usize, Coord { x: 5, y: 6 }));
    let mut times = HashMap::new();
    times.insert(0usize, (10usize, 12usize));
    times.insert(1usize, (7usize, 9usize));
    let mut angles = HashMap::new();
    angles.insert(0usize, Angles { forward_arrival: 1, forward_departure: 2, backward_arrival: 3, backward_departure: 4 });
    angles.insert(1usize, Angles { forward_arrival: 5, forward_departure: 6, backward_arrival: 7, backward_departure: 8 });
    let edges = vec![edge(0, 200, 300, true, true), edge(1, 100, 200, true, false)];
    let (graph, nodes) = process(&lookup, &times, &angles, &edges);
    assert_eq!(graph.len(), 3);
    assert_eq!(graph[0], vec![(7, 1, 6, 5, 0)]);
    assert_eq!(graph[1], vec![(10, 2, 2, 1, 1)]);
    assert_eq!(graph[2], vec![(12, 1, 4, 3, 2)]);
    assert_eq!(nodes.len(), 3);
    assert_eq!(nodes[&1], Coord { x: 3, y: 4 });
}

#[test]
fn graph_has_a_row_for_every_node() {
    let mut lookup = HashMap::new();
    lookup.insert(100, (0usize, Coord { x: 1, y: 2 }));
    lookup.insert(200, (1usize, Coord { x: 3, y: 4 }));
    let mut times = HashMap::new();
    times.insert(0usize, (4usize, 4usize));
    let mut angles = HashMap::new();
    angles.insert(0usize, Angles { forward_arrival: 0, forward_departure: 0, backward_arrival: 0, backward_departure: 0 });
    let (graph, _) = process(&lookup, &times, &angles, &vec![edge(0, 100, 200, true, false)]);
    assert_eq!(graph.len(), 2);
    assert!(graph[1].is_empty());
    let ids: Vec<u32> = graph.iter().flatten().map(|l| l.4).collect();
    assert_eq!(ids, vec![0]);
}

#[test]
fn node_coordinates_by_compacted_id() {
    let mut lookup = HashMap::new();
    lookup.insert(-5, (1usize, Coord { x: 7, y: 8 }));
    lookup.insert(9, (0usize, Coord { x: 1, y: 1 }));
    let nodes = convert_graph_nodes_lookup_to_nodes(&lookup);
    assert_eq!(nodes.len(), 2);
    assert_eq!(nodes[&1], Coord { x: 7, y: 8 });
    assert_eq!(nodes[&0], Coord { x: 1, y: 1 });
}
