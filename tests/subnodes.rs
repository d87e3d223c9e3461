use connectivity::coord::Coord;
use connectivity::subnodes::{calculate_subnodes, get_subnode_coords, get_subnodes, get_traversal_times, ComponentLine, SubNode};
use std::collections::HashMap;

fn sub(x: i64, tts: usize, tte: usize) -> SubNode {
    SubNode { start_node: 3, end_node: 4, easting: x, northing: 0, time_to_start: tts, time_to_end: tte }
}

#[test]
fn long_segment_gets_interior_points() {
    let line = ComponentLine {
        start: Coord { x: 0, y: 0 },
        end: Coord { x: 30_000, y: 0 },
        length_mm: 10_000,
        forward_traversal_time: 10_000_000,
        backward_traversal_time: 12_000_000,
    };
    let s = get_subnodes(3, 4, 10_000_000, &vec![line]);
    assert_eq!(s, vec![sub(0, 0, 10), sub(10_000, 4, 7), sub(20_000, 8, 3), sub(30_000, 12, 0)]);
}

#[test]
fn short_segment_gets_only_its_end() {
    let line = ComponentLine {
        start: Coord { x: 0, y: 0 },
        end: Coord { x: 50, y: -50 },
        length_mm: 7500,
        forward_traversal_time: 7_500_000,
        backward_traversal_time: 7_500_000,
    };
    let s = get_subnodes(3, 4, 7_500_000, &vec![line]);
    assert_eq!(s.len(), 2);
    assert_eq!(s[1], SubNode { start_node: 3, end_node: 4, easting: 50, northing: -50, time_to_start: 8, time_to_end: 0 });
}

#[test]
fn interpolation_rounds_towards_the_start() {
    let line = ComponentLine {
        start: Coord { x: 10, y: 10 },
        end: Coord { x: 0, y: 20 },
        length_mm: 0,
        forward_traversal_time: 0,
        backward_traversal_time: 0,
    };
    assert_eq!(get_subnode_coords(1, 3, &line), (7, 13));
    assert_eq!(get_subnode_coords(0, 3, &line), (10, 10));
    assert_eq!(get_subnode_coords(3, 3, &line), (0, 20));
}

#[test]
fn segment_costs_follow_the_terrain() {
    let ls = vec![Coord { x: 0, y: 0 }, Coord { x: 30_000, y: 0 }];
    let (f, b, lines) = get_traversal_times(&ls, &vec![10_000], &vec![Some(0), Some(2000)], 1000, 1000);
    assert_eq!((f, b), (12_000_000, 10_000_000));
    assert_eq!(lines.len(), 1);
    assert_eq!(lines[0].forward_traversal_time, 12_000_000);
    assert_eq!(lines[0].backward_traversal_time, 10_000_000);
}

#[test]
fn subnodes_of_an_edge_use_compacted_ids() {
    let ls = vec![Coord { x: 0, y: 0 }, Coord { x: 30_000, y: 0 }];
    let mut lookup = HashMap::new();
    lookup.insert(5i64, (3usize, ls[0]));
    lookup.insert(6i64, (4usize, ls[1]));
    let s = calculate_subnodes(&ls, 5, 6, &vec![10_000], &vec![Some(0), Some(2000)], 1000, 1000, &lookup);
    assert_eq!(s, vec![sub(0, 0, 12), sub(10_000, 3, 8), sub(20_000, 7, 4), sub(30_000, 10, 0)]);
}
