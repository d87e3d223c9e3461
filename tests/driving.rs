use connectivity::angles::Angles;
use connectivity::coord::{Coord, OSNodeID};
use connectivity::driving::{
    calculate_traversal_time, create_driving_graph, determine_directionality, parse_time_group, split_ways_into_edges,
    ConfigError, DrivingWay, Speeds, TimeBand,
};
use std::collections::HashMap;

fn speeds() -> Speeds {
    Speeds {
        in9to12: 36_000,
        in12to14: 18_000,
        in14to16: 36_000,
        in16to19: 36_000,
        against9to12: 72_000,
        against12to14: 36_000,
        against14to16: 36_000,
        against16to19: 36_000,
    }
}

fn road(directionality: &str, nodes: &[i64]) -> DrivingWay {
    DrivingWay {
        directionality: directionality.to_string(),
        speeds: speeds(),
        node_ids: nodes.iter().map(|&n| OSNodeID(n)).collect(),
    }
}

#[test]
fn driving_time_from_speed() {
    assert_eq!(calculate_traversal_time(36_000, 1_000_000), 100);
    assert_eq!(calculate_traversal_time(36_000, 1_000), 1);
    assert_eq!(calculate_traversal_time(0, 1_000), usize::MAX);
    assert_eq!(calculate_traversal_time(36_000, 1_150), 1);
    assert_eq!(calculate_traversal_time(36_000, 15_000), 2);
}

#[test]
fn time_bands_by_name() {
    assert_eq!(parse_time_group("9to12"), Ok(TimeBand::From9To12));
    assert_eq!(parse_time_group("12to14"), Ok(TimeBand::From12To14));
    assert_eq!(parse_time_group("14to16"), Ok(TimeBand::From14To16));
    assert_eq!(parse_time_group("16to19"), Ok(TimeBand::From16To19));
    assert_eq!(parse_time_group("19to21"), Err(ConfigError::InvalidTimeGroup));
}

#[test]
fn directionality_from_text() {
    assert_eq!(determine_directionality(&road("Both Directions", &[1, 2])), (true, true));
    assert_eq!(determine_directionality(&road("In Direction", &[1, 2])), (true, false));
    assert_eq!(determine_directionality(&road("In Opposite Direction", &[1, 2])), (false, true));
    assert_eq!(determine_directionality(&road("Unknown", &[1, 2])), (false, false));
}

#[test]
fn driving_graph_per_time_band() {
    let mut coords = HashMap::new();
    for n in 1..5i64 {
        coords.insert(n, Coord { x: n, y: n });
    }
    let roads = vec![road("Both Directions", &[1, 2, 3]), road("In Direction", &[2, 4])];
    let (edges, lookup) = split_ways_into_edges(&coords, &roads);
    assert_eq!(edges.len(), 3);
    assert_eq!((edges[0].start_node, edges[0].end_node), (OSNodeID(1), OSNodeID(2)));
    assert_eq!((edges[2].start_node, edges[2].end_node), (OSNodeID(2), OSNodeID(4)));
    assert!(edges[2].forward && !edges[2].backward);
    assert_eq!(lookup[&4].0, 3);
    let a = Angles { forward_arrival: 1, forward_departure: 2, backward_arrival: 3, backward_departure: 4 };
    let g = create_driving_graph(&edges, &vec![1_000_000; 3], &vec![a; 3], &lookup, TimeBand::From9To12);
    assert_eq!(g.len(), 4);
    assert_eq!(g[0], vec![(100, 1, 2, 1, 0)]);
    assert_eq!(g[1], vec![(50, 0, 4, 3, 1), (100, 2, 2, 1, 2), (100, 3, 2, 1, 4)]);
    assert_eq!(g[2], vec![(50, 1, 4, 3, 3)]);
    assert!(g[3].is_empty());
    let g = create_driving_graph(&edges, &vec![1_000_000; 3], &vec![a; 3], &lookup, TimeBand::From12To14);
    assert_eq!(g[0], vec![(200, 1, 2, 1, 0)]);
}
