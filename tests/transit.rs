use connectivity::transit::{process, reverse_graph_routes, InputTimetable, NodeRoute, StopNeighbours, Timetable};

fn walk_graph() -> Vec<Vec<(usize, usize, u16, u16, u32)>> {
    vec![vec![(4, 1, 0, 0, 0)], vec![(4, 0, 0, 0, 1)]]
}

#[test]
fn stop_snaps_to_two_nodes_both_ways() {
    let stops = vec![StopNeighbours { stop_id: 0, neighbours: vec![(0, 13_300), (1, 26_600)] }];
    let (walk, routes, reverse) = process(&walk_graph(), &stops, &vec![]);
    assert_eq!(walk.len(), 3);
    assert_eq!(routes.len(), 3);
    assert_eq!(reverse.len(), 3);
    assert_eq!(walk[2].edges, vec![(10, 0), (20, 1)]);
    assert_eq!(walk[0].edges, vec![(4, 1), (10, 2)]);
    assert_eq!(walk[1].edges, vec![(4, 0), (20, 2)]);
    assert!(walk.iter().all(|n| !n.has_pt));
}

#[test]
fn legs_link_to_their_stops() {
    let stops = vec![StopNeighbours { stop_id: 0, neighbours: vec![(0, 1330)] }];
    let legs = vec![
        InputTimetable { pt_stop_node: 0, next_node: Some(1), timetable: Some(Timetable(vec![(1, 2), (3, 4)])) },
        InputTimetable { pt_stop_node: 0, next_node: None, timetable: None },
    ];
    let (walk, routes, reverse) = process(&walk_graph(), &stops, &legs);
    assert_eq!(walk.len(), 5);
    assert_eq!(routes.len(), 5);
    assert_eq!(reverse.len(), 5);
    assert!(walk[3].has_pt);
    assert!(!walk[4].has_pt);
    assert_eq!(walk[3].edges, vec![(0, 2)]);
    assert_eq!(walk[4].edges, vec![(0, 2)]);
    assert_eq!(walk[2].edges, vec![(1, 0), (0, 3), (0, 4)]);
    assert_eq!(routes[3].next_stop_node, 4);
    assert_eq!(routes[3].timetable.0, vec![(1, 2), (3, 4)]);
    assert_eq!(routes[4].next_stop_node, 0);
    assert!(routes[4].timetable.0.is_empty());
    assert_eq!(routes[0].next_stop_node, 0);
    assert_eq!(reverse[4].prev_stop_node, 3);
    assert_eq!(reverse[4].timetable.0, vec![(3, 4), (1, 2)]);
    assert_eq!(reverse[3].prev_stop_node, 0);
    assert!(reverse[3].timetable.0.is_empty());
}

#[test]
fn reverse_twice_restores_timetable() {
    let mut t = Timetable(vec![(1, 2), (5, 6), (9, 10)]);
    t.reverse();
    assert_eq!(t.0, vec![(9, 10), (5, 6), (1, 2)]);
    t.reverse();
    assert_eq!(t.0, vec![(1, 2), (5, 6), (9, 10)]);
}

#[test]
fn later_leg_overrides_reverse_slot() {
    let routes = vec![
        NodeRoute { next_stop_node: 0, timetable: Timetable(vec![]) },
        NodeRoute { next_stop_node: 3, timetable: Timetable(vec![(1, 1)]) },
        NodeRoute { next_stop_node: 3, timetable: Timetable(vec![(2, 2), (5, 5)]) },
        NodeRoute { next_stop_node: 0, timetable: Timetable(vec![]) },
    ];
    let r = reverse_graph_routes(&routes);
    assert_eq!(r.len(), 4);
    assert_eq!(r[3].prev_stop_node, 2);
    assert_eq!(r[3].timetable.0, vec![(5, 5), (2, 2)]);
    assert_eq!(r[0].prev_stop_node, 0);
}
