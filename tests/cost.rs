use connectivity::cost::{calculate_edge_traversal_time, seconds_from_micros, segment_traversal_costs};

#[test]
fn flat_segment_takes_length_over_speed() {
    // 100 m at 1 m/s
    assert_eq!(calculate_edge_traversal_time(&vec![100_000], &vec![Some(0), Some(0)], 1000, 6000), (100, 100));
    assert_eq!(calculate_edge_traversal_time(&vec![100_000], &vec![Some(0), Some(0)], 1000, 0), (100, 100));
    assert_eq!(calculate_edge_traversal_time(&vec![100_000], &vec![Some(5), Some(5)], 1000, 12000), (100, 100));
}

#[test]
fn ascent_is_charged_to_the_climbing_direction_only() {
    // a rise of 10 m at 6 s/m over no length
    assert_eq!(segment_traversal_costs(0, Some(0), Some(10_000), 1000, 6000), (60_000_000, 0));
    assert_eq!(segment_traversal_costs(0, Some(10_000), Some(0), 1000, 6000), (0, 60_000_000));
    assert_eq!(calculate_edge_traversal_time(&vec![0], &vec![Some(0), Some(10_000)], 1000, 6000), (60, 1));
}

#[test]
fn missing_height_means_flat() {
    assert_eq!(segment_traversal_costs(3000, None, Some(10_000), 1000, 6000), (3_000_000, 3_000_000));
    assert_eq!(segment_traversal_costs(3000, Some(0), None, 1000, 6000), (3_000_000, 3_000_000));
}

#[test]
fn costs_accumulate_over_segments() {
    let t = calculate_edge_traversal_time(
        &vec![10_000, 20_000],
        &vec![Some(0), Some(1000), Some(0)],
        1000,
        6000,
    );
    // forward: 10 + 6 + 20 = 36; backward: 10 + 20 + 6 = 36
    assert_eq!(t, (36, 36));
    let t = calculate_edge_traversal_time(&vec![10_000, 20_000], &vec![Some(0), Some(1000), Some(2000)], 1000, 6000);
    assert_eq!(t, (42, 30));
}

#[test]
fn times_are_rounded_and_at_least_one() {
    assert_eq!(seconds_from_micros(0), 1);
    assert_eq!(seconds_from_micros(1_000_000), 1);
    assert_eq!(seconds_from_micros(1_499_999), 1);
    assert_eq!(seconds_from_micros(1_500_000), 2);
    assert_eq!(seconds_from_micros(2_400_000), 2);
    assert_eq!(calculate_edge_traversal_time(&vec![], &vec![None], 1000, 6000), (1, 1));
    assert_eq!(calculate_edge_traversal_time(&vec![400], &vec![None, None], 1000, 6000), (1, 1));
}
