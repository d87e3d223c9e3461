use connectivity::settings::{accepts_way, oneway_access, select_ways, RawWay, Settings};

fn tags(pairs: &[(&str, &str)]) -> Vec<(String, String)> {
    pairs.iter().map(|(k, v)| (k.to_string(), v.to_string())).collect()
}

fn settings(mode: &str) -> Settings {
    Settings {
        mode: mode.to_string(),
        tag_pairs: tags(&[("highway", "motorway")]),
        speed: 1000,
        ascention_speed: 6000,
        descent_speed: 0,
    }
}

fn raw(id: i64, t: &[(&str, &str)]) -> RawWay {
    RawWay { id, node_ids: vec![id, id + 1], tags: tags(t) }
}

#[test]
fn ways_are_filtered_by_tags_and_id() {
    let raws = vec![
        raw(1, &[("highway", "residential"), ("oneway", "yes")]),
        raw(2, &[("highway", "motorway")]),
        raw(3, &[("name", "x")]),
        raw(1, &[("highway", "path")]),
        raw(5, &[("highway", "cycleway"), ("oneway", "yes"), ("oneway:bicycle", "no")]),
    ];
    let ways = select_ways(&raws, &settings("cycling"));
    let ids: Vec<i64> = ways.iter().map(|w| w.id).collect();
    assert_eq!(ids, vec![1, 5]);
    assert_eq!(ways[0].node_ids, vec![1, 2]);
    assert!(ways[0].forward && !ways[0].backward);
    assert!(ways[1].forward && ways[1].backward);
}

#[test]
fn oneway_depends_on_mode() {
    let t = tags(&[("highway", "residential"), ("oneway", "yes"), ("oneway:bicycle", "no")]);
    assert_eq!(oneway_access(&t, &settings("walk")), (true, true));
    assert_eq!(oneway_access(&t, &settings("cycling")), (true, true));
    assert_eq!(oneway_access(&t, &settings("driving")), (true, false));
    let t = tags(&[("highway", "residential"), ("oneway", "no")]);
    assert_eq!(oneway_access(&t, &settings("driving")), (true, true));
}

#[test]
fn excluded_pairs_reject_ways() {
    assert!(accepts_way(&tags(&[("highway", "path")]), &settings("walk")));
    assert!(!accepts_way(&tags(&[("highway", "motorway")]), &settings("walk")));
    assert!(!accepts_way(&tags(&[("foot", "no")]), &settings("walk")));
}
