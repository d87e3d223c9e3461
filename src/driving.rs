use vstd::prelude::*;
use std::collections::HashMap;
use crate::angles::Angles;
use crate::coord::{Coord, OSNodeID};
use crate::graph::GraphLink;
use crate::insertions::{appended, lemma_appended_push};
use crate::topology::{get_graph_nodes_lookup, Way};

verus! {

broadcast use vstd::std_specs::hash::group_hash_axioms;

/// Speeds in metres per hour of a road, in its own direction ("in") and
/// against it, for each of the four time bands.
#[derive(Clone, Copy, Debug)]
pub struct Speeds {
    pub in9to12: u32,
    pub in12to14: u32,
    pub in14to16: u32,
    pub in16to19: u32,
    pub against9to12: u32,
    pub against12to14: u32,
    pub against14to16: u32,
    pub against16to19: u32,
}

/// A road of the driving network: its stated directionality, its speeds and
/// its node ids.
pub struct DrivingWay {
    pub directionality: String,
    pub speeds: Speeds,
    pub node_ids: Vec<OSNodeID>,
}

/// A piece of a road between two split points, with the road's speeds.
pub struct DrivingEdge {
    pub start_node: OSNodeID,
    pub end_node: OSNodeID,
    pub linestring: Vec<Coord>,
    pub forward: bool,
    pub backward: bool,
    pub speeds: Speeds,
}

/// The four time bands of the driving graph.
#[derive(Clone, Copy, Debug, PartialEq, Eq, Structural)]
pub enum TimeBand {
    From9To12,
    From12To14,
    From14To16,
    From16To19,
}

/// A time band name that is none of the four.
#[derive(Clone, Copy, Debug, PartialEq, Eq, Structural)]
pub enum ConfigError {
    InvalidTimeGroup,
}

/// The time band that a name denotes.
pub open spec fn band_of(name: Seq<char>) -> Option<TimeBand> {
    if name == "9to12"@ {
        Some(TimeBand::From9To12)
    } else if name == "12to14"@ {
        Some(TimeBand::From12To14)
    } else if name == "14to16"@ {
        Some(TimeBand::From14To16)
    } else if name == "16to19"@ {
        Some(TimeBand::From16To19)
    } else {
        None
    }
}

/// Reads a time band from its name: "9to12", "12to14", "14to16" or "16to19".
pub fn parse_time_group(name: &str) -> (r: Result<TimeBand, ConfigError>)
    ensures
        match band_of(name@) {
            Some(b) => r == Ok::<TimeBand, ConfigError>(b),
            None => r == Err::<TimeBand, ConfigError>(ConfigError::InvalidTimeGroup),
        },
{
    let s: String = name.to_owned();
    if s == "9to12".to_owned() {
        Ok(TimeBand::From9To12)
    } else if s == "12to14".to_owned() {
        Ok(TimeBand::From12To14)
    } else if s == "14to16".to_owned() {
        Ok(TimeBand::From14To16)
    } else if s == "16to19".to_owned() {
        Ok(TimeBand::From16To19)
    } else {
        Err(ConfigError::InvalidTimeGroup)
    }
}

/// The speed in the road's own direction in a time band.
pub open spec fn forward_speed(s: Speeds, band: TimeBand) -> u32 {
    match band {
        TimeBand::From9To12 => s.in9to12,
        TimeBand::From12To14 => s.in12to14,
        TimeBand::From14To16 => s.in14to16,
        TimeBand::From16To19 => s.in16to19,
    }
}

/// The speed against the road's direction in a time band.
pub open spec fn backward_speed(s: Speeds, band: TimeBand) -> u32 {
    match band {
        TimeBand::From9To12 => s.against9to12,
        TimeBand::From12To14 => s.against12to14,
        TimeBand::From14To16 => s.against14to16,
        TimeBand::From16To19 => s.against16to19,
    }
}

/// The time in whole seconds to drive `length_mm` millimetres at
/// `speed` metres per hour: rounded half up, at least one, and `usize::MAX`
/// for a standstill or a time that does not fit.
pub open spec fn driving_seconds(length_mm: int, speed: int) -> int {
    if speed == 0 {
        usize::MAX as int
    } else {
        let t = (length_mm * 36 + 5 * speed) / (10 * speed);
        if t < 1 {
            1
        } else if t > usize::MAX {
            usize::MAX as int
        } else {
            t
        }
    }
}

/// The traversal time of a road length at a speed (see `driving_seconds`).
pub fn calculate_traversal_time(speed: u32, length_mm: u64) -> (r: usize)
    ensures
        r == driving_seconds(length_mm as int, speed as int),
        r >= 1,
{
    if speed == 0 {
        return usize::MAX;
    }
    assert(length_mm * 36 <= 0x1_0000_0000_0000_0000 * 36) by (nonlinear_arith)
        requires length_mm <= 0x1_0000_0000_0000_0000;
    let t: u128 = ((length_mm as u128) * 36 + 5 * (speed as u128)) / (10 * (speed as u128));
    if t < 1 {
        1
    } else if t > usize::MAX as u128 {
        usize::MAX
    } else {
        t as usize
    }
}

/// The directions in which a road may be driven, from its directionality:
/// forward for "Both Directions" and "In Direction", backward for "Both
/// Directions" and "In Opposite Direction".
pub fn determine_directionality(driving_way: &DrivingWay) -> (r: (bool, bool))
    ensures
        r.0 == (driving_way.directionality@ == "Both Directions"@ || driving_way.directionality@
            == "In Direction"@),
        r.1 == (driving_way.directionality@ == "Both Directions"@ || driving_way.directionality@
            == "In Opposite Direction"@),
{
    let both = driving_way.directionality == "Both Directions".to_owned();
    let forward = both || driving_way.directionality == "In Direction".to_owned();
    let backward = both || driving_way.directionality == "In Opposite Direction".to_owned();
    (forward, backward)
}

/// The roads as ways: way `i` has id `i`, the road's node ids and its
/// directions.
pub open spec fn roads_as_ways(roads: Seq<DrivingWay>, ways: Seq<Way>) -> bool {
    &&& ways.len() == roads.len()
    &&& forall|i: int| 0 <= i < ways.len() ==> {
        &&& (#[trigger] ways[i]).id == i
        &&& ways[i].node_ids@ == roads[i].node_ids@.map_values(|n: OSNodeID| n.0)
        &&& ways[i].forward == (roads[i].directionality@ == "Both Directions"@ || roads[i].directionality@
            == "In Direction"@)
        &&& ways[i].backward == (roads[i].directionality@ == "Both Directions"@ || roads[i].directionality@
            == "In Opposite Direction"@)
    }
}

/// The roads as ways that `split_ways_into_edges` can split.
pub fn ways_of_roads(ways: &Vec<DrivingWay>) -> (r: Vec<Way>)
    requires
        ways.len() <= i64::MAX,
    ensures
        roads_as_ways(ways@, r@),
{
    let mut out: Vec<Way> = Vec::new();
    let mut i: usize = 0;
    while i < ways.len()
        invariant
            0 <= i <= ways.len(),
            ways.len() <= i64::MAX,
            roads_as_ways(ways@.take(i as int), out@),
        decreases ways.len() - i,
    {
        let road = &ways[i];
        let mut node_ids: Vec<i64> = Vec::new();
        let mut k: usize = 0;
        while k < road.node_ids.len()
            invariant
                0 <= k <= road.node_ids.len(),
                node_ids@ == road.node_ids@.take(k as int).map_values(|n: OSNodeID| n.0),
            decreases road.node_ids.len() - k,
        {
            node_ids.push(road.node_ids[k].0);
            k += 1;
            assert(node_ids@ =~= road.node_ids@.take(k as int).map_values(|n: OSNodeID| n.0));
        }
        assert(road.node_ids@.take(k as int) =~= road.node_ids@);
        let (forward, backward) = determine_directionality(road);
        let ghost prev = out@;
        out.push(Way { id: i as i64, node_ids, forward, backward });
        proof {
            let t = ways@.take(i + 1);
            assert forall|j: int| 0 <= j < out@.len() implies {
                &&& (#[trigger] out@[j]).id == j
                &&& out@[j].node_ids@ == t[j].node_ids@.map_values(|n: OSNodeID| n.0)
                &&& out@[j].forward == (t[j].directionality@ == "Both Directions"@ || t[j].directionality@
                    == "In Direction"@)
                &&& out@[j].backward == (t[j].directionality@ == "Both Directions"@ || t[j].directionality@
                    == "In Opposite Direction"@)
            } by {
                if j < i {
                    assert(out@[j] == prev[j]);
                    assert(t[j] == ways@.take(i as int)[j]);
                }
            }
        }
        i += 1;
    }
    assert(ways@.take(i as int) =~= ways@);
    out
}

/// Splits the roads into edges (as `split_ways_into_edges` does with the
/// roads as ways; each edge carries its road's speeds) and gives every edge
/// endpoint a compacted graph id in the order in which endpoints are first
/// met.
pub fn split_ways_into_edges(node_mapping: &HashMap<i64, Coord>, ways: &Vec<DrivingWay>) -> (r: (
    Vec<DrivingEdge>,
    HashMap<i64, (usize, Coord)>,
))
    requires
        ways.len() <= i64::MAX,
    ensures
        exists|as_ways: Seq<Way>, edges: Seq<crate::topology::Edge>| {
            &&& roads_as_ways(ways@, as_ways)
            &&& crate::topology::edges_follow_plan(
                edges,
                crate::topology::resolved_ways(crate::topology::views(as_ways), node_mapping@),
                node_mapping@,
            )
            &&& r.0.len() == edges.len()
            &&& forall|k: int| 0 <= k < edges.len() ==> {
                &&& (#[trigger] r.0@[k]).start_node.0 == edges[k].start_node
                &&& r.0@[k].end_node.0 == edges[k].end_node
                &&& r.0@[k].linestring@ == edges[k].linestring@
                &&& r.0@[k].forward == edges[k].forward
                &&& r.0@[k].backward == edges[k].backward
                &&& 0 <= edges[k].osm_id < ways.len()
                &&& r.0@[k].speeds == ways@[edges[k].osm_id as int].speeds
            }
            &&& crate::topology::compacts(r.1@, crate::topology::node_order(edges), node_mapping@)
        },
{
    let as_ways = ways_of_roads(ways);
    let edges = crate::topology::split_ways_into_edges(node_mapping, &as_ways);
    proof {
        crate::topology::lemma_edges_from_ways(&as_ways, node_mapping@, edges@);
        assert forall|j: int| 0 <= j < edges.len() implies 0 <= (#[trigger] edges@[j]).osm_id < ways.len() by {
            let i = choose|i: int| 0 <= i < as_ways.len() && as_ways@[i].id == edges@[j].osm_id;
        }
    }
    let mut out: Vec<DrivingEdge> = Vec::new();
    let mut k: usize = 0;
    while k < edges.len()
        invariant
            0 <= k <= edges.len(),
            forall|j: int| 0 <= j < edges.len() ==> 0 <= (#[trigger] edges@[j]).osm_id < ways.len()
                && node_mapping@.contains_key(edges@[j].start_node) && node_mapping@.contains_key(edges@[j].end_node),
            out.len() == k,
            forall|j: int| 0 <= j < k ==> {
                &&& (#[trigger] out@[j]).start_node.0 == edges@[j].start_node
                &&& out@[j].end_node.0 == edges@[j].end_node
                &&& out@[j].linestring@ == edges@[j].linestring@
                &&& out@[j].forward == edges@[j].forward
                &&& out@[j].backward == edges@[j].backward
                &&& out@[j].speeds == ways@[edges@[j].osm_id as int].speeds
            },
        decreases edges.len() - k,
    {
        let e = &edges[k];
        let mut linestring: Vec<Coord> = Vec::new();
        let mut q: usize = 0;
        while q < e.linestring.len()
            invariant
                0 <= q <= e.linestring.len(),
                linestring@ == e.linestring@.take(q as int),
            decreases e.linestring.len() - q,
        {
            linestring.push(e.linestring[q]);
            q += 1;
            assert(linestring@ =~= e.linestring@.take(q as int));
        }
        assert(e.linestring@.take(q as int) =~= e.linestring@);
        let way_index = e.osm_id as usize;
        out.push(DrivingEdge {
            start_node: OSNodeID(e.start_node),
            end_node: OSNodeID(e.end_node),
            linestring,
            forward: e.forward,
            backward: e.backward,
            speeds: ways[way_index].speeds,
        });
        k += 1;
    }
    let lookup = get_graph_nodes_lookup(node_mapping, &edges);
    (out, lookup)
}

/// The forward link of a road edge: its time in the band, its end node, its
/// forward angles and the given id.
pub open spec fn forward_link(
    e: DrivingEdge,
    length_mm: u64,
    a: Angles,
    band: TimeBand,
    lookup: Map<i64, (usize, Coord)>,
    id: int,
) -> GraphLink {
    (
        driving_seconds(length_mm as int, forward_speed(e.speeds, band) as int) as usize,
        lookup[e.end_node.0].0,
        a.forward_departure,
        a.forward_arrival,
        id as u32,
    )
}

/// The backward link of a road edge: its time in the band against the road,
/// its start node, its backward angles and the given id.
pub open spec fn backward_link(
    e: DrivingEdge,
    length_mm: u64,
    a: Angles,
    band: TimeBand,
    lookup: Map<i64, (usize, Coord)>,
    id: int,
) -> GraphLink {
    (
        driving_seconds(length_mm as int, backward_speed(e.speeds, band) as int) as usize,
        lookup[e.start_node.0].0,
        a.backward_departure,
        a.backward_arrival,
        id as u32,
    )
}

/// The links of the first `k` road edges as (node, link) insertions, in
/// order: each edge's forward link (if it may be driven forward), then its
/// backward link (if it may be driven backward), with ids counting up.
pub open spec fn driving_ops(
    edges: Seq<DrivingEdge>,
    lengths: Seq<u64>,
    angles: Seq<Angles>,
    lookup: Map<i64, (usize, Coord)>,
    band: TimeBand,
    k: int,
) -> Seq<(int, GraphLink)>
    decreases k,
{
    if k <= 0 {
        Seq::empty()
    } else {
        let prev = driving_ops(edges, lengths, angles, lookup, band, k - 1);
        let e = edges[k - 1];
        let with_forward = if e.forward {
            prev.push(
                (
                    lookup[e.start_node.0].0 as int,
                    forward_link(e, lengths[k - 1], angles[k - 1], band, lookup, prev.len() as int),
                ),
            )
        } else {
            prev
        };
        if e.backward {
            with_forward.push(
                (
                    lookup[e.end_node.0].0 as int,
                    backward_link(e, lengths[k - 1], angles[k - 1], band, lookup, with_forward.len() as int),
                ),
            )
        } else {
            with_forward
        }
    }
}

proof fn lemma_driving_ops_len(
    edges: Seq<DrivingEdge>,
    lengths: Seq<u64>,
    angles: Seq<Angles>,
    lookup: Map<i64, (usize, Coord)>,
    band: TimeBand,
    k: int,
)
    requires
        k >= 0,
    ensures
        driving_ops(edges, lengths, angles, lookup, band, k).len() <= 2 * k,
    decreases k,
{
    if k > 0 {
        lemma_driving_ops_len(edges, lengths, angles, lookup, band, k - 1);
    }
}

/// Appends the forward link of `edge` to the row of its start node.
pub fn add_forward_link(
    driving_graph: &mut Vec<Vec<GraphLink>>,
    edge: &DrivingEdge,
    length_mm: u64,
    angles: &Angles,
    time_group: TimeBand,
    link_id: u32,
    osid_to_graph_id: &HashMap<i64, (usize, Coord)>,
)
    requires
        osid_to_graph_id@.contains_key(edge.start_node.0),
        osid_to_graph_id@.contains_key(edge.end_node.0),
        osid_to_graph_id@[edge.start_node.0].0 < old(driving_graph).len(),
    ensures
        final(driving_graph).len() == old(driving_graph).len(),
        forall|u: int| 0 <= u < final(driving_graph).len() ==> (#[trigger] final(driving_graph)@[u])@ == if u
            == osid_to_graph_id@[edge.start_node.0].0 {
            old(driving_graph)@[u]@.push(forward_link(*edge, length_mm, *angles, time_group, osid_to_graph_id@, link_id as int))
        } else {
            old(driving_graph)@[u]@
        },
{
    let speed = match time_group {
        TimeBand::From9To12 => edge.speeds.in9to12,
        TimeBand::From12To14 => edge.speeds.in12to14,
        TimeBand::From14To16 => edge.speeds.in14to16,
        TimeBand::From16To19 => edge.speeds.in16to19,
    };
    let forward_traversal_time = calculate_traversal_time(speed, length_mm);
    let start = match osid_to_graph_id.get(&edge.start_node.0) {
        Some(v) => v.0,
        None => 0,
    };
    let end = match osid_to_graph_id.get(&edge.end_node.0) {
        Some(v) => v.0,
        None => 0,
    };
    driving_graph[start].push((forward_traversal_time, end, angles.forward_departure, angles.forward_arrival, link_id));
}

/// Appends the backward link of `edge` to the row of its end node.
pub fn add_backward_link(
    driving_graph: &mut Vec<Vec<GraphLink>>,
    edge: &DrivingEdge,
    length_mm: u64,
    angles: &Angles,
    time_group: TimeBand,
    link_id: u32,
    osid_to_graph_id: &HashMap<i64, (usize, Coord)>,
)
    requires
        osid_to_graph_id@.contains_key(edge.start_node.0),
        osid_to_graph_id@.contains_key(edge.end_node.0),
        osid_to_graph_id@[edge.end_node.0].0 < old(driving_graph).len(),
    ensures
        final(driving_graph).len() == old(driving_graph).len(),
        forall|u: int| 0 <= u < final(driving_graph).len() ==> (#[trigger] final(driving_graph)@[u])@ == if u
            == osid_to_graph_id@[edge.end_node.0].0 {
            old(driving_graph)@[u]@.push(backward_link(*edge, length_mm, *angles, time_group, osid_to_graph_id@, link_id as int))
        } else {
            old(driving_graph)@[u]@
        },
{
    let speed = match time_group {
        TimeBand::From9To12 => edge.speeds.against9to12,
        TimeBand::From12To14 => edge.speeds.against12to14,
        TimeBand::From14To16 => edge.speeds.against14to16,
        TimeBand::From16To19 => edge.speeds.against16to19,
    };
    let backward_traversal_time = calculate_traversal_time(speed, length_mm);
    let start = match osid_to_graph_id.get(&edge.start_node.0) {
        Some(v) => v.0,
        None => 0,
    };
    let end = match osid_to_graph_id.get(&edge.end_node.0) {
        Some(v) => v.0,
        None => 0,
    };
    driving_graph[end].push((backward_traversal_time, start, angles.backward_departure, angles.backward_arrival, link_id));
}

/// Every road edge has compacted end nodes below `n`.
pub open spec fn road_edges_compacted(edges: Seq<DrivingEdge>, lookup: Map<i64, (usize, Coord)>, n: int) -> bool {
    forall|k: int| 0 <= k < edges.len() ==> {
        &&& lookup.contains_key((#[trigger] edges[k]).start_node.0)
        &&& lookup.contains_key(edges[k].end_node.0)
        &&& lookup[edges[k].start_node.0].0 < n
        &&& lookup[edges[k].end_node.0].0 < n
    }
}

/// Builds the driving graph for a time band: a row for every compacted node,
/// and for each road edge in turn its forward link (if it may be driven
/// forward) and its backward link (if it may be driven backward), with link
/// ids counting up from zero. `lengths_mm` and `angles` hold each edge's
/// length and angles.
pub fn create_driving_graph(
    edges: &Vec<DrivingEdge>,
    lengths_mm: &Vec<u64>,
    angles: &Vec<Angles>,
    osid_to_graph_id: &HashMap<i64, (usize, Coord)>,
    time_group: TimeBand,
) -> (driving_graph: Vec<Vec<GraphLink>>)
    requires
        lengths_mm.len() == edges.len(),
        angles.len() == edges.len(),
        road_edges_compacted(edges@, osid_to_graph_id@, osid_to_graph_id@.len() as int),
        2 * edges.len() <= u32::MAX,
    ensures
        driving_graph.len() == osid_to_graph_id@.len(),
        forall|u: int| 0 <= u < driving_graph.len() ==> (#[trigger] driving_graph@[u])@ == appended(
            driving_ops(edges@, lengths_mm@, angles@, osid_to_graph_id@, time_group, edges.len() as int),
            u,
        ),
{
    let n = osid_to_graph_id.len();
    let mut driving_graph: Vec<Vec<GraphLink>> = Vec::new();
    while driving_graph.len() < n
        invariant
            driving_graph.len() <= n,
            forall|u: int| 0 <= u < driving_graph.len() ==> (#[trigger] driving_graph@[u])@ == Seq::<GraphLink>::empty(),
        decreases n - driving_graph.len(),
    {
        driving_graph.push(Vec::new());
    }
    let ghost lookup = osid_to_graph_id@;
    let mut link_id: u32 = 0;
    let mut k: usize = 0;
    while k < edges.len()
        invariant
            0 <= k <= edges.len(),
            lengths_mm.len() == edges.len(),
            angles.len() == edges.len(),
            lookup == osid_to_graph_id@,
            n == lookup.len(),
            road_edges_compacted(edges@, lookup, n as int),
            2 * edges.len() <= u32::MAX,
            driving_graph.len() == n,
            link_id == driving_ops(edges@, lengths_mm@, angles@, lookup, time_group, k as int).len(),
            forall|u: int| 0 <= u < n ==> (#[trigger] driving_graph@[u])@ == appended(
                driving_ops(edges@, lengths_mm@, angles@, lookup, time_group, k as int),
                u,
            ),
        decreases edges.len() - k,
    {
        let edge = &edges[k];
        let ghost prev = driving_ops(edges@, lengths_mm@, angles@, lookup, time_group, k as int);
        proof {
            lemma_driving_ops_len(edges@, lengths_mm@, angles@, lookup, time_group, k as int);
            assert(edges@[k as int] == *edge);
        }
        let ghost with_forward = if edge.forward {
            prev.push(
                (
                    lookup[edge.start_node.0].0 as int,
                    forward_link(*edge, lengths_mm@[k as int], angles@[k as int], time_group, lookup, prev.len() as int),
                ),
            )
        } else {
            prev
        };
        if edge.forward {
            add_forward_link(&mut driving_graph, edge, lengths_mm[k], &angles[k], time_group, link_id, osid_to_graph_id);
            link_id = link_id + 1;
            proof {
                assert forall|u: int| 0 <= u < n implies (#[trigger] driving_graph@[u])@ == appended(with_forward, u) by {
                    lemma_appended_push(prev, with_forward.last(), u);
                    assert(with_forward.drop_last() =~= prev);
                }
            }
        }
        assert(link_id == with_forward.len());
        if edge.backward {
            add_backward_link(&mut driving_graph, edge, lengths_mm[k], &angles[k], time_group, link_id, osid_to_graph_id);
            link_id = link_id + 1;
            proof {
                let op = (
                    lookup[edge.end_node.0].0 as int,
                    backward_link(*edge, lengths_mm@[k as int], angles@[k as int], time_group, lookup, with_forward.len() as int),
                );
                assert forall|u: int| 0 <= u < n implies (#[trigger] driving_graph@[u])@ == appended(with_forward.push(op), u) by {
                    lemma_appended_push(with_forward, op, u);
                }
            }
        }
        k += 1;
    }
    driving_graph
}

/// Every link of a driving graph takes at least one second, in every time
/// band and in both directions.
pub proof fn lemma_driving_times_positive(
    edges: Seq<DrivingEdge>,
    lengths: Seq<u64>,
    angles: Seq<Angles>,
    lookup: Map<i64, (usize, Coord)>,
    band: TimeBand,
    k: int,
)
    ensures
        forall|q: int| 0 <= q < driving_ops(edges, lengths, angles, lookup, band, k).len() ==> (#[trigger] driving_ops(
            edges,
            lengths,
            angles,
            lookup,
            band,
            k,
        )[q]).1.0 >= 1,
    decreases k,
{
    if k > 0 {
        lemma_driving_times_positive(edges, lengths, angles, lookup, band, k - 1);
        let prev = driving_ops(edges, lengths, angles, lookup, band, k - 1);
        let cur = driving_ops(edges, lengths, angles, lookup, band, k);
        assert forall|q: int| 0 <= q < cur.len() implies (#[trigger] cur[q]).1.0 >= 1 by {
            if q < prev.len() {
                assert(cur[q] == prev[q]);
            }
        }
    }
}

} // verus!
