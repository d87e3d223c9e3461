use vstd::prelude::*;
use std::collections::HashMap;
use crate::coord::Coord;

verus! {

broadcast use vstd::std_specs::hash::group_hash_axioms;

/// An accepted way: its OpenStreetMap id, its ordered node ids and the
/// directions in which it may be traversed.
pub struct Way {
    pub id: i64,
    pub node_ids: Vec<i64>,
    pub forward: bool,
    pub backward: bool,
}

/// The mathematical view of a `Way`.
pub struct WayView {
    pub id: i64,
    pub nodes: Seq<i64>,
    pub forward: bool,
    pub backward: bool,
}

impl View for Way {
    type V = WayView;

    open spec fn view(&self) -> WayView {
        WayView {
            id: self.id,
            nodes: self.node_ids@,
            forward: self.forward,
            backward: self.backward,
        }
    }
}

/// The views of a sequence of ways.
pub open spec fn views(ways: Seq<Way>) -> Seq<WayView> {
    ways.map_values(|w: Way| w@)
}

/// The node ids of a way that have a coordinate, in their order.
pub open spec fn resolved_nodes(nodes: Seq<i64>, coords: Map<i64, Coord>) -> Seq<i64>
    decreases nodes.len(),
{
    if nodes.len() == 0 {
        Seq::empty()
    } else {
        let rest = resolved_nodes(nodes.drop_last(), coords);
        if coords.contains_key(nodes.last()) {
            rest.push(nodes.last())
        } else {
            rest
        }
    }
}

/// The ways that take part in splitting: each way keeps the nodes that have a
/// coordinate, and a way left with fewer than two nodes is rejected.
pub open spec fn resolved_ways(ways: Seq<WayView>, coords: Map<i64, Coord>) -> Seq<WayView>
    decreases ways.len(),
{
    if ways.len() == 0 {
        Seq::empty()
    } else {
        let rest = resolved_ways(ways.drop_last(), coords);
        let w = ways.last();
        let nodes = resolved_nodes(w.nodes, coords);
        if nodes.len() >= 2 {
            rest.push(WayView { id: w.id, nodes: nodes, forward: w.forward, backward: w.backward })
        } else {
            rest
        }
    }
}

/// How often `n` occurs in `nodes`.
pub open spec fn occurrences(nodes: Seq<i64>, n: i64) -> nat
    decreases nodes.len(),
{
    if nodes.len() == 0 {
        0
    } else {
        occurrences(nodes.drop_last(), n) + if nodes.last() == n {
            1nat
        } else {
            0nat
        }
    }
}

/// How often the ways reference the node `n`, over all of them.
pub open spec fn references(ways: Seq<WayView>, n: i64) -> nat
    decreases ways.len(),
{
    if ways.len() == 0 {
        0
    } else {
        references(ways.drop_last(), n) + occurrences(ways.last().nodes, n)
    }
}

/// Position `i` of way `w` is a split point: an end of the way, or a node
/// that the ways reference more than once.
pub open spec fn is_split_point(ways: Seq<WayView>, w: int, i: int) -> bool {
    i == 0 || i == ways[w].nodes.len() - 1 || references(ways, ways[w].nodes[i]) > 1
}

/// The pairs of consecutive split positions among the first `j` positions of
/// way `w`, and the last split position seen.
pub open spec fn cuts(ways: Seq<WayView>, w: int, j: int) -> (Seq<(int, int)>, int)
    decreases j,
{
    if j <= 0 {
        (Seq::empty(), 0)
    } else {
        let prev = cuts(ways, w, j - 1);
        let i = j - 1;
        if i > 0 && is_split_point(ways, w, i) {
            (prev.0.push((prev.1, i)), i)
        } else {
            prev
        }
    }
}

/// The edges of way `w`, as (way, first position, last position).
pub open spec fn way_plan(ways: Seq<WayView>, w: int) -> Seq<(int, int, int)> {
    cuts(ways, w, ways[w].nodes.len() as int).0.map_values(|c: (int, int)| (w, c.0, c.1))
}

/// The edges of the first `k` ways, in the order in which they are emitted.
pub open spec fn plan(ways: Seq<WayView>, k: int) -> Seq<(int, int, int)>
    decreases k,
{
    if k <= 0 {
        Seq::empty()
    } else {
        plan(ways, k - 1) + way_plan(ways, k - 1)
    }
}

/// The edge plan of all the ways.
pub open spec fn full_plan(ways: Seq<WayView>) -> Seq<(int, int, int)> {
    plan(ways, ways.len() as int)
}

/// The coordinates of a run of nodes.
pub open spec fn polyline(nodes: Seq<i64>, coords: Map<i64, Coord>) -> Seq<Coord> {
    nodes.map_values(|n: i64| coords[n])
}

/// A topologically minimal piece of a way, between two split points.
pub struct Edge {
    pub id: usize,
    pub osm_id: i64,
    pub start_node: i64,
    pub end_node: i64,
    pub linestring: Vec<Coord>,
    pub forward: bool,
    pub backward: bool,
}

/// `e` is the edge with id `id` that entry `p` of the plan describes.
pub open spec fn edge_matches(
    e: Edge,
    id: int,
    ways: Seq<WayView>,
    coords: Map<i64, Coord>,
    p: (int, int, int),
) -> bool {
    let way = ways[p.0];
    &&& e.id == id
    &&& e.osm_id == way.id
    &&& e.start_node == way.nodes[p.1]
    &&& e.end_node == way.nodes[p.2]
    &&& e.linestring@ == polyline(way.nodes.subrange(p.1, p.2 + 1), coords)
    &&& e.forward == way.forward
    &&& e.backward == way.backward
}

/// The edges are exactly those that the plan of `ways` describes, with ids
/// equal to their positions.
pub open spec fn edges_follow_plan(
    edges: Seq<Edge>,
    ways: Seq<WayView>,
    coords: Map<i64, Coord>,
) -> bool {
    let p = full_plan(ways);
    &&& edges.len() == p.len()
    &&& forall|k: int| 0 <= k < edges.len() ==> edge_matches(#[trigger] edges[k], k, ways, coords, p[k])
}

proof fn lemma_views_push(ways: Seq<Way>, w: Way)
    ensures
        views(ways.push(w)) == views(ways).push(w@),
{
    assert(views(ways.push(w)) =~= views(ways).push(w@));
}

proof fn lemma_views_take_succ(ways: Seq<Way>, i: int)
    requires
        0 <= i < ways.len(),
    ensures
        views(ways.take(i + 1)).drop_last() == views(ways.take(i)),
        views(ways.take(i + 1)).last() == ways[i]@,
        views(ways.take(i + 1)).len() == i + 1,
{
    assert(views(ways.take(i + 1)).drop_last() =~= views(ways.take(i)));
}

/// Keeps, in each way, the nodes that have a coordinate, and drops the ways
/// that are left with fewer than two nodes.
pub fn resolve_ways(node_mapping: &HashMap<i64, Coord>, ways: &Vec<Way>) -> (r: Vec<Way>)
    ensures
        views(r@) == resolved_ways(views(ways@), node_mapping@),
{
    let mut out: Vec<Way> = Vec::new();
    let mut i: usize = 0;
    assert(views(ways@.take(0)) =~= Seq::<WayView>::empty());
    assert(views(out@) =~= Seq::<WayView>::empty());
    while i < ways.len()
        invariant
            0 <= i <= ways.len(),
            views(out@) == resolved_ways(views(ways@.take(i as int)), node_mapping@),
        decreases ways.len() - i,
    {
        let way = &ways[i];
        let mut kept: Vec<i64> = Vec::new();
        let mut j: usize = 0;
        assert(way.node_ids@.take(0) =~= Seq::<i64>::empty());
        while j < way.node_ids.len()
            invariant
                0 <= j <= way.node_ids.len(),
                way == &ways@[i as int],
                kept@ == resolved_nodes(way.node_ids@.take(j as int), node_mapping@),
            decreases way.node_ids.len() - j,
        {
            let n = way.node_ids[j];
            assert(way.node_ids@.take(j + 1).drop_last() =~= way.node_ids@.take(j as int));
            if node_mapping.contains_key(&n) {
                kept.push(n);
            }
            j += 1;
        }
        assert(way.node_ids@.take(j as int) =~= way.node_ids@);
        proof {
            lemma_views_take_succ(ways@, i as int);
        }
        if kept.len() >= 2 {
            let w = Way { id: way.id, node_ids: kept, forward: way.forward, backward: way.backward };
            proof {
                lemma_views_push(out@, w);
            }
            out.push(w);
        }
        i += 1;
    }
    assert(ways@.take(i as int) =~= ways@);
    out
}


/// The reference count of `n` that `counter` records, capped at two.
pub open spec fn recorded(counter: Map<i64, u8>, n: i64) -> nat {
    if counter.contains_key(n) {
        counter[n] as nat
    } else {
        0
    }
}

/// `v` capped at two.
pub open spec fn capped(v: nat) -> nat {
    if v > 2 {
        2
    } else {
        v
    }
}

/// Counts, for each node, how often the ways reference it; the count is
/// capped at two, which is all that splitting needs to know.
fn count_references(ways: &Vec<Way>) -> (counter: HashMap<i64, u8>)
    ensures
        forall|n: i64| #[trigger] recorded(counter@, n) == capped(references(views(ways@), n)),
{
    let mut counter: HashMap<i64, u8> = HashMap::new();
    let mut i: usize = 0;
    assert(views(ways@.take(0)) =~= Seq::<WayView>::empty());
    while i < ways.len()
        invariant
            0 <= i <= ways.len(),
            forall|n: i64| #[trigger] recorded(counter@, n) == capped(references(views(ways@.take(i as int)), n)),
        decreases ways.len() - i,
    {
        let nodes = &ways[i].node_ids;
        let mut j: usize = 0;
        proof {
            lemma_views_take_succ(ways@, i as int);
            assert(nodes@.take(0) =~= Seq::<i64>::empty());
        }
        while j < nodes.len()
            invariant
                0 <= j <= nodes.len(),
                0 <= i < ways.len(),
                nodes == &ways@[i as int].node_ids,
                forall|n: i64| #[trigger] recorded(counter@, n) == capped(
                    references(views(ways@.take(i as int)), n) + occurrences(nodes@.take(j as int), n),
                ),
            decreases nodes.len() - j,
        {
            let n = nodes[j];
            assert(nodes@.take(j + 1).drop_last() =~= nodes@.take(j as int));
            let c: u8 = match counter.get(&n) {
                Some(c) => *c,
                None => 0,
            };
            let ghost before = counter@;
            if c < 2 {
                counter.insert(n, c + 1);
            }
            assert forall|m: i64| #[trigger] recorded(counter@, m) == capped(
                references(views(ways@.take(i as int)), m) + occurrences(nodes@.take(j + 1), m),
            ) by {
                assert(occurrences(nodes@.take(j + 1), m) == occurrences(nodes@.take(j as int), m)
                    + if m == n { 1nat } else { 0nat });
                assert(recorded(before, m) == capped(
                    references(views(ways@.take(i as int)), m) + occurrences(nodes@.take(j as int), m),
                ));
            }
            j += 1;
        }
        assert(nodes@.take(j as int) =~= nodes@);
        i += 1;
    }
    assert(ways@.take(i as int) =~= ways@);
    counter
}

/// The plan of the first `i` ways followed by the cuts found among the first
/// `j` positions of way `i`.
pub open spec fn partial_plan(ways: Seq<WayView>, i: int, j: int) -> Seq<(int, int, int)> {
    plan(ways, i) + cuts(ways, i, j).0.map_values(|c: (int, int)| (i, c.0, c.1))
}

/// Every way has at least two nodes, and every node has a coordinate.
pub open spec fn ways_resolved(ways: Seq<WayView>, coords: Map<i64, Coord>) -> bool {
    forall|w: int| 0 <= w < ways.len() ==> {
        &&& (#[trigger] ways[w]).nodes.len() >= 2
        &&& forall|k: int| 0 <= k < ways[w].nodes.len() ==> coords.contains_key(#[trigger] ways[w].nodes[k])
    }
}

proof fn lemma_resolved_nodes_have_coords(nodes: Seq<i64>, coords: Map<i64, Coord>)
    ensures
        forall|k: int| 0 <= k < resolved_nodes(nodes, coords).len() ==> coords.contains_key(
            #[trigger] resolved_nodes(nodes, coords)[k],
        ),
    decreases nodes.len(),
{
    if nodes.len() > 0 {
        lemma_resolved_nodes_have_coords(nodes.drop_last(), coords);
        let r = resolved_nodes(nodes, coords);
        let rest = resolved_nodes(nodes.drop_last(), coords);
        assert forall|k: int| 0 <= k < r.len() implies coords.contains_key(#[trigger] r[k]) by {
            if k < rest.len() {
                assert(r[k] == rest[k]);
            }
        }
    }
}

proof fn lemma_resolved_ways_resolved(ways: Seq<WayView>, coords: Map<i64, Coord>)
    ensures
        ways_resolved(resolved_ways(ways, coords), coords),
    decreases ways.len(),
{
    if ways.len() > 0 {
        lemma_resolved_ways_resolved(ways.drop_last(), coords);
        lemma_resolved_nodes_have_coords(ways.last().nodes, coords);
        let r = resolved_ways(ways, coords);
        let rest = resolved_ways(ways.drop_last(), coords);
        assert forall|w: int| 0 <= w < r.len() implies {
            &&& (#[trigger] r[w]).nodes.len() >= 2
            &&& forall|k: int| 0 <= k < r[w].nodes.len() ==> coords.contains_key(#[trigger] r[w].nodes[k])
        } by {
            if w < rest.len() {
                assert(r[w] == rest[w]);
            }
        }
    }
}

/// Splits resolved ways at their split points.
fn split_resolved(node_mapping: &HashMap<i64, Coord>, ways: &Vec<Way>) -> (edges: Vec<Edge>)
    requires
        ways_resolved(views(ways@), node_mapping@),
    ensures
        edges_follow_plan(edges@, views(ways@), node_mapping@),
{
    let ghost rw = views(ways@);
    let ghost coords = node_mapping@;
    let counter = count_references(ways);
    let mut edges: Vec<Edge> = Vec::new();
    let mut i: usize = 0;
    while i < ways.len()
        invariant
            0 <= i <= ways.len(),
            rw == views(ways@),
            coords == node_mapping@,
            ways_resolved(rw, coords),
            forall|n: i64| #[trigger] recorded(counter@, n) == capped(references(rw, n)),
            edges.len() == plan(rw, i as int).len(),
            forall|k: int| 0 <= k < edges.len() ==> edge_matches(#[trigger] edges@[k], k, rw, coords, plan(rw, i as int)[k]),
        decreases ways.len() - i,
    {
        let way = &ways[i];
        let nodes = &way.node_ids;
        let num = nodes.len();
        let mut pts: Vec<Coord> = Vec::new();
        let mut start_idx: usize = 0;
        let mut j: usize = 0;
        proof {
            assert(rw[i as int] == way@);
            assert(partial_plan(rw, i as int, 0) =~= plan(rw, i as int));
        }
        while j < num
            invariant
                0 <= i < ways.len(),
                0 <= j <= num,
                num == nodes.len(),
                way == &ways@[i as int],
                nodes == &way.node_ids,
                rw == views(ways@),
                rw[i as int] == way@,
                coords == node_mapping@,
                ways_resolved(rw, coords),
                forall|n: i64| #[trigger] recorded(counter@, n) == capped(references(rw, n)),
                start_idx == cuts(rw, i as int, j as int).1,
                j > 0 ==> start_idx < j,
                j > 0 ==> pts@ == polyline(nodes@.subrange(start_idx as int, j as int), coords),
                j == 0 ==> start_idx == 0 && pts@.len() == 0,
                edges.len() == partial_plan(rw, i as int, j as int).len(),
                forall|k: int| 0 <= k < edges.len() ==> edge_matches(#[trigger] edges@[k], k, rw, coords, partial_plan(rw, i as int, j as int)[k]),
            decreases num - j,
        {
            let node = nodes[j];
            assert(coords.contains_key(rw[i as int].nodes[j as int]));
            let c: Coord = match node_mapping.get(&node) {
                Some(c) => *c,
                None => Coord { x: 0, y: 0 },
            };
            let ghost old_pts = pts@;
            pts.push(c);
            proof {
                if j > 0 {
                    assert(pts@ =~= polyline(nodes@.subrange(start_idx as int, j + 1), coords));
                }
            }
            let shared = match counter.get(&node) {
                Some(c) => *c > 1,
                None => false,
            };
            proof {
                assert(recorded(counter@, node) == capped(references(rw, node)));
            }
            let is_endpoint = j == 0 || j == num - 1 || shared;
            assert(is_endpoint == is_split_point(rw, i as int, j as int));
            if is_endpoint && j > 0 {
                let mut line: Vec<Coord> = Vec::new();
                std::mem::swap(&mut line, &mut pts);
                let e = Edge {
                    id: edges.len(),
                    osm_id: way.id,
                    start_node: nodes[start_idx],
                    end_node: node,
                    linestring: line,
                    forward: way.forward,
                    backward: way.backward,
                };
                let ghost pp = partial_plan(rw, i as int, j as int);
                proof {
                    assert(partial_plan(rw, i as int, j + 1) =~= pp.push((i as int, start_idx as int, j as int)));
                }
                let ghost old_edges = edges@;
                edges.push(e);
                start_idx = j;
                pts.push(c);
                proof {
                    assert(pts@ =~= polyline(nodes@.subrange(start_idx as int, j + 1), coords));
                    assert forall|k: int| 0 <= k < edges.len() implies edge_matches(
                        #[trigger] edges@[k], k, rw, coords, partial_plan(rw, i as int, j + 1)[k]) by {
                        if k < pp.len() {
                            assert(edges@[k] == old_edges[k]);
                        }
                    }
                }
            } else {
                proof {
                    if j == 0 {
                        assert(pts@ =~= polyline(nodes@.subrange(0, 1), coords));
                    }
                    assert(partial_plan(rw, i as int, j + 1) == partial_plan(rw, i as int, j as int));
                }
            }
            j += 1;
        }
        proof {
            assert(partial_plan(rw, i as int, num as int) == plan(rw, i + 1));
        }
        i += 1;
    }
    edges
}

/// Splits the ways into topologically minimal edges. Nodes without a
/// coordinate are left out of their way, and a way left with fewer than two
/// nodes yields no edge. Each remaining way is cut at its split points: its
/// two ends and every node that the remaining ways reference more than once.
/// Edge ids count up from zero in the order in which edges are emitted.
pub fn split_ways_into_edges(node_mapping: &HashMap<i64, Coord>, ways: &Vec<Way>) -> (edges: Vec<Edge>)
    ensures
        edges_follow_plan(edges@, resolved_ways(views(ways@), node_mapping@), node_mapping@),
{
    let resolved = resolve_ways(node_mapping, ways);
    proof {
        lemma_resolved_ways_resolved(views(ways@), node_mapping@);
    }
    split_resolved(node_mapping, &resolved)
}

/// The start and end node of each edge, in edge order.
pub open spec fn endpoints(edges: Seq<Edge>) -> Seq<i64>
    decreases edges.len(),
{
    if edges.len() == 0 {
        Seq::empty()
    } else {
        endpoints(edges.drop_last()).push(edges.last().start_node).push(edges.last().end_node)
    }
}

/// The distinct values of `s`, in the order in which they first occur.
pub open spec fn first_seen(s: Seq<i64>) -> Seq<i64>
    decreases s.len(),
{
    if s.len() == 0 {
        Seq::empty()
    } else {
        let r = first_seen(s.drop_last());
        if r.contains(s.last()) {
            r
        } else {
            r.push(s.last())
        }
    }
}

/// The order in which edge endpoints receive their compacted ids.
pub open spec fn node_order(edges: Seq<Edge>) -> Seq<i64> {
    first_seen(endpoints(edges))
}

/// `lookup` gives each node of `order` its position there as compacted id,
/// together with its coordinate, and holds no other node.
pub open spec fn compacts(
    lookup: Map<i64, (usize, Coord)>,
    order: Seq<i64>,
    coords: Map<i64, Coord>,
) -> bool {
    &&& forall|k: int| 0 <= k < order.len() ==> {
        &&& lookup.contains_key(#[trigger] order[k])
        &&& lookup[order[k]].0 == k
        &&& lookup[order[k]].1 == coords[order[k]]
    }
    &&& forall|n: i64| #[trigger] lookup.contains_key(n) ==> {
        &&& lookup[n].0 < order.len()
        &&& order[lookup[n].0 as int] == n
    }
}

/// Gives `n` the next compacted id unless it has one already.
fn assign_compacted_id(
    lookup: &mut HashMap<i64, (usize, Coord)>,
    n: i64,
    node_mapping: &HashMap<i64, Coord>,
    Ghost(seen): Ghost<Seq<i64>>,
)
    requires
        compacts(old(lookup)@, first_seen(seen), node_mapping@),
        old(lookup)@.len() == first_seen(seen).len(),
        node_mapping@.contains_key(n),
    ensures
        compacts(final(lookup)@, first_seen(seen.push(n)), node_mapping@),
        final(lookup)@.len() == first_seen(seen.push(n)).len(),
{
    let ghost order = first_seen(seen);
    assert(seen.push(n).drop_last() =~= seen);
    if !lookup.contains_key(&n) {
        assert(!order.contains(n)) by {
            if order.contains(n) {
                let k = choose|k: int| 0 <= k < order.len() && order[k] == n;
                assert(lookup@.contains_key(order[k]));
            }
        }
        let c: Coord = match node_mapping.get(&n) {
            Some(c) => *c,
            None => Coord { x: 0, y: 0 },
        };
        let id = lookup.len();
        lookup.insert(n, (id, c));
        proof {
            vstd::set::axiom_set_insert_len(old(lookup)@.dom(), n);
            assert(lookup@.dom() =~= old(lookup)@.dom().insert(n));
        }
        let ghost order2 = order.push(n);
        assert(first_seen(seen.push(n)) == order2);
        assert forall|k: int| 0 <= k < order2.len() implies {
            &&& lookup@.contains_key(#[trigger] order2[k])
            &&& lookup@[order2[k]].0 == k
            &&& lookup@[order2[k]].1 == node_mapping@[order2[k]]
        } by {
            if k < order.len() {
                assert(order2[k] == order[k]);
            }
        }
    } else {
        assert(order.contains(n)) by {
            assert(order[lookup@[n].0 as int] == n);
        }
    }
}

/// Gives every edge endpoint a compacted id: ids are handed out from zero,
/// walking the edges in order and each edge's start before its end, to each
/// node when it is first met. Each entry carries the node's coordinate.
pub fn get_graph_nodes_lookup(node_mapping: &HashMap<i64, Coord>, edges: &Vec<Edge>) -> (lookup:
    HashMap<i64, (usize, Coord)>)
    requires
        forall|k: int| 0 <= k < edges.len() ==> node_mapping@.contains_key(#[trigger] edges@[k].start_node)
            && node_mapping@.contains_key(edges@[k].end_node),
    ensures
        compacts(lookup@, node_order(edges@), node_mapping@),
        lookup@.len() == node_order(edges@).len(),
{
    let mut lookup: HashMap<i64, (usize, Coord)> = HashMap::new();
    let mut i: usize = 0;
    assert(edges@.take(0) =~= Seq::<Edge>::empty());
    assert(lookup@.dom() =~= Set::<i64>::empty());
    while i < edges.len()
        invariant
            0 <= i <= edges.len(),
            forall|k: int| 0 <= k < edges.len() ==> node_mapping@.contains_key(#[trigger] edges@[k].start_node)
                && node_mapping@.contains_key(edges@[k].end_node),
            compacts(lookup@, node_order(edges@.take(i as int)), node_mapping@),
            lookup@.len() == node_order(edges@.take(i as int)).len(),
        decreases edges.len() - i,
    {
        let ghost seen = endpoints(edges@.take(i as int));
        assert(edges@.take(i + 1).drop_last() =~= edges@.take(i as int));
        let e = &edges[i];
        assert(node_mapping@.contains_key(edges@[i as int].start_node));
        assign_compacted_id(&mut lookup, e.start_node, node_mapping, Ghost(seen));
        assign_compacted_id(&mut lookup, e.end_node, node_mapping, Ghost(seen.push(e.start_node)));
        i += 1;
    }
    assert(edges@.take(i as int) =~= edges@);
    lookup
}

proof fn lemma_cuts_valid(ways: Seq<WayView>, w: int, j: int)
    requires
        0 <= w < ways.len(),
        0 <= j <= ways[w].nodes.len(),
    ensures
        0 <= cuts(ways, w, j).1,
        j > 0 ==> cuts(ways, w, j).1 < j,
        forall|c: int| 0 <= c < cuts(ways, w, j).0.len() ==> {
            let p = #[trigger] cuts(ways, w, j).0[c];
            0 <= p.0 < p.1 < j
        },
    decreases j,
{
    if j > 0 {
        lemma_cuts_valid(ways, w, j - 1);
    }
}

proof fn lemma_plan_valid(ways: Seq<WayView>, k: int)
    requires
        0 <= k <= ways.len(),
    ensures
        forall|q: int| 0 <= q < plan(ways, k).len() ==> {
            let p = #[trigger] plan(ways, k)[q];
            &&& 0 <= p.0 < k
            &&& 0 <= p.1 < p.2 < ways[p.0].nodes.len()
        },
    decreases k,
{
    if k > 0 {
        lemma_plan_valid(ways, k - 1);
        let w = k - 1;
        lemma_cuts_valid(ways, w, ways[w].nodes.len() as int);
        let prev = plan(ways, k - 1);
        let mine = way_plan(ways, w);
        assert forall|q: int| 0 <= q < plan(ways, k).len() implies {
            let p = #[trigger] plan(ways, k)[q];
            &&& 0 <= p.0 < k
            &&& 0 <= p.1 < p.2 < ways[p.0].nodes.len()
        } by {
            if q < prev.len() {
                assert(plan(ways, k)[q] == prev[q]);
            } else {
                assert(plan(ways, k)[q] == mine[q - prev.len()]);
            }
        }
    }
}

proof fn lemma_resolved_ids(ways: Seq<WayView>, coords: Map<i64, Coord>)
    ensures
        forall|k: int| 0 <= k < resolved_ways(ways, coords).len() ==> exists|i: int| 0 <= i < ways.len()
            && ways[i].id == (#[trigger] resolved_ways(ways, coords)[k]).id,
    decreases ways.len(),
{
    if ways.len() > 0 {
        let rest = ways.drop_last();
        lemma_resolved_ids(rest, coords);
        let r = resolved_ways(ways, coords);
        let rr = resolved_ways(rest, coords);
        assert forall|k: int| 0 <= k < r.len() implies exists|i: int| 0 <= i < ways.len()
            && ways[i].id == (#[trigger] r[k]).id by {
            if k < rr.len() {
                assert(r[k] == rr[k]);
                let i = choose|i: int| 0 <= i < rest.len() && rest[i].id == rr[k].id;
                assert(ways[i] == rest[i]);
            } else {
                assert(ways[ways.len() - 1].id == r[k].id);
            }
        }
    }
}

/// Facts about the edges that `split_ways_into_edges` returns: each comes
/// from one of the given ways, and its end nodes have coordinates.
pub proof fn lemma_edges_from_ways(ways: &Vec<Way>, coords: Map<i64, Coord>, edges: Seq<Edge>)
    requires
        edges_follow_plan(edges, resolved_ways(views(ways@), coords), coords),
    ensures
        forall|k: int| 0 <= k < edges.len() ==> {
            &&& exists|i: int| 0 <= i < ways.len() && ways@[i].id == (#[trigger] edges[k]).osm_id
            &&& coords.contains_key(edges[k].start_node)
            &&& coords.contains_key(edges[k].end_node)
        },
{
    let rw = resolved_ways(views(ways@), coords);
    lemma_resolved_ways_resolved(views(ways@), coords);
    lemma_resolved_ids(views(ways@), coords);
    lemma_plan_valid(rw, rw.len() as int);
    assert forall|k: int| 0 <= k < edges.len() implies {
        &&& exists|i: int| 0 <= i < ways.len() && ways@[i].id == (#[trigger] edges[k]).osm_id
        &&& coords.contains_key(edges[k].start_node)
        &&& coords.contains_key(edges[k].end_node)
    } by {
        let p = full_plan(rw)[k];
        assert(edge_matches(edges[k], k, rw, coords, p));
        let i = choose|i: int| 0 <= i < views(ways@).len() && views(ways@)[i].id == rw[p.0].id;
        assert(views(ways@)[i] == ways@[i]@);
        assert(coords.contains_key(rw[p.0].nodes[p.1]));
        assert(coords.contains_key(rw[p.0].nodes[p.2]));
    }
}

proof fn lemma_first_seen_contains(s: Seq<i64>)
    ensures
        forall|x: i64| #[trigger] first_seen(s).contains(x) <==> s.contains(x),
        first_seen(s).no_duplicates(),
    decreases s.len(),
{
    if s.len() > 0 {
        let rest = s.drop_last();
        lemma_first_seen_contains(rest);
        let r = first_seen(s);
        let rr = first_seen(rest);
        assert forall|x: i64| #[trigger] r.contains(x) <==> s.contains(x) by {
            if s.contains(x) {
                let i = choose|i: int| 0 <= i < s.len() && s[i] == x;
                if i < rest.len() {
                    assert(rest[i] == x);
                    assert(rest.contains(x));
                    assert(rr.contains(x));
                } else {
                    assert(x == s.last());
                }
                if rr.contains(x) {
                    let j = choose|j: int| 0 <= j < rr.len() && rr[j] == x;
                    assert(r[j] == x);
                } else {
                    assert(x == s.last());
                    assert(r[r.len() - 1] == x);
                }
            }
            if r.contains(x) {
                let j = choose|j: int| 0 <= j < r.len() && r[j] == x;
                if j < rr.len() {
                    assert(rr[j] == x);
                    assert(rr.contains(x));
                    assert(rest.contains(x));
                    let i = choose|i: int| 0 <= i < rest.len() && rest[i] == x;
                    assert(s[i] == x);
                } else {
                    assert(s[s.len() - 1] == x);
                }
            }
        }
    }
}

/// Some node has the compacted id `id`.
pub open spec fn id_taken(lookup: Map<i64, (usize, Coord)>, id: int) -> bool {
    exists|n: i64| #[trigger] lookup.contains_key(n) && lookup[n].0 == id
}

/// Compacted ids are dense: the ids are exactly `0 .. N`, each given to one
/// node, where `N` is the number of distinct edge endpoints, and the nodes
/// with an id are exactly the edge endpoints.
pub proof fn lemma_compacted_ids_dense(
    lookup: Map<i64, (usize, Coord)>,
    edges: Seq<Edge>,
    coords: Map<i64, Coord>,
)
    requires
        compacts(lookup, node_order(edges), coords),
        lookup.len() == node_order(edges).len(),
    ensures
        forall|n: i64| #[trigger] lookup.contains_key(n) <==> endpoints(edges).contains(n),
        lookup.len() == endpoints(edges).to_set().len(),
        forall|n: i64| #[trigger] lookup.contains_key(n) ==> lookup[n].0 < lookup.len(),
        forall|id: int| 0 <= id < lookup.len() ==> #[trigger] id_taken(lookup, id),
        forall|a: i64, b: i64|
            #[trigger] lookup.contains_key(a) && #[trigger] lookup.contains_key(b) && lookup[a].0 == lookup[b].0
                ==> a == b,
{
    let order = node_order(edges);
    lemma_first_seen_contains(endpoints(edges));
    assert forall|n: i64| #[trigger] lookup.contains_key(n) <==> endpoints(edges).contains(n) by {
        if lookup.contains_key(n) {
            assert(order[lookup[n].0 as int] == n);
            assert(order.contains(n));
        }
        if endpoints(edges).contains(n) {
            assert(order.contains(n));
            let k = choose|k: int| 0 <= k < order.len() && order[k] == n;
            assert(lookup.contains_key(order[k]));
        }
    }
    assert(lookup.dom() =~= endpoints(edges).to_set());
    assert forall|id: int| 0 <= id < lookup.len() implies #[trigger] id_taken(lookup, id) by {
        assert(lookup.contains_key(order[id]));
    }
}

proof fn lemma_cuts_split(ways: Seq<WayView>, w: int, j: int)
    requires
        0 <= w < ways.len(),
        0 <= j <= ways[w].nodes.len(),
    ensures
        is_split_point(ways, w, cuts(ways, w, j).1),
        forall|c: int| 0 <= c < cuts(ways, w, j).0.len() ==> {
            let p = #[trigger] cuts(ways, w, j).0[c];
            is_split_point(ways, w, p.0) && is_split_point(ways, w, p.1)
        },
        forall|i: int| 0 < i < j && is_split_point(ways, w, i) ==> exists|c: int| 0 <= c < cuts(ways, w, j).0.len()
            && (#[trigger] cuts(ways, w, j).0[c]).1 == i,
        cuts(ways, w, j).0.len() > 0 ==> cuts(ways, w, j).0[0].0 == 0,
        cuts(ways, w, j).0.len() == 0 ==> cuts(ways, w, j).1 == 0,
    decreases j,
{
    if j > 0 {
        lemma_cuts_split(ways, w, j - 1);
        let prev = cuts(ways, w, j - 1);
        let cur = cuts(ways, w, j);
        if j - 1 > 0 && is_split_point(ways, w, j - 1) {
            assert forall|c: int| 0 <= c < cur.0.len() implies {
                let p = #[trigger] cur.0[c];
                is_split_point(ways, w, p.0) && is_split_point(ways, w, p.1)
            } by {
                if c < prev.0.len() {
                    assert(cur.0[c] == prev.0[c]);
                }
            }
            assert forall|i: int| 0 < i < j && is_split_point(ways, w, i) implies exists|c: int| 0 <= c < cur.0.len()
                && (#[trigger] cur.0[c]).1 == i by {
                if i < j - 1 {
                    let c = choose|c: int| 0 <= c < prev.0.len() && (#[trigger] prev.0[c]).1 == i;
                    assert(cur.0[c] == prev.0[c]);
                } else {
                    assert(cur.0[cur.0.len() - 1].1 == i);
                }
            }
            if prev.0.len() > 0 {
                assert(cur.0[0] == prev.0[0]);
            }
        }
    }
}

/// Entry `p` stands at some position of `s`.
pub open spec fn plan_holds(s: Seq<(int, int, int)>, p: (int, int, int)) -> bool {
    exists|q: int| 0 <= q < s.len() && s[q] == p
}

proof fn lemma_plan_has_cuts(ways: Seq<WayView>, k: int)
    requires
        0 <= k <= ways.len(),
    ensures
        forall|q: int| 0 <= q < plan(ways, k).len() ==> plan_holds(
            way_plan(ways, (#[trigger] plan(ways, k)[q]).0),
            plan(ways, k)[q],
        ),
        forall|w: int, c: int| 0 <= w < k && 0 <= c < way_plan(ways, w).len() ==> plan_holds(
            plan(ways, k),
            #[trigger] way_plan(ways, w)[c],
        ),
    decreases k,
{
    if k > 0 {
        lemma_plan_has_cuts(ways, k - 1);
        let prev = plan(ways, k - 1);
        let mine = way_plan(ways, k - 1);
        let cur = plan(ways, k);
        assert(cur == prev + mine);
        assert forall|q: int| 0 <= q < cur.len() implies plan_holds(way_plan(ways, (#[trigger] cur[q]).0), cur[q]) by {
            if q < prev.len() {
                assert(cur[q] == prev[q]);
                assert(plan_holds(way_plan(ways, prev[q].0), prev[q]));
            } else {
                let c = q - prev.len();
                assert(cur[q] == mine[c]);
                assert(mine[c].0 == k - 1);
                assert(way_plan(ways, cur[q].0)[c] == cur[q]);
            }
        }
        assert forall|w: int, c: int| 0 <= w < k && 0 <= c < way_plan(ways, w).len() implies plan_holds(
            cur,
            #[trigger] way_plan(ways, w)[c],
        ) by {
            if w < k - 1 {
                assert(plan_holds(prev, way_plan(ways, w)[c]));
                let q = choose|q: int| 0 <= q < prev.len() && prev[q] == way_plan(ways, w)[c];
                assert(cur[q] == prev[q]);
            } else {
                assert(cur[prev.len() + c] == mine[c]);
            }
        }
    }
}

proof fn lemma_occurs(nodes: Seq<i64>, n: i64)
    requires
        occurrences(nodes, n) > 0,
    ensures
        exists|i: int| 0 <= i < nodes.len() && nodes[i] == n,
    decreases nodes.len(),
{
    if nodes.last() != n {
        lemma_occurs(nodes.drop_last(), n);
        let i = choose|i: int| 0 <= i < nodes.len() - 1 && nodes.drop_last()[i] == n;
        assert(nodes[i] == n);
    } else {
        assert(nodes[nodes.len() - 1] == n);
    }
}

proof fn lemma_referenced(ways: Seq<WayView>, n: i64)
    requires
        references(ways, n) > 0,
    ensures
        exists|w: int, i: int| 0 <= w < ways.len() && 0 <= i < ways[w].nodes.len() && #[trigger] ways[w].nodes[i] == n,
    decreases ways.len(),
{
    if occurrences(ways.last().nodes, n) > 0 {
        lemma_occurs(ways.last().nodes, n);
        let i = choose|i: int| 0 <= i < ways.last().nodes.len() && ways.last().nodes[i] == n;
        assert(ways[ways.len() - 1].nodes[i] == n);
    } else {
        lemma_referenced(ways.drop_last(), n);
        let (w, i) = choose|w: int, i: int| 0 <= w < ways.len() - 1 && 0 <= i < ways.drop_last()[w].nodes.len()
            && #[trigger] ways.drop_last()[w].nodes[i] == n;
        assert(ways[w] == ways.drop_last()[w]);
        assert(ways[w].nodes[i] == n);
    }
}

/// `n` is an end of one of the ways, or a node that the ways reference more
/// than once.
pub open spec fn split_node(ways: Seq<WayView>, n: i64) -> bool {
    ||| exists|w: int| 0 <= w < ways.len() && (#[trigger] ways[w]).nodes[0] == n
    ||| exists|w: int| 0 <= w < ways.len() && (#[trigger] ways[w]).nodes.last() == n
    ||| references(ways, n) > 1
}

/// `n` is the start or the end of one of the edges.
pub open spec fn edge_endpoint(edges: Seq<Edge>, n: i64) -> bool {
    exists|k: int| 0 <= k < edges.len() && ((#[trigger] edges[k]).start_node == n || edges[k].end_node == n)
}

proof fn lemma_cut_gives_edge(edges: Seq<Edge>, rw: Seq<WayView>, coords: Map<i64, Coord>, w: int, c: int)
    requires
        edges_follow_plan(edges, rw, coords),
        0 <= w < rw.len(),
        0 <= c < way_plan(rw, w).len(),
    ensures
        edge_endpoint(edges, rw[w].nodes[way_plan(rw, w)[c].1]),
        edge_endpoint(edges, rw[w].nodes[way_plan(rw, w)[c].2]),
{
    lemma_plan_has_cuts(rw, rw.len() as int);
    assert(plan_holds(full_plan(rw), way_plan(rw, w)[c]));
    let q = choose|q: int| 0 <= q < full_plan(rw).len() && full_plan(rw)[q] == way_plan(rw, w)[c];
    assert(edge_matches(edges[q], q, rw, coords, full_plan(rw)[q]));
}

/// Splitting yields edges of at least two points whose end nodes are
/// exactly the split nodes: the ends of the ways that take part, and the
/// nodes that those ways reference more than once.
pub proof fn lemma_edges_end_at_split_nodes(ways: Seq<Way>, coords: Map<i64, Coord>, edges: Seq<Edge>)
    requires
        edges_follow_plan(edges, resolved_ways(views(ways), coords), coords),
    ensures
        forall|k: int| 0 <= k < edges.len() ==> (#[trigger] edges[k]).linestring@.len() >= 2,
        forall|n: i64| #[trigger] edge_endpoint(edges, n) <==> split_node(resolved_ways(views(ways), coords), n),
{
    let rw = resolved_ways(views(ways), coords);
    lemma_resolved_ways_resolved(views(ways), coords);
    lemma_plan_valid(rw, rw.len() as int);
    lemma_plan_has_cuts(rw, rw.len() as int);
    assert forall|k: int| 0 <= k < edges.len() implies (#[trigger] edges[k]).linestring@.len() >= 2 by {
        let p = full_plan(rw)[k];
        assert(edge_matches(edges[k], k, rw, coords, p));
    }
    assert forall|n: i64| #[trigger] edge_endpoint(edges, n) implies split_node(rw, n) by {
        let k = choose|k: int| 0 <= k < edges.len() && ((#[trigger] edges[k]).start_node == n || edges[k].end_node == n);
        let p = full_plan(rw)[k];
        assert(edge_matches(edges[k], k, rw, coords, p));
        let w = p.0;
        assert(plan_holds(way_plan(rw, w), p));
        let c = choose|c: int| 0 <= c < way_plan(rw, w).len() && way_plan(rw, w)[c] == p;
        let len = rw[w].nodes.len() as int;
        lemma_cuts_split(rw, w, len);
        let cc = cuts(rw, w, len).0[c];
        assert(way_plan(rw, w)[c] == (w, cc.0, cc.1));
        let i = if edges[k].start_node == n { p.1 } else { p.2 };
        assert(rw[w].nodes[i] == n);
        assert(is_split_point(rw, w, i));
        if i == 0 {
            assert(rw[w].nodes[0] == n);
        } else if i == len - 1 {
            assert(rw[w].nodes.last() == n);
        }
    }
    assert forall|n: i64| split_node(rw, n) implies #[trigger] edge_endpoint(edges, n) by {
        let (w, i) = if exists|w: int| 0 <= w < rw.len() && (#[trigger] rw[w]).nodes[0] == n {
            let w = choose|w: int| 0 <= w < rw.len() && (#[trigger] rw[w]).nodes[0] == n;
            (w, 0int)
        } else if exists|w: int| 0 <= w < rw.len() && (#[trigger] rw[w]).nodes.last() == n {
            let w = choose|w: int| 0 <= w < rw.len() && (#[trigger] rw[w]).nodes.last() == n;
            (w, rw[w].nodes.len() - 1)
        } else {
            lemma_referenced(rw, n);
            choose|w: int, i: int| 0 <= w < rw.len() && 0 <= i < rw[w].nodes.len() && #[trigger] rw[w].nodes[i] == n
        };
        assert(rw[w].nodes.len() >= 2);
        let len = rw[w].nodes.len() as int;
        assert(rw[w].nodes[i] == n);
        assert(is_split_point(rw, w, i));
        lemma_cuts_split(rw, w, len);
        let cs = cuts(rw, w, len).0;
        assert(is_split_point(rw, w, len - 1));
        let c_last = choose|c: int| 0 <= c < cs.len() && (#[trigger] cs[c]).1 == len - 1;
        if i == 0 {
            assert(cs.len() > 0);
            assert(way_plan(rw, w)[0] == (w, cs[0].0, cs[0].1));
            lemma_cut_gives_edge(edges, rw, coords, w, 0);
        } else {
            let c = choose|c: int| 0 <= c < cs.len() && (#[trigger] cs[c]).1 == i;
            assert(way_plan(rw, w)[c] == (w, cs[c].0, cs[c].1));
            lemma_cut_gives_edge(edges, rw, coords, w, c);
        }
    }
}

/// Extracts the topology of the ways: the edges (see `split_ways_into_edges`)
/// and the compacted id and coordinate of every edge endpoint (see
/// `get_graph_nodes_lookup`).
pub fn process(node_mapping: &HashMap<i64, Coord>, ways: &Vec<Way>) -> (r: (HashMap<i64, (usize, Coord)>, Vec<Edge>))
    ensures
        edges_follow_plan(r.1@, resolved_ways(views(ways@), node_mapping@), node_mapping@),
        compacts(r.0@, node_order(r.1@), node_mapping@),
        r.0@.len() == node_order(r.1@).len(),
{
    let edges = split_ways_into_edges(node_mapping, ways);
    proof {
        lemma_edges_from_ways(ways, node_mapping@, edges@);
    }
    let graph_nodes_lookup = get_graph_nodes_lookup(node_mapping, &edges);
    (graph_nodes_lookup, edges)
}

} // verus!
