use vstd::prelude::*;
use crate::graph::GraphLink;
use crate::insertions::{appended, lemma_appended_push};

verus! {

/// The (departure, arrival) times of a route leg, in order.
pub struct Timetable(pub Vec<(usize, usize)>);

impl Timetable {
    /// An empty timetable.
    pub fn empty() -> (r: Timetable)
        ensures
            r.0@ == Seq::<(usize, usize)>::empty(),
    {
        Timetable(Vec::new())
    }

    /// A copy of this timetable.
    pub fn copied(&self) -> (r: Timetable)
        ensures
            r.0@ == self.0@,
    {
        let mut entries: Vec<(usize, usize)> = Vec::new();
        let mut k: usize = 0;
        while k < self.0.len()
            invariant
                0 <= k <= self.0.len(),
                entries@ == self.0@.take(k as int),
            decreases self.0.len() - k,
        {
            entries.push(self.0[k]);
            k += 1;
            assert(entries@ =~= self.0@.take(k as int));
        }
        assert(self.0@.take(k as int) =~= self.0@);
        Timetable(entries)
    }

    /// Puts the entries in reverse order; each entry keeps its departure and
    /// arrival as they are.
    pub fn reverse(&mut self)
        ensures
            final(self).0@ == old(self).0@.reverse(),
    {
        let n = self.0.len();
        let mut entries: Vec<(usize, usize)> = Vec::new();
        let mut k: usize = 0;
        while k < n
            invariant
                0 <= k <= n,
                n == self.0.len(),
                entries.len() == k,
                forall|j: int| 0 <= j < k ==> entries@[j] == self.0@[n - 1 - j],
            decreases n - k,
        {
            entries.push(self.0[n - 1 - k]);
            k += 1;
        }
        assert(entries@ =~= self.0@.reverse());
        self.0 = entries;
    }
}

/// Reversing the entries of a timetable twice gives back the timetable.
pub proof fn lemma_reverse_twice(entries: Seq<(usize, usize)>)
    ensures
        entries.reverse().reverse() == entries,
{
    assert(entries.reverse().reverse() =~= entries);
}

/// A route leg as read from the input: the index of its stop, the index of
/// the leg that follows it (if any), and its timetable (if any).
pub struct InputTimetable {
    pub pt_stop_node: usize,
    pub next_node: Option<usize>,
    pub timetable: Option<Timetable>,
}

/// A node of the overlay's walking layer: whether it is a route leg with a
/// successor, and its outgoing (time, target) pairs.
pub struct NodeWalk {
    pub has_pt: bool,
    pub edges: Vec<(usize, usize)>,
}

/// A node of the overlay's route layer: the overlay index of the next leg
/// (zero if none) and the leg's timetable.
pub struct NodeRoute {
    pub next_stop_node: usize,
    pub timetable: Timetable,
}

/// A node of the overlay's reverse route layer: the overlay index of the
/// previous leg (zero if none) and the reversed timetable.
pub struct ReverseNodeRoute {
    pub prev_stop_node: usize,
    pub timetable: Timetable,
}

/// The walking nodes nearest to a transit stop, each with its straight-line
/// distance in millimetres.
pub struct StopNeighbours {
    pub stop_id: usize,
    pub neighbours: Vec<(usize, u32)>,
}

/// Millimetres walked per second at the assumed pedestrian speed of
/// 1.33 metres per second.
pub const WALK_SPEED_MM_PER_S: u32 = 1330;

/// The walking time in whole seconds (rounded down) of a distance.
pub open spec fn walk_seconds(distance_mm: u32) -> usize {
    (distance_mm / 1330) as usize
}

/// A pending insertion: (node, entry appended to that node's edges).
pub type EdgeInsertion = (int, (usize, usize));

/// The insertions that link the stop node `s` with each of its neighbours,
/// both ways.
pub open spec fn neighbour_ops(s: int, neighbours: Seq<(usize, u32)>) -> Seq<EdgeInsertion>
    decreases neighbours.len(),
{
    if neighbours.len() == 0 {
        Seq::empty()
    } else {
        let (node, dist) = neighbours.last();
        let t = walk_seconds(dist);
        neighbour_ops(s, neighbours.drop_last()).push((s, (t, node))).push((node as int, (t, s as usize)))
    }
}

/// The insertions that all the stops make, in order.
pub open spec fn stop_ops(stops: Seq<StopNeighbours>, w: int) -> Seq<EdgeInsertion>
    decreases stops.len(),
{
    if stops.len() == 0 {
        Seq::empty()
    } else {
        stop_ops(stops.drop_last(), w) + neighbour_ops(w + stops.last().stop_id, stops.last().neighbours@)
    }
}

/// The insertions that link each stop to the route legs that leave from it.
pub open spec fn route_ops(tts: Seq<InputTimetable>, w: int, s: int) -> Seq<EdgeInsertion>
    decreases tts.len(),
{
    if tts.len() == 0 {
        Seq::empty()
    } else {
        route_ops(tts.drop_last(), w, s).push(
            (w + tts.last().pt_stop_node, (0usize, (w + s + tts.len() - 1) as usize)),
        )
    }
}

/// The stops are indexed densely and their neighbours are walking nodes.
pub open spec fn stops_valid(stops: Seq<StopNeighbours>, w: int) -> bool {
    forall|k: int| 0 <= k < stops.len() ==> {
        &&& (#[trigger] stops[k]).stop_id < stops.len()
        &&& forall|j: int| 0 <= j < stops[k].neighbours@.len() ==> (#[trigger] stops[k].neighbours@[j]).0 < w
    }
}

/// The (time, target) pairs of a walking-graph row.
pub open spec fn walk_pairs(row: Seq<GraphLink>) -> Seq<(usize, usize)> {
    row.map_values(|l: GraphLink| (l.0, l.1))
}

/// `layer` is `base` extended with empty rows up to `len`, each row then
/// extended by the insertions.
pub open spec fn extended(
    layer: Seq<NodeWalk>,
    base: Seq<NodeWalk>,
    len: int,
    ops: Seq<EdgeInsertion>,
) -> bool {
    &&& layer.len() == len
    &&& forall|u: int| 0 <= u < len ==> {
        &&& (#[trigger] layer[u]).has_pt == (u < base.len() && base[u].has_pt)
        &&& layer[u].edges@ == (if u < base.len() {
            base[u].edges@
        } else {
            Seq::empty()
        }) + appended(ops, u)
    }
}

/// Adds the transit stops to the walking layer: one empty node per stop
/// after the walking nodes, then, for each stop in turn and each of its
/// neighbours in turn, a link from the stop to the neighbour and one back,
/// both costing the walking time of their distance.
pub fn add_stops(
    pt_stops: &Vec<StopNeighbours>,
    pt_graph_walk: &mut Vec<NodeWalk>,
    walk_graph_length: usize,
)
    requires
        old(pt_graph_walk).len() == walk_graph_length,
        stops_valid(pt_stops@, walk_graph_length as int),
        walk_graph_length + pt_stops.len() <= usize::MAX,
    ensures
        extended(
            final(pt_graph_walk)@,
            old(pt_graph_walk)@,
            walk_graph_length + pt_stops.len(),
            stop_ops(pt_stops@, walk_graph_length as int),
        ),
{
    let ghost base = pt_graph_walk@;
    let w = walk_graph_length;
    let ghost wi = w as int;
    let mut k: usize = 0;
    while k < pt_stops.len()
        invariant
            0 <= k <= pt_stops.len(),
            base.len() == w,
            w + pt_stops.len() <= usize::MAX,
            extended(pt_graph_walk@, base, w + k, Seq::empty()),
        decreases pt_stops.len() - k,
    {
        pt_graph_walk.push(NodeWalk { has_pt: false, edges: Vec::new() });
        k += 1;
        proof {
            let layer = pt_graph_walk@;
            assert forall|u: int| 0 <= u < w + k implies {
                &&& (#[trigger] layer[u]).has_pt == (u < base.len() && base[u].has_pt)
                &&& layer[u].edges@ == (if u < base.len() {
                    base[u].edges@
                } else {
                    Seq::empty()
                }) + appended(Seq::empty(), u)
            } by {
                if u == w + k - 1 {
                    assert(layer[u].edges@ =~= Seq::<(usize, usize)>::empty() + Seq::<(usize, usize)>::empty());
                }
            }
        }
    }
    let total = w + pt_stops.len();
    let mut i: usize = 0;
    assert(pt_stops@.take(0) =~= Seq::<StopNeighbours>::empty());
    while i < pt_stops.len()
        invariant
            0 <= i <= pt_stops.len(),
            base.len() == w,
            wi == w,
            total == w + pt_stops.len(),
            stops_valid(pt_stops@, wi),
            extended(pt_graph_walk@, base, total as int, stop_ops(pt_stops@.take(i as int), wi)),
        decreases pt_stops.len() - i,
    {
        let stop = &pt_stops[i];
        let s = w + stop.stop_id;
        let ghost base_ops = stop_ops(pt_stops@.take(i as int), wi);
        assert(pt_stops@.take(i + 1).drop_last() =~= pt_stops@.take(i as int));
        assert(stops_valid(pt_stops@, wi) ==> stop.stop_id < pt_stops.len());
        let mut j: usize = 0;
        assert(stop.neighbours@.take(0) =~= Seq::<(usize, u32)>::empty());
        assert(base_ops + neighbour_ops(s as int, Seq::empty()) =~= base_ops);
        while j < stop.neighbours.len()
            invariant
                0 <= j <= stop.neighbours.len(),
                0 <= i < pt_stops.len(),
                stop == &pt_stops@[i as int],
                s == w + stop.stop_id,
                s < total,
                base.len() == w,
                wi == w,
                base_ops == stop_ops(pt_stops@.take(i as int), wi),
                total == w + pt_stops.len(),
                stops_valid(pt_stops@, wi),
                extended(
                    pt_graph_walk@,
                    base,
                    total as int,
                    base_ops + neighbour_ops(s as int, stop.neighbours@.take(j as int)),
                ),
            decreases stop.neighbours.len() - j,
        {
            let (node_id, distance_mm) = stop.neighbours[j];
            assert(node_id < w) by {
                let st = pt_stops@[i as int];
                assert(st.stop_id < pt_stops.len());
                assert(st.neighbours@[j as int].0 < w);
            }
            let traversal_time: usize = (distance_mm / WALK_SPEED_MM_PER_S) as usize;
            let ghost ops0 = base_ops + neighbour_ops(s as int, stop.neighbours@.take(j as int));
            let ghost op1: EdgeInsertion = (s as int, (traversal_time, node_id));
            let ghost op2: EdgeInsertion = (node_id as int, (traversal_time, s));
            let ghost before = pt_graph_walk@;
            pt_graph_walk[s].edges.push((traversal_time, node_id));
            let ghost mid = pt_graph_walk@;
            pt_graph_walk[node_id].edges.push((traversal_time, s));
            proof {
                assert(stop.neighbours@.take(j + 1).drop_last() =~= stop.neighbours@.take(j as int));
                let ops2 = base_ops + neighbour_ops(s as int, stop.neighbours@.take(j + 1));
                assert(ops2 =~= ops0.push(op1).push(op2));
                let layer = pt_graph_walk@;
                assert forall|u: int| 0 <= u < total implies {
                    &&& (#[trigger] layer[u]).has_pt == (u < base.len() && base[u].has_pt)
                    &&& layer[u].edges@ == (if u < base.len() {
                        base[u].edges@
                    } else {
                        Seq::empty()
                    }) + appended(ops2, u)
                } by {
                    lemma_appended_push(ops0, op1, u);
                    lemma_appended_push(ops0.push(op1), op2, u);
                    if u != s && u != node_id {
                        assert(layer[u] == before[u]);
                    }
                    if u == s && u != node_id {
                        assert(layer[u] == mid[u]);
                    }
                    if u != s {
                        assert(mid[u] == before[u]);
                    }
                    let init: Seq<(usize, usize)> = if u < base.len() {
                        base[u].edges@
                    } else {
                        Seq::empty()
                    };
                    assert(init + appended(ops0, u).push(op1.1) =~= (init + appended(ops0, u)).push(op1.1));
                    assert(init + appended(ops0, u).push(op2.1) =~= (init + appended(ops0, u)).push(op2.1));
                    assert(init + appended(ops0, u).push(op1.1).push(op2.1) =~= (init + appended(ops0, u)).push(op1.1).push(op2.1));
                }
            }
            j += 1;
        }
        proof {
            assert(stop.neighbours@.take(j as int) =~= stop.neighbours@);
            assert(pt_stops@.take(i + 1).last() == pt_stops@[i as int]);
            assert(stop_ops(pt_stops@.take(i + 1), wi) == base_ops + neighbour_ops(s as int, stop.neighbours@));
        }
        i += 1;
    }
    assert(pt_stops@.take(i as int) =~= pt_stops@);
}

/// The (next leg, timetable) view of a route node.
pub open spec fn route_view(r: NodeRoute) -> (usize, Seq<(usize, usize)>) {
    (r.next_stop_node, r.timetable.0@)
}

/// The (previous leg, timetable) view of a reverse route node.
pub open spec fn reverse_view(r: ReverseNodeRoute) -> (usize, Seq<(usize, usize)>) {
    (r.prev_stop_node, r.timetable.0@)
}

/// The reverse route layer after the first `k` route nodes are seen: each
/// node with a successor gives that successor itself as previous leg and its
/// timetable in reverse order; a later node overrides an earlier one.
pub open spec fn reversed_routes(routes: Seq<NodeRoute>, k: int) -> Seq<(usize, Seq<(usize, usize)>)>
    decreases k,
{
    if k <= 0 {
        Seq::new(routes.len(), |j: int| (0usize, Seq::<(usize, usize)>::empty()))
    } else {
        let prev = reversed_routes(routes, k - 1);
        let r = routes[k - 1];
        if r.next_stop_node != 0 {
            prev.update(r.next_stop_node as int, ((k - 1) as usize, r.timetable.0@.reverse()))
        } else {
            prev
        }
    }
}

proof fn lemma_reversed_routes_len(routes: Seq<NodeRoute>, k: int)
    requires
        k <= routes.len(),
        forall|q: int| 0 <= q < routes.len() ==> (#[trigger] routes[q]).next_stop_node < routes.len(),
    ensures
        reversed_routes(routes, k).len() == routes.len(),
    decreases k,
{
    if k > 0 {
        lemma_reversed_routes_len(routes, k - 1);
    }
}

/// Derives the reverse route layer from the route layer.
pub fn reverse_graph_routes(pt_graph_routes: &Vec<NodeRoute>) -> (r: Vec<ReverseNodeRoute>)
    requires
        forall|i: int| 0 <= i < pt_graph_routes.len() ==> (#[trigger] pt_graph_routes@[i]).next_stop_node
            < pt_graph_routes.len(),
    ensures
        r.len() == pt_graph_routes.len(),
        forall|j: int| 0 <= j < r.len() ==> reverse_view(#[trigger] r@[j]) == reversed_routes(
            pt_graph_routes@,
            pt_graph_routes.len() as int,
        )[j],
{
    let n = pt_graph_routes.len();
    let mut reverse: Vec<ReverseNodeRoute> = Vec::new();
    let mut k: usize = 0;
    while k < n
        invariant
            0 <= k <= n,
            n == pt_graph_routes.len(),
            reverse.len() == k,
            forall|j: int| 0 <= j < k ==> reverse_view(#[trigger] reverse@[j]) == (0usize, Seq::<(usize, usize)>::empty()),
        decreases n - k,
    {
        reverse.push(ReverseNodeRoute { prev_stop_node: 0, timetable: Timetable::empty() });
        k += 1;
    }
    let mut i: usize = 0;
    while i < n
        invariant
            0 <= i <= n,
            n == pt_graph_routes.len(),
            reverse.len() == n,
            forall|q: int| 0 <= q < n ==> (#[trigger] pt_graph_routes@[q]).next_stop_node < n,
            forall|j: int| 0 <= j < n ==> reverse_view(#[trigger] reverse@[j]) == reversed_routes(pt_graph_routes@, i as int)[j],
        decreases n - i,
    {
        proof {
            lemma_reversed_routes_len(pt_graph_routes@, i as int);
        }
        let node_route = &pt_graph_routes[i];
        if node_route.next_stop_node != 0 {
            let mut reversed_timetable = node_route.timetable.copied();
            reversed_timetable.reverse();
            let next = node_route.next_stop_node;
            assert(next < n);
            let ghost before = reverse@;
            reverse.set(next, ReverseNodeRoute { prev_stop_node: i, timetable: reversed_timetable });
            proof {
                assert forall|j: int| 0 <= j < n implies reverse_view(#[trigger] reverse@[j]) == reversed_routes(pt_graph_routes@, i + 1)[j] by {
                    if j != next {
                        assert(reverse@[j] == before[j]);
                    }
                }
            }
        }
        i += 1;
    }
    reverse
}

/// The overlay index of the leg that follows `tt`, or zero if none does.
pub open spec fn next_index(tt: InputTimetable, legs_start: int) -> usize {
    match tt.next_node {
        Some(n) => (legs_start + n) as usize,
        None => 0,
    }
}

/// The entries of a leg's timetable; none if it has no timetable.
pub open spec fn leg_entries(tt: InputTimetable) -> Seq<(usize, usize)> {
    match tt.timetable {
        Some(t) => t.0@,
        None => Seq::empty(),
    }
}

/// The legs refer to existing stops and legs.
pub open spec fn legs_valid(tts: Seq<InputTimetable>, stop_count: int) -> bool {
    forall|i: int| 0 <= i < tts.len() ==> {
        &&& (#[trigger] tts[i]).pt_stop_node < stop_count
        &&& match tts[i].next_node {
            Some(n) => n < tts.len(),
            None => true,
        }
    }
}

/// The walking layer of the overlay: walking nodes keep their (time, target)
/// pairs, stop nodes start empty, and both receive the insertions; leg `i`
/// is node `w + s + i`, linked to its stop at no cost.
pub open spec fn overlay_walk_layer(
    layer: Seq<NodeWalk>,
    walk_graph: Seq<Vec<GraphLink>>,
    w: int,
    s: int,
    tts: Seq<InputTimetable>,
    ops: Seq<EdgeInsertion>,
) -> bool {
    &&& layer.len() == w + s + tts.len()
    &&& forall|u: int| 0 <= u < w + s ==> {
        &&& !(#[trigger] layer[u]).has_pt
        &&& layer[u].edges@ == (if u < w {
            walk_pairs(walk_graph[u]@)
        } else {
            Seq::empty()
        }) + appended(ops, u)
    }
    &&& forall|i: int| 0 <= i < tts.len() ==> {
        &&& (#[trigger] layer[w + s + i]).has_pt == tts[i].next_node is Some
        &&& layer[w + s + i].edges@ == seq![(0usize, (w + tts[i].pt_stop_node) as usize)]
    }
}

/// The route layer of the overlay: empty for walking and stop nodes, and for
/// leg `i` the overlay index of its successor and its timetable.
pub open spec fn overlay_route_layer(routes: Seq<NodeRoute>, w: int, s: int, tts: Seq<InputTimetable>) -> bool {
    &&& routes.len() == w + s + tts.len()
    &&& forall|u: int| 0 <= u < w + s ==> route_view(#[trigger] routes[u]) == (0usize, Seq::<(usize, usize)>::empty())
    &&& forall|i: int| 0 <= i < tts.len() ==> route_view(#[trigger] routes[w + s + i]) == (next_index(tts[i], w + s), leg_entries(tts[i]))
}

/// Builds the transit overlay on the walking graph: the walking layer (see
/// `overlay_walk_layer`), the route layer and the reverse route layer, all of
/// length `w + s + r` for `w` walking nodes, `s` stops and `r` legs. Stops are
/// linked both ways with their nearest walking nodes (see `add_stops`), then
/// each leg with its stop.
pub fn process(
    walk_graph: &Vec<Vec<GraphLink>>,
    pt_stops: &Vec<StopNeighbours>,
    timetables: &Vec<InputTimetable>,
) -> (r: (Vec<NodeWalk>, Vec<NodeRoute>, Vec<ReverseNodeRoute>))
    requires
        stops_valid(pt_stops@, walk_graph.len() as int),
        legs_valid(timetables@, pt_stops.len() as int),
        walk_graph.len() + pt_stops.len() + timetables.len() <= usize::MAX,
    ensures
        overlay_walk_layer(
            r.0@,
            walk_graph@,
            walk_graph.len() as int,
            pt_stops.len() as int,
            timetables@,
            stop_ops(pt_stops@, walk_graph.len() as int) + route_ops(timetables@, walk_graph.len() as int, pt_stops.len() as int),
        ),
        overlay_route_layer(r.1@, walk_graph.len() as int, pt_stops.len() as int, timetables@),
        r.0.len() == walk_graph.len() + pt_stops.len() + timetables.len(),
        r.1.len() == walk_graph.len() + pt_stops.len() + timetables.len(),
        r.2.len() == walk_graph.len() + pt_stops.len() + timetables.len(),
        forall|j: int| 0 <= j < r.2.len() ==> reverse_view(#[trigger] r.2@[j]) == reversed_routes(r.1@, r.1.len() as int)[j],
{
    let w = walk_graph.len();
    let ghost wi = w as int;
    let ghost si = pt_stops.len() as int;
    let mut pt_graph_walk: Vec<NodeWalk> = Vec::new();
    let mut u: usize = 0;
    while u < w
        invariant
            0 <= u <= w,
            w == walk_graph.len(),
            pt_graph_walk.len() == u,
            forall|v: int| 0 <= v < u ==> !(#[trigger] pt_graph_walk@[v]).has_pt && pt_graph_walk@[v].edges@
                == walk_pairs(walk_graph@[v]@),
        decreases w - u,
    {
        let row = &walk_graph[u];
        let mut edges: Vec<(usize, usize)> = Vec::new();
        let mut k: usize = 0;
        while k < row.len()
            invariant
                0 <= k <= row.len(),
                row == &walk_graph@[u as int],
                edges@ == walk_pairs(row@.take(k as int)),
            decreases row.len() - k,
        {
            let (traversal_time, to, _, _, _) = row[k];
            edges.push((traversal_time, to));
            k += 1;
            assert(edges@ =~= walk_pairs(row@.take(k as int)));
        }
        assert(row@.take(k as int) =~= row@);
        pt_graph_walk.push(NodeWalk { has_pt: false, edges });
        u += 1;
    }
    let ghost converted = pt_graph_walk@;
    add_stops(pt_stops, &mut pt_graph_walk, w);
    let length_before_routes = pt_graph_walk.len();
    let mut pt_graph_routes: Vec<NodeRoute> = Vec::new();
    let mut q: usize = 0;
    while q < length_before_routes
        invariant
            0 <= q <= length_before_routes,
            pt_graph_routes.len() == q,
            forall|v: int| 0 <= v < q ==> route_view(#[trigger] pt_graph_routes@[v]) == (0usize, Seq::<(usize, usize)>::empty()),
        decreases length_before_routes - q,
    {
        pt_graph_routes.push(NodeRoute { next_stop_node: 0, timetable: Timetable::empty() });
        q += 1;
    }
    let ghost sops = stop_ops(pt_stops@, wi);
    proof {
        assert(sops + route_ops(timetables@.take(0), wi, si) =~= sops);
        assert(timetables@.take(0) =~= Seq::<InputTimetable>::empty());
        let layer = pt_graph_walk@;
        assert forall|v: int| 0 <= v < wi + si implies {
            &&& !(#[trigger] layer[v]).has_pt
            &&& layer[v].edges@ == (if v < wi {
                walk_pairs(walk_graph@[v]@)
            } else {
                Seq::empty()
            }) + appended(sops, v)
        } by {
            if v < wi {
                assert(converted[v].edges@ == walk_pairs(walk_graph@[v]@));
            }
        }
    }
    let mut i: usize = 0;
    while i < timetables.len()
        invariant
            0 <= i <= timetables.len(),
            w == walk_graph.len(),
            wi == w,
            si == pt_stops.len(),
            length_before_routes == w + pt_stops.len(),
            w + pt_stops.len() + timetables.len() <= usize::MAX,
            legs_valid(timetables@, si),
            sops == stop_ops(pt_stops@, wi),
            overlay_walk_layer(
                pt_graph_walk@,
                walk_graph@,
                wi,
                si,
                timetables@.take(i as int),
                sops + route_ops(timetables@.take(i as int), wi, si),
            ),
            overlay_route_layer(pt_graph_routes@, wi, si, timetables@.take(i as int)),
        decreases timetables.len() - i,
    {
        let input_timetable = &timetables[i];
        assert(timetables@[i as int] == *input_timetable);
        let pt_stop_node = w + input_timetable.pt_stop_node;
        let has_pt = input_timetable.next_node.is_some();
        let next_stop_node = match input_timetable.next_node {
            Some(n) => length_before_routes + n,
            None => 0,
        };
        let ghost prev_walk = pt_graph_walk@;
        let ghost prev_ops = sops + route_ops(timetables@.take(i as int), wi, si);
        pt_graph_walk.push(NodeWalk { has_pt, edges: vec![(0, pt_stop_node)] });
        let ghost mid_walk = pt_graph_walk@;
        pt_graph_walk[pt_stop_node].edges.push((0, length_before_routes + i));
        let timetable = match &input_timetable.timetable {
            Some(t) => t.copied(),
            None => Timetable::empty(),
        };
        let ghost prev_routes = pt_graph_routes@;
        pt_graph_routes.push(NodeRoute { next_stop_node, timetable });
        proof {
            let next_tts = timetables@.take(i + 1);
            assert(next_tts.drop_last() =~= timetables@.take(i as int));
            assert(next_tts.last() == timetables@[i as int]);
            let op: EdgeInsertion = (pt_stop_node as int, (0usize, (length_before_routes + i) as usize));
            assert(route_ops(next_tts, wi, si) == route_ops(timetables@.take(i as int), wi, si).push(op));
            let new_ops = sops + route_ops(next_tts, wi, si);
            assert(new_ops =~= prev_ops.push(op));
            let layer = pt_graph_walk@;
            assert forall|v: int| 0 <= v < wi + si implies {
                &&& !(#[trigger] layer[v]).has_pt
                &&& layer[v].edges@ == (if v < wi {
                    walk_pairs(walk_graph@[v]@)
                } else {
                    Seq::empty()
                }) + appended(new_ops, v)
            } by {
                lemma_appended_push(prev_ops, op, v);
                assert(mid_walk[v] == prev_walk[v]);
                if v != pt_stop_node {
                    assert(layer[v] == mid_walk[v]);
                } else {
                    let init: Seq<(usize, usize)> = if v < wi {
                        walk_pairs(walk_graph@[v]@)
                    } else {
                        Seq::empty()
                    };
                    assert(init + appended(prev_ops, v).push(op.1) =~= (init + appended(prev_ops, v)).push(op.1));
                }
            }
            assert forall|j: int| 0 <= j < next_tts.len() implies {
                &&& (#[trigger] layer[wi + si + j]).has_pt == next_tts[j].next_node is Some
                &&& layer[wi + si + j].edges@ == seq![(0usize, (wi + next_tts[j].pt_stop_node) as usize)]
            } by {
                assert(layer[wi + si + j] == mid_walk[wi + si + j]);
                if j < i {
                    assert(mid_walk[wi + si + j] == prev_walk[wi + si + j]);
                    assert(next_tts[j] == timetables@.take(i as int)[j]);
                }
            }
            let routes = pt_graph_routes@;
            assert forall|v: int| 0 <= v < wi + si implies route_view(#[trigger] routes[v]) == (0usize, Seq::<(usize, usize)>::empty()) by {
                assert(routes[v] == prev_routes[v]);
            }
            assert forall|j: int| 0 <= j < next_tts.len() implies route_view(#[trigger] routes[wi + si + j]) == (next_index(next_tts[j], wi + si), leg_entries(next_tts[j])) by {
                if j < i {
                    assert(routes[wi + si + j] == prev_routes[wi + si + j]);
                    assert(next_tts[j] == timetables@.take(i as int)[j]);
                }
            }
        }
        i += 1;
    }
    assert(timetables@.take(i as int) =~= timetables@);
    proof {
        let routes = pt_graph_routes@;
        assert forall|q: int| 0 <= q < routes.len() implies (#[trigger] routes[q]).next_stop_node < routes.len() by {
            if q >= wi + si {
                let j = q - wi - si;
                assert(route_view(routes[wi + si + j]) == (next_index(timetables@[j], wi + si), leg_entries(timetables@[j])));
                assert(legs_valid(timetables@, si));
                assert(timetables@[j].pt_stop_node < si);
            } else {
                assert(route_view(routes[q]) == (0usize, Seq::<(usize, usize)>::empty()));
            }
        }
    }
    let pt_graph_routes_reverse = reverse_graph_routes(&pt_graph_routes);
    (pt_graph_walk, pt_graph_routes, pt_graph_routes_reverse)
}

} // verus!
