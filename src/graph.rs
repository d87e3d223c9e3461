use vstd::prelude::*;
use std::collections::HashMap;
use crate::angles::Angles;
use crate::coord::Coord;
use crate::topology::Edge;
use vstd::std_specs::hash::spec_hash_map_iter;
use vstd::std_specs::iter::IteratorSpec;

verus! {

broadcast use vstd::std_specs::hash::group_hash_axioms;

/// A candidate link: (start node, end node, traversal time, departure angle,
/// arrival angle), with nodes given by compacted id.
pub type CandidateLink = (usize, usize, usize, u16, u16);

/// An entry of the adjacency list of a node: (traversal time, target node,
/// departure angle, arrival angle, link id).
pub type GraphLink = (usize, usize, u16, u16, u32);

/// The lexicographic order on candidate links.
pub open spec fn link_le(a: CandidateLink, b: CandidateLink) -> bool {
    a.0 < b.0 || (a.0 == b.0 && (a.1 < b.1 || (a.1 == b.1 && (a.2 < b.2 || (a.2 == b.2 && (a.3
        < b.3 || (a.3 == b.3 && a.4 <= b.4)))))))
}

/// The links are in ascending lexicographic order.
pub open spec fn links_sorted(links: Seq<CandidateLink>) -> bool {
    forall|i: int, j: int| 0 <= i < j < links.len() ==> link_le(#[trigger] links[i], #[trigger] links[j])
}

/// Relies on `slice::sort`: it permutes the elements into ascending order,
/// and tuples of integers are ordered lexicographically.
#[verifier::external_body]
fn sort_links(links: &mut Vec<CandidateLink>)
    ensures
        final(links)@.to_multiset() == old(links)@.to_multiset(),
        links_sorted(final(links)@),
{
    links.sort();
}

/// The adjacency-list entries that the node `u` receives when the links are
/// grouped in order, link `k` getting id `k`.
pub open spec fn row_of(links: Seq<CandidateLink>, u: int) -> Seq<GraphLink>
    decreases links.len(),
{
    if links.len() == 0 {
        Seq::empty()
    } else {
        let rest = row_of(links.drop_last(), u);
        let l = links.last();
        if l.0 == u {
            rest.push((l.2, l.1, l.3, l.4, (links.len() - 1) as u32))
        } else {
            rest
        }
    }
}

/// One more than the largest start node of the links, or zero.
pub open spec fn row_count(links: Seq<CandidateLink>) -> int
    decreases links.len(),
{
    if links.len() == 0 {
        0
    } else {
        let r = row_count(links.drop_last());
        if links.last().0 + 1 > r {
            links.last().0 + 1
        } else {
            r
        }
    }
}

proof fn lemma_row_of_beyond(links: Seq<CandidateLink>, u: int)
    requires
        u >= row_count(links),
    ensures
        row_of(links, u) == Seq::<GraphLink>::empty(),
    decreases links.len(),
{
    if links.len() > 0 {
        lemma_row_of_beyond(links.drop_last(), u);
    }
}

/// Groups links by start node into an adjacency list, giving the links ids
/// from zero in their order; the list has a row for every node up to the
/// largest start node.
pub fn group_links_into_graph(all_links: &Vec<CandidateLink>) -> (graph: Vec<Vec<GraphLink>>)
    requires
        all_links.len() <= u32::MAX,
    ensures
        graph.len() == row_count(all_links@),
        forall|u: int| 0 <= u < graph.len() ==> (#[trigger] graph@[u])@ == row_of(all_links@, u),
{
    let mut link_id: u32 = 0;
    let mut graph: Vec<Vec<GraphLink>> = Vec::new();
    let mut k: usize = 0;
    assert(all_links@.take(0) =~= Seq::<CandidateLink>::empty());
    while k < all_links.len()
        invariant
            0 <= k <= all_links.len(),
            all_links.len() <= u32::MAX,
            link_id == k,
            graph.len() == row_count(all_links@.take(k as int)),
            forall|u: int| 0 <= u < graph.len() ==> (#[trigger] graph@[u])@ == row_of(all_links@.take(k as int), u),
        decreases all_links.len() - k,
    {
        let (start_node, end_node, traversal_time, departure_angle, arrival_angle) = all_links[k];
        let ghost prefix = all_links@.take(k as int);
        let ghost next = all_links@.take(k + 1);
        assert(next.drop_last() =~= prefix);
        while graph.len() <= start_node
            invariant
                graph.len() == row_count(prefix) || row_count(prefix) < graph.len() <= start_node + 1,
                forall|u: int| 0 <= u < graph.len() ==> (#[trigger] graph@[u])@ == row_of(prefix, u),
            decreases start_node + 1 - graph.len(),
        {
            proof {
                lemma_row_of_beyond(prefix, graph.len() as int);
            }
            graph.push(Vec::new());
        }
        let ghost before = graph@;
        graph[start_node].push((traversal_time, end_node, departure_angle, arrival_angle, link_id));
        proof {
            assert forall|u: int| 0 <= u < graph.len() implies (#[trigger] graph@[u])@ == row_of(next, u) by {
                if u != start_node {
                    assert(graph@[u] == before[u]);
                }
            }
        }
        link_id = link_id + 1;
        k += 1;
    }
    assert(all_links@.take(k as int) =~= all_links@);
    graph
}

/// The candidate links of one edge: the forward link if the edge may be
/// traversed forward, then the backward link if it may be traversed backward.
pub open spec fn edge_candidates(
    e: Edge,
    lookup: Map<i64, (usize, Coord)>,
    times: Map<usize, (usize, usize)>,
    angles: Map<usize, Angles>,
) -> Seq<CandidateLink> {
    let s = lookup[e.start_node].0;
    let t = lookup[e.end_node].0;
    let tt = times[e.id];
    let a = angles[e.id];
    (if e.forward {
        seq![(s, t, tt.0, a.forward_departure, a.forward_arrival)]
    } else {
        Seq::empty()
    }) + (if e.backward {
        seq![(t, s, tt.1, a.backward_departure, a.backward_arrival)]
    } else {
        Seq::empty()
    })
}

/// The candidate links of all the edges, in edge order.
pub open spec fn candidate_links(
    edges: Seq<Edge>,
    lookup: Map<i64, (usize, Coord)>,
    times: Map<usize, (usize, usize)>,
    angles: Map<usize, Angles>,
) -> Seq<CandidateLink>
    decreases edges.len(),
{
    if edges.len() == 0 {
        Seq::empty()
    } else {
        candidate_links(edges.drop_last(), lookup, times, angles) + edge_candidates(
            edges.last(),
            lookup,
            times,
            angles,
        )
    }
}

/// Every edge has compacted end nodes, a traversal time and angles.
pub open spec fn edges_annotated(
    edges: Seq<Edge>,
    lookup: Map<i64, (usize, Coord)>,
    times: Map<usize, (usize, usize)>,
    angles: Map<usize, Angles>,
) -> bool {
    forall|k: int| 0 <= k < edges.len() ==> {
        &&& lookup.contains_key(#[trigger] edges[k].start_node)
        &&& lookup.contains_key(edges[k].end_node)
        &&& times.contains_key(edges[k].id)
        &&& angles.contains_key(edges[k].id)
    }
}

proof fn lemma_candidate_links_len(
    edges: Seq<Edge>,
    lookup: Map<i64, (usize, Coord)>,
    times: Map<usize, (usize, usize)>,
    angles: Map<usize, Angles>,
)
    ensures
        candidate_links(edges, lookup, times, angles).len() <= 2 * edges.len(),
    decreases edges.len(),
{
    if edges.len() > 0 {
        lemma_candidate_links_len(edges.drop_last(), lookup, times, angles);
    }
}

/// Collects the candidate links of the edges.
fn collect_links(
    graph_nodes_lookup: &HashMap<i64, (usize, Coord)>,
    traversal_times: &HashMap<usize, (usize, usize)>,
    angles: &HashMap<usize, Angles>,
    edges: &Vec<Edge>,
) -> (links: Vec<CandidateLink>)
    requires
        edges_annotated(edges@, graph_nodes_lookup@, traversal_times@, angles@),
    ensures
        links@ == candidate_links(edges@, graph_nodes_lookup@, traversal_times@, angles@),
{
    let mut links: Vec<CandidateLink> = Vec::new();
    let mut i: usize = 0;
    assert(edges@.take(0) =~= Seq::<Edge>::empty());
    while i < edges.len()
        invariant
            0 <= i <= edges.len(),
            edges_annotated(edges@, graph_nodes_lookup@, traversal_times@, angles@),
            links@ == candidate_links(edges@.take(i as int), graph_nodes_lookup@, traversal_times@, angles@),
        decreases edges.len() - i,
    {
        let edge = &edges[i];
        assert(edges@.take(i + 1).drop_last() =~= edges@.take(i as int));
        assert(graph_nodes_lookup@.contains_key(edges@[i as int].start_node));
        let start = match graph_nodes_lookup.get(&edge.start_node) {
            Some(v) => v.0,
            None => 0,
        };
        let end = match graph_nodes_lookup.get(&edge.end_node) {
            Some(v) => v.0,
            None => 0,
        };
        let times = match traversal_times.get(&edge.id) {
            Some(v) => *v,
            None => (1, 1),
        };
        let a = match angles.get(&edge.id) {
            Some(v) => *v,
            None => Angles { forward_arrival: 0, forward_departure: 0, backward_arrival: 0, backward_departure: 0 },
        };
        let ghost before = links@;
        if edge.forward {
            links.push((start, end, times.0, a.forward_departure, a.forward_arrival));
        }
        if edge.backward {
            links.push((end, start, times.1, a.backward_departure, a.backward_arrival));
        }
        assert(links@ =~= before + edge_candidates(*edge, graph_nodes_lookup@, traversal_times@, angles@));
        i += 1;
    }
    assert(edges@.take(i as int) =~= edges@);
    links
}

/// Gives each compacted id the coordinate of its node.
pub fn convert_graph_nodes_lookup_to_nodes(graph_nodes_lookup: &HashMap<i64, (usize, Coord)>) -> (nodes:
    HashMap<usize, Coord>)
    requires
        forall|a: i64, b: i64|
            #[trigger] graph_nodes_lookup@.contains_key(a) && #[trigger] graph_nodes_lookup@.contains_key(b)
                && graph_nodes_lookup@[a].0 == graph_nodes_lookup@[b].0 ==> a == b,
    ensures
        forall|n: i64| #[trigger] graph_nodes_lookup@.contains_key(n) ==> {
            &&& nodes@.contains_key(graph_nodes_lookup@[n].0)
            &&& nodes@[graph_nodes_lookup@[n].0] == graph_nodes_lookup@[n].1
        },
        forall|id: usize| #[trigger] nodes@.contains_key(id) ==> exists|n: i64| #[trigger] graph_nodes_lookup@.contains_key(n)
            && graph_nodes_lookup@[n].0 == id,
{
    let mut nodes: HashMap<usize, Coord> = HashMap::new();
    for entry in it: graph_nodes_lookup.iter()
        invariant
            forall|a: i64, b: i64|
                #[trigger] graph_nodes_lookup@.contains_key(a) && #[trigger] graph_nodes_lookup@.contains_key(b)
                    && graph_nodes_lookup@[a].0 == graph_nodes_lookup@[b].0 ==> a == b,
            it.seq() == spec_hash_map_iter(graph_nodes_lookup).remaining(),
            it.seq().no_duplicates(),
            forall|j: int| 0 <= j < it.index() ==> {
                &&& nodes@.contains_key((*it.seq()[j].1).0)
                &&& nodes@[(*it.seq()[j].1).0] == (*it.seq()[j].1).1
            },
            forall|id: usize| #[trigger] nodes@.contains_key(id) ==> exists|n: i64| #[trigger] graph_nodes_lookup@.contains_key(n)
                && graph_nodes_lookup@[n].0 == id,
    {
        let ghost j0 = it.index();
        let ghost seq = it.seq();
        let (key, (id, coord)) = entry;
        proof {
            assert(entry == seq[j0]);
            assert(graph_nodes_lookup@.contains_key(*seq[j0].0));
            assert(seq.no_duplicates());
        }
        let ghost before = nodes@;
        nodes.insert(*id, *coord);
        proof {
            assert forall|j: int| 0 <= j < j0 + 1 implies {
                &&& nodes@.contains_key((*seq[j].1).0)
                &&& nodes@[(*seq[j].1).0] == (*seq[j].1).1
            } by {
                if j < j0 {
                    assert(graph_nodes_lookup@.contains_key(*seq[j].0));
                    if (*seq[j].1).0 == *id {
                        assert(*seq[j].0 == *key);
                        assert(seq[j] == seq[j0]);
                    }
                }
            }
            assert forall|i: usize| #[trigger] nodes@.contains_key(i) implies exists|n: i64| #[trigger] graph_nodes_lookup@.contains_key(n)
                && graph_nodes_lookup@[n].0 == i by {
                if i == *id {
                    assert(graph_nodes_lookup@.contains_key(*key) && graph_nodes_lookup@[*key].0 == i);
                } else {
                    assert(before.contains_key(i));
                }
            }
        }
    }
    nodes
}

/// The adjacency list of `links` once sorted, with at least `min_rows` rows.
pub open spec fn graph_of(graph: Seq<Vec<GraphLink>>, links: Seq<CandidateLink>, min_rows: int) -> bool {
    &&& graph.len() == if row_count(links) > min_rows {
        row_count(links)
    } else {
        min_rows
    }
    &&& forall|u: int| 0 <= u < graph.len() ==> (#[trigger] graph[u])@ == row_of(links, u)
}

/// Assembles the directed graph: each edge gives a forward link if it may be
/// traversed forward and a backward link if it may be traversed backward; the
/// links are sorted, then grouped by start node with link ids counting up in
/// sorted order. The graph has a row for every compacted node. Also returns
/// the coordinate of each compacted node.
pub fn process(
    graph_nodes_lookup: &HashMap<i64, (usize, Coord)>,
    traversal_times: &HashMap<usize, (usize, usize)>,
    angles: &HashMap<usize, Angles>,
    edges: &Vec<Edge>,
) -> (r: (Vec<Vec<GraphLink>>, HashMap<usize, Coord>))
    requires
        edges_annotated(edges@, graph_nodes_lookup@, traversal_times@, angles@),
        edges.len() <= u32::MAX / 2,
        forall|a: i64, b: i64|
            #[trigger] graph_nodes_lookup@.contains_key(a) && #[trigger] graph_nodes_lookup@.contains_key(b)
                && graph_nodes_lookup@[a].0 == graph_nodes_lookup@[b].0 ==> a == b,
    ensures
        exists|links: Seq<CandidateLink>| {
            &&& links.to_multiset() == candidate_links(edges@, graph_nodes_lookup@, traversal_times@, angles@).to_multiset()
            &&& links_sorted(links)
            &&& graph_of(r.0@, links, graph_nodes_lookup@.len() as int)
        },
        forall|n: i64| #[trigger] graph_nodes_lookup@.contains_key(n) ==> {
            &&& r.1@.contains_key(graph_nodes_lookup@[n].0)
            &&& r.1@[graph_nodes_lookup@[n].0] == graph_nodes_lookup@[n].1
        },
        forall|id: usize| #[trigger] r.1@.contains_key(id) ==> exists|n: i64| #[trigger] graph_nodes_lookup@.contains_key(n)
            && graph_nodes_lookup@[n].0 == id,
{
    let nodes = convert_graph_nodes_lookup_to_nodes(graph_nodes_lookup);
    let mut all_links = collect_links(graph_nodes_lookup, traversal_times, angles, edges);
    proof {
        lemma_candidate_links_len(edges@, graph_nodes_lookup@, traversal_times@, angles@);
    }
    let ghost unsorted = all_links@;
    sort_links(&mut all_links);
    proof {
        vstd::seq_lib::to_multiset_len(unsorted);
        vstd::seq_lib::to_multiset_len(all_links@);
    }
    let mut graph = group_links_into_graph(&all_links);
    let node_count = graph_nodes_lookup.len();
    while graph.len() < node_count
        invariant
            graph.len() >= row_count(all_links@),
            forall|u: int| 0 <= u < graph.len() ==> (#[trigger] graph@[u])@ == row_of(all_links@, u),
            graph.len() == row_count(all_links@) || graph.len() <= node_count,
        decreases node_count - graph.len(),
    {
        proof {
            lemma_row_of_beyond(all_links@, graph.len() as int);
        }
        graph.push(Vec::new());
    }
    (graph, nodes)
}

proof fn lemma_row_entries(links: Seq<CandidateLink>, u: int)
    requires
        links.len() <= u32::MAX + 1,
    ensures
        forall|p: int| 0 <= p < row_of(links, u).len() ==> {
            let id = (#[trigger] row_of(links, u)[p]).4 as int;
            &&& 0 <= id < links.len()
            &&& links[id].0 == u
        },
        forall|p: int, q: int| 0 <= p < q < row_of(links, u).len() ==> (#[trigger] row_of(links, u)[p]).4 < (
        #[trigger] row_of(links, u)[q]).4,
        forall|k: int| 0 <= k < links.len() && links[k].0 == u ==> exists|p: int| 0 <= p < row_of(links, u).len()
            && (#[trigger] row_of(links, u)[p]).4 == k,
    decreases links.len(),
{
    if links.len() > 0 {
        let rest = links.drop_last();
        lemma_row_entries(rest, u);
        let r = row_of(links, u);
        let rr = row_of(rest, u);
        assert forall|p: int| 0 <= p < r.len() implies {
            let id = (#[trigger] r[p]).4 as int;
            &&& 0 <= id < links.len()
            &&& links[id].0 == u
        } by {
            if p < rr.len() {
                assert(r[p] == rr[p]);
                assert(links[rr[p].4 as int] == rest[rr[p].4 as int]);
            }
        }
        assert forall|p: int, q: int| 0 <= p < q < r.len() implies (#[trigger] r[p]).4 < (#[trigger] r[q]).4 by {
            if q < rr.len() {
                assert(r[p] == rr[p]);
                assert(r[q] == rr[q]);
            } else {
                assert(r[p] == rr[p]);
            }
        }
        assert forall|k: int| 0 <= k < links.len() && links[k].0 == u implies exists|p: int| 0 <= p < r.len()
            && (#[trigger] r[p]).4 == k by {
            if k < rest.len() {
                assert(rest[k] == links[k]);
                let p = choose|p: int| 0 <= p < rr.len() && (#[trigger] rr[p]).4 == k;
                assert(r[p] == rr[p]);
            } else {
                assert(r[r.len() - 1].4 == k);
            }
        }
    }
}

/// Some entry of the graph has link id `k`.
pub open spec fn has_link_id(graph: Seq<Vec<GraphLink>>, k: int) -> bool {
    exists|u: int, p: int| 0 <= u < graph.len() && 0 <= p < graph[u]@.len() && (#[trigger] graph[u]@[p]).4 == k
}

/// Link ids are unique over the whole graph and run from zero to one less
/// than the number of links, in a graph that groups sorted links.
pub proof fn lemma_link_ids_unique_and_contiguous(graph: Seq<Vec<GraphLink>>, links: Seq<CandidateLink>, min_rows: int)
    requires
        graph_of(graph, links, min_rows),
        links.len() <= u32::MAX,
    ensures
        forall|u: int, p: int| 0 <= u < graph.len() && 0 <= p < graph[u]@.len() ==> (#[trigger] graph[u]@[p]).4 < links.len(),
        forall|ua: int, pa: int, ub: int, pb: int|
            0 <= ua < graph.len() && 0 <= pa < graph[ua]@.len() && 0 <= ub < graph.len() && 0 <= pb < graph[ub]@.len()
                && (ua != ub || pa != pb) ==> (#[trigger] graph[ua]@[pa]).4 != (#[trigger] graph[ub]@[pb]).4,
        forall|k: int| 0 <= k < links.len() ==> #[trigger] has_link_id(graph, k),
{
    assert forall|u: int, p: int| 0 <= u < graph.len() && 0 <= p < graph[u]@.len() implies (#[trigger] graph[u]@[p]).4 < links.len() by {
        lemma_row_entries(links, u);
        assert(graph[u]@ == row_of(links, u));
        assert(row_of(links, u)[p] == graph[u]@[p]);
    }
    assert forall|ua: int, pa: int, ub: int, pb: int|
        0 <= ua < graph.len() && 0 <= pa < graph[ua]@.len() && 0 <= ub < graph.len() && 0 <= pb < graph[ub]@.len()
            && (ua != ub || pa != pb) implies (#[trigger] graph[ua]@[pa]).4 != (#[trigger] graph[ub]@[pb]).4 by {
        lemma_row_entries(links, ua);
        lemma_row_entries(links, ub);
        assert(graph[ua]@ == row_of(links, ua));
        assert(graph[ub]@ == row_of(links, ub));
        assert(row_of(links, ua)[pa] == graph[ua]@[pa]);
        assert(row_of(links, ub)[pb] == graph[ub]@[pb]);
        if ua == ub {
            if pa < pb {
                assert(row_of(links, ua)[pa].4 < row_of(links, ua)[pb].4);
            } else {
                assert(row_of(links, ua)[pb].4 < row_of(links, ua)[pa].4);
            }
        }
    }
    assert forall|k: int| 0 <= k < links.len() implies #[trigger] has_link_id(graph, k) by {
        let u = links[k].0 as int;
        lemma_row_entries(links, u);
        lemma_row_count_bound(links, k);
        let p = choose|p: int| 0 <= p < row_of(links, u).len() && (#[trigger] row_of(links, u)[p]).4 == k;
        assert(u < graph.len());
        assert(graph[u]@ == row_of(links, u));
        assert(graph[u]@[p] == row_of(links, u)[p]);
        assert(0 <= u < graph.len() && 0 <= p < graph[u]@.len() && graph[u]@[p].4 == k);
    }
}

proof fn lemma_row_count_bound(links: Seq<CandidateLink>, k: int)
    requires
        0 <= k < links.len(),
    ensures
        links[k].0 < row_count(links),
    decreases links.len(),
{
    if k < links.len() - 1 {
        lemma_row_count_bound(links.drop_last(), k);
        assert(links.drop_last()[k] == links[k]);
    }
}

} // verus!
