use vstd::prelude::*;
use std::collections::HashMap;
use crate::coord::Coord;
use crate::cost::{
    prefix_costs, round_seconds, segment_cost_bound, segment_costs_at, segment_traversal_costs,
};

verus! {

broadcast use vstd::std_specs::hash::group_hash_axioms;

/// One segment of an edge's polyline with its length and its cost in
/// microseconds in each direction.
#[derive(Clone, Copy, Debug)]
pub struct ComponentLine {
    pub start: Coord,
    pub end: Coord,
    pub length_mm: u32,
    pub forward_traversal_time: u64,
    pub backward_traversal_time: u64,
}

/// A point along an edge, between the edge's compacted end nodes, with the
/// time in seconds from it back to the start and on to the end.
#[derive(Clone, Copy, Debug, PartialEq, Eq, Structural)]
pub struct SubNode {
    pub start_node: usize,
    pub end_node: usize,
    pub easting: i64,
    pub northing: i64,
    pub time_to_start: usize,
    pub time_to_end: usize,
}

/// A segment longer than this many millimetres gets interior points.
pub const DENSE_THRESHOLD_MM: u32 = 7500;

/// The spacing in millimetres of interior points.
pub const SUBNODE_SPACING_MM: u32 = 5000;

/// `line` is segment `k` of the polyline with its cost.
pub open spec fn line_matches(
    line: ComponentLine,
    linestring: Seq<Coord>,
    lengths: Seq<u32>,
    heights: Seq<Option<i32>>,
    k: int,
    speed: int,
    ascent: int,
) -> bool {
    &&& line.start == linestring[k]
    &&& line.end == linestring[k + 1]
    &&& line.length_mm == lengths[k]
    &&& line.forward_traversal_time == segment_costs_at(lengths, heights, k, speed, ascent).0
    &&& line.backward_traversal_time == segment_costs_at(lengths, heights, k, speed, ascent).1
}

/// The segments of a polyline with their costs, and the total cost in each
/// direction, in microseconds.
pub fn get_traversal_times(
    linestring: &Vec<Coord>,
    lengths_mm: &Vec<u32>,
    heights_mm: &Vec<Option<i32>>,
    speed: u64,
    ascention_speed: u16,
) -> (r: (u128, u128, Vec<ComponentLine>))
    requires
        heights_mm.len() == lengths_mm.len() + 1,
        linestring.len() == lengths_mm.len() + 1,
        lengths_mm.len() <= u32::MAX,
        speed > 0,
    ensures
        r.0 == prefix_costs(lengths_mm@, heights_mm@, lengths_mm.len() as int, speed as int, ascention_speed as int).0,
        r.1 == prefix_costs(lengths_mm@, heights_mm@, lengths_mm.len() as int, speed as int, ascention_speed as int).1,
        r.2.len() == lengths_mm.len(),
        forall|k: int| 0 <= k < r.2.len() ==> line_matches(#[trigger] r.2@[k], linestring@, lengths_mm@, heights_mm@, k, speed as int, ascention_speed as int),
{
    let mut forward: u128 = 0;
    let mut backward: u128 = 0;
    let mut lines: Vec<ComponentLine> = Vec::new();
    let mut k: usize = 0;
    while k < lengths_mm.len()
        invariant
            0 <= k <= lengths_mm.len(),
            heights_mm.len() == lengths_mm.len() + 1,
            linestring.len() == lengths_mm.len() + 1,
            lengths_mm.len() <= u32::MAX,
            speed > 0,
            forward == prefix_costs(lengths_mm@, heights_mm@, k as int, speed as int, ascention_speed as int).0,
            backward == prefix_costs(lengths_mm@, heights_mm@, k as int, speed as int, ascention_speed as int).1,
            lines.len() == k,
            forall|j: int| 0 <= j < k ==> line_matches(#[trigger] lines@[j], linestring@, lengths_mm@, heights_mm@, j, speed as int, ascention_speed as int),
        decreases lengths_mm.len() - k,
    {
        proof {
            crate::cost::lemma_prefix_bound(lengths_mm@, heights_mm@, k + 1, speed as int, ascention_speed as int);
            assert((k + 1) * segment_cost_bound() <= 0x1_0000_0000 * segment_cost_bound()) by (nonlinear_arith)
                requires k + 1 <= 0x1_0000_0000;
        }
        let c = segment_traversal_costs(lengths_mm[k], heights_mm[k], heights_mm[k + 1], speed, ascention_speed);
        forward = forward + c.0 as u128;
        backward = backward + c.1 as u128;
        lines.push(ComponentLine {
            start: linestring[k],
            end: linestring[k + 1],
            length_mm: lengths_mm[k],
            forward_traversal_time: c.0,
            backward_traversal_time: c.1,
        });
        k += 1;
    }
    (forward, backward, lines)
}

/// The point `i / m` of the way from `a` to `b`, rounded towards `a`.
pub open spec fn interpolate(a: i64, b: i64, i: int, m: int) -> int {
    if b >= a {
        a + (b - a) * i / m
    } else {
        a - (a - b) * i / m
    }
}

proof fn lemma_fraction_le(d: int, i: int, m: int)
    requires
        d >= 0,
        0 <= i <= m,
        m > 0,
    ensures
        0 <= d * i / m <= d,
{
    assert(0 <= d * i <= d * m) by (nonlinear_arith)
        requires d >= 0, 0 <= i <= m;
    assert(d * i / m <= d * m / m) by (nonlinear_arith)
        requires 0 <= d * i <= d * m, m > 0;
    assert(d * m / m == d) by (nonlinear_arith)
        requires m > 0;
    assert(0 <= d * i / m) by (nonlinear_arith)
        requires d * i >= 0, m > 0;
}

/// The point `i / m` of the way along `line`.
pub fn get_subnode_coords(i: u64, m: u64, line: &ComponentLine) -> (r: (i64, i64))
    requires
        0 < m <= 0x1_0000_0000,
        i <= m,
    ensures
        r.0 == interpolate(line.start.x, line.end.x, i as int, m as int),
        r.1 == interpolate(line.start.y, line.end.y, i as int, m as int),
{
    (interpolate_exec(line.start.x, line.end.x, i, m), interpolate_exec(line.start.y, line.end.y, i, m))
}

fn interpolate_exec(a: i64, b: i64, i: u64, m: u64) -> (r: i64)
    requires
        0 < m <= 0x1_0000_0000,
        i <= m,
    ensures
        r == interpolate(a, b, i as int, m as int),
{
    if b >= a {
        let d: u128 = (b as i128 - a as i128) as u128;
        proof {
            lemma_fraction_le(d as int, i as int, m as int);
        }
        assert(d * i <= 0x1_0000_0000_0000_0000 * 0x1_0000_0000) by (nonlinear_arith)
            requires d <= 0x1_0000_0000_0000_0000, i <= 0x1_0000_0000;
        let step: u128 = d * (i as u128) / (m as u128);
        (a as i128 + step as i128) as i64
    } else {
        let d: u128 = (a as i128 - b as i128) as u128;
        proof {
            lemma_fraction_le(d as int, i as int, m as int);
        }
        assert(d * i <= 0x1_0000_0000_0000_0000 * 0x1_0000_0000) by (nonlinear_arith)
            requires d <= 0x1_0000_0000_0000_0000, i <= 0x1_0000_0000;
        let step: u128 = d * (i as u128) / (m as u128);
        (a as i128 - step as i128) as i64
    }
}

/// A time in microseconds as whole seconds, rounded half up and capped at
/// `usize::MAX`.
pub open spec fn subnode_seconds(micros: int) -> int {
    if round_seconds(micros) > usize::MAX {
        usize::MAX as int
    } else {
        round_seconds(micros)
    }
}

fn round_to_seconds(micros: u128) -> (r: usize)
    ensures
        r == subnode_seconds(micros as int),
{
    if micros > u128::MAX - 500_000 {
        usize::MAX
    } else {
        let s: u128 = (micros + 500_000) / 1_000_000;
        if s > usize::MAX as u128 {
            usize::MAX
        } else {
            s as usize
        }
    }
}

/// How many interior points a segment of `length_mm` gets.
pub open spec fn inner_count(length_mm: int) -> int {
    if length_mm > 7500 {
        length_mm / 5000
    } else {
        0
    }
}

/// The sums of the (forward, backward) costs of the first `k` lines.
pub open spec fn line_sums(lines: Seq<ComponentLine>, k: int) -> (int, int)
    decreases k,
{
    if k <= 0 {
        (0, 0)
    } else {
        let p = line_sums(lines, k - 1);
        (p.0 + lines[k - 1].forward_traversal_time, p.1 + lines[k - 1].backward_traversal_time)
    }
}

/// The interior point `i / m` of `line`, which starts `before_fwd` forward and
/// `before_bwd` backward microseconds into the edge.
pub open spec fn inner_subnode(
    s: usize,
    e: usize,
    line: ComponentLine,
    before_fwd: int,
    before_bwd: int,
    total_fwd: int,
    i: int,
    m: int,
) -> SubNode {
    SubNode {
        start_node: s,
        end_node: e,
        easting: interpolate(line.start.x, line.end.x, i, m) as i64,
        northing: interpolate(line.start.y, line.end.y, i, m) as i64,
        time_to_start: subnode_seconds(before_bwd + line.backward_traversal_time * i / m) as usize,
        time_to_end: subnode_seconds(total_fwd - (before_fwd + line.forward_traversal_time * i / m)) as usize,
    }
}

/// The points that `line` contributes: its interior points, then its end.
pub open spec fn line_subnodes(
    s: usize,
    e: usize,
    line: ComponentLine,
    before_fwd: int,
    before_bwd: int,
    total_fwd: int,
) -> Seq<SubNode> {
    let n = inner_count(line.length_mm as int);
    Seq::new(n as nat, |t: int| inner_subnode(s, e, line, before_fwd, before_bwd, total_fwd, t + 1, n + 1)).push(
        SubNode {
            start_node: s,
            end_node: e,
            easting: line.end.x,
            northing: line.end.y,
            time_to_start: subnode_seconds(before_bwd + line.backward_traversal_time) as usize,
            time_to_end: subnode_seconds(total_fwd - (before_fwd + line.forward_traversal_time)) as usize,
        },
    )
}

/// The points of an edge up to the end of its `k`-th line: the start of the
/// edge, then what each line contributes.
pub open spec fn subnodes_upto(s: usize, e: usize, total_fwd: int, lines: Seq<ComponentLine>, k: int) -> Seq<SubNode>
    decreases k,
{
    if k <= 0 {
        seq![
            SubNode {
                start_node: s,
                end_node: e,
                easting: lines[0].start.x,
                northing: lines[0].start.y,
                time_to_start: 0,
                time_to_end: subnode_seconds(total_fwd) as usize,
            },
        ]
    } else {
        let p = line_sums(lines, k - 1);
        subnodes_upto(s, e, total_fwd, lines, k - 1) + line_subnodes(s, e, lines[k - 1], p.0, p.1, total_fwd)
    }
}

proof fn lemma_line_sums_monotone(lines: Seq<ComponentLine>, j: int, k: int)
    requires
        0 <= j <= k <= lines.len(),
    ensures
        line_sums(lines, j).0 <= line_sums(lines, k).0,
        line_sums(lines, j).1 <= line_sums(lines, k).1,
        line_sums(lines, k).0 <= k * 0x1_0000_0000_0000_0000,
        line_sums(lines, k).1 <= k * 0x1_0000_0000_0000_0000,
    decreases k,
{
    if k > 0 {
        lemma_line_sums_monotone(lines, 0, k - 1);
        if j < k {
            lemma_line_sums_monotone(lines, j, k - 1);
        }
        assert((k - 1) * 0x1_0000_0000_0000_0000 + 0x1_0000_0000_0000_0000 == k * 0x1_0000_0000_0000_0000) by (nonlinear_arith);
    }
}

/// The points along an edge: its start, then for each segment the interior
/// points that a long segment gets (evenly spaced, about five metres apart)
/// and the segment's end. Each point carries the backward time from it to the
/// start and the forward time from it to the end of the edge.
pub fn get_subnodes(
    start_node_id: usize,
    end_node_id: usize,
    link_forward_traversal_time: u128,
    component_lines: &Vec<ComponentLine>,
) -> (r: Vec<SubNode>)
    requires
        component_lines.len() >= 1,
        component_lines.len() <= u32::MAX,
        link_forward_traversal_time == line_sums(component_lines@, component_lines.len() as int).0,
    ensures
        r@ == subnodes_upto(start_node_id, end_node_id, link_forward_traversal_time as int, component_lines@, component_lines.len() as int),
{
    let ghost lines = component_lines@;
    let ghost total = link_forward_traversal_time as int;
    let mut subnodes: Vec<SubNode> = Vec::new();
    let mut before_fwd: u128 = 0;
    let mut before_bwd: u128 = 0;
    let first_end = round_to_seconds(link_forward_traversal_time);
    subnodes.push(SubNode {
        start_node: start_node_id,
        end_node: end_node_id,
        easting: component_lines[0].start.x,
        northing: component_lines[0].start.y,
        time_to_start: 0,
        time_to_end: first_end,
    });
    assert(subnodes@ =~= subnodes_upto(start_node_id, end_node_id, total, lines, 0));
    let mut k: usize = 0;
    while k < component_lines.len()
        invariant
            0 <= k <= component_lines.len(),
            lines == component_lines@,
            total == link_forward_traversal_time,
            component_lines.len() <= u32::MAX,
            total == line_sums(lines, lines.len() as int).0,
            before_fwd == line_sums(lines, k as int).0,
            before_bwd == line_sums(lines, k as int).1,
            subnodes@ == subnodes_upto(start_node_id, end_node_id, total, lines, k as int),
        decreases component_lines.len() - k,
    {
        let line = &component_lines[k];
        proof {
            lemma_line_sums_monotone(lines, k + 1, lines.len() as int);
            lemma_line_sums_monotone(lines, k as int, k + 1);
            assert(lines.len() * 0x1_0000_0000_0000_0000 <= 0x1_0000_0000 * 0x1_0000_0000_0000_0000) by (nonlinear_arith)
                requires lines.len() <= 0x1_0000_0000;
        }
        let ghost base = subnodes@;
        let n: u64 = if line.length_mm > DENSE_THRESHOLD_MM {
            (line.length_mm / SUBNODE_SPACING_MM) as u64
        } else {
            0
        };
        let ghost lsub = line_subnodes(start_node_id, end_node_id, *line, before_fwd as int, before_bwd as int, total);
        let mut idx: u64 = 1;
        assert(subnodes@ =~= base + lsub.take(0));
        while idx <= n
            invariant
                1 <= idx <= n + 1,
                n == inner_count(line.length_mm as int),
                n <= 0x1_0000_0000int / 5000,
                subnodes@ == base + lsub.take(idx - 1),
                lsub == line_subnodes(start_node_id, end_node_id, *line, before_fwd as int, before_bwd as int, total),
                before_fwd + line.forward_traversal_time <= total,
                total == link_forward_traversal_time,
                before_bwd + line.backward_traversal_time <= 0x1_0000_0000 * 0x1_0000_0000_0000_0000,
            decreases n + 1 - idx,
        {
            let m: u64 = n + 1;
            proof {
                lemma_fraction_le(line.forward_traversal_time as int, idx as int, m as int);
                lemma_fraction_le(line.backward_traversal_time as int, idx as int, m as int);
            }
            assert(line.forward_traversal_time * idx <= 0x1_0000_0000_0000_0000 * 0x1_0000_0000) by (nonlinear_arith)
                requires line.forward_traversal_time <= 0x1_0000_0000_0000_0000, idx <= 0x1_0000_0000;
            assert(line.backward_traversal_time * idx <= 0x1_0000_0000_0000_0000 * 0x1_0000_0000) by (nonlinear_arith)
                requires line.backward_traversal_time <= 0x1_0000_0000_0000_0000, idx <= 0x1_0000_0000;
            let fwd_part: u128 = (line.forward_traversal_time as u128) * (idx as u128) / (m as u128);
            let bwd_part: u128 = (line.backward_traversal_time as u128) * (idx as u128) / (m as u128);
            let (x, y) = get_subnode_coords(idx, m, line);
            let tts = round_to_seconds(before_bwd + bwd_part);
            let tte = round_to_seconds(link_forward_traversal_time - (before_fwd + fwd_part));
            subnodes.push(SubNode {
                start_node: start_node_id,
                end_node: end_node_id,
                easting: x,
                northing: y,
                time_to_start: tts,
                time_to_end: tte,
            });
            assert(lsub[idx - 1] == inner_subnode(start_node_id, end_node_id, *line, before_fwd as int, before_bwd as int, total, idx as int, m as int));
            assert(subnodes@ =~= base + lsub.take(idx as int));
            idx += 1;
        }
        let tts = round_to_seconds(before_bwd + line.backward_traversal_time as u128);
        let tte = round_to_seconds(link_forward_traversal_time - (before_fwd + line.forward_traversal_time as u128));
        subnodes.push(SubNode {
            start_node: start_node_id,
            end_node: end_node_id,
            easting: line.end.x,
            northing: line.end.y,
            time_to_start: tts,
            time_to_end: tte,
        });
        assert(subnodes@ =~= base + lsub);
        before_fwd = before_fwd + line.forward_traversal_time as u128;
        before_bwd = before_bwd + line.backward_traversal_time as u128;
        k += 1;
    }
    subnodes
}

proof fn lemma_line_sums_are_costs(
    lines: Seq<ComponentLine>,
    linestring: Seq<Coord>,
    lengths: Seq<u32>,
    heights: Seq<Option<i32>>,
    k: int,
    speed: int,
    ascent: int,
)
    requires
        0 <= k <= lines.len(),
        forall|j: int| 0 <= j < lines.len() ==> line_matches(#[trigger] lines[j], linestring, lengths, heights, j, speed, ascent),
    ensures
        line_sums(lines, k) == prefix_costs(lengths, heights, k, speed, ascent),
    decreases k,
{
    if k > 0 {
        lemma_line_sums_are_costs(lines, linestring, lengths, heights, k - 1, speed, ascent);
        assert(line_matches(lines[k - 1], linestring, lengths, heights, k - 1, speed, ascent));
    }
}

/// The points along one edge (see `get_subnodes`), between the compacted ids
/// of its end nodes, for a polyline of at least two points whose segment
/// lengths and point heights are given.
pub fn calculate_subnodes(
    linestring: &Vec<Coord>,
    start_node: i64,
    end_node: i64,
    lengths_mm: &Vec<u32>,
    heights_mm: &Vec<Option<i32>>,
    speed: u64,
    ascention_speed: u16,
    graph_node_lookup: &HashMap<i64, (usize, Coord)>,
) -> (r: Vec<SubNode>)
    requires
        linestring.len() >= 2,
        heights_mm.len() == linestring.len(),
        lengths_mm.len() + 1 == linestring.len(),
        lengths_mm.len() <= u32::MAX,
        speed > 0,
        graph_node_lookup@.contains_key(start_node),
        graph_node_lookup@.contains_key(end_node),
    ensures
        exists|lines: Seq<ComponentLine>| {
            &&& lines.len() == lengths_mm.len()
            &&& (forall|k: int| 0 <= k < lines.len() ==> line_matches(#[trigger] lines[k], linestring@, lengths_mm@, heights_mm@, k, speed as int, ascention_speed as int))
            &&& r@ == subnodes_upto(
                graph_node_lookup@[start_node].0,
                graph_node_lookup@[end_node].0,
                prefix_costs(lengths_mm@, heights_mm@, lengths_mm.len() as int, speed as int, ascention_speed as int).0,
                lines,
                lines.len() as int,
            )
        },
{
    let (forward, _backward, lines) = get_traversal_times(linestring, lengths_mm, heights_mm, speed, ascention_speed);
    proof {
        lemma_line_sums_are_costs(lines@, linestring@, lengths_mm@, heights_mm@, lines.len() as int, speed as int, ascention_speed as int);
    }
    let start_node_id = match graph_node_lookup.get(&start_node) {
        Some(v) => v.0,
        None => 0,
    };
    let end_node_id = match graph_node_lookup.get(&end_node) {
        Some(v) => v.0,
        None => 0,
    };
    get_subnodes(start_node_id, end_node_id, forward, &lines)
}

} // verus!
