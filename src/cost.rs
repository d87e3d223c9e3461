use vstd::prelude::*;

verus! {

/// Microseconds in a second: costs accumulate in microseconds and are
/// rounded to whole seconds at the end.
pub const MICROS_PER_SECOND: u128 = 1_000_000;

/// Half a second in microseconds.
pub const HALF_SECOND_MICROS: u128 = 500_000;

/// The flat-terrain cost in microseconds of `length_mm` millimetres at
/// `speed` millimetres per second.
pub open spec fn flat_cost(length_mm: int, speed: int) -> int {
    length_mm * 1_000_000 / speed
}

/// The climbing penalty in microseconds of a rise of `rise_mm` millimetres at
/// `ascent` milliseconds per metre of ascent.
pub open spec fn climb_cost(rise_mm: int, ascent: int) -> int {
    if rise_mm > 0 {
        rise_mm * ascent
    } else {
        0
    }
}

/// The (forward, backward) cost in microseconds of a segment of `length_mm`
/// between two samples of the terrain height. Where either sample is missing
/// the segment is taken as flat; otherwise the ascending direction alone pays
/// for the climb.
pub open spec fn segment_costs(
    length_mm: int,
    h1: Option<i32>,
    h2: Option<i32>,
    speed: int,
    ascent: int,
) -> (int, int) {
    let base = flat_cost(length_mm, speed);
    match (h1, h2) {
        (Some(a), Some(b)) => (base + climb_cost(b - a, ascent), base + climb_cost(a - b, ascent)),
        _ => (base, base),
    }
}

/// The cost of segment `k` of a polyline whose segment lengths are `lengths`
/// and whose point heights are `heights`.
pub open spec fn segment_costs_at(
    lengths: Seq<u32>,
    heights: Seq<Option<i32>>,
    k: int,
    speed: int,
    ascent: int,
) -> (int, int) {
    segment_costs(lengths[k] as int, heights[k], heights[k + 1], speed, ascent)
}

/// The (forward, backward) cost in microseconds of the first `k` segments.
pub open spec fn prefix_costs(
    lengths: Seq<u32>,
    heights: Seq<Option<i32>>,
    k: int,
    speed: int,
    ascent: int,
) -> (int, int)
    decreases k,
{
    if k <= 0 {
        (0, 0)
    } else {
        let p = prefix_costs(lengths, heights, k - 1, speed, ascent);
        let c = segment_costs_at(lengths, heights, k - 1, speed, ascent);
        (p.0 + c.0, p.1 + c.1)
    }
}

/// A cost in microseconds rounded to the nearest second, half up.
pub open spec fn round_seconds(micros: int) -> int {
    (micros + 500_000) / 1_000_000
}

/// The traversal time in seconds of a cost in microseconds: the nearest whole
/// second, at least one, and at most `usize::MAX`.
pub open spec fn traversal_seconds(micros: int) -> int {
    if micros <= 1_000_000 {
        1
    } else if round_seconds(micros) > usize::MAX {
        usize::MAX as int
    } else {
        round_seconds(micros)
    }
}

/// The (forward, backward) traversal times in seconds of a whole polyline.
pub open spec fn edge_times(
    lengths: Seq<u32>,
    heights: Seq<Option<i32>>,
    speed: int,
    ascent: int,
) -> (int, int) {
    let t = prefix_costs(lengths, heights, lengths.len() as int, speed, ascent);
    (traversal_seconds(t.0), traversal_seconds(t.1))
}

/// A bound on the cost in microseconds of a single segment: `2^53`.
pub open spec fn segment_cost_bound() -> int {
    0x20_0000_0000_0000
}

/// Every prefix of `k` segments costs at most `k` times the bound.
pub(crate) proof fn lemma_prefix_bound(lengths: Seq<u32>, heights: Seq<Option<i32>>, k: int, speed: int, ascent: int)
    requires
        0 <= k <= lengths.len(),
        lengths.len() + 1 == heights.len(),
        speed > 0,
        0 <= ascent <= u16::MAX,
    ensures
        0 <= prefix_costs(lengths, heights, k, speed, ascent).0 <= k * segment_cost_bound(),
        0 <= prefix_costs(lengths, heights, k, speed, ascent).1 <= k * segment_cost_bound(),
    decreases k,
{
    if k > 0 {
        lemma_prefix_bound(lengths, heights, k - 1, speed, ascent);
        lemma_segment_bound(lengths[k - 1] as int, heights[k - 1], heights[k], speed, ascent);
        let b = segment_cost_bound();
        assert((k - 1) * b + b == k * b) by (nonlinear_arith);
    }
}

proof fn lemma_segment_bound(length_mm: int, h1: Option<i32>, h2: Option<i32>, speed: int, ascent: int)
    requires
        0 <= length_mm <= u32::MAX,
        speed > 0,
        0 <= ascent <= u16::MAX,
    ensures
        0 <= segment_costs(length_mm, h1, h2, speed, ascent).0 <= segment_cost_bound(),
        0 <= segment_costs(length_mm, h1, h2, speed, ascent).1 <= segment_cost_bound(),
{
    assert(0 <= length_mm * 1_000_000 <= u32::MAX * 1_000_000) by (nonlinear_arith)
        requires 0 <= length_mm <= u32::MAX;
    assert(0 <= length_mm * 1_000_000 / speed <= length_mm * 1_000_000) by (nonlinear_arith)
        requires length_mm >= 0, speed > 0;
    if let (Some(a), Some(b)) = (h1, h2) {
        let d1 = b - a;
        let d2 = a - b;
        assert(d1 * ascent <= 0x1_0000_0000 * 0x1_0000) by (nonlinear_arith)
            requires d1 <= 0x1_0000_0000, 0 <= ascent <= u16::MAX;
        assert(d2 * ascent <= 0x1_0000_0000 * 0x1_0000) by (nonlinear_arith)
            requires d2 <= 0x1_0000_0000, 0 <= ascent <= u16::MAX;
        assert(d1 > 0 ==> d1 * ascent >= 0) by (nonlinear_arith)
            requires ascent >= 0;
        assert(d2 > 0 ==> d2 * ascent >= 0) by (nonlinear_arith)
            requires ascent >= 0;
    }
    assert(u32::MAX * 1_000_000 + 0x1_0000_0000 * 0x1_0000 <= segment_cost_bound());
}

/// The (forward, backward) cost in microseconds of one segment.
pub fn segment_traversal_costs(
    length_mm: u32,
    h1: Option<i32>,
    h2: Option<i32>,
    speed: u64,
    ascention_speed: u16,
) -> (r: (u64, u64))
    requires
        speed > 0,
    ensures
        r.0 == segment_costs(length_mm as int, h1, h2, speed as int, ascention_speed as int).0,
        r.1 == segment_costs(length_mm as int, h1, h2, speed as int, ascention_speed as int).1,
{
    proof {
        lemma_segment_bound(length_mm as int, h1, h2, speed as int, ascention_speed as int);
    }
    assert(length_mm as int * 1_000_000 <= u32::MAX * 1_000_000) by (nonlinear_arith)
        requires length_mm <= u32::MAX;
    let base: u64 = (length_mm as u64) * 1_000_000 / speed;
    match (h1, h2) {
        (Some(a), Some(b)) => {
            let rise: i64 = b as i64 - a as i64;
            if rise > 0 {
                (base + (rise as u64) * (ascention_speed as u64), base)
            } else if rise < 0 {
                (base, base + ((-rise) as u64) * (ascention_speed as u64))
            } else {
                (base, base)
            }
        },
        _ => (base, base),
    }
}

/// The traversal time in seconds of a cost in microseconds.
pub fn seconds_from_micros(micros: u128) -> (r: usize)
    ensures
        r == traversal_seconds(micros as int),
        r >= 1,
{
    if micros <= MICROS_PER_SECOND {
        1
    } else if micros > u128::MAX - HALF_SECOND_MICROS {
        assert(round_seconds(micros as int) > usize::MAX);
        usize::MAX
    } else {
        let s: u128 = (micros + HALF_SECOND_MICROS) / MICROS_PER_SECOND;
        if s > usize::MAX as u128 {
            usize::MAX
        } else {
            s as usize
        }
    }
}

/// The (forward, backward) traversal times in seconds of a polyline whose
/// segments are `lengths_mm` long and whose points lie at `heights_mm` (where
/// the terrain is known), at a flat speed of `speed` millimetres per second
/// and `ascention_speed` milliseconds per metre of ascent. Each segment costs
/// its flat time in both directions, and the climb in the direction that
/// ascends; a segment with a missing height is flat. Each total is rounded to
/// the nearest second and is at least one.
pub fn calculate_edge_traversal_time(
    lengths_mm: &Vec<u32>,
    heights_mm: &Vec<Option<i32>>,
    speed: u64,
    ascention_speed: u16,
) -> (r: (usize, usize))
    requires
        heights_mm.len() == lengths_mm.len() + 1,
        lengths_mm.len() <= u32::MAX,
        speed > 0,
    ensures
        r.0 == edge_times(lengths_mm@, heights_mm@, speed as int, ascention_speed as int).0,
        r.1 == edge_times(lengths_mm@, heights_mm@, speed as int, ascention_speed as int).1,
        r.0 >= 1,
        r.1 >= 1,
{
    let mut forward: u128 = 0;
    let mut backward: u128 = 0;
    let mut k: usize = 0;
    while k < lengths_mm.len()
        invariant
            0 <= k <= lengths_mm.len(),
            heights_mm.len() == lengths_mm.len() + 1,
            lengths_mm.len() <= u32::MAX,
            speed > 0,
            forward == prefix_costs(lengths_mm@, heights_mm@, k as int, speed as int, ascention_speed as int).0,
            backward == prefix_costs(lengths_mm@, heights_mm@, k as int, speed as int, ascention_speed as int).1,
        decreases lengths_mm.len() - k,
    {
        proof {
            lemma_prefix_bound(lengths_mm@, heights_mm@, k + 1, speed as int, ascention_speed as int);
            assert((k + 1) * segment_cost_bound() <= 0x1_0000_0000 * segment_cost_bound()) by (nonlinear_arith)
                requires k + 1 <= 0x1_0000_0000;
        }
        let c = segment_traversal_costs(lengths_mm[k], heights_mm[k], heights_mm[k + 1], speed, ascention_speed);
        forward = forward + c.0 as u128;
        backward = backward + c.1 as u128;
        k += 1;
    }
    (seconds_from_micros(forward), seconds_from_micros(backward))
}

} // verus!
