use vstd::prelude::*;
use std::collections::HashSet;
use crate::topology::{Way, WayView};

verus! {

broadcast use vstd::std_specs::hash::group_hash_axioms;

/// The configuration of a travel mode: its name, the (key, value) tag pairs
/// that exclude a way, the flat speed in millimetres per second, and the
/// ascent and descent times in milliseconds per metre.
pub struct Settings {
    pub mode: String,
    pub tag_pairs: Vec<(String, String)>,
    pub speed: u64,
    pub ascention_speed: u16,
    pub descent_speed: u16,
}

/// A way as read from the map: its id, node ids and tags.
pub struct RawWay {
    pub id: i64,
    pub node_ids: Vec<i64>,
    pub tags: Vec<(String, String)>,
}

/// The value of the first tag at or after position `i` whose key is `key`.
pub open spec fn tag_from(tags: Seq<(String, String)>, key: Seq<char>, i: int) -> Option<Seq<char>>
    decreases tags.len() - i,
{
    if i < 0 || i >= tags.len() {
        None
    } else if tags[i].0@ == key {
        Some(tags[i].1@)
    } else {
        tag_from(tags, key, i + 1)
    }
}

/// The value of the tag `key`, if the tags hold one.
pub open spec fn tag_value(tags: Seq<(String, String)>, key: Seq<char>) -> Option<Seq<char>> {
    tag_from(tags, key, 0)
}

/// The value of the tag `key`, if the tags hold one.
pub fn get_tag<'a>(tags: &'a Vec<(String, String)>, key: &String) -> (r: Option<&'a String>)
    ensures
        match r {
            Some(v) => tag_value(tags@, key@) == Some(v@),
            None => tag_value(tags@, key@) is None,
        },
{
    let mut i: usize = 0;
    while i < tags.len()
        invariant
            0 <= i <= tags.len(),
            tag_value(tags@, key@) == tag_from(tags@, key@, i as int),
        decreases tags.len() - i,
    {
        if tags[i].0 == *key {
            return Some(&tags[i].1);
        }
        i += 1;
    }
    None
}

/// The tags hold `key` with the value `value`.
pub open spec fn has_tag(tags: Seq<(String, String)>, key: Seq<char>, value: Seq<char>) -> bool {
    tag_value(tags, key) == Some(value)
}

fn tag_is(tags: &Vec<(String, String)>, key: &str, value: &str) -> (r: bool)
    ensures
        r == has_tag(tags@, key@, value@),
{
    let k: String = key.to_owned();
    match get_tag(tags, &k) {
        Some(v) => *v == value.to_owned(),
        None => false,
    }
}

/// A way is taken for the mode when it is a highway and carries none of the
/// mode's excluded tag pairs.
pub open spec fn way_accepted(tags: Seq<(String, String)>, tag_pairs: Seq<(String, String)>) -> bool {
    &&& tag_value(tags, "highway"@) is Some
    &&& forall|j: int| 0 <= j < tag_pairs.len() ==> !has_tag(tags, (#[trigger] tag_pairs[j]).0@, tag_pairs[j].1@)
}

/// Whether a way with these tags is taken for the mode.
pub fn accepts_way(tags: &Vec<(String, String)>, settings: &Settings) -> (r: bool)
    ensures
        r == way_accepted(tags@, settings.tag_pairs@),
{
    let highway: String = "highway".to_owned();
    if get_tag(tags, &highway).is_none() {
        return false;
    }
    let mut j: usize = 0;
    while j < settings.tag_pairs.len()
        invariant
            0 <= j <= settings.tag_pairs.len(),
            tag_value(tags@, "highway"@) is Some,
            forall|q: int| 0 <= q < j ==> !has_tag(tags@, (#[trigger] settings.tag_pairs@[q]).0@, settings.tag_pairs@[q].1@),
        decreases settings.tag_pairs.len() - j,
    {
        let (k, v) = &settings.tag_pairs[j];
        let found = match get_tag(tags, k) {
            Some(t) => *t == *v,
            None => false,
        };
        if found {
            return false;
        }
        j += 1;
    }
    true
}

/// The directions in which a way may be traversed in a mode: always forward;
/// backward unless the mode is not walking and the way is tagged
/// `oneway=yes`, where cycling keeps it when the way is tagged
/// `oneway:bicycle=no`.
pub open spec fn access(tags: Seq<(String, String)>, mode: Seq<char>) -> (bool, bool) {
    let oneway = mode != "walk"@ && has_tag(tags, "oneway"@, "yes"@);
    let cycling_exempt = mode != "walk"@ && mode == "cycling"@ && has_tag(tags, "oneway:bicycle"@, "no"@);
    (true, !oneway || cycling_exempt)
}

/// The directions in which a way with these tags may be traversed.
pub fn oneway_access(tags: &Vec<(String, String)>, settings: &Settings) -> (r: (bool, bool))
    ensures
        r == access(tags@, settings.mode@),
{
    let forward = true;
    let mut backward = true;
    if settings.mode != "walk".to_owned() {
        if tag_is(tags, "oneway", "yes") {
            backward = false;
        }
        if settings.mode == "cycling".to_owned() {
            if tag_is(tags, "oneway:bicycle", "no") {
                backward = true;
            }
        }
    }
    (forward, backward)
}

/// The ways taken for the mode, in order: accepted ways, each id once (the
/// first accepted way with an id is kept), with their directions.
pub open spec fn selected_ways(raws: Seq<RawWay>, tag_pairs: Seq<(String, String)>, mode: Seq<char>) -> Seq<WayView>
    decreases raws.len(),
{
    if raws.len() == 0 {
        Seq::empty()
    } else {
        let prev = selected_ways(raws.drop_last(), tag_pairs, mode);
        let r = raws.last();
        if way_accepted(r.tags@, tag_pairs) && !prev.map_values(|w: WayView| w.id).contains(r.id) {
            let a = access(r.tags@, mode);
            prev.push(WayView { id: r.id, nodes: r.node_ids@, forward: a.0, backward: a.1 })
        } else {
            prev
        }
    }
}

fn copy_ids(v: &Vec<i64>) -> (r: Vec<i64>)
    ensures
        r@ == v@,
{
    let mut out: Vec<i64> = Vec::new();
    let mut k: usize = 0;
    while k < v.len()
        invariant
            0 <= k <= v.len(),
            out@ == v@.take(k as int),
        decreases v.len() - k,
    {
        out.push(v[k]);
        k += 1;
        assert(out@ =~= v@.take(k as int));
    }
    assert(v@.take(k as int) =~= v@);
    out
}

/// Picks the ways that the mode uses (see `selected_ways`).
pub fn select_ways(raw_ways: &Vec<RawWay>, settings: &Settings) -> (r: Vec<Way>)
    ensures
        crate::topology::views(r@) == selected_ways(raw_ways@, settings.tag_pairs@, settings.mode@),
{
    let mut ways: Vec<Way> = Vec::new();
    let mut unique_ways: HashSet<i64> = HashSet::new();
    let mut i: usize = 0;
    assert(raw_ways@.take(0) =~= Seq::<RawWay>::empty());
    assert(crate::topology::views(ways@) =~= Seq::<WayView>::empty());
    while i < raw_ways.len()
        invariant
            0 <= i <= raw_ways.len(),
            crate::topology::views(ways@) == selected_ways(raw_ways@.take(i as int), settings.tag_pairs@, settings.mode@),
            forall|id: i64| #[trigger] unique_ways@.contains(id) <==> crate::topology::views(ways@).map_values(|w: WayView| w.id).contains(id),
        decreases raw_ways.len() - i,
    {
        let raw = &raw_ways[i];
        assert(raw_ways@.take(i + 1).drop_last() =~= raw_ways@.take(i as int));
        assert(raw_ways@.take(i + 1).last() == raw_ways@[i as int]);
        let ghost prev = crate::topology::views(ways@);
        if accepts_way(&raw.tags, settings) && !unique_ways.contains(&raw.id) {
            let (forward, backward) = oneway_access(&raw.tags, settings);
            let node_ids = copy_ids(&raw.node_ids);
            let w = Way { id: raw.id, node_ids, forward, backward };
            let ghost prev_unique = unique_ways@;
            ways.push(w);
            unique_ways.insert(raw.id);
            proof {
                let now = crate::topology::views(ways@);
                assert(now =~= prev.push(w@));
                let ids = now.map_values(|v: WayView| v.id);
                let prev_ids = prev.map_values(|v: WayView| v.id);
                assert(ids =~= prev_ids.push(raw.id));
                assert forall|id: i64| #[trigger] unique_ways@.contains(id) <==> ids.contains(id) by {
                    if id != raw.id {
                        assert(unique_ways@.contains(id) == prev_unique.contains(id));
                        if ids.contains(id) {
                            let q = choose|q: int| 0 <= q < ids.len() && #[trigger] ids[q] == id;
                            assert(prev_ids[q] == id);
                        }
                        if prev_ids.contains(id) {
                            let q = choose|q: int| 0 <= q < prev_ids.len() && #[trigger] prev_ids[q] == id;
                            assert(ids[q] == id);
                        }
                    } else {
                        assert(ids[ids.len() - 1] == id);
                    }
                }
            }
        }
        i += 1;
    }
    assert(raw_ways@.take(i as int) =~= raw_ways@);
    ways
}

} // verus!
