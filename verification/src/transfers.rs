//! Footpaths between stops: as the feed says, inside stations, and between stops close by.
//!
//! Which pairs of stops come into question is found first. The caller measures each pair, and the
//! footpaths follow from the measures.

use crate::data as d;
use crate::data::NOT_SET;
use crate::feed as f;
use crate::feed::{Feed, PathwayView};
use crate::grid;
use crate::gtfs as g;
use crate::gtfs::GtfsData;
use std::collections::{HashMap, HashSet};
use vstd::prelude::*;

verus! {

/// A footpath from one stop to another.
#[derive(Debug, Clone, Copy)]
pub struct Transfer {
    pub from_stop_idx: u32,
    pub to_stop_idx: u32,
    pub walk_seconds: u32,
    pub dist_meters: u32,
}

/// Two stops between which there may be a footpath.
#[derive(Debug, Clone, Copy)]
pub struct Candidate {
    pub from: u32,
    pub to: u32,
    /// Walking time, if it is known beforehand.
    pub secs: Option<u32>,
    /// Least walking time otherwise.
    pub least: u32,
    /// The distance follows from the walking time.
    pub paced: bool,
    /// The footpath leads back too.
    pub both: bool,
    /// There is a footpath only if the stops are near each other.
    pub near_only: bool,
}

/// What was measured between two stops.
#[derive(Debug, Clone, Copy)]
pub struct Measure {
    /// Metres, rounded down.
    pub metres: u32,
    /// Walking time in seconds, rounded down.
    pub secs: u32,
    /// The stops are near each other.
    pub near: bool,
}

// ---------------------------------------------------------------------------
// Candidates
// ---------------------------------------------------------------------------

/// Least seconds for a transfer that the feed lists without a time.
pub const LEAST_LISTED_SECS: u32 = 60;

/// Least seconds between two platforms of a station.
pub const LEAST_PLATFORM_SECS: u32 = 120;

/// Least seconds between an entrance and a platform of a station.
pub const LEAST_ENTRANCE_SECS: u32 = 60;

/// Least seconds between stops close by.
pub const LEAST_NEARBY_SECS: u32 = 30;

/// The station of a stop, or `NOT_SET`.
pub open spec fn parent_of(x: Feed, i: int) -> u32 {
    let p = x.stops[i].parent;
    if p.len() > 0 && x.stop_index.contains_key(p) {
        x.stop_index[p]
    } else {
        NOT_SET
    }
}

/// The candidates among the first `n` transfers of the feed. One that is not possible is none, and
/// one that is timed leads one way.
pub open spec fn listed(x: Feed, n: int) -> Seq<Candidate>
    decreases n,
{
    if n <= 0 {
        Seq::empty()
    } else {
        let front = listed(x, n - 1);
        let l = x.links[n - 1];
        if x.stop_index.contains_key(l.from) && x.stop_index.contains_key(l.to) && l.kind != 3 {
            front.push(
                Candidate {
                    from: x.stop_index[l.from],
                    to: x.stop_index[l.to],
                    secs: if l.min_time > 0 {
                        Some(l.min_time)
                    } else {
                        None
                    },
                    least: LEAST_LISTED_SECS,
                    paced: l.min_time > 0,
                    both: l.kind != 1,
                    near_only: false,
                },
            )
        } else {
            front
        }
    }
}

/// Time of the last of the first `n` pathways that leads from `a` to `b`.
pub open spec fn pathway_secs(
    ps: Seq<PathwayView>,
    a: Seq<char>,
    b: Seq<char>,
    n: int,
) -> Option<u32>
    decreases n,
{
    if n <= 0 {
        None
    } else {
        let p = ps[n - 1];
        if (p.from == a && p.to == b) || (p.both_ways && p.from == b && p.to == a) {
            Some(p.secs)
        } else {
            pathway_secs(ps, a, b, n - 1)
        }
    }
}

/// Time of a pathway between two stops, in either direction.
pub open spec fn way_secs(x: Feed, i: u32, j: u32) -> Option<u32> {
    let a = x.stops[i as int].id;
    let b = x.stops[j as int].id;
    let n = x.pathways.len() as int;
    match pathway_secs(x.pathways, a, b, n) {
        Some(s) => Some(s),
        None => pathway_secs(x.pathways, b, a, n),
    }
}

/// The first `n` stops of the given type that belong to station `st`.
pub open spec fn station_stops(x: Feed, st: int, kind: u8, n: int) -> Seq<u32>
    decreases n,
{
    if n <= 0 {
        Seq::empty()
    } else {
        let front = station_stops(x, st, kind, n - 1);
        if parent_of(x, n - 1) == st && x.stops[n - 1].location_type == kind
            && x.stops[st].location_type == 1 {
            front.push((n - 1) as u32)
        } else {
            front
        }
    }
}

pub open spec fn inside_pair(x: Feed, i: u32, j: u32, least: u32) -> Candidate {
    Candidate {
        from: i,
        to: j,
        secs: way_secs(x, i, j),
        least,
        paced: true,
        both: true,
        near_only: false,
    }
}

/// Stop `i` with each of the first `n` of some stops, from the `from`-th on.
pub open spec fn pairs_with(
    x: Feed,
    i: u32,
    others: Seq<u32>,
    from: int,
    n: int,
    least: u32,
) -> Seq<Candidate>
    decreases n - from,
{
    if n <= from {
        Seq::empty()
    } else {
        pairs_with(x, i, others, from, n - 1, least).push(inside_pair(x, i, others[n - 1], least))
    }
}

/// Pairs of platforms, led by the first `n` of them.
pub open spec fn platform_pairs(x: Feed, ps: Seq<u32>, n: int) -> Seq<Candidate>
    decreases n,
{
    if n <= 0 {
        Seq::empty()
    } else {
        platform_pairs(x, ps, n - 1) + pairs_with(
            x,
            ps[n - 1],
            ps,
            n,
            ps.len() as int,
            LEAST_PLATFORM_SECS,
        )
    }
}

/// Pairs of an entrance and a platform, led by the first `n` entrances.
pub open spec fn entrance_pairs(x: Feed, es: Seq<u32>, ps: Seq<u32>, n: int) -> Seq<Candidate>
    decreases n,
{
    if n <= 0 {
        Seq::empty()
    } else {
        entrance_pairs(x, es, ps, n - 1) + pairs_with(
            x,
            es[n - 1],
            ps,
            0,
            ps.len() as int,
            LEAST_ENTRANCE_SECS,
        )
    }
}

/// The candidates inside the first `n` stations.
pub open spec fn inside_stations(x: Feed, n: int) -> Seq<Candidate>
    decreases n,
{
    if n <= 0 {
        Seq::empty()
    } else {
        let all = x.stops.len() as int;
        let ps = station_stops(x, n - 1, 0, all);
        let es = station_stops(x, n - 1, 2, all);
        inside_stations(x, n - 1) + platform_pairs(x, ps, ps.len() as int) + entrance_pairs(
            x,
            es,
            ps,
            es.len() as int,
        )
    }
}

/// Stops to board at.
pub open spec fn boardable(x: Feed) -> Seq<bool> {
    Seq::new(x.stops.len(), |i: int| x.stops[i].location_type == 0)
}

/// Stop `i` is to be paired with stop `j`: each pair once, and not inside one station.
pub open spec fn pairs_off(x: Feed, i: int, j: u32) -> bool {
    i < j && !(parent_of(x, i) != NOT_SET && parent_of(x, i) == parent_of(x, j as int))
}

pub open spec fn nearby_pair(i: u32, j: u32) -> Candidate {
    Candidate {
        from: i,
        to: j,
        secs: None,
        least: LEAST_NEARBY_SECS,
        paced: false,
        both: true,
        near_only: true,
    }
}

/// Stop `i` with the first `n` of some stops that it is to be paired with.
pub open spec fn nearby_of(x: Feed, i: int, around: Seq<u32>, n: int) -> Seq<Candidate>
    decreases n,
{
    if n <= 0 {
        Seq::empty()
    } else {
        let front = nearby_of(x, i, around, n - 1);
        if pairs_off(x, i, around[n - 1]) {
            front.push(nearby_pair(i as u32, around[n - 1]))
        } else {
            front
        }
    }
}

/// The candidates among stops at most `radius` cells from each other, led by the first `n` stops.
pub open spec fn nearby(x: Feed, cells: Seq<(i32, i32)>, radius: u8, n: int) -> Seq<Candidate>
    decreases n,
{
    if n <= 0 {
        Seq::empty()
    } else if x.stops[n - 1].location_type != 0 {
        nearby(x, cells, radius, n - 1)
    } else {
        let around = grid::members_around(
            cells,
            boardable(x),
            cells[n - 1].0 as int,
            cells[n - 1].1 as int,
            radius as int,
        );
        nearby(x, cells, radius, n - 1) + nearby_of(x, n - 1, around, around.len() as int)
    }
}

/// All candidates, in order.
pub open spec fn candidates(x: Feed, cells: Seq<(i32, i32)>, radius: u8) -> Seq<Candidate> {
    listed(x, x.links.len() as int) + inside_stations(x, x.stops.len() as int) + nearby(
        x,
        cells,
        radius,
        x.stops.len() as int,
    )
}

fn listed_candidates(gtfs: &GtfsData) -> (r: Vec<Candidate>)
    ensures
        r@ == listed(gtfs@, gtfs@.links.len() as int),
{
    let ghost x = gtfs@;
    let mut out: Vec<Candidate> = Vec::new();
    let mut i: usize = 0;
    while i < gtfs.raw_transfers.len()
        invariant
            i <= gtfs.raw_transfers@.len(),
            x == gtfs@,
            out@ == listed(x, i as int),
        decreases gtfs.raw_transfers@.len() - i,
    {
        let l = &gtfs.raw_transfers[i];
        assert(x.links[i as int] == l@);
        match (
            gtfs.stop_id_map.get(l.from_stop_id.as_str()),
            gtfs.stop_id_map.get(l.to_stop_id.as_str()),
        ) {
            (Some(from), Some(to)) => {
                if l.transfer_type != 3 {
                    let timed: bool = l.min_transfer_time > 0;
                    out.push(
                        Candidate {
                            from: *from,
                            to: *to,
                            secs: if timed {
                                Some(l.min_transfer_time)
                            } else {
                                None
                            },
                            least: LEAST_LISTED_SECS,
                            paced: timed,
                            both: l.transfer_type != 1,
                            near_only: false,
                        },
                    );
                }
            },
            _ => {},
        }
        i += 1;
    }
    out
}

/// The station of every stop.
fn parents(gtfs: &GtfsData) -> (r: Vec<u32>)
    ensures
        r@ == Seq::new(gtfs@.stops.len(), |i: int| parent_of(gtfs@, i)),
{
    let ghost x = gtfs@;
    let mut out: Vec<u32> = Vec::new();
    let mut i: usize = 0;
    while i < gtfs.stops.len()
        invariant
            i <= gtfs.stops@.len(),
            x == gtfs@,
            out@ == Seq::new(i as nat, |k: int| parent_of(x, k)),
        decreases gtfs.stops@.len() - i,
    {
        let s = &gtfs.stops[i];
        assert(x.stops[i as int] == s@);
        let mut p: u32 = NOT_SET;
        if s.parent_station.as_str().unicode_len() > 0 {
            match gtfs.stop_id_map.get(s.parent_station.as_str()) {
                Some(k) => {
                    p = *k;
                },
                None => {},
            }
        }
        out.push(p);
        i += 1;
        assert(out@ =~= Seq::new(i as nat, |k: int| parent_of(x, k)));
    }
    out
}

/// For each stop, the stops of the given type that belong to it as a station.
fn stops_by_station(gtfs: &GtfsData, parent: &Vec<u32>, kind: u8) -> (r: Vec<Vec<u32>>)
    requires
        gtfs.wf(),
        gtfs@.stops.len() <= u32::MAX,
        parent@ == Seq::new(gtfs@.stops.len(), |i: int| parent_of(gtfs@, i)),
    ensures
        r@.len() == gtfs@.stops.len(),
        forall|st: int|
            0 <= st < r@.len() ==> (#[trigger] r@[st])@ == station_stops(
                gtfs@,
                st,
                kind,
                gtfs@.stops.len() as int,
            ),
{
    let ghost x = gtfs@;
    let n: usize = gtfs.stops.len();
    let mut out: Vec<Vec<u32>> = Vec::new();
    let mut k: usize = 0;
    while k < n
        invariant
            k <= n,
            out@.len() == k,
            forall|st: int| 0 <= st < k ==> (#[trigger] out@[st])@.len() == 0,
        decreases n - k,
    {
        out.push(Vec::new());
        k += 1;
    }
    assert forall|st: int| 0 <= st < n implies (#[trigger] out@[st])@ == station_stops(
        x,
        st,
        kind,
        0,
    ) by {
        assert(out@[st]@ =~= Seq::<u32>::empty());
    }
    let mut i: usize = 0;
    while i < n
        invariant
            i <= n,
            n == gtfs.stops@.len(),
            n <= u32::MAX,
            x == gtfs@,
            gtfs.wf(),
            parent@ == Seq::new(x.stops.len(), |k: int| parent_of(x, k)),
            out@.len() == n,
            forall|st: int|
                0 <= st < n ==> (#[trigger] out@[st])@ == station_stops(x, st, kind, i as int),
        decreases n - i,
    {
        let p: u32 = parent[i];
        let ghost before = out@;
        assert(x.stops[i as int] == gtfs.stops@[i as int]@);
        assert(p == parent_of(x, i as int));
        proof {
            if p != NOT_SET {
                assert(x.stop_index[x.stops[i as int].parent] < x.stops.len());
            }
        }
        if p != NOT_SET && gtfs.stops[i].location_type == kind {
            assert(x.stops[p as int] == gtfs.stops@[p as int]@);
            if gtfs.stops[p as usize].location_type == 1 {
                out[p as usize].push(i as u32);
            }
        }
        assert forall|st: int| 0 <= st < n implies (#[trigger] out@[st])@ == station_stops(
            x,
            st,
            kind,
            i as int + 1,
        ) by {
            assert(before[st]@ == station_stops(x, st, kind, i as int));
        }
        i += 1;
    }
    out
}

/// Key of a pair of indexes.
spec fn pair_key(a: u32, b: u32) -> int {
    a * 0x1_0000_0000 + b
}

fn key_of(a: u32, b: u32) -> (r: u64)
    ensures
        r == pair_key(a, b),
{
    a as u64 * 0x1_0000_0000 + b as u64
}

/// `map` holds the times of the first `n` pathways between stops that exist.
spec fn ways_ok(x: Feed, map: Map<u64, u32>, n: int) -> bool {
    forall|a: Seq<char>, b: Seq<char>|
        x.stop_index.contains_key(a) && x.stop_index.contains_key(b) ==> {
            let key = pair_key(x.stop_index[a], x.stop_index[b]) as u64;
            &&& map.contains_key(key) <==> #[trigger] pathway_secs(x.pathways, a, b, n) is Some
            &&& map.contains_key(key) ==> Some(map[key]) == pathway_secs(x.pathways, a, b, n)
        }
}

/// The stops of the feed are indexed by their ids.
spec fn indexed(x: Feed) -> bool {
    &&& x.stops.len() <= u32::MAX
    &&& x.stop_index == f::index_ids(f::stop_ids(x.stops))
}

proof fn lemma_ids(x: Feed, a: Seq<char>, b: Seq<char>)
    requires
        indexed(x),
        x.stop_index.contains_key(a),
        x.stop_index.contains_key(b),
    ensures
        x.stop_index[a] == x.stop_index[b] <==> a == b,
{
    f::lemma_index_ids(f::stop_ids(x.stops));
    let ids = f::stop_ids(x.stops);
    assert(ids[x.stop_index[a] as int] == a);
    assert(ids[x.stop_index[b] as int] == b);
}

proof fn lemma_ways_step(x: Feed, before: Map<u64, u32>, after: Map<u64, u32>, n: int)
    requires
        indexed(x),
        0 <= n < x.pathways.len(),
        ways_ok(x, before, n),
        ({
            let p = x.pathways[n];
            if x.stop_index.contains_key(p.from) && x.stop_index.contains_key(p.to) {
                let i = x.stop_index[p.from];
                let j = x.stop_index[p.to];
                let one = before.insert(pair_key(i, j) as u64, p.secs);
                after == if p.both_ways {
                    one.insert(pair_key(j, i) as u64, p.secs)
                } else {
                    one
                }
            } else {
                after == before
            }
        }),
    ensures
        ways_ok(x, after, n + 1),
{
    let p = x.pathways[n];
    assert forall|a: Seq<char>, b: Seq<char>|
        x.stop_index.contains_key(a) && x.stop_index.contains_key(b) implies {
        let key = pair_key(x.stop_index[a], x.stop_index[b]) as u64;
        &&& after.contains_key(key) <==> #[trigger] pathway_secs(x.pathways, a, b, n + 1) is Some
        &&& after.contains_key(key) ==> Some(after[key]) == pathway_secs(x.pathways, a, b, n + 1)
    } by {
        let key = pair_key(x.stop_index[a], x.stop_index[b]) as u64;
        assert(before.contains_key(key) <==> pathway_secs(x.pathways, a, b, n) is Some);
        if x.stop_index.contains_key(p.from) && x.stop_index.contains_key(p.to) {
            lemma_ids(x, a, p.from);
            lemma_ids(x, a, p.to);
            lemma_ids(x, b, p.from);
            lemma_ids(x, b, p.to);
        }
    }
}

/// Times of pathways by the stops they join.
fn pathway_times(gtfs: &GtfsData) -> (r: HashMap<u64, u32>)
    requires
        indexed(gtfs@),
    ensures
        ways_ok(gtfs@, r@, gtfs@.pathways.len() as int),
{
    broadcast use vstd::std_specs::hash::group_hash_axioms;

    let ghost x = gtfs@;
    let mut map: HashMap<u64, u32> = HashMap::new();
    let mut i: usize = 0;
    while i < gtfs.pathways.len()
        invariant
            i <= gtfs.pathways@.len(),
            x == gtfs@,
            indexed(x),
            ways_ok(x, map@, i as int),
        decreases gtfs.pathways@.len() - i,
    {
        let p = &gtfs.pathways[i];
        assert(x.pathways[i as int] == p@);
        let ghost before = map@;
        match (
            gtfs.stop_id_map.get(p.from_stop_id.as_str()),
            gtfs.stop_id_map.get(p.to_stop_id.as_str()),
        ) {
            (Some(a), Some(b)) => {
                map.insert(key_of(*a, *b), p.traversal_time);
                if p.is_bidirectional {
                    map.insert(key_of(*b, *a), p.traversal_time);
                }
            },
            _ => {},
        }
        proof {
            lemma_ways_step(x, before, map@, i as int);
        }
        i += 1;
    }
    map
}

/// Time of a pathway between two stops, in either direction.
fn way_between(gtfs: &GtfsData, ways: &HashMap<u64, u32>, i: u32, j: u32) -> (r: Option<u32>)
    requires
        indexed(gtfs@),
        ways_ok(gtfs@, ways@, gtfs@.pathways.len() as int),
        i < gtfs@.stops.len(),
        j < gtfs@.stops.len(),
    ensures
        r == way_secs(gtfs@, i, j),
{
    broadcast use vstd::std_specs::hash::group_hash_axioms;

    let ghost x = gtfs@;
    proof {
        let ids = f::stop_ids(x.stops);
        f::lemma_index_ids(ids);
        assert(x.stops[i as int] == gtfs.stops@[i as int]@);
        assert(x.stops[j as int] == gtfs.stops@[j as int]@);
        assert(ids[i as int] == x.stops[i as int].id);
        assert(ids[j as int] == x.stops[j as int].id);
        assert(ids.contains(x.stops[i as int].id));
        assert(ids.contains(x.stops[j as int].id));
        let a = x.stops[i as int].id;
        let b = x.stops[j as int].id;
        let n = x.pathways.len() as int;
        assert(pathway_secs(x.pathways, a, b, n) is Some || pathway_secs(x.pathways, a, b, n)
            is None);
        assert(pathway_secs(x.pathways, b, a, n) is Some || pathway_secs(x.pathways, b, a, n)
            is None);
    }
    match (
        gtfs.stop_id_map.get(gtfs.stops[i as usize].stop_id.as_str()),
        gtfs.stop_id_map.get(gtfs.stops[j as usize].stop_id.as_str()),
    ) {
        (Some(a), Some(b)) => match ways.get(&key_of(*a, *b)) {
            Some(s) => Some(*s),
            None => match ways.get(&key_of(*b, *a)) {
                Some(s) => Some(*s),
                None => None,
            },
        },
        _ => None,
    }
}

/// Adds stop `i` paired with each of some stops, from the `from`-th on.
fn push_pairs(
    gtfs: &GtfsData,
    ways: &HashMap<u64, u32>,
    i: u32,
    others: &Vec<u32>,
    from: usize,
    least: u32,
    out: &mut Vec<Candidate>,
)
    requires
        indexed(gtfs@),
        ways_ok(gtfs@, ways@, gtfs@.pathways.len() as int),
        i < gtfs@.stops.len(),
        d::all_below(others@, gtfs@.stops.len() as int),
        from <= others@.len(),
    ensures
        final(out)@ == old(out)@ + pairs_with(
            gtfs@,
            i,
            others@,
            from as int,
            others@.len() as int,
            least,
        ),
{
    let ghost x = gtfs@;
    let mut k: usize = from;
    assert(out@ =~= old(out)@ + pairs_with(x, i, others@, from as int, k as int, least));
    while k < others.len()
        invariant
            from <= k <= others@.len(),
            x == gtfs@,
            indexed(x),
            ways_ok(x, ways@, x.pathways.len() as int),
            i < x.stops.len(),
            d::all_below(others@, x.stops.len() as int),
            out@ == old(out)@ + pairs_with(x, i, others@, from as int, k as int, least),
        decreases others@.len() - k,
    {
        let j: u32 = others[k];
        let ghost before = pairs_with(x, i, others@, from as int, k as int, least);
        out.push(
            Candidate {
                from: i,
                to: j,
                secs: way_between(gtfs, ways, i, j),
                least,
                paced: true,
                both: true,
                near_only: false,
            },
        );
        k += 1;
        assert(out@ =~= old(out)@ + before.push(inside_pair(x, i, j, least)));
    }
}

proof fn lemma_station_below(x: Feed, st: int, kind: u8, n: int)
    requires
        n <= u32::MAX,
    ensures
        d::all_below(station_stops(x, st, kind, n), n),
    decreases n,
{
    if n > 0 {
        lemma_station_below(x, st, kind, n - 1);
        let front = station_stops(x, st, kind, n - 1);
        let s = station_stops(x, st, kind, n);
        assert forall|k: int| 0 <= k < s.len() implies #[trigger] s[k] < n by {
            if k < front.len() {
                assert(s[k] == front[k]);
            }
        }
    }
}

/// Adds the pairs inside one station.
fn push_station(
    gtfs: &GtfsData,
    ways: &HashMap<u64, u32>,
    platforms: &Vec<u32>,
    entrances: &Vec<u32>,
    out: &mut Vec<Candidate>,
)
    requires
        indexed(gtfs@),
        ways_ok(gtfs@, ways@, gtfs@.pathways.len() as int),
        d::all_below(platforms@, gtfs@.stops.len() as int),
        d::all_below(entrances@, gtfs@.stops.len() as int),
    ensures
        final(out)@ == old(out)@ + platform_pairs(
            gtfs@,
            platforms@,
            platforms@.len() as int,
        ) + entrance_pairs(gtfs@, entrances@, platforms@, entrances@.len() as int),
{
    let ghost x = gtfs@;
    let mut i: usize = 0;
    assert(out@ =~= old(out)@ + platform_pairs(x, platforms@, 0));
    while i < platforms.len()
        invariant
            i <= platforms@.len(),
            x == gtfs@,
            indexed(x),
            ways_ok(x, ways@, x.pathways.len() as int),
            d::all_below(platforms@, x.stops.len() as int),
            out@ == old(out)@ + platform_pairs(x, platforms@, i as int),
        decreases platforms@.len() - i,
    {
        let ghost before = platform_pairs(x, platforms@, i as int);
        push_pairs(gtfs, ways, platforms[i], platforms, i + 1, LEAST_PLATFORM_SECS, out);
        i += 1;
        assert(out@ =~= old(out)@ + platform_pairs(x, platforms@, i as int));
    }
    let ghost mid = out@;
    let mut e: usize = 0;
    assert(out@ =~= mid + entrance_pairs(x, entrances@, platforms@, 0));
    while e < entrances.len()
        invariant
            e <= entrances@.len(),
            x == gtfs@,
            indexed(x),
            ways_ok(x, ways@, x.pathways.len() as int),
            d::all_below(platforms@, x.stops.len() as int),
            d::all_below(entrances@, x.stops.len() as int),
            out@ == mid + entrance_pairs(x, entrances@, platforms@, e as int),
        decreases entrances@.len() - e,
    {
        push_pairs(gtfs, ways, entrances[e], platforms, 0, LEAST_ENTRANCE_SECS, out);
        e += 1;
        assert(out@ =~= mid + entrance_pairs(x, entrances@, platforms@, e as int));
    }
}

/// Adds the pairs inside stations.
fn push_stations(gtfs: &GtfsData, parent: &Vec<u32>, out: &mut Vec<Candidate>)
    requires
        gtfs.wf(),
        indexed(gtfs@),
        parent@ == Seq::new(gtfs@.stops.len(), |i: int| parent_of(gtfs@, i)),
    ensures
        final(out)@ == old(out)@ + inside_stations(gtfs@, gtfs@.stops.len() as int),
{
    let ghost x = gtfs@;
    let ways = pathway_times(gtfs);
    let platforms = stops_by_station(gtfs, parent, 0);
    let entrances = stops_by_station(gtfs, parent, 2);
    let mut st: usize = 0;
    assert(out@ =~= old(out)@ + inside_stations(x, 0));
    while st < gtfs.stops.len()
        invariant
            st <= gtfs.stops@.len(),
            x == gtfs@,
            indexed(x),
            ways_ok(x, ways@, x.pathways.len() as int),
            platforms@.len() == x.stops.len(),
            entrances@.len() == x.stops.len(),
            forall|k: int|
                0 <= k < platforms@.len() ==> (#[trigger] platforms@[k])@ == station_stops(
                    x,
                    k,
                    0,
                    x.stops.len() as int,
                ),
            forall|k: int|
                0 <= k < entrances@.len() ==> (#[trigger] entrances@[k])@ == station_stops(
                    x,
                    k,
                    2,
                    x.stops.len() as int,
                ),
            out@ == old(out)@ + inside_stations(x, st as int),
        decreases gtfs.stops@.len() - st,
    {
        proof {
            lemma_station_below(x, st as int, 0, x.stops.len() as int);
            lemma_station_below(x, st as int, 2, x.stops.len() as int);
            assert(platforms@[st as int]@ == station_stops(
                x,
                st as int,
                0,
                x.stops.len() as int,
            ));
            assert(entrances@[st as int]@ == station_stops(
                x,
                st as int,
                2,
                x.stops.len() as int,
            ));
        }
        push_station(gtfs, &ways, &platforms[st], &entrances[st], out);
        st += 1;
        assert(out@ =~= old(out)@ + inside_stations(x, st as int));
    }
}

/// Adds the pairs of stops in cells next to each other.
fn push_nearby(
    gtfs: &GtfsData,
    parent: &Vec<u32>,
    cells: &Vec<(i32, i32)>,
    radius: u8,
    out: &mut Vec<Candidate>,
)
    requires
        cells@.len() == gtfs@.stops.len(),
        gtfs@.stops.len() <= u32::MAX,
        parent@ == Seq::new(gtfs@.stops.len(), |i: int| parent_of(gtfs@, i)),
    ensures
        final(out)@ == old(out)@ + nearby(gtfs@, cells@, radius, gtfs@.stops.len() as int),
{
    let ghost x = gtfs@;
    let n: usize = gtfs.stops.len();
    let mut pick: Vec<bool> = Vec::new();
    let mut k: usize = 0;
    while k < n
        invariant
            k <= n,
            n == gtfs.stops@.len(),
            x == gtfs@,
            pick@ == boardable(x).take(k as int),
        decreases n - k,
    {
        assert(x.stops[k as int] == gtfs.stops@[k as int]@);
        pick.push(gtfs.stops[k].location_type == 0);
        k += 1;
        assert(pick@ =~= boardable(x).take(k as int));
    }
    assert(pick@ =~= boardable(x));
    let map = grid::build(cells, &pick);
    let mut i: usize = 0;
    assert(out@ =~= old(out)@ + nearby(x, cells@, radius, 0));
    while i < n
        invariant
            i <= n,
            n == gtfs.stops@.len(),
            n <= u32::MAX,
            x == gtfs@,
            cells@.len() == n,
            pick@ == boardable(x),
            parent@ == Seq::new(x.stops.len(), |k: int| parent_of(x, k)),
            grid::lists_members(map@, cells@, pick@, cells@.len() as int),
            out@ == old(out)@ + nearby(x, cells@, radius, i as int),
        decreases n - i,
    {
        assert(x.stops[i as int] == gtfs.stops@[i as int]@);
        if gtfs.stops[i].location_type == 0 {
            let (gx, gy) = cells[i];
            let around = grid::around(&map, gx, gy, radius);
            proof {
                let w = 2 * radius + 1;
                grid::lemma_block(map@, cells@, pick@, gx - radius, gy - radius, w, w);
                grid::lemma_around_below(cells@, pick@, gx - radius, gy - radius, w, w);
                assert(around@ == grid::members_around(
                    cells@,
                    pick@,
                    gx as int,
                    gy as int,
                    radius as int,
                ));
            }
            let ghost base = out@;
            let mut j: usize = 0;
            assert(out@ =~= base + nearby_of(x, i as int, around@, 0));
            while j < around.len()
                invariant
                    j <= around@.len(),
                    i < n,
                    n == gtfs.stops@.len(),
                    n <= u32::MAX,
                    x == gtfs@,
                    parent@ == Seq::new(x.stops.len(), |k: int| parent_of(x, k)),
                    d::all_below(around@, n as int),
                    out@ == base + nearby_of(x, i as int, around@, j as int),
                decreases around@.len() - j,
            {
                let sj: u32 = around[j];
                assert(sj < n);
                if (i as u32) < sj && !(parent[i] != NOT_SET && parent[i] == parent[sj as usize]) {
                    assert(pairs_off(x, i as int, sj));
                    out.push(
                        Candidate {
                            from: i as u32,
                            to: sj,
                            secs: None,
                            least: LEAST_NEARBY_SECS,
                            paced: false,
                            both: true,
                            near_only: true,
                        },
                    );
                }
                j += 1;
                assert(out@ =~= base + nearby_of(x, i as int, around@, j as int));
            }
        }
        i += 1;
        assert(out@ =~= old(out)@ + nearby(x, cells@, radius, i as int));
    }
}

/// The pairs of stops between which there may be a footpath. `cells` holds the grid cell of each
/// stop.
pub fn transfer_candidates(gtfs: &GtfsData, cells: &Vec<(i32, i32)>, radius: u8) -> (r: Vec<
    Candidate,
>)
    requires
        gtfs.wf(),
        gtfs@.stops.len() <= u32::MAX,
        cells@.len() == gtfs@.stops.len(),
    ensures
        r@ == candidates(gtfs@, cells@, radius),
{
    let mut out = listed_candidates(gtfs);
    let parent = parents(gtfs);
    push_stations(gtfs, &parent, &mut out);
    push_nearby(gtfs, &parent, cells, radius, &mut out);
    out
}

// ---------------------------------------------------------------------------
// Footpaths
// ---------------------------------------------------------------------------

/// Metres walked in some seconds, at 1.2 metres per second.
pub open spec fn metres_in(secs: u32) -> u32 {
    if secs * 6 / 5 <= u32::MAX {
        (secs * 6 / 5) as u32
    } else {
        u32::MAX
    }
}

/// Walking time of a candidate.
pub open spec fn secs_of(c: Candidate, m: Measure) -> u32 {
    match c.secs {
        Some(s) => s,
        None => if m.secs > c.least {
            m.secs
        } else {
            c.least
        },
    }
}

/// Distance of a candidate.
pub open spec fn metres_of(c: Candidate, m: Measure) -> u32 {
    if c.paced {
        metres_in(secs_of(c, m))
    } else {
        m.metres
    }
}

/// Some footpath leads from `from` to `to`.
pub open spec fn joined(ts: Seq<Transfer>, from: u32, to: u32) -> bool {
    exists|i: int|
        0 <= i < ts.len() && (#[trigger] ts[i]).from_stop_idx == from && ts[i].to_stop_idx == to
}

/// Adds a footpath, unless it leads nowhere or the stops are joined already.
pub open spec fn add_transfer(
    ts: Seq<Transfer>,
    from: u32,
    to: u32,
    secs: u32,
    metres: u32,
) -> Seq<Transfer> {
    if from == to || joined(ts, from, to) {
        ts
    } else {
        ts.push(
            Transfer {
                from_stop_idx: from,
                to_stop_idx: to,
                walk_seconds: secs,
                dist_meters: metres,
            },
        )
    }
}

/// The footpaths of the first `n` candidates.
pub open spec fn transfers_of(cs: Seq<Candidate>, ms: Seq<Measure>, n: int) -> Seq<Transfer>
    decreases n,
{
    if n <= 0 {
        Seq::empty()
    } else {
        let before = transfers_of(cs, ms, n - 1);
        let c = cs[n - 1];
        let m = ms[n - 1];
        if c.near_only && !m.near {
            before
        } else {
            let one = add_transfer(before, c.from, c.to, secs_of(c, m), metres_of(c, m));
            if c.both {
                add_transfer(one, c.to, c.from, secs_of(c, m), metres_of(c, m))
            } else {
                one
            }
        }
    }
}

/// `seen` holds the keys of the footpaths.
spec fn seen_ok(seen: Set<u64>, ts: Seq<Transfer>) -> bool {
    forall|from: u32, to: u32|
        seen.contains(#[trigger] pair_key(from, to) as u64) <==> joined(ts, from, to)
}

/// Adds a footpath, unless it leads nowhere or the stops are joined already.
fn push_transfer(
    ts: &mut Vec<Transfer>,
    seen: &mut HashSet<u64>,
    from: u32,
    to: u32,
    secs: u32,
    metres: u32,
)
    requires
        seen_ok(old(seen)@, old(ts)@),
    ensures
        final(ts)@ == add_transfer(old(ts)@, from, to, secs, metres),
        seen_ok(final(seen)@, final(ts)@),
{
    broadcast use vstd::std_specs::hash::group_hash_axioms;

    if from == to {
        return ;
    }
    let key: u64 = key_of(from, to);
    if seen.contains(&key) {
        return ;
    }
    let ghost before = ts@;
    seen.insert(key);
    ts.push(
        Transfer {
            from_stop_idx: from,
            to_stop_idx: to,
            walk_seconds: secs,
            dist_meters: metres,
        },
    );
    proof {
        assert forall|a: u32, b: u32|
            seen@.contains(#[trigger] pair_key(a, b) as u64) <==> joined(ts@, a, b) by {
            if joined(before, a, b) {
                let i = choose|i: int|
                    0 <= i < before.len() && (#[trigger] before[i]).from_stop_idx == a
                        && before[i].to_stop_idx == b;
                assert(ts@[i].from_stop_idx == a);
            }
            if a == from && b == to {
                assert(ts@[before.len() as int].from_stop_idx == a);
            } else {
                assert(pair_key(a, b) as u64 != key);
                if joined(ts@, a, b) {
                    let i = choose|i: int|
                        0 <= i < ts@.len() && (#[trigger] ts@[i]).from_stop_idx == a
                            && ts@[i].to_stop_idx == b;
                    assert(before[i].from_stop_idx == a);
                }
            }
        }
    }
}

/// The footpaths that follow from what was measured of the candidates.
pub fn compute_transfers(cs: &Vec<Candidate>, ms: &Vec<Measure>) -> (r: Vec<Transfer>)
    requires
        ms@.len() == cs@.len(),
    ensures
        r@ == transfers_of(cs@, ms@, cs@.len() as int),
{
    broadcast use vstd::std_specs::hash::group_hash_axioms;

    let mut ts: Vec<Transfer> = Vec::new();
    let mut seen: HashSet<u64> = HashSet::new();
    let mut i: usize = 0;
    while i < cs.len()
        invariant
            i <= cs@.len(),
            ms@.len() == cs@.len(),
            ts@ == transfers_of(cs@, ms@, i as int),
            seen_ok(seen@, ts@),
        decreases cs@.len() - i,
    {
        let c = cs[i];
        let m = ms[i];
        if !(c.near_only && !m.near) {
            let secs: u32 = match c.secs {
                Some(s) => s,
                None => if m.secs > c.least {
                    m.secs
                } else {
                    c.least
                },
            };
            let metres: u32 = if c.paced {
                let sum: u64 = secs as u64 * 6 / 5;
                if sum <= u32::MAX as u64 {
                    sum as u32
                } else {
                    u32::MAX
                }
            } else {
                m.metres
            };
            push_transfer(&mut ts, &mut seen, c.from, c.to, secs, metres);
            if c.both {
                push_transfer(&mut ts, &mut seen, c.to, c.from, secs, metres);
            }
        }
        i += 1;
    }
    ts
}

/// No footpath leads from a stop to itself, and no two join the same stops the same way.
pub open spec fn proper(ts: Seq<Transfer>) -> bool {
    &&& forall|i: int|
        0 <= i < ts.len() ==> (#[trigger] ts[i]).from_stop_idx != ts[i].to_stop_idx
    &&& forall|i: int, j: int|
        0 <= i < j < ts.len() ==> !((#[trigger] ts[i]).from_stop_idx == (
        #[trigger] ts[j]).from_stop_idx && ts[i].to_stop_idx == ts[j].to_stop_idx)
}

proof fn lemma_add_proper(ts: Seq<Transfer>, from: u32, to: u32, secs: u32, metres: u32)
    requires
        proper(ts),
    ensures
        proper(add_transfer(ts, from, to, secs, metres)),
{
}

/// The footpaths are proper.
pub proof fn transfers_are_proper(cs: Seq<Candidate>, ms: Seq<Measure>, n: int)
    ensures
        proper(transfers_of(cs, ms, n)),
    decreases n,
{
    if n > 0 {
        transfers_are_proper(cs, ms, n - 1);
        let before = transfers_of(cs, ms, n - 1);
        let c = cs[n - 1];
        let m = ms[n - 1];
        let one = add_transfer(before, c.from, c.to, secs_of(c, m), metres_of(c, m));
        lemma_add_proper(before, c.from, c.to, secs_of(c, m), metres_of(c, m));
        lemma_add_proper(one, c.to, c.from, secs_of(c, m), metres_of(c, m));
    }
}

proof fn lemma_add_joins(
    ts: Seq<Transfer>,
    from: u32,
    to: u32,
    secs: u32,
    metres: u32,
    a: u32,
    b: u32,
)
    ensures
        joined(add_transfer(ts, from, to, secs, metres), a, b) <==> joined(ts, a, b) || (a == from
            && b == to && from != to),
{
    let out = add_transfer(ts, from, to, secs, metres);
    if joined(ts, a, b) {
        let i = choose|i: int|
            0 <= i < ts.len() && (#[trigger] ts[i]).from_stop_idx == a && ts[i].to_stop_idx == b;
        assert(out[i].from_stop_idx == a);
    }
    if out.len() > ts.len() && a == from && b == to {
        assert(out[ts.len() as int].from_stop_idx == a);
    }
    if joined(out, a, b) {
        let i = choose|i: int|
            0 <= i < out.len() && (#[trigger] out[i]).from_stop_idx == a && out[i].to_stop_idx == b;
        if i < ts.len() {
            assert(ts[i].from_stop_idx == a);
        }
    }
}

/// Candidate `i` stands for a footpath from `a` to `b`.
pub open spec fn stands_for(c: Candidate, m: Measure, a: u32, b: u32) -> bool {
    &&& !(c.near_only && !m.near)
    &&& (c.from == a && c.to == b) || (c.both && c.to == a && c.from == b)
}

/// Two different stops are joined if and only if some candidate stands for it.
pub proof fn joined_iff_candidate(cs: Seq<Candidate>, ms: Seq<Measure>, n: int, a: u32, b: u32)
    requires
        a != b,
        0 <= n,
    ensures
        joined(transfers_of(cs, ms, n), a, b) <==> exists|i: int|
            0 <= i < n && #[trigger] stands_for(cs[i], ms[i], a, b),
    decreases n,
{
    if n > 0 {
        joined_iff_candidate(cs, ms, n - 1, a, b);
        let before = transfers_of(cs, ms, n - 1);
        let c = cs[n - 1];
        let m = ms[n - 1];
        let one = add_transfer(before, c.from, c.to, secs_of(c, m), metres_of(c, m));
        lemma_add_joins(before, c.from, c.to, secs_of(c, m), metres_of(c, m), a, b);
        lemma_add_joins(one, c.to, c.from, secs_of(c, m), metres_of(c, m), a, b);
        if joined(transfers_of(cs, ms, n), a, b) {
            if joined(before, a, b) {
                let i = choose|i: int| 0 <= i < n - 1 && #[trigger] stands_for(cs[i], ms[i], a, b);
                assert(stands_for(cs[i], ms[i], a, b));
            } else {
                assert(stands_for(cs[n - 1], ms[n - 1], a, b));
            }
        }
    } else {
        assert(!joined(transfers_of(cs, ms, n), a, b));
    }
}

/// The stops of a candidate exist.
pub open spec fn candidate_ok(c: Candidate, num_stops: int) -> bool {
    c.from < num_stops && c.to < num_stops
}

/// The stops of all candidates exist.
pub open spec fn candidates_ok(cs: Seq<Candidate>, num_stops: int) -> bool {
    forall|i: int| 0 <= i < cs.len() ==> candidate_ok(#[trigger] cs[i], num_stops)
}

proof fn lemma_join_ok(a: Seq<Candidate>, b: Seq<Candidate>, num_stops: int)
    requires
        candidates_ok(a, num_stops),
        candidates_ok(b, num_stops),
    ensures
        candidates_ok(a + b, num_stops),
{
    let s = a + b;
    assert forall|i: int| 0 <= i < s.len() implies candidate_ok(#[trigger] s[i], num_stops) by {
        if i < a.len() {
            assert(s[i] == a[i]);
        } else {
            assert(s[i] == b[i - a.len()]);
        }
    }
}

proof fn lemma_listed_ok(x: Feed, n: int)
    requires
        g::feed_wf(x),
    ensures
        candidates_ok(listed(x, n), x.stops.len() as int),
    decreases n,
{
    if n > 0 {
        lemma_listed_ok(x, n - 1);
        let l = x.links[n - 1];
        if x.stop_index.contains_key(l.from) && x.stop_index.contains_key(l.to) {
            assert(x.stop_index[l.from] < x.stops.len());
            assert(x.stop_index[l.to] < x.stops.len());
        }
    }
}

proof fn lemma_station_stops_below(x: Feed, st: int, kind: u8, n: int)
    requires
        0 <= n <= x.stops.len() <= u32::MAX,
    ensures
        forall|k: int|
            0 <= k < station_stops(x, st, kind, n).len() ==> #[trigger] station_stops(
                x,
                st,
                kind,
                n,
            )[k] < x.stops.len(),
    decreases n,
{
    if n > 0 {
        lemma_station_stops_below(x, st, kind, n - 1);
        let front = station_stops(x, st, kind, n - 1);
        let all = station_stops(x, st, kind, n);
        assert forall|k: int| 0 <= k < all.len() implies #[trigger] all[k] < x.stops.len() by {
            if k < front.len() {
                assert(all[k] == front[k]);
            }
        }
    }
}

proof fn lemma_pairs_ok(x: Feed, i: u32, others: Seq<u32>, from: int, n: int, least: u32)
    requires
        i < x.stops.len(),
        0 <= from,
        n <= others.len(),
        forall|k: int| 0 <= k < others.len() ==> #[trigger] others[k] < x.stops.len(),
    ensures
        candidates_ok(pairs_with(x, i, others, from, n, least), x.stops.len() as int),
    decreases n - from,
{
    if n > from {
        lemma_pairs_ok(x, i, others, from, n - 1, least);
        assert(others[n - 1] < x.stops.len());
    }
}

proof fn lemma_platforms_ok(x: Feed, ps: Seq<u32>, n: int)
    requires
        n <= ps.len(),
        forall|k: int| 0 <= k < ps.len() ==> #[trigger] ps[k] < x.stops.len(),
    ensures
        candidates_ok(platform_pairs(x, ps, n), x.stops.len() as int),
    decreases n,
{
    if n > 0 {
        lemma_platforms_ok(x, ps, n - 1);
        assert(ps[n - 1] < x.stops.len());
        lemma_pairs_ok(x, ps[n - 1], ps, n, ps.len() as int, LEAST_PLATFORM_SECS);
        lemma_join_ok(
            platform_pairs(x, ps, n - 1),
            pairs_with(x, ps[n - 1], ps, n, ps.len() as int, LEAST_PLATFORM_SECS),
            x.stops.len() as int,
        );
    }
}

proof fn lemma_entrances_ok(x: Feed, es: Seq<u32>, ps: Seq<u32>, n: int)
    requires
        n <= es.len(),
        forall|k: int| 0 <= k < es.len() ==> #[trigger] es[k] < x.stops.len(),
        forall|k: int| 0 <= k < ps.len() ==> #[trigger] ps[k] < x.stops.len(),
    ensures
        candidates_ok(entrance_pairs(x, es, ps, n), x.stops.len() as int),
    decreases n,
{
    if n > 0 {
        lemma_entrances_ok(x, es, ps, n - 1);
        assert(es[n - 1] < x.stops.len());
        lemma_pairs_ok(x, es[n - 1], ps, 0, ps.len() as int, LEAST_ENTRANCE_SECS);
        lemma_join_ok(
            entrance_pairs(x, es, ps, n - 1),
            pairs_with(x, es[n - 1], ps, 0, ps.len() as int, LEAST_ENTRANCE_SECS),
            x.stops.len() as int,
        );
    }
}

proof fn lemma_inside_ok(x: Feed, n: int)
    requires
        x.stops.len() <= u32::MAX,
    ensures
        candidates_ok(inside_stations(x, n), x.stops.len() as int),
    decreases n,
{
    if n > 0 {
        lemma_inside_ok(x, n - 1);
        let all = x.stops.len() as int;
        let ps = station_stops(x, n - 1, 0, all);
        let es = station_stops(x, n - 1, 2, all);
        lemma_station_stops_below(x, n - 1, 0, all);
        lemma_station_stops_below(x, n - 1, 2, all);
        lemma_platforms_ok(x, ps, ps.len() as int);
        lemma_entrances_ok(x, es, ps, es.len() as int);
        let front = inside_stations(x, n - 1);
        lemma_join_ok(front, platform_pairs(x, ps, ps.len() as int), all);
        lemma_join_ok(
            front + platform_pairs(x, ps, ps.len() as int),
            entrance_pairs(x, es, ps, es.len() as int),
            all,
        );
    }
}

proof fn lemma_nearby_of_ok(x: Feed, i: int, around: Seq<u32>, n: int)
    requires
        0 <= i < x.stops.len() <= u32::MAX,
        n <= around.len(),
        forall|k: int| 0 <= k < around.len() ==> #[trigger] around[k] < x.stops.len(),
    ensures
        candidates_ok(nearby_of(x, i, around, n), x.stops.len() as int),
    decreases n,
{
    if n > 0 {
        lemma_nearby_of_ok(x, i, around, n - 1);
        assert(around[n - 1] < x.stops.len());
    }
}

proof fn lemma_nearby_ok(x: Feed, cells: Seq<(i32, i32)>, radius: u8, n: int)
    requires
        x.stops.len() <= u32::MAX,
        cells.len() == x.stops.len(),
        n <= x.stops.len(),
    ensures
        candidates_ok(nearby(x, cells, radius, n), x.stops.len() as int),
    decreases n,
{
    if n > 0 {
        lemma_nearby_ok(x, cells, radius, n - 1);
        if x.stops[n - 1].location_type == 0 {
            let (gy, gx) = (cells[n - 1].0 as int, cells[n - 1].1 as int);
            let around = grid::members_around(cells, boardable(x), gy, gx, radius as int);
            let w = 2 * radius + 1;
            grid::lemma_around_below(cells, boardable(x), gy - radius, gx - radius, w, w);
            lemma_nearby_of_ok(x, n - 1, around, around.len() as int);
            lemma_join_ok(
                nearby(x, cells, radius, n - 1),
                nearby_of(x, n - 1, around, around.len() as int),
                x.stops.len() as int,
            );
        }
    }
}

proof fn lemma_transfers_ok(cs: Seq<Candidate>, ms: Seq<Measure>, n: int, num_stops: int)
    requires
        candidates_ok(cs, num_stops),
        n <= cs.len(),
    ensures
        forall|i: int|
            0 <= i < transfers_of(cs, ms, n).len() ==> ({
                let t = #[trigger] transfers_of(cs, ms, n)[i];
                t.from_stop_idx < num_stops && t.to_stop_idx < num_stops
            }),
    decreases n,
{
    if n > 0 {
        lemma_transfers_ok(cs, ms, n - 1, num_stops);
        assert(candidate_ok(cs[n - 1], num_stops));
        let before = transfers_of(cs, ms, n - 1);
        let all = transfers_of(cs, ms, n);
        assert forall|i: int| 0 <= i < all.len() implies (#[trigger] all[i]).from_stop_idx
            < num_stops && all[i].to_stop_idx < num_stops by {
            if i < before.len() {
                assert(all[i] == before[i]);
            }
        }
    }
}

/// The footpaths of a feed join stops that exist.
pub proof fn footpaths_join_stops(
    x: Feed,
    cells: Seq<(i32, i32)>,
    radius: u8,
    ms: Seq<Measure>,
    i: int,
)
    requires
        g::feed_wf(x),
        x.stops.len() <= u32::MAX,
        cells.len() == x.stops.len(),
        ({
            let cs = candidates(x, cells, radius);
            0 <= i < transfers_of(cs, ms, cs.len() as int).len()
        }),
    ensures
        candidates_ok(candidates(x, cells, radius), x.stops.len() as int),
        ({
            let cs = candidates(x, cells, radius);
            let t = transfers_of(cs, ms, cs.len() as int)[i];
            t.from_stop_idx < x.stops.len() && t.to_stop_idx < x.stops.len()
        }),
{
    let n = x.stops.len() as int;
    lemma_listed_ok(x, x.links.len() as int);
    lemma_inside_ok(x, n);
    lemma_nearby_ok(x, cells, radius, n);
    let front = listed(x, x.links.len() as int);
    lemma_join_ok(front, inside_stations(x, n), n);
    lemma_join_ok(front + inside_stations(x, n), nearby(x, cells, radius, n), n);
    let cs = candidates(x, cells, radius);
    lemma_transfers_ok(cs, ms, cs.len() as int, n);
}

proof fn lemma_nearby_of_lists(x: Feed, i: int, around: Seq<u32>, n: int, k: int)
    requires
        0 <= k < n <= around.len(),
        pairs_off(x, i, around[k]),
    ensures
        nearby_of(x, i, around, n).contains(nearby_pair(i as u32, around[k])),
    decreases n,
{
    let front = nearby_of(x, i, around, n - 1);
    let all = nearby_of(x, i, around, n);
    if k == n - 1 {
        assert(all[front.len() as int] == nearby_pair(i as u32, around[k]));
    } else {
        lemma_nearby_of_lists(x, i, around, n - 1, k);
        let p = choose|p: int|
            0 <= p < front.len() && front[p] == nearby_pair(i as u32, around[k]);
        assert(all[p] == front[p]);
    }
}

proof fn lemma_nearby_lists(
    x: Feed,
    cells: Seq<(i32, i32)>,
    radius: u8,
    n: int,
    i: int,
    j: int,
)
    requires
        cells.len() == x.stops.len() <= u32::MAX,
        0 <= i < n <= x.stops.len(),
        0 <= j < x.stops.len(),
        x.stops[i].location_type == 0,
        x.stops[j].location_type == 0,
        pairs_off(x, i, j as u32),
        -radius <= cells[j].0 - cells[i].0 <= radius,
        -radius <= cells[j].1 - cells[i].1 <= radius,
    ensures
        nearby(x, cells, radius, n).contains(nearby_pair(i as u32, j as u32)),
    decreases n,
{
    let pair = nearby_pair(i as u32, j as u32);
    let front = nearby(x, cells, radius, n - 1);
    let all = nearby(x, cells, radius, n);
    if i == n - 1 {
        let (gy, gx) = (cells[i].0 as int, cells[i].1 as int);
        let around = grid::members_around(cells, boardable(x), gy, gx, radius as int);
        let w = 2 * radius + 1;
        grid::blocks_list_what_lies_in_them(
            cells,
            boardable(x),
            gy - radius,
            gx - radius,
            w,
            w,
            j,
        );
        let k = choose|k: int| 0 <= k < around.len() && around[k] == j as u32;
        let own = nearby_of(x, i, around, around.len() as int);
        lemma_nearby_of_lists(x, i, around, around.len() as int, k);
        let p = choose|p: int| 0 <= p < own.len() && own[p] == pair;
        assert(all[front.len() + p] == pair);
    } else {
        lemma_nearby_lists(x, cells, radius, n - 1, i, j);
        let p = choose|p: int| 0 <= p < front.len() && front[p] == pair;
        assert(all[p] == pair);
    }
}

/// Two stops to board at, not of one station and at most `radius` cells from each other, are joined
/// if they are measured to be near.
pub proof fn near_stops_are_joined(
    x: Feed,
    cells: Seq<(i32, i32)>,
    radius: u8,
    ms: Seq<Measure>,
    i: int,
    j: int,
)
    requires
        cells.len() == x.stops.len() <= u32::MAX,
        0 <= i < x.stops.len(),
        0 <= j < x.stops.len(),
        x.stops[i].location_type == 0,
        x.stops[j].location_type == 0,
        pairs_off(x, i, j as u32),
        -radius <= cells[j].0 - cells[i].0 <= radius,
        -radius <= cells[j].1 - cells[i].1 <= radius,
        forall|k: int|
            0 <= k < candidates(x, cells, radius).len() && #[trigger] candidates(
                x,
                cells,
                radius,
            )[k] == nearby_pair(i as u32, j as u32) ==> ms[k].near,
    ensures
        ({
            let cs = candidates(x, cells, radius);
            let ts = transfers_of(cs, ms, cs.len() as int);
            joined(ts, i as u32, j as u32) && joined(ts, j as u32, i as u32)
        }),
{
    let n = x.stops.len() as int;
    let cs = candidates(x, cells, radius);
    let pair = nearby_pair(i as u32, j as u32);
    lemma_nearby_lists(x, cells, radius, n, i, j);
    let own = nearby(x, cells, radius, n);
    let p = choose|p: int| 0 <= p < own.len() && own[p] == pair;
    let k = cs.len() - own.len() + p;
    assert(cs[k] == pair);
    assert(stands_for(cs[k], ms[k], i as u32, j as u32));
    assert(stands_for(cs[k], ms[k], j as u32, i as u32));
    joined_iff_candidate(cs, ms, cs.len() as int, i as u32, j as u32);
    joined_iff_candidate(cs, ms, cs.len() as int, j as u32, i as u32);
}

} // verus!
