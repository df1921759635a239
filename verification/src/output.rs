//! Putting a timetable together for storage.

use crate::data::{
    Agency, FrequencyRule, Route, Service, Stop, Transfer, Trip, WalkEdge, WalkNode, NOT_SET,
};
use crate::feed as f;
use crate::feed::{AgencyView, FareUseView, Feed, FrequencyView, StopTimesView, StopView};
use crate::columns::READ_LIMIT;
use crate::file;
use crate::gtfs::{FrequencyEntry, GtfsData, RawFareRule};
use crate::lists;
use crate::message as msg;
use crate::message::{
    AgencyRecord, FareRecord, Message, MessageView, RouteRecord, ServiceRecord, StopRecord,
    StoredFare, TripRecord,
};
use crate::pattern::{EncodedService, PatternView, RoutePattern};
use crate::streets as st;
use crate::streets::{EdgeView, GraphView, StreetGraph};
use crate::text as t;
use crate::transfers as tr;
use vstd::hash_map::StringHashMap;
use vstd::prelude::*;

verus! {

// ---------------------------------------------------------------------------
// Footpaths
// ---------------------------------------------------------------------------

/// A number that may take two bytes at most.
pub open spec fn capped(x: int) -> u16 {
    if x <= u16::MAX {
        x as u16
    } else {
        u16::MAX
    }
}

fn cap(x: u32) -> (r: u16)
    ensures
        r == capped(x as int),
{
    if x <= u16::MAX as u32 {
        x as u16
    } else {
        u16::MAX
    }
}

pub open spec fn stored_transfer(x: tr::Transfer) -> Transfer {
    Transfer {
        to_stop_idx: x.to_stop_idx,
        walk_seconds: capped(x.walk_seconds as int),
        dist_meters: capped(x.dist_meters as int),
    }
}

/// The footpaths that leave a stop, of the first `n`.
pub open spec fn leaving(ts: Seq<tr::Transfer>, stop: int, n: int) -> Seq<Transfer>
    decreases n,
{
    if n <= 0 {
        Seq::empty()
    } else if ts[n - 1].from_stop_idx == stop {
        leaving(ts, stop, n - 1).push(stored_transfer(ts[n - 1]))
    } else {
        leaving(ts, stop, n - 1)
    }
}

/// The footpaths that leave the first `n` stops, stop by stop.
pub open spec fn grouped(ts: Seq<tr::Transfer>, n: int) -> Seq<Transfer>
    decreases n,
{
    if n <= 0 {
        Seq::empty()
    } else {
        grouped(ts, n - 1) + leaving(ts, n - 1, ts.len() as int)
    }
}

/// Placed after every footpath that leaves from the same or an earlier stop.
pub open spec fn insert_by_stop(s: Seq<tr::Transfer>, x: tr::Transfer) -> Seq<tr::Transfer>
    decreases s.len(),
{
    if s.len() == 0 || s.last().from_stop_idx <= x.from_stop_idx {
        s.push(x)
    } else {
        insert_by_stop(s.drop_last(), x).push(s.last())
    }
}

/// Of the first `n` footpaths, those that leave none of the given number of stops.
pub open spec fn astray(ts: Seq<tr::Transfer>, num_stops: int, n: int) -> Seq<tr::Transfer>
    decreases n,
{
    if n <= 0 {
        Seq::empty()
    } else if ts[n - 1].from_stop_idx >= num_stops {
        insert_by_stop(astray(ts, num_stops, n - 1), ts[n - 1])
    } else {
        astray(ts, num_stops, n - 1)
    }
}

/// All footpaths in order of the stop they leave from.
pub open spec fn stored_transfers(ts: Seq<tr::Transfer>, num_stops: int) -> Seq<Transfer> {
    grouped(ts, num_stops) + astray(ts, num_stops, ts.len() as int).map_values(
        |x: tr::Transfer| stored_transfer(x),
    )
}

/// Where the footpaths of a stop begin, and how many there are. Zero if there are none.
pub open spec fn transfer_range(ts: Seq<tr::Transfer>, stop: int) -> (int, int) {
    let count = leaving(ts, stop, ts.len() as int).len() as int;
    if count == 0 {
        (0, 0)
    } else {
        (grouped(ts, stop).len() as int, count)
    }
}

fn store_transfer(x: &tr::Transfer) -> (r: Transfer)
    ensures
        r == stored_transfer(*x),
{
    Transfer {
        to_stop_idx: x.to_stop_idx,
        walk_seconds: cap(x.walk_seconds),
        dist_meters: cap(x.dist_meters),
    }
}

/// Inserts a footpath in order.
fn insert_transfer(s: &mut Vec<tr::Transfer>, x: tr::Transfer)
    ensures
        final(s)@ == insert_by_stop(old(s)@, x),
{
    let ghost before = s@;
    let mut k: usize = s.len();
    let ghost mut tail: Seq<tr::Transfer> = Seq::empty();
    assert(before.take(k as int) =~= before);
    assert(insert_by_stop(before.take(k as int), x) + tail =~= insert_by_stop(before, x));
    while k > 0 && s[k - 1].from_stop_idx > x.from_stop_idx
        invariant
            k <= s@.len(),
            s@ == before,
            tail == before.skip(k as int),
            insert_by_stop(before.take(k as int), x) + tail == insert_by_stop(before, x),
        decreases k,
    {
        proof {
            let front = before.take(k as int);
            assert(front.drop_last() =~= before.take(k - 1));
            assert(insert_by_stop(front, x) + tail =~= insert_by_stop(before.take(k - 1), x) + (
            seq![front.last()] + tail));
            assert(seq![front.last()] + tail =~= before.skip(k - 1));
            tail = before.skip(k - 1);
        }
        k -= 1;
    }
    s.insert(k, x);
    assert(s@ =~= before.take(k as int).push(x) + before.skip(k as int));
}

/// Puts footpaths in order of the stop they leave from, with the range of each stop.
fn group_transfers(ts: &Vec<tr::Transfer>, num_stops: usize) -> (r: (
    Vec<Transfer>,
    Vec<(usize, usize)>,
))
    ensures
        r.0@ == stored_transfers(ts@, num_stops as int),
        r.1@.len() == num_stops,
        forall|i: int|
            0 <= i < num_stops ==> ({
                let x = #[trigger] r.1@[i];
                (x.0 as int, x.1 as int) == transfer_range(ts@, i)
            }),
{
    let mut lists: Vec<Vec<Transfer>> = Vec::new();
    let mut k: usize = 0;
    while k < num_stops
        invariant
            k <= num_stops,
            lists@.len() == k,
            forall|j: int| 0 <= j < k ==> (#[trigger] lists@[j])@ == leaving(ts@, j, 0),
        decreases num_stops - k,
    {
        let v: Vec<Transfer> = Vec::new();
        assert(v@ =~= Seq::<Transfer>::empty());
        lists.push(v);
        k += 1;
    }
    let mut rest: Vec<tr::Transfer> = Vec::new();
    let mut i: usize = 0;
    while i < ts.len()
        invariant
            i <= ts@.len(),
            lists@.len() == num_stops,
            rest@ == astray(ts@, num_stops as int, i as int),
            forall|j: int|
                0 <= j < num_stops ==> (#[trigger] lists@[j])@ == leaving(ts@, j, i as int),
        decreases ts@.len() - i,
    {
        let x = ts[i];
        let ghost before = lists@;
        if (x.from_stop_idx as usize) < num_stops {
            lists[x.from_stop_idx as usize].push(store_transfer(&x));
        } else {
            insert_transfer(&mut rest, x);
        }
        assert forall|j: int| 0 <= j < num_stops implies (#[trigger] lists@[j])@ == leaving(
            ts@,
            j,
            i as int + 1,
        ) by {
            assert(before[j]@ == leaving(ts@, j, i as int));
        }
        i += 1;
    }
    let mut out: Vec<Transfer> = Vec::new();
    let mut ranges: Vec<(usize, usize)> = Vec::new();
    let mut s: usize = 0;
    while s < num_stops
        invariant
            s <= num_stops,
            lists@.len() == num_stops,
            forall|j: int|
                0 <= j < num_stops ==> (#[trigger] lists@[j])@ == leaving(
                    ts@,
                    j,
                    ts@.len() as int,
                ),
            out@ == grouped(ts@, s as int),
            ranges@.len() == s,
            forall|j: int|
                0 <= j < s ==> ({
                    let x = #[trigger] ranges@[j];
                    (x.0 as int, x.1 as int) == transfer_range(ts@, j)
                }),
        decreases num_stops - s,
    {
        let list = &lists[s];
        assert(list@ == leaving(ts@, s as int, ts@.len() as int));
        let start: usize = out.len();
        if list.len() == 0 {
            ranges.push((0, 0));
        } else {
            ranges.push((start, list.len()));
        }
        let ghost base = out@;
        let mut j: usize = 0;
        assert(out@ =~= base + list@.take(0));
        while j < list.len()
            invariant
                j <= list@.len(),
                out@ == base + list@.take(j as int),
            decreases list@.len() - j,
        {
            out.push(list[j]);
            j += 1;
            assert(out@ =~= base + list@.take(j as int));
        }
        assert(list@.take(j as int) =~= list@);
        s += 1;
    }
    let ghost base = out@;
    let ghost all = rest@.map_values(|x: tr::Transfer| stored_transfer(x));
    let mut j: usize = 0;
    assert(out@ =~= base + all.take(0));
    while j < rest.len()
        invariant
            j <= rest@.len(),
            all == rest@.map_values(|x: tr::Transfer| stored_transfer(x)),
            out@ == base + all.take(j as int),
        decreases rest@.len() - j,
    {
        out.push(store_transfer(&rest[j]));
        j += 1;
        assert(out@ =~= base + all.take(j as int));
    }
    assert(all.take(j as int) =~= all);
    (out, ranges)
}

// ---------------------------------------------------------------------------
// Patterns
// ---------------------------------------------------------------------------

/// The patterns among the first `n` that call at a stop.
pub open spec fn routes_at(ps: Seq<PatternView>, stop: u32, n: int) -> Seq<u32>
    decreases n,
{
    if n <= 0 {
        Seq::empty()
    } else if ps[n - 1].stops.contains(stop) {
        routes_at(ps, stop, n - 1).push((n - 1) as u32)
    } else {
        routes_at(ps, stop, n - 1)
    }
}

/// All patterns belong to existing routes and hold existing trips.
pub open spec fn patterns_within(ps: Seq<PatternView>, x: Feed) -> bool {
    &&& ps.len() <= u32::MAX
    &&& forall|p: int| 0 <= p < ps.len() ==> pattern_within(#[trigger] ps[p], x)
}

pub open spec fn pattern_within(p: PatternView, x: Feed) -> bool {
    &&& p.route < x.routes.len()
    &&& forall|k: int| 0 <= k < p.trips.len() ==> (#[trigger] p.trips[k]).0 < x.trips.len()
}

pub proof fn lemma_routes_at_below(ps: Seq<PatternView>, stop: u32, n: int)
    requires
        0 <= n <= u32::MAX,
    ensures
        forall|k: int|
            0 <= k < routes_at(ps, stop, n).len() ==> #[trigger] routes_at(ps, stop, n)[k] < n,
    decreases n,
{
    if n > 0 {
        lemma_routes_at_below(ps, stop, n - 1);
        let front = routes_at(ps, stop, n - 1);
        let all = routes_at(ps, stop, n);
        assert forall|k: int| 0 <= k < all.len() implies #[trigger] all[k] < n by {
            if k < front.len() {
                assert(all[k] == front[k]);
            }
        }
    }
}

/// For each stop, the patterns that call at it.
fn routes_by_stop(ps: &Vec<RoutePattern>, num_stops: usize) -> (r: Vec<Vec<u32>>)
    requires
        ps@.len() <= u32::MAX,
        num_stops <= u32::MAX,
    ensures
        r@.len() == num_stops,
        forall|s: int|
            0 <= s < num_stops ==> (#[trigger] r@[s])@ == routes_at(
                f::views(ps@),
                s as u32,
                ps@.len() as int,
            ),
{
    let ghost pv = f::views(ps@);
    let mut out: Vec<Vec<u32>> = Vec::new();
    let mut k: usize = 0;
    while k < num_stops
        invariant
            k <= num_stops,
            out@.len() == k,
            forall|s: int| 0 <= s < k ==> (#[trigger] out@[s])@ == routes_at(pv, s as u32, 0),
        decreases num_stops - k,
    {
        let v: Vec<u32> = Vec::new();
        assert(v@ =~= Seq::<u32>::empty());
        out.push(v);
        k += 1;
    }
    let mut p: usize = 0;
    while p < ps.len()
        invariant
            p <= ps@.len(),
            pv == f::views(ps@),
            ps@.len() <= u32::MAX,
            num_stops <= u32::MAX,
            out@.len() == num_stops,
            forall|s: int|
                0 <= s < num_stops ==> (#[trigger] out@[s])@ == routes_at(
                    pv,
                    s as u32,
                    p as int,
                ),
        decreases ps@.len() - p,
    {
        let stops = &ps[p].stop_idxs;
        assert(pv[p as int].stops == stops@);
        let ghost start = out@;
        let mut j: usize = 0;
        while j < stops.len()
            invariant
                j <= stops@.len(),
                p < ps@.len(),
                ps@.len() <= u32::MAX,
                num_stops <= u32::MAX,
                out@.len() == num_stops,
                start.len() == num_stops,
                forall|s: int|
                    0 <= s < num_stops ==> (#[trigger] start[s])@ == routes_at(
                        pv,
                        s as u32,
                        p as int,
                    ),
                forall|s: int|
                    0 <= s < num_stops ==> (#[trigger] out@[s])@ == (if stops@.take(
                        j as int,
                    ).contains(s as u32) {
                        start[s]@.push(p as u32)
                    } else {
                        start[s]@
                    }),
            decreases stops@.len() - j,
        {
            let s: usize = stops[j] as usize;
            let ghost before = out@;
            let ghost t0 = stops@.take(j as int);
            let ghost t1 = stops@.take(j as int + 1);
            proof {
                assert(t1 =~= t0.push(stops@[j as int]));
                assert(t1[j as int] == stops@[j as int]);
            }
            if s < num_stops {
                let n: usize = out[s].len();
                let seen: bool = n > 0 && out[s][n - 1] == p as u32;
                proof {
                    lemma_routes_at_below(pv, s as u32, p as int);
                    assert(start[s as int]@ == routes_at(pv, s as u32, p as int));
                    assert(before[s as int]@ == (if t0.contains(s as u32) {
                        start[s as int]@.push(p as u32)
                    } else {
                        start[s as int]@
                    }));
                    assert(seen == t0.contains(s as u32));
                }
                if !seen {
                    out[s].push(p as u32);
                }
            }
            assert forall|q: int| 0 <= q < num_stops implies (#[trigger] out@[q])@ == (
            if t1.contains(q as u32) {
                start[q]@.push(p as u32)
            } else {
                start[q]@
            }) by {
                assert(before[q]@ == (if t0.contains(q as u32) {
                    start[q]@.push(p as u32)
                } else {
                    start[q]@
                }));
                if t0.contains(q as u32) {
                    let i = choose|i: int| 0 <= i < t0.len() && t0[i] == q as u32;
                    assert(t1[i] == q as u32);
                }
                if t1.contains(q as u32) && q != s {
                    let i = choose|i: int| 0 <= i < t1.len() && t1[i] == q as u32;
                    assert(t0[i] == q as u32);
                }
            }
            j += 1;
        }
        proof {
            assert(stops@.take(j as int) =~= stops@);
            assert forall|s: int| 0 <= s < num_stops implies (#[trigger] out@[s])@ == routes_at(
                pv,
                s as u32,
                p as int + 1,
            ) by {
                assert(start[s]@ == routes_at(pv, s as u32, p as int));
            }
        }
        p += 1;
    }
    out
}

/// The last of the first `n` patterns that holds a trip, or `NOT_SET`.
pub open spec fn pattern_of_trip(ps: Seq<PatternView>, trip: u32, n: int) -> u32
    decreases n,
{
    if n <= 0 {
        NOT_SET
    } else if has_trip(ps[n - 1].trips, trip) {
        (n - 1) as u32
    } else {
        pattern_of_trip(ps, trip, n - 1)
    }
}

pub open spec fn has_trip(trips: Seq<(u32, u32)>, trip: u32) -> bool {
    exists|k: int| 0 <= k < trips.len() && (#[trigger] trips[k]).0 == trip
}

/// For each trip, the pattern that holds it.
fn patterns_by_trip(ps: &Vec<RoutePattern>, num_trips: usize, Ghost(x): Ghost<Feed>) -> (r: Vec<u32>)
    requires
        patterns_within(f::views(ps@), x),
        num_trips == x.trips.len(),
        num_trips <= u32::MAX,
    ensures
        r@.len() == num_trips,
        forall|i: int|
            0 <= i < num_trips ==> #[trigger] r@[i] == pattern_of_trip(
                f::views(ps@),
                i as u32,
                ps@.len() as int,
            ),
{
    let ghost pv = f::views(ps@);
    let mut out: Vec<u32> = Vec::new();
    let mut k: usize = 0;
    while k < num_trips
        invariant
            k <= num_trips,
            out@.len() == k,
            forall|i: int|
                0 <= i < k ==> #[trigger] out@[i] == pattern_of_trip(pv, i as u32, 0),
        decreases num_trips - k,
    {
        out.push(NOT_SET);
        k += 1;
    }
    let mut p: usize = 0;
    while p < ps.len()
        invariant
            p <= ps@.len(),
            pv == f::views(ps@),
            patterns_within(pv, x),
            num_trips == x.trips.len(),
            num_trips <= u32::MAX,
            out@.len() == num_trips,
            forall|i: int|
                0 <= i < num_trips ==> #[trigger] out@[i] == pattern_of_trip(
                    pv,
                    i as u32,
                    p as int,
                ),
        decreases ps@.len() - p,
    {
        let trips = &ps[p].trip_order;
        assert(pv[p as int].trips == trips@);
        assert(pattern_within(pv[p as int], x));
        let ghost start = out@;
        let mut j: usize = 0;
        while j < trips.len()
            invariant
                j <= trips@.len(),
                num_trips <= u32::MAX,
                out@.len() == num_trips,
                start.len() == num_trips,
                forall|i: int| 0 <= i < trips@.len() ==> (#[trigger] trips@[i]).0 < num_trips,
                forall|i: int|
                    0 <= i < num_trips ==> #[trigger] out@[i] == (if has_trip(
                        trips@.take(j as int),
                        i as u32,
                    ) {
                        p as u32
                    } else {
                        start[i]
                    }),
            decreases trips@.len() - j,
        {
            let i: usize = trips[j].0 as usize;
            let ghost before = out@;
            let ghost t0 = trips@.take(j as int);
            let ghost t1 = trips@.take(j as int + 1);
            assert(trips@[j as int].0 < num_trips);
            out[i] = p as u32;
            assert forall|q: int| 0 <= q < num_trips implies #[trigger] out@[q] == (if has_trip(
                t1,
                q as u32,
            ) {
                p as u32
            } else {
                start[q]
            }) by {
                assert(before[q] == (if has_trip(t0, q as u32) {
                    p as u32
                } else {
                    start[q]
                }));
                if has_trip(t0, q as u32) {
                    let w = choose|w: int| 0 <= w < t0.len() && (#[trigger] t0[w]).0 == q as u32;
                    assert(t1[w].0 == q as u32);
                }
                if q == i {
                    assert(t1[j as int].0 == q as u32);
                }
                if has_trip(t1, q as u32) && q != i {
                    let w = choose|w: int| 0 <= w < t1.len() && (#[trigger] t1[w]).0 == q as u32;
                    assert(t0[w].0 == q as u32);
                }
            }
            j += 1;
        }
        assert(trips@.take(j as int) =~= trips@);
        p += 1;
    }
    out
}

// ---------------------------------------------------------------------------
// Stop times
// ---------------------------------------------------------------------------

/// Times of a trip: arrivals or departures. Nothing is set if the trip has no times of its own.
pub open spec fn trip_times(x: Feed, p: PatternView, trip: u32, arrivals: bool) -> Seq<u32> {
    let id = x.trips[trip as int].id;
    if x.stop_times.contains_key(id) {
        known_times(x.stop_times[id], arrivals)
    } else {
        Seq::new(p.stops.len(), |i: int| NOT_SET)
    }
}

/// The times of the stops for which both are given.
pub open spec fn known_times(st: StopTimesView, arrivals: bool) -> Seq<u32> {
    let n = if st.arrivals.len() <= st.departures.len() {
        st.arrivals.len() as int
    } else {
        st.departures.len() as int
    };
    if arrivals {
        st.arrivals.take(n)
    } else {
        st.departures.take(n)
    }
}

/// Times of the first `n` trips of a pattern.
pub open spec fn pattern_times(x: Feed, p: PatternView, arrivals: bool, n: int) -> Seq<u32>
    decreases n,
{
    if n <= 0 {
        Seq::empty()
    } else {
        pattern_times(x, p, arrivals, n - 1) + trip_times(x, p, p.trips[n - 1].0, arrivals)
    }
}

/// Times of the first `n` patterns.
pub open spec fn all_times(x: Feed, ps: Seq<PatternView>, arrivals: bool, n: int) -> Seq<u32>
    decreases n,
{
    if n <= 0 {
        Seq::empty()
    } else {
        all_times(x, ps, arrivals, n - 1) + pattern_times(
            x,
            ps[n - 1],
            arrivals,
            ps[n - 1].trips.len() as int,
        )
    }
}

/// Packed times, written number by number.
struct Times {
    arrivals: Vec<u8>,
    departures: Vec<u8>,
    count: usize,
}

/// The bytes hold these times.
spec fn holds_times(w: Times, arrivals: Seq<u32>, departures: Seq<u32>) -> bool {
    &&& w.arrivals@ == msg::packed(arrivals)
    &&& w.departures@ == msg::packed(departures)
    &&& w.count == arrivals.len()
    &&& arrivals.len() == departures.len()
}

proof fn lemma_packed_push(s: Seq<u32>, x: u32)
    ensures
        msg::packed(s.push(x)) == msg::packed(s) + msg::bytes_of(x),
{
    assert(s.push(x).drop_last() =~= s);
}

fn write_time(w: &mut Times, arrival: u32, departure: u32, Ghost(arrivals): Ghost<Seq<u32>>, Ghost(
    departures,
): Ghost<Seq<u32>>)
    requires
        holds_times(*old(w), arrivals, departures),
    ensures
        holds_times(*final(w), arrivals.push(arrival), departures.push(departure)),
{
    proof {
        msg::lemma_packed_len(arrivals);
        lemma_packed_push(arrivals, arrival);
        lemma_packed_push(departures, departure);
    }
    assert(w.arrivals.len() == w.arrivals@.len());
    msg::pack_number(&mut w.arrivals, arrival);
    msg::pack_number(&mut w.departures, departure);
    w.count += 1;
}

/// Writes the times of a trip.
fn write_trip(
    w: &mut Times,
    gtfs: &GtfsData,
    p: &RoutePattern,
    trip: u32,
    Ghost(arrivals): Ghost<Seq<u32>>,
    Ghost(departures): Ghost<Seq<u32>>,
)
    requires
        holds_times(*old(w), arrivals, departures),
        trip < gtfs@.trips.len(),
    ensures
        holds_times(
            *final(w),
            arrivals + trip_times(gtfs@, p@, trip, true),
            departures + trip_times(gtfs@, p@, trip, false),
        ),
{
    let ghost a = trip_times(gtfs@, p@, trip, true);
    let ghost d = trip_times(gtfs@, p@, trip, false);
    assert(gtfs@.trips[trip as int] == gtfs.trips@[trip as int]@);
    let mut i: usize = 0;
    assert(arrivals + a.take(0) =~= arrivals);
    assert(departures + d.take(0) =~= departures);
    match gtfs.stop_times.get(gtfs.trips[trip as usize].trip_id.as_str()) {
        Some(st) => {
            assert(gtfs@.stop_times[gtfs@.trips[trip as int].id] == st@);
            while i < st.arrivals.len() && i < st.departures.len()
                invariant
                    i <= a.len(),
                    a == known_times(st@, true),
                    d == known_times(st@, false),
                    holds_times(*w, arrivals + a.take(i as int), departures + d.take(i as int)),
                decreases st.arrivals@.len() - i,
            {
                write_time(
                    w,
                    st.arrivals[i],
                    st.departures[i],
                    Ghost(arrivals + a.take(i as int)),
                    Ghost(departures + d.take(i as int)),
                );
                i += 1;
                proof {
                    assert(arrivals + a.take(i as int) =~= (arrivals + a.take(i - 1)).push(
                        a[i - 1],
                    ));
                    assert(departures + d.take(i as int) =~= (departures + d.take(i - 1)).push(
                        d[i - 1],
                    ));
                }
            }
        },
        None => {
            while i < p.stop_idxs.len()
                invariant
                    i <= a.len(),
                    a == Seq::new(p@.stops.len(), |k: int| NOT_SET),
                    d == a,
                    holds_times(*w, arrivals + a.take(i as int), departures + d.take(i as int)),
                decreases p.stop_idxs@.len() - i,
            {
                write_time(
                    w,
                    NOT_SET,
                    NOT_SET,
                    Ghost(arrivals + a.take(i as int)),
                    Ghost(departures + d.take(i as int)),
                );
                i += 1;
                proof {
                    assert(arrivals + a.take(i as int) =~= (arrivals + a.take(i - 1)).push(
                        a[i - 1],
                    ));
                    assert(departures + d.take(i as int) =~= (departures + d.take(i - 1)).push(
                        d[i - 1],
                    ));
                }
            }
        },
    }
    assert(a.take(i as int) =~= a);
    assert(d.take(i as int) =~= d);
}

/// Writes the times of a pattern.
fn write_pattern(
    w: &mut Times,
    gtfs: &GtfsData,
    p: &RoutePattern,
    Ghost(arrivals): Ghost<Seq<u32>>,
    Ghost(departures): Ghost<Seq<u32>>,
)
    requires
        holds_times(*old(w), arrivals, departures),
        pattern_within(p@, gtfs@),
    ensures
        holds_times(
            *final(w),
            arrivals + pattern_times(gtfs@, p@, true, p@.trips.len() as int),
            departures + pattern_times(gtfs@, p@, false, p@.trips.len() as int),
        ),
{
    let mut k: usize = 0;
    assert(arrivals + pattern_times(gtfs@, p@, true, 0) =~= arrivals);
    assert(departures + pattern_times(gtfs@, p@, false, 0) =~= departures);
    while k < p.trip_order.len()
        invariant
            k <= p.trip_order@.len(),
            pattern_within(p@, gtfs@),
            holds_times(
                *w,
                arrivals + pattern_times(gtfs@, p@, true, k as int),
                departures + pattern_times(gtfs@, p@, false, k as int),
            ),
        decreases p.trip_order@.len() - k,
    {
        let ghost a = arrivals + pattern_times(gtfs@, p@, true, k as int);
        let ghost d = departures + pattern_times(gtfs@, p@, false, k as int);
        assert(p@.trips[k as int].0 < gtfs@.trips.len());
        let trip: u32 = p.trip_order[k].0;
        write_trip(w, gtfs, p, trip, Ghost(a), Ghost(d));
        k += 1;
        proof {
            assert(a + trip_times(gtfs@, p@, trip, true) =~= arrivals + pattern_times(
                gtfs@,
                p@,
                true,
                k as int,
            ));
            assert(d + trip_times(gtfs@, p@, trip, false) =~= departures + pattern_times(
                gtfs@,
                p@,
                false,
                k as int,
            ));
        }
    }
}

// ---------------------------------------------------------------------------
// Records
// ---------------------------------------------------------------------------

pub open spec fn agency_record(a: AgencyView) -> AgencyRecord {
    AgencyRecord { id: a.id, name: a.name, url: a.url }
}

/// The value of a key, or a default.
pub open spec fn value_or(m: Map<Seq<char>, u32>, key: Seq<char>, default: u32) -> u32 {
    if m.contains_key(key) {
        m[key]
    } else {
        default
    }
}

fn get_or(m: &StringHashMap<u32>, key: &str, default: u32) -> (r: u32)
    ensures
        r == value_or(m@, key@, default),
{
    match m.get(key) {
        Some(v) => *v,
        None => default,
    }
}

/// The station of a stop, `NOT_SET` if it has none that is known.
pub open spec fn parent_index(x: Feed, s: StopView) -> u32 {
    if s.parent.len() == 0 {
        NOT_SET
    } else {
        value_or(x.stop_index, s.parent, NOT_SET)
    }
}

pub open spec fn stop_record(
    x: Feed,
    coords: Seq<(u64, u64)>,
    ps: Seq<PatternView>,
    ts: Seq<tr::Transfer>,
    links: Seq<u32>,
    i: int,
) -> StopRecord {
    let s = x.stops[i];
    let range = transfer_range(ts, i);
    StopRecord {
        id: s.id,
        name: s.name,
        lat: coords[i].0,
        lon: coords[i].1,
        location_type: s.location_type,
        parent_idx: parent_index(x, s),
        platform_code: s.platform,
        zone_id: s.zone,
        transfers_offset: range.0 as u32,
        num_transfers: capped((range.1 as u32) as int),
        route_idxs: routes_at(ps, i as u32, ps.len() as int),
        walk_node_idx: if i < links.len() {
            links[i]
        } else {
            NOT_SET
        },
    }
}

pub open spec fn stop_records(
    x: Feed,
    coords: Seq<(u64, u64)>,
    ps: Seq<PatternView>,
    ts: Seq<tr::Transfer>,
    links: Seq<u32>,
) -> Seq<StopRecord> {
    Seq::new(x.stops.len(), |i: int| stop_record(x, coords, ps, ts, links, i))
}

pub open spec fn trip_numbers(p: PatternView) -> Seq<u32> {
    Seq::new(p.trips.len(), |k: int| p.trips[k].0)
}

pub open spec fn route_record(x: Feed, ps: Seq<PatternView>, i: int) -> RouteRecord {
    let p = ps[i];
    let r = x.routes[p.route as int];
    RouteRecord {
        id: r.id,
        short_name: r.short_name,
        long_name: r.long_name,
        route_type: r.route_type,
        color: r.color,
        text_color: r.text_color,
        agency_idx: value_or(x.agency_index, r.agency, 0) as u16,
        stop_idxs: p.stops,
        stop_times_offset: all_times(x, ps, true, i).len() as u32,
        num_trips: p.trips.len() as u32,
        trip_idxs: trip_numbers(p),
    }
}

pub open spec fn route_records(x: Feed, ps: Seq<PatternView>) -> Seq<RouteRecord> {
    Seq::new(ps.len(), |i: int| route_record(x, ps, i))
}

pub open spec fn service_record(e: EncodedService) -> ServiceRecord {
    ServiceRecord {
        id: e.id@,
        start_date: capped(e.start_epoch_days as int),
        day_bits: e.day_bits@,
    }
}

pub open spec fn rule_of(r: FrequencyView) -> FrequencyRule {
    FrequencyRule {
        start_time: r.start,
        end_time: r.end,
        headway_secs: r.headway,
        exact_times: r.exact,
    }
}

pub open spec fn trip_record(
    x: Feed,
    ps: Seq<PatternView>,
    service_index: Map<Seq<char>, u32>,
    i: int,
) -> TripRecord {
    let t = x.trips[i];
    TripRecord {
        id: t.id,
        route_idx: pattern_of_trip(ps, i as u32, ps.len() as int),
        service_idx: value_or(service_index, t.service, NOT_SET),
        headsign: t.headsign,
        direction_id: t.direction,
        frequency_rules: t.rules.map_values(|r: FrequencyView| rule_of(r)),
        template_first_departure: if t.rules.len() > 0 {
            t.first_departure
        } else {
            0
        },
    }
}

pub open spec fn trip_records(
    x: Feed,
    ps: Seq<PatternView>,
    service_index: Map<Seq<char>, u32>,
) -> Seq<TripRecord> {
    Seq::new(x.trips.len(), |i: int| trip_record(x, ps, service_index, i))
}

fn store_agencies(gtfs: &GtfsData) -> (r: Vec<Agency>)
    ensures
        f::views(r@) == gtfs@.agencies.map_values(|a: AgencyView| agency_record(a)),
{
    let mut out: Vec<Agency> = Vec::new();
    let ghost all = gtfs@.agencies.map_values(|a: AgencyView| agency_record(a));
    let mut i: usize = 0;
    assert(f::views(out@) =~= all.take(0));
    while i < gtfs.agencies.len()
        invariant
            i <= gtfs.agencies@.len(),
            all == gtfs@.agencies.map_values(|a: AgencyView| agency_record(a)),
            f::views(out@) == all.take(i as int),
        decreases gtfs.agencies@.len() - i,
    {
        let a = &gtfs.agencies[i];
        let x = Agency {
            id: t::copy_str(a.agency_id.as_str()),
            name: t::copy_str(a.agency_name.as_str()),
            url: t::copy_str(a.agency_url.as_str()),
        };
        proof {
            f::lemma_views_push(out@, x);
            assert(gtfs@.agencies[i as int] == a@);
            assert(x@ == all[i as int]);
            assert(all.take(i + 1) =~= all.take(i as int).push(all[i as int]));
        }
        out.push(x);
        i += 1;
    }
    assert(all.take(i as int) =~= all);
    out
}

fn store_stops(
    gtfs: &GtfsData,
    coords: &Vec<(u64, u64)>,
    ps: &Vec<RoutePattern>,
    ranges: &Vec<(usize, usize)>,
    links: &Vec<u32>,
    Ghost(ts): Ghost<Seq<tr::Transfer>>,
) -> (r: Vec<Stop>)
    requires
        ps@.len() <= u32::MAX,
        gtfs@.stops.len() <= u32::MAX,
        coords@.len() == gtfs@.stops.len(),
        ranges@.len() == gtfs@.stops.len(),
        forall|i: int|
            0 <= i < ranges@.len() ==> ({
                let x = #[trigger] ranges@[i];
                (x.0 as int, x.1 as int) == transfer_range(ts, i)
            }),
    ensures
        f::views(r@) == stop_records(gtfs@, coords@, f::views(ps@), ts, links@),
{
    let ghost pv = f::views(ps@);
    let ghost all = stop_records(gtfs@, coords@, pv, ts, links@);
    let routes = routes_by_stop(ps, gtfs.stops.len());
    let mut out: Vec<Stop> = Vec::new();
    let mut i: usize = 0;
    assert(f::views(out@) =~= all.take(0));
    while i < gtfs.stops.len()
        invariant
            i <= gtfs.stops@.len(),
            pv == f::views(ps@),
            all == stop_records(gtfs@, coords@, pv, ts, links@),
            f::views(out@) == all.take(i as int),
            gtfs@.stops.len() <= u32::MAX,
            coords@.len() == gtfs@.stops.len(),
            ranges@.len() == gtfs@.stops.len(),
            forall|k: int|
                0 <= k < ranges@.len() ==> ({
                    let x = #[trigger] ranges@[k];
                    (x.0 as int, x.1 as int) == transfer_range(ts, k)
                }),
            routes@.len() == gtfs@.stops.len(),
            forall|s: int|
                0 <= s < routes@.len() ==> (#[trigger] routes@[s])@ == routes_at(
                    pv,
                    s as u32,
                    ps@.len() as int,
                ),
        decreases gtfs.stops@.len() - i,
    {
        let s = &gtfs.stops[i];
        assert(gtfs@.stops[i as int] == s@);
        let parent_idx: u32 = if s.parent_station.as_str().unicode_len() == 0 {
            NOT_SET
        } else {
            get_or(&gtfs.stop_id_map, s.parent_station.as_str(), NOT_SET)
        };
        let range = ranges[i];
        let x = Stop {
            id: t::copy_str(s.stop_id.as_str()),
            name: t::copy_str(s.stop_name.as_str()),
            lat: coords[i].0,
            lon: coords[i].1,
            location_type: s.location_type,
            parent_idx,
            platform_code: t::copy_str(s.platform_code.as_str()),
            zone_id: t::copy_str(s.zone_id.as_str()),
            transfers_offset: range.0 as u32,
            num_transfers: cap(range.1 as u32),
            route_idxs: lists::copy_list(&routes[i]),
            walk_node_idx: if i < links.len() {
                links[i]
            } else {
                NOT_SET
            },
        };
        proof {
            f::lemma_views_push(out@, x);
            assert(x@ == all[i as int]);
            assert(all.take(i + 1) =~= all.take(i as int).push(all[i as int]));
        }
        out.push(x);
        i += 1;
    }
    assert(all.take(i as int) =~= all);
    out
}

fn trip_numbers_of(p: &RoutePattern) -> (r: Vec<u32>)
    ensures
        r@ == trip_numbers(p@),
{
    let mut out: Vec<u32> = Vec::new();
    let mut k: usize = 0;
    while k < p.trip_order.len()
        invariant
            k <= p.trip_order@.len(),
            out@ == trip_numbers(p@).take(k as int),
        decreases p.trip_order@.len() - k,
    {
        out.push(p.trip_order[k].0);
        k += 1;
        assert(out@ =~= trip_numbers(p@).take(k as int));
    }
    assert(trip_numbers(p@).take(k as int) =~= trip_numbers(p@));
    out
}

/// Stores the patterns and their times.
fn store_routes(gtfs: &GtfsData, ps: &Vec<RoutePattern>) -> (r: (Vec<Route>, Vec<u8>, Vec<u8>))
    requires
        patterns_within(f::views(ps@), gtfs@),
    ensures
        f::views(r.0@) == route_records(gtfs@, f::views(ps@)),
        r.1@ == msg::packed(all_times(gtfs@, f::views(ps@), true, ps@.len() as int)),
        r.2@ == msg::packed(all_times(gtfs@, f::views(ps@), false, ps@.len() as int)),
{
    let ghost pv = f::views(ps@);
    let ghost all = route_records(gtfs@, pv);
    let mut out: Vec<Route> = Vec::new();
    let mut w = Times { arrivals: Vec::new(), departures: Vec::new(), count: 0 };
    let mut i: usize = 0;
    assert(f::views(out@) =~= all.take(0));
    while i < ps.len()
        invariant
            i <= ps@.len(),
            pv == f::views(ps@),
            patterns_within(pv, gtfs@),
            all == route_records(gtfs@, pv),
            f::views(out@) == all.take(i as int),
            holds_times(
                w,
                all_times(gtfs@, pv, true, i as int),
                all_times(gtfs@, pv, false, i as int),
            ),
        decreases ps@.len() - i,
    {
        let p = &ps[i];
        assert(pv[i as int] == p@);
        assert(pattern_within(pv[i as int], gtfs@));
        let r = &gtfs.routes[p.gtfs_route_idx as usize];
        assert(gtfs@.routes[p@.route as int] == r@);
        let x = Route {
            id: t::copy_str(r.route_id.as_str()),
            short_name: t::copy_str(r.short_name.as_str()),
            long_name: t::copy_str(r.long_name.as_str()),
            route_type: r.route_type,
            color: r.color,
            text_color: r.text_color,
            agency_idx: get_or(&gtfs.agency_id_map, r.agency_id.as_str(), 0) as u16,
            stop_idxs: lists::copy_list(&p.stop_idxs),
            stop_times_offset: w.count as u32,
            num_trips: p.trip_order.len() as u32,
            trip_idxs: trip_numbers_of(p),
        };
        proof {
            f::lemma_views_push(out@, x);
            assert(x@ == all[i as int]);
            assert(all.take(i + 1) =~= all.take(i as int).push(all[i as int]));
        }
        out.push(x);
        write_pattern(
            &mut w,
            gtfs,
            p,
            Ghost(all_times(gtfs@, pv, true, i as int)),
            Ghost(all_times(gtfs@, pv, false, i as int)),
        );
        i += 1;
    }
    assert(all.take(i as int) =~= all);
    (out, w.arrivals, w.departures)
}

fn store_services(services: &Vec<EncodedService>) -> (r: Vec<Service>)
    ensures
        f::views(r@) == services@.map_values(|e: EncodedService| service_record(e)),
{
    let mut out: Vec<Service> = Vec::new();
    let ghost all = services@.map_values(|e: EncodedService| service_record(e));
    let mut i: usize = 0;
    assert(f::views(out@) =~= all.take(0));
    while i < services.len()
        invariant
            i <= services@.len(),
            all == services@.map_values(|e: EncodedService| service_record(e)),
            f::views(out@) == all.take(i as int),
        decreases services@.len() - i,
    {
        let e = &services[i];
        let x = Service {
            id: t::copy_str(e.id.as_str()),
            start_date: cap(e.start_epoch_days),
            day_bits: lists::copy_list(&e.day_bits),
        };
        proof {
            f::lemma_views_push(out@, x);
            assert(x@ == all[i as int]);
            assert(all.take(i + 1) =~= all.take(i as int).push(all[i as int]));
        }
        out.push(x);
        i += 1;
    }
    assert(all.take(i as int) =~= all);
    out
}

fn store_rules(v: &Vec<FrequencyEntry>) -> (r: Vec<FrequencyRule>)
    ensures
        r@ == f::views(v@).map_values(|r: FrequencyView| rule_of(r)),
{
    let mut out: Vec<FrequencyRule> = Vec::new();
    let ghost all = f::views(v@).map_values(|r: FrequencyView| rule_of(r));
    let mut i: usize = 0;
    while i < v.len()
        invariant
            i <= v@.len(),
            all == f::views(v@).map_values(|r: FrequencyView| rule_of(r)),
            out@ == all.take(i as int),
        decreases v@.len() - i,
    {
        assert(f::views(v@)[i as int] == v@[i as int]@);
        out.push(
            FrequencyRule {
                start_time: v[i].start_time,
                end_time: v[i].end_time,
                headway_secs: v[i].headway_secs,
                exact_times: v[i].exact_times,
            },
        );
        i += 1;
        assert(out@ =~= all.take(i as int));
    }
    assert(all.take(i as int) =~= all);
    out
}

fn store_trips(gtfs: &GtfsData, ps: &Vec<RoutePattern>, service_index: &StringHashMap<u32>) -> (r: Vec<
    Trip,
>)
    requires
        patterns_within(f::views(ps@), gtfs@),
        gtfs@.trips.len() <= u32::MAX,
    ensures
        f::views(r@) == trip_records(gtfs@, f::views(ps@), service_index@),
{
    let ghost pv = f::views(ps@);
    let ghost all = trip_records(gtfs@, pv, service_index@);
    let places = patterns_by_trip(ps, gtfs.trips.len(), Ghost(gtfs@));
    let mut out: Vec<Trip> = Vec::new();
    let mut i: usize = 0;
    assert(f::views(out@) =~= all.take(0));
    while i < gtfs.trips.len()
        invariant
            i <= gtfs.trips@.len(),
            pv == f::views(ps@),
            all == trip_records(gtfs@, pv, service_index@),
            f::views(out@) == all.take(i as int),
            places@.len() == gtfs@.trips.len(),
            forall|k: int|
                0 <= k < places@.len() ==> #[trigger] places@[k] == pattern_of_trip(
                    pv,
                    k as u32,
                    ps@.len() as int,
                ),
        decreases gtfs.trips@.len() - i,
    {
        let s = &gtfs.trips[i];
        assert(gtfs@.trips[i as int] == s@);
        let x = Trip {
            id: t::copy_str(s.trip_id.as_str()),
            route_idx: places[i],
            service_idx: get_or(service_index, s.service_id.as_str(), NOT_SET),
            headsign: t::copy_str(s.headsign.as_str()),
            direction_id: s.direction_id,
            frequency_rules: store_rules(&s.frequency_rules),
            template_first_departure: if s.frequency_rules.len() > 0 {
                s.template_first_departure
            } else {
                0
            },
        };
        proof {
            f::lemma_views_push(out@, x);
            assert(x@ == all[i as int]);
            assert(all.take(i + 1) =~= all.take(i as int).push(all[i as int]));
        }
        out.push(x);
        i += 1;
    }
    assert(all.take(i as int) =~= all);
    out
}

// ---------------------------------------------------------------------------
// Fares
// ---------------------------------------------------------------------------

/// The patterns of a route, among the first `n`.
pub open spec fn patterns_with(ps: Seq<PatternView>, route: u32, n: int) -> Seq<u32>
    decreases n,
{
    if n <= 0 {
        Seq::empty()
    } else if ps[n - 1].route == route {
        patterns_with(ps, route, n - 1).push((n - 1) as u32)
    } else {
        patterns_with(ps, route, n - 1)
    }
}

pub open spec fn fare_record(x: Feed, u: FareUseView, price: u32, route_idx: u32) -> FareRecord {
    FareRecord {
        route_idx,
        origin_zone: u.origin,
        dest_zone: u.destination,
        price,
        currency: x.fares[u.fare].currency,
    }
}

/// A fare for each pattern of a list.
pub open spec fn fares_on(x: Feed, u: FareUseView, price: u32, routes: Seq<u32>) -> Seq<
    FareRecord,
> {
    Seq::new(routes.len(), |k: int| fare_record(x, u, price, routes[k]))
}

/// What one use of a fare comes to: nothing if the fare or the route is not known, one fare for
/// all routes if no route is named, else one for each pattern of the route.
pub open spec fn fares_for(x: Feed, ps: Seq<PatternView>, u: FareUseView, price: u32) -> Seq<
    FareRecord,
> {
    if !x.fares.contains_key(u.fare) {
        Seq::empty()
    } else if u.route.len() == 0 {
        seq![fare_record(x, u, price, NOT_SET)]
    } else if x.route_index.contains_key(u.route) {
        fares_on(x, u, price, patterns_with(ps, x.route_index[u.route], ps.len() as int))
    } else {
        Seq::empty()
    }
}

/// The fares of the first `n` uses.
pub open spec fn fare_records(x: Feed, ps: Seq<PatternView>, prices: Seq<u32>, n: int) -> Seq<
    FareRecord,
>
    decreases n,
{
    if n <= 0 {
        Seq::empty()
    } else {
        fare_records(x, ps, prices, n - 1) + fares_for(x, ps, x.fare_uses[n - 1], prices[n - 1])
    }
}

/// The price of the fare that each rule applies, as it is written. Nothing if the fare is not
/// known.
pub fn price_texts(gtfs: &GtfsData) -> (r: Vec<Option<String>>)
    ensures
        r@.len() == gtfs@.fare_uses.len(),
        forall|i: int|
            0 <= i < r@.len() ==> {
                let fare = gtfs@.fare_uses[i].fare;
                match #[trigger] r@[i] {
                    Some(s) => gtfs@.fares.contains_key(fare) && s@ == gtfs@.fares[fare].price,
                    None => !gtfs@.fares.contains_key(fare),
                }
            },
{
    let mut out: Vec<Option<String>> = Vec::new();
    let mut i: usize = 0;
    while i < gtfs.fare_rules.len()
        invariant
            i <= gtfs.fare_rules@.len(),
            out@.len() == i,
            forall|k: int|
                0 <= k < i ==> {
                    let fare = gtfs@.fare_uses[k].fare;
                    match #[trigger] out@[k] {
                        Some(s) => gtfs@.fares.contains_key(fare) && s@ == gtfs@.fares[fare].price,
                        None => !gtfs@.fares.contains_key(fare),
                    }
                },
        decreases gtfs.fare_rules@.len() - i,
    {
        assert(gtfs@.fare_uses[i as int] == gtfs.fare_rules@[i as int]@);
        let x = match gtfs.fare_attrs.get(gtfs.fare_rules[i].fare_id.as_str()) {
            Some(fare) => {
                assert(gtfs@.fares[gtfs@.fare_uses[i as int].fare] == fare@);
                Some(t::copy_str(fare.price.as_str()))
            },
            None => None,
        };
        out.push(x);
        i += 1;
    }
    out
}

/// For each route, its patterns.
fn patterns_by_route(ps: &Vec<RoutePattern>, num_routes: usize, Ghost(x): Ghost<Feed>) -> (r: Vec<
    Vec<u32>,
>)
    requires
        patterns_within(f::views(ps@), x),
        num_routes == x.routes.len(),
    ensures
        r@.len() == num_routes,
        forall|k: int|
            0 <= k < num_routes && k <= u32::MAX ==> (#[trigger] r@[k])@ == patterns_with(
                f::views(ps@),
                k as u32,
                ps@.len() as int,
            ),
{
    let ghost pv = f::views(ps@);
    let mut out: Vec<Vec<u32>> = Vec::new();
    let mut k: usize = 0;
    while k < num_routes
        invariant
            k <= num_routes,
            out@.len() == k,
            forall|j: int|
                0 <= j < k && j <= u32::MAX ==> (#[trigger] out@[j])@ == patterns_with(
                    pv,
                    j as u32,
                    0,
                ),
        decreases num_routes - k,
    {
        let v: Vec<u32> = Vec::new();
        assert(v@ =~= Seq::<u32>::empty());
        out.push(v);
        k += 1;
    }
    let mut p: usize = 0;
    while p < ps.len()
        invariant
            p <= ps@.len(),
            pv == f::views(ps@),
            patterns_within(pv, x),
            num_routes == x.routes.len(),
            out@.len() == num_routes,
            forall|j: int|
                0 <= j < num_routes && j <= u32::MAX ==> (#[trigger] out@[j])@ == patterns_with(
                    pv,
                    j as u32,
                    p as int,
                ),
        decreases ps@.len() - p,
    {
        let ghost before = out@;
        assert(pattern_within(pv[p as int], x));
        assert(pv[p as int] == ps@[p as int]@);
        let route: usize = ps[p].gtfs_route_idx as usize;
        assert(before[route as int]@ == patterns_with(pv, route as u32, p as int));
        out[route].push(p as u32);
        assert forall|j: int| 0 <= j < num_routes && j <= u32::MAX implies (
        #[trigger] out@[j])@ == patterns_with(pv, j as u32, p as int + 1) by {
            assert(before[j]@ == patterns_with(pv, j as u32, p as int));
        }
        p += 1;
    }
    out
}

/// No pattern belongs to a route that does not exist.
proof fn lemma_no_patterns_with(x: Feed, ps: Seq<PatternView>, route: u32, n: int)
    requires
        patterns_within(ps, x),
        route >= x.routes.len(),
        n <= ps.len(),
    ensures
        patterns_with(ps, route, n).len() == 0,
    decreases n,
{
    if n > 0 {
        assert(pattern_within(ps[n - 1], x));
        lemma_no_patterns_with(x, ps, route, n - 1);
    }
}

fn store_fare(u: &RawFareRule, price: u32, currency: &str, route_idx: u32) -> (r: StoredFare)
    ensures
        r@ == (FareRecord {
            route_idx,
            origin_zone: u@.origin,
            dest_zone: u@.destination,
            price,
            currency: currency@,
        }),
{
    StoredFare {
        route_idx,
        origin_zone: t::copy_str(u.origin_id.as_str()),
        dest_zone: t::copy_str(u.destination_id.as_str()),
        price,
        currency: t::copy_str(currency),
    }
}

/// Stores the fares, each use at its price.
fn store_fares(gtfs: &GtfsData, ps: &Vec<RoutePattern>, prices: &Vec<u32>) -> (r: Vec<StoredFare>)
    requires
        patterns_within(f::views(ps@), gtfs@),
        prices@.len() == gtfs@.fare_uses.len(),
    ensures
        f::views(r@) == fare_records(
            gtfs@,
            f::views(ps@),
            prices@,
            gtfs@.fare_uses.len() as int,
        ),
{
    let ghost x = gtfs@;
    let ghost pv = f::views(ps@);
    let by_route = patterns_by_route(ps, gtfs.routes.len(), Ghost(x));
    let mut out: Vec<StoredFare> = Vec::new();
    let mut i: usize = 0;
    assert(f::views(out@) =~= Seq::<FareRecord>::empty());
    while i < gtfs.fare_rules.len()
        invariant
            i <= gtfs.fare_rules@.len(),
            x == gtfs@,
            pv == f::views(ps@),
            patterns_within(pv, x),
            prices@.len() == gtfs.fare_rules@.len(),
            by_route@.len() == gtfs.routes@.len(),
            forall|k: int|
                0 <= k < by_route@.len() && k <= u32::MAX ==> (#[trigger] by_route@[k])@
                    == patterns_with(pv, k as u32, ps@.len() as int),
            f::views(out@) == fare_records(x, pv, prices@, i as int),
        decreases gtfs.fare_rules@.len() - i,
    {
        let u = &gtfs.fare_rules[i];
        let ghost base = f::views(out@);
        let ghost uv = x.fare_uses[i as int];
        assert(uv == u@);
        match gtfs.fare_attrs.get(u.fare_id.as_str()) {
            Some(fare) => {
                assert(x.fares[uv.fare] == fare@);
                let currency = fare.currency_type.as_str();
                if u.route_id.as_str().unicode_len() == 0 {
                    let y = store_fare(u, prices[i], currency, NOT_SET);
                    proof {
                        f::lemma_views_push(out@, y);
                        assert(base.push(y@) =~= base + fares_for(x, pv, uv, prices@[i as int]));
                    }
                    out.push(y);
                } else {
                    match gtfs.route_id_map.get(u.route_id.as_str()) {
                        Some(route) if (*route as usize) < by_route.len() => {
                            let route: u32 = *route;
                            let list = &by_route[route as usize];
                            assert(list@ == patterns_with(pv, route, ps@.len() as int));
                            let ghost all = fares_on(x, uv, prices@[i as int], list@);
                            let mut k: usize = 0;
                            assert(base =~= base + all.take(0));
                            while k < list.len()
                                invariant
                                    k <= list@.len(),
                                    i < prices@.len(),
                                    uv == u@,
                                    currency@ == x.fares[uv.fare].currency,
                                    all == fares_on(x, uv, prices@[i as int], list@),
                                    f::views(out@) == base + all.take(k as int),
                                decreases list@.len() - k,
                            {
                                let y = store_fare(u, prices[i], currency, list[k]);
                                proof {
                                    f::lemma_views_push(out@, y);
                                    assert(y@ == all[k as int]);
                                    assert((base + all.take(k as int)).push(y@) =~= base
                                        + all.take(k + 1));
                                }
                                out.push(y);
                                k += 1;
                            }
                            assert(all.take(k as int) =~= all);
                        },
                        Some(route) => {
                            proof {
                                lemma_no_patterns_with(x, pv, *route, pv.len() as int);
                            }
                            assert(base =~= base + fares_for(x, pv, uv, prices@[i as int]));
                        },
                        None => {
                            assert(base =~= base + fares_for(x, pv, uv, prices@[i as int]));
                        },
                    }
                }
            },
            None => {
                assert(base =~= base + fares_for(x, pv, uv, prices@[i as int]));
            },
        }
        i += 1;
    }
    out
}

// ---------------------------------------------------------------------------
// Streets
// ---------------------------------------------------------------------------

/// The edges of a node.
pub open spec fn edges_at(g: GraphView, i: int) -> Seq<EdgeView> {
    if i < g.edges.len() {
        g.edges[i]
    } else {
        Seq::empty()
    }
}

/// Number of points of an edge as it is stored, in two bytes.
pub open spec fn stored_len(e: EdgeView) -> u16 {
    e.geometry.len() as u16
}

/// Offset of the points after the first `n` edges, in four bytes.
pub open spec fn points_after(es: Seq<EdgeView>, start: u32, n: int) -> u32
    decreases n,
{
    if n <= 0 {
        start
    } else {
        points_after(es, start, n - 1).wrapping_add(stored_len(es[n - 1]) as u32)
    }
}

/// The first `n` edges as they are stored, with points from `start` on.
pub open spec fn stored_edges(es: Seq<EdgeView>, start: u32, n: int) -> Seq<WalkEdge>
    decreases n,
{
    if n <= 0 {
        Seq::empty()
    } else {
        stored_edges(es, start, n - 1).push(
            WalkEdge {
                to_node_idx: es[n - 1].to,
                dist_meters: es[n - 1].dist,
                geometry_offset: points_after(es, start, n - 1),
                geometry_len: stored_len(es[n - 1]),
            },
        )
    }
}

/// The points of the first `n` edges.
pub open spec fn points_of(es: Seq<EdgeView>, n: int) -> Seq<(u64, u64)>
    decreases n,
{
    if n <= 0 {
        Seq::empty()
    } else {
        points_of(es, n - 1) + es[n - 1].geometry
    }
}

/// Offset of the points after the edges of the first `n` nodes.
pub open spec fn all_points_after(g: GraphView, n: int) -> u32
    decreases n,
{
    if n <= 0 {
        0
    } else {
        points_after(edges_at(g, n - 1), all_points_after(g, n - 1), edges_at(g, n - 1).len() as int)
    }
}

/// The edges of the first `n` nodes.
pub open spec fn all_edges(g: GraphView, n: int) -> Seq<WalkEdge>
    decreases n,
{
    if n <= 0 {
        Seq::empty()
    } else {
        all_edges(g, n - 1) + stored_edges(
            edges_at(g, n - 1),
            all_points_after(g, n - 1),
            edges_at(g, n - 1).len() as int,
        )
    }
}

/// The points of the edges of the first `n` nodes.
pub open spec fn all_points(g: GraphView, n: int) -> Seq<(u64, u64)>
    decreases n,
{
    if n <= 0 {
        Seq::empty()
    } else {
        all_points(g, n - 1) + points_of(edges_at(g, n - 1), edges_at(g, n - 1).len() as int)
    }
}

pub open spec fn node_record(g: GraphView, i: int) -> WalkNode {
    WalkNode {
        lat: g.nodes[i].lat,
        lon: g.nodes[i].lon,
        edges_offset: all_edges(g, i).len() as u32,
        num_edges: capped((edges_at(g, i).len() as u32) as int),
    }
}

pub open spec fn node_records(g: GraphView) -> Seq<WalkNode> {
    Seq::new(g.nodes.len(), |i: int| node_record(g, i))
}

/// Appends points.
fn push_points(out: &mut Vec<(u64, u64)>, v: &Vec<(u64, u64)>)
    ensures
        final(out)@ == old(out)@ + v@,
{
    let ghost base = out@;
    let mut i: usize = 0;
    assert(base =~= base + v@.take(0));
    while i < v.len()
        invariant
            i <= v@.len(),
            out@ == base + v@.take(i as int),
        decreases v@.len() - i,
    {
        out.push(v[i]);
        i += 1;
        assert(out@ =~= base + v@.take(i as int));
    }
    assert(v@.take(i as int) =~= v@);
}

/// Lays the edges and points of a network out one after the other.
fn store_graph(g: &StreetGraph) -> (r: (Vec<WalkNode>, Vec<WalkEdge>, Vec<(u64, u64)>))
    ensures
        r.0@ == node_records(g@),
        r.1@ == all_edges(g@, g@.nodes.len() as int),
        r.2@ == all_points(g@, g@.nodes.len() as int),
{
    let mut nodes: Vec<WalkNode> = Vec::new();
    let mut edges: Vec<WalkEdge> = Vec::new();
    let mut points: Vec<(u64, u64)> = Vec::new();
    let mut offset: u32 = 0;
    let none: Vec<st::WalkEdge> = Vec::new();
    let mut i: usize = 0;
    while i < g.nodes.len()
        invariant
            i <= g.nodes@.len(),
            none@.len() == 0,
            nodes@ == node_records(g@).take(i as int),
            edges@ == all_edges(g@, i as int),
            points@ == all_points(g@, i as int),
            offset == all_points_after(g@, i as int),
        decreases g.nodes@.len() - i,
    {
        let list = if i < g.edges.len() {
            &g.edges[i]
        } else {
            &none
        };
        let ghost es = edges_at(g@, i as int);
        assert(f::views(list@) =~= es);
        nodes.push(
            WalkNode {
                lat: g.nodes[i].lat,
                lon: g.nodes[i].lon,
                edges_offset: edges.len() as u32,
                num_edges: cap(list.len() as u32),
            },
        );
        assert(nodes@ =~= node_records(g@).take(i + 1));
        let ghost base_edges = edges@;
        let ghost base_points = points@;
        let ghost start = offset;
        let mut k: usize = 0;
        assert(base_edges =~= base_edges + stored_edges(es, start, 0));
        assert(base_points =~= base_points + points_of(es, 0));
        while k < list.len()
            invariant
                k <= list@.len(),
                f::views(list@) == es,
                edges@ == base_edges + stored_edges(es, start, k as int),
                points@ == base_points + points_of(es, k as int),
                offset == points_after(es, start, k as int),
            decreases list@.len() - k,
        {
            let e = &list[k];
            assert(es[k as int] == e@);
            let n: u16 = e.geometry.len() as u16;
            push_points(&mut points, &e.geometry);
            edges.push(
                WalkEdge {
                    to_node_idx: e.to_node_idx,
                    dist_meters: e.dist_meters,
                    geometry_offset: offset,
                    geometry_len: n,
                },
            );
            offset = offset.wrapping_add(n as u32);
            k += 1;
            assert(edges@ =~= base_edges + stored_edges(es, start, k as int));
            assert(points@ =~= base_points + points_of(es, k as int));
        }
        i += 1;
    }
    assert(node_records(g@).take(i as int) =~= node_records(g@));
    (nodes, edges, points)
}

// ---------------------------------------------------------------------------
// The whole
// ---------------------------------------------------------------------------

/// What a timetable file is put together from.
pub struct Build {
    pub feed: Feed,
    /// Coordinates of the stops.
    pub coords: Seq<(u64, u64)>,
    /// Price of each fare rule, in hundredths.
    pub prices: Seq<u32>,
    pub patterns: Seq<PatternView>,
    pub services: Seq<EncodedService>,
    /// Where each service stands.
    pub service_index: Map<Seq<char>, u32>,
    pub transfers: Seq<tr::Transfer>,
    pub graph: GraphView,
    /// Street node of each stop.
    pub links: Seq<u32>,
}

/// What is stored.
pub open spec fn stored(b: Build) -> MessageView {
    let x = b.feed;
    let n = b.patterns.len() as int;
    MessageView {
        feed_id: x.feed_id,
        timezone: x.timezone,
        agencies: x.agencies.map_values(|a: AgencyView| agency_record(a)),
        stops: stop_records(x, b.coords, b.patterns, b.transfers, b.links),
        routes: route_records(x, b.patterns),
        stop_arrivals: msg::packed(all_times(x, b.patterns, true, n)),
        stop_departures: msg::packed(all_times(x, b.patterns, false, n)),
        transfers: stored_transfers(b.transfers, x.stops.len() as int),
        services: b.services.map_values(|e: EncodedService| service_record(e)),
        trips: trip_records(x, b.patterns, b.service_index),
        fare_rules: fare_records(x, b.patterns, b.prices, x.fare_uses.len() as int),
        walk_nodes: node_records(b.graph),
        walk_edges: all_edges(b.graph, b.graph.nodes.len() as int),
        geometry: all_points(b.graph, b.graph.nodes.len() as int),
    }
}

/// Puts together what a timetable file holds. `coords` are the coordinates of the stops, `prices`
/// the price of each fare rule in hundredths, and `stop_walk_links` the street node of each stop.
pub fn build_message(
    gtfs: &GtfsData,
    coords: &Vec<(u64, u64)>,
    prices: &Vec<u32>,
    patterns: &Vec<RoutePattern>,
    services: &Vec<EncodedService>,
    svc_id_map: &StringHashMap<u32>,
    transfers: &Vec<tr::Transfer>,
    graph: &StreetGraph,
    stop_walk_links: &Vec<u32>,
) -> (r: Message)
    requires
        gtfs@.stops.len() <= u32::MAX,
        gtfs@.trips.len() <= u32::MAX,
        patterns_within(f::views(patterns@), gtfs@),
        coords@.len() == gtfs@.stops.len(),
        prices@.len() == gtfs@.fare_uses.len(),
    ensures
        r@ == stored(
            (Build {
                feed: gtfs@,
                coords: coords@,
                prices: prices@,
                patterns: f::views(patterns@),
                services: services@,
                service_index: svc_id_map@,
                transfers: transfers@,
                graph: graph@,
                links: stop_walk_links@,
            }),
        ),
{
    let (footpaths, ranges) = group_transfers(transfers, gtfs.stops.len());
    let stops = store_stops(gtfs, coords, patterns, &ranges, stop_walk_links, Ghost(transfers@));
    let (routes, stop_arrivals, stop_departures) = store_routes(gtfs, patterns);
    let (walk_nodes, walk_edges, geometry) = store_graph(graph);
    Message {
        feed_id: t::copy_str(gtfs.feed_id.as_str()),
        timezone: t::copy_str(gtfs.timezone.as_str()),
        agencies: store_agencies(gtfs),
        stops,
        routes,
        stop_arrivals,
        stop_departures,
        transfers: footpaths,
        services: store_services(services),
        trips: store_trips(gtfs, patterns, svc_id_map),
        fare_rules: store_fares(gtfs, patterns, prices),
        walk_nodes,
        walk_edges,
        geometry,
    }
}

/// Writes the timetable file that is put together from the given parts.
pub fn build_capnp(
    gtfs: &GtfsData,
    coords: &Vec<(u64, u64)>,
    prices: &Vec<u32>,
    patterns: &Vec<RoutePattern>,
    services: &Vec<EncodedService>,
    svc_id_map: &StringHashMap<u32>,
    transfers: &Vec<tr::Transfer>,
    graph: &StreetGraph,
    stop_walk_links: &Vec<u32>,
) -> (r: Result<Vec<u8>, String>)
    requires
        gtfs@.stops.len() <= u32::MAX,
        gtfs@.trips.len() <= u32::MAX,
        patterns_within(f::views(patterns@), gtfs@),
        coords@.len() == gtfs@.stops.len(),
        prices@.len() == gtfs@.fare_uses.len(),
    ensures
        ({
            let m = stored(
                (Build {
                    feed: gtfs@,
                    coords: coords@,
                    prices: prices@,
                    patterns: f::views(patterns@),
                    services: services@,
                    service_index: svc_id_map@,
                    transfers: transfers@,
                    graph: graph@,
                    links: stop_walk_links@,
                }),
            );
            match r {
                Ok(bytes) => file::writable(m) && bytes@ == file::file_of(m) && (bytes@.len()
                    <= READ_LIMIT ==> file::holds(bytes@, m)),
                Err(e) => !file::writable(m) && e@ == "timetable too large"@,
            }
        }),
{
    let m = build_message(
        gtfs,
        coords,
        prices,
        patterns,
        services,
        svc_id_map,
        transfers,
        graph,
        stop_walk_links,
    );
    file::message_bytes(&m)
}

} // verus!
