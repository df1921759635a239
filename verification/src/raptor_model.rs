//! Mathematical model of the round-based search.
//!
//! A round is a triple of maps over stops: the best arrival found so far, the arrivals found in
//! this round, and how each of the latter came about. Rounds, route scans and footpaths are
//! described one step at a time.

use crate::data::{FrequencyRule, TransitData, Trip, NOT_SET};
use crate::raptor::{Boarding, Parent, RaptorLeg, RaptorQuery};
use vstd::prelude::*;

verus! {

/// A time as stored: times from `NOT_SET` on do not exist.
pub open spec fn stored_time(t: int) -> u32 {
    if 0 <= t < NOT_SET {
        t as u32
    } else {
        NOT_SET
    }
}

/// A stop time moved by `delta` seconds.
pub open spec fn shifted(t: u32, delta: int) -> u32 {
    if t == NOT_SET {
        NOT_SET
    } else {
        stored_time(t + delta)
    }
}

pub open spec fn departure(data: TransitData, r: int, t: int, pos: int) -> u32 {
    data.departures@[data.routes@[r].time_index(t, pos)]
}

pub open spec fn arrival(data: TransitData, r: int, t: int, pos: int) -> u32 {
    data.arrivals@[data.routes@[r].time_index(t, pos)]
}

/// The `t`-th trip of route `r`.
pub open spec fn trip_of(data: TransitData, r: int, t: int) -> Trip {
    data.trips@[data.routes@[r].trip_idxs@[t] as int]
}

pub open spec fn trip_runs(data: TransitData, trip: Trip, day: int) -> bool {
    trip.service_idx != NOT_SET && data.services@[trip.service_idx as int].runs(day)
}

pub open spec fn is_template(trip: Trip) -> bool {
    trip.frequency_rules@.len() > 0
}

/// Some of the first `n` trips of route `r` is a template.
pub open spec fn has_template(data: TransitData, r: int, n: int) -> bool {
    exists|t: int| 0 <= t < n && is_template(#[trigger] trip_of(data, r, t))
}

// ---------------------------------------------------------------------------
// Boarding
// ---------------------------------------------------------------------------

/// Where halving the interval `lo..hi` for the first departure from `min_dep` on ends up.
pub open spec fn lower_bound(
    data: TransitData,
    r: int,
    pos: int,
    min_dep: u32,
    lo: int,
    hi: int,
) -> int
    decreases hi - lo,
{
    if lo >= hi {
        lo
    } else {
        let mid = lo + (hi - lo) / 2;
        if departure(data, r, mid, pos) < min_dep {
            lower_bound(data, r, pos, min_dep, mid + 1, hi)
        } else {
            lower_bound(data, r, pos, min_dep, lo, mid)
        }
    }
}

/// The `t`-th trip of route `r` is a scheduled trip that can be boarded.
pub open spec fn scheduled_ok(
    data: TransitData,
    r: int,
    pos: int,
    min_dep: u32,
    day: int,
    t: int,
) -> bool {
    let dep = departure(data, r, t, pos);
    &&& dep != NOT_SET
    &&& dep >= min_dep
    &&& !is_template(trip_of(data, r, t))
    &&& trip_runs(data, trip_of(data, r, t), day)
}

/// First scheduled trip that can be boarded, from the `t`-th on.
pub open spec fn first_scheduled(
    data: TransitData,
    r: int,
    pos: int,
    min_dep: u32,
    day: int,
    t: int,
) -> Option<Boarding>
    decreases data.routes@[r].num_trips - t,
{
    if t >= data.routes@[r].num_trips {
        None
    } else if scheduled_ok(data, r, pos, min_dep, day, t) {
        Some(Boarding { trip_num: t as u32, time: departure(data, r, t, pos), freq_delta: 0 })
    } else {
        first_scheduled(data, r, pos, min_dep, day, t + 1)
    }
}

/// The first run of a frequency rule that starts at `need` or later.
pub open spec fn next_run(rule: FrequencyRule, need: int) -> Option<int> {
    if rule.headway_secs == 0 || rule.start_time == NOT_SET || rule.end_time == NOT_SET {
        None
    } else {
        let run = if need <= rule.start_time {
            rule.start_time as int
        } else {
            rule.start_time + ((need - rule.start_time + rule.headway_secs - 1)
                / rule.headway_secs as int) * rule.headway_secs
        };
        if run < rule.end_time {
            Some(run)
        } else {
            None
        }
    }
}

/// Boarding a repetition of a template at a stop where the template departs at `dep`.
pub open spec fn rule_boarding(
    trip: Trip,
    t: int,
    dep: u32,
    rule: FrequencyRule,
    min_dep: u32,
) -> Option<Boarding> {
    let offset = dep - trip.template_first_departure;
    match next_run(rule, min_dep - offset) {
        Some(run) => if run + offset < NOT_SET {
            Some(
                Boarding {
                    trip_num: t as u32,
                    time: (run + offset) as u32,
                    freq_delta: (run - trip.template_first_departure) as i64,
                },
            )
        } else {
            None
        },
        None => None,
    }
}

/// `b` if it leaves strictly earlier, else `a`.
pub open spec fn earlier(a: Option<Boarding>, b: Option<Boarding>) -> Option<Boarding> {
    match (a, b) {
        (Some(x), Some(y)) => if y.time < x.time {
            b
        } else {
            a
        },
        (None, _) => b,
        (Some(_), None) => a,
    }
}

/// Earliest repetition under the first `n` rules of a template.
pub open spec fn best_rule(trip: Trip, t: int, dep: u32, min_dep: u32, n: int) -> Option<Boarding>
    decreases n,
{
    if n <= 0 {
        None
    } else {
        earlier(
            best_rule(trip, t, dep, min_dep, n - 1),
            rule_boarding(trip, t, dep, trip.frequency_rules@[n - 1], min_dep),
        )
    }
}

/// Earliest repetition of the `t`-th trip, if it is a template that runs.
pub open spec fn template_boarding(
    data: TransitData,
    r: int,
    pos: int,
    min_dep: u32,
    day: int,
    t: int,
) -> Option<Boarding> {
    let trip = trip_of(data, r, t);
    let dep = departure(data, r, t, pos);
    if is_template(trip) && dep != NOT_SET && trip_runs(data, trip, day) {
        best_rule(trip, t, dep, min_dep, trip.frequency_rules@.len() as int)
    } else {
        None
    }
}

/// Earliest repetition among the first `n` trips of a route.
pub open spec fn best_template(
    data: TransitData,
    r: int,
    pos: int,
    min_dep: u32,
    day: int,
    n: int,
) -> Option<Boarding>
    decreases n,
{
    if n <= 0 {
        None
    } else {
        earlier(
            best_template(data, r, pos, min_dep, day, n - 1),
            template_boarding(data, r, pos, min_dep, day, n - 1),
        )
    }
}

/// The trip to board at a stop position from `min_dep` on: the first scheduled trip found by
/// halving, unless a template repeats strictly earlier.
pub open spec fn boarding(data: TransitData, r: int, pos: int, min_dep: u32, day: int) -> Option<
    Boarding,
> {
    let n = data.routes@[r].num_trips as int;
    earlier(
        first_scheduled(data, r, pos, min_dep, day, lower_bound(data, r, pos, min_dep, 0, n)),
        best_template(data, r, pos, min_dep, day, n),
    )
}

// ---------------------------------------------------------------------------
// One round
// ---------------------------------------------------------------------------

/// Arrivals over all stops.
#[verifier::ext_equal]
pub struct Round {
    /// Best arrival in any round so far.
    pub best: Seq<u32>,
    /// Arrival found in this round, or `NOT_SET`.
    pub arr: Seq<u32>,
    /// How the arrival of this round came about.
    pub par: Seq<Parent>,
}

/// Records an arrival if it beats every earlier one.
pub open spec fn improve(st: Round, stop: int, time: u32, parent: Parent) -> Round {
    if time < st.best[stop] {
        Round {
            best: st.best.update(stop, time),
            arr: st.arr.update(stop, time),
            par: st.par.update(stop, parent),
        }
    } else {
        st
    }
}

/// Nothing reached yet in this round.
pub open spec fn fresh_round(best: Seq<u32>) -> Round {
    Round {
        best,
        arr: Seq::new(best.len(), |i: int| NOT_SET),
        par: Seq::new(best.len(), |i: int| Parent::Unreached),
    }
}

/// Walking to the first `n` origin stops.
pub open spec fn origins(data: TransitData, query: RaptorQuery, n: int) -> Round
    decreases n,
{
    if n <= 0 {
        fresh_round(Seq::new(data.stops@.len(), |i: int| NOT_SET))
    } else {
        let (stop, walk) = query.origin_stops@[n - 1];
        improve(
            origins(data, query, n - 1),
            stop as int,
            stored_time(query.departure_time + walk),
            Parent::Unreached,
        )
    }
}

/// The trip on board while a route is scanned.
#[derive(Clone, Copy)]
pub struct OnBoard {
    pub trip_num: u32,
    pub freq_delta: i64,
    pub board_pos: u32,
    pub board_time: u32,
}

pub struct Scan {
    pub st: Round,
    pub ride: Option<OnBoard>,
}

/// Position `p` of route `r` is where a scan may begin: its stop was reached in the previous
/// round and lists the route.
pub open spec fn marked(data: TransitData, prev: Seq<u32>, r: int, p: int) -> bool {
    let s = data.routes@[r].stop_idxs@[p];
    prev[s as int] != NOT_SET && data.stops@[s as int].route_idxs@.contains(r as u32)
}

/// First such position from `p` on.
pub open spec fn first_marked(data: TransitData, prev: Seq<u32>, r: int, p: int) -> Option<int>
    decreases data.routes@[r].stop_idxs@.len() - p,
{
    if p >= data.routes@[r].stop_idxs@.len() {
        None
    } else if marked(data, prev, r, p) {
        Some(p)
    } else {
        first_marked(data, prev, r, p + 1)
    }
}

/// Leaving the trip on board at a stop position.
pub open spec fn alight(data: TransitData, r: int, pos: int, s: Scan) -> Round {
    match s.ride {
        Some(rd) => improve(
            s.st,
            data.routes@[r].stop_idxs@[pos] as int,
            shifted(arrival(data, r, rd.trip_num as int, pos), rd.freq_delta as int),
            Parent::Ride {
                route_idx: r as u32,
                trip_num: rd.trip_num,
                board_pos: rd.board_pos,
                board_time: rd.board_time,
                freq_delta: rd.freq_delta,
            },
        ),
        None => s.st,
    }
}

/// When the trip on board leaves a stop position.
pub open spec fn leaves_with(data: TransitData, r: int, pos: int, rd: OnBoard) -> u32 {
    shifted(departure(data, r, rd.trip_num as int, pos), rd.freq_delta as int)
}

/// Boarding at a stop position, unless the trip on board leaves there no later.
pub open spec fn board(
    data: TransitData,
    day: int,
    prev: Seq<u32>,
    r: int,
    pos: int,
    ride: Option<OnBoard>,
) -> Option<OnBoard> {
    let at = prev[data.routes@[r].stop_idxs@[pos] as int];
    if at == NOT_SET {
        ride
    } else {
        match boarding(data, r, pos, at, day) {
            Some(b) => if ride is None || b.time < leaves_with(data, r, pos, ride->0) {
                Some(
                    OnBoard {
                        trip_num: b.trip_num,
                        freq_delta: b.freq_delta,
                        board_pos: pos as u32,
                        board_time: b.time,
                    },
                )
            } else {
                ride
            },
            None => ride,
        }
    }
}

/// Scanning route `r` over the positions `from..to`.
pub open spec fn scan(
    data: TransitData,
    day: int,
    prev: Seq<u32>,
    r: int,
    from: int,
    to: int,
    st: Round,
) -> Scan
    decreases to - from,
{
    if to <= from {
        Scan { st, ride: None }
    } else {
        let s = scan(data, day, prev, r, from, to - 1, st);
        Scan {
            st: alight(data, r, to - 1, s),
            ride: board(data, day, prev, r, to - 1, s.ride),
        }
    }
}

pub open spec fn scan_route(
    data: TransitData,
    day: int,
    prev: Seq<u32>,
    r: int,
    st: Round,
) -> Round {
    match first_marked(data, prev, r, 0) {
        Some(p) => scan(
            data,
            day,
            prev,
            r,
            p,
            data.routes@[r].stop_idxs@.len() as int,
            st,
        ).st,
        None => st,
    }
}

/// Scanning the first `n` routes.
pub open spec fn scan_routes(
    data: TransitData,
    day: int,
    prev: Seq<u32>,
    n: int,
    st: Round,
) -> Round
    decreases n,
{
    if n <= 0 {
        st
    } else {
        scan_route(data, day, prev, n - 1, scan_routes(data, day, prev, n - 1, st))
    }
}

/// Taking the first `n` footpaths from stop `s`.
pub open spec fn walk_from(data: TransitData, s: int, n: int, st: Round) -> Round
    decreases n,
{
    if n <= 0 {
        st
    } else {
        let before = walk_from(data, s, n - 1, st);
        let t = data.transfers@[data.stops@[s].transfers_offset + n - 1];
        improve(
            before,
            t.to_stop_idx as int,
            stored_time(before.arr[s] + t.walk_seconds),
            Parent::Walk { from: s as u32 },
        )
    }
}

/// Walking on from the first `n` stops, in order, where this round arrived.
pub open spec fn walks(data: TransitData, n: int, st: Round) -> Round
    decreases n,
{
    if n <= 0 {
        st
    } else {
        let before = walks(data, n - 1, st);
        if before.arr[n - 1] == NOT_SET {
            before
        } else {
            walk_from(data, n - 1, data.stops@[n - 1].num_transfers as int, before)
        }
    }
}

/// One round: every route that can be boarded, then footpaths.
pub open spec fn next_round(data: TransitData, day: int, last: Round) -> Round {
    walks(
        data,
        data.stops@.len() as int,
        scan_routes(data, day, last.arr, data.routes@.len() as int, fresh_round(last.best)),
    )
}

/// Some stop was reached.
pub open spec fn any_reached(arr: Seq<u32>) -> bool {
    exists|i: int| 0 <= i < arr.len() && #[trigger] arr[i] != NOT_SET
}

/// The rounds of a query, at most `k` of them after the origin walks: the search ends when a
/// round reaches nothing.
pub open spec fn rounds(data: TransitData, query: RaptorQuery, k: int) -> Seq<Round>
    decreases k,
{
    if k <= 0 {
        seq![origins(data, query, query.origin_stops@.len() as int)]
    } else {
        let before = rounds(data, query, k - 1);
        if any_reached(before.last().arr) {
            before.push(next_round(data, query.service_day as int, before.last()))
        } else {
            before
        }
    }
}

// ---------------------------------------------------------------------------
// Journeys
// ---------------------------------------------------------------------------

/// First index from `from` on that holds `x`.
pub open spec fn index_from(s: Seq<u32>, x: u32, from: int) -> Option<int>
    decreases s.len() - from,
{
    if from >= s.len() {
        None
    } else if s[from] == x {
        Some(from)
    } else {
        index_from(s, x, from + 1)
    }
}

/// Where a route stops at `x`: from `min_pos` on if it does, else anywhere, else at the start.
pub open spec fn stop_pos(s: Seq<u32>, x: u32, min_pos: int) -> int {
    match index_from(s, x, min_pos) {
        Some(p) => p,
        None => match index_from(s, x, 0) {
            Some(p) => p,
            None => 0,
        },
    }
}

/// The leg that ends at stop `s` by a given ride.
pub open spec fn ride_leg(data: TransitData, s: int, p: Parent) -> RaptorLeg {
    let r = p->route_idx as int;
    let pos = stop_pos(data.routes@[r].stop_idxs@, s as u32, p->board_pos as int);
    RaptorLeg {
        route_idx: p->route_idx,
        trip_num: p->trip_num,
        board_stop_pos: p->board_pos,
        alight_stop_pos: pos as u32,
        board_time: p->board_time,
        alight_time: shifted(arrival(data, r, p->trip_num as int, pos), p->freq_delta as int),
        freq_delta: p->freq_delta,
    }
}

/// The legs that lead to stop `s` in round `k`. `fuel` bounds the footpaths taken in a row.
pub open spec fn trace(data: TransitData, rs: Seq<Round>, k: int, s: int, fuel: nat) -> Seq<
    RaptorLeg,
>
    decreases k, fuel,
{
    if k <= 0 {
        Seq::empty()
    } else {
        match rs[k].par[s] {
            Parent::Unreached => Seq::empty(),
            Parent::Walk { from } => if fuel == 0 {
                Seq::empty()
            } else {
                trace(data, rs, k, from as int, (fuel - 1) as nat)
            },
            Parent::Ride { route_idx, trip_num, board_pos, board_time, freq_delta } => {
                let board_stop = data.routes@[route_idx as int].stop_idxs@[board_pos as int];
                trace(data, rs, k - 1, board_stop as int, data.stops@.len()).push(
                    ride_leg(data, s, rs[k].par[s]),
                )
            },
        }
    }
}

/// A journey from origin to destination.
#[verifier::ext_equal]
pub struct JourneyView {
    pub legs: Seq<RaptorLeg>,
    pub departure_time: u32,
    pub arrival_time: u32,
    pub access_walk_secs: u32,
    pub egress_walk_secs: u32,
    pub access_stop_idx: u32,
    pub egress_stop_idx: u32,
}

/// Walking time to the first entry for stop `s` from the `i`-th on, zero if there is none.
pub open spec fn walk_secs_to(stops: Seq<(u32, u32)>, s: u32, i: int) -> u32
    decreases stops.len() - i,
{
    if i >= stops.len() {
        0
    } else if stops[i].0 == s {
        stops[i].1
    } else {
        walk_secs_to(stops, s, i + 1)
    }
}

pub open spec fn sub_or_zero(a: u32, b: u32) -> u32 {
    if a >= b {
        (a - b) as u32
    } else {
        0
    }
}

/// The journey given by legs that end at a destination stop, where they arrive at `arr`.
pub open spec fn journey_of(
    data: TransitData,
    query: RaptorQuery,
    legs: Seq<RaptorLeg>,
    arr: u32,
    dest: (u32, u32),
) -> JourneyView {
    let first = data.routes@[legs[0].route_idx as int].stop_idxs@[legs[0].board_stop_pos as int];
    let access = walk_secs_to(query.origin_stops@, first, 0);
    JourneyView {
        legs,
        departure_time: sub_or_zero(legs[0].board_time, access),
        arrival_time: stored_time(arr + dest.1),
        access_walk_secs: access,
        egress_walk_secs: dest.1,
        access_stop_idx: first,
        egress_stop_idx: dest.0,
    }
}

/// The legs by which round `k` reaches a destination stop; none if it does not.
pub open spec fn legs_to(data: TransitData, rs: Seq<Round>, k: int, dest: (u32, u32)) -> Seq<
    RaptorLeg,
> {
    if rs[k].arr[dest.0 as int] == NOT_SET {
        Seq::empty()
    } else {
        trace(data, rs, k, dest.0 as int, data.stops@.len())
    }
}

/// `a` is listed before `b`, or may be: it arrives earlier, or no later and leaves no earlier.
pub open spec fn in_order(a: JourneyView, b: JourneyView) -> bool {
    a.arrival_time < b.arrival_time || (a.arrival_time == b.arrival_time && a.departure_time
        >= b.departure_time)
}

/// Placed after every journey that may be listed before it.
pub open spec fn insert_by_arrival(s: Seq<JourneyView>, j: JourneyView) -> Seq<JourneyView>
    decreases s.len(),
{
    if s.len() == 0 || in_order(s.last(), j) {
        s.push(j)
    } else {
        insert_by_arrival(s.drop_last(), j).push(s.last())
    }
}

/// Journeys to one destination stop in the rounds `1..k`, put among those already found.
pub open spec fn dest_journeys(
    data: TransitData,
    query: RaptorQuery,
    rs: Seq<Round>,
    dest: (u32, u32),
    k: int,
    found: Seq<JourneyView>,
) -> Seq<JourneyView>
    decreases k,
{
    if k <= 1 {
        found
    } else {
        let before = dest_journeys(data, query, rs, dest, k - 1, found);
        let legs = legs_to(data, rs, k - 1, dest);
        if legs.len() == 0 {
            before
        } else {
            insert_by_arrival(
                before,
                journey_of(data, query, legs, rs[k - 1].arr[dest.0 as int], dest),
            )
        }
    }
}

/// Journeys to the first `n` destination stops, in order of arrival.
pub open spec fn all_journeys(data: TransitData, query: RaptorQuery, rs: Seq<Round>, n: int) -> Seq<
    JourneyView,
>
    decreases n,
{
    if n <= 0 {
        Seq::empty()
    } else {
        dest_journeys(
            data,
            query,
            rs,
            query.dest_stops@[n - 1],
            rs.len() as int,
            all_journeys(data, query, rs, n - 1),
        )
    }
}

/// `f` leaves no earlier and arrives no later than `j`.
pub open spec fn dominates(f: JourneyView, j: JourneyView) -> bool {
    f.departure_time >= j.departure_time && f.arrival_time <= j.arrival_time
}

pub open spec fn dominated(kept: Seq<JourneyView>, j: JourneyView) -> bool {
    exists|i: int| 0 <= i < kept.len() && dominates(#[trigger] kept[i], j)
}

/// What is left when each journey that one kept before it dominates is dropped.
pub open spec fn undominated(s: Seq<JourneyView>) -> Seq<JourneyView>
    decreases s.len(),
{
    if s.len() == 0 {
        Seq::empty()
    } else {
        let kept = undominated(s.drop_last());
        if dominated(kept, s.last()) {
            kept
        } else {
            kept.push(s.last())
        }
    }
}

/// The first `n` elements, or all of them.
pub open spec fn at_most(s: Seq<JourneyView>, n: int) -> Seq<JourneyView> {
    if n < s.len() {
        s.take(n)
    } else {
        s
    }
}

/// The rounds that a query goes through.
pub open spec fn query_rounds(data: TransitData, query: RaptorQuery) -> Seq<Round> {
    rounds(data, query, query.max_transfers + 1)
}

/// Every journey found, in order of arrival.
pub open spec fn found_journeys(data: TransitData, query: RaptorQuery) -> Seq<JourneyView> {
    all_journeys(data, query, query_rounds(data, query), query.dest_stops@.len() as int)
}

/// The journeys that answer a query.
pub open spec fn answer(data: TransitData, query: RaptorQuery) -> Seq<JourneyView> {
    at_most(undominated(found_journeys(data, query)), query.max_results as int)
}

} // verus!
