//! Round-based public transit routing.
//!
//! Round `k` holds, for each stop, the earliest arrival found with `k` rides that beats every
//! arrival found with fewer. Each round scans the routes that pass a stop reached in the round
//! before, and then walks on from the stops it reached.

use crate::data::{FrequencyRule, Route, TransitData, Trip, NOT_SET};
use crate::feed as f;
use crate::raptor_model as m;
use crate::raptor_model::{JourneyView, OnBoard, Round};
use crate::text as t;
use crate::viz as v;
use crate::viz::{RaptorViz, VizStop};
use vstd::prelude::*;

verus! {

/// One ride: board at a stop, alight at a stop, on a specific trip.
#[derive(Debug, Clone, Copy)]
pub struct RaptorLeg {
    pub route_idx: u32,
    /// Index within the route's trips.
    pub trip_num: u32,
    /// Position within the route's stop sequence.
    pub board_stop_pos: u32,
    pub alight_stop_pos: u32,
    pub board_time: u32,
    pub alight_time: u32,
    /// Seconds by which the trip's stop times are moved; zero for a scheduled trip.
    pub freq_delta: i64,
}

/// A complete journey from origin to destination.
#[derive(Debug, Clone)]
pub struct RaptorJourney {
    pub legs: Vec<RaptorLeg>,
    pub departure_time: u32,
    pub arrival_time: u32,
    /// Walk to the first stop and from the last stop, in seconds.
    pub access_walk_secs: u32,
    pub egress_walk_secs: u32,
    pub access_stop_idx: u32,
    pub egress_stop_idx: u32,
}

/// Query parameters.
pub struct RaptorQuery {
    /// Stops to start from, with the walk to each in seconds.
    pub origin_stops: Vec<(u32, u32)>,
    /// Stops to end at, with the walk from each in seconds.
    pub dest_stops: Vec<(u32, u32)>,
    /// Seconds since midnight.
    pub departure_time: u32,
    /// Days since 1970-01-01.
    pub service_day: u16,
    pub max_transfers: u32,
    pub max_results: usize,
}

/// A departure to board.
#[derive(Debug, Clone, Copy)]
pub struct Boarding {
    pub trip_num: u32,
    pub time: u32,
    pub freq_delta: i64,
}

/// How a stop was reached in a round.
#[derive(Debug, Clone, Copy)]
pub enum Parent {
    Unreached,
    Ride { route_idx: u32, trip_num: u32, board_pos: u32, board_time: u32, freq_delta: i64 },
    Walk { from: u32 },
}

impl View for RaptorJourney {
    type V = JourneyView;

    open spec fn view(&self) -> JourneyView {
        JourneyView {
            legs: self.legs@,
            departure_time: self.departure_time,
            arrival_time: self.arrival_time,
            access_walk_secs: self.access_walk_secs,
            egress_walk_secs: self.egress_walk_secs,
            access_stop_idx: self.access_stop_idx,
            egress_stop_idx: self.egress_stop_idx,
        }
    }
}

/// The journeys of a list, as mathematical values.
pub open spec fn journeys_view(s: Seq<RaptorJourney>) -> Seq<JourneyView> {
    Seq::new(s.len(), |i: int| s[i]@)
}

impl RaptorQuery {
    /// Every stop of the query exists.
    pub open spec fn wf(self, data: TransitData) -> bool {
        &&& forall|i: int|
            0 <= i < self.origin_stops@.len() ==> (#[trigger] self.origin_stops@[i]).0
                < data.stops@.len()
        &&& forall|i: int|
            0 <= i < self.dest_stops@.len() ==> (#[trigger] self.dest_stops@[i]).0
                < data.stops@.len()
    }
}

// ---------------------------------------------------------------------------
// Boarding
// ---------------------------------------------------------------------------

fn runs(data: &TransitData, trip: &Trip, service_day: u16) -> (r: bool)
    requires
        data.trip_ok(*trip),
    ensures
        r == m::trip_runs(*data, *trip, service_day as int),
{
    trip.service_idx != NOT_SET && data.services[trip.service_idx as usize].runs_on(service_day)
}

fn pick_earlier(a: Option<Boarding>, b: Option<Boarding>) -> (r: Option<Boarding>)
    ensures
        r == m::earlier(a, b),
{
    match (a, b) {
        (Some(x), Some(y)) => if y.time < x.time {
            Some(y)
        } else {
            Some(x)
        },
        (None, y) => y,
        (Some(x), None) => Some(x),
    }
}

/// The first repetition under a rule that leaves a stop at `min_dep` or later, where the template
/// leaves at `dep`.
fn board_by_rule(trip: &Trip, trip_num: u32, dep: u32, rule: FrequencyRule, min_dep: u32) -> (r:
    Option<Boarding>)
    ensures
        r == m::rule_boarding(*trip, trip_num as int, dep, rule, min_dep),
{
    let template_first_departure: u32 = trip.template_first_departure;
    if rule.headway_secs == 0 || rule.start_time == NOT_SET || rule.end_time == NOT_SET {
        return None;
    }
    let start: i64 = rule.start_time as i64;
    let headway: i64 = rule.headway_secs as i64;
    let offset: i64 = dep as i64 - template_first_departure as i64;
    let need: i64 = min_dep as i64 - offset;
    let mut run: i64 = start;
    if need > start {
        let gap: i64 = need - start + headway - 1;
        let steps: i64 = gap / headway;
        proof {
            assert(0 <= steps * headway <= gap) by (nonlinear_arith)
                requires
                    gap >= 0,
                    headway > 0,
                    steps == gap / headway,
            ;
        }
        run = start + steps * headway;
    }
    if run >= rule.end_time as i64 {
        return None;
    }
    proof {
        if need > start {
            let gap = need - start + headway - 1;
            assert((gap / headway as int) * headway > gap - headway) by (nonlinear_arith)
                requires
                    gap >= 0,
                    headway > 0,
            ;
        }
    }
    let time: i64 = run + offset;
    if time < NOT_SET as i64 {
        Some(
            Boarding {
                trip_num,
                time: time as u32,
                freq_delta: run - template_first_departure as i64,
            },
        )
    } else {
        None
    }
}

/// The earliest repetition of a template, over all its rules.
fn board_template(trip: &Trip, trip_num: u32, dep: u32, min_dep: u32) -> (r: Option<Boarding>)
    ensures
        r == m::best_rule(*trip, trip_num as int, dep, min_dep, trip.frequency_rules@.len() as int),
{
    let mut best: Option<Boarding> = None;
    let mut i: usize = 0;
    while i < trip.frequency_rules.len()
        invariant
            i <= trip.frequency_rules@.len(),
            best == m::best_rule(*trip, trip_num as int, dep, min_dep, i as int),
        decreases trip.frequency_rules@.len() - i,
    {
        let b = board_by_rule(trip, trip_num, dep, trip.frequency_rules[i], min_dep);
        best = pick_earlier(best, b);
        i += 1;
    }
    best
}

/// A boarding names a trip of the route.
pub open spec fn boarding_ok(b: Option<Boarding>, num_trips: u32) -> bool {
    b matches Some(x) ==> x.trip_num < num_trips
}

proof fn lemma_best_rule_trip(trip: Trip, t: int, dep: u32, min_dep: u32, n: int)
    ensures
        m::best_rule(trip, t, dep, min_dep, n) matches Some(b) ==> b.trip_num == t as u32,
    decreases n,
{
    if n > 0 {
        lemma_best_rule_trip(trip, t, dep, min_dep, n - 1);
    }
}

proof fn lemma_no_template(data: TransitData, r: int, pos: int, min_dep: u32, day: int, n: int)
    requires
        !m::has_template(data, r, n),
    ensures
        m::best_template(data, r, pos, min_dep, day, n) is None,
    decreases n,
{
    if n > 0 {
        assert(!m::is_template(m::trip_of(data, r, n - 1)));
        assert(!m::has_template(data, r, n - 1));
        lemma_no_template(data, r, pos, min_dep, day, n - 1);
    }
}

/// Finds the trip to board on a route at a stop position: the earliest that departs at or after
/// `min_dep` and runs on the service day. `templated` says whether the route has templates.
pub fn earliest_trip(
    data: &TransitData,
    route_idx: usize,
    stop_pos: usize,
    min_dep: u32,
    service_day: u16,
    templated: bool,
) -> (r: Option<Boarding>)
    requires
        data.wf(),
        route_idx < data.routes@.len(),
        stop_pos < data.routes@[route_idx as int].stop_idxs@.len(),
        templated == m::has_template(
            *data,
            route_idx as int,
            data.routes@[route_idx as int].num_trips as int,
        ),
    ensures
        r == m::boarding(*data, route_idx as int, stop_pos as int, min_dep, service_day as int),
        boarding_ok(r, data.routes@[route_idx as int].num_trips),
{
    let route = &data.routes[route_idx];
    let num_trips: u32 = route.num_trips;
    let ghost ri = route_idx as int;
    let ghost sp = stop_pos as int;
    let ghost day = service_day as int;
    proof {
        assert(data.route_ok(data.routes@[ri]));
    }
    let mut lo: u32 = 0;
    let mut hi: u32 = num_trips;
    while lo < hi
        invariant
            data.wf(),
            ri == route_idx < data.routes@.len(),
            *route == data.routes@[ri],
            num_trips == route.num_trips,
            sp == stop_pos < route.stop_idxs@.len(),
            lo <= hi <= num_trips,
            m::lower_bound(*data, ri, sp, min_dep, 0, num_trips as int) == m::lower_bound(
                *data,
                ri,
                sp,
                min_dep,
                lo as int,
                hi as int,
            ),
        decreases hi - lo,
    {
        let mid: u32 = lo + (hi - lo) / 2;
        proof {
            data.lemma_time_index(ri, mid as int, sp);
        }
        let dep: u32 = route.departure_at(&data.departures, mid, stop_pos);
        if dep < min_dep {
            lo = mid + 1;
        } else {
            hi = mid;
        }
    }
    let ghost from = lo as int;
    let mut scheduled: Option<Boarding> = None;
    let mut t: u32 = lo;
    while t < num_trips && scheduled.is_none()
        invariant
            data.wf(),
            ri == route_idx < data.routes@.len(),
            *route == data.routes@[ri],
            num_trips == route.num_trips,
            sp == stop_pos < route.stop_idxs@.len(),
            day == service_day,
            from <= t <= num_trips,
            scheduled is None ==> m::first_scheduled(*data, ri, sp, min_dep, day, from)
                == m::first_scheduled(*data, ri, sp, min_dep, day, t as int),
            scheduled is Some ==> scheduled == m::first_scheduled(*data, ri, sp, min_dep, day, from),
            boarding_ok(scheduled, num_trips),
        decreases num_trips - t,
    {
        proof {
            data.lemma_time_index(ri, t as int, sp);
            assert(data.route_ok(data.routes@[ri]));
        }
        let dep: u32 = route.departure_at(&data.departures, t, stop_pos);
        let trip = &data.trips[route.trip_idxs[t as usize] as usize];
        proof {
            assert(data.trip_ok(data.trips@[route.trip_idxs@[t as int] as int]));
        }
        if dep != NOT_SET && dep >= min_dep && trip.frequency_rules.len() == 0 && runs(
            data,
            trip,
            service_day,
        ) {
            assert(m::scheduled_ok(*data, ri, sp, min_dep, day, t as int));
            scheduled = Some(Boarding { trip_num: t, time: dep, freq_delta: 0 });
        } else {
            assert(!m::scheduled_ok(*data, ri, sp, min_dep, day, t as int));
        }
        t += 1;
    }
    if !templated {
        proof {
            lemma_no_template(*data, ri, sp, min_dep, day, num_trips as int);
        }
        return scheduled;
    }
    let mut repeated: Option<Boarding> = None;
    let mut t: u32 = 0;
    while t < num_trips
        invariant
            data.wf(),
            ri == route_idx < data.routes@.len(),
            *route == data.routes@[ri],
            num_trips == route.num_trips,
            sp == stop_pos < route.stop_idxs@.len(),
            day == service_day,
            t <= num_trips,
            repeated == m::best_template(*data, ri, sp, min_dep, day, t as int),
            boarding_ok(repeated, num_trips),
        decreases num_trips - t,
    {
        proof {
            data.lemma_time_index(ri, t as int, sp);
            assert(data.route_ok(data.routes@[ri]));
        }
        let dep: u32 = route.departure_at(&data.departures, t, stop_pos);
        let trip = &data.trips[route.trip_idxs[t as usize] as usize];
        proof {
            assert(data.trip_ok(data.trips@[route.trip_idxs@[t as int] as int]));
            lemma_best_rule_trip(
                *trip,
                t as int,
                dep,
                min_dep,
                trip.frequency_rules@.len() as int,
            );
        }
        if trip.frequency_rules.len() > 0 && dep != NOT_SET && runs(data, trip, service_day) {
            repeated = pick_earlier(repeated, board_template(trip, t, dep, min_dep));
        }
        t += 1;
    }
    pick_earlier(scheduled, repeated)
}

/// Which routes have templates.
fn templated_routes(data: &TransitData) -> (r: Vec<bool>)
    requires
        data.wf(),
    ensures
        templated_ok(*data, r@),
{
    let mut out: Vec<bool> = Vec::new();
    let mut i: usize = 0;
    while i < data.routes.len()
        invariant
            data.wf(),
            i <= data.routes@.len(),
            out@.len() == i,
            forall|k: int|
                0 <= k < i ==> #[trigger] out@[k] == m::has_template(
                    *data,
                    k,
                    data.routes@[k].num_trips as int,
                ),
        decreases data.routes@.len() - i,
    {
        let route = &data.routes[i];
        let mut t: usize = 0;
        let mut found: bool = false;
        proof {
            assert(data.route_ok(data.routes@[i as int]));
        }
        while t < route.num_trips as usize && !found
            invariant
                data.wf(),
                i < data.routes@.len(),
                *route == data.routes@[i as int],
                data.route_ok(*route),
                t <= route.num_trips,
                found ==> m::has_template(*data, i as int, route.num_trips as int),
                !found ==> !m::has_template(*data, i as int, t as int),
            decreases route.num_trips - t,
        {
            let trip = &data.trips[route.trip_idxs[t] as usize];
            assert(*trip == m::trip_of(*data, i as int, t as int));
            if trip.frequency_rules.len() > 0 {
                assert(m::is_template(m::trip_of(*data, i as int, t as int)));
                found = true;
            } else {
                assert(!m::is_template(m::trip_of(*data, i as int, t as int)));
            }
            t += 1;
        }
        out.push(found);
        i += 1;
    }
    out
}

pub open spec fn templated_ok(data: TransitData, flags: Seq<bool>) -> bool {
    &&& flags.len() == data.routes@.len()
    &&& forall|k: int|
        0 <= k < flags.len() ==> #[trigger] flags[k] == m::has_template(
            data,
            k,
            data.routes@[k].num_trips as int,
        )
}

// ---------------------------------------------------------------------------
// One round
// ---------------------------------------------------------------------------

/// Working state of a round.
struct RoundState {
    best: Vec<u32>,
    arr: Vec<u32>,
    par: Vec<Parent>,
}

impl View for RoundState {
    type V = Round;

    closed spec fn view(&self) -> Round {
        Round { best: self.best@, arr: self.arr@, par: self.par@ }
    }
}

/// The route stops at `x` at position `from` or later.
pub open spec fn calls_from(route: Route, x: int, from: int) -> bool {
    exists|p: int|
        from <= p < route.stop_idxs@.len() && #[trigger] route.stop_idxs@[p] == x
}

/// How stop `s` was reached names an existing trip or stop. A ride was boarded no later than where
/// it calls at `s`.
pub open spec fn parent_ok(data: TransitData, s: int, p: Parent) -> bool {
    match p {
        Parent::Unreached => true,
        Parent::Ride { route_idx, trip_num, board_pos, board_time, freq_delta } => {
            &&& route_idx < data.routes@.len()
            &&& trip_num < data.routes@[route_idx as int].num_trips
            &&& board_pos < data.routes@[route_idx as int].stop_idxs@.len()
            &&& calls_from(data.routes@[route_idx as int], s, board_pos as int)
        },
        Parent::Walk { from } => from < data.stops@.len(),
    }
}

pub open spec fn parents_ok(data: TransitData, par: Seq<Parent>) -> bool {
    forall|i: int| 0 <= i < par.len() ==> parent_ok(data, i, #[trigger] par[i])
}

/// A round has an entry for every stop.
pub open spec fn round_ok(data: TransitData, st: Round) -> bool {
    &&& st.best.len() == data.stops@.len()
    &&& st.arr.len() == data.stops@.len()
    &&& st.par.len() == data.stops@.len()
    &&& parents_ok(data, st.par)
}

impl RoundState {
    /// Nothing reached yet.
    fn fresh(best: Vec<u32>) -> (r: Self)
        ensures
            r@ == m::fresh_round(best@),
    {
        let n: usize = best.len();
        RoundState { best, arr: vec![NOT_SET; n], par: vec![Parent::Unreached; n] }
    }

    /// Records an arrival if it beats every earlier one.
    fn improve(&mut self, stop: usize, time: u32, parent: Parent, Ghost(data): Ghost<TransitData>)
        requires
            round_ok(data, old(self)@),
            stop < data.stops@.len(),
            parent_ok(data, stop as int, parent),
        ensures
            final(self)@ == m::improve(old(self)@, stop as int, time, parent),
            round_ok(data, final(self)@),
    {
        if time < self.best[stop] {
            self.best[stop] = time;
            self.arr[stop] = time;
            self.par[stop] = parent;
        }
    }
}

fn add_time(t: u32, secs: u32) -> (r: u32)
    ensures
        r == m::stored_time(t + secs),
{
    t.saturating_add(secs)
}

pub fn shift_time(t: u32, delta: i64) -> (r: u32)
    ensures
        r == m::shifted(t, delta as int),
{
    if t == NOT_SET {
        return NOT_SET;
    }
    match (t as i64).checked_add(delta) {
        Some(x) => if 0 <= x && x < NOT_SET as i64 {
            x as u32
        } else {
            NOT_SET
        },
        None => NOT_SET,
    }
}

/// Walks to the origin stops.
fn start_round(data: &TransitData, query: &RaptorQuery) -> (r: RoundState)
    requires
        data.wf(),
        query.wf(*data),
    ensures
        r@ == m::origins(*data, *query, query.origin_stops@.len() as int),
        round_ok(*data, r@),
{
    let n: usize = data.stops.len();
    let mut st = RoundState::fresh(vec![NOT_SET; n]);
    assert(st.best@ =~= Seq::new(data.stops@.len(), |i: int| NOT_SET));
    let mut i: usize = 0;
    while i < query.origin_stops.len()
        invariant
            data.wf(),
            query.wf(*data),
            i <= query.origin_stops@.len(),
            st@ == m::origins(*data, *query, i as int),
            round_ok(*data, st@),
        decreases query.origin_stops@.len() - i,
    {
        let (stop, walk) = query.origin_stops[i];
        st.improve(
            stop as usize,
            add_time(query.departure_time, walk),
            Parent::Unreached,
            Ghost(*data),
        );
        i += 1;
    }
    st
}

/// Scans a route from a position on.
fn scan_route(
    data: &TransitData,
    route_idx: usize,
    from: usize,
    service_day: u16,
    templated: bool,
    prev: &Vec<u32>,
    st: &mut RoundState,
)
    requires
        data.wf(),
        route_idx < data.routes@.len(),
        from <= data.routes@[route_idx as int].stop_idxs@.len(),
        templated == m::has_template(
            *data,
            route_idx as int,
            data.routes@[route_idx as int].num_trips as int,
        ),
        prev@.len() == data.stops@.len(),
        round_ok(*data, old(st)@),
    ensures
        final(st)@ == m::scan(
            *data,
            service_day as int,
            prev@,
            route_idx as int,
            from as int,
            data.routes@[route_idx as int].stop_idxs@.len() as int,
            old(st)@,
        ).st,
        round_ok(*data, final(st)@),
{
    let route = &data.routes[route_idx];
    let ghost ri = route_idx as int;
    let ghost day = service_day as int;
    let ghost st0 = st@;
    proof {
        assert(data.route_ok(data.routes@[ri]));
    }
    let mut ride: Option<OnBoard> = None;
    let mut pos: usize = from;
    while pos < route.stop_idxs.len()
        invariant
            data.wf(),
            ri == route_idx < data.routes@.len(),
            *route == data.routes@[ri],
            data.route_ok(*route),
            day == service_day,
            templated == m::has_template(*data, ri, route.num_trips as int),
            prev@.len() == data.stops@.len(),
            from <= pos <= route.stop_idxs@.len(),
            round_ok(*data, st@),
            m::scan(*data, day, prev@, ri, from as int, pos as int, st0) == (m::Scan {
                st: st@,
                ride,
            }),
            ride matches Some(rd) ==> rd.trip_num < route.num_trips && rd.board_pos < pos,
        decreases route.stop_idxs@.len() - pos,
    {
        let stop: usize = route.stop_idxs[pos] as usize;
        if let Some(rd) = ride {
            proof {
                data.lemma_time_index(ri, rd.trip_num as int, pos as int);
                assert(route.stop_idxs@[pos as int] == stop);
                assert(calls_from(*route, stop as int, rd.board_pos as int));
            }
            let arr: u32 = shift_time(
                route.arrival_at(&data.arrivals, rd.trip_num, pos),
                rd.freq_delta,
            );
            st.improve(
                stop,
                arr,
                Parent::Ride {
                    route_idx: route_idx as u32,
                    trip_num: rd.trip_num,
                    board_pos: rd.board_pos,
                    board_time: rd.board_time,
                    freq_delta: rd.freq_delta,
                },
                Ghost(*data),
            );
        }
        let at: u32 = prev[stop];
        if at != NOT_SET {
            if let Some(b) = earliest_trip(data, route_idx, pos, at, service_day, templated) {
                let better = match ride {
                    Some(rd) => {
                        proof {
                            data.lemma_time_index(ri, rd.trip_num as int, pos as int);
                        }
                        let leaves: u32 = shift_time(
                            route.departure_at(&data.departures, rd.trip_num, pos),
                            rd.freq_delta,
                        );
                        b.time < leaves
                    },
                    None => true,
                };
                if better {
                    ride = Some(
                        OnBoard {
                            trip_num: b.trip_num,
                            freq_delta: b.freq_delta,
                            board_pos: pos as u32,
                            board_time: b.time,
                        },
                    );
                }
            }
        }
        pos += 1;
    }
}

/// Position `p` may start a scan of route `r`, judging by the stops before `s` and, at `s` itself,
/// by the first `j` routes that it lists.
pub open spec fn marked_so_far(
    data: TransitData,
    prev: Seq<u32>,
    r: int,
    p: int,
    s: int,
    j: int,
) -> bool {
    let at = data.routes@[r].stop_idxs@[p] as int;
    &&& prev[at] != NOT_SET
    &&& (at < s && data.stops@[at].route_idxs@.contains(r as u32)) || (at == s
        && data.stops@[at].route_idxs@.take(j).contains(r as u32))
}

/// `v` is the least such position of route `r`, or `NOT_SET`.
pub open spec fn least_marked(
    data: TransitData,
    prev: Seq<u32>,
    r: int,
    v: u32,
    s: int,
    j: int,
) -> bool {
    let n = data.routes@[r].stop_idxs@.len();
    if v == NOT_SET {
        forall|p: int| 0 <= p < n ==> !#[trigger] marked_so_far(data, prev, r, p, s, j)
    } else {
        &&& v < n
        &&& marked_so_far(data, prev, r, v as int, s, j)
        &&& forall|p: int| 0 <= p < v ==> !#[trigger] marked_so_far(data, prev, r, p, s, j)
    }
}

proof fn lemma_least_is_first(data: TransitData, prev: Seq<u32>, r: int, v: u32, p: int)
    requires
        data.wf(),
        0 <= r < data.routes@.len(),
        least_marked(data, prev, r, v, data.stops@.len() as int, 0),
        0 <= p,
        v == NOT_SET || p <= v,
    ensures
        m::first_marked(data, prev, r, p) == (if v == NOT_SET {
            None::<int>
        } else {
            Some(v as int)
        }),
    decreases data.routes@[r].stop_idxs@.len() - p,
{
    assert(data.route_ok(data.routes@[r]));
    let n = data.routes@[r].stop_idxs@.len();
    if p < n {
        let at = data.routes@[r].stop_idxs@[p] as int;
        assert(at < data.stops@.len());
        assert(m::marked(data, prev, r, p) == marked_so_far(
            data,
            prev,
            r,
            p,
            data.stops@.len() as int,
            0,
        ));
        if !m::marked(data, prev, r, p) {
            lemma_least_is_first(data, prev, r, v, p + 1);
        }
    }
}

/// First position of a stop in a route.
fn first_pos(stops: &Vec<u32>, stop: u32, from: usize) -> (r: Option<usize>)
    requires
        from <= stops@.len(),
    ensures
        match r {
            Some(p) => m::index_from(stops@, stop, from as int) == Some(p as int),
            None => m::index_from(stops@, stop, from as int) is None,
        },
        match r {
            Some(p) => from <= p < stops@.len() && stops@[p as int] == stop && (forall|k: int|
                from <= k < p ==> stops@[k] != stop),
            None => forall|k: int| from <= k < stops@.len() ==> stops@[k] != stop,
        },
{
    let mut p: usize = from;
    while p < stops.len()
        invariant
            from <= p <= stops@.len(),
            forall|k: int| from <= k < p ==> stops@[k] != stop,
            m::index_from(stops@, stop, from as int) == m::index_from(stops@, stop, p as int),
        decreases stops@.len() - p,
    {
        if stops[p] == stop {
            return Some(p);
        }
        p += 1;
    }
    None
}

/// For each route, the first position where a scan may begin.
fn routes_to_scan(data: &TransitData, prev: &Vec<u32>) -> (r: Vec<u32>)
    requires
        data.wf(),
        prev@.len() == data.stops@.len(),
    ensures
        r@.len() == data.routes@.len(),
        forall|i: int|
            0 <= i < r@.len() ==> m::first_marked(*data, prev@, i, 0) == (if #[trigger] r@[i]
                == NOT_SET {
                None::<int>
            } else {
                Some(r@[i] as int)
            }) && (r@[i] != NOT_SET ==> r@[i] < data.routes@[i].stop_idxs@.len()),
{
    let nr: usize = data.routes.len();
    let mut seen: Vec<u32> = vec![NOT_SET; nr];
    let mut s: usize = 0;
    while s < data.stops.len()
        invariant
            data.wf(),
            prev@.len() == data.stops@.len(),
            s <= data.stops@.len(),
            seen@.len() == data.routes@.len(),
            forall|i: int|
                0 <= i < seen@.len() ==> least_marked(
                    *data,
                    prev@,
                    i,
                    #[trigger] seen@[i],
                    s as int,
                    0,
                ),
        decreases data.stops@.len() - s,
    {
        if prev[s] != NOT_SET {
            let route_idxs = &data.stops[s].route_idxs;
            proof {
                assert(data.stop_ok(data.stops@[s as int]));
            }
            let mut j: usize = 0;
            while j < route_idxs.len()
                invariant
                    data.wf(),
                    prev@.len() == data.stops@.len(),
                    s < data.stops@.len(),
                    prev@[s as int] != NOT_SET,
                    *route_idxs == data.stops@[s as int].route_idxs,
                    data.stop_ok(data.stops@[s as int]),
                    j <= route_idxs@.len(),
                    seen@.len() == data.routes@.len(),
                    forall|i: int|
                        0 <= i < seen@.len() ==> least_marked(
                            *data,
                            prev@,
                            i,
                            #[trigger] seen@[i],
                            s as int,
                            j as int,
                        ),
                decreases route_idxs@.len() - j,
            {
                let r: usize = route_idxs[j] as usize;
                let ghost before = seen@;
                proof {
                    assert(data.route_ok(data.routes@[r as int]));
                }
                let found = first_pos(&data.routes[r].stop_idxs, s as u32, 0);
                if let Some(p) = found {
                    if seen[r] == NOT_SET || (p as u32) < seen[r] {
                        seen[r] = p as u32;
                    }
                }
                proof {
                    lemma_mark_step(*data, prev@, s as int, j as int, r as int, before, seen@);
                }
                j += 1;
            }
            proof {
                assert forall|i: int| 0 <= i < seen@.len() implies least_marked(
                    *data,
                    prev@,
                    i,
                    #[trigger] seen@[i],
                    s + 1,
                    0,
                ) by {
                    lemma_mark_next(*data, prev@, i, seen@[i], s as int);
                }
            }
        } else {
            proof {
                assert forall|i: int| 0 <= i < seen@.len() implies least_marked(
                    *data,
                    prev@,
                    i,
                    #[trigger] seen@[i],
                    s + 1,
                    0,
                ) by {
                    lemma_mark_skip(*data, prev@, i, seen@[i], s as int);
                }
            }
        }
        s += 1;
    }
    proof {
        assert forall|i: int| 0 <= i < seen@.len() implies m::first_marked(*data, prev@, i, 0) == (
        if #[trigger] seen@[i] == NOT_SET {
            None::<int>
        } else {
            Some(seen@[i] as int)
        }) by {
            lemma_least_is_first(*data, prev@, i, seen@[i], 0);
        }
    }
    seen
}

proof fn lemma_mark_next(data: TransitData, prev: Seq<u32>, r: int, v: u32, s: int)
    requires
        least_marked(data, prev, r, v, s, data.stops@[s].route_idxs@.len() as int),
    ensures
        least_marked(data, prev, r, v, s + 1, 0),
{
    let all = data.stops@[s].route_idxs@;
    assert(all.take(all.len() as int) =~= all);
    assert forall|p: int| #[trigger]
        marked_so_far(data, prev, r, p, s + 1, 0) == marked_so_far(
        data,
        prev,
        r,
        p,
        s,
        all.len() as int,
    ) by {}
}

proof fn lemma_mark_skip(data: TransitData, prev: Seq<u32>, r: int, v: u32, s: int)
    requires
        least_marked(data, prev, r, v, s, 0),
        prev[s] == NOT_SET,
    ensures
        least_marked(data, prev, r, v, s + 1, 0),
{
    assert forall|p: int| #[trigger]
        marked_so_far(data, prev, r, p, s + 1, 0) == marked_so_far(data, prev, r, p, s, 0) by {}
}

proof fn lemma_mark_step(
    data: TransitData,
    prev: Seq<u32>,
    s: int,
    j: int,
    r: int,
    before: Seq<u32>,
    after: Seq<u32>,
)
    requires
        data.wf(),
        0 <= s < data.stops@.len(),
        prev[s] != NOT_SET,
        0 <= j < data.stops@[s].route_idxs@.len(),
        r == data.stops@[s].route_idxs@[j],
        0 <= r < data.routes@.len(),
        before.len() == data.routes@.len(),
        after.len() == before.len(),
        forall|i: int|
            0 <= i < before.len() ==> least_marked(data, prev, i, #[trigger] before[i], s, j),
        forall|i: int| 0 <= i < before.len() && i != r ==> after[i] == before[i],
        ({
            let at = m::index_from(data.routes@[r].stop_idxs@, s as u32, 0);
            let v = before[r];
            &&& at is None ==> after[r] == v && (forall|k: int|
                0 <= k < data.routes@[r].stop_idxs@.len() ==> data.routes@[r].stop_idxs@[k] != s)
            &&& at is Some ==> {
                let p = at->0;
                &&& 0 <= p < data.routes@[r].stop_idxs@.len()
                &&& data.routes@[r].stop_idxs@[p] == s
                &&& (forall|k: int| 0 <= k < p ==> data.routes@[r].stop_idxs@[k] != s)
                &&& after[r] == (if v == NOT_SET || p < v {
                    p as u32
                } else {
                    v
                })
            }
        }),
    ensures
        forall|i: int|
            0 <= i < after.len() ==> least_marked(data, prev, i, #[trigger] after[i], s, j + 1),
{
    let all = data.stops@[s].route_idxs@;
    assert(all.take(j + 1) =~= all.take(j).push(all[j]));
    assert(data.route_ok(data.routes@[r]));
    assert forall|x: u32| #[trigger]
        all.take(j + 1).contains(x) == (all.take(j).contains(x) || x == all[j]) by {
        if all.take(j).contains(x) {
            let q = choose|q: int| 0 <= q < all.take(j).len() && all.take(j)[q] == x;
            assert(all.take(j + 1)[q] == x);
        }
        if x == all[j] {
            assert(all.take(j + 1)[j] == x);
        }
        if all.take(j + 1).contains(x) && x != all[j] {
            let more = all.take(j + 1);
            let q = choose|q: int| 0 <= q < more.len() && more[q] == x;
            assert(all.take(j)[q] == x);
        }
    }
    assert forall|i: int| 0 <= i < after.len() implies least_marked(
        data,
        prev,
        i,
        #[trigger] after[i],
        s,
        j + 1,
    ) by {
        assert(least_marked(data, prev, i, before[i], s, j));
        let stops = data.routes@[i].stop_idxs@;
        assert forall|p: int| #[trigger]
            marked_so_far(data, prev, i, p, s, j + 1) == (marked_so_far(data, prev, i, p, s, j) || (
        i == r && stops[p] == s)) by {
            assert(all.take(j + 1).contains(i as u32) == (all.take(j).contains(i as u32) || i as u32
                == all[j]));
        }
        if i == r {
            if after[r] != NOT_SET {
                assert(marked_so_far(data, prev, r, after[r] as int, s, j + 1));
            }
        }
    }
}

/// Takes the footpaths from one stop.
fn walk_on(data: &TransitData, s: usize, st: &mut RoundState)
    requires
        data.wf(),
        s < data.stops@.len(),
        round_ok(*data, old(st)@),
    ensures
        final(st)@ == m::walk_from(
            *data,
            s as int,
            data.stops@[s as int].num_transfers as int,
            old(st)@,
        ),
        round_ok(*data, final(st)@),
{
    let stop = &data.stops[s];
    let ghost st0 = st@;
    proof {
        assert(data.stop_ok(data.stops@[s as int]));
    }
    let start: usize = stop.transfers_offset as usize;
    let num: usize = stop.num_transfers as usize;
    let mut i: usize = 0;
    while i < num
        invariant
            data.wf(),
            s < data.stops@.len(),
            *stop == data.stops@[s as int],
            start == stop.transfers_offset,
            num == stop.num_transfers,
            start + num <= data.transfers.len(),
            i <= num,
            round_ok(*data, st@),
            st@ == m::walk_from(*data, s as int, i as int, st0),
        decreases num - i,
    {
        let t = data.transfers[start + i];
        let time: u32 = add_time(st.arr[s], t.walk_seconds as u32);
        st.improve(t.to_stop_idx as usize, time, Parent::Walk { from: s as u32 }, Ghost(*data));
        i += 1;
    }
}

/// Goes through one round.
fn play_round(
    data: &TransitData,
    service_day: u16,
    templated: &Vec<bool>,
    prev: &Vec<u32>,
    best: Vec<u32>,
    Ghost(last): Ghost<Round>,
) -> (st: RoundState)
    requires
        data.wf(),
        templated_ok(*data, templated@),
        round_ok(*data, last),
        last.arr == prev@,
        last.best == best@,
    ensures
        st@ == m::next_round(*data, service_day as int, last),
        round_ok(*data, st@),
{
    let seen = routes_to_scan(data, prev);
    let mut st = RoundState::fresh(best);
    let ghost day = service_day as int;
    let ghost st0 = st@;
    let mut r: usize = 0;
    while r < data.routes.len()
        invariant
            data.wf(),
            templated_ok(*data, templated@),
            prev@.len() == data.stops@.len(),
            day == service_day,
            r <= data.routes@.len(),
            seen@.len() == data.routes@.len(),
            forall|i: int|
                0 <= i < seen@.len() ==> m::first_marked(*data, prev@, i, 0) == (
                if #[trigger] seen@[i] == NOT_SET {
                    None::<int>
                } else {
                    Some(seen@[i] as int)
                }) && (seen@[i] != NOT_SET ==> seen@[i] < data.routes@[i].stop_idxs@.len()),
            round_ok(*data, st@),
            st@ == m::scan_routes(*data, day, prev@, r as int, st0),
        decreases data.routes@.len() - r,
    {
        if seen[r] != NOT_SET {
            assert(templated@[r as int] == m::has_template(
                *data,
                r as int,
                data.routes@[r as int].num_trips as int,
            ));
            scan_route(data, r, seen[r] as usize, service_day, templated[r], prev, &mut st);
        } else {
            assert(seen@[r as int] == NOT_SET);
        }
        r += 1;
    }
    let ghost st1 = st@;
    let mut s: usize = 0;
    while s < data.stops.len()
        invariant
            data.wf(),
            s <= data.stops@.len(),
            round_ok(*data, st@),
            st@ == m::walks(*data, s as int, st1),
        decreases data.stops@.len() - s,
    {
        if st.arr[s] != NOT_SET {
            walk_on(data, s, &mut st);
        }
        s += 1;
    }
    st
}

/// Arrivals and parents of a finished round.
struct Reached {
    arr: Vec<u32>,
    par: Vec<Parent>,
}

/// The stored rounds are those of the model.
spec fn stored_rounds(data: TransitData, done: Seq<Reached>, rs: Seq<Round>) -> bool {
    &&& done.len() == rs.len()
    &&& forall|i: int|
        0 <= i < done.len() ==> {
            &&& (#[trigger] done[i]).arr@ == rs[i].arr
            &&& done[i].par@ == rs[i].par
            &&& round_ok(data, rs[i])
        }
}

fn any_set(arr: &Vec<u32>) -> (r: bool)
    ensures
        r == m::any_reached(arr@),
{
    let mut i: usize = 0;
    while i < arr.len()
        invariant
            i <= arr@.len(),
            forall|k: int| 0 <= k < i ==> arr@[k] == NOT_SET,
        decreases arr@.len() - i,
    {
        if arr[i] != NOT_SET {
            return true;
        }
        i += 1;
    }
    false
}

/// Once a round reaches nothing there are no further rounds.
proof fn lemma_search_ends(data: TransitData, query: RaptorQuery, k: int, n: int)
    requires
        0 <= k <= n,
        !m::any_reached(m::rounds(data, query, k).last().arr),
    ensures
        m::rounds(data, query, n) == m::rounds(data, query, k),
    decreases n,
{
    if n > k {
        lemma_search_ends(data, query, k, n - 1);
    }
}

/// Goes through the rounds of a query.
fn search(data: &TransitData, query: &RaptorQuery) -> (done: Vec<Reached>)
    requires
        data.wf(),
        query.wf(*data),
    ensures
        stored_rounds(*data, done@, m::query_rounds(*data, *query)),
{
    let templated = templated_routes(data);
    let max_rounds: u64 = query.max_transfers as u64 + 1;
    let mut st = start_round(data, query);
    let mut done: Vec<Reached> = Vec::new();
    let mut k: u64 = 0;
    let ghost mut rs = m::rounds(*data, *query, 0);
    while k < max_rounds && any_set(&st.arr)
        invariant
            data.wf(),
            query.wf(*data),
            templated_ok(*data, templated@),
            max_rounds == query.max_transfers + 1,
            k <= max_rounds,
            rs == m::rounds(*data, *query, k as int),
            rs.len() > 0,
            st@ == rs.last(),
            round_ok(*data, st@),
            stored_rounds(*data, done@, rs.drop_last()),
        decreases max_rounds - k,
    {
        let ghost last = st@;
        let RoundState { best, arr, par } = st;
        let next = play_round(data, query.service_day, &templated, &arr, best, Ghost(last));
        done.push(Reached { arr, par });
        proof {
            rs = rs.push(next@);
            assert(rs.drop_last() =~= m::rounds(*data, *query, k as int));
            assert(rs.drop_last().drop_last() =~= m::rounds(*data, *query, k as int).drop_last());
        }
        st = next;
        k += 1;
    }
    proof {
        if k < max_rounds {
            lemma_search_ends(*data, *query, k as int, max_rounds as int);
        }
        assert(rs =~= rs.drop_last().push(rs.last()));
    }
    done.push(Reached { arr: st.arr, par: st.par });
    done
}

// ---------------------------------------------------------------------------
// Journeys
// ---------------------------------------------------------------------------

/// Finds where a route stops: from `min_pos` on if it does, else anywhere, else at the start.
pub fn find_stop_pos(route: &Route, stop_idx: u32, min_pos: u32) -> (r: u32)
    requires
        route.stop_idxs@.len() < NOT_SET,
    ensures
        r == m::stop_pos(route.stop_idxs@, stop_idx, min_pos as int),
        route.stop_idxs@.len() > 0 ==> r < route.stop_idxs@.len(),
{
    if min_pos as usize <= route.stop_idxs.len() {
        if let Some(p) = first_pos(&route.stop_idxs, stop_idx, min_pos as usize) {
            return p as u32;
        }
    }
    match first_pos(&route.stop_idxs, stop_idx, 0) {
        Some(p) => p as u32,
        None => 0,
    }
}

/// What stands at `p` is found from any position up to it.
proof fn lemma_index_from(s: Seq<u32>, x: u32, from: int, p: int)
    requires
        0 <= from <= p < s.len(),
        s[p] == x,
    ensures
        m::index_from(s, x, from) is Some,
        from <= m::index_from(s, x, from)->0 <= p,
    decreases p - from,
{
    if s[from] != x {
        lemma_index_from(s, x, from + 1, p);
    }
}

fn reversed(v: &Vec<RaptorLeg>) -> (r: Vec<RaptorLeg>)
    ensures
        r@ == v@.reverse(),
{
    let mut out: Vec<RaptorLeg> = Vec::new();
    let mut i: usize = v.len();
    while i > 0
        invariant
            i <= v@.len(),
            out@.len() == v@.len() - i,
            forall|k: int| 0 <= k < out@.len() ==> out@[k] == v@[v@.len() - 1 - k],
        decreases i,
    {
        i -= 1;
        out.push(v[i]);
    }
    out
}

/// Reconstructs the legs that lead to a stop in a round.
fn trace_back(
    data: &TransitData,
    done: &Vec<Reached>,
    round: usize,
    stop: usize,
    Ghost(rs): Ghost<Seq<Round>>,
) -> (legs: Vec<RaptorLeg>)
    requires
        data.wf(),
        stored_rounds(*data, done@, rs),
        round < rs.len(),
        stop < data.stops@.len(),
    ensures
        legs@ == m::trace(*data, rs, round as int, stop as int, data.stops@.len()),
        legs_ok(*data, legs@),
{
    let mut back: Vec<RaptorLeg> = Vec::new();
    let mut k: usize = round;
    let mut s: usize = stop;
    let mut fuel: usize = data.stops.len();
    let ghost whole = m::trace(*data, rs, round as int, stop as int, data.stops@.len());
    let mut more: bool = true;
    proof {
        assert(whole + back@.reverse() =~= whole);
    }
    while more && k > 0
        invariant
            data.wf(),
            stored_rounds(*data, done@, rs),
            k < rs.len(),
            s < data.stops@.len(),
            legs_ok(*data, back@),
            more ==> whole =~= m::trace(*data, rs, k as int, s as int, fuel as nat)
                + back@.reverse(),
            !more ==> whole =~= back@.reverse(),
        decreases k, fuel, (if more { 1int } else { 0int }),
    {
        assert(done@[k as int].par@ == rs[k as int].par);
        let p = done[k].par[s];
        let ghost par = rs[k as int].par[s as int];
        assert(parent_ok(*data, s as int, rs[k as int].par[s as int]));
        match p {
            Parent::Unreached => {
                more = false;
            },
            Parent::Walk { from } => {
                if fuel == 0 {
                    more = false;
                } else {
                    s = from as usize;
                    fuel -= 1;
                }
            },
            Parent::Ride { route_idx, trip_num, board_pos, board_time, freq_delta } => {
                let route = &data.routes[route_idx as usize];
                proof {
                    assert(data.route_ok(data.routes@[route_idx as int]));
                }
                let alight_pos: u32 = find_stop_pos(route, s as u32, board_pos);
                proof {
                    let at = choose|p: int|
                        board_pos <= p < route.stop_idxs@.len() && #[trigger] route.stop_idxs@[p]
                            == s;
                    lemma_index_from(route.stop_idxs@, s as u32, board_pos as int, at);
                    data.lemma_time_index(route_idx as int, trip_num as int, alight_pos as int);
                }
                let leg = RaptorLeg {
                    route_idx,
                    trip_num,
                    board_stop_pos: board_pos,
                    alight_stop_pos: alight_pos,
                    board_time,
                    alight_time: shift_time(
                        route.arrival_at(&data.arrivals, trip_num, alight_pos as usize),
                        freq_delta,
                    ),
                    freq_delta,
                };
                let ghost before = back@;
                back.push(leg);
                proof {
                    assert(leg == m::ride_leg(*data, s as int, par));
                    assert(back@.reverse() =~= seq![leg] + before.reverse());
                }
                s = route.stop_idxs[board_pos as usize] as usize;
                k -= 1;
                fuel = data.stops.len();
            },
        }
    }
    reversed(&back)
}

/// A leg names an existing trip and existing stops, and does not go back.
pub open spec fn leg_ok(data: TransitData, leg: RaptorLeg) -> bool {
    &&& leg.route_idx < data.routes@.len()
    &&& leg.trip_num < data.routes@[leg.route_idx as int].num_trips
    &&& leg.board_stop_pos <= leg.alight_stop_pos
    &&& leg.alight_stop_pos < data.routes@[leg.route_idx as int].stop_idxs@.len()
}

pub open spec fn legs_ok(data: TransitData, legs: Seq<RaptorLeg>) -> bool {
    forall|i: int| 0 <= i < legs.len() ==> leg_ok(data, #[trigger] legs[i])
}

proof fn lemma_insert_at(s: Seq<JourneyView>, j: JourneyView, i: int)
    requires
        0 <= i <= s.len(),
        i > 0 ==> m::in_order(s[i - 1], j),
        forall|k: int| i <= k < s.len() ==> !m::in_order(#[trigger] s[k], j),
    ensures
        m::insert_by_arrival(s, j) == s.insert(i, j),
    decreases s.len(),
{
    if i == s.len() {
        assert(s.insert(i, j) =~= s.push(j));
    } else {
        lemma_insert_at(s.drop_last(), j, i);
        assert(s.drop_last().insert(i, j).push(s.last()) =~= s.insert(i, j));
    }
}

/// Puts a journey after every journey that may be listed before it.
fn insert_journey(found: &mut Vec<RaptorJourney>, j: RaptorJourney)
    ensures
        journeys_view(final(found)@) == m::insert_by_arrival(journeys_view(old(found)@), j@),
{
    let ghost before = journeys_view(found@);
    let mut i: usize = found.len();
    while i > 0 && (found[i - 1].arrival_time > j.arrival_time || (found[i - 1].arrival_time
        == j.arrival_time && found[i - 1].departure_time < j.departure_time))
        invariant
            i <= found@.len(),
            before == journeys_view(found@),
            forall|k: int| i <= k < before.len() ==> !m::in_order(#[trigger] before[k], j@),
        decreases i,
    {
        assert(!m::in_order(before[i - 1], j@));
        i -= 1;
    }
    proof {
        if i > 0 {
            assert(before[i - 1] == found@[i - 1]@);
        }
        lemma_insert_at(before, j@, i as int);
        assert(journeys_view(found@.insert(i as int, j)) =~= before.insert(i as int, j@));
    }
    found.insert(i, j);
}

/// Walking time to a stop, zero if the list does not have it.
fn find_walk_secs(stops: &Vec<(u32, u32)>, stop: u32) -> (r: u32)
    ensures
        r == m::walk_secs_to(stops@, stop, 0),
{
    let mut i: usize = 0;
    while i < stops.len()
        invariant
            i <= stops@.len(),
            m::walk_secs_to(stops@, stop, 0) == m::walk_secs_to(stops@, stop, i as int),
        decreases stops@.len() - i,
    {
        if stops[i].0 == stop {
            return stops[i].1;
        }
        i += 1;
    }
    0
}

/// The journey that legs to a destination stop make.
fn make_journey(
    data: &TransitData,
    query: &RaptorQuery,
    legs: Vec<RaptorLeg>,
    arr: u32,
    dest: (u32, u32),
) -> (j: RaptorJourney)
    requires
        data.wf(),
        legs@.len() > 0,
        legs_ok(*data, legs@),
    ensures
        j@ == m::journey_of(*data, *query, legs@, arr, dest),
{
    let first_leg = legs[0];
    assert(leg_ok(*data, legs@[0]));
    let first: u32 =
        data.routes[first_leg.route_idx as usize].stop_idxs[first_leg.board_stop_pos as usize];
    let access: u32 = find_walk_secs(&query.origin_stops, first);
    RaptorJourney {
        legs,
        departure_time: first_leg.board_time.saturating_sub(access),
        arrival_time: add_time(arr, dest.1),
        access_walk_secs: access,
        egress_walk_secs: dest.1,
        access_stop_idx: first,
        egress_stop_idx: dest.0,
    }
}

/// Collects the journeys to all destination stops, in order of arrival.
fn collect_journeys(
    data: &TransitData,
    query: &RaptorQuery,
    done: &Vec<Reached>,
    Ghost(rs): Ghost<Seq<Round>>,
) -> (found: Vec<RaptorJourney>)
    requires
        data.wf(),
        query.wf(*data),
        stored_rounds(*data, done@, rs),
        rs.len() > 0,
    ensures
        journeys_view(found@) == m::all_journeys(
            *data,
            *query,
            rs,
            query.dest_stops@.len() as int,
        ),
        journeys_ok(*data, found@),
{
    let mut found: Vec<RaptorJourney> = Vec::new();
    assert(journeys_view(found@) =~= Seq::empty());
    let mut i: usize = 0;
    while i < query.dest_stops.len()
        invariant
            data.wf(),
            query.wf(*data),
            stored_rounds(*data, done@, rs),
            rs.len() > 0,
            i <= query.dest_stops@.len(),
            journeys_view(found@) == m::all_journeys(*data, *query, rs, i as int),
            journeys_ok(*data, found@),
        decreases query.dest_stops@.len() - i,
    {
        let dest = query.dest_stops[i];
        let ghost start = journeys_view(found@);
        let mut k: usize = 1;
        while k < done.len()
            invariant
                data.wf(),
                query.wf(*data),
                stored_rounds(*data, done@, rs),
                rs.len() > 0,
                dest.0 < data.stops@.len(),
                1 <= k <= rs.len(),
                journeys_view(found@) == m::dest_journeys(
                    *data,
                    *query,
                    rs,
                    dest,
                    k as int,
                    start,
                ),
                journeys_ok(*data, found@),
            decreases rs.len() - k,
        {
            assert(done@[k as int].arr@ == rs[k as int].arr);
            let arr: u32 = done[k].arr[dest.0 as usize];
            if arr != NOT_SET {
                let legs = trace_back(data, done, k, dest.0 as usize, Ghost(rs));
                if legs.len() > 0 {
                    let j = make_journey(data, query, legs, arr, dest);
                    let ghost old_found = found@;
                    insert_journey(&mut found, j);
                    proof {
                        lemma_insert_ok(*data, journeys_view(old_found), j@);
                        assert forall|x: int| 0 <= x < found@.len() implies journey_ok(
                            *data,
                            (#[trigger] found@[x])@,
                        ) by {
                            assert(journey_ok(*data, journeys_view(found@)[x]));
                        }
                    }
                }
            }
            k += 1;
        }
        i += 1;
    }
    found
}

/// A journey has a first leg, and its legs exist.
pub open spec fn journey_ok(data: TransitData, j: JourneyView) -> bool {
    &&& j.legs.len() > 0
    &&& legs_ok(data, j.legs)
    &&& j.access_stop_idx < data.stops@.len()
    &&& j.egress_stop_idx < data.stops@.len()
}

pub open spec fn journeys_ok(data: TransitData, s: Seq<RaptorJourney>) -> bool {
    forall|i: int| 0 <= i < s.len() ==> journey_ok(data, (#[trigger] s[i])@)
}

proof fn lemma_insert_ok(data: TransitData, s: Seq<JourneyView>, j: JourneyView)
    requires
        journey_ok(data, j),
        forall|i: int| 0 <= i < s.len() ==> journey_ok(data, #[trigger] s[i]),
    ensures
        forall|i: int|
            0 <= i < m::insert_by_arrival(s, j).len() ==> journey_ok(
                data,
                #[trigger] m::insert_by_arrival(s, j)[i],
            ),
    decreases s.len(),
{
    if s.len() > 0 && !m::in_order(s.last(), j) {
        assert(journey_ok(data, s[s.len() - 1]));
        assert forall|i: int| 0 <= i < s.drop_last().len() implies journey_ok(
            data,
            #[trigger] s.drop_last()[i],
        ) by {
            assert(s.drop_last()[i] == s[i]);
        }
        lemma_insert_ok(data, s.drop_last(), j);
    }
    let out = m::insert_by_arrival(s, j);
    assert forall|i: int| 0 <= i < out.len() implies journey_ok(data, #[trigger] out[i]) by {
        if s.len() > 0 && !m::in_order(s.last(), j) {
            let inner = m::insert_by_arrival(s.drop_last(), j);
            if i < inner.len() {
                assert(out[i] == inner[i]);
            }
        } else if i < s.len() {
            assert(out[i] == s[i]);
        }
    }
}

fn is_dominated(kept: &Vec<RaptorJourney>, j: &RaptorJourney) -> (r: bool)
    ensures
        r == m::dominated(journeys_view(kept@), j@),
{
    let mut i: usize = 0;
    while i < kept.len()
        invariant
            i <= kept@.len(),
            forall|k: int|
                0 <= k < i ==> !m::dominates(#[trigger] journeys_view(kept@)[k], j@),
        decreases kept@.len() - i,
    {
        let f = &kept[i];
        if f.departure_time >= j.departure_time && f.arrival_time <= j.arrival_time {
            assert(m::dominates(journeys_view(kept@)[i as int], j@));
            return true;
        }
        i += 1;
    }
    false
}

/// Drops each journey that one kept before it dominates.
fn drop_dominated(found: Vec<RaptorJourney>, Ghost(data): Ghost<TransitData>) -> (kept: Vec<
    RaptorJourney,
>)
    requires
        journeys_ok(data, found@),
    ensures
        journeys_view(kept@) == m::undominated(journeys_view(found@)),
        journeys_ok(data, kept@),
{
    let ghost all = journeys_view(found@);
    let ghost found0 = found@;
    let mut kept: Vec<RaptorJourney> = Vec::new();
    assert(journeys_view(kept@) =~= Seq::empty());
    assert(all.take(0) =~= Seq::empty());
    for j in it: found
        invariant
            it.seq() == found0,
            all == journeys_view(found0),
            journeys_ok(data, found0),
            journeys_ok(data, kept@),
            journeys_view(kept@) == m::undominated(all.take(it.index() as int)),
    {
        proof {
            assert(all.take(it.index() as int + 1).drop_last() =~= all.take(it.index() as int));
            assert(j == found0[it.index() as int]);
        }
        if !is_dominated(&kept, &j) {
            let ghost before = kept@;
            kept.push(j);
            assert(journeys_view(kept@) =~= journeys_view(before).push(j@));
        }
    }
    assert(all.take(all.len() as int) =~= all);
    kept
}

proof fn lemma_rounds_nonempty(data: TransitData, query: RaptorQuery, k: int)
    ensures
        m::rounds(data, query, k).len() > 0,
    decreases k,
{
    if k > 0 {
        lemma_rounds_nonempty(data, query, k - 1);
    }
}

/// Finds journeys from the origin stops to the destination stops: of those found in any round, in
/// order of arrival, the ones that no other beats on both ends.
pub fn run(data: &TransitData, query: &RaptorQuery) -> (r: Vec<RaptorJourney>)
    requires
        data.wf(),
        query.wf(*data),
    ensures
        journeys_view(r@) == m::answer(*data, *query),
        journeys_ok(*data, r@),
{
    let done = search(data, query);
    let ghost rs = m::query_rounds(*data, *query);
    proof {
        lemma_rounds_nonempty(*data, *query, query.max_transfers + 1);
    }
    let found = collect_journeys(data, query, &done, Ghost(rs));
    let mut kept = drop_dominated(found, Ghost(*data));
    let ghost all = kept@;
    kept.truncate(query.max_results);
    proof {
        assert(journeys_view(kept@) =~= m::at_most(
            journeys_view(all),
            query.max_results as int,
        ));
    }
    kept
}

// ---------------------------------------------------------------------------
// Rounds
// ---------------------------------------------------------------------------

/// How a stop was reached in a round.
fn stop_reached(data: &TransitData, round: &Reached, k: usize, s: usize, Ghost(st): Ghost<Round>) -> (r:
    VizStop)
    requires
        data.wf(),
        round_ok(*data, st),
        round.arr@ == st.arr,
        round.par@ == st.par,
        s < data.stops@.len(),
    ensures
        r@ == v::reached_stop(*data, st, k as int, s as int),
        r.route_idx == NOT_SET || r.route_idx < data.routes@.len(),
{
    let stop = &data.stops[s];
    let mut x = VizStop {
        stop_idx: s as u32,
        lat: stop.lat,
        lon: stop.lon,
        name: t::copy_str(stop.name.as_str()),
        arrival_secs: round.arr[s],
        round: k as u32,
        route_color: 0,
        parent_stop_idx: NOT_SET,
        route_idx: NOT_SET,
        board_stop_pos: NOT_SET,
        alight_stop_pos: NOT_SET,
    };
    assert(parent_ok(*data, s as int, st.par[s as int]));
    match round.par[s] {
        Parent::Unreached => {},
        Parent::Walk { from } => {
            x.parent_stop_idx = from;
        },
        Parent::Ride { route_idx, trip_num, board_pos, board_time, freq_delta } => {
            let route = &data.routes[route_idx as usize];
            assert(data.route_ok(data.routes@[route_idx as int]));
            x.route_color = route.color;
            x.parent_stop_idx = route.stop_idxs[board_pos as usize];
            x.route_idx = route_idx;
            x.board_stop_pos = board_pos;
            x.alight_stop_pos = find_stop_pos(route, s as u32, board_pos);
        },
    }
    x
}

/// The stops reached in a round.
fn stops_reached(data: &TransitData, round: &Reached, k: usize, Ghost(st): Ghost<Round>) -> (r: Vec<
    VizStop,
>)
    requires
        data.wf(),
        round_ok(*data, st),
        round.arr@ == st.arr,
        round.par@ == st.par,
    ensures
        f::views(r@) == v::reached_stops(*data, st, k as int, data.stops@.len() as int),
        forall|i: int|
            0 <= i < r@.len() ==> (#[trigger] r@[i]).route_idx == NOT_SET || r@[i].route_idx
                < data.routes@.len(),
{
    let mut out: Vec<VizStop> = Vec::new();
    let mut s: usize = 0;
    assert(f::views(out@) =~= Seq::empty());
    while s < data.stops.len()
        invariant
            data.wf(),
            round_ok(*data, st),
            round.arr@ == st.arr,
            round.par@ == st.par,
            s <= data.stops@.len(),
            f::views(out@) == v::reached_stops(*data, st, k as int, s as int),
            forall|i: int|
                0 <= i < out@.len() ==> (#[trigger] out@[i]).route_idx == NOT_SET
                    || out@[i].route_idx < data.routes@.len(),
        decreases data.stops@.len() - s,
    {
        if round.arr[s] != NOT_SET {
            let x = stop_reached(data, round, k, s, Ghost(st));
            proof {
                f::lemma_views_push(out@, x);
            }
            out.push(x);
        }
        s += 1;
    }
    out
}

/// Searches and returns the stops reached in each round. Destination stops do not matter.
pub fn run_viz(data: &TransitData, query: &RaptorQuery) -> (r: RaptorViz)
    requires
        data.wf(),
        query.wf(*data),
    ensures
        v::round_views(r.rounds@) == v::reached_rounds(*data, m::query_rounds(*data, *query)),
        v::routes_exist(v::round_views(r.rounds@), data.routes@.len() as int),
        r.departure_time == query.departure_time,
{
    let done = search(data, query);
    let ghost rs = m::query_rounds(*data, *query);
    let ghost all = v::reached_rounds(*data, rs);
    let mut rounds: Vec<Vec<VizStop>> = Vec::new();
    let mut k: usize = 0;
    assert(v::round_views(rounds@) =~= all.take(0));
    while k < done.len()
        invariant
            data.wf(),
            stored_rounds(*data, done@, rs),
            all == v::reached_rounds(*data, rs),
            k <= done@.len(),
            rounds@.len() == k,
            v::round_views(rounds@) == all.take(k as int),
            forall|a: int, b: int|
                0 <= a < k && 0 <= b < rounds@[a]@.len() ==> (
                #[trigger] rounds@[a]@[b]).route_idx == NOT_SET || rounds@[a]@[b].route_idx
                    < data.routes@.len(),
        decreases done@.len() - k,
    {
        assert(done@[k as int].arr@ == rs[k as int].arr);
        let list = stops_reached(data, &done[k], k, Ghost(rs[k as int]));
        let ghost before = rounds@;
        rounds.push(list);
        k += 1;
        proof {
            assert(v::round_views(rounds@) =~= v::round_views(before).push(f::views(list@)));
            assert(all.take(k as int) =~= all.take(k - 1).push(all[k - 1]));
        }
    }
    proof {
        assert(all.take(k as int) =~= all);
        let rv = v::round_views(rounds@);
        assert forall|a: int, b: int| 0 <= a < rv.len() && 0 <= b < rv[a].len() implies {
            let r = (#[trigger] rv[a][b]).route_idx;
            r == NOT_SET || r < data.routes@.len()
        } by {
            assert(rv[a][b] == rounds@[a]@[b]@);
        }
    }
    RaptorViz { rounds, departure_time: query.departure_time }
}

} // verus!
