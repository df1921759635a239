//! What the legs of a plan show of a journey.

use crate::data::{Stop, TransitData, NOT_SET};
use crate::planner as pl;
use crate::planner::{JourneyWalksView, StopWalkView};
use crate::raptor as rp;
use crate::raptor::RaptorLeg;
use crate::raptor_model::JourneyView;
use crate::request::PlanRequest;
use crate::types::{
    FareInfoView, LegView, LocationView, RouteOptionView, StopInfoView, WalkLegView,
};
use vstd::prelude::*;

verus! {

// ---------------------------------------------------------------------------
// Rides
// ---------------------------------------------------------------------------

/// The route options of the rides among some legs, in order.
pub open spec fn rides_among(legs: Seq<LegView>) -> Seq<Seq<RouteOptionView>>
    decreases legs.len(),
{
    if legs.len() == 0 {
        Seq::empty()
    } else {
        match legs.last() {
            LegView::Transit(options) => rides_among(legs.drop_last()).push(options),
            _ => rides_among(legs.drop_last()),
        }
    }
}

/// The walks among some legs, in order.
pub open spec fn walks_among(legs: Seq<LegView>) -> Seq<WalkLegView>
    decreases legs.len(),
{
    if legs.len() == 0 {
        Seq::empty()
    } else {
        match legs.last() {
            LegView::Walk(walk) => walks_among(legs.drop_last()).push(walk),
            _ => walks_among(legs.drop_last()),
        }
    }
}

proof fn lemma_among_push(legs: Seq<LegView>, x: LegView)
    ensures
        rides_among(legs.push(x)) == (match x {
            LegView::Transit(options) => rides_among(legs).push(options),
            _ => rides_among(legs),
        }),
        walks_among(legs.push(x)) == (match x {
            LegView::Walk(walk) => walks_among(legs).push(walk),
            _ => walks_among(legs),
        }),
{
    assert(legs.push(x).drop_last() =~= legs);
}

proof fn lemma_among_add(a: Seq<LegView>, b: Seq<LegView>)
    ensures
        rides_among(a + b) == rides_among(a) + rides_among(b),
        walks_among(a + b) == walks_among(a) + walks_among(b),
    decreases b.len(),
{
    if b.len() == 0 {
        assert(a + b =~= a);
        assert(rides_among(a) + rides_among(b) =~= rides_among(a));
        assert(walks_among(a) + walks_among(b) =~= walks_among(a));
    } else {
        lemma_among_add(a, b.drop_last());
        assert((a + b).drop_last() =~= a + b.drop_last());
        assert(rides_among(a + b) =~= rides_among(a) + rides_among(b));
        assert(walks_among(a + b) =~= walks_among(a) + walks_among(b));
    }
}

/// A text is shown unless it is empty.
pub open spec fn shown_if_any(shown: Option<Seq<char>>, s: Seq<char>) -> bool {
    if s.len() == 0 {
        shown is None
    } else {
        shown == Some(s)
    }
}

/// The entry shows a stop: its place, its id, its name and its platform.
pub open spec fn stop_shown(x: StopInfoView, s: Stop) -> bool {
    &&& x.location.lat == s.lat
    &&& x.location.lon == s.lon
    &&& x.id == Some(s.id@)
    &&& x.stop_id == Some(s.id@)
    &&& x.stop_name == Some(s.name@)
    &&& shown_if_any(x.platform, s.platform_code@)
}

/// `minutes` is how long after boarding a stop time is, in whole minutes. The time, `delta` seconds
/// later than the timetable has it, is shown only if it is set, fits, and is not before boarding.
pub open spec fn minutes_shown(minutes: Option<i32>, time: u32, delta: int, board: u32) -> bool {
    if time == 0xffff_ffff || !(0 <= time + delta < 0xffff_ffff) || time + delta < board {
        minutes is None
    } else {
        minutes is Some && 60 * minutes->0 <= time + delta - board < 60 * minutes->0 + 60
    }
}

/// The option shows a ride: every stop that the route calls at from boarding to alighting, in
/// order, with the times of the trip, and both ends.
pub open spec fn ride_stops_shown(data: TransitData, leg: RaptorLeg, x: RouteOptionView) -> bool {
    let route = data.routes@[leg.route_idx as int];
    let calls = route.stop_idxs@;
    let first = leg.board_stop_pos as int;
    let last = leg.alight_stop_pos as int;
    &&& x.stops.len() == last - first + 1
    &&& forall|p: int|
        first <= p <= last ==> stop_shown(
            x.stops[p - first],
            data.stops@[#[trigger] calls[p] as int],
        )
    &&& forall|p: int|
        first <= p <= last ==> {
            let at = route.stop_times_offset + leg.trip_num * calls.len() + p;
            let stop = #[trigger] calls[p];
            let e = x.stops[p - first];
            &&& if p == first {
                e.arrival_offset_minutes is None
            } else {
                minutes_shown(
                    e.arrival_offset_minutes,
                    data.arrivals@[at],
                    leg.freq_delta as int,
                    leg.board_time,
                )
            }
            &&& if p == last {
                e.departure_offset_minutes is None
            } else {
                minutes_shown(
                    e.departure_offset_minutes,
                    data.departures@[at],
                    leg.freq_delta as int,
                    leg.board_time,
                )
            }
        }
    &&& x.from == x.stops[0]
    &&& x.to == x.stops.last()
}

/// The option names what is ridden: route, trip, agency and fare.
pub open spec fn ride_named(
    data: TransitData,
    date: Seq<char>,
    leg: RaptorLeg,
    x: RouteOptionView,
) -> bool {
    let route = data.routes@[leg.route_idx as int];
    let trip = data.trips@[route.trip_idxs@[leg.trip_num as int] as int];
    let agency = data.agencies@[route.agency_idx as int];
    &&& x.route_id == route.id@
    &&& x.trip_id == Some(trip.id@)
    &&& shown_if_any(x.route_short_name, route.short_name@)
    &&& shown_if_any(x.route_long_name, route.long_name@)
    &&& route.short_name@.len() > 0 ==> x.route_name == route.short_name@
    &&& route.short_name@.len() == 0 ==> x.route_name == route.long_name@
    &&& shown_if_any(x.headsign, trip.headsign@)
    &&& x.agency.id == agency.id@
    &&& x.agency.name == agency.name@
    &&& shown_if_any(x.agency.url, agency.url@)
    &&& leg.board_time <= leg.alight_time ==> x.duration_seconds + leg.board_time == leg.alight_time
    &&& x.start_time == Some(pl::iso_text(date, leg.board_time))
    &&& x.mode == pl::mode_of(route.route_type)
    &&& x.color == (if route.color == 0 {
        None
    } else {
        Some(pl::hex_of(route.color))
    })
    &&& x.text_color == (if route.text_color == 0 {
        None
    } else {
        Some(pl::hex_of(route.text_color))
    })
    &&& fare_shown(data, leg.route_idx, x.fare)
}

/// The fare is that of the first rule for the route or for every route; there is none if no rule
/// applies.
pub open spec fn fare_shown(data: TransitData, route_idx: u32, fare: Option<FareInfoView>) -> bool {
    match fare {
        None => forall|i: int|
            0 <= i < data.fare_rules@.len() ==> (#[trigger] data.fare_rules@[i]).route_idx
                != route_idx && data.fare_rules@[i].route_idx != 0xffff_ffff,
        Some(x) => exists|i: int|
            {
                let rule = #[trigger] data.fare_rules@[i];
                &&& 0 <= i < data.fare_rules@.len()
                &&& rule.route_idx == route_idx || rule.route_idx == 0xffff_ffff
                &&& x.base_fare == rule.price
                &&& x.final_fare == Some(rule.price)
                &&& forall|k: int|
                    0 <= k < i ==> (#[trigger] data.fare_rules@[k]).route_idx != route_idx
                        && data.fare_rules@[k].route_idx != 0xffff_ffff
            },
    }
}

proof fn lemma_fare(data: TransitData, route_idx: u32, i: int)
    requires
        0 <= i <= data.fare_rules@.len(),
        forall|k: int|
            0 <= k < i ==> (#[trigger] data.fare_rules@[k]).route_idx != route_idx
                && data.fare_rules@[k].route_idx != 0xffff_ffff,
    ensures
        fare_shown(data, route_idx, pl::fare_of(data, route_idx, i)),
    decreases data.fare_rules@.len() - i,
{
    if i < data.fare_rules@.len() {
        let rule = data.fare_rules@[i];
        if rule.route_idx != route_idx && rule.route_idx != NOT_SET {
            lemma_fare(data, route_idx, i + 1);
        }
    }
}

/// The fare that is looked up is that of the first rule that applies.
pub proof fn fares_are_the_first_that_apply(data: TransitData, route_idx: u32)
    ensures
        fare_shown(data, route_idx, pl::fare_of(data, route_idx, 0)),
{
    lemma_fare(data, route_idx, 0);
}

proof fn lemma_stop_times(data: TransitData, leg: RaptorLeg, p: int)
    requires
        rp::leg_ok(data, leg),
        leg.board_stop_pos <= p <= leg.alight_stop_pos,
    ensures
        ({
            let route = data.routes@[leg.route_idx as int];
            let at = route.stop_times_offset + leg.trip_num * route.stop_idxs@.len() + p;
            let e = pl::stop_info(data, leg, p as u32);
            &&& stop_shown(e, data.stops@[route.stop_idxs@[p] as int])
            &&& p == leg.board_stop_pos ==> e.arrival_offset_minutes is None
            &&& p != leg.board_stop_pos ==> minutes_shown(
                e.arrival_offset_minutes,
                data.arrivals@[at],
                leg.freq_delta as int,
                leg.board_time,
            )
            &&& p == leg.alight_stop_pos ==> e.departure_offset_minutes is None
            &&& p != leg.alight_stop_pos ==> minutes_shown(
                e.departure_offset_minutes,
                data.departures@[at],
                leg.freq_delta as int,
                leg.board_time,
            )
        }),
{
}

proof fn lemma_ride(data: TransitData, date: Seq<char>, leg: RaptorLeg)
    requires
        rp::leg_ok(data, leg),
    ensures
        ride_stops_shown(data, leg, pl::route_option(data, date, leg)),
        ride_named(data, date, leg, pl::route_option(data, date, leg)),
{
    let x = pl::route_option(data, date, leg);
    let calls = data.routes@[leg.route_idx as int].stop_idxs@;
    let first = leg.board_stop_pos as int;
    let last = leg.alight_stop_pos as int;
    assert forall|p: int| first <= p <= last implies stop_shown(
        x.stops[p - first],
        data.stops@[#[trigger] calls[p] as int],
    ) by {
        lemma_stop_times(data, leg, p);
    }
    assert forall|p: int| first <= p <= last implies {
        let route = data.routes@[leg.route_idx as int];
        let at = route.stop_times_offset + leg.trip_num * calls.len() + p;
        let stop = #[trigger] calls[p];
        let e = x.stops[p - first];
        &&& if p == first {
            e.arrival_offset_minutes is None
        } else {
            minutes_shown(
                e.arrival_offset_minutes,
                data.arrivals@[at],
                leg.freq_delta as int,
                leg.board_time,
            )
        }
        &&& if p == last {
            e.departure_offset_minutes is None
        } else {
            minutes_shown(
                e.departure_offset_minutes,
                data.departures@[at],
                leg.freq_delta as int,
                leg.board_time,
            )
        }
    } by {
        lemma_stop_times(data, leg, p);
        assert(x.stops[p - first] == pl::stop_info(data, leg, p as u32));
    }
    lemma_fare(data, leg.route_idx, 0);
}

proof fn lemma_rides_among(
    data: TransitData,
    date: Seq<char>,
    legs: Seq<RaptorLeg>,
    walks: Seq<StopWalkView>,
    n: int,
)
    requires
        0 <= n <= legs.len(),
    ensures
        rides_among(pl::rides(data, date, legs, walks, n)) == Seq::new(
            n as nat,
            |i: int| seq![pl::route_option(data, date, legs[i])],
        ),
    decreases n,
{
    let all = pl::rides(data, date, legs, walks, n);
    if n > 0 {
        lemma_rides_among(data, date, legs, walks, n - 1);
        let before = pl::rides(data, date, legs, walks, n - 1);
        let ride = LegView::Transit(seq![pl::route_option(data, date, legs[n - 1])]);
        if pl::walks_before(data, legs, n - 1) {
            let walk = all[all.len() - 2];
            assert(all =~= before.push(walk).push(ride));
            lemma_among_push(before, walk);
            lemma_among_push(before.push(walk), ride);
        } else {
            lemma_among_push(before, ride);
        }
    }
    assert(rides_among(all) =~= Seq::new(
        n as nat,
        |i: int| seq![pl::route_option(data, date, legs[i])],
    ));
}

/// A plan shows every ride of its journey, in order and each with one option. The option lists every
/// stop that the route calls at from boarding to alighting, with its place, names and times, and
/// names the route, the trip, the agency and the fare.
pub proof fn plans_show_every_ride(
    data: TransitData,
    req: PlanRequest,
    j: JourneyView,
    origin_stops: Seq<(u32, u32, u32)>,
    dest_stops: Seq<(u32, u32, u32)>,
    walks: JourneyWalksView,
    i: int,
)
    requires
        rp::legs_ok(data, j.legs),
        0 <= i < j.legs.len(),
    ensures
        ({
            let plan = pl::plan_of(data, req, j, origin_stops, dest_stops, walks);
            let shown = rides_among(plan.legs);
            &&& shown.len() == j.legs.len()
            &&& shown[i].len() == 1
            &&& ride_stops_shown(data, j.legs[i], shown[i][0])
            &&& ride_named(data, req.date_str@, j.legs[i], shown[i][0])
        }),
{
    let n = j.legs.len() as int;
    let date = req.date_str@;
    let ridden = pl::rides(data, date, j.legs, walks.between, n);
    lemma_rides_among(data, date, j.legs, walks.between, n);
    let start = if j.access_walk_secs > 0 {
        seq![pl::access_leg(data, req, j, origin_stops, walks)]
    } else {
        Seq::empty()
    };
    assert(rides_among(start) =~= Seq::empty()) by {
        if j.access_walk_secs > 0 {
            assert(start.drop_last() =~= Seq::empty());
            assert(rides_among(Seq::empty()) =~= Seq::empty());
        }
    }
    lemma_among_add(start, ridden);
    assert(rides_among(start + ridden) =~= rides_among(ridden));
    let walk = pl::last_stop_leg(data, j, walks);
    lemma_among_push(start + ridden, walk);
    let arrived = if pl::walks_at_end(data, j) {
        (start + ridden).push(walk)
    } else {
        start + ridden
    };
    lemma_among_push(arrived, pl::egress_leg(data, req, j, dest_stops, walks));
    assert(rp::leg_ok(data, j.legs[i]));
    lemma_ride(data, date, j.legs[i]);
}

// ---------------------------------------------------------------------------
// Walks
// ---------------------------------------------------------------------------

/// The stop that a ride ends at, and the one where the journey goes on: where the next ride is
/// boarded, or where it is left for the destination.
pub open spec fn goes_on(data: TransitData, j: JourneyView, i: int) -> (u32, u32) {
    let a = j.legs[i];
    let from = data.routes@[a.route_idx as int].stop_idxs@[a.alight_stop_pos as int];
    if i + 1 < j.legs.len() {
        let b = j.legs[i + 1];
        (from, data.routes@[b.route_idx as int].stop_idxs@[b.board_stop_pos as int])
    } else {
        (from, j.egress_stop_idx)
    }
}

/// The two stops differ.
pub open spec fn apart(pair: (u32, u32)) -> bool {
    pair.0 != pair.1
}

proof fn lemma_filter_push(s: Seq<(u32, u32)>, x: (u32, u32))
    ensures
        s.push(x).filter(|p: (u32, u32)| apart(p)) == (if apart(x) {
            s.filter(|p: (u32, u32)| apart(p)).push(x)
        } else {
            s.filter(|p: (u32, u32)| apart(p))
        }),
{
    reveal(Seq::filter);
    assert(s.push(x).drop_last() =~= s);
}

proof fn lemma_changes(data: TransitData, j: JourneyView, n: int)
    requires
        1 <= n <= j.legs.len(),
    ensures
        pl::changes(data, j.legs, n) == Seq::new(
            (n - 1) as nat,
            |i: int| goes_on(data, j, i),
        ).filter(|p: (u32, u32)| apart(p)),
    decreases n,
{
    let all = Seq::new((n - 1) as nat, |i: int| goes_on(data, j, i));
    if n == 1 {
        reveal(Seq::filter);
        assert(pl::changes(data, j.legs, 0) =~= Seq::empty());
        assert(all.filter(|p: (u32, u32)| apart(p)) =~= Seq::empty());
    } else {
        let front = Seq::new((n - 2) as nat, |i: int| goes_on(data, j, i));
        lemma_changes(data, j, n - 1);
        lemma_filter_push(front, goes_on(data, j, n - 2));
        assert(all =~= front.push(goes_on(data, j, n - 2)));
    }
}

/// A journey walks from stop to stop exactly where a ride ends at another stop than the one where
/// it goes on, in order.
pub proof fn walks_join_rides(data: TransitData, j: JourneyView)
    requires
        j.legs.len() > 0,
    ensures
        pl::stop_walks_of(data, j) == Seq::new(
            j.legs.len(),
            |i: int| goes_on(data, j, i),
        ).filter(|p: (u32, u32)| apart(p)),
{
    let n = j.legs.len() as int;
    let front = Seq::new((n - 1) as nat, |i: int| goes_on(data, j, i));
    lemma_changes(data, j, n);
    lemma_filter_push(front, goes_on(data, j, n - 1));
    assert(Seq::new(j.legs.len(), |i: int| goes_on(data, j, i)) =~= front.push(
        goes_on(data, j, n - 1),
    ));
}

/// The place is a stop.
pub open spec fn place_is_stop(x: Option<LocationView>, s: Stop) -> bool {
    &&& x is Some
    &&& x->0.location.lat == s.lat
    &&& x->0.location.lon == s.lon
    &&& x->0.address == Some(s.name@)
    &&& x->0.id == Some(s.id@)
    &&& x->0.stop_id == Some(s.id@)
    &&& shown_if_any(x->0.platform, s.platform_code@)
}

/// The place is a coordinate under a label, and no stop.
pub open spec fn place_is(x: Option<LocationView>, lat: u64, lon: u64, label: Seq<char>) -> bool {
    &&& x is Some
    &&& x->0.location.lat == lat
    &&& x->0.location.lon == lon
    &&& x->0.address == Some(label)
    &&& x->0.id is None
    &&& x->0.stop_id is None
    &&& x->0.platform is None
}

/// The metres to a stop as the first entry for it says; zero if there is none.
pub open spec fn metres_listed(stops: Seq<(u32, u32, u32)>, s: u32, metres: Option<u32>) -> bool {
    &&& metres is Some
    &&& (exists|i: int|
        {
            &&& 0 <= i < stops.len()
            &&& (#[trigger] stops[i]).0 == s
            &&& stops[i].2 == metres->0
            &&& forall|k: int| 0 <= k < i ==> (#[trigger] stops[k]).0 != s
        }) || (metres->0 == 0 && forall|i: int| 0 <= i < stops.len() ==> (#[trigger] stops[i]).0 != s)
}

proof fn lemma_metres(stops: Seq<(u32, u32, u32)>, s: u32, i: int)
    requires
        0 <= i <= stops.len(),
        forall|k: int| 0 <= k < i ==> (#[trigger] stops[k]).0 != s,
    ensures
        metres_listed(stops, s, Some(pl::metres_to(stops, s, i))),
    decreases stops.len() - i,
{
    if i < stops.len() && stops[i].0 != s {
        lemma_metres(stops, s, i + 1);
    }
}

/// The walk of a journey from stop to stop: where it leads, how far and along which path.
pub open spec fn stop_walk_shown(
    data: TransitData,
    x: WalkLegView,
    pair: (u32, u32),
    walk: StopWalkView,
) -> bool {
    &&& x.walk_type == Some("station_transfer"@)
    &&& place_is_stop(x.from, data.stops@[pair.0 as int])
    &&& place_is_stop(x.to, data.stops@[pair.1 as int])
    &&& x.distance_meters == Some(walk.metres)
    &&& x.path == Some(walk.path)
}

proof fn lemma_walks_among(
    data: TransitData,
    date: Seq<char>,
    legs: Seq<RaptorLeg>,
    walks: Seq<StopWalkView>,
    n: int,
)
    requires
        0 <= n <= legs.len(),
    ensures
        ({
            let shown = walks_among(pl::rides(data, date, legs, walks, n));
            let pairs = pl::changes(data, legs, n);
            &&& shown.len() == pairs.len()
            &&& forall|k: int|
                0 <= k < shown.len() ==> stop_walk_shown(
                    data,
                    #[trigger] shown[k],
                    pairs[k],
                    walks[k],
                )
        }),
    decreases n,
{
    let all = pl::rides(data, date, legs, walks, n);
    if n > 0 {
        lemma_walks_among(data, date, legs, walks, n - 1);
        let before = pl::rides(data, date, legs, walks, n - 1);
        let ride = LegView::Transit(seq![pl::route_option(data, date, legs[n - 1])]);
        if pl::walks_before(data, legs, n - 1) {
            let walk = all[all.len() - 2];
            assert(all =~= before.push(walk).push(ride));
            lemma_among_push(before, walk);
            lemma_among_push(before.push(walk), ride);
            let shown = walks_among(all);
            let pairs = pl::changes(data, legs, n);
            let front = walks_among(before);
            assert forall|k: int| 0 <= k < shown.len() implies stop_walk_shown(
                data,
                #[trigger] shown[k],
                pairs[k],
                walks[k],
            ) by {
                if k < front.len() {
                    assert(shown[k] == front[k]);
                    assert(pairs[k] == pl::changes(data, legs, n - 1)[k]);
                }
            }
        } else {
            lemma_among_push(before, ride);
        }
    }
}

/// A plan shows every walk of its journey, in order: to the first stop if that takes any time, from
/// stop to stop, and from the last stop if that takes any time. Each has its ends, its length and
/// its path.
pub proof fn plans_show_every_walk(
    data: TransitData,
    req: PlanRequest,
    j: JourneyView,
    origin_stops: Seq<(u32, u32, u32)>,
    dest_stops: Seq<(u32, u32, u32)>,
    walks: JourneyWalksView,
    k: int,
)
    requires
        j.legs.len() > 0,
        0 <= k < pl::stop_walks_of(data, j).len() == walks.between.len(),
    ensures
        ({
            let plan = pl::plan_of(data, req, j, origin_stops, dest_stops, walks);
            let shown = walks_among(plan.legs);
            let first: int = if j.access_walk_secs > 0 {
                1
            } else {
                0
            };
            stop_walk_shown(
                data,
                shown[first + k],
                pl::stop_walks_of(data, j)[k],
                walks.between[k],
            )
        }),
{
    plans_show_their_ends(data, req, j, origin_stops, dest_stops, walks);
    lemma_all_walks(data, req, j, origin_stops, dest_stops, walks);
}

spec fn start_of(
    data: TransitData,
    req: PlanRequest,
    j: JourneyView,
    origin_stops: Seq<(u32, u32, u32)>,
    walks: JourneyWalksView,
) -> Seq<LegView> {
    if j.access_walk_secs > 0 {
        seq![pl::access_leg(data, req, j, origin_stops, walks)]
    } else {
        Seq::empty()
    }
}

proof fn lemma_all_walks(
    data: TransitData,
    req: PlanRequest,
    j: JourneyView,
    origin_stops: Seq<(u32, u32, u32)>,
    dest_stops: Seq<(u32, u32, u32)>,
    walks: JourneyWalksView,
)
    requires
        j.legs.len() > 0,
    ensures
        ({
            let plan = pl::plan_of(data, req, j, origin_stops, dest_stops, walks);
            let shown = walks_among(plan.legs);
            let start = start_of(data, req, j, origin_stops, walks);
            let pairs = pl::stop_walks_of(data, j);
            &&& shown.len() == start.len() + pairs.len() + if j.egress_walk_secs > 0 {
                1int
            } else {
                0
            }
            &&& forall|k: int|
                0 <= k < pairs.len() ==> stop_walk_shown(
                    data,
                    #[trigger] shown[start.len() + k],
                    pairs[k],
                    walks.between[k],
                )
        }),
{
    let n = j.legs.len() as int;
    let date = req.date_str@;
    let ridden = pl::rides(data, date, j.legs, walks.between, n);
    lemma_walks_among(data, date, j.legs, walks.between, n);
    let start = start_of(data, req, j, origin_stops, walks);
    assert(walks_among(start).len() == start.len()) by {
        if j.access_walk_secs > 0 {
            lemma_among_push(Seq::empty(), start[0]);
            assert(Seq::<LegView>::empty().push(start[0]) =~= start);
        }
    }
    lemma_among_add(start, ridden);
    let first = start + ridden;
    let walk = pl::last_stop_leg(data, j, walks);
    lemma_among_push(first, walk);
    let arrived = if pl::walks_at_end(data, j) {
        first.push(walk)
    } else {
        first
    };
    lemma_among_push(arrived, pl::egress_leg(data, req, j, dest_stops, walks));
    let plan = pl::plan_of(data, req, j, origin_stops, dest_stops, walks);
    let shown = walks_among(plan.legs);
    let pairs = pl::stop_walks_of(data, j);
    let between = walks_among(ridden);
    assert forall|k: int| 0 <= k < pairs.len() implies stop_walk_shown(
        data,
        #[trigger] shown[start.len() + k],
        pairs[k],
        walks.between[k],
    ) by {
        if k < between.len() {
            assert(shown[start.len() + k] == between[k]);
        }
    }
}

/// A plan begins with the walk from the origin to the first stop if that takes any time, and else
/// with a ride; it ends with the walk to the destination if that takes any time. There are no other
/// walks than these and those from stop to stop. The plan takes from the departure of its journey
/// to the arrival.
pub proof fn plans_show_their_ends(
    data: TransitData,
    req: PlanRequest,
    j: JourneyView,
    origin_stops: Seq<(u32, u32, u32)>,
    dest_stops: Seq<(u32, u32, u32)>,
    walks: JourneyWalksView,
)
    requires
        j.legs.len() > 0,
    ensures
        ({
            let plan = pl::plan_of(data, req, j, origin_stops, dest_stops, walks);
            let shown = walks_among(plan.legs);
            &&& plan.legs.len() == shown.len() + rides_among(plan.legs).len()
            &&& shown.len() == pl::stop_walks_of(data, j).len() + (if j.access_walk_secs > 0 {
                1int
            } else {
                0
            }) + (if j.egress_walk_secs > 0 {
                1int
            } else {
                0
            })
            &&& j.access_walk_secs == 0 ==> plan.legs[0] is Transit
            &&& j.access_walk_secs > 0 ==> {
                let x = plan.legs[0]->Walk_0;
                &&& plan.legs[0] is Walk
                &&& x.walk_type == Some("station_access"@)
                &&& place_is(x.from, req.origin_lat, req.origin_lon, "START"@)
                &&& place_is_stop(x.to, data.stops@[j.access_stop_idx as int])
                &&& x.duration_seconds == j.access_walk_secs
                &&& metres_listed(origin_stops, j.access_stop_idx, x.distance_meters)
                &&& x.path == Some(walks.access)
            }
            &&& j.egress_walk_secs > 0 ==> {
                let x = plan.legs.last()->Walk_0;
                &&& plan.legs.last() is Walk
                &&& x.walk_type == Some("station_egress"@)
                &&& place_is_stop(x.from, data.stops@[j.egress_stop_idx as int])
                &&& place_is(x.to, req.dest_lat, req.dest_lon, "END"@)
                &&& x.duration_seconds == j.egress_walk_secs
                &&& metres_listed(dest_stops, j.egress_stop_idx, x.distance_meters)
                &&& x.path == Some(walks.egress)
            }
            &&& j.departure_time <= j.arrival_time ==> plan.duration_seconds + j.departure_time
                == j.arrival_time
            &&& plan.start_time == pl::iso_text(req.date_str@, j.departure_time)
            &&& plan.duration_seconds_min == Some(plan.duration_seconds)
            &&& plan.duration_seconds_max == Some(plan.duration_seconds)
        }),
{
    let plan = pl::plan_of(data, req, j, origin_stops, dest_stops, walks);
    lemma_all_walks(data, req, j, origin_stops, dest_stops, walks);
    lemma_counts(plan.legs);
    lemma_metres(origin_stops, j.access_stop_idx, 0);
    lemma_metres(dest_stops, j.egress_stop_idx, 0);
    let n = j.legs.len() as int;
    let date = req.date_str@;
    let ridden = pl::rides(data, date, j.legs, walks.between, n);
    lemma_first_ride(data, date, j.legs, walks.between, n);
    lemma_rides_only(data, date, j.legs, walks.between, n);
    let start = start_of(data, req, j, origin_stops, walks);
    let first = start + ridden;
    assert(first[start.len() as int] == ridden[0]);
    assert forall|k: int| 0 <= k < first.len() implies !((#[trigger] first[k]) is Wait) by {
        if k >= start.len() {
            assert(first[k] == ridden[k - start.len()]);
        }
    }
}

proof fn lemma_first_ride(
    data: TransitData,
    date: Seq<char>,
    legs: Seq<RaptorLeg>,
    walks: Seq<StopWalkView>,
    n: int,
)
    requires
        1 <= n <= legs.len(),
    ensures
        pl::rides(data, date, legs, walks, n).len() > 0,
        pl::rides(data, date, legs, walks, n)[0] is Transit,
    decreases n,
{
    let all = pl::rides(data, date, legs, walks, n);
    let before = pl::rides(data, date, legs, walks, n - 1);
    if n > 1 {
        lemma_first_ride(data, date, legs, walks, n - 1);
        assert(all[0] == before[0]);
    } else {
        assert(before =~= Seq::empty());
        assert(!pl::walks_before(data, legs, 0));
    }
}

proof fn lemma_rides_only(
    data: TransitData,
    date: Seq<char>,
    legs: Seq<RaptorLeg>,
    walks: Seq<StopWalkView>,
    n: int,
)
    requires
        0 <= n <= legs.len(),
    ensures
        forall|k: int|
            0 <= k < pl::rides(data, date, legs, walks, n).len() ==> !((#[trigger] pl::rides(
                data,
                date,
                legs,
                walks,
                n,
            )[k]) is Wait),
    decreases n,
{
    if n > 0 {
        lemma_rides_only(data, date, legs, walks, n - 1);
        let before = pl::rides(data, date, legs, walks, n - 1);
        let all = pl::rides(data, date, legs, walks, n);
        assert forall|k: int| 0 <= k < all.len() implies !((#[trigger] all[k]) is Wait) by {
            if k < before.len() {
                assert(all[k] == before[k]);
            }
        }
    }
}

proof fn lemma_counts(legs: Seq<LegView>)
    ensures
        (forall|k: int| 0 <= k < legs.len() ==> !((#[trigger] legs[k]) is Wait)) ==> legs.len()
            == walks_among(legs).len() + rides_among(legs).len(),
    decreases legs.len(),
{
    if legs.len() > 0 {
        lemma_counts(legs.drop_last());
        if forall|k: int| 0 <= k < legs.len() ==> !((#[trigger] legs[k]) is Wait) {
            assert forall|k: int| 0 <= k < legs.drop_last().len() implies !((
            #[trigger] legs.drop_last()[k]) is Wait) by {
                assert(legs.drop_last()[k] == legs[k]);
            }
        }
    }
}

// ---------------------------------------------------------------------------
// Modes and answers
// ---------------------------------------------------------------------------

/// Route types have the modes that the feed format gives them; any other counts as a bus.
pub proof fn modes_follow_the_feed_format(rt: u8)
    ensures
        rt == 0 ==> pl::mode_of(rt) == "tram"@,
        rt == 1 ==> pl::mode_of(rt) == "subway"@,
        rt == 2 ==> pl::mode_of(rt) == "rail"@,
        rt == 3 ==> pl::mode_of(rt) == "bus"@,
        rt == 4 ==> pl::mode_of(rt) == "ferry"@,
        rt == 5 ==> pl::mode_of(rt) == "cable_tram"@,
        rt == 6 ==> pl::mode_of(rt) == "gondola"@,
        rt == 7 ==> pl::mode_of(rt) == "funicular"@,
        rt == 11 ==> pl::mode_of(rt) == "trolleybus"@,
        rt == 12 ==> pl::mode_of(rt) == "monorail"@,
        8 <= rt <= 10 || rt > 12 ==> pl::mode_of(rt) == "bus"@,
{
}

/// Every journey becomes a plan, in order, with its own walks. It starts when the journey leaves.
pub proof fn every_journey_is_planned(
    data: TransitData,
    req: PlanRequest,
    js: Seq<JourneyView>,
    origin_stops: Seq<(u32, u32, u32)>,
    dest_stops: Seq<(u32, u32, u32)>,
    walks: Seq<JourneyWalksView>,
    i: int,
)
    requires
        0 <= i < js.len(),
    ensures
        ({
            let plans = pl::plans_of(data, req, js, origin_stops, dest_stops, walks);
            &&& plans.len() == js.len()
            &&& plans[i] == pl::plan_of(data, req, js[i], origin_stops, dest_stops, walks[i])
            &&& plans[i].start_time == pl::iso_text(req.date_str@, js[i].departure_time)
        }),
{
}

} // verus!
