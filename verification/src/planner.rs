//! From requests to plans.

use crate::data::{Stop, TransitData, WalkGraph, NOT_SET};
use crate::feed as f;
use crate::lists;
use crate::raptor as rp;
use crate::raptor::{RaptorJourney, RaptorLeg, RaptorQuery};
use crate::raptor_model as m;
use crate::raptor_model::JourneyView;
use crate::request::PlanRequest;
use crate::text as t;
use crate::types as ty;
use crate::types::{
    AgencyInfo, AgencyInfoView, FareInfo, FareInfoView, LatLon, Leg, LegView, Location,
    LocationView, Plan, PlanResponse, PlanView, RouteOption, RouteOptionView, StopInfo,
    StopInfoView, TransitLeg, WalkLeg, WalkLegView,
};
use crate::walker as w;
use crate::walker::WalkReach;
use vstd::prelude::*;

verus! {

/// Farthest walk to the first and from the last stop, in metres.
pub const DEFAULT_MAX_WALK: u32 = 1600;

pub const DEFAULT_MAX_TRANSFERS: u32 = 3;

pub const DEFAULT_MAX_RESULTS: usize = 15;

// ---------------------------------------------------------------------------
// Texts
// ---------------------------------------------------------------------------

/// The mode of a GTFS route type. What is not known counts as a bus.
pub open spec fn mode_of(rt: u8) -> Seq<char> {
    if rt == 0 {
        "tram"@
    } else if rt == 1 {
        "subway"@
    } else if rt == 2 {
        "rail"@
    } else if rt == 4 {
        "ferry"@
    } else if rt == 5 {
        "cable_tram"@
    } else if rt == 6 {
        "gondola"@
    } else if rt == 7 {
        "funicular"@
    } else if rt == 11 {
        "trolleybus"@
    } else if rt == 12 {
        "monorail"@
    } else {
        "bus"@
    }
}

/// The mode of a GTFS route type.
pub fn route_type_to_mode(rt: u8) -> (r: &'static str)
    ensures
        r@ == mode_of(rt),
{
    match rt {
        0 => "tram",
        1 => "subway",
        2 => "rail",
        3 => "bus",
        4 => "ferry",
        5 => "cable_tram",
        6 => "gondola",
        7 => "funicular",
        11 => "trolleybus",
        12 => "monorail",
        _ => "bus",
    }
}

/// The low 24 bits of a color, as six digits or letters.
pub open spec fn hex_of(c: u32) -> Seq<char> {
    t::padded((c % 0x100_0000) as int, 16, 6)
}

/// A color in writing.
pub fn color_to_hex(c: u32) -> (r: String)
    ensures
        r@ == hex_of(c),
{
    t::hex_string(c % 0x100_0000, 6)
}

/// A color in writing, nothing for black.
pub open spec fn color_text(c: u32) -> Option<Seq<char>> {
    if c != 0 {
        Some(hex_of(c))
    } else {
        None
    }
}

fn write_color(c: u32) -> (r: Option<String>)
    ensures
        t::text_of(r) == color_text(c),
{
    if c != 0 {
        Some(color_to_hex(c))
    } else {
        None
    }
}

/// Date and time in writing. Hours start again at every midnight, the date stays.
pub open spec fn iso_text(date: Seq<char>, secs: u32) -> Seq<char> {
    date + "T"@ + t::padded((secs / 3600 % 24) as int, 10, 2) + ":"@ + t::padded(
        (secs % 3600 / 60) as int,
        10,
        2,
    ) + ":"@ + t::padded((secs % 60) as int, 10, 2) + "Z"@
}

/// Date and time in writing.
pub fn secs_to_iso(base_date: &str, secs: u32) -> (r: String)
    ensures
        r@ == iso_text(base_date@, secs),
{
    let mut s = t::join(base_date, "T");
    t::append_str(&mut s, t::decimal_string(secs / 3600 % 24, 2).as_str());
    t::append_str(&mut s, ":");
    t::append_str(&mut s, t::decimal_string(secs % 3600 / 60, 2).as_str());
    t::append_str(&mut s, ":");
    t::append_str(&mut s, t::decimal_string(secs % 60, 2).as_str());
    t::append_str(&mut s, "Z");
    s
}

/// How fast a traveller walks.
#[derive(Debug, Clone)]
pub enum WalkSpeed {
    Slow,
    Normal,
    Fast,
    /// As written, to be read as metres in a second.
    Given(String),
}

/// The speed that a text asks for.
pub open spec fn speed_is(r: WalkSpeed, s: Option<Seq<char>>) -> bool {
    match s {
        None => r is Normal,
        Some(x) => if x == "slow"@ {
            r is Slow
        } else if x == "fast"@ {
            r is Fast
        } else if x == "normal"@ {
            r is Normal
        } else {
            r matches WalkSpeed::Given(v) && v@ == x
        },
    }
}

/// Reads a walking speed.
pub fn parse_walk_speed(s: Option<&str>) -> (r: WalkSpeed)
    ensures
        speed_is(
            r,
            match s {
                Some(x) => Some(x@),
                None => None,
            },
        ),
{
    match s {
        None => WalkSpeed::Normal,
        Some(x) => if x.eq("slow") {
            WalkSpeed::Slow
        } else if x.eq("fast") {
            WalkSpeed::Fast
        } else if x.eq("normal") {
            WalkSpeed::Normal
        } else {
            WalkSpeed::Given(t::copy_str(x))
        },
    }
}

// ---------------------------------------------------------------------------
// Fares
// ---------------------------------------------------------------------------

/// The first fare rule from the `i`-th on that applies to a route.
pub open spec fn fare_of(data: TransitData, route_idx: u32, i: int) -> Option<FareInfoView>
    decreases data.fare_rules@.len() - i,
{
    if i >= data.fare_rules@.len() {
        None
    } else {
        let x = data.fare_rules@[i];
        if x.route_idx == route_idx || x.route_idx == NOT_SET {
            Some(
                FareInfoView {
                    base_fare: x.price,
                    final_fare: Some(x.price),
                    currency: "USD"@,
                },
            )
        } else {
            fare_of(data, route_idx, i + 1)
        }
    }
}

/// Finds the fare of a route.
pub fn lookup_fare(data: &TransitData, route_idx: u32) -> (r: Option<FareInfo>)
    ensures
        ty::view_of(r) == fare_of(*data, route_idx, 0),
{
    let mut i: usize = 0;
    while i < data.fare_rules.len()
        invariant
            i <= data.fare_rules@.len(),
            fare_of(*data, route_idx, i as int) == fare_of(*data, route_idx, 0),
        decreases data.fare_rules@.len() - i,
    {
        let x = data.fare_rules[i];
        if x.route_idx == route_idx || x.route_idx == NOT_SET {
            return Some(
                FareInfo {
                    base_fare: x.price,
                    final_fare: Some(x.price),
                    currency: t::copy_str("USD"),
                },
            );
        }
        i += 1;
    }
    None
}

// ---------------------------------------------------------------------------
// Places
// ---------------------------------------------------------------------------

pub open spec fn at_stop(s: Stop) -> LatLon {
    LatLon { lat: s.lat, lon: s.lon }
}

/// A stop as the end of a walk.
pub open spec fn stop_place(s: Stop) -> LocationView {
    LocationView {
        location: at_stop(s),
        address: Some(s.name@),
        id: Some(s.id@),
        stop_id: Some(s.id@),
        entrance: None,
        platform: t::unless_empty(s.platform_code@),
    }
}

/// The origin or the destination as the end of a walk.
pub open spec fn end_place(at: LatLon, label: Seq<char>) -> LocationView {
    LocationView {
        location: at,
        address: Some(label),
        id: None,
        stop_id: None,
        entrance: None,
        platform: None,
    }
}

fn place_of_stop(s: &Stop) -> (r: Location)
    ensures
        r@ == stop_place(*s),
{
    Location {
        location: LatLon { lat: s.lat, lon: s.lon },
        address: Some(t::copy_str(s.name.as_str())),
        id: Some(t::copy_str(s.id.as_str())),
        stop_id: Some(t::copy_str(s.id.as_str())),
        entrance: None,
        platform: t::copy_unless_empty(s.platform_code.as_str()),
    }
}

fn place_of_end(at: LatLon, label: &str) -> (r: Location)
    ensures
        r@ == end_place(at, label@),
{
    Location {
        location: at,
        address: Some(t::copy_str(label)),
        id: None,
        stop_id: None,
        entrance: None,
        platform: None,
    }
}

// ---------------------------------------------------------------------------
// Rides
// ---------------------------------------------------------------------------

/// Whole minutes from boarding to a time; none if the time is not set or earlier.
pub open spec fn minutes_after(time: u32, board: u32) -> Option<i32> {
    if time != NOT_SET && time >= board {
        Some(((time - board) / 60) as i32)
    } else {
        None
    }
}

fn count_minutes(time: u32, board: u32) -> (r: Option<i32>)
    ensures
        r == minutes_after(time, board),
{
    if time != NOT_SET && time >= board {
        Some(((time - board) / 60) as i32)
    } else {
        None
    }
}

/// The stop at a position of a route.
pub open spec fn stop_on(data: TransitData, route_idx: u32, pos: u32) -> Stop {
    data.stops@[data.routes@[route_idx as int].stop_idxs@[pos as int] as int]
}

/// A stop on a ride. There is no arrival where the ride begins and no departure where it ends.
pub open spec fn stop_info(data: TransitData, leg: RaptorLeg, pos: u32) -> StopInfoView {
    let r = leg.route_idx as int;
    let n = leg.trip_num as int;
    let s = stop_on(data, leg.route_idx, pos);
    let arr = m::shifted(m::arrival(data, r, n, pos as int), leg.freq_delta as int);
    let dep = m::shifted(m::departure(data, r, n, pos as int), leg.freq_delta as int);
    StopInfoView {
        location: at_stop(s),
        id: Some(s.id@),
        stop_id: Some(s.id@),
        stop_name: Some(s.name@),
        platform: t::unless_empty(s.platform_code@),
        arrival_offset_minutes: if pos == leg.board_stop_pos {
            None
        } else {
            minutes_after(arr, leg.board_time)
        },
        departure_offset_minutes: if pos == leg.alight_stop_pos {
            None
        } else {
            minutes_after(dep, leg.board_time)
        },
    }
}

/// The stops of a ride, from boarding to alighting.
pub open spec fn ride_stops(data: TransitData, leg: RaptorLeg) -> Seq<StopInfoView> {
    Seq::new(
        (leg.alight_stop_pos - leg.board_stop_pos + 1) as nat,
        |i: int| stop_info(data, leg, (leg.board_stop_pos + i) as u32),
    )
}

pub open spec fn route_option(data: TransitData, date: Seq<char>, leg: RaptorLeg) -> RouteOptionView {
    let route = data.routes@[leg.route_idx as int];
    let trip = m::trip_of(data, leg.route_idx as int, leg.trip_num as int);
    let agency = data.agencies@[route.agency_idx as int];
    RouteOptionView {
        route_id: route.id@,
        trip_id: Some(trip.id@),
        route_name: if route.short_name@.len() == 0 {
            route.long_name@
        } else {
            route.short_name@
        },
        route_long_name: t::unless_empty(route.long_name@),
        route_short_name: t::unless_empty(route.short_name@),
        headsign: t::unless_empty(trip.headsign@),
        agency: AgencyInfoView {
            id: agency.id@,
            name: agency.name@,
            url: t::unless_empty(agency.url@),
        },
        mode: mode_of(route.route_type),
        duration_seconds: m::sub_or_zero(leg.alight_time, leg.board_time),
        start_time: Some(iso_text(date, leg.board_time)),
        color: color_text(route.color),
        text_color: color_text(route.text_color),
        fare: fare_of(data, leg.route_idx, 0),
        stops: ride_stops(data, leg),
        from: stop_info(data, leg, leg.board_stop_pos),
        to: stop_info(data, leg, leg.alight_stop_pos),
    }
}

fn info_of_stop(data: &TransitData, leg: &RaptorLeg, pos: u32) -> (r: StopInfo)
    requires
        data.wf(),
        rp::leg_ok(*data, *leg),
        pos <= leg.alight_stop_pos,
    ensures
        r@ == stop_info(*data, *leg, pos),
{
    let ghost ri = leg.route_idx as int;
    let route = &data.routes[leg.route_idx as usize];
    proof {
        assert(data.route_ok(data.routes@[ri]));
        data.lemma_time_index(ri, leg.trip_num as int, pos as int);
    }
    let s = &data.stops[route.stop_idxs[pos as usize] as usize];
    let arr: u32 = rp::shift_time(
        route.arrival_at(&data.arrivals, leg.trip_num, pos as usize),
        leg.freq_delta,
    );
    let dep: u32 = rp::shift_time(
        route.departure_at(&data.departures, leg.trip_num, pos as usize),
        leg.freq_delta,
    );
    StopInfo {
        location: LatLon { lat: s.lat, lon: s.lon },
        id: Some(t::copy_str(s.id.as_str())),
        stop_id: Some(t::copy_str(s.id.as_str())),
        stop_name: Some(t::copy_str(s.name.as_str())),
        platform: t::copy_unless_empty(s.platform_code.as_str()),
        arrival_offset_minutes: if pos == leg.board_stop_pos {
            None
        } else {
            count_minutes(arr, leg.board_time)
        },
        departure_offset_minutes: if pos == leg.alight_stop_pos {
            None
        } else {
            count_minutes(dep, leg.board_time)
        },
    }
}

fn stops_of_ride(data: &TransitData, leg: &RaptorLeg) -> (r: Vec<StopInfo>)
    requires
        data.wf(),
        rp::leg_ok(*data, *leg),
    ensures
        f::views(r@) == ride_stops(*data, *leg),
{
    let ghost all = ride_stops(*data, *leg);
    let mut out: Vec<StopInfo> = Vec::new();
    let mut pos: u32 = leg.board_stop_pos;
    proof {
        assert(data.route_ok(data.routes@[leg.route_idx as int]));
        assert(f::views(out@) =~= all.take(0));
    }
    while pos <= leg.alight_stop_pos
        invariant
            data.wf(),
            rp::leg_ok(*data, *leg),
            leg.alight_stop_pos < NOT_SET,
            leg.board_stop_pos <= pos <= leg.alight_stop_pos + 1,
            all == ride_stops(*data, *leg),
            f::views(out@) == all.take(pos - leg.board_stop_pos),
        decreases leg.alight_stop_pos + 1 - pos,
    {
        let x = info_of_stop(data, leg, pos);
        proof {
            let i = pos - leg.board_stop_pos;
            f::lemma_views_push(out@, x);
            assert(x@ == all[i]);
            assert(all.take(i + 1) =~= all.take(i).push(all[i]));
        }
        out.push(x);
        pos += 1;
    }
    assert(all.take(pos - leg.board_stop_pos) =~= all);
    out
}

/// The agency of the route that is ridden is listed.
pub open spec fn agency_known(data: TransitData, leg: RaptorLeg) -> bool {
    data.routes@[leg.route_idx as int].agency_idx < data.agencies@.len()
}

/// The agencies of all rides are listed.
pub open spec fn agencies_known(data: TransitData, legs: Seq<RaptorLeg>) -> bool {
    forall|i: int| 0 <= i < legs.len() ==> agency_known(data, #[trigger] legs[i])
}

/// The agencies of all rides of some journeys are listed.
pub open spec fn all_agencies_known(data: TransitData, js: Seq<RaptorJourney>) -> bool {
    forall|i: int| 0 <= i < js.len() ==> agencies_known(data, (#[trigger] js[i]).legs@)
}

fn check_agencies_of(data: &TransitData, legs: &Vec<RaptorLeg>) -> (r: bool)
    requires
        rp::legs_ok(*data, legs@),
    ensures
        r == agencies_known(*data, legs@),
{
    let mut i: usize = 0;
    while i < legs.len()
        invariant
            i <= legs@.len(),
            rp::legs_ok(*data, legs@),
            forall|k: int| 0 <= k < i ==> agency_known(*data, #[trigger] legs@[k]),
        decreases legs@.len() - i,
    {
        assert(rp::leg_ok(*data, legs@[i as int]));
        let route = &data.routes[legs[i].route_idx as usize];
        if route.agency_idx as usize >= data.agencies.len() {
            assert(!agency_known(*data, legs@[i as int]));
            return false;
        }
        i += 1;
    }
    true
}

/// Checks that the agencies of all rides are listed.
pub fn check_agencies(data: &TransitData, journeys: &Vec<RaptorJourney>) -> (r: bool)
    requires
        rp::journeys_ok(*data, journeys@),
    ensures
        r == all_agencies_known(*data, journeys@),
{
    let mut i: usize = 0;
    while i < journeys.len()
        invariant
            i <= journeys@.len(),
            rp::journeys_ok(*data, journeys@),
            forall|k: int| 0 <= k < i ==> agencies_known(*data, (#[trigger] journeys@[k]).legs@),
        decreases journeys@.len() - i,
    {
        assert(rp::journey_ok(*data, journeys@[i as int]@));
        if !check_agencies_of(data, &journeys[i].legs) {
            assert(!agencies_known(*data, journeys@[i as int].legs@));
            return false;
        }
        i += 1;
    }
    true
}

fn option_of_ride(data: &TransitData, date: &str, leg: &RaptorLeg) -> (r: RouteOption)
    requires
        data.wf(),
        rp::leg_ok(*data, *leg),
        agency_known(*data, *leg),
    ensures
        r@ == route_option(*data, date@, *leg),
{
    let route = &data.routes[leg.route_idx as usize];
    assert(data.route_ok(data.routes@[leg.route_idx as int]));
    let trip = &data.trips[route.trip_idxs[leg.trip_num as usize] as usize];
    let agency = &data.agencies[route.agency_idx as usize];
    RouteOption {
        route_id: t::copy_str(route.id.as_str()),
        trip_id: Some(t::copy_str(trip.id.as_str())),
        route_name: if route.short_name.as_str().unicode_len() == 0 {
            t::copy_str(route.long_name.as_str())
        } else {
            t::copy_str(route.short_name.as_str())
        },
        route_long_name: t::copy_unless_empty(route.long_name.as_str()),
        route_short_name: t::copy_unless_empty(route.short_name.as_str()),
        headsign: t::copy_unless_empty(trip.headsign.as_str()),
        agency: AgencyInfo {
            id: t::copy_str(agency.id.as_str()),
            name: t::copy_str(agency.name.as_str()),
            url: t::copy_unless_empty(agency.url.as_str()),
        },
        mode: t::copy_str(route_type_to_mode(route.route_type)),
        duration_seconds: leg.alight_time.saturating_sub(leg.board_time),
        start_time: Some(secs_to_iso(date, leg.board_time)),
        color: write_color(route.color),
        text_color: write_color(route.text_color),
        fare: lookup_fare(data, leg.route_idx),
        stops: stops_of_ride(data, leg),
        from: info_of_stop(data, leg, leg.board_stop_pos),
        to: info_of_stop(data, leg, leg.alight_stop_pos),
    }
}

// ---------------------------------------------------------------------------
// Walks
// ---------------------------------------------------------------------------

/// The stop where a leg begins.
pub open spec fn board_stop(data: TransitData, leg: RaptorLeg) -> u32 {
    data.routes@[leg.route_idx as int].stop_idxs@[leg.board_stop_pos as int]
}

/// The stop where a leg ends.
pub open spec fn alight_stop(data: TransitData, leg: RaptorLeg) -> u32 {
    data.routes@[leg.route_idx as int].stop_idxs@[leg.alight_stop_pos as int]
}

/// Before leg `i` there is a walk to another stop.
pub open spec fn walks_before(data: TransitData, legs: Seq<RaptorLeg>, i: int) -> bool {
    i > 0 && alight_stop(data, legs[i - 1]) != board_stop(data, legs[i])
}

/// The walks between the first `n` legs, from stop to stop.
pub open spec fn changes(data: TransitData, legs: Seq<RaptorLeg>, n: int) -> Seq<(u32, u32)>
    decreases n,
{
    if n <= 0 {
        Seq::empty()
    } else if walks_before(data, legs, n - 1) {
        changes(data, legs, n - 1).push(
            (alight_stop(data, legs[n - 2]), board_stop(data, legs[n - 1])),
        )
    } else {
        changes(data, legs, n - 1)
    }
}

/// After the last leg there is a walk to the stop that the journey ends at.
pub open spec fn walks_at_end(data: TransitData, j: JourneyView) -> bool {
    alight_stop(data, j.legs.last()) != j.egress_stop_idx
}

/// All walks of a journey from stop to stop.
pub open spec fn stop_walks_of(data: TransitData, j: JourneyView) -> Seq<(u32, u32)> {
    let between = changes(data, j.legs, j.legs.len() as int);
    if walks_at_end(data, j) {
        between.push((alight_stop(data, j.legs.last()), j.egress_stop_idx))
    } else {
        between
    }
}

fn board_stop_of(data: &TransitData, leg: &RaptorLeg) -> (r: u32)
    requires
        rp::leg_ok(*data, *leg),
    ensures
        r == board_stop(*data, *leg),
{
    data.routes[leg.route_idx as usize].stop_idxs[leg.board_stop_pos as usize]
}

fn alight_stop_of(data: &TransitData, leg: &RaptorLeg) -> (r: u32)
    requires
        rp::leg_ok(*data, *leg),
    ensures
        r == alight_stop(*data, *leg),
{
    data.routes[leg.route_idx as usize].stop_idxs[leg.alight_stop_pos as usize]
}

/// Lists the walks of a journey from stop to stop.
pub fn stop_walks(data: &TransitData, journey: &RaptorJourney) -> (r: Vec<(u32, u32)>)
    requires
        data.wf(),
        rp::journey_ok(*data, journey@),
    ensures
        r@ == stop_walks_of(*data, journey@),
{
    let legs = &journey.legs;
    let mut out: Vec<(u32, u32)> = Vec::new();
    let mut i: usize = 0;
    while i < legs.len()
        invariant
            i <= legs@.len(),
            rp::legs_ok(*data, legs@),
            out@ == changes(*data, legs@, i as int),
        decreases legs@.len() - i,
    {
        assert(rp::leg_ok(*data, legs@[i as int]));
        if i > 0 {
            assert(rp::leg_ok(*data, legs@[i - 1]));
            let from: u32 = alight_stop_of(data, &legs[i - 1]);
            let to: u32 = board_stop_of(data, &legs[i]);
            if from != to {
                out.push((from, to));
            }
        }
        i += 1;
    }
    assert(rp::leg_ok(*data, legs@[legs@.len() - 1]));
    let last: u32 = alight_stop_of(data, &legs[legs.len() - 1]);
    if last != journey.egress_stop_idx {
        out.push((last, journey.egress_stop_idx));
    }
    out
}

/// A walk from stop to stop: its straight length and the coordinates along it.
#[derive(Debug, Clone)]
pub struct StopWalk {
    pub metres: u32,
    pub path: Vec<(u64, u64)>,
}

#[verifier::ext_equal]
pub struct StopWalkView {
    pub metres: u32,
    pub path: Seq<(u64, u64)>,
}

impl View for StopWalk {
    type V = StopWalkView;

    open spec fn view(&self) -> StopWalkView {
        StopWalkView { metres: self.metres, path: self.path@ }
    }
}

/// Everything about the walks of a journey.
#[derive(Debug, Clone)]
pub struct JourneyWalks {
    /// Coordinates from the origin to the first stop.
    pub access: Vec<(u64, u64)>,
    /// The walks from stop to stop, in order.
    pub between: Vec<StopWalk>,
    /// Coordinates from the last stop to the destination.
    pub egress: Vec<(u64, u64)>,
}

#[verifier::ext_equal]
pub struct JourneyWalksView {
    pub access: Seq<(u64, u64)>,
    pub between: Seq<StopWalkView>,
    pub egress: Seq<(u64, u64)>,
}

impl View for JourneyWalks {
    type V = JourneyWalksView;

    open spec fn view(&self) -> JourneyWalksView {
        JourneyWalksView {
            access: self.access@,
            between: f::views(self.between@),
            egress: self.egress@,
        }
    }
}

/// What is measured of a walk from stop to stop: the straight distance, and the street nodes
/// nearest to the two stops.
#[derive(Debug, Clone, Copy)]
pub struct StopGap {
    pub metres: u32,
    pub from_near: Option<u32>,
    pub to_near: Option<u32>,
}

/// The nodes exist.
pub open spec fn gap_ok(g: WalkGraph, x: StopGap) -> bool {
    &&& x.from_near matches Some(n) ==> n < g.nodes@.len()
    &&& x.to_near matches Some(n) ==> n < g.nodes@.len()
}

/// `path` leads from a coordinate over what is known of the way to a stop.
pub open spec fn leads_to_stop(
    g: WalkGraph,
    reach: WalkReach,
    from: (u64, u64),
    stop: Stop,
    near: Option<u32>,
    path: Seq<(u64, u64)>,
) -> bool {
    exists|inner: Seq<(u64, u64)>| #[trigger]
        reach.stop_path_known(g, stop, near, inner) && path == seq![from] + inner + seq![
            w::stop_coord(stop),
        ]
}

/// The timetable, its street network and the links between them are sound.
pub open spec fn data_ok(data: TransitData) -> bool {
    &&& data.wf()
    &&& data.walk_graph.wf()
    &&& w::stops_linked(data.stops@, data.walk_graph)
}

/// The stops at both ends of all walks exist.
pub open spec fn ends_exist(walks: Seq<(u32, u32)>, n: int) -> bool {
    forall|k: int| 0 <= k < walks.len() ==> (#[trigger] walks[k]).0 < n && walks[k].1 < n
}

proof fn lemma_changes_exist(data: TransitData, legs: Seq<RaptorLeg>, n: int)
    requires
        data.wf(),
        rp::legs_ok(data, legs),
        n <= legs.len(),
    ensures
        ends_exist(changes(data, legs, n), data.stops@.len() as int),
    decreases n,
{
    if n > 0 {
        lemma_changes_exist(data, legs, n - 1);
        if walks_before(data, legs, n - 1) {
            assert(rp::leg_ok(data, legs[n - 1]));
            assert(rp::leg_ok(data, legs[n - 2]));
            assert(data.route_ok(data.routes@[legs[n - 1].route_idx as int]));
            assert(data.route_ok(data.routes@[legs[n - 2].route_idx as int]));
            let front = changes(data, legs, n - 1);
            let all = changes(data, legs, n);
            assert forall|k: int| 0 <= k < all.len() implies (#[trigger] all[k]).0
                < data.stops@.len() && all[k].1 < data.stops@.len() by {
                if k < front.len() {
                    assert(all[k] == front[k]);
                }
            }
        }
    }
}

/// Finds the coordinates along the walks of a journey. `origin` and `dest` hold what is within
/// reach of the two ends, `access_near` and `egress_near` the street nodes nearest to the first
/// and the last stop, and `gaps` what is measured of the walks from stop to stop.
pub fn journey_walks(
    data: &TransitData,
    req: &PlanRequest,
    journey: &RaptorJourney,
    origin: &WalkReach,
    dest: &WalkReach,
    access_near: Option<u32>,
    egress_near: Option<u32>,
    gaps: &Vec<StopGap>,
) -> (r: JourneyWalks)
    requires
        data_ok(*data),
        rp::journey_ok(*data, journey@),
        origin.wf(data.walk_graph, data.stops@),
        dest.wf(data.walk_graph, data.stops@),
        access_near matches Some(n) ==> n < data.walk_graph.nodes@.len(),
        egress_near matches Some(n) ==> n < data.walk_graph.nodes@.len(),
        gaps@.len() == stop_walks_of(*data, journey@).len(),
        forall|k: int| 0 <= k < gaps@.len() ==> gap_ok(data.walk_graph, #[trigger] gaps@[k]),
    ensures
        walks_match(*data, journey@, r@),
        leads_to_stop(
            data.walk_graph,
            *origin,
            (req.origin_lat, req.origin_lon),
            data.stops@[journey.access_stop_idx as int],
            access_near,
            r@.access,
        ),
        leads_to_stop(
            data.walk_graph,
            *dest,
            (req.dest_lat, req.dest_lon),
            data.stops@[journey.egress_stop_idx as int],
            egress_near,
            r@.egress.reverse(),
        ),
        forall|k: int|
            0 <= k < gaps@.len() ==> ({
                let pair = stop_walks_of(*data, journey@)[k];
                let x = #[trigger] r@.between[k];
                &&& x.metres == gaps@[k].metres
                &&& w::leads_between(
                    data.walk_graph,
                    data.stops@[pair.0 as int],
                    data.stops@[pair.1 as int],
                    gaps@[k].from_near,
                    gaps@[k].to_near,
                    x.path,
                )
            }),
{
    let graph = &data.walk_graph;
    let first = &data.stops[journey.access_stop_idx as usize];
    let inner = origin.path_to_stop(graph, &data.stops, journey.access_stop_idx, access_near);
    let access = w::with_ends(
        (req.origin_lat, req.origin_lon),
        &inner,
        (first.lat, first.lon),
    );
    assert(origin.stop_path_known(*graph, *first, access_near, inner@));
    let last = &data.stops[journey.egress_stop_idx as usize];
    let inner = dest.path_to_stop(graph, &data.stops, journey.egress_stop_idx, egress_near);
    let back = w::with_ends((req.dest_lat, req.dest_lon), &inner, (last.lat, last.lon));
    assert(dest.stop_path_known(*graph, *last, egress_near, inner@));
    let egress = reversed(&back);
    assert(egress@.reverse() =~= back@);
    let pairs = stop_walks(data, journey);
    proof {
        lemma_changes_exist(*data, journey.legs@, journey.legs@.len() as int);
        let end = journey.legs@.last();
        assert(rp::leg_ok(*data, journey.legs@[journey.legs@.len() - 1]));
        assert(data.route_ok(data.routes@[end.route_idx as int]));
        assert forall|k: int| 0 <= k < pairs@.len() implies (#[trigger] pairs@[k]).0
            < data.stops@.len() && pairs@[k].1 < data.stops@.len() by {
            let front = changes(*data, journey.legs@, journey.legs@.len() as int);
            if k < front.len() {
                assert(pairs@[k] == front[k]);
            }
        }
    }
    let mut between: Vec<StopWalk> = Vec::new();
    let mut k: usize = 0;
    while k < pairs.len()
        invariant
            data_ok(*data),
            *graph == data.walk_graph,
            k <= pairs@.len(),
            pairs@ == stop_walks_of(*data, journey@),
            gaps@.len() == pairs@.len(),
            forall|i: int| 0 <= i < gaps@.len() ==> gap_ok(*graph, #[trigger] gaps@[i]),
            ends_exist(pairs@, data.stops@.len() as int),
            between@.len() == k,
            forall|i: int|
                0 <= i < k ==> ({
                    let x = #[trigger] between@[i];
                    &&& x.metres == gaps@[i].metres
                    &&& w::leads_between(
                        *graph,
                        data.stops@[pairs@[i].0 as int],
                        data.stops@[pairs@[i].1 as int],
                        gaps@[i].from_near,
                        gaps@[i].to_near,
                        x.path@,
                    )
                }),
        decreases pairs@.len() - k,
    {
        let (from, to) = pairs[k];
        assert(gap_ok(*graph, gaps@[k as int]));
        assert(pairs@[k as int].0 < data.stops@.len());
        let gap = gaps[k];
        let path = w::walk_between_stops(
            graph,
            &data.stops,
            from,
            to,
            gap.from_near,
            gap.to_near,
        );
        between.push(StopWalk { metres: gap.metres, path });
        k += 1;
    }
    let r = JourneyWalks { access, between, egress };
    assert forall|i: int| 0 <= i < gaps@.len() implies ({
        let pair = stop_walks_of(*data, journey@)[i];
        let x = #[trigger] r@.between[i];
        &&& x.metres == gaps@[i].metres
        &&& w::leads_between(
            data.walk_graph,
            data.stops@[pair.0 as int],
            data.stops@[pair.1 as int],
            gaps@[i].from_near,
            gaps@[i].to_near,
            x.path,
        )
    }) by {
        assert(r@.between[i] == between@[i]@);
    }
    r
}

fn reversed(v: &Vec<(u64, u64)>) -> (r: Vec<(u64, u64)>)
    ensures
        r@ == v@.reverse(),
{
    let mut out: Vec<(u64, u64)> = Vec::new();
    let mut i: usize = v.len();
    while i > 0
        invariant
            i <= v@.len(),
            out@.len() == v@.len() - i,
            forall|k: int| 0 <= k < out@.len() ==> out@[k] == v@[v@.len() - 1 - k],
        decreases i,
    {
        i -= 1;
        out.push(v[i]);
    }
    out
}

// ---------------------------------------------------------------------------
// Plans
// ---------------------------------------------------------------------------

/// Metres to the first entry for a stop from the `i`-th on, zero if there is none.
pub open spec fn metres_to(stops: Seq<(u32, u32, u32)>, s: u32, i: int) -> u32
    decreases stops.len() - i,
{
    if i >= stops.len() {
        0
    } else if stops[i].0 == s {
        stops[i].2
    } else {
        metres_to(stops, s, i + 1)
    }
}

fn find_metres(stops: &Vec<(u32, u32, u32)>, s: u32) -> (r: u32)
    ensures
        r == metres_to(stops@, s, 0),
{
    let mut i: usize = 0;
    while i < stops.len()
        invariant
            i <= stops@.len(),
            metres_to(stops@, s, i as int) == metres_to(stops@, s, 0),
        decreases stops@.len() - i,
    {
        if stops[i].0 == s {
            return stops[i].2;
        }
        i += 1;
    }
    0
}

pub open spec fn walk_leg(
    kind: Seq<char>,
    from: LocationView,
    to: LocationView,
    secs: u32,
    metres: u32,
    path: Seq<(u64, u64)>,
) -> LegView {
    LegView::Walk(
        WalkLegView {
            walk_type: Some(kind),
            from: Some(from),
            to: Some(to),
            duration_seconds: secs,
            distance_meters: Some(metres),
            polyline: None,
            path: Some(path),
        },
    )
}

fn make_walk(
    kind: &str,
    from: Location,
    to: Location,
    secs: u32,
    metres: u32,
    path: &Vec<(u64, u64)>,
) -> (r: Leg)
    ensures
        r@ == walk_leg(kind@, from@, to@, secs, metres, path@),
{
    Leg::Walk(
        WalkLeg {
            walk_type: Some(t::copy_str(kind)),
            from: Some(from),
            to: Some(to),
            duration_seconds: secs,
            distance_meters: Some(metres),
            polyline: None,
            path: Some(lists::copy_list(path)),
        },
    )
}

/// The walk from the origin to the first stop.
pub open spec fn access_leg(
    data: TransitData,
    req: PlanRequest,
    j: JourneyView,
    origin_stops: Seq<(u32, u32, u32)>,
    walks: JourneyWalksView,
) -> LegView {
    walk_leg(
        "station_access"@,
        end_place(LatLon { lat: req.origin_lat, lon: req.origin_lon }, "START"@),
        stop_place(data.stops@[j.access_stop_idx as int]),
        j.access_walk_secs,
        metres_to(origin_stops, j.access_stop_idx, 0),
        walks.access,
    )
}

/// The walk from the last stop to the destination.
pub open spec fn egress_leg(
    data: TransitData,
    req: PlanRequest,
    j: JourneyView,
    dest_stops: Seq<(u32, u32, u32)>,
    walks: JourneyWalksView,
) -> LegView {
    walk_leg(
        "station_egress"@,
        stop_place(data.stops@[j.egress_stop_idx as int]),
        end_place(LatLon { lat: req.dest_lat, lon: req.dest_lon }, "END"@),
        j.egress_walk_secs,
        metres_to(dest_stops, j.egress_stop_idx, 0),
        walks.egress,
    )
}

/// A walk between two stops.
pub open spec fn stop_leg(
    data: TransitData,
    pair: (u32, u32),
    secs: u32,
    walk: StopWalkView,
) -> LegView {
    walk_leg(
        "station_transfer"@,
        stop_place(data.stops@[pair.0 as int]),
        stop_place(data.stops@[pair.1 as int]),
        secs,
        walk.metres,
        walk.path,
    )
}

/// The first `n` rides, with the walks between them.
pub open spec fn rides(
    data: TransitData,
    date: Seq<char>,
    legs: Seq<RaptorLeg>,
    walks: Seq<StopWalkView>,
    n: int,
) -> Seq<LegView>
    decreases n,
{
    if n <= 0 {
        Seq::empty()
    } else {
        let before = rides(data, date, legs, walks, n - 1);
        let leg = legs[n - 1];
        let ride = LegView::Transit(seq![route_option(data, date, leg)]);
        if walks_before(data, legs, n - 1) {
            let k = changes(data, legs, n - 1).len() as int;
            before.push(
                stop_leg(
                    data,
                    (alight_stop(data, legs[n - 2]), board_stop(data, leg)),
                    m::sub_or_zero(leg.board_time, legs[n - 2].alight_time),
                    walks[k],
                ),
            ).push(ride)
        } else {
            before.push(ride)
        }
    }
}

/// The walk from the last ride to the stop that the journey ends at, for as long as there is until
/// the way to the destination begins.
pub open spec fn last_stop_leg(data: TransitData, j: JourneyView, walks: JourneyWalksView) -> LegView {
    let last = j.legs.last();
    stop_leg(
        data,
        (alight_stop(data, last), j.egress_stop_idx),
        m::sub_or_zero(m::sub_or_zero(j.arrival_time, j.egress_walk_secs), last.alight_time),
        walks.between[changes(data, j.legs, j.legs.len() as int).len() as int],
    )
}

/// The legs of a plan.
pub open spec fn legs_of(
    data: TransitData,
    req: PlanRequest,
    j: JourneyView,
    origin_stops: Seq<(u32, u32, u32)>,
    dest_stops: Seq<(u32, u32, u32)>,
    walks: JourneyWalksView,
) -> Seq<LegView> {
    let start = if j.access_walk_secs > 0 {
        seq![access_leg(data, req, j, origin_stops, walks)]
    } else {
        Seq::empty()
    };
    let ridden = start + rides(
        data,
        req.date_str@,
        j.legs,
        walks.between,
        j.legs.len() as int,
    );
    let arrived = if walks_at_end(data, j) {
        ridden.push(last_stop_leg(data, j, walks))
    } else {
        ridden
    };
    if j.egress_walk_secs > 0 {
        arrived.push(egress_leg(data, req, j, dest_stops, walks))
    } else {
        arrived
    }
}

/// The plan that a journey makes.
pub open spec fn plan_of(
    data: TransitData,
    req: PlanRequest,
    j: JourneyView,
    origin_stops: Seq<(u32, u32, u32)>,
    dest_stops: Seq<(u32, u32, u32)>,
    walks: JourneyWalksView,
) -> PlanView {
    let secs = m::sub_or_zero(j.arrival_time, j.departure_time);
    PlanView {
        duration_seconds: secs,
        duration_seconds_min: Some(secs),
        duration_seconds_max: Some(secs),
        start_time: iso_text(req.date_str@, j.departure_time),
        legs: legs_of(data, req, j, origin_stops, dest_stops, walks),
        fares_min: None,
        fares_max: None,
        currency: None,
    }
}

/// There is a walk for each that the journey has from stop to stop.
pub open spec fn walks_match(data: TransitData, j: JourneyView, walks: JourneyWalksView) -> bool {
    walks.between.len() == stop_walks_of(data, j).len()
}

proof fn lemma_changes_grow(data: TransitData, legs: Seq<RaptorLeg>, a: int, b: int)
    requires
        a <= b,
    ensures
        changes(data, legs, a).len() <= changes(data, legs, b).len(),
    decreases b,
{
    if a < b && b > 0 {
        lemma_changes_grow(data, legs, a, b - 1);
    }
}

/// Appends the rides of a journey, with the walks between them.
fn push_rides(
    data: &TransitData,
    date: &str,
    journey: &RaptorJourney,
    walks: &JourneyWalks,
    out: &mut Vec<Leg>,
)
    requires
        data.wf(),
        rp::journey_ok(*data, journey@),
        agencies_known(*data, journey.legs@),
        walks_match(*data, journey@, walks@),
    ensures
        f::views(final(out)@) == f::views(old(out)@) + rides(
            *data,
            date@,
            journey.legs@,
            walks@.between,
            journey.legs@.len() as int,
        ),
{
    let legs = &journey.legs;
    let ghost base = f::views(out@);
    let ghost wv = walks@.between;
    let ghost n = legs@.len() as int;
    let mut k: usize = 0;
    let mut i: usize = 0;
    assert(base =~= base + rides(*data, date@, legs@, wv, 0));
    while i < legs.len()
        invariant
            data.wf(),
            i <= n,
            n == legs@.len(),
            rp::legs_ok(*data, legs@),
            agencies_known(*data, legs@),
            wv == walks@.between,
            changes(*data, legs@, n).len() <= wv.len(),
            k == changes(*data, legs@, i as int).len(),
            f::views(out@) == base + rides(*data, date@, legs@, wv, i as int),
        decreases n - i,
    {
        assert(rp::leg_ok(*data, legs@[i as int]));
        let leg = &legs[i];
        let ghost done = f::views(out@);
        let ghost before = rides(*data, date@, legs@, wv, i as int);
        let option = option_of_ride(data, date, leg);
        if i > 0 {
            assert(rp::leg_ok(*data, legs@[i - 1]));
            let prev = &legs[i - 1];
            let from: u32 = alight_stop_of(data, prev);
            let to: u32 = board_stop_of(data, leg);
            if from != to {
                proof {
                    lemma_changes_grow(*data, legs@, i + 1, n);
                    assert(data.route_ok(data.routes@[prev.route_idx as int]));
                    assert(data.route_ok(data.routes@[leg.route_idx as int]));
                    assert(wv[k as int] == walks.between@[k as int]@);
                }
                let walk = &walks.between[k];
                assert(k < walks.between.len());
                let x = make_walk(
                    "station_transfer",
                    place_of_stop(&data.stops[from as usize]),
                    place_of_stop(&data.stops[to as usize]),
                    leg.board_time.saturating_sub(prev.alight_time),
                    walk.metres,
                    &walk.path,
                );
                proof {
                    f::lemma_views_push(out@, x);
                }
                out.push(x);
                k += 1;
            }
        }
        let mut options: Vec<RouteOption> = Vec::new();
        options.push(option);
        let x = Leg::Transit(TransitLeg { route_options: options });
        proof {
            assert(f::views(options@) =~= seq![route_option(*data, date@, *leg)]);
            f::lemma_views_push(out@, x);
            assert(f::views(out@).push(x@) =~= base + rides(
                *data,
                date@,
                legs@,
                wv,
                i as int + 1,
            ));
        }
        out.push(x);
        i += 1;
    }
}

/// Makes a plan of a journey.
pub fn journey_to_plan(
    data: &TransitData,
    journey: &RaptorJourney,
    req: &PlanRequest,
    origin_stops: &Vec<(u32, u32, u32)>,
    dest_stops: &Vec<(u32, u32, u32)>,
    walks: &JourneyWalks,
) -> (r: Plan)
    requires
        data.wf(),
        rp::journey_ok(*data, journey@),
        agencies_known(*data, journey.legs@),
        walks_match(*data, journey@, walks@),
    ensures
        r@ == plan_of(*data, *req, journey@, origin_stops@, dest_stops@, walks@),
{
    let date = req.date_str.as_str();
    let mut legs: Vec<Leg> = Vec::new();
    let ghost j = journey@;
    assert(f::views(legs@) =~= Seq::<LegView>::empty());
    if journey.access_walk_secs > 0 {
        let x = make_walk(
            "station_access",
            place_of_end(LatLon { lat: req.origin_lat, lon: req.origin_lon }, "START"),
            place_of_stop(&data.stops[journey.access_stop_idx as usize]),
            journey.access_walk_secs,
            find_metres(origin_stops, journey.access_stop_idx),
            &walks.access,
        );
        proof {
            f::lemma_views_push(legs@, x);
        }
        legs.push(x);
        assert(f::views(legs@) =~= seq![access_leg(*data, *req, j, origin_stops@, walks@)]);
    }
    push_rides(data, date, journey, walks, &mut legs);
    let n: usize = journey.legs.len();
    let last = &journey.legs[n - 1];
    assert(rp::leg_ok(*data, journey.legs@[n - 1]));
    let end: u32 = alight_stop_of(data, last);
    if end != journey.egress_stop_idx {
        let k: usize = walks.between.len() - 1;
        proof {
            assert(data.route_ok(data.routes@[last.route_idx as int]));
            assert(walks@.between[k as int] == walks.between@[k as int]@);
        }
        let walk = &walks.between[k];
        let x = make_walk(
            "station_transfer",
            place_of_stop(&data.stops[end as usize]),
            place_of_stop(&data.stops[journey.egress_stop_idx as usize]),
            journey.arrival_time.saturating_sub(journey.egress_walk_secs).saturating_sub(
                last.alight_time,
            ),
            walk.metres,
            &walk.path,
        );
        proof {
            f::lemma_views_push(legs@, x);
        }
        legs.push(x);
    }
    if journey.egress_walk_secs > 0 {
        let x = make_walk(
            "station_egress",
            place_of_stop(&data.stops[journey.egress_stop_idx as usize]),
            place_of_end(LatLon { lat: req.dest_lat, lon: req.dest_lon }, "END"),
            journey.egress_walk_secs,
            find_metres(dest_stops, journey.egress_stop_idx),
            &walks.egress,
        );
        proof {
            f::lemma_views_push(legs@, x);
        }
        legs.push(x);
    }
    let secs: u32 = journey.arrival_time.saturating_sub(journey.departure_time);
    Plan {
        duration_seconds: secs,
        duration_seconds_min: Some(secs),
        duration_seconds_max: Some(secs),
        start_time: secs_to_iso(date, journey.departure_time),
        legs,
        fares_min: None,
        fares_max: None,
        currency: None,
    }
}

/// The query that a request makes with the stops within reach of its ends.
pub open spec fn asks(
    q: RaptorQuery,
    req: PlanRequest,
    origin_stops: Seq<(u32, u32, u32)>,
    dest_stops: Seq<(u32, u32, u32)>,
) -> bool {
    &&& q.origin_stops@ == timed(origin_stops)
    &&& q.dest_stops@ == timed(dest_stops)
    &&& q.departure_time == req.departure_time
    &&& q.service_day == req.service_day
    &&& q.max_transfers == (match req.max_transfers {
        Some(n) => n,
        None => DEFAULT_MAX_TRANSFERS,
    })
    &&& q.max_results == (match req.max_results {
        Some(n) => n,
        None => DEFAULT_MAX_RESULTS,
    })
}

/// Stops with their walking times.
pub open spec fn timed(stops: Seq<(u32, u32, u32)>) -> Seq<(u32, u32)> {
    Seq::new(stops.len(), |i: int| (stops[i].0, stops[i].1))
}

/// All stops exist.
pub open spec fn stops_exist(stops: Seq<(u32, u32, u32)>, n: int) -> bool {
    forall|i: int| 0 <= i < stops.len() ==> (#[trigger] stops[i]).0 < n
}

/// The stops with their walking times.
pub fn with_times(stops: &Vec<(u32, u32, u32)>) -> (r: Vec<(u32, u32)>)
    ensures
        r@ == timed(stops@),
{
    let mut out: Vec<(u32, u32)> = Vec::new();
    let mut i: usize = 0;
    while i < stops.len()
        invariant
            i <= stops@.len(),
            out@ == timed(stops@).take(i as int),
        decreases stops@.len() - i,
    {
        out.push((stops[i].0, stops[i].1));
        i += 1;
        assert(out@ =~= timed(stops@).take(i as int));
    }
    assert(timed(stops@).take(i as int) =~= timed(stops@));
    out
}

/// How far the traveller may walk to the first and from the last stop, in metres.
pub fn walk_limit(req: &PlanRequest) -> (r: u32)
    ensures
        r == (match req.max_walk_distance {
            Some(n) => n,
            None => DEFAULT_MAX_WALK,
        }),
{
    match req.max_walk_distance {
        Some(n) => n,
        None => DEFAULT_MAX_WALK,
    }
}

/// Finds the journeys that answer a request, from the stops within reach of its ends: stop,
/// walking time and metres. There are none if either end has no stops.
pub fn find_journeys(
    data: &TransitData,
    req: &PlanRequest,
    origin_stops: &Vec<(u32, u32, u32)>,
    dest_stops: &Vec<(u32, u32, u32)>,
) -> (r: Vec<RaptorJourney>)
    requires
        data.wf(),
        stops_exist(origin_stops@, data.stops@.len() as int),
        stops_exist(dest_stops@, data.stops@.len() as int),
    ensures
        origin_stops@.len() == 0 || dest_stops@.len() == 0 ==> r@.len() == 0,
        origin_stops@.len() > 0 && dest_stops@.len() > 0 ==> exists|q: RaptorQuery|
            asks(q, *req, origin_stops@, dest_stops@) && rp::journeys_view(r@)
                == #[trigger] m::answer(*data, q),
        rp::journeys_ok(*data, r@),
{
    if origin_stops.len() == 0 || dest_stops.len() == 0 {
        return Vec::new();
    }
    let query = RaptorQuery {
        origin_stops: with_times(origin_stops),
        dest_stops: with_times(dest_stops),
        departure_time: req.departure_time,
        service_day: req.service_day,
        max_transfers: match req.max_transfers {
            Some(n) => n,
            None => DEFAULT_MAX_TRANSFERS,
        },
        max_results: match req.max_results {
            Some(n) => n,
            None => DEFAULT_MAX_RESULTS,
        },
    };
    assert(query.wf(*data)) by {
        assert forall|i: int| 0 <= i < query.origin_stops@.len() implies (
        #[trigger] query.origin_stops@[i]).0 < data.stops@.len() by {
            assert(origin_stops@[i].0 < data.stops@.len());
        }
        assert forall|i: int| 0 <= i < query.dest_stops@.len() implies (
        #[trigger] query.dest_stops@[i]).0 < data.stops@.len() by {
            assert(dest_stops@[i].0 < data.stops@.len());
        }
    }
    assert(asks(query, *req, origin_stops@, dest_stops@));
    rp::run(data, &query)
}

/// The plans that journeys make, each with its walks.
pub open spec fn plans_of(
    data: TransitData,
    req: PlanRequest,
    js: Seq<JourneyView>,
    origin_stops: Seq<(u32, u32, u32)>,
    dest_stops: Seq<(u32, u32, u32)>,
    walks: Seq<JourneyWalksView>,
) -> Seq<PlanView> {
    Seq::new(
        js.len(),
        |i: int| plan_of(data, req, js[i], origin_stops, dest_stops, walks[i]),
    )
}

/// There are walks for all journeys.
pub open spec fn all_walks_match(
    data: TransitData,
    js: Seq<RaptorJourney>,
    walks: Seq<JourneyWalks>,
) -> bool {
    &&& walks.len() == js.len()
    &&& forall|i: int| 0 <= i < js.len() ==> walks_match(data, (#[trigger] js[i])@, walks[i]@)
}

/// Answers a request with the plans of its journeys.
pub fn plan(
    data: &TransitData,
    req: &PlanRequest,
    journeys: &Vec<RaptorJourney>,
    origin_stops: &Vec<(u32, u32, u32)>,
    dest_stops: &Vec<(u32, u32, u32)>,
    walks: &Vec<JourneyWalks>,
) -> (r: PlanResponse)
    requires
        data.wf(),
        rp::journeys_ok(*data, journeys@),
        all_agencies_known(*data, journeys@),
        all_walks_match(*data, journeys@, walks@),
    ensures
        f::views(r.plans@) == plans_of(
            *data,
            *req,
            rp::journeys_view(journeys@),
            origin_stops@,
            dest_stops@,
            f::views(walks@),
        ),
{
    let ghost all = plans_of(
        *data,
        *req,
        rp::journeys_view(journeys@),
        origin_stops@,
        dest_stops@,
        f::views(walks@),
    );
    let mut plans: Vec<Plan> = Vec::new();
    let mut i: usize = 0;
    assert(f::views(plans@) =~= all.take(0));
    while i < journeys.len()
        invariant
            data.wf(),
            i <= journeys@.len(),
            rp::journeys_ok(*data, journeys@),
            all_agencies_known(*data, journeys@),
            all_walks_match(*data, journeys@, walks@),
            all == plans_of(
                *data,
                *req,
                rp::journeys_view(journeys@),
                origin_stops@,
                dest_stops@,
                f::views(walks@),
            ),
            f::views(plans@) == all.take(i as int),
        decreases journeys@.len() - i,
    {
        assert(rp::journey_ok(*data, journeys@[i as int]@));
        assert(walks_match(*data, journeys@[i as int]@, walks@[i as int]@));
        assert(agencies_known(*data, journeys@[i as int].legs@));
        let x = journey_to_plan(data, &journeys[i], req, origin_stops, dest_stops, &walks[i]);
        proof {
            f::lemma_views_push(plans@, x);
            assert(x@ == all[i as int]);
            assert(all.take(i + 1) =~= all.take(i as int).push(all[i as int]));
        }
        plans.push(x);
        i += 1;
    }
    assert(all.take(i as int) =~= all);
    PlanResponse { plans }
}

} // verus!
