//! Answers to requests, as the web service gives them.

use crate::feed as f;
use crate::text as t;
use vstd::prelude::*;

verus! {

#[derive(Debug, Clone)]
pub struct PlanResponse {
    pub plans: Vec<Plan>,
}

/// One way to make a trip.
#[derive(Debug, Clone)]
pub struct Plan {
    pub duration_seconds: u32,
    pub duration_seconds_min: Option<u32>,
    pub duration_seconds_max: Option<u32>,
    pub start_time: String,
    pub legs: Vec<Leg>,
    pub fares_min: Option<u32>,
    pub fares_max: Option<u32>,
    pub currency: Option<String>,
}

#[derive(Debug, Clone)]
pub enum Leg {
    Walk(WalkLeg),
    Transit(TransitLeg),
    Wait(WaitLeg),
}

#[derive(Debug, Clone)]
pub struct WalkLeg {
    pub walk_type: Option<String>,
    pub from: Option<Location>,
    pub to: Option<Location>,
    pub duration_seconds: u32,
    pub distance_meters: Option<u32>,
    pub polyline: Option<String>,
    /// Coordinates along the way, from end to end.
    pub path: Option<Vec<(u64, u64)>>,
}

#[derive(Debug, Clone)]
pub struct TransitLeg {
    pub route_options: Vec<RouteOption>,
}

#[derive(Debug, Clone)]
pub struct WaitLeg {
    pub duration_seconds: u32,
}

#[derive(Debug, Clone)]
pub struct RouteOption {
    pub route_id: String,
    pub trip_id: Option<String>,
    pub route_name: String,
    pub route_long_name: Option<String>,
    pub route_short_name: Option<String>,
    pub headsign: Option<String>,
    pub agency: AgencyInfo,
    pub mode: String,
    pub duration_seconds: u32,
    pub start_time: Option<String>,
    pub color: Option<String>,
    pub text_color: Option<String>,
    pub fare: Option<FareInfo>,
    pub stops: Vec<StopInfo>,
    pub from: StopInfo,
    pub to: StopInfo,
}

#[derive(Debug, Clone)]
pub struct Location {
    pub location: LatLon,
    pub address: Option<String>,
    pub id: Option<String>,
    pub stop_id: Option<String>,
    pub entrance: Option<String>,
    pub platform: Option<String>,
}

/// A coordinate, as bit patterns.
#[derive(Debug, Clone, Copy)]
pub struct LatLon {
    pub lat: u64,
    pub lon: u64,
}

#[derive(Debug, Clone)]
pub struct AgencyInfo {
    pub id: String,
    pub name: String,
    pub url: Option<String>,
}

#[derive(Debug, Clone)]
pub struct FareInfo {
    pub base_fare: u32,
    pub final_fare: Option<u32>,
    pub currency: String,
}

#[derive(Debug, Clone)]
pub struct StopInfo {
    pub location: LatLon,
    pub id: Option<String>,
    pub stop_id: Option<String>,
    pub stop_name: Option<String>,
    pub platform: Option<String>,
    pub arrival_offset_minutes: Option<i32>,
    pub departure_offset_minutes: Option<i32>,
}

// ---------------------------------------------------------------------------
// Mathematical values
// ---------------------------------------------------------------------------

#[verifier::ext_equal]
pub struct LocationView {
    pub location: LatLon,
    pub address: Option<Seq<char>>,
    pub id: Option<Seq<char>>,
    pub stop_id: Option<Seq<char>>,
    pub entrance: Option<Seq<char>>,
    pub platform: Option<Seq<char>>,
}

#[verifier::ext_equal]
pub struct StopInfoView {
    pub location: LatLon,
    pub id: Option<Seq<char>>,
    pub stop_id: Option<Seq<char>>,
    pub stop_name: Option<Seq<char>>,
    pub platform: Option<Seq<char>>,
    pub arrival_offset_minutes: Option<i32>,
    pub departure_offset_minutes: Option<i32>,
}

#[verifier::ext_equal]
pub struct AgencyInfoView {
    pub id: Seq<char>,
    pub name: Seq<char>,
    pub url: Option<Seq<char>>,
}

#[verifier::ext_equal]
pub struct FareInfoView {
    pub base_fare: u32,
    pub final_fare: Option<u32>,
    pub currency: Seq<char>,
}

#[verifier::ext_equal]
pub struct RouteOptionView {
    pub route_id: Seq<char>,
    pub trip_id: Option<Seq<char>>,
    pub route_name: Seq<char>,
    pub route_long_name: Option<Seq<char>>,
    pub route_short_name: Option<Seq<char>>,
    pub headsign: Option<Seq<char>>,
    pub agency: AgencyInfoView,
    pub mode: Seq<char>,
    pub duration_seconds: u32,
    pub start_time: Option<Seq<char>>,
    pub color: Option<Seq<char>>,
    pub text_color: Option<Seq<char>>,
    pub fare: Option<FareInfoView>,
    pub stops: Seq<StopInfoView>,
    pub from: StopInfoView,
    pub to: StopInfoView,
}

#[verifier::ext_equal]
pub struct WalkLegView {
    pub walk_type: Option<Seq<char>>,
    pub from: Option<LocationView>,
    pub to: Option<LocationView>,
    pub duration_seconds: u32,
    pub distance_meters: Option<u32>,
    pub polyline: Option<Seq<char>>,
    pub path: Option<Seq<(u64, u64)>>,
}

#[verifier::ext_equal]
pub enum LegView {
    Walk(WalkLegView),
    Transit(Seq<RouteOptionView>),
    Wait(u32),
}

#[verifier::ext_equal]
pub struct PlanView {
    pub duration_seconds: u32,
    pub duration_seconds_min: Option<u32>,
    pub duration_seconds_max: Option<u32>,
    pub start_time: Seq<char>,
    pub legs: Seq<LegView>,
    pub fares_min: Option<u32>,
    pub fares_max: Option<u32>,
    pub currency: Option<Seq<char>>,
}

/// The value of an optional thing.
pub open spec fn view_of<T: View>(x: Option<T>) -> Option<T::V> {
    match x {
        Some(v) => Some(v@),
        None => None,
    }
}

impl View for Location {
    type V = LocationView;

    open spec fn view(&self) -> LocationView {
        LocationView {
            location: self.location,
            address: t::text_of(self.address),
            id: t::text_of(self.id),
            stop_id: t::text_of(self.stop_id),
            entrance: t::text_of(self.entrance),
            platform: t::text_of(self.platform),
        }
    }
}

impl View for StopInfo {
    type V = StopInfoView;

    open spec fn view(&self) -> StopInfoView {
        StopInfoView {
            location: self.location,
            id: t::text_of(self.id),
            stop_id: t::text_of(self.stop_id),
            stop_name: t::text_of(self.stop_name),
            platform: t::text_of(self.platform),
            arrival_offset_minutes: self.arrival_offset_minutes,
            departure_offset_minutes: self.departure_offset_minutes,
        }
    }
}

impl View for AgencyInfo {
    type V = AgencyInfoView;

    open spec fn view(&self) -> AgencyInfoView {
        AgencyInfoView { id: self.id@, name: self.name@, url: t::text_of(self.url) }
    }
}

impl View for FareInfo {
    type V = FareInfoView;

    open spec fn view(&self) -> FareInfoView {
        FareInfoView {
            base_fare: self.base_fare,
            final_fare: self.final_fare,
            currency: self.currency@,
        }
    }
}

impl View for RouteOption {
    type V = RouteOptionView;

    open spec fn view(&self) -> RouteOptionView {
        RouteOptionView {
            route_id: self.route_id@,
            trip_id: t::text_of(self.trip_id),
            route_name: self.route_name@,
            route_long_name: t::text_of(self.route_long_name),
            route_short_name: t::text_of(self.route_short_name),
            headsign: t::text_of(self.headsign),
            agency: self.agency@,
            mode: self.mode@,
            duration_seconds: self.duration_seconds,
            start_time: t::text_of(self.start_time),
            color: t::text_of(self.color),
            text_color: t::text_of(self.text_color),
            fare: view_of(self.fare),
            stops: f::views(self.stops@),
            from: self.from@,
            to: self.to@,
        }
    }
}

impl View for WalkLeg {
    type V = WalkLegView;

    open spec fn view(&self) -> WalkLegView {
        WalkLegView {
            walk_type: t::text_of(self.walk_type),
            from: view_of(self.from),
            to: view_of(self.to),
            duration_seconds: self.duration_seconds,
            distance_meters: self.distance_meters,
            polyline: t::text_of(self.polyline),
            path: view_of(self.path),
        }
    }
}

impl View for Leg {
    type V = LegView;

    open spec fn view(&self) -> LegView {
        match self {
            Leg::Walk(x) => LegView::Walk(x@),
            Leg::Transit(x) => LegView::Transit(f::views(x.route_options@)),
            Leg::Wait(x) => LegView::Wait(x.duration_seconds),
        }
    }
}

impl View for Plan {
    type V = PlanView;

    open spec fn view(&self) -> PlanView {
        PlanView {
            duration_seconds: self.duration_seconds,
            duration_seconds_min: self.duration_seconds_min,
            duration_seconds_max: self.duration_seconds_max,
            start_time: self.start_time@,
            legs: f::views(self.legs@),
            fares_min: self.fares_min,
            fares_max: self.fares_max,
            currency: t::text_of(self.currency),
        }
    }
}

} // verus!
