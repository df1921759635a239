//! Reading a timetable feed: its tables, calendars, frequencies and route patterns.

use crate::archive as ar;
use crate::archive::FeedFiles;
use crate::calendar as cal;
use crate::data::NOT_SET;
use crate::feed as f;
use crate::feed::{
    AgencyView, FareUseView, FareView, Feed, FrequencyView, GroupView, LinkView, PathwayView,
    RouteView, ServiceView, StopTimesView, StopView, Tables, TripView,
};
use crate::lists;
use crate::table as tab;
use crate::table::{CsvRows, Fault, LoadError, Table};
use crate::text as t;
use vstd::hash_map::StringHashMap;
use vstd::prelude::*;

verus! {

// ---------------------------------------------------------------------------
// Fields
// ---------------------------------------------------------------------------

/// Seconds since midnight of a time "H:MM:SS"; `NOT_SET` for anything else.
pub fn parse_time(s: &str) -> (r: u32)
    ensures
        r == f::time_in(s@),
{
    let v = t::trim(&t::chars_of(s));
    let parts = t::split(&v, ':');
    let ghost pv = t::split_at(t::trimmed(s@), ':');
    assert(t::pieces_view(parts@) == pv);
    if parts.len() != 3 {
        return NOT_SET;
    }
    proof {
        assert(pv[0] == parts@[0]@);
        assert(pv[1] == parts@[1]@);
        assert(pv[2] == parts@[2]@);
    }
    let h: Option<u32> = t::read_number(&parts[0], 10, NOT_SET - 1);
    let m: Option<u32> = t::read_number(&parts[1], 10, NOT_SET - 1);
    let sec: Option<u32> = t::read_number(&parts[2], 10, NOT_SET - 1);
    match (h, m, sec) {
        (Some(h), Some(m), Some(sec)) => {
            let sum: u64 = h as u64 * 3600 + m as u64 * 60 + sec as u64;
            if sum < NOT_SET as u64 {
                sum as u32
            } else {
                NOT_SET
            }
        },
        _ => NOT_SET,
    }
}

/// Days since 1970-01-01 of a date that begins "YYYYMMDD".
pub fn parse_date(s: &str) -> (r: Option<u32>)
    ensures
        r == f::date_in(s@),
{
    let v = t::chars_of(s);
    if v.len() < 8 {
        return None;
    }
    let y: Option<i32> = t::read_i32(&t::sub_chars(&v, 0, 4));
    let m: Option<u32> = t::read_u32(&t::sub_chars(&v, 4, 6));
    let d: Option<u32> = t::read_u32(&t::sub_chars(&v, 6, 8));
    match (y, m, d) {
        (Some(y), Some(m), Some(d)) => Some(cal::gregorian_to_epoch_days(y, m, d)),
        _ => None,
    }
}

/// Time of day in the form "HH:MM:SS".
pub open spec fn time_text(secs: int) -> Seq<char> {
    t::padded(secs / 3600, 10, 2) + seq![':'] + t::padded((secs % 3600) / 60, 10, 2) + seq![':']
        + t::padded(secs % 60, 10, 2)
}

/// Time of day in the form "HH:MM:SS".
pub fn secs_to_timestr(secs: u32) -> (r: String)
    ensures
        r@ == time_text(secs as int),
{
    let mut s = t::decimal_string(secs / 3600, 2);
    s.push(':');
    t::append_str(&mut s, t::decimal_string((secs % 3600) / 60, 2).as_str());
    s.push(':');
    t::append_str(&mut s, t::decimal_string(secs % 60, 2).as_str());
    assert(s@ =~= time_text(secs as int));
    s
}

/// Reading a written time of day gives it back.
pub proof fn written_times_read_back(secs: int)
    requires
        0 <= secs < NOT_SET,
    ensures
        f::time_in(time_text(secs)) == secs,
{
    let h = t::padded(secs / 3600, 10, 2);
    let m = t::padded((secs % 3600) / 60, 10, 2);
    let s = t::padded(secs % 60, 10, 2);
    let text = time_text(secs);
    t::written_number_reads_back(secs / 3600, 10, 2, NOT_SET - 1);
    t::written_number_reads_back((secs % 3600) / 60, 10, 2, NOT_SET - 1);
    t::written_number_reads_back(secs % 60, 10, 2, NOT_SET - 1);
    assert forall|i: int| 0 <= i < h.len() implies #[trigger] h[i] != ':' by {
        t::lemma_padded_digits(secs / 3600, 10, 2, i);
    }
    assert forall|i: int| 0 <= i < m.len() implies #[trigger] m[i] != ':' by {
        t::lemma_padded_digits((secs % 3600) / 60, 10, 2, i);
    }
    assert forall|i: int| 0 <= i < s.len() implies #[trigger] s[i] != ':' by {
        t::lemma_padded_digits(secs % 60, 10, 2, i);
    }
    t::lemma_split_whole(h, ':');
    t::lemma_split_join(h, ':', m);
    t::lemma_split_join(h + seq![':'] + m, ':', s);
    assert(text =~= h + seq![':'] + m + seq![':'] + s);
    t::lemma_padded_digits(secs / 3600, 10, 2, 0);
    t::lemma_padded_digits(secs % 60, 10, 2, s.len() - 1);
    assert(text[0] == h[0]);
    assert(text.last() == s.last());
    t::lemma_trimmed(text);
    let parts = t::split_at(text, ':');
    assert(parts =~= seq![h, m, s]);
}

/// A color in hexadecimal digits that may follow a `#`; zero for anything else.
pub fn parse_color(s: &str) -> (r: u32)
    ensures
        r == f::color_in(s@),
{
    let v = t::trim(&t::chars_of(s));
    let mut i: usize = 0;
    assert(v@.skip(0) =~= v@);
    while i < v.len() && v[i] == '#'
        invariant
            i <= v@.len(),
            f::without_leading(v@, '#') == f::without_leading(v@.skip(i as int), '#'),
        decreases v@.len() - i,
    {
        assert(v@.skip(i as int).skip(1) =~= v@.skip(i as int + 1));
        assert(v@.skip(i as int)[0] == v@[i as int]);
        i += 1;
    }
    let rest = t::sub_chars(&v, i, v.len());
    assert(rest@ =~= v@.skip(i as int));
    assert(i < v@.len() ==> v@.skip(i as int)[0] == v@[i as int]);
    match t::read_number(&rest, 16, u32::MAX) {
        Some(x) => x,
        None => 0,
    }
}

/// The number in a field, or a default.
fn number_field(s: &String, max: u32, default: u32) -> (r: u32)
    requires
        default <= max,
    ensures
        r == f::number_or(s@, max as int, default as int),
        r <= max,
{
    match t::read_number(&t::chars_of(s.as_str()), 10, max) {
        Some(x) => x,
        None => default,
    }
}

// ---------------------------------------------------------------------------
// Records
// ---------------------------------------------------------------------------

#[derive(Debug, Clone)]
pub struct RawAgency {
    pub agency_id: String,
    pub agency_name: String,
    pub agency_url: String,
    pub agency_timezone: String,
}

/// A stop. Coordinates are kept as text.
#[derive(Debug, Clone)]
pub struct RawStop {
    pub stop_id: String,
    pub stop_name: String,
    pub stop_lat: String,
    pub stop_lon: String,
    pub location_type: u8,
    pub parent_station: String,
    pub platform_code: String,
    pub zone_id: String,
}

#[derive(Debug, Clone)]
pub struct RawRoute {
    pub route_id: String,
    pub agency_id: String,
    pub short_name: String,
    pub long_name: String,
    pub route_type: u8,
    pub color: u32,
    pub text_color: u32,
}

/// A calendar. Dates are days since 1970-01-01.
#[derive(Debug, Clone)]
pub struct RawService {
    pub service_id: String,
    pub start_date: u32,
    pub end_date: u32,
    /// From Monday to Sunday.
    pub days: [bool; 7],
    pub additions: Vec<u32>,
    pub removals: Vec<u32>,
}

/// A way inside a station. The length is kept as text.
#[derive(Debug, Clone)]
pub struct RawPathway {
    pub from_stop_id: String,
    pub to_stop_id: String,
    /// Seconds, zero if not given.
    pub traversal_time: u32,
    pub length: String,
    pub is_bidirectional: bool,
}

#[derive(Debug, Clone)]
pub struct RawTransfer {
    pub from_stop_id: String,
    pub to_stop_id: String,
    pub transfer_type: u8,
    /// Seconds, zero if not given.
    pub min_transfer_time: u32,
}

#[derive(Debug, Clone)]
pub struct FrequencyEntry {
    pub trip_id: String,
    pub start_time: u32,
    pub end_time: u32,
    pub headway_secs: u32,
    pub exact_times: bool,
}

/// A fare. The price is kept as text.
#[derive(Debug, Clone)]
pub struct RawFareAttr {
    pub fare_id: String,
    pub price: String,
    pub currency_type: String,
}

/// Where a fare applies. An empty route stands for all routes.
#[derive(Debug, Clone)]
pub struct RawFareRule {
    pub fare_id: String,
    pub route_id: String,
    pub origin_id: String,
    pub destination_id: String,
}

/// A trip.
#[derive(Debug, Clone)]
pub struct Trip {
    pub trip_id: String,
    pub route_id: String,
    pub service_id: String,
    pub headsign: String,
    pub direction_id: u8,
    /// Non-empty only for a trip that is kept as a template.
    pub frequency_rules: Vec<FrequencyEntry>,
    pub template_first_departure: u32,
}

/// Stop times of one trip, in order of the stop sequence.
#[derive(Debug, Clone)]
pub struct TripStopTimes {
    pub stop_idxs: Vec<u32>,
    pub arrivals: Vec<u32>,
    pub departures: Vec<u32>,
}

/// The frequencies of one trip.
pub struct FrequencyGroup {
    pub trip_id: String,
    pub entries: Vec<FrequencyEntry>,
}

/// A feed in memory.
pub struct GtfsData {
    pub timezone: String,
    pub feed_id: String,
    pub agencies: Vec<RawAgency>,
    pub agency_id_map: StringHashMap<u32>,
    pub stops: Vec<RawStop>,
    pub stop_id_map: StringHashMap<u32>,
    pub routes: Vec<RawRoute>,
    pub route_id_map: StringHashMap<u32>,
    pub trips: Vec<Trip>,
    pub trip_id_map: StringHashMap<u32>,
    /// Stop times by trip id.
    pub stop_times: StringHashMap<TripStopTimes>,
    pub services: Vec<RawService>,
    pub pathways: Vec<RawPathway>,
    pub raw_transfers: Vec<RawTransfer>,
    pub fare_attrs: StringHashMap<RawFareAttr>,
    pub fare_rules: Vec<RawFareRule>,
}

impl View for RawAgency {
    type V = AgencyView;

    open spec fn view(&self) -> AgencyView {
        AgencyView {
            id: self.agency_id@,
            name: self.agency_name@,
            url: self.agency_url@,
            timezone: self.agency_timezone@,
        }
    }
}

impl View for RawStop {
    type V = StopView;

    open spec fn view(&self) -> StopView {
        StopView {
            id: self.stop_id@,
            name: self.stop_name@,
            lat: self.stop_lat@,
            lon: self.stop_lon@,
            location_type: self.location_type,
            parent: self.parent_station@,
            platform: self.platform_code@,
            zone: self.zone_id@,
        }
    }
}

impl View for RawRoute {
    type V = RouteView;

    open spec fn view(&self) -> RouteView {
        RouteView {
            id: self.route_id@,
            agency: self.agency_id@,
            short_name: self.short_name@,
            long_name: self.long_name@,
            route_type: self.route_type,
            color: self.color,
            text_color: self.text_color,
        }
    }
}

impl View for RawService {
    type V = ServiceView;

    open spec fn view(&self) -> ServiceView {
        ServiceView {
            id: self.service_id@,
            start: self.start_date,
            end: self.end_date,
            days: self.days@,
            additions: self.additions@,
            removals: self.removals@,
        }
    }
}

impl View for RawPathway {
    type V = PathwayView;

    open spec fn view(&self) -> PathwayView {
        PathwayView {
            from: self.from_stop_id@,
            to: self.to_stop_id@,
            secs: self.traversal_time,
            length: self.length@,
            both_ways: self.is_bidirectional,
        }
    }
}

impl View for RawTransfer {
    type V = LinkView;

    open spec fn view(&self) -> LinkView {
        LinkView {
            from: self.from_stop_id@,
            to: self.to_stop_id@,
            kind: self.transfer_type,
            min_time: self.min_transfer_time,
        }
    }
}

impl View for FrequencyEntry {
    type V = FrequencyView;

    open spec fn view(&self) -> FrequencyView {
        FrequencyView {
            trip: self.trip_id@,
            start: self.start_time,
            end: self.end_time,
            headway: self.headway_secs,
            exact: self.exact_times,
        }
    }
}

impl View for FrequencyGroup {
    type V = GroupView;

    open spec fn view(&self) -> GroupView {
        GroupView { trip: self.trip_id@, entries: f::views(self.entries@) }
    }
}

impl View for RawFareAttr {
    type V = FareView;

    open spec fn view(&self) -> FareView {
        FareView { id: self.fare_id@, price: self.price@, currency: self.currency_type@ }
    }
}

impl View for RawFareRule {
    type V = FareUseView;

    open spec fn view(&self) -> FareUseView {
        FareUseView {
            fare: self.fare_id@,
            route: self.route_id@,
            origin: self.origin_id@,
            destination: self.destination_id@,
        }
    }
}

impl View for Trip {
    type V = TripView;

    open spec fn view(&self) -> TripView {
        TripView {
            id: self.trip_id@,
            route: self.route_id@,
            service: self.service_id@,
            headsign: self.headsign@,
            direction: self.direction_id,
            rules: f::views(self.frequency_rules@),
            first_departure: self.template_first_departure,
        }
    }
}

impl View for TripStopTimes {
    type V = StopTimesView;

    open spec fn view(&self) -> StopTimesView {
        StopTimesView {
            stops: self.stop_idxs@,
            arrivals: self.arrivals@,
            departures: self.departures@,
        }
    }
}

/// The values of a map as mathematical values.
pub open spec fn value_views<T: View>(m: Map<Seq<char>, T>) -> Map<Seq<char>, T::V> {
    m.map_values(|x: T| x@)
}

impl View for GtfsData {
    type V = Feed;

    open spec fn view(&self) -> Feed {
        Feed {
            timezone: self.timezone@,
            feed_id: self.feed_id@,
            agencies: f::views(self.agencies@),
            agency_index: self.agency_id_map@,
            stops: f::views(self.stops@),
            stop_index: self.stop_id_map@,
            routes: f::views(self.routes@),
            route_index: self.route_id_map@,
            trips: f::views(self.trips@),
            trip_index: self.trip_id_map@,
            stop_times: value_views(self.stop_times@),
            services: f::views(self.services@),
            pathways: f::views(self.pathways@),
            links: f::views(self.raw_transfers@),
            fares: value_views(self.fare_attrs@),
            fare_uses: f::views(self.fare_rules@),
        }
    }
}

// ---------------------------------------------------------------------------
// Tables
// ---------------------------------------------------------------------------

fn agencies_from(tb: &CsvRows) -> (r: (Vec<RawAgency>, StringHashMap<u32>))
    ensures
        f::views(r.0@) == f::agencies_in(tb@),
        r.1@ == f::agency_index_of(f::agencies_in(tb@)),
{
    let mut agencies: Vec<RawAgency> = Vec::new();
    let mut index: StringHashMap<u32> = StringHashMap::new();
    let mut i: usize = 0;
    let ghost all = f::agencies_in(tb@);
    assert(f::agency_ids(f::views(agencies@)) =~= Seq::<Seq<char>>::empty());
    while i < tb.rows.len()
        invariant
            i <= tb.rows@.len(),
            all == f::agencies_in(tb@),
            f::views(agencies@) == all.take(i as int),
            agencies@.len() == i,
            index@ == f::index_ids(f::agency_ids(f::views(agencies@))),
        decreases tb.rows@.len() - i,
    {
        let ghost before = f::views(agencies@);
        let a = RawAgency {
            agency_id: tb.get(i, "agency_id"),
            agency_name: tb.get(i, "agency_name"),
            agency_url: tb.get(i, "agency_url"),
            agency_timezone: tb.get(i, "agency_timezone"),
        };
        index.insert(t::copy_str(a.agency_id.as_str()), agencies.len() as u32);
        proof {
            f::lemma_views_push(agencies@, a);
            assert(a@ == all[i as int]);
            assert(all.take(i as int + 1) =~= all.take(i as int).push(all[i as int]));
            assert(f::agency_ids(before.push(a@)).drop_last() =~= f::agency_ids(before));
        }
        agencies.push(a);
        i += 1;
    }
    assert(all.take(i as int) =~= all);
    if agencies.len() == 1 && !index.contains_key("") {
        proof {
            reveal_strlit("");
            assert(""@ =~= Seq::<char>::empty());
        }
        index.insert(String::new(), 0);
    } else {
        proof {
            reveal_strlit("");
            assert(""@ =~= Seq::<char>::empty());
        }
    }
    (agencies, index)
}

fn stops_from(tb: &CsvRows) -> (r: (Vec<RawStop>, StringHashMap<u32>))
    ensures
        f::views(r.0@) == f::stops_in(tb@, tb@.rows.len() as int),
        r.1@ == f::index_ids(f::stop_ids(f::views(r.0@))),
{
    let mut stops: Vec<RawStop> = Vec::new();
    let mut index: StringHashMap<u32> = StringHashMap::new();
    let mut i: usize = 0;
    assert(f::views(stops@) =~= Seq::<StopView>::empty());
    assert(f::stop_ids(f::views(stops@)) =~= Seq::<Seq<char>>::empty());
    while i < tb.rows.len()
        invariant
            i <= tb.rows@.len(),
            f::views(stops@) == f::stops_in(tb@, i as int),
            index@ == f::index_ids(f::stop_ids(f::views(stops@))),
        decreases tb.rows@.len() - i,
    {
        let ghost before = f::views(stops@);
        let id = tb.get(i, "stop_id");
        if id.as_str().unicode_len() > 0 {
            let lt: u32 = number_field(&tb.get(i, "location_type"), 255, 0);
            index.insert(t::copy_str(id.as_str()), stops.len() as u32);
            let x = RawStop {
                stop_id: id,
                stop_name: tb.get(i, "stop_name"),
                stop_lat: tb.get(i, "stop_lat"),
                stop_lon: tb.get(i, "stop_lon"),
                location_type: lt as u8,
                parent_station: tb.get(i, "parent_station"),
                platform_code: tb.get(i, "platform_code"),
                zone_id: tb.get(i, "zone_id"),
            };
            proof {
                f::lemma_views_push(stops@, x);
                assert(x@ == f::stop_at(tb@, i as int));
                assert(f::stop_ids(before.push(x@)).drop_last() =~= f::stop_ids(before));
            }
            stops.push(x);
        }
        i += 1;
    }
    (stops, index)
}

fn routes_from(tb: &CsvRows) -> (r: (Vec<RawRoute>, StringHashMap<u32>))
    ensures
        f::views(r.0@) == f::routes_in(tb@, tb@.rows.len() as int),
        r.1@ == f::index_ids(f::route_ids(f::views(r.0@))),
{
    let mut routes: Vec<RawRoute> = Vec::new();
    let mut index: StringHashMap<u32> = StringHashMap::new();
    let mut i: usize = 0;
    assert(f::views(routes@) =~= Seq::<RouteView>::empty());
    assert(f::route_ids(f::views(routes@)) =~= Seq::<Seq<char>>::empty());
    while i < tb.rows.len()
        invariant
            i <= tb.rows@.len(),
            f::views(routes@) == f::routes_in(tb@, i as int),
            index@ == f::index_ids(f::route_ids(f::views(routes@))),
        decreases tb.rows@.len() - i,
    {
        let ghost before = f::views(routes@);
        let id = tb.get(i, "route_id");
        if id.as_str().unicode_len() > 0 {
            let rt: u32 = number_field(&tb.get(i, "route_type"), 255, 3);
            index.insert(t::copy_str(id.as_str()), routes.len() as u32);
            let x = RawRoute {
                route_id: id,
                agency_id: tb.get(i, "agency_id"),
                short_name: tb.get(i, "route_short_name"),
                long_name: tb.get(i, "route_long_name"),
                route_type: rt as u8,
                color: parse_color(tb.get(i, "route_color").as_str()),
                text_color: parse_color(tb.get(i, "route_text_color").as_str()),
            };
            proof {
                f::lemma_views_push(routes@, x);
                assert(x@ == f::route_at(tb@, i as int));
                assert(f::route_ids(before.push(x@)).drop_last() =~= f::route_ids(before));
            }
            routes.push(x);
        }
        i += 1;
    }
    (routes, index)
}

fn trips_from(tb: &CsvRows, route_index: &StringHashMap<u32>) -> (r: (
    Vec<Trip>,
    StringHashMap<u32>,
))
    ensures
        f::views(r.0@) == f::trips_in(tb@, route_index@, tb@.rows.len() as int),
        r.1@ == f::index_ids(f::trip_ids(f::views(r.0@))),
{
    let mut trips: Vec<Trip> = Vec::new();
    let mut index: StringHashMap<u32> = StringHashMap::new();
    let mut i: usize = 0;
    assert(f::views(trips@) =~= Seq::<TripView>::empty());
    assert(f::trip_ids(f::views(trips@)) =~= Seq::<Seq<char>>::empty());
    while i < tb.rows.len()
        invariant
            i <= tb.rows@.len(),
            f::views(trips@) == f::trips_in(tb@, route_index@, i as int),
            index@ == f::index_ids(f::trip_ids(f::views(trips@))),
        decreases tb.rows@.len() - i,
    {
        let ghost before = f::views(trips@);
        let id = tb.get(i, "trip_id");
        let route = tb.get(i, "route_id");
        if id.as_str().unicode_len() > 0 && route_index.contains_key(route.as_str()) {
            let dir: u32 = number_field(&tb.get(i, "direction_id"), 255, 0);
            index.insert(t::copy_str(id.as_str()), trips.len() as u32);
            let x = Trip {
                trip_id: id,
                route_id: route,
                service_id: tb.get(i, "service_id"),
                headsign: tb.get(i, "trip_headsign"),
                direction_id: dir as u8,
                frequency_rules: Vec::new(),
                template_first_departure: 0,
            };
            proof {
                f::lemma_views_push(trips@, x);
                assert(x@.rules =~= Seq::<FrequencyView>::empty());
                assert(x@ == f::trip_at(tb@, i as int));
                assert(f::trip_ids(before.push(x@)).drop_last() =~= f::trip_ids(before));
            }
            trips.push(x);
        }
        i += 1;
    }
    (trips, index)
}

/// Places a call after every call with no greater sequence number.
fn insert_call(s: &mut Vec<(u32, u32, u32, u32)>, x: (u32, u32, u32, u32))
    ensures
        final(s)@ == f::insert_call(old(s)@, x),
{
    let ghost all = s@;
    let mut k: usize = s.len();
    assert(all.take(k as int) =~= all);
    assert(all.skip(k as int) =~= Seq::<(u32, u32, u32, u32)>::empty());
    assert(f::insert_call(all, x) =~= f::insert_call(all.take(k as int), x) + all.skip(k as int));
    while k > 0 && s[k - 1].0 > x.0
        invariant
            k <= s@.len(),
            s@ == all,
            f::insert_call(all, x) == f::insert_call(all.take(k as int), x) + all.skip(k as int),
        decreases k,
    {
        proof {
            let front = all.take(k as int);
            assert(front.last() == all[k as int - 1]);
            assert(front.drop_last() =~= all.take(k as int - 1));
            assert(f::insert_call(front, x) == f::insert_call(front.drop_last(), x).push(
                front.last(),
            ));
            assert(f::insert_call(front.drop_last(), x).push(front.last()) + all.skip(k as int)
                =~= f::insert_call(front.drop_last(), x) + all.skip(k as int - 1));
        }
        k -= 1;
    }
    proof {
        let front = all.take(k as int);
        assert(k > 0 ==> front.last() == all[k as int - 1]);
        assert(f::insert_call(front, x) == front.push(x));
        assert(all.insert(k as int, x) =~= front.push(x) + all.skip(k as int));
    }
    s.insert(k, x);
}

/// Stop times of one trip from its calls in the order of the file.
fn times_from(raw: &Vec<(u32, u32, u32, u32)>) -> (r: TripStopTimes)
    ensures
        r@ == f::times_of(f::sort_calls(raw@, raw@.len() as int)),
{
    let mut sorted: Vec<(u32, u32, u32, u32)> = Vec::new();
    let mut i: usize = 0;
    while i < raw.len()
        invariant
            i <= raw@.len(),
            sorted@ == f::sort_calls(raw@, i as int),
        decreases raw@.len() - i,
    {
        insert_call(&mut sorted, raw[i]);
        i += 1;
    }
    let mut st = TripStopTimes {
        stop_idxs: Vec::new(),
        arrivals: Vec::new(),
        departures: Vec::new(),
    };
    let mut k: usize = 0;
    while k < sorted.len()
        invariant
            k <= sorted@.len(),
            st@ == f::times_of(sorted@.take(k as int)),
        decreases sorted@.len() - k,
    {
        let c = sorted[k];
        st.stop_idxs.push(c.1);
        st.arrivals.push(c.2);
        st.departures.push(c.3);
        k += 1;
        assert(st@ =~= f::times_of(sorted@.take(k as int)));
    }
    assert(sorted@.take(k as int) =~= sorted@);
    st
}

/// Collects the calls of every trip from the rows of the stop times.
fn stream_stop_times(
    tb: &CsvRows,
    trip_index: &StringHashMap<u32>,
    stop_index: &StringHashMap<u32>,
    num_trips: usize,
) -> (r: Vec<Vec<(u32, u32, u32, u32)>>)
    requires
        forall|id: Seq<char>| trip_index@.contains_key(id) ==> #[trigger] trip_index@[id]
            < num_trips,
    ensures
        r@.len() == num_trips,
        forall|k: int|
            0 <= k < num_trips ==> (#[trigger] r@[k])@ == f::calls_of(
                tb@,
                trip_index@,
                stop_index@,
                k,
                tb@.rows.len() as int,
            ),
{
    let mut raw: Vec<Vec<(u32, u32, u32, u32)>> = Vec::new();
    let mut k: usize = 0;
    while k < num_trips
        invariant
            k <= num_trips,
            raw@.len() == k,
            forall|j: int| 0 <= j < k ==> (#[trigger] raw@[j])@.len() == 0,
        decreases num_trips - k,
    {
        raw.push(Vec::new());
        k += 1;
    }
    assert forall|j: int| 0 <= j < num_trips implies (#[trigger] raw@[j])@ == f::calls_of(
        tb@,
        trip_index@,
        stop_index@,
        j,
        0,
    ) by {
        assert(raw@[j]@ =~= Seq::<(u32, u32, u32, u32)>::empty());
    }
    let mut i: usize = 0;
    while i < tb.rows.len()
        invariant
            i <= tb.rows@.len(),
            forall|id: Seq<char>| trip_index@.contains_key(id) ==> #[trigger] trip_index@[id]
                < num_trips,
            raw@.len() == num_trips,
            forall|j: int|
                0 <= j < num_trips ==> (#[trigger] raw@[j])@ == f::calls_of(
                    tb@,
                    trip_index@,
                    stop_index@,
                    j,
                    i as int,
                ),
        decreases tb.rows@.len() - i,
    {
        let tid = tb.get(i, "trip_id");
        let sid = tb.get(i, "stop_id");
        let ghost before = raw@;
        match (trip_index.get(tid.as_str()), stop_index.get(sid.as_str())) {
            (Some(tidx), Some(sidx)) => {
                let seq: u32 = number_field(&tb.get(i, "stop_sequence"), u32::MAX, 0);
                let arr: u32 = parse_time(tb.get(i, "arrival_time").as_str());
                let dep: u32 = parse_time(tb.get(i, "departure_time").as_str());
                let at: usize = *tidx as usize;
                assert(trip_index@[tid@] < num_trips);
                raw[at].push((seq, *sidx, arr, dep));
                assert forall|j: int| 0 <= j < num_trips implies (#[trigger] raw@[j])@
                    == f::calls_of(tb@, trip_index@, stop_index@, j, i as int + 1) by {
                    assert(before[j]@ == f::calls_of(tb@, trip_index@, stop_index@, j, i as int));
                }
            },
            _ => {
                assert forall|j: int| 0 <= j < num_trips implies (#[trigger] raw@[j])@
                    == f::calls_of(tb@, trip_index@, stop_index@, j, i as int + 1) by {
                    assert(before[j]@ == f::calls_of(tb@, trip_index@, stop_index@, j, i as int));
                }
            },
        }
        i += 1;
    }
    raw
}

/// Stop times by trip id.
fn stop_times_from(
    tb: &CsvRows,
    trips: &Vec<Trip>,
    trip_index: &StringHashMap<u32>,
    stop_index: &StringHashMap<u32>,
) -> (r: StringHashMap<TripStopTimes>)
    requires
        trip_index@ == f::index_ids(f::trip_ids(f::views(trips@))),
    ensures
        value_views(r@) == f::stop_times_in(
            tb@,
            f::views(trips@),
            trip_index@,
            stop_index@,
            trips@.len() as int,
        ),
{
    proof {
        f::lemma_index_ids(f::trip_ids(f::views(trips@)));
    }
    let raw = stream_stop_times(tb, trip_index, stop_index, trips.len());
    let mut out: StringHashMap<TripStopTimes> = StringHashMap::new();
    let mut k: usize = 0;
    assert(value_views(out@) =~= Map::<Seq<char>, StopTimesView>::empty());
    while k < trips.len()
        invariant
            k <= trips@.len(),
            raw@.len() == trips@.len(),
            forall|j: int|
                0 <= j < trips@.len() ==> (#[trigger] raw@[j])@ == f::calls_of(
                    tb@,
                    trip_index@,
                    stop_index@,
                    j,
                    tb@.rows.len() as int,
                ),
            value_views(out@) == f::stop_times_in(
                tb@,
                f::views(trips@),
                trip_index@,
                stop_index@,
                k as int,
            ),
        decreases trips@.len() - k,
    {
        assert(raw@[k as int]@ == f::calls_of(
            tb@,
            trip_index@,
            stop_index@,
            k as int,
            tb@.rows.len() as int,
        ));
        if raw[k].len() > 0 {
            let st = times_from(&raw[k]);
            let id = t::copy_str(trips[k].trip_id.as_str());
            let ghost before = out@;
            let ghost sv = st@;
            out.insert(id, st);
            proof {
                assert(value_views(out@) =~= value_views(before).insert(id@, sv));
                assert(f::views(trips@)[k as int].id == id@);
            }
        }
        k += 1;
    }
    out
}

fn is_one(s: &String) -> (r: bool)
    ensures
        r == (s@ == "1"@),
{
    s.as_str().eq("1")
}

fn date_or_zero(s: &String) -> (r: u32)
    ensures
        r == f::date_or_zero(s@),
{
    match parse_date(s.as_str()) {
        Some(d) => d,
        None => 0,
    }
}

/// `index` says where each of some distinct ids stands.
spec fn slots_ok(index: Map<Seq<char>, usize>, ids: Seq<Seq<char>>) -> bool {
    &&& forall|id: Seq<char>| #[trigger]
        index.contains_key(id) ==> index[id] < ids.len() && ids[index[id] as int] == id
    &&& forall|k: int| 0 <= k < ids.len() ==> index.contains_key(#[trigger] ids[k]) && index[ids[k]]
        == k
}

proof fn lemma_position(ids: Seq<Seq<char>>, id: Seq<char>, from: int)
    requires
        0 <= from,
    ensures
        match tab::position(ids, id, from) {
            Some(p) => from <= p < ids.len() && ids[p] == id,
            None => forall|k: int| from <= k < ids.len() ==> ids[k] != id,
        },
    decreases ids.len() - from,
{
    if from < ids.len() && ids[from] != id {
        lemma_position(ids, id, from + 1);
    }
}

proof fn lemma_slot(index: Map<Seq<char>, usize>, ids: Seq<Seq<char>>, id: Seq<char>)
    requires
        slots_ok(index, ids),
    ensures
        match tab::position(ids, id, 0) {
            Some(p) => index.contains_key(id) && index[id] == p && 0 <= p < ids.len(),
            None => !index.contains_key(id),
        },
{
    lemma_position(ids, id, 0);
    if let Some(p) = tab::position(ids, id, 0) {
        assert(index.contains_key(ids[p]) && index[ids[p]] == p);
    }
}

/// Where an id stands.
fn slot_of(index: &StringHashMap<usize>, id: &String, Ghost(ids): Ghost<Seq<Seq<char>>>) -> (r:
    Option<usize>)
    requires
        slots_ok(index@, ids),
    ensures
        match r {
            Some(k) => tab::position(ids, id@, 0) == Some(k as int) && k < ids.len(),
            None => tab::position(ids, id@, 0) is None && !index@.contains_key(id@),
        },
{
    proof {
        lemma_slot(index@, ids, id@);
    }
    match index.get(id.as_str()) {
        Some(i) => Some(*i),
        None => None,
    }
}

spec fn service_ids(s: Seq<RawService>) -> Seq<Seq<char>> {
    f::service_ids(f::views(s))
}

/// Adds a service with a new id.
fn push_service(services: &mut Vec<RawService>, index: &mut StringHashMap<usize>, x: RawService)
    requires
        slots_ok(old(index)@, service_ids(old(services)@)),
        !old(index)@.contains_key(x.service_id@),
    ensures
        f::views(final(services)@) == f::views(old(services)@).push(x@),
        slots_ok(final(index)@, service_ids(final(services)@)),
{
    let ghost before = services@;
    let n: usize = services.len();
    index.insert(t::copy_str(x.service_id.as_str()), n);
    proof {
        f::lemma_views_push(before, x);
    }
    services.push(x);
    proof {
        let ids = service_ids(before);
        let ids1 = service_ids(services@);
        assert forall|k: int| 0 <= k < ids1.len() implies index@.contains_key(#[trigger] ids1[k])
            && index@[ids1[k]] == k by {
            if k < n {
                assert(ids1[k] == ids[k]);
            }
        }
        assert forall|id: Seq<char>| #[trigger] index@.contains_key(id) implies index@[id]
            < ids1.len() && ids1[index@[id] as int] == id by {
            if id != x.service_id@ {
                assert(old(index)@.contains_key(id));
                assert(ids1[index@[id] as int] == ids[index@[id] as int]);
            }
        }
    }
}

/// Puts a service in the place of the one with the same id.
fn set_service(services: &mut Vec<RawService>, k: usize, x: RawService, Ghost(index): Ghost<
    Map<Seq<char>, usize>,
>)
    requires
        k < old(services)@.len(),
        slots_ok(index, service_ids(old(services)@)),
        x.service_id@ == service_ids(old(services)@)[k as int],
    ensures
        f::views(final(services)@) == f::views(old(services)@).update(k as int, x@),
        slots_ok(index, service_ids(final(services)@)),
{
    let ghost before = services@;
    let ghost xv = x@;
    services[k] = x;
    proof {
        assert(f::views(services@) =~= f::views(before).update(k as int, xv));
        assert(service_ids(services@) =~= service_ids(before));
    }
}

fn services_from(tb: &CsvRows) -> (r: (Vec<RawService>, StringHashMap<usize>))
    ensures
        f::views(r.0@) == f::services_in(tb@, tb@.rows.len() as int),
        slots_ok(r.1@, service_ids(r.0@)),
{
    let mut services: Vec<RawService> = Vec::new();
    let mut index: StringHashMap<usize> = StringHashMap::new();
    let mut i: usize = 0;
    assert(f::views(services@) =~= Seq::<ServiceView>::empty());
    while i < tb.rows.len()
        invariant
            i <= tb.rows@.len(),
            f::views(services@) == f::services_in(tb@, i as int),
            slots_ok(index@, service_ids(services@)),
        decreases tb.rows@.len() - i,
    {
        let id = tb.get(i, "service_id");
        if id.as_str().unicode_len() > 0 {
            let days: [bool; 7] = [
                is_one(&tb.get(i, "monday")),
                is_one(&tb.get(i, "tuesday")),
                is_one(&tb.get(i, "wednesday")),
                is_one(&tb.get(i, "thursday")),
                is_one(&tb.get(i, "friday")),
                is_one(&tb.get(i, "saturday")),
                is_one(&tb.get(i, "sunday")),
            ];
            let slot = slot_of(&index, &id, Ghost(service_ids(services@)));
            let x = RawService {
                service_id: id,
                start_date: date_or_zero(&tb.get(i, "start_date")),
                end_date: date_or_zero(&tb.get(i, "end_date")),
                days,
                additions: Vec::new(),
                removals: Vec::new(),
            };
            proof {
                assert(x@.days =~= f::service_at(tb@, i as int).days);
                assert(x@ =~= f::service_at(tb@, i as int));
                lemma_position(service_ids(services@), x.service_id@, 0);
            }
            match slot {
                Some(k) => {
                    set_service(&mut services, k, x, Ghost(index@));
                },
                None => {
                    push_service(&mut services, &mut index, x);
                },
            }
        }
        i += 1;
    }
    (services, index)
}

/// A service with a day added or removed.
fn with_exception(s: RawService, day: u32, kind: u32) -> (r: RawService)
    ensures
        r@ == f::with_exception(s@, day, kind as int),
        r.service_id@ == s.service_id@,
{
    let mut x = s;
    if kind == 1 {
        x.additions.push(day);
        if day > x.end_date {
            x.end_date = day;
        }
        if day < x.start_date {
            x.start_date = day;
        }
    } else if kind == 2 {
        x.removals.push(day);
    }
    assert(x@ =~= f::with_exception(s@, day, kind as int));
    x
}

fn idle_service(id: String, day: u32) -> (r: RawService)
    ensures
        r@ == f::idle_service(id@, day),
{
    let r = RawService {
        service_id: id,
        start_date: day,
        end_date: day,
        days: [false, false, false, false, false, false, false],
        additions: Vec::new(),
        removals: Vec::new(),
    };
    assert(r@ =~= f::idle_service(id@, day));
    r
}

/// Adds the exceptions of the calendar dates.
fn add_exceptions(tb: &CsvRows, services: &mut Vec<RawService>, index: &mut StringHashMap<usize>)
    requires
        slots_ok(old(index)@, service_ids(old(services)@)),
    ensures
        f::views(final(services)@) == f::exceptions_in(
            tb@,
            f::views(old(services)@),
            tb@.rows.len() as int,
        ),
        slots_ok(final(index)@, service_ids(final(services)@)),
{
    let mut i: usize = 0;
    while i < tb.rows.len()
        invariant
            i <= tb.rows@.len(),
            f::views(services@) == f::exceptions_in(tb@, f::views(old(services)@), i as int),
            slots_ok(index@, service_ids(services@)),
        decreases tb.rows@.len() - i,
    {
        let id = tb.get(i, "service_id");
        let date = parse_date(tb.get(i, "date").as_str());
        let kind: u32 = number_field(&tb.get(i, "exception_type"), 255, 0);
        match date {
            Some(day) if id.as_str().unicode_len() > 0 => {
                let slot = slot_of(index, &id, Ghost(service_ids(services@)));
                proof {
                    lemma_position(service_ids(services@), id@, 0);
                }
                match slot {
                    Some(k) => {
                        let ghost before = services@;
                        let old_service = take_service(services, k);
                        let x = with_exception(old_service, day, kind);
                        let ghost xv = x@;
                        services[k] = x;
                        proof {
                            assert(f::views(services@) =~= f::views(before).update(k as int, xv));
                            assert(service_ids(services@) =~= service_ids(before));
                        }
                    },
                    None => {
                        let x = with_exception(idle_service(id, day), day, kind);
                        push_service(services, index, x);
                    },
                }
            },
            _ => {},
        }
        i += 1;
    }
}

/// Takes a service out of its place.
fn take_service(services: &mut Vec<RawService>, k: usize) -> (r: RawService)
    requires
        k < old(services)@.len(),
    ensures
        r == old(services)@[k as int],
        final(services)@.len() == old(services)@.len(),
        forall|j: int|
            0 <= j < old(services)@.len() && j != k ==> #[trigger] final(services)@[j] == old(
                services,
            )@[j],
{
    let mut x = idle_service(String::new(), 0);
    std::mem::swap(&mut services[k], &mut x);
    x
}

fn pathways_from(tb: &CsvRows) -> (r: Vec<RawPathway>)
    ensures
        f::views(r@) == f::pathways_in(tb@, tb@.rows.len() as int),
{
    let mut out: Vec<RawPathway> = Vec::new();
    let mut i: usize = 0;
    assert(f::views(out@) =~= Seq::<PathwayView>::empty());
    while i < tb.rows.len()
        invariant
            i <= tb.rows@.len(),
            f::views(out@) == f::pathways_in(tb@, i as int),
        decreases tb.rows@.len() - i,
    {
        let from = tb.get(i, "from_stop_id");
        let to = tb.get(i, "to_stop_id");
        if from.as_str().unicode_len() > 0 && to.as_str().unicode_len() > 0 {
            let x = RawPathway {
                from_stop_id: from,
                to_stop_id: to,
                traversal_time: number_field(&tb.get(i, "traversal_time"), u32::MAX, 0),
                length: tb.get(i, "length"),
                is_bidirectional: is_one(&tb.get(i, "is_bidirectional")),
            };
            proof {
                f::lemma_views_push(out@, x);
                assert(x@ == f::pathway_at(tb@, i as int));
            }
            out.push(x);
        }
        i += 1;
    }
    out
}

fn transfers_from(tb: &CsvRows) -> (r: Vec<RawTransfer>)
    ensures
        f::views(r@) == f::links_in(tb@, tb@.rows.len() as int),
{
    let mut out: Vec<RawTransfer> = Vec::new();
    let mut i: usize = 0;
    assert(f::views(out@) =~= Seq::<LinkView>::empty());
    while i < tb.rows.len()
        invariant
            i <= tb.rows@.len(),
            f::views(out@) == f::links_in(tb@, i as int),
        decreases tb.rows@.len() - i,
    {
        let from = tb.get(i, "from_stop_id");
        let to = tb.get(i, "to_stop_id");
        if from.as_str().unicode_len() > 0 && to.as_str().unicode_len() > 0 {
            let kind: u32 = number_field(&tb.get(i, "transfer_type"), 255, 0);
            let x = RawTransfer {
                from_stop_id: from,
                to_stop_id: to,
                transfer_type: kind as u8,
                min_transfer_time: number_field(&tb.get(i, "min_transfer_time"), u32::MAX, 0),
            };
            proof {
                f::lemma_views_push(out@, x);
                assert(x@ == f::link_at(tb@, i as int));
            }
            out.push(x);
        }
        i += 1;
    }
    out
}

spec fn group_ids(s: Seq<FrequencyGroup>) -> Seq<Seq<char>> {
    f::group_ids(f::views(s))
}

/// The frequencies by trip, in the order in which the trips first occur.
fn frequencies_from(tb: &CsvRows, trip_index: &StringHashMap<u32>) -> (r: Vec<FrequencyGroup>)
    ensures
        f::views(r@) == f::frequencies_in(tb@, trip_index@, tb@.rows.len() as int),
{
    let mut groups: Vec<FrequencyGroup> = Vec::new();
    let mut index: StringHashMap<usize> = StringHashMap::new();
    let mut i: usize = 0;
    assert(f::views(groups@) =~= Seq::<GroupView>::empty());
    while i < tb.rows.len()
        invariant
            i <= tb.rows@.len(),
            f::views(groups@) == f::frequencies_in(tb@, trip_index@, i as int),
            slots_ok(index@, group_ids(groups@)),
        decreases tb.rows@.len() - i,
    {
        let id = tb.get(i, "trip_id");
        if trip_index.contains_key(id.as_str()) {
            let ghost before = groups@;
            let slot = slot_of(&index, &id, Ghost(group_ids(groups@)));
            let x = FrequencyEntry {
                trip_id: t::copy_str(id.as_str()),
                start_time: parse_time(tb.get(i, "start_time").as_str()),
                end_time: parse_time(tb.get(i, "end_time").as_str()),
                headway_secs: number_field(&tb.get(i, "headway_secs"), u32::MAX, 0),
                exact_times: is_one(&tb.get(i, "exact_times")),
            };
            proof {
                assert(x@ == f::frequency_at(tb@, i as int));
            }
            match slot {
                Some(k) => {
                    proof {
                        f::lemma_views_push(before[k as int].entries@, x);
                    }
                    groups[k].entries.push(x);
                    proof {
                        let g0 = f::views(before);
                        assert(f::views(groups@) =~= g0.update(
                            k as int,
                            GroupView {
                                entries: g0[k as int].entries.push(x@),
                                ..g0[k as int]
                            },
                        ));
                        assert(group_ids(groups@) =~= group_ids(before));
                    }
                },
                None => {
                    let n: usize = groups.len();
                    index.insert(t::copy_str(id.as_str()), n);
                    let mut entries: Vec<FrequencyEntry> = Vec::new();
                    let ghost xv = x@;
                    entries.push(x);
                    let g = FrequencyGroup { trip_id: id, entries };
                    proof {
                        assert(g@.entries =~= seq![xv]);
                        f::lemma_views_push(before, g);
                    }
                    groups.push(g);
                    proof {
                        let ids = group_ids(before);
                        let ids1 = group_ids(groups@);
                        assert forall|k: int| 0 <= k < ids1.len() implies index@.contains_key(
                            #[trigger] ids1[k],
                        ) && index@[ids1[k]] == k by {
                            if k < n {
                                assert(ids1[k] == ids[k]);
                            }
                        }
                        assert forall|w: Seq<char>| #[trigger] index@.contains_key(w) implies index@[w]
                            < ids1.len() && ids1[index@[w] as int] == w by {
                            if w != id@ {
                                assert(ids1[index@[w] as int] == ids[index@[w] as int]);
                            }
                        }
                    }
                },
            }
        }
        i += 1;
    }
    groups
}

fn fares_from(tb: &CsvRows) -> (r: StringHashMap<RawFareAttr>)
    ensures
        value_views(r@) == f::fares_in(tb@, tb@.rows.len() as int),
{
    let mut out: StringHashMap<RawFareAttr> = StringHashMap::new();
    let mut i: usize = 0;
    assert(value_views(out@) =~= Map::<Seq<char>, FareView>::empty());
    while i < tb.rows.len()
        invariant
            i <= tb.rows@.len(),
            value_views(out@) == f::fares_in(tb@, i as int),
        decreases tb.rows@.len() - i,
    {
        let id = tb.get(i, "fare_id");
        if id.as_str().unicode_len() > 0 {
            let ghost before = out@;
            let key = t::copy_str(id.as_str());
            let x = RawFareAttr {
                fare_id: id,
                price: tb.get(i, "price"),
                currency_type: tb.get(i, "currency_type"),
            };
            let ghost xv = x@;
            out.insert(key, x);
            proof {
                assert(xv == f::fare_at(tb@, i as int));
                assert(value_views(out@) =~= value_views(before).insert(key@, xv));
            }
        }
        i += 1;
    }
    out
}

fn fare_rules_from(tb: &CsvRows) -> (r: Vec<RawFareRule>)
    ensures
        f::views(r@) == f::fare_uses_in(tb@, tb@.rows.len() as int),
{
    let mut out: Vec<RawFareRule> = Vec::new();
    let mut i: usize = 0;
    assert(f::views(out@) =~= Seq::<FareUseView>::empty());
    while i < tb.rows.len()
        invariant
            i <= tb.rows@.len(),
            f::views(out@) == f::fare_uses_in(tb@, i as int),
        decreases tb.rows@.len() - i,
    {
        let id = tb.get(i, "fare_id");
        if id.as_str().unicode_len() > 0 {
            let x = RawFareRule {
                fare_id: id,
                route_id: tb.get(i, "route_id"),
                origin_id: tb.get(i, "origin_id"),
                destination_id: tb.get(i, "destination_id"),
            };
            proof {
                f::lemma_views_push(out@, x);
                assert(x@ == f::fare_use_at(tb@, i as int));
            }
            out.push(x);
        }
        i += 1;
    }
    out
}

// ---------------------------------------------------------------------------
// Frequencies
// ---------------------------------------------------------------------------

/// Stops are indexed by their ids, the index values lie within the lists they point into, and stop
/// times are complete.
pub open spec fn feed_wf(x: Feed) -> bool {
    &&& x.stop_index == f::index_ids(f::stop_ids(x.stops))
    &&& forall|id: Seq<char>|
        x.stop_index.contains_key(id) ==> #[trigger] x.stop_index[id] < x.stops.len()
    &&& forall|id: Seq<char>|
        x.route_index.contains_key(id) ==> #[trigger] x.route_index[id] < x.routes.len()
    &&& forall|id: Seq<char>|
        x.trip_index.contains_key(id) ==> #[trigger] x.trip_index[id] < x.trips.len()
    &&& forall|id: Seq<char>|
        x.agency_index.contains_key(id) ==> #[trigger] x.agency_index[id] < x.agencies.len()
    &&& forall|id: Seq<char>|
        x.stop_times.contains_key(id) ==> times_ok(#[trigger] x.stop_times[id], x.stops.len() as int)
}

pub open spec fn times_ok(st: StopTimesView, num_stops: int) -> bool {
    &&& st.arrivals.len() == st.stops.len()
    &&& st.departures.len() == st.stops.len()
    &&& forall|i: int| 0 <= i < st.stops.len() ==> #[trigger] st.stops[i] < num_stops
}

fn copy_rules(v: &Vec<FrequencyEntry>) -> (r: Vec<FrequencyEntry>)
    ensures
        f::views(r@) == f::views(v@),
{
    let mut out: Vec<FrequencyEntry> = Vec::new();
    let mut i: usize = 0;
    assert(f::views(out@) =~= f::views(v@).take(0));
    while i < v.len()
        invariant
            i <= v@.len(),
            f::views(out@) == f::views(v@).take(i as int),
        decreases v@.len() - i,
    {
        let e = &v[i];
        let x = FrequencyEntry {
            trip_id: t::copy_str(e.trip_id.as_str()),
            start_time: e.start_time,
            end_time: e.end_time,
            headway_secs: e.headway_secs,
            exact_times: e.exact_times,
        };
        proof {
            f::lemma_views_push(out@, x);
            assert(x@ =~= f::views(v@)[i as int]);
            assert(f::views(v@).take(i as int + 1) =~= f::views(v@).take(i as int).push(
                f::views(v@)[i as int],
            ));
        }
        out.push(x);
        i += 1;
    }
    assert(f::views(v@).take(i as int) =~= f::views(v@));
    out
}

/// A copy of a trip under another id.
fn copy_trip(trip: &Trip, id: String) -> (r: Trip)
    ensures
        r@ == (TripView { id: id@, ..trip@ }),
{
    let r = Trip {
        trip_id: id,
        route_id: t::copy_str(trip.route_id.as_str()),
        service_id: t::copy_str(trip.service_id.as_str()),
        headsign: t::copy_str(trip.headsign.as_str()),
        direction_id: trip.direction_id,
        frequency_rules: copy_rules(&trip.frequency_rules),
        template_first_departure: trip.template_first_departure,
    };
    r
}

fn copy_times(st: &TripStopTimes) -> (r: TripStopTimes)
    ensures
        r@ == st@,
{
    TripStopTimes {
        stop_idxs: lists::copy_list(&st.stop_idxs),
        arrivals: lists::copy_list(&st.arrivals),
        departures: lists::copy_list(&st.departures),
    }
}

/// A time moved from `from` to `to`, within 32 bits.
fn moved(time: u32, from: u32, to: u32) -> (r: u32)
    ensures
        r == f::moved(time, from, to as int),
{
    if time == NOT_SET {
        return NOT_SET;
    }
    let x: i64 = time as i64 - from as i64 + to as i64 + 0x1_0000_0000;
    assert(x as int % 0x1_0000_0000 == (time - from + to) % 0x1_0000_0000);
    (x % 0x1_0000_0000) as u32
}

fn moved_list(v: &Vec<u32>, from: u32, to: u32) -> (r: Vec<u32>)
    ensures
        r@ == Seq::new(v@.len(), |i: int| f::moved(v@[i], from, to as int)),
{
    let mut out: Vec<u32> = Vec::new();
    let mut i: usize = 0;
    while i < v.len()
        invariant
            i <= v@.len(),
            out@ == Seq::new(i as nat, |k: int| f::moved(v@[k], from, to as int)),
        decreases v@.len() - i,
    {
        out.push(moved(v[i], from, to));
        i += 1;
        assert(out@ =~= Seq::new(i as nat, |k: int| f::moved(v@[k], from, to as int)));
    }
    out
}

proof fn lemma_wf_without(x: Feed, id: Seq<char>)
    requires
        feed_wf(x),
    ensures
        feed_wf(Feed { stop_times: x.stop_times.remove(id), ..x }),
{
    let y = Feed { stop_times: x.stop_times.remove(id), ..x };
    assert forall|w: Seq<char>| y.stop_times.contains_key(w) implies times_ok(
        #[trigger] y.stop_times[w],
        y.stops.len() as int,
    ) by {
        assert(x.stop_times.contains_key(w));
        assert(times_ok(x.stop_times[w], x.stops.len() as int));
    }
}

proof fn lemma_repeat_count(x: FrequencyView, n: int)
    requires
        x.start != NOT_SET,
        x.end != NOT_SET,
        x.headway > 0,
        n >= 0,
    ensures
        x.start + n * x.headway < x.end <==> n < f::repeat_count(x),
{
    let h = x.headway as int;
    assert(0 <= n * h) by (nonlinear_arith)
        requires
            n >= 0,
            h > 0,
    ;
    if x.start < x.end {
        let d = x.end - x.start;
        let q = (d - 1) / h;
        assert(n * h < d <==> n <= q) by (nonlinear_arith)
            requires
                h > 0,
                d >= 1,
                n >= 0,
                q == (d - 1) / h,
        ;
    }
}

impl GtfsData {
    /// The index values lie within the lists they point into, and stop times are complete.
    pub open spec fn wf(self) -> bool {
        feed_wf(self@)
    }

    /// Adds a trip that repeats a template at time `to`.
    fn add_repeat(&mut self, template: &Trip, st: &TripStopTimes, n: u128, to: u32)
        requires
            old(self).wf(),
            st@.departures.len() > 0,
            times_ok(st@, old(self)@.stops.len() as int),
        ensures
            final(self)@ == f::add_repeat(old(self)@, template@, st@, n as int, to as int),
            final(self).wf(),
    {
        let ghost before = self@;
        let mut id = t::join(template.trip_id.as_str(), "_freq_");
        t::append_str(&mut id, t::string_of(&t::digits(n, 10, 1)).as_str());
        let first: u32 = st.departures[0];
        let times = TripStopTimes {
            stop_idxs: lists::copy_list(&st.stop_idxs),
            arrivals: moved_list(&st.arrivals, first, to),
            departures: moved_list(&st.departures, first, to),
        };
        let ghost tv = times@;
        let ghost old_times = self.stop_times@;
        let ghost old_trips = self.trips@;
        let idx: u32 = self.trips.len() as u32;
        self.trip_id_map.insert(t::copy_str(id.as_str()), idx);
        self.stop_times.insert(t::copy_str(id.as_str()), times);
        let trip = copy_trip(template, id);
        proof {
            f::lemma_views_push(old_trips, trip);
        }
        self.trips.push(trip);
        proof {
            assert(id@ =~= f::repeat_id(template@.id, n as int));
            assert(tv =~= f::moved_times(st@, to as int));
            assert(value_views(self.stop_times@) =~= value_views(old_times).insert(id@, tv));
            let out = f::add_repeat(before, template@, st@, n as int, to as int);
            assert(self@.stop_times =~= out.stop_times);
            assert(self@.trips =~= out.trips);
            assert(self@.trip_index =~= out.trip_index);
            assert(self@ =~= out);
            assert forall|w: Seq<char>| self@.trip_index.contains_key(w) implies
                #[trigger] self@.trip_index[w] < self@.trips.len() by {
                if w != id@ {
                    assert(before.trip_index.contains_key(w));
                    assert(before.trip_index[w] < before.trips.len());
                }
            }
            assert forall|w: Seq<char>| self@.stop_times.contains_key(w) implies times_ok(
                #[trigger] self@.stop_times[w],
                self@.stops.len() as int,
            ) by {
                if w != id@ {
                    assert(before.stop_times.contains_key(w));
                    assert(times_ok(before.stop_times[w], before.stops.len() as int));
                }
            }
        }
    }

    /// Adds the repetitions of a template under one frequency, numbered from `first` on. Gives the
    /// number for the next one.
    fn add_repeats(
        &mut self,
        template: &Trip,
        st: &TripStopTimes,
        e: &FrequencyEntry,
        first: u128,
    ) -> (next: u128)
        requires
            old(self).wf(),
            first <= u128::MAX - 0x1_0000_0000,
            st@.departures.len() > 0,
            times_ok(st@, old(self)@.stops.len() as int),
        ensures
            final(self)@ == f::repeats(
                old(self)@,
                template@,
                st@,
                e@,
                first as int,
                f::repeat_count(e@),
            ),
            next == first + f::repeat_count(e@),
            f::repeat_count(e@) <= u32::MAX,
            final(self)@.stops == old(self)@.stops,
            final(self).wf(),
    {
        if e.start_time == NOT_SET || e.end_time == NOT_SET || e.headway_secs == 0 {
            return first;
        }
        let mut time: u64 = e.start_time as u64;
        let mut n: u32 = 0;
        assert(0 * e.headway_secs == 0) by (nonlinear_arith);
        while time < e.end_time as u64
            invariant
                self.wf(),
                self@.stops == old(self)@.stops,
                st@.departures.len() > 0,
                times_ok(st@, self@.stops.len() as int),
                e.start_time != NOT_SET,
                e.end_time != NOT_SET,
                e.headway_secs > 0,
                time == e.start_time + n * e.headway_secs,
                n <= time - e.start_time,
                n <= f::repeat_count(e@),
                first <= u128::MAX - 0x1_0000_0000,
                self@ == f::repeats(old(self)@, template@, st@, e@, first as int, n as int),
            decreases
                    (if time < e.end_time {
                        e.end_time - time
                    } else {
                        0
                    }),
        {
            proof {
                lemma_repeat_count(e@, n as int);
                assert((n + 1) * e.headway_secs == n * e.headway_secs + e.headway_secs)
                    by (nonlinear_arith);
            }
            self.add_repeat(template, st, first + n as u128, time as u32);
            time = time + e.headway_secs as u64;
            n += 1;
        }
        proof {
            lemma_repeat_count(e@, n as int);
        }
        first + n as u128
    }

    /// Adds the repetitions of one trip.
    fn expand_group(&mut self, g: &FrequencyGroup) -> (r: bool)
        requires
            old(self).wf(),
        ensures
            final(self)@ == f::expand_group(old(self)@, g@),
            r == f::is_template(old(self)@, g@.trip),
            final(self)@.stops == old(self)@.stops,
            final(self).wf(),
    {
        let ghost before = self@;
        let st = match self.stop_times.get(g.trip_id.as_str()) {
            Some(st) => {
                assert(before.stop_times.contains_key(g@.trip));
                assert(before.stop_times[g@.trip] == st@);
                assert(times_ok(before.stop_times[g@.trip], before.stops.len() as int));
                if st.stop_idxs.len() < 2 || st.departures[0] == NOT_SET {
                    return false;
                }
                copy_times(st)
            },
            None => {
                return false;
            },
        };
        let template = match self.trip_id_map.get(g.trip_id.as_str()) {
            Some(k) => {
                assert(before.trip_index[g@.trip] < before.trips.len());
                assert(before.trips[*k as int] == self.trips@[*k as int]@);
                copy_trip(&self.trips[*k as usize], t::copy_str(g.trip_id.as_str()))
            },
            None => {
                return false;
            },
        };
        let ghost entries = f::views(g.entries@);
        let mut i: usize = 0;
        let mut next: u128 = 0;
        while i < g.entries.len()
            invariant
                i <= g.entries@.len(),
                entries == f::views(g.entries@),
                next == f::runs_before(entries, i as int),
                next <= i * 0xffff_ffff,
                self.wf(),
                self@.stops == before.stops,
                st@.departures.len() > 0,
                times_ok(st@, before.stops.len() as int),
                self@ == f::expand_entries(before, template@, st@, entries, i as int),
            decreases g.entries@.len() - i,
        {
            assert(i * 0xffff_ffff <= u128::MAX - 0x1_0000_0000) by (nonlinear_arith)
                requires
                    i <= 0xffff_ffff_ffff_ffff,
            ;
            next = self.add_repeats(&template, &st, &g.entries[i], next);
            i += 1;
        }
        true
    }

    /// Replaces trips that have frequencies by their repetitions.
    pub fn expand_frequencies(&mut self, groups: &Vec<FrequencyGroup>)
        requires
            old(self).wf(),
        ensures
            final(self)@ == f::expanded(old(self)@, f::views(groups@)),
            final(self).wf(),
    {
        let ghost start = self@;
        let ghost gv = f::views(groups@);
        let mut templates: Vec<bool> = Vec::new();
        let mut i: usize = 0;
        while i < groups.len()
            invariant
                i <= groups@.len(),
                gv == f::views(groups@),
                self.wf(),
                self@ == f::expand_groups(start, gv, i as int),
                templates@.len() == i,
                forall|k: int|
                    0 <= k < i ==> #[trigger] templates@[k] == f::is_template(
                        f::expand_groups(start, gv, k),
                        gv[k].trip,
                    ),
            decreases groups@.len() - i,
        {
            let is_template: bool = self.expand_group(&groups[i]);
            templates.push(is_template);
            i += 1;
        }
        let ghost all = self@;
        let mut k: usize = 0;
        while k < groups.len()
            invariant
                k <= groups@.len(),
                gv == f::views(groups@),
                all == f::expand_groups(start, gv, gv.len() as int),
                templates@.len() == groups@.len(),
                forall|j: int|
                    0 <= j < groups@.len() ==> #[trigger] templates@[j] == f::is_template(
                        f::expand_groups(start, gv, j),
                        gv[j].trip,
                    ),
                self.wf(),
                self@ == (Feed { stop_times: f::drop_templates(start, gv, k as int), ..all }),
            decreases groups@.len() - k,
        {
            if templates[k] {
                let ghost before = self@;
                let ghost old_times = self.stop_times@;
                self.stop_times.remove(groups[k].trip_id.as_str());
                proof {
                    let id = gv[k as int].trip;
                    assert(value_views(self.stop_times@) =~= value_views(old_times).remove(id));
                    assert(self@ =~= (Feed {
                        stop_times: f::drop_templates(start, gv, k as int + 1),
                        ..all
                    }));
                    lemma_wf_without(before, id);
                    assert(self@ =~= (Feed {
                        stop_times: before.stop_times.remove(id),
                        ..before
                    }));
                }
            }
            k += 1;
        }
    }
}

// ---------------------------------------------------------------------------
// The whole feed
// ---------------------------------------------------------------------------

/// The tables of a feed.
pub struct GtfsTables {
    pub agency: CsvRows,
    pub stops: CsvRows,
    pub routes: CsvRows,
    pub trips: CsvRows,
    pub stop_times: CsvRows,
    pub calendar: CsvRows,
    pub calendar_dates: CsvRows,
    pub pathways: CsvRows,
    pub transfers: CsvRows,
    pub frequencies: CsvRows,
    pub fare_attributes: CsvRows,
    pub fare_rules: CsvRows,
}

impl View for GtfsTables {
    type V = Tables;

    open spec fn view(&self) -> Tables {
        Tables {
            agency: self.agency@,
            stops: self.stops@,
            routes: self.routes@,
            trips: self.trips@,
            stop_times: self.stop_times@,
            calendar: self.calendar@,
            calendar_dates: self.calendar_dates@,
            pathways: self.pathways@,
            transfers: self.transfers@,
            frequencies: self.frequencies@,
            fare_attributes: self.fare_attributes@,
            fare_rules: self.fare_rules@,
        }
    }
}

/// Columns that a file of stop times must have.
pub open spec fn stop_times_columns() -> Seq<Seq<char>> {
    seq!["trip_id"@, "stop_id"@]
}

/// The tables in the files of a feed, or the fault of the first file that has one.
pub open spec fn tables_in(files: Map<Seq<char>, Result<Seq<u8>, Seq<char>>>) -> Result<
    Tables,
    Fault,
> {
    let agency = tab::table_in(files, "agency.txt"@, Seq::empty());
    let stops = tab::table_in(files, "stops.txt"@, Seq::empty());
    let routes = tab::table_in(files, "routes.txt"@, Seq::empty());
    let trips = tab::table_in(files, "trips.txt"@, Seq::empty());
    let stop_times = tab::table_in(files, "stop_times.txt"@, stop_times_columns());
    let calendar = tab::table_in(files, "calendar.txt"@, Seq::empty());
    let calendar_dates = tab::table_in(files, "calendar_dates.txt"@, Seq::empty());
    let pathways = tab::table_in(files, "pathways.txt"@, Seq::empty());
    let transfers = tab::table_in(files, "transfers.txt"@, Seq::empty());
    let frequencies = tab::table_in(files, "frequencies.txt"@, Seq::empty());
    let fare_attributes = tab::table_in(files, "fare_attributes.txt"@, Seq::empty());
    let fare_rules = tab::table_in(files, "fare_rules.txt"@, Seq::empty());
    if agency is Err {
        Err(agency->Err_0)
    } else if stops is Err {
        Err(stops->Err_0)
    } else if routes is Err {
        Err(routes->Err_0)
    } else if trips is Err {
        Err(trips->Err_0)
    } else if stop_times is Err {
        Err(stop_times->Err_0)
    } else if calendar is Err {
        Err(calendar->Err_0)
    } else if calendar_dates is Err {
        Err(calendar_dates->Err_0)
    } else if pathways is Err {
        Err(pathways->Err_0)
    } else if transfers is Err {
        Err(transfers->Err_0)
    } else if frequencies is Err {
        Err(frequencies->Err_0)
    } else if fare_attributes is Err {
        Err(fare_attributes->Err_0)
    } else if fare_rules is Err {
        Err(fare_rules->Err_0)
    } else {
        Ok(
            Tables {
                agency: agency->Ok_0,
                stops: stops->Ok_0,
                routes: routes->Ok_0,
                trips: trips->Ok_0,
                stop_times: stop_times->Ok_0,
                calendar: calendar->Ok_0,
                calendar_dates: calendar_dates->Ok_0,
                pathways: pathways->Ok_0,
                transfers: transfers->Ok_0,
                frequencies: frequencies->Ok_0,
                fare_attributes: fare_attributes->Ok_0,
                fare_rules: fare_rules->Ok_0,
            },
        )
    }
}

/// The tables in an archive, or the first fault found.
pub open spec fn archived_tables(archive: Seq<u8>) -> Result<Tables, Fault> {
    match ar::zip_content(archive) {
        Ok(files) => tables_in(files),
        Err(cause) => Err(Fault::Archive { cause }),
    }
}

/// The names of the files of a feed.
pub open spec fn feed_file_names() -> Seq<Seq<char>> {
    seq![
        "agency.txt"@,
        "stops.txt"@,
        "routes.txt"@,
        "trips.txt"@,
        "stop_times.txt"@,
        "calendar.txt"@,
        "calendar_dates.txt"@,
        "pathways.txt"@,
        "transfers.txt"@,
        "frequencies.txt"@,
        "fare_attributes.txt"@,
        "fare_rules.txt"@,
    ]
}

fn file_names() -> (r: Vec<&'static str>)
    ensures
        tab::names_view(r@) == feed_file_names(),
{
    let r = vec![
        "agency.txt",
        "stops.txt",
        "routes.txt",
        "trips.txt",
        "stop_times.txt",
        "calendar.txt",
        "calendar_dates.txt",
        "pathways.txt",
        "transfers.txt",
        "frequencies.txt",
        "fare_attributes.txt",
        "fare_rules.txt",
    ];
    assert(tab::names_view(r@) =~= feed_file_names());
    r
}

/// The tables depend on the files of a feed alone.
proof fn lemma_same_tables(
    a: Map<Seq<char>, Result<Seq<u8>, Seq<char>>>,
    b: Map<Seq<char>, Result<Seq<u8>, Seq<char>>>,
)
    requires
        forall|i: int|
            0 <= i < feed_file_names().len() ==> ar::content_of(a, #[trigger] feed_file_names()[i])
                == ar::content_of(b, feed_file_names()[i]),
    ensures
        tables_in(a) == tables_in(b),
{
    let nv = feed_file_names();
    assert forall|i: int, required: Seq<Seq<char>>|
        0 <= i < nv.len() implies #[trigger] tab::table_in(a, nv[i], required) == tab::table_in(
        b,
        nv[i],
        required,
    ) by {
        assert(ar::content_of(a, nv[i]) == ar::content_of(b, nv[i]));
    }
    assert(nv[0] == "agency.txt"@ && nv[1] == "stops.txt"@);
    assert(nv[2] == "routes.txt"@ && nv[3] == "trips.txt"@);
    assert(nv[4] == "stop_times.txt"@ && nv[5] == "calendar.txt"@);
    assert(nv[6] == "calendar_dates.txt"@ && nv[7] == "pathways.txt"@);
    assert(nv[8] == "transfers.txt"@ && nv[9] == "frequencies.txt"@);
    assert(nv[10] == "fare_attributes.txt"@ && nv[11] == "fare_rules.txt"@);
}

/// Reads one file.
fn read_file(files: &FeedFiles, file: &str) -> (r: Result<CsvRows, LoadError>)
    ensures
        match r {
            Ok(x) => tab::table_in(files@, file@, Seq::empty()) == Ok::<
                Table,
                Fault,
            >(x@),
            Err(e) => tab::table_in(files@, file@, Seq::empty()) == Err::<
                Table,
                Fault,
            >(e@),
        },
{
    let none: Vec<&str> = Vec::new();
    assert(tab::names_view(none@) =~= Seq::<Seq<char>>::empty());
    tab::read_csv(files, file, &none)
}

/// Reads the tables in the files of a feed.
pub fn read_tables(files: &FeedFiles) -> (r: Result<GtfsTables, LoadError>)
    ensures
        match r {
            Ok(x) => tables_in(files@) == Ok::<Tables, Fault>(x@),
            Err(e) => tables_in(files@) == Err::<Tables, Fault>(e@),
        },
{
    let agency = match read_file(files, "agency.txt") {
        Ok(x) => x,
        Err(e) => {
            return Err(e);
        },
    };
    let stops = match read_file(files, "stops.txt") {
        Ok(x) => x,
        Err(e) => {
            return Err(e);
        },
    };
    let routes = match read_file(files, "routes.txt") {
        Ok(x) => x,
        Err(e) => {
            return Err(e);
        },
    };
    let trips = match read_file(files, "trips.txt") {
        Ok(x) => x,
        Err(e) => {
            return Err(e);
        },
    };
    let mut columns: Vec<&str> = Vec::new();
    columns.push("trip_id");
    columns.push("stop_id");
    assert(tab::names_view(columns@) =~= stop_times_columns());
    let stop_times = match tab::read_csv(files, "stop_times.txt", &columns) {
        Ok(x) => x,
        Err(e) => {
            return Err(e);
        },
    };
    let calendar = match read_file(files, "calendar.txt") {
        Ok(x) => x,
        Err(e) => {
            return Err(e);
        },
    };
    let calendar_dates = match read_file(files, "calendar_dates.txt") {
        Ok(x) => x,
        Err(e) => {
            return Err(e);
        },
    };
    let pathways = match read_file(files, "pathways.txt") {
        Ok(x) => x,
        Err(e) => {
            return Err(e);
        },
    };
    let transfers = match read_file(files, "transfers.txt") {
        Ok(x) => x,
        Err(e) => {
            return Err(e);
        },
    };
    let frequencies = match read_file(files, "frequencies.txt") {
        Ok(x) => x,
        Err(e) => {
            return Err(e);
        },
    };
    let fare_attributes = match read_file(files, "fare_attributes.txt") {
        Ok(x) => x,
        Err(e) => {
            return Err(e);
        },
    };
    let fare_rules = match read_file(files, "fare_rules.txt") {
        Ok(x) => x,
        Err(e) => {
            return Err(e);
        },
    };
    Ok(
        GtfsTables {
            agency,
            stops,
            routes,
            trips,
            stop_times,
            calendar,
            calendar_dates,
            pathways,
            transfers,
            frequencies,
            fare_attributes,
            fare_rules,
        },
    )
}

spec fn calls_within(s: Seq<(u32, u32, u32, u32)>, num_stops: int) -> bool {
    forall|i: int| 0 <= i < s.len() ==> (#[trigger] s[i]).1 < num_stops
}

proof fn lemma_calls_within(
    tb: Table,
    trip_index: Map<Seq<char>, u32>,
    stop_index: Map<Seq<char>, u32>,
    trip: int,
    n: int,
    num_stops: int,
)
    requires
        forall|id: Seq<char>| stop_index.contains_key(id) ==> #[trigger] stop_index[id] < num_stops,
    ensures
        calls_within(f::calls_of(tb, trip_index, stop_index, trip, n), num_stops),
    decreases n,
{
    if n > 0 {
        lemma_calls_within(tb, trip_index, stop_index, trip, n - 1, num_stops);
        if f::calls(tb, trip_index, stop_index, trip, n - 1) {
            assert(stop_index[tb.field(n - 1, "stop_id"@)] < num_stops);
        }
    }
}

proof fn lemma_insert_within(s: Seq<(u32, u32, u32, u32)>, x: (u32, u32, u32, u32), num_stops: int)
    requires
        calls_within(s, num_stops),
        x.1 < num_stops,
    ensures
        calls_within(f::insert_call(s, x), num_stops),
    decreases s.len(),
{
    if s.len() > 0 && s.last().0 > x.0 {
        assert(s[s.len() - 1].1 < num_stops);
        lemma_insert_within(s.drop_last(), x, num_stops);
    }
}

proof fn lemma_sort_within(s: Seq<(u32, u32, u32, u32)>, n: int, num_stops: int)
    requires
        calls_within(s, num_stops),
        n <= s.len(),
    ensures
        calls_within(f::sort_calls(s, n), num_stops),
    decreases n,
{
    if n > 0 {
        lemma_sort_within(s, n - 1, num_stops);
        assert(s[n - 1].1 < num_stops);
        lemma_insert_within(f::sort_calls(s, n - 1), s[n - 1], num_stops);
    }
}

proof fn lemma_stop_times_ok(
    tb: Table,
    trips: Seq<TripView>,
    trip_index: Map<Seq<char>, u32>,
    stop_index: Map<Seq<char>, u32>,
    n: int,
    num_stops: int,
)
    requires
        forall|id: Seq<char>| stop_index.contains_key(id) ==> #[trigger] stop_index[id] < num_stops,
    ensures
        forall|id: Seq<char>|
            f::stop_times_in(tb, trips, trip_index, stop_index, n).contains_key(id) ==> times_ok(
                #[trigger] f::stop_times_in(tb, trips, trip_index, stop_index, n)[id],
                num_stops,
            ),
    decreases n,
{
    if n > 0 {
        lemma_stop_times_ok(tb, trips, trip_index, stop_index, n - 1, num_stops);
        let raw = f::calls_of(tb, trip_index, stop_index, n - 1, tb.rows.len() as int);
        lemma_calls_within(tb, trip_index, stop_index, n - 1, tb.rows.len() as int, num_stops);
        lemma_sort_within(raw, raw.len() as int, num_stops);
        let sorted = f::sort_calls(raw, raw.len() as int);
        assert forall|i: int| 0 <= i < sorted.len() implies #[trigger] f::times_of(sorted).stops[i]
            < num_stops by {
            assert(sorted[i].1 < num_stops);
        }
        assert(times_ok(f::times_of(sorted), num_stops));
        let front = f::stop_times_in(tb, trips, trip_index, stop_index, n - 1);
        let all = f::stop_times_in(tb, trips, trip_index, stop_index, n);
        assert forall|id: Seq<char>| all.contains_key(id) implies times_ok(
            #[trigger] all[id],
            num_stops,
        ) by {
            if raw.len() > 0 && id == trips[n - 1].id {
            } else {
                assert(front.contains_key(id));
                assert(all[id] == front[id]);
            }
        }
    }
}

proof fn lemma_plain_wf(tb: Tables)
    ensures
        feed_wf(f::plain_feed(tb)),
{
    let x = f::plain_feed(tb);
    f::lemma_index_ids(f::agency_ids(x.agencies));
    f::lemma_index_ids(f::stop_ids(x.stops));
    f::lemma_index_ids(f::route_ids(x.routes));
    f::lemma_index_ids(f::trip_ids(x.trips));
    lemma_stop_times_ok(
        tb.stop_times,
        x.trips,
        x.trip_index,
        x.stop_index,
        x.trips.len() as int,
        x.stops.len() as int,
    );
    assert forall|id: Seq<char>| x.agency_index.contains_key(id) implies
        #[trigger] x.agency_index[id] < x.agencies.len() by {
        let index = f::index_ids(f::agency_ids(x.agencies));
        if index.contains_key(id) {
            assert(index[id] < x.agencies.len());
        }
    }
}

impl GtfsData {
    /// The feed that some tables hold, before frequencies are expanded.
    fn plain_from(tables: &GtfsTables) -> (r: GtfsData)
        ensures
            r@ == f::plain_feed(tables@),
            r.wf(),
    {
        let (agencies, agency_id_map) = agencies_from(&tables.agency);
        let (timezone, feed_id): (String, String) = if agencies.len() > 0 {
            let id = agencies[0].agency_id.as_str();
            assert(f::views(agencies@)[0] == agencies@[0]@);
            (
                t::copy_str(agencies[0].agency_timezone.as_str()),
                if id.unicode_len() > 0 {
                    t::copy_str(id)
                } else {
                    t::copy_str("unknown")
                },
            )
        } else {
            (t::copy_str("UTC"), t::copy_str("unknown"))
        };
        let (stops, stop_id_map) = stops_from(&tables.stops);
        let (routes, route_id_map) = routes_from(&tables.routes);
        let (trips, trip_id_map) = trips_from(&tables.trips, &route_id_map);
        let stop_times = stop_times_from(&tables.stop_times, &trips, &trip_id_map, &stop_id_map);
        let (mut services, mut service_index) = services_from(&tables.calendar);
        add_exceptions(&tables.calendar_dates, &mut services, &mut service_index);
        let r = GtfsData {
            timezone,
            feed_id,
            agencies,
            agency_id_map,
            stops,
            stop_id_map,
            routes,
            route_id_map,
            trips,
            trip_id_map,
            stop_times,
            services,
            pathways: pathways_from(&tables.pathways),
            raw_transfers: transfers_from(&tables.transfers),
            fare_attrs: fares_from(&tables.fare_attributes),
            fare_rules: fare_rules_from(&tables.fare_rules),
        };
        proof {
            lemma_plain_wf(tables@);
            assert(r@.trips.len() == trips@.len());
            assert(r@ =~= f::plain_feed(tables@));
        }
        r
    }

    /// The feed that some tables hold.
    pub fn from_tables(tables: &GtfsTables) -> (r: GtfsData)
        ensures
            r@ == f::feed_in(tables@),
            r.wf(),
    {
        let mut r = GtfsData::plain_from(tables);
        let groups = frequencies_from(&tables.frequencies, &r.trip_id_map);
        r.expand_frequencies(&groups);
        r
    }

    /// Reads a feed from its files.
    pub fn load_files(files: &FeedFiles) -> (r: Result<GtfsData, LoadError>)
        ensures
            match r {
                Ok(x) => tables_in(files@) is Ok && x@ == f::feed_in(tables_in(files@)->Ok_0)
                    && x.wf(),
                Err(e) => tables_in(files@) == Err::<Tables, Fault>(e@),
            },
    {
        match read_tables(files) {
            Ok(tables) => Ok(GtfsData::from_tables(&tables)),
            Err(e) => Err(e),
        }
    }

    /// Reads a feed from an archive.
    pub fn load(archive: &Vec<u8>) -> (r: Result<GtfsData, LoadError>)
        ensures
            match r {
                Ok(x) => archived_tables(archive@) is Ok && x@ == f::feed_in(
                    archived_tables(archive@)->Ok_0,
                ) && x.wf(),
                Err(e) => archived_tables(archive@) == Err::<Tables, Fault>(e@),
            },
    {
        let names = file_names();
        match ar::read_archive(archive, &names) {
            Ok(files) => {
                proof {
                    let held = ar::zip_content(archive@)->Ok_0;
                    let nv = tab::names_view(names@);
                    assert forall|i: int| 0 <= i < nv.len() implies ar::content_of(
                        files@,
                        #[trigger] nv[i],
                    ) == ar::content_of(held, nv[i]) by {
                        assert(nv[i] == names@[i]@);
                    }
                    lemma_same_tables(files@, held);
                }
                GtfsData::load_files(&files)
            },
            Err(cause) => Err(LoadError::Archive { cause }),
        }
    }

    /// Gives a time to every pathway that has none. `by_length` holds the time that follows from
    /// the length of each; where that is zero too, two minutes are taken.
    pub fn settle_pathways(&mut self, by_length: &Vec<u32>)
        requires
            by_length@.len() == old(self).pathways@.len(),
        ensures
            final(self)@ == (Feed {
                pathways: Seq::new(
                    by_length@.len(),
                    |i: int| settled_pathway(old(self)@.pathways[i], by_length@[i]),
                ),
                ..old(self)@
            }),
    {
        let ghost before = self@;
        let mut i: usize = 0;
        while i < by_length.len()
            invariant
                i <= by_length@.len(),
                by_length@.len() == self.pathways@.len(),
                self@ == (Feed {
                    pathways: Seq::new(
                        by_length@.len(),
                        |k: int|
                            if k < i {
                                settled_pathway(before.pathways[k], by_length@[k])
                            } else {
                                before.pathways[k]
                            },
                    ),
                    ..before
                }),
                before.pathways.len() == by_length@.len(),
            decreases by_length@.len() - i,
        {
            let ghost now = self@;
            let ghost list = self.pathways@;
            assert(now.pathways[i as int] == list[i as int]@);
            if self.pathways[i].traversal_time == 0 {
                let secs: u32 = if by_length[i] > 0 {
                    by_length[i]
                } else {
                    DEFAULT_PATHWAY_SECS
                };
                self.pathways[i].traversal_time = secs;
            }
            proof {
                assert(f::views(self.pathways@) =~= now.pathways.update(
                    i as int,
                    settled_pathway(before.pathways[i as int], by_length@[i as int]),
                ));
                assert(self@.pathways =~= Seq::new(
                    by_length@.len(),
                    |k: int|
                        if k < i + 1 {
                            settled_pathway(before.pathways[k], by_length@[k])
                        } else {
                            before.pathways[k]
                        },
                ));
                assert(self@ =~= (Feed { pathways: self@.pathways, ..before }));
            }
            i += 1;
        }
        assert(self@.pathways =~= Seq::new(
            by_length@.len(),
            |k: int| settled_pathway(before.pathways[k], by_length@[k]),
        ));
    }
}

/// Time for a pathway of which neither time nor length is known.
pub const DEFAULT_PATHWAY_SECS: u32 = 120;

/// A pathway with its time.
pub open spec fn settled_pathway(p: PathwayView, by_length: u32) -> PathwayView {
    if p.secs > 0 {
        p
    } else if by_length > 0 {
        PathwayView { secs: by_length, ..p }
    } else {
        PathwayView { secs: DEFAULT_PATHWAY_SECS, ..p }
    }
}

} // verus!
