//! What a timetable feed says: the mathematical content of its tables.

use crate::calendar as cal;
use crate::data::NOT_SET;
use crate::table as tab;
use crate::table::Table;
use crate::text as t;
use vstd::prelude::*;

verus! {

// ---------------------------------------------------------------------------
// Fields
// ---------------------------------------------------------------------------

/// Seconds since midnight of a time "H:MM:SS"; `NOT_SET` for anything else.
pub open spec fn time_in(s: Seq<char>) -> u32 {
    let parts = t::split_at(t::trimmed(s), ':');
    if parts.len() != 3 {
        NOT_SET
    } else {
        match (
            t::decimal(parts[0], NOT_SET - 1),
            t::decimal(parts[1], NOT_SET - 1),
            t::decimal(parts[2], NOT_SET - 1),
        ) {
            (Some(h), Some(m), Some(sec)) => if h * 3600 + m * 60 + sec < NOT_SET {
                (h * 3600 + m * 60 + sec) as u32
            } else {
                NOT_SET
            },
            _ => NOT_SET,
        }
    }
}

/// Days since 1970-01-01 of a date that begins "YYYYMMDD".
pub open spec fn date_in(s: Seq<char>) -> Option<u32> {
    if s.len() < 8 {
        None
    } else {
        match (
            t::signed_decimal(s.subrange(0, 4)),
            t::decimal(s.subrange(4, 6), u32::MAX as int),
            t::decimal(s.subrange(6, 8), u32::MAX as int),
        ) {
            (Some(y), Some(m), Some(d)) => Some(
                (cal::era_day_number(y, m, d) % 0x1_0000_0000) as u32,
            ),
            _ => None,
        }
    }
}

pub open spec fn without_leading(s: Seq<char>, c: char) -> Seq<char>
    decreases s.len(),
{
    if s.len() > 0 && s[0] == c {
        without_leading(s.skip(1), c)
    } else {
        s
    }
}

/// A color in hexadecimal digits that may follow a `#`; zero for anything else.
pub open spec fn color_in(s: Seq<char>) -> u32 {
    match t::number_in(without_leading(t::trimmed(s), '#'), 16, u32::MAX as int) {
        Some(v) => v as u32,
        None => 0,
    }
}

/// The number in a field, or a default.
pub open spec fn number_or(s: Seq<char>, max: int, default: int) -> int {
    match t::decimal(s, max) {
        Some(v) => v,
        None => default,
    }
}

/// Where each id stands; the last of several equal ones counts.
pub open spec fn index_ids(ids: Seq<Seq<char>>) -> Map<Seq<char>, u32>
    decreases ids.len(),
{
    if ids.len() == 0 {
        Map::empty()
    } else {
        index_ids(ids.drop_last()).insert(ids.last(), (ids.len() - 1) as u32)
    }
}

pub proof fn lemma_index_ids(ids: Seq<Seq<char>>)
    ensures
        forall|id: Seq<char>|
            index_ids(ids).contains_key(id) ==> #[trigger] index_ids(ids)[id] < ids.len(),
        forall|id: Seq<char>|
            #![trigger index_ids(ids).contains_key(id)]
            #![trigger ids.contains(id)]
            index_ids(ids).contains_key(id) <==> ids.contains(id),
        ids.len() <= u32::MAX ==> forall|id: Seq<char>|
            index_ids(ids).contains_key(id) ==> ids[#[trigger] index_ids(ids)[id] as int] == id,
    decreases ids.len(),
{
    if ids.len() > 0 {
        let front = ids.drop_last();
        lemma_index_ids(front);
        assert forall|id: Seq<char>|
            index_ids(ids).contains_key(id) implies #[trigger] index_ids(ids)[id]
            < ids.len() by {
            if id != ids.last() {
                assert(index_ids(front).contains_key(id));
                assert(index_ids(ids)[id] == index_ids(front)[id]);
            }
        }
        assert forall|id: Seq<char>| index_ids(ids).contains_key(id) <==> ids.contains(id) by {
            assert(ids[ids.len() - 1] == ids.last());
            if id != ids.last() {
                if ids.contains(id) {
                    let k = choose|k: int| 0 <= k < ids.len() && ids[k] == id;
                    assert(front[k] == id);
                }
                if front.contains(id) {
                    let k = choose|k: int| 0 <= k < front.len() && front[k] == id;
                    assert(ids[k] == id);
                }
            }
        }
        if ids.len() <= u32::MAX {
            assert forall|id: Seq<char>|
                index_ids(ids).contains_key(id) implies ids[#[trigger] index_ids(ids)[id] as int]
                == id by {
                if id != ids.last() {
                    assert(index_ids(front).contains_key(id));
                    assert(index_ids(ids)[id] == index_ids(front)[id]);
                    assert(front[index_ids(front)[id] as int] == id);
                }
            }
        }
    }
}

/// The elements of a list as mathematical values.
pub open spec fn views<T: View>(s: Seq<T>) -> Seq<T::V> {
    Seq::new(s.len(), |i: int| s[i]@)
}

pub proof fn lemma_views_push<T: View>(s: Seq<T>, x: T)
    ensures
        views(s.push(x)) == views(s).push(x@),
{
    assert(views(s.push(x)) =~= views(s).push(x@));
}

// ---------------------------------------------------------------------------
// Records
// ---------------------------------------------------------------------------

#[verifier::ext_equal]
pub struct AgencyView {
    pub id: Seq<char>,
    pub name: Seq<char>,
    pub url: Seq<char>,
    pub timezone: Seq<char>,
}

/// A stop. The coordinates are text.
#[verifier::ext_equal]
pub struct StopView {
    pub id: Seq<char>,
    pub name: Seq<char>,
    pub lat: Seq<char>,
    pub lon: Seq<char>,
    pub location_type: u8,
    pub parent: Seq<char>,
    pub platform: Seq<char>,
    pub zone: Seq<char>,
}

#[verifier::ext_equal]
pub struct RouteView {
    pub id: Seq<char>,
    pub agency: Seq<char>,
    pub short_name: Seq<char>,
    pub long_name: Seq<char>,
    pub route_type: u8,
    pub color: u32,
    pub text_color: u32,
}

#[verifier::ext_equal]
pub struct FrequencyView {
    pub trip: Seq<char>,
    pub start: u32,
    pub end: u32,
    pub headway: u32,
    pub exact: bool,
}

#[verifier::ext_equal]
pub struct TripView {
    pub id: Seq<char>,
    pub route: Seq<char>,
    pub service: Seq<char>,
    pub headsign: Seq<char>,
    pub direction: u8,
    pub rules: Seq<FrequencyView>,
    pub first_departure: u32,
}

/// Stop times of a trip, in order of the stop sequence.
#[verifier::ext_equal]
pub struct StopTimesView {
    pub stops: Seq<u32>,
    pub arrivals: Seq<u32>,
    pub departures: Seq<u32>,
}

/// A calendar: weekdays from `start` to `end`, with single days added and removed.
#[verifier::ext_equal]
pub struct ServiceView {
    pub id: Seq<char>,
    pub start: u32,
    pub end: u32,
    pub days: Seq<bool>,
    pub additions: Seq<u32>,
    pub removals: Seq<u32>,
}

/// A way inside a station. The length is text.
#[verifier::ext_equal]
pub struct PathwayView {
    pub from: Seq<char>,
    pub to: Seq<char>,
    pub secs: u32,
    pub length: Seq<char>,
    pub both_ways: bool,
}

#[verifier::ext_equal]
pub struct LinkView {
    pub from: Seq<char>,
    pub to: Seq<char>,
    pub kind: u8,
    pub min_time: u32,
}

/// A fare. The price is text.
#[verifier::ext_equal]
pub struct FareView {
    pub id: Seq<char>,
    pub price: Seq<char>,
    pub currency: Seq<char>,
}

#[verifier::ext_equal]
pub struct FareUseView {
    pub fare: Seq<char>,
    pub route: Seq<char>,
    pub origin: Seq<char>,
    pub destination: Seq<char>,
}

/// Everything a feed says.
#[verifier::ext_equal]
pub struct Feed {
    pub timezone: Seq<char>,
    pub feed_id: Seq<char>,
    pub agencies: Seq<AgencyView>,
    pub agency_index: Map<Seq<char>, u32>,
    pub stops: Seq<StopView>,
    pub stop_index: Map<Seq<char>, u32>,
    pub routes: Seq<RouteView>,
    pub route_index: Map<Seq<char>, u32>,
    pub trips: Seq<TripView>,
    pub trip_index: Map<Seq<char>, u32>,
    pub stop_times: Map<Seq<char>, StopTimesView>,
    pub services: Seq<ServiceView>,
    pub pathways: Seq<PathwayView>,
    pub links: Seq<LinkView>,
    pub fares: Map<Seq<char>, FareView>,
    pub fare_uses: Seq<FareUseView>,
}

// ---------------------------------------------------------------------------
// Tables
// ---------------------------------------------------------------------------

pub open spec fn agency_at(tb: Table, i: int) -> AgencyView {
    AgencyView {
        id: tb.field(i, "agency_id"@),
        name: tb.field(i, "agency_name"@),
        url: tb.field(i, "agency_url"@),
        timezone: tb.field(i, "agency_timezone"@),
    }
}

pub open spec fn agencies_in(tb: Table) -> Seq<AgencyView> {
    Seq::new(tb.rows.len(), |i: int| agency_at(tb, i))
}

pub open spec fn agency_ids(s: Seq<AgencyView>) -> Seq<Seq<char>> {
    Seq::new(s.len(), |i: int| s[i].id)
}

/// Where each agency stands. The only agency of a feed is also found without an id.
pub open spec fn agency_index_of(s: Seq<AgencyView>) -> Map<Seq<char>, u32> {
    let index = index_ids(agency_ids(s));
    if s.len() == 1 && !index.contains_key(Seq::empty()) {
        index.insert(Seq::empty(), 0)
    } else {
        index
    }
}

pub open spec fn timezone_of(s: Seq<AgencyView>) -> Seq<char> {
    if s.len() > 0 {
        s[0].timezone
    } else {
        "UTC"@
    }
}

pub open spec fn feed_id_of(s: Seq<AgencyView>) -> Seq<char> {
    if s.len() > 0 && s[0].id.len() > 0 {
        s[0].id
    } else {
        "unknown"@
    }
}

pub open spec fn stop_at(tb: Table, i: int) -> StopView {
    StopView {
        id: tb.field(i, "stop_id"@),
        name: tb.field(i, "stop_name"@),
        lat: tb.field(i, "stop_lat"@),
        lon: tb.field(i, "stop_lon"@),
        location_type: number_or(tb.field(i, "location_type"@), 255, 0) as u8,
        parent: tb.field(i, "parent_station"@),
        platform: tb.field(i, "platform_code"@),
        zone: tb.field(i, "zone_id"@),
    }
}

/// The stops of the first `n` rows; a row without an id is none.
pub open spec fn stops_in(tb: Table, n: int) -> Seq<StopView>
    decreases n,
{
    if n <= 0 {
        Seq::empty()
    } else if stop_at(tb, n - 1).id.len() == 0 {
        stops_in(tb, n - 1)
    } else {
        stops_in(tb, n - 1).push(stop_at(tb, n - 1))
    }
}

pub open spec fn stop_ids(s: Seq<StopView>) -> Seq<Seq<char>> {
    Seq::new(s.len(), |i: int| s[i].id)
}

pub open spec fn route_at(tb: Table, i: int) -> RouteView {
    RouteView {
        id: tb.field(i, "route_id"@),
        agency: tb.field(i, "agency_id"@),
        short_name: tb.field(i, "route_short_name"@),
        long_name: tb.field(i, "route_long_name"@),
        route_type: number_or(tb.field(i, "route_type"@), 255, 3) as u8,
        color: color_in(tb.field(i, "route_color"@)),
        text_color: color_in(tb.field(i, "route_text_color"@)),
    }
}

/// The routes of the first `n` rows; a row without an id is none.
pub open spec fn routes_in(tb: Table, n: int) -> Seq<RouteView>
    decreases n,
{
    if n <= 0 {
        Seq::empty()
    } else if route_at(tb, n - 1).id.len() == 0 {
        routes_in(tb, n - 1)
    } else {
        routes_in(tb, n - 1).push(route_at(tb, n - 1))
    }
}

pub open spec fn route_ids(s: Seq<RouteView>) -> Seq<Seq<char>> {
    Seq::new(s.len(), |i: int| s[i].id)
}

pub open spec fn trip_at(tb: Table, i: int) -> TripView {
    TripView {
        id: tb.field(i, "trip_id"@),
        route: tb.field(i, "route_id"@),
        service: tb.field(i, "service_id"@),
        headsign: tb.field(i, "trip_headsign"@),
        direction: number_or(tb.field(i, "direction_id"@), 255, 0) as u8,
        rules: Seq::empty(),
        first_departure: 0,
    }
}

/// The trips of the first `n` rows; a row without an id or on an unknown route is none.
pub open spec fn trips_in(tb: Table, route_index: Map<Seq<char>, u32>, n: int) -> Seq<TripView>
    decreases n,
{
    if n <= 0 {
        Seq::empty()
    } else {
        let trip = trip_at(tb, n - 1);
        if trip.id.len() == 0 || !route_index.contains_key(trip.route) {
            trips_in(tb, route_index, n - 1)
        } else {
            trips_in(tb, route_index, n - 1).push(trip)
        }
    }
}

pub open spec fn trip_ids(s: Seq<TripView>) -> Seq<Seq<char>> {
    Seq::new(s.len(), |i: int| s[i].id)
}

/// Sequence number, stop, arrival and departure of a row of stop times.
pub open spec fn call_at(tb: Table, stop_index: Map<Seq<char>, u32>, i: int) -> (u32, u32, u32, u32) {
    (
        number_or(tb.field(i, "stop_sequence"@), u32::MAX as int, 0) as u32,
        stop_index[tb.field(i, "stop_id"@)],
        time_in(tb.field(i, "arrival_time"@)),
        time_in(tb.field(i, "departure_time"@)),
    )
}

/// Row `i` of the stop times is about trip `trip`, at a known stop.
pub open spec fn calls(
    tb: Table,
    trip_index: Map<Seq<char>, u32>,
    stop_index: Map<Seq<char>, u32>,
    trip: int,
    i: int,
) -> bool {
    &&& trip_index.contains_key(tb.field(i, "trip_id"@))
    &&& trip_index[tb.field(i, "trip_id"@)] == trip
    &&& stop_index.contains_key(tb.field(i, "stop_id"@))
}

/// The first `n` rows about trip `trip`, in order.
pub open spec fn calls_of(
    tb: Table,
    trip_index: Map<Seq<char>, u32>,
    stop_index: Map<Seq<char>, u32>,
    trip: int,
    n: int,
) -> Seq<(u32, u32, u32, u32)>
    decreases n,
{
    if n <= 0 {
        Seq::empty()
    } else {
        let front = calls_of(tb, trip_index, stop_index, trip, n - 1);
        if calls(tb, trip_index, stop_index, trip, n - 1) {
            front.push(call_at(tb, stop_index, n - 1))
        } else {
            front
        }
    }
}

/// Placed after every call with no greater sequence number.
pub open spec fn insert_call(
    s: Seq<(u32, u32, u32, u32)>,
    x: (u32, u32, u32, u32),
) -> Seq<(u32, u32, u32, u32)>
    decreases s.len(),
{
    if s.len() == 0 || s.last().0 <= x.0 {
        s.push(x)
    } else {
        insert_call(s.drop_last(), x).push(s.last())
    }
}

/// The first `n` calls in order of sequence number; equal ones stay in order.
pub open spec fn sort_calls(s: Seq<(u32, u32, u32, u32)>, n: int) -> Seq<(u32, u32, u32, u32)>
    decreases n,
{
    if n <= 0 {
        Seq::empty()
    } else {
        insert_call(sort_calls(s, n - 1), s[n - 1])
    }
}

pub open spec fn times_of(s: Seq<(u32, u32, u32, u32)>) -> StopTimesView {
    StopTimesView {
        stops: Seq::new(s.len(), |i: int| s[i].1),
        arrivals: Seq::new(s.len(), |i: int| s[i].2),
        departures: Seq::new(s.len(), |i: int| s[i].3),
    }
}

/// Stop times by trip id, of the first `n` trips; a trip without any has no entry.
pub open spec fn stop_times_in(
    tb: Table,
    trips: Seq<TripView>,
    trip_index: Map<Seq<char>, u32>,
    stop_index: Map<Seq<char>, u32>,
    n: int,
) -> Map<Seq<char>, StopTimesView>
    decreases n,
{
    if n <= 0 {
        Map::empty()
    } else {
        let front = stop_times_in(tb, trips, trip_index, stop_index, n - 1);
        let raw = calls_of(tb, trip_index, stop_index, n - 1, tb.rows.len() as int);
        if raw.len() == 0 {
            front
        } else {
            front.insert(trips[n - 1].id, times_of(sort_calls(raw, raw.len() as int)))
        }
    }
}

pub open spec fn service_ids(s: Seq<ServiceView>) -> Seq<Seq<char>> {
    Seq::new(s.len(), |i: int| s[i].id)
}

/// Adds a service, in place of the one with the same id if there is one.
pub open spec fn put_service(s: Seq<ServiceView>, x: ServiceView) -> Seq<ServiceView> {
    match tab::position(service_ids(s), x.id, 0) {
        Some(k) => s.update(k, x),
        None => s.push(x),
    }
}

pub open spec fn date_or_zero(s: Seq<char>) -> u32 {
    match date_in(s) {
        Some(d) => d,
        None => 0,
    }
}

pub open spec fn weekday_name(i: int) -> Seq<char> {
    if i == 0 {
        "monday"@
    } else if i == 1 {
        "tuesday"@
    } else if i == 2 {
        "wednesday"@
    } else if i == 3 {
        "thursday"@
    } else if i == 4 {
        "friday"@
    } else if i == 5 {
        "saturday"@
    } else {
        "sunday"@
    }
}

pub open spec fn service_at(tb: Table, i: int) -> ServiceView {
    ServiceView {
        id: tb.field(i, "service_id"@),
        start: date_or_zero(tb.field(i, "start_date"@)),
        end: date_or_zero(tb.field(i, "end_date"@)),
        days: Seq::new(7, |k: int| tb.field(i, weekday_name(k)) == "1"@),
        additions: Seq::empty(),
        removals: Seq::empty(),
    }
}

/// The services of the first `n` rows of the calendar; a row without an id is none.
pub open spec fn services_in(tb: Table, n: int) -> Seq<ServiceView>
    decreases n,
{
    if n <= 0 {
        Seq::empty()
    } else if service_at(tb, n - 1).id.len() == 0 {
        services_in(tb, n - 1)
    } else {
        put_service(services_in(tb, n - 1), service_at(tb, n - 1))
    }
}

/// A service that runs on no day.
pub open spec fn idle_service(id: Seq<char>, day: u32) -> ServiceView {
    ServiceView {
        id,
        start: day,
        end: day,
        days: Seq::new(7, |k: int| false),
        additions: Seq::empty(),
        removals: Seq::empty(),
    }
}

/// An exception to a service: a day added, which the service is extended to, or removed.
pub open spec fn with_exception(s: ServiceView, day: u32, kind: int) -> ServiceView {
    if kind == 1 {
        ServiceView {
            start: if day < s.start {
                day
            } else {
                s.start
            },
            end: if day > s.end {
                day
            } else {
                s.end
            },
            additions: s.additions.push(day),
            ..s
        }
    } else if kind == 2 {
        ServiceView { removals: s.removals.push(day), ..s }
    } else {
        s
    }
}

/// Adds an exception to the service of that id, which is made if there is none.
pub open spec fn put_exception(
    s: Seq<ServiceView>,
    id: Seq<char>,
    day: u32,
    kind: int,
) -> Seq<ServiceView> {
    match tab::position(service_ids(s), id, 0) {
        Some(k) => s.update(k, with_exception(s[k], day, kind)),
        None => s.push(with_exception(idle_service(id, day), day, kind)),
    }
}

/// The services after the first `n` rows of the calendar dates; a row without an id or a date is
/// passed over.
pub open spec fn exceptions_in(tb: Table, s: Seq<ServiceView>, n: int) -> Seq<ServiceView>
    decreases n,
{
    if n <= 0 {
        s
    } else {
        let before = exceptions_in(tb, s, n - 1);
        let id = tb.field(n - 1, "service_id"@);
        match date_in(tb.field(n - 1, "date"@)) {
            Some(day) if id.len() > 0 => put_exception(
                before,
                id,
                day,
                number_or(tb.field(n - 1, "exception_type"@), 255, 0),
            ),
            _ => before,
        }
    }
}

pub open spec fn pathway_at(tb: Table, i: int) -> PathwayView {
    PathwayView {
        from: tb.field(i, "from_stop_id"@),
        to: tb.field(i, "to_stop_id"@),
        secs: number_or(tb.field(i, "traversal_time"@), u32::MAX as int, 0) as u32,
        length: tb.field(i, "length"@),
        both_ways: tb.field(i, "is_bidirectional"@) == "1"@,
    }
}

/// The pathways of the first `n` rows; a row that lacks an end is none.
pub open spec fn pathways_in(tb: Table, n: int) -> Seq<PathwayView>
    decreases n,
{
    if n <= 0 {
        Seq::empty()
    } else {
        let p = pathway_at(tb, n - 1);
        if p.from.len() == 0 || p.to.len() == 0 {
            pathways_in(tb, n - 1)
        } else {
            pathways_in(tb, n - 1).push(p)
        }
    }
}

pub open spec fn link_at(tb: Table, i: int) -> LinkView {
    LinkView {
        from: tb.field(i, "from_stop_id"@),
        to: tb.field(i, "to_stop_id"@),
        kind: number_or(tb.field(i, "transfer_type"@), 255, 0) as u8,
        min_time: number_or(tb.field(i, "min_transfer_time"@), u32::MAX as int, 0) as u32,
    }
}

/// The transfers of the first `n` rows; a row that lacks an end is none.
pub open spec fn links_in(tb: Table, n: int) -> Seq<LinkView>
    decreases n,
{
    if n <= 0 {
        Seq::empty()
    } else {
        let l = link_at(tb, n - 1);
        if l.from.len() == 0 || l.to.len() == 0 {
            links_in(tb, n - 1)
        } else {
            links_in(tb, n - 1).push(l)
        }
    }
}

pub open spec fn frequency_at(tb: Table, i: int) -> FrequencyView {
    FrequencyView {
        trip: tb.field(i, "trip_id"@),
        start: time_in(tb.field(i, "start_time"@)),
        end: time_in(tb.field(i, "end_time"@)),
        headway: number_or(tb.field(i, "headway_secs"@), u32::MAX as int, 0) as u32,
        exact: tb.field(i, "exact_times"@) == "1"@,
    }
}

/// Frequencies of one trip, in order.
#[verifier::ext_equal]
pub struct GroupView {
    pub trip: Seq<char>,
    pub entries: Seq<FrequencyView>,
}

pub open spec fn group_ids(s: Seq<GroupView>) -> Seq<Seq<char>> {
    Seq::new(s.len(), |i: int| s[i].trip)
}

/// Adds a frequency to the group of its trip, which is made if there is none.
pub open spec fn put_frequency(s: Seq<GroupView>, x: FrequencyView) -> Seq<GroupView> {
    match tab::position(group_ids(s), x.trip, 0) {
        Some(k) => s.update(k, GroupView { entries: s[k].entries.push(x), ..s[k] }),
        None => s.push(GroupView { trip: x.trip, entries: seq![x] }),
    }
}

/// The frequencies of the first `n` rows by trip; a row about an unknown trip is passed over.
pub open spec fn frequencies_in(tb: Table, trip_index: Map<Seq<char>, u32>, n: int) -> Seq<
    GroupView,
>
    decreases n,
{
    if n <= 0 {
        Seq::empty()
    } else {
        let before = frequencies_in(tb, trip_index, n - 1);
        if trip_index.contains_key(frequency_at(tb, n - 1).trip) {
            put_frequency(before, frequency_at(tb, n - 1))
        } else {
            before
        }
    }
}

pub open spec fn fare_at(tb: Table, i: int) -> FareView {
    FareView {
        id: tb.field(i, "fare_id"@),
        price: tb.field(i, "price"@),
        currency: tb.field(i, "currency_type"@),
    }
}

/// The fares of the first `n` rows by id; a row without an id is none.
pub open spec fn fares_in(tb: Table, n: int) -> Map<Seq<char>, FareView>
    decreases n,
{
    if n <= 0 {
        Map::empty()
    } else if fare_at(tb, n - 1).id.len() == 0 {
        fares_in(tb, n - 1)
    } else {
        fares_in(tb, n - 1).insert(fare_at(tb, n - 1).id, fare_at(tb, n - 1))
    }
}

pub open spec fn fare_use_at(tb: Table, i: int) -> FareUseView {
    FareUseView {
        fare: tb.field(i, "fare_id"@),
        route: tb.field(i, "route_id"@),
        origin: tb.field(i, "origin_id"@),
        destination: tb.field(i, "destination_id"@),
    }
}

/// The fare rules of the first `n` rows; a row without a fare is none.
pub open spec fn fare_uses_in(tb: Table, n: int) -> Seq<FareUseView>
    decreases n,
{
    if n <= 0 {
        Seq::empty()
    } else if fare_use_at(tb, n - 1).fare.len() == 0 {
        fare_uses_in(tb, n - 1)
    } else {
        fare_uses_in(tb, n - 1).push(fare_use_at(tb, n - 1))
    }
}

// ---------------------------------------------------------------------------
// Frequencies
// ---------------------------------------------------------------------------

/// A time moved from `from` to `to`, within 32 bits.
pub open spec fn moved(time: u32, from: u32, to: int) -> u32 {
    if time == NOT_SET {
        NOT_SET
    } else {
        ((time - from + to) % 0x1_0000_0000) as u32
    }
}

pub open spec fn moved_times(st: StopTimesView, to: int) -> StopTimesView {
    StopTimesView {
        stops: st.stops,
        arrivals: Seq::new(
            st.arrivals.len(),
            |i: int| moved(st.arrivals[i], st.departures[0], to),
        ),
        departures: Seq::new(
            st.departures.len(),
            |i: int| moved(st.departures[i], st.departures[0], to),
        ),
    }
}

/// Id of the `n`-th repetition of a trip.
pub open spec fn repeat_id(trip: Seq<char>, n: int) -> Seq<char> {
    trip + "_freq_"@ + t::padded(n, 10, 1)
}

/// Adds a trip that repeats a template at time `to`.
pub open spec fn add_repeat(
    f: Feed,
    template: TripView,
    st: StopTimesView,
    n: int,
    to: int,
) -> Feed {
    let id = repeat_id(template.id, n);
    Feed {
        trips: f.trips.push(TripView { id, ..template }),
        trip_index: f.trip_index.insert(id, f.trips.len() as u32),
        stop_times: f.stop_times.insert(id, moved_times(st, to)),
        ..f
    }
}

/// The first `n` repetitions under a frequency. They are numbered from `first` on.
pub open spec fn repeats(
    f: Feed,
    template: TripView,
    st: StopTimesView,
    x: FrequencyView,
    first: int,
    n: int,
) -> Feed
    decreases n,
{
    if n <= 0 {
        f
    } else {
        add_repeat(
            repeats(f, template, st, x, first, n - 1),
            template,
            st,
            first + n - 1,
            x.start + (n - 1) * x.headway,
        )
    }
}

/// How many times a trip repeats under a frequency.
pub open spec fn repeat_count(x: FrequencyView) -> int {
    if x.start == NOT_SET || x.end == NOT_SET || x.headway == 0 || x.start >= x.end {
        0
    } else {
        (x.end - x.start - 1) / x.headway as int + 1
    }
}

/// A trip repeats at each headway from the start on, for as long as it is before the end.
pub proof fn repeats_fill_the_period(x: FrequencyView, k: int)
    requires
        x.start != NOT_SET,
        x.end != NOT_SET,
        x.headway > 0,
        k >= 0,
    ensures
        k < repeat_count(x) <==> x.start + k * x.headway < x.end,
{
    let h = x.headway as int;
    if x.start < x.end {
        let d = x.end - x.start - 1;
        assert(k <= d / h <==> k * h <= d) by (nonlinear_arith)
            requires
                h > 0,
                k >= 0,
                d >= 0,
        ;
    } else {
        assert(k * h >= 0) by (nonlinear_arith)
            requires
                h > 0,
                k >= 0,
        ;
    }
}

/// A repetition leaves its first stop at the time it is moved to, and takes as long between stops
/// as the template, as long as its times fit in 32 bits.
pub proof fn repeats_keep_the_template(st: StopTimesView, to: int, i: int)
    requires
        0 <= i < st.departures.len(),
        0 <= to < NOT_SET,
        st.departures[0] != NOT_SET,
        st.departures[i] != NOT_SET,
        0 <= st.departures[i] - st.departures[0] + to <= u32::MAX,
    ensures
        moved_times(st, to).departures[0] == to,
        moved_times(st, to).departures[i] - moved_times(st, to).departures[0] == st.departures[i]
            - st.departures[0],
{
}

/// How many times a trip repeats under the first `n` of some frequencies.
pub open spec fn runs_before(entries: Seq<FrequencyView>, n: int) -> int
    decreases n,
{
    if n <= 0 {
        0
    } else {
        runs_before(entries, n - 1) + repeat_count(entries[n - 1])
    }
}

/// The repetitions under the first `n` frequencies of a template, numbered throughout.
pub open spec fn expand_entries(
    f: Feed,
    template: TripView,
    st: StopTimesView,
    entries: Seq<FrequencyView>,
    n: int,
) -> Feed
    decreases n,
{
    if n <= 0 {
        f
    } else {
        repeats(
            expand_entries(f, template, st, entries, n - 1),
            template,
            st,
            entries[n - 1],
            runs_before(entries, n - 1),
            repeat_count(entries[n - 1]),
        )
    }
}

/// A trip can serve as a template: it calls at two stops or more and leaves the first at a known
/// time.
pub open spec fn is_template(f: Feed, trip: Seq<char>) -> bool {
    &&& f.stop_times.contains_key(trip)
    &&& f.stop_times[trip].stops.len() >= 2
    &&& f.stop_times[trip].departures[0] != NOT_SET
    &&& f.trip_index.contains_key(trip)
}

pub open spec fn expand_group(f: Feed, g: GroupView) -> Feed {
    if is_template(f, g.trip) {
        expand_entries(
            f,
            TripView { id: g.trip, ..f.trips[f.trip_index[g.trip] as int] },
            f.stop_times[g.trip],
            g.entries,
            g.entries.len() as int,
        )
    } else {
        f
    }
}

/// The first `n` groups expanded.
pub open spec fn expand_groups(f: Feed, groups: Seq<GroupView>, n: int) -> Feed
    decreases n,
{
    if n <= 0 {
        f
    } else {
        expand_group(expand_groups(f, groups, n - 1), groups[n - 1])
    }
}

/// Stop times without those of the templates among the first `n` groups.
pub open spec fn drop_templates(f: Feed, groups: Seq<GroupView>, n: int) -> Map<
    Seq<char>,
    StopTimesView,
>
    decreases n,
{
    if n <= 0 {
        expand_groups(f, groups, groups.len() as int).stop_times
    } else {
        let before = drop_templates(f, groups, n - 1);
        if is_template(expand_groups(f, groups, n - 1), groups[n - 1].trip) {
            before.remove(groups[n - 1].trip)
        } else {
            before
        }
    }
}

/// Trips with frequencies replaced by their repetitions.
pub open spec fn expanded(f: Feed, groups: Seq<GroupView>) -> Feed {
    Feed {
        stop_times: drop_templates(f, groups, groups.len() as int),
        ..expand_groups(f, groups, groups.len() as int)
    }
}

// ---------------------------------------------------------------------------
// The whole feed
// ---------------------------------------------------------------------------

/// The tables of a feed.
pub struct Tables {
    pub agency: Table,
    pub stops: Table,
    pub routes: Table,
    pub trips: Table,
    pub stop_times: Table,
    pub calendar: Table,
    pub calendar_dates: Table,
    pub pathways: Table,
    pub transfers: Table,
    pub frequencies: Table,
    pub fare_attributes: Table,
    pub fare_rules: Table,
}

/// The feed as its tables say, before frequencies are expanded.
pub open spec fn plain_feed(tb: Tables) -> Feed {
    let agencies = agencies_in(tb.agency);
    let stops = stops_in(tb.stops, tb.stops.rows.len() as int);
    let stop_index = index_ids(stop_ids(stops));
    let routes = routes_in(tb.routes, tb.routes.rows.len() as int);
    let route_index = index_ids(route_ids(routes));
    let trips = trips_in(tb.trips, route_index, tb.trips.rows.len() as int);
    let trip_index = index_ids(trip_ids(trips));
    Feed {
        timezone: timezone_of(agencies),
        feed_id: feed_id_of(agencies),
        agencies,
        agency_index: agency_index_of(agencies),
        stops,
        stop_index,
        routes,
        route_index,
        trips,
        trip_index,
        stop_times: stop_times_in(
            tb.stop_times,
            trips,
            trip_index,
            stop_index,
            trips.len() as int,
        ),
        services: exceptions_in(
            tb.calendar_dates,
            services_in(tb.calendar, tb.calendar.rows.len() as int),
            tb.calendar_dates.rows.len() as int,
        ),
        pathways: pathways_in(tb.pathways, tb.pathways.rows.len() as int),
        links: links_in(tb.transfers, tb.transfers.rows.len() as int),
        fares: fares_in(tb.fare_attributes, tb.fare_attributes.rows.len() as int),
        fare_uses: fare_uses_in(tb.fare_rules, tb.fare_rules.rows.len() as int),
    }
}

/// The feed as its tables say.
pub open spec fn feed_in(tb: Tables) -> Feed {
    let plain = plain_feed(tb);
    expanded(
        plain,
        frequencies_in(
            tb.frequencies,
            plain.trip_index,
            tb.frequencies.rows.len() as int,
        ),
    )
}

} // verus!
