//! What a stored timetable says of stops, routes, trips, services and fares.

use crate::data::TransitData;
use crate::feed as f;
use crate::message as msg;
use crate::message::Message;
use crate::output as out;
use crate::output::Build;
use crate::pattern::PatternView;
use crate::storage as s;
use crate::table_laws as rows;
use crate::transfers as tr;
use vstd::prelude::*;
use vstd::utf8;

verus! {

/// A number in two bytes: the greatest of those stands for all that are too great.
pub open spec fn in_two_bytes(x: int, y: u16) -> bool {
    if x < 0x1_0000 {
        y == x
    } else {
        y == 0xffff
    }
}

/// Every stop is read back as the feed says, where it was measured to lie, with its station and its
/// street node. What there is none of is stored as the greatest number.
pub proof fn stored_stops_read_back(
    b: Build,
    m: Message,
    cells: Seq<(i32, i32)>,
    data: TransitData,
    i: int,
)
    requires
        s::kept(b, m, cells, data),
        0 <= i < b.feed.stops.len(),
    ensures
        ({
            let r = data.stops@[i];
            let x = b.feed.stops[i];
            &&& data.stops@.len() == b.feed.stops.len()
            &&& r.id@ == x.id
            &&& r.name@ == x.name
            &&& r.lat == b.coords[i].0
            &&& r.lon == b.coords[i].1
            &&& r.location_type == x.location_type
            &&& r.platform_code@ == x.platform
            &&& r.zone_id@ == x.zone
            &&& x.parent.len() > 0 && b.feed.stop_index.contains_key(x.parent) ==> r.parent_idx
                == b.feed.stop_index[x.parent]
            &&& x.parent.len() == 0 || !b.feed.stop_index.contains_key(x.parent) ==> r.parent_idx
                == 0xffff_ffff
            &&& i < b.links.len() ==> r.walk_node_idx == b.links[i]
            &&& i >= b.links.len() ==> r.walk_node_idx == 0xffff_ffff
        }),
{
    s::lemma_kept_stop(b, m, cells, data, i);
}

/// Every pattern is read back as a route, with what the feed says of its route, its stops and its
/// trips in their order.
pub proof fn stored_routes_read_back(
    b: Build,
    m: Message,
    cells: Seq<(i32, i32)>,
    data: TransitData,
    p: int,
    k: int,
)
    requires
        s::kept(b, m, cells, data),
        0 <= p < b.patterns.len(),
        b.patterns[p].trips.len() <= u32::MAX,
    ensures
        ({
            let r = data.routes@[p];
            let x = b.feed.routes[b.patterns[p].route as int];
            &&& data.routes@.len() == b.patterns.len()
            &&& r.id@ == x.id
            &&& r.short_name@ == x.short_name
            &&& r.long_name@ == x.long_name
            &&& r.route_type == x.route_type
            &&& r.color == x.color
            &&& r.text_color == x.text_color
            &&& r.stop_idxs@ == b.patterns[p].stops
            &&& r.num_trips == b.patterns[p].trips.len()
            &&& r.trip_idxs@.len() == b.patterns[p].trips.len()
            &&& 0 <= k < r.num_trips ==> r.trip_idxs@[k] == b.patterns[p].trips[k].0
            &&& b.feed.agency_index.contains_key(x.agency) && b.feed.agency_index[x.agency]
                <= 0xffff ==> r.agency_idx == b.feed.agency_index[x.agency]
            &&& !b.feed.agency_index.contains_key(x.agency) ==> r.agency_idx == 0
        }),
{
    s::lemma_kept_route(b, m, cells, data, p);
    assert(data.routes@[p]@.trip_idxs == data.routes@[p].trip_idxs@);
}

proof fn lemma_pattern_of_trip(ps: Seq<PatternView>, trip: u32, n: int)
    requires
        0 <= n <= ps.len() <= u32::MAX,
    ensures
        ({
            let p = out::pattern_of_trip(ps, trip, n);
            ||| p < n && holds(ps[p as int], trip)
            ||| p == 0xffff_ffff && forall|q: int| 0 <= q < n ==> !holds(#[trigger] ps[q], trip)
        }),
    decreases n,
{
    if n > 0 {
        lemma_pattern_of_trip(ps, trip, n - 1);
        if out::has_trip(ps[n - 1].trips, trip) {
            let k = choose|k: int|
                0 <= k < ps[n - 1].trips.len() && (#[trigger] ps[n - 1].trips[k]).0 == trip;
            assert(ps[n - 1].trips[k].0 == trip);
        }
    }
}

/// A trip is one of those of a pattern.
pub open spec fn holds(p: PatternView, trip: u32) -> bool {
    exists|k: int| 0 <= k < p.trips.len() && (#[trigger] p.trips[k]).0 == trip
}

/// Every trip is read back as the feed says, with a route that holds it and with its service. A
/// trip that no route holds, or whose service is not known, says so by the greatest number.
pub proof fn stored_trips_read_back(
    b: Build,
    m: Message,
    cells: Seq<(i32, i32)>,
    data: TransitData,
    i: int,
)
    requires
        s::kept(b, m, cells, data),
        0 <= i < b.feed.trips.len() <= u32::MAX,
        b.patterns.len() <= u32::MAX,
    ensures
        ({
            let r = data.trips@[i];
            let x = b.feed.trips[i];
            &&& data.trips@.len() == b.feed.trips.len()
            &&& r.id@ == x.id
            &&& r.headsign@ == x.headsign
            &&& r.direction_id == x.direction
            &&& b.service_index.contains_key(x.service) ==> r.service_idx
                == b.service_index[x.service]
            &&& !b.service_index.contains_key(x.service) ==> r.service_idx == 0xffff_ffff
            &&& r.route_idx < b.patterns.len() ==> holds(
                b.patterns[r.route_idx as int],
                i as u32,
            )
            &&& r.route_idx >= b.patterns.len() ==> r.route_idx == 0xffff_ffff && forall|q: int|
                0 <= q < b.patterns.len() ==> !holds(#[trigger] b.patterns[q], i as u32)
            &&& r.frequency_rules@.len() == x.rules.len()
            &&& x.rules.len() > 0 ==> r.template_first_departure == x.first_departure
        }),
{
    assert(m@.trips == f::views(m.trips@));
    assert(m@.trips[i] == m.trips@[i]@);
    lemma_pattern_of_trip(b.patterns, i as u32, b.patterns.len() as int);
}

/// Every service is read back with its id, its first day and its days.
pub proof fn stored_services_read_back(
    b: Build,
    m: Message,
    cells: Seq<(i32, i32)>,
    data: TransitData,
    i: int,
)
    requires
        s::kept(b, m, cells, data),
        0 <= i < b.services.len(),
    ensures
        data.services@.len() == b.services.len(),
        data.services@[i].id@ == b.services[i].id@,
        in_two_bytes(b.services[i].start_epoch_days as int, data.services@[i].start_date),
        data.services@[i].day_bits@ == b.services[i].day_bits@,
{
    assert(m@.services == f::views(m.services@));
    assert(m@.services[i] == m.services@[i]@);
}

/// Every agency is read back, and so are the name of the feed and its time zone.
pub proof fn stored_agencies_read_back(
    b: Build,
    m: Message,
    cells: Seq<(i32, i32)>,
    data: TransitData,
    i: int,
)
    requires
        s::kept(b, m, cells, data),
    ensures
        data.feed_id@ == b.feed.feed_id,
        data.timezone@ == b.feed.timezone,
        data.agencies@.len() == b.feed.agencies.len(),
        0 <= i < b.feed.agencies.len() ==> {
            &&& data.agencies@[i].id@ == b.feed.agencies[i].id
            &&& data.agencies@[i].name@ == b.feed.agencies[i].name
            &&& data.agencies@[i].url@ == b.feed.agencies[i].url
        },
{
    assert(m@.agencies == f::views(m.agencies@));
    assert(data.agencies@.len() == m@.agencies.len());
    if 0 <= i < b.feed.agencies.len() {
        assert(m@.agencies[i] == m.agencies@[i]@);
    }
}

/// A footpath that leaves a stop is listed among those of the stop, in order, with where it leads,
/// its time and its length.
pub proof fn footpaths_leave_their_stop(ts: Seq<tr::Transfer>, stop: int, n: int, k: int)
    requires
        0 <= k < n <= ts.len(),
        ts[k].from_stop_idx == stop,
    ensures
        ({
            let counts = |j: int| ts[j].from_stop_idx == stop;
            let list = out::leaving(ts, stop, n);
            let at = rows::counted(counts, k);
            &&& list.len() == rows::counted(counts, n)
            &&& 0 <= at < list.len()
            &&& list[at].to_stop_idx == ts[k].to_stop_idx
            &&& in_two_bytes(ts[k].walk_seconds as int, list[at].walk_seconds)
            &&& in_two_bytes(ts[k].dist_meters as int, list[at].dist_meters)
        }),
    decreases n,
{
    let counts = |j: int| ts[j].from_stop_idx == stop;
    lemma_leaving_counted(ts, stop, n);
    rows::lemma_counted(counts, k, n);
    if k < n - 1 {
        footpaths_leave_their_stop(ts, stop, n - 1, k);
    } else {
        lemma_leaving_counted(ts, stop, n - 1);
    }
}

proof fn lemma_leaving_counted(ts: Seq<tr::Transfer>, stop: int, n: int)
    ensures
        out::leaving(ts, stop, n).len() == rows::counted(
            |j: int| ts[j].from_stop_idx == stop,
            n,
        ),
    decreases n,
{
    if n > 0 {
        lemma_leaving_counted(ts, stop, n - 1);
    }
}

// ---------------------------------------------------------------------------
// Fares
// ---------------------------------------------------------------------------

/// A fare was stored for rule `u`: the fare is known, and it is for every route if the rule names
/// none, else for the route `p` of those that the rule names.
pub open spec fn due(b: Build, u: int, p: u32) -> bool {
    let x = b.feed.fare_uses[u];
    &&& b.feed.fares.contains_key(x.fare)
    &&& if x.route.len() == 0 {
        p == 0xffff_ffff
    } else {
        &&& b.feed.route_index.contains_key(x.route)
        &&& p < b.patterns.len()
        &&& b.patterns[p as int].route == b.feed.route_index[x.route]
    }
}

/// A fare that was read back is what rule `u` says of route `p`.
pub open spec fn charges(
    b: Build,
    u: int,
    p: u32,
    route_idx: u32,
    price: u32,
    currency_hash: u32,
) -> bool {
    &&& 0 <= u < b.feed.fare_uses.len()
    &&& due(b, u, p)
    &&& route_idx == p
    &&& price == b.prices[u]
    &&& ({
        let bytes = utf8::encode_utf8(b.feed.fares[b.feed.fare_uses[u].fare].currency);
        currency_hash == msg::hash_of(bytes, bytes.len() as int) as u32
    })
}

proof fn lemma_patterns_with(ps: Seq<PatternView>, route: u32, n: int)
    requires
        0 <= n <= ps.len() <= u32::MAX,
    ensures
        ({
            let list = out::patterns_with(ps, route, n);
            &&& forall|k: int|
                0 <= k < list.len() ==> #[trigger] list[k] < n && ps[list[k] as int].route == route
            &&& forall|p: u32|
                p < n && (#[trigger] ps[p as int]).route == route ==> list.contains(p)
        }),
    decreases n,
{
    if n > 0 {
        lemma_patterns_with(ps, route, n - 1);
        let front = out::patterns_with(ps, route, n - 1);
        let list = out::patterns_with(ps, route, n);
        assert forall|p: u32| p < n && (#[trigger] ps[p as int]).route == route implies list.contains(
            p,
        ) by {
            if p < n - 1 {
                let k = choose|k: int| 0 <= k < front.len() && front[k] == p;
                assert(list[k] == p);
            } else {
                assert(list[front.len() as int] == p);
            }
        }
    }
}

proof fn lemma_fares_from(b: Build, n: int, j: int) -> (at: (int, u32))
    requires
        0 <= n <= b.feed.fare_uses.len(),
        b.patterns.len() <= u32::MAX,
        0 <= j < out::fare_records(b.feed, b.patterns, b.prices, n).len(),
    ensures
        ({
            let r = out::fare_records(b.feed, b.patterns, b.prices, n)[j];
            let (u, p) = at;
            &&& 0 <= u < n
            &&& due(b, u, p)
            &&& r.route_idx == p
            &&& r.price == b.prices[u]
            &&& r.currency == b.feed.fares[b.feed.fare_uses[u].fare].currency
        }),
    decreases n,
{
    let front = out::fare_records(b.feed, b.patterns, b.prices, n - 1);
    let all = out::fare_records(b.feed, b.patterns, b.prices, n);
    if j < front.len() {
        let at = lemma_fares_from(b, n - 1, j);
        assert(all[j] == front[j]);
        at
    } else {
        let x = b.feed.fare_uses[n - 1];
        let own = out::fares_for(b.feed, b.patterns, x, b.prices[n - 1]);
        assert(all[j] == own[j - front.len()]);
        if x.route.len() > 0 {
            lemma_patterns_with(
                b.patterns,
                b.feed.route_index[x.route],
                b.patterns.len() as int,
            );
        }
        (n - 1, all[j].route_idx)
    }
}

proof fn lemma_fares_given(b: Build, n: int, u: int, p: u32) -> (j: int)
    requires
        0 <= u < n <= b.feed.fare_uses.len(),
        b.patterns.len() <= u32::MAX,
        due(b, u, p),
    ensures
        0 <= j < out::fare_records(b.feed, b.patterns, b.prices, n).len(),
        ({
            let r = out::fare_records(b.feed, b.patterns, b.prices, n)[j];
            &&& r.route_idx == p
            &&& r.price == b.prices[u]
            &&& r.currency == b.feed.fares[b.feed.fare_uses[u].fare].currency
        }),
    decreases n,
{
    let front = out::fare_records(b.feed, b.patterns, b.prices, n - 1);
    let all = out::fare_records(b.feed, b.patterns, b.prices, n);
    if u < n - 1 {
        let j = lemma_fares_given(b, n - 1, u, p);
        assert(all[j] == front[j]);
        j
    } else {
        let x = b.feed.fare_uses[u];
        let own = out::fares_for(b.feed, b.patterns, x, b.prices[u]);
        if x.route.len() == 0 {
            assert(all[front.len() as int] == own[0]);
            front.len() as int
        } else {
            let list = out::patterns_with(
                b.patterns,
                b.feed.route_index[x.route],
                b.patterns.len() as int,
            );
            lemma_patterns_with(
                b.patterns,
                b.feed.route_index[x.route],
                b.patterns.len() as int,
            );
            assert(b.patterns[p as int].route == b.feed.route_index[x.route]);
            let k = choose|k: int| 0 <= k < list.len() && list[k] == p;
            assert(all[front.len() + k] == own[k]);
            front.len() + k
        }
    }
}

/// Every fare that was read back is charged by a rule, and every fare that a rule charges is read
/// back: for all routes if the rule names none, else for each pattern of the route it names.
pub proof fn stored_fares_read_back(
    b: Build,
    m: Message,
    cells: Seq<(i32, i32)>,
    data: TransitData,
    j: int,
    u: int,
    p: u32,
)
    requires
        s::kept(b, m, cells, data),
        b.patterns.len() <= u32::MAX,
    ensures
        0 <= j < data.fare_rules@.len() ==> exists|v: int, q: u32| #[trigger]
            charges(
                b,
                v,
                q,
                data.fare_rules@[j].route_idx,
                data.fare_rules@[j].price,
                data.fare_rules@[j].currency_hash,
            ),
        0 <= u < b.feed.fare_uses.len() && due(b, u, p) ==> exists|i: int|
            0 <= i < data.fare_rules@.len() && charges(
                b,
                u,
                p,
                (#[trigger] data.fare_rules@[i]).route_idx,
                data.fare_rules@[i].price,
                data.fare_rules@[i].currency_hash,
            ),
{
    let n = b.feed.fare_uses.len() as int;
    let all = out::fare_records(b.feed, b.patterns, b.prices, n);
    assert(m@.fare_rules == all);
    assert(data.fare_rules@.len() == all.len());
    if 0 <= j < data.fare_rules@.len() {
        let at = lemma_fares_from(b, n, j);
        let r = data.fare_rules@[j];
        assert(charges(b, at.0, at.1, r.route_idx, r.price, r.currency_hash));
    }
    if 0 <= u < n && due(b, u, p) {
        let i = lemma_fares_given(b, n, u, p);
        let r = data.fare_rules@[i];
        assert(charges(b, u, p, r.route_idx, r.price, r.currency_hash));
    }
}

} // verus!
