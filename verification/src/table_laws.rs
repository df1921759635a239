//! What the rows of a feed's tables become.

use crate::feed as f;
use crate::feed::{StopTimesView, Tables, TripView};
use crate::gtfs as g;
use crate::table as tab;
use crate::table::{Fault, Table};
use crate::text as t;
use vstd::prelude::*;

verus! {

// ---------------------------------------------------------------------------
// Columns
// ---------------------------------------------------------------------------

proof fn lemma_position(s: Seq<Seq<char>>, x: Seq<char>, from: int)
    requires
        0 <= from <= s.len(),
        forall|k: int| 0 <= k < from ==> #[trigger] s[k] != x,
    ensures
        match tab::position(s, x, from) {
            Some(p) => 0 <= p < s.len() && s[p] == x && forall|k: int|
                0 <= k < p ==> #[trigger] s[k] != x,
            None => forall|k: int| 0 <= k < s.len() ==> #[trigger] s[k] != x,
        },
    decreases s.len() - from,
{
    if from < s.len() && s[from] != x {
        lemma_position(s, x, from + 1);
    }
}

/// A field is what stands in its row under the first column of that name, trimmed. It is empty if
/// there is no such column or the row ends before it.
pub proof fn fields_stand_under_their_names(tb: Table, row: int, name: Seq<char>, p: int)
    requires
        0 <= row < tb.rows.len(),
        0 <= p < tb.headers.len(),
    ensures
        tb.headers[p] == name && (forall|k: int| 0 <= k < p ==> #[trigger] tb.headers[k] != name) ==> (if p
            < tb.rows[row].len() {
            tb.field(row, name) == t::trimmed(tb.rows[row][p])
        } else {
            tb.field(row, name).len() == 0
        }),
        (forall|k: int| 0 <= k < tb.headers.len() ==> #[trigger] tb.headers[k] != name)
            ==> tb.field(row, name).len() == 0,
{
    lemma_position(tb.headers, name, 0);
    if tb.headers[p] == name && (forall|k: int| 0 <= k < p ==> #[trigger] tb.headers[k] != name) {
        match tab::position(tb.headers, name, 0) {
            Some(q) => {
                if q < p {
                    assert(tb.headers[q] != name);
                } else if p < q {
                    assert(tb.headers[p] != name);
                }
            },
            None => {},
        }
    }
}

// ---------------------------------------------------------------------------
// Rows
// ---------------------------------------------------------------------------

/// How many of the first `n` rows count.
pub open spec fn counted(counts: spec_fn(int) -> bool, n: int) -> int
    decreases n,
{
    if n <= 0 {
        0
    } else if counts(n - 1) {
        counted(counts, n - 1) + 1
    } else {
        counted(counts, n - 1)
    }
}

pub(crate) proof fn lemma_counted(counts: spec_fn(int) -> bool, i: int, n: int)
    requires
        0 <= i <= n,
    ensures
        0 <= counted(counts, i) <= counted(counts, n),
        i < n && counts(i) ==> counted(counts, i) < counted(counts, n),
    decreases n,
{
    if i < n {
        lemma_counted(counts, i, n - 1);
    } else if n > 0 {
        lemma_counted(counts, i - 1, n - 1);
    }
}

/// The number in a field, or what stands in if there is none.
pub open spec fn reads(s: Seq<char>, max: int, or: int, v: int) -> bool {
    match t::decimal(s, max) {
        Some(x) => v == x,
        None => v == or,
    }
}

/// Every row of the stops with an id is a stop, in order, and nothing else is.
pub proof fn stops_are_rows(tb: Table, n: int, i: int)
    requires
        0 <= i < n,
        tb.field(i, "stop_id"@).len() > 0,
    ensures
        ({
            let counts = |i: int| tb.field(i, "stop_id"@).len() > 0;
            let x = f::stops_in(tb, n)[counted(counts, i)];
            &&& f::stops_in(tb, n).len() == counted(counts, n)
            &&& 0 <= counted(counts, i) < counted(counts, n)
            &&& x.id == tb.field(i, "stop_id"@)
            &&& x.name == tb.field(i, "stop_name"@)
            &&& x.lat == tb.field(i, "stop_lat"@)
            &&& x.lon == tb.field(i, "stop_lon"@)
            &&& reads(tb.field(i, "location_type"@), 255, 0, x.location_type as int)
            &&& x.parent == tb.field(i, "parent_station"@)
            &&& x.platform == tb.field(i, "platform_code"@)
            &&& x.zone == tb.field(i, "zone_id"@)
        }),
    decreases n,
{
    let counts = |i: int| tb.field(i, "stop_id"@).len() > 0;
    lemma_counted(counts, i, n);
    lemma_stops_counted(tb, n);
    t::lemma_decimal_within(tb.field(i, "location_type"@), 255);
    if i == n - 1 {
        lemma_stops_counted(tb, n - 1);
    } else {
        stops_are_rows(tb, n - 1, i);
        lemma_counted(counts, i, n - 1);
        let front = f::stops_in(tb, n - 1);
        assert(f::stops_in(tb, n)[counted(counts, i)] == front[counted(counts, i)]);
    }
}

proof fn lemma_stops_counted(tb: Table, n: int)
    ensures
        f::stops_in(tb, n).len() == counted(|i: int| tb.field(i, "stop_id"@).len() > 0, n),
    decreases n,
{
    if n > 0 {
        lemma_stops_counted(tb, n - 1);
    }
}

/// Every row of the routes with an id is a route, in order, and nothing else is. A route type that
/// cannot be read is that of a bus.
pub proof fn routes_are_rows(tb: Table, n: int, i: int)
    requires
        0 <= i < n,
        tb.field(i, "route_id"@).len() > 0,
    ensures
        ({
            let counts = |i: int| tb.field(i, "route_id"@).len() > 0;
            let x = f::routes_in(tb, n)[counted(counts, i)];
            &&& f::routes_in(tb, n).len() == counted(counts, n)
            &&& 0 <= counted(counts, i) < counted(counts, n)
            &&& x.id == tb.field(i, "route_id"@)
            &&& x.agency == tb.field(i, "agency_id"@)
            &&& x.short_name == tb.field(i, "route_short_name"@)
            &&& x.long_name == tb.field(i, "route_long_name"@)
            &&& reads(tb.field(i, "route_type"@), 255, 3, x.route_type as int)
            &&& x.color == f::color_in(tb.field(i, "route_color"@))
            &&& x.text_color == f::color_in(tb.field(i, "route_text_color"@))
        }),
    decreases n,
{
    let counts = |i: int| tb.field(i, "route_id"@).len() > 0;
    lemma_counted(counts, i, n);
    lemma_routes_counted(tb, n);
    t::lemma_decimal_within(tb.field(i, "route_type"@), 255);
    if i == n - 1 {
        lemma_routes_counted(tb, n - 1);
    } else {
        routes_are_rows(tb, n - 1, i);
        lemma_counted(counts, i, n - 1);
        let front = f::routes_in(tb, n - 1);
        assert(f::routes_in(tb, n)[counted(counts, i)] == front[counted(counts, i)]);
    }
}

proof fn lemma_routes_counted(tb: Table, n: int)
    ensures
        f::routes_in(tb, n).len() == counted(|i: int| tb.field(i, "route_id"@).len() > 0, n),
    decreases n,
{
    if n > 0 {
        lemma_routes_counted(tb, n - 1);
    }
}

/// Every row of the trips with an id and a known route is a trip, in order, and nothing else is.
pub proof fn trips_are_rows(tb: Table, known: Map<Seq<char>, u32>, n: int, i: int)
    requires
        0 <= i < n,
        tb.field(i, "trip_id"@).len() > 0 && known.contains_key(tb.field(i, "route_id"@)),
    ensures
        ({
            let counts = |i: int| tb.field(i, "trip_id"@).len() > 0 && known.contains_key(tb.field(i, "route_id"@));
            let x = f::trips_in(tb, known, n)[counted(counts, i)];
            &&& f::trips_in(tb, known, n).len() == counted(counts, n)
            &&& 0 <= counted(counts, i) < counted(counts, n)
            &&& x.id == tb.field(i, "trip_id"@)
            &&& x.route == tb.field(i, "route_id"@)
            &&& x.service == tb.field(i, "service_id"@)
            &&& x.headsign == tb.field(i, "trip_headsign"@)
            &&& reads(tb.field(i, "direction_id"@), 255, 0, x.direction as int)
            &&& x.rules.len() == 0
            &&& x.first_departure == 0
        }),
    decreases n,
{
    let counts = |i: int| tb.field(i, "trip_id"@).len() > 0 && known.contains_key(tb.field(i, "route_id"@));
    lemma_counted(counts, i, n);
    lemma_trips_counted(tb, known, n);
    t::lemma_decimal_within(tb.field(i, "direction_id"@), 255);
    if i == n - 1 {
        lemma_trips_counted(tb, known, n - 1);
    } else {
        trips_are_rows(tb, known, n - 1, i);
        lemma_counted(counts, i, n - 1);
        let front = f::trips_in(tb, known, n - 1);
        assert(f::trips_in(tb, known, n)[counted(counts, i)] == front[counted(counts, i)]);
    }
}

proof fn lemma_trips_counted(tb: Table, known: Map<Seq<char>, u32>, n: int)
    ensures
        f::trips_in(tb, known, n).len() == counted(|i: int| tb.field(i, "trip_id"@).len() > 0 && known.contains_key(tb.field(i, "route_id"@)), n),
    decreases n,
{
    if n > 0 {
        lemma_trips_counted(tb, known, n - 1);
    }
}

/// Every row of the pathways with two ends is a pathway, in order, and nothing else is.
pub proof fn pathways_are_rows(tb: Table, n: int, i: int)
    requires
        0 <= i < n,
        tb.field(i, "from_stop_id"@).len() > 0 && tb.field(i, "to_stop_id"@).len() > 0,
    ensures
        ({
            let counts = |i: int| tb.field(i, "from_stop_id"@).len() > 0 && tb.field(i, "to_stop_id"@).len() > 0;
            let x = f::pathways_in(tb, n)[counted(counts, i)];
            &&& f::pathways_in(tb, n).len() == counted(counts, n)
            &&& 0 <= counted(counts, i) < counted(counts, n)
            &&& x.from == tb.field(i, "from_stop_id"@)
            &&& x.to == tb.field(i, "to_stop_id"@)
            &&& reads(tb.field(i, "traversal_time"@), u32::MAX as int, 0, x.secs as int)
            &&& x.length == tb.field(i, "length"@)
            &&& x.both_ways <==> tb.field(i, "is_bidirectional"@) == "1"@
        }),
    decreases n,
{
    let counts = |i: int| tb.field(i, "from_stop_id"@).len() > 0 && tb.field(i, "to_stop_id"@).len() > 0;
    lemma_counted(counts, i, n);
    lemma_pathways_counted(tb, n);
    t::lemma_decimal_within(tb.field(i, "traversal_time"@), u32::MAX as int);
    if i == n - 1 {
        lemma_pathways_counted(tb, n - 1);
    } else {
        pathways_are_rows(tb, n - 1, i);
        lemma_counted(counts, i, n - 1);
        let front = f::pathways_in(tb, n - 1);
        assert(f::pathways_in(tb, n)[counted(counts, i)] == front[counted(counts, i)]);
    }
}

proof fn lemma_pathways_counted(tb: Table, n: int)
    ensures
        f::pathways_in(tb, n).len() == counted(|i: int| tb.field(i, "from_stop_id"@).len() > 0 && tb.field(i, "to_stop_id"@).len() > 0, n),
    decreases n,
{
    if n > 0 {
        lemma_pathways_counted(tb, n - 1);
    }
}

/// Every row of the transfers with two ends is a transfer, in order, and nothing else is.
pub proof fn links_are_rows(tb: Table, n: int, i: int)
    requires
        0 <= i < n,
        tb.field(i, "from_stop_id"@).len() > 0 && tb.field(i, "to_stop_id"@).len() > 0,
    ensures
        ({
            let counts = |i: int| tb.field(i, "from_stop_id"@).len() > 0 && tb.field(i, "to_stop_id"@).len() > 0;
            let x = f::links_in(tb, n)[counted(counts, i)];
            &&& f::links_in(tb, n).len() == counted(counts, n)
            &&& 0 <= counted(counts, i) < counted(counts, n)
            &&& x.from == tb.field(i, "from_stop_id"@)
            &&& x.to == tb.field(i, "to_stop_id"@)
            &&& reads(tb.field(i, "transfer_type"@), 255, 0, x.kind as int)
            &&& reads(tb.field(i, "min_transfer_time"@), u32::MAX as int, 0, x.min_time as int)
        }),
    decreases n,
{
    let counts = |i: int| tb.field(i, "from_stop_id"@).len() > 0 && tb.field(i, "to_stop_id"@).len() > 0;
    lemma_counted(counts, i, n);
    lemma_links_counted(tb, n);
    t::lemma_decimal_within(tb.field(i, "transfer_type"@), 255);
    t::lemma_decimal_within(tb.field(i, "min_transfer_time"@), u32::MAX as int);
    if i == n - 1 {
        lemma_links_counted(tb, n - 1);
    } else {
        links_are_rows(tb, n - 1, i);
        lemma_counted(counts, i, n - 1);
        let front = f::links_in(tb, n - 1);
        assert(f::links_in(tb, n)[counted(counts, i)] == front[counted(counts, i)]);
    }
}

proof fn lemma_links_counted(tb: Table, n: int)
    ensures
        f::links_in(tb, n).len() == counted(|i: int| tb.field(i, "from_stop_id"@).len() > 0 && tb.field(i, "to_stop_id"@).len() > 0, n),
    decreases n,
{
    if n > 0 {
        lemma_links_counted(tb, n - 1);
    }
}

/// Every row of the fare rules with a fare is a rule, in order, and nothing else is.
pub proof fn fare_uses_are_rows(tb: Table, n: int, i: int)
    requires
        0 <= i < n,
        tb.field(i, "fare_id"@).len() > 0,
    ensures
        ({
            let counts = |i: int| tb.field(i, "fare_id"@).len() > 0;
            let x = f::fare_uses_in(tb, n)[counted(counts, i)];
            &&& f::fare_uses_in(tb, n).len() == counted(counts, n)
            &&& 0 <= counted(counts, i) < counted(counts, n)
            &&& x.fare == tb.field(i, "fare_id"@)
            &&& x.route == tb.field(i, "route_id"@)
            &&& x.origin == tb.field(i, "origin_id"@)
            &&& x.destination == tb.field(i, "destination_id"@)
        }),
    decreases n,
{
    let counts = |i: int| tb.field(i, "fare_id"@).len() > 0;
    lemma_counted(counts, i, n);
    lemma_fare_uses_counted(tb, n);
    if i == n - 1 {
        lemma_fare_uses_counted(tb, n - 1);
    } else {
        fare_uses_are_rows(tb, n - 1, i);
        lemma_counted(counts, i, n - 1);
        let front = f::fare_uses_in(tb, n - 1);
        assert(f::fare_uses_in(tb, n)[counted(counts, i)] == front[counted(counts, i)]);
    }
}

proof fn lemma_fare_uses_counted(tb: Table, n: int)
    ensures
        f::fare_uses_in(tb, n).len() == counted(|i: int| tb.field(i, "fare_id"@).len() > 0, n),
    decreases n,
{
    if n > 0 {
        lemma_fare_uses_counted(tb, n - 1);
    }
}

/// Every row of the agencies is an agency, in order.
pub proof fn agencies_are_rows(tb: Table, i: int)
    requires
        0 <= i < tb.rows.len(),
    ensures
        f::agencies_in(tb).len() == tb.rows.len(),
        f::agencies_in(tb)[i].id == tb.field(i, "agency_id"@),
        f::agencies_in(tb)[i].name == tb.field(i, "agency_name"@),
        f::agencies_in(tb)[i].url == tb.field(i, "agency_url"@),
        f::agencies_in(tb)[i].timezone == tb.field(i, "agency_timezone"@),
{
}

/// A fare with an id is as the last row about it says.
pub proof fn fares_are_rows(tb: Table, n: int, i: int)
    requires
        0 <= i < n,
        tb.field(i, "fare_id"@).len() > 0,
        forall|k: int| i < k < n ==> #[trigger] tb.field(k, "fare_id"@) != tb.field(i, "fare_id"@),
    ensures
        ({
            let id = tb.field(i, "fare_id"@);
            &&& f::fares_in(tb, n).contains_key(id)
            &&& f::fares_in(tb, n)[id].id == id
            &&& f::fares_in(tb, n)[id].price == tb.field(i, "price"@)
            &&& f::fares_in(tb, n)[id].currency == tb.field(i, "currency_type"@)
        }),
    decreases n,
{
    if i < n - 1 {
        assert(tb.field(n - 1, "fare_id"@) != tb.field(i, "fare_id"@));
        fares_are_rows(tb, n - 1, i);
    }
}

/// No other fares are known than those with a row.
pub proof fn fares_have_rows(tb: Table, n: int, id: Seq<char>)
    requires
        f::fares_in(tb, n).contains_key(id),
    ensures
        id.len() > 0,
        exists|i: int| 0 <= i < n && #[trigger] tb.field(i, "fare_id"@) == id,
    decreases n,
{
    if n > 0 {
        if tb.field(n - 1, "fare_id"@) != id || id.len() == 0 {
            fares_have_rows(tb, n - 1, id);
            let i = choose|i: int| 0 <= i < n - 1 && #[trigger] tb.field(i, "fare_id"@) == id;
            assert(tb.field(i, "fare_id"@) == id);
        } else {
            assert(tb.field(n - 1, "fare_id"@) == id);
        }
    }
}

/// An id stands where the index says, and at no later place.
pub proof fn indexes_find_the_last(ids: Seq<Seq<char>>, k: int)
    requires
        ids.len() <= u32::MAX,
        0 <= k < ids.len(),
    ensures
        f::index_ids(ids).contains_key(ids[k]),
        k <= f::index_ids(ids)[ids[k]] < ids.len(),
        ids[f::index_ids(ids)[ids[k]] as int] == ids[k],
    decreases ids.len(),
{
    let front = ids.drop_last();
    f::lemma_index_ids(ids);
    assert(ids.contains(ids[k]));
    if k < ids.len() - 1 && ids[k] != ids.last() {
        indexes_find_the_last(front, k);
        assert(front[k] == ids[k]);
    }
}

/// The agency of a route is found by its id. A feed with one agency needs no id for it.
pub proof fn agencies_are_found(tb: Table, k: int)
    requires
        tb.rows.len() <= u32::MAX,
        0 <= k < tb.rows.len(),
    ensures
        ({
            let index = f::agency_index_of(f::agencies_in(tb));
            let id = tb.field(k, "agency_id"@);
            &&& index.contains_key(id)
            &&& tb.field(index[id] as int, "agency_id"@) == id || tb.rows.len() == 1
            &&& tb.rows.len() == 1 ==> index.contains_key(Seq::empty()) && index[Seq::empty()] == 0
        }),
{
    let s = f::agencies_in(tb);
    let ids = f::agency_ids(s);
    indexes_find_the_last(ids, k);
    assert(ids[k] == tb.field(k, "agency_id"@));
    if tb.rows.len() == 1 {
        let empty = Seq::<char>::empty();
        f::lemma_index_ids(ids);
        if f::index_ids(ids).contains_key(empty) {
            assert(f::index_ids(ids)[empty] < 1);
        }
    }
}

/// A feed is named after its first agency, and runs on its time.
pub proof fn feeds_follow_their_first_agency(tb: Tables)
    ensures
        tb.agency.rows.len() > 0 ==> f::plain_feed(tb).timezone == tb.agency.field(
            0,
            "agency_timezone"@,
        ),
        tb.agency.rows.len() == 0 ==> f::plain_feed(tb).timezone == "UTC"@,
        tb.agency.rows.len() > 0 && tb.agency.field(0, "agency_id"@).len() > 0 ==> f::plain_feed(
            tb,
        ).feed_id == tb.agency.field(0, "agency_id"@),
        tb.agency.rows.len() == 0 || tb.agency.field(0, "agency_id"@).len() == 0
            ==> f::plain_feed(tb).feed_id == "unknown"@,
{
}

// ---------------------------------------------------------------------------
// Stop times
// ---------------------------------------------------------------------------

/// Row `i` of the stop times is about a trip, at a known stop.
pub open spec fn about(
    tb: Table,
    trip_index: Map<Seq<char>, u32>,
    stop_index: Map<Seq<char>, u32>,
    trip: int,
    i: int,
) -> bool {
    &&& trip_index.contains_key(tb.field(i, "trip_id"@))
    &&& trip_index[tb.field(i, "trip_id"@)] == trip
    &&& stop_index.contains_key(tb.field(i, "stop_id"@))
}

/// The place of row `i` in the order of its trip.
pub open spec fn sequence(tb: Table, i: int) -> int {
    match t::decimal(tb.field(i, "stop_sequence"@), u32::MAX as int) {
        Some(v) => v,
        None => 0,
    }
}

/// `order` lists the rows about a trip, each once, in order of their sequence numbers; rows with the
/// same number stay in order.
pub open spec fn is_order(
    tb: Table,
    trip_index: Map<Seq<char>, u32>,
    stop_index: Map<Seq<char>, u32>,
    trip: int,
    n: int,
    order: Seq<int>,
) -> bool {
    &&& forall|p: int|
        0 <= p < order.len() ==> 0 <= #[trigger] order[p] < n && about(
            tb,
            trip_index,
            stop_index,
            trip,
            order[p],
        )
    &&& forall|i: int|
        0 <= i < n && #[trigger] about(tb, trip_index, stop_index, trip, i) ==> order.contains(i)
    &&& forall|p: int, q: int|
        0 <= p < q < order.len() ==> sequence(tb, #[trigger] order[p]) < sequence(
            tb,
            #[trigger] order[q],
        ) || (sequence(tb, order[p]) == sequence(tb, order[q]) && order[p] < order[q])
}

/// The rows about a trip in order, as they are.
spec fn rows_about(
    tb: Table,
    trip_index: Map<Seq<char>, u32>,
    stop_index: Map<Seq<char>, u32>,
    trip: int,
    n: int,
) -> Seq<int>
    decreases n,
{
    if n <= 0 {
        Seq::empty()
    } else {
        let front = rows_about(tb, trip_index, stop_index, trip, n - 1);
        if about(tb, trip_index, stop_index, trip, n - 1) {
            front.push(n - 1)
        } else {
            front
        }
    }
}

spec fn called(tb: Table, stop_index: Map<Seq<char>, u32>, rows: Seq<int>) -> Seq<
    (u32, u32, u32, u32),
> {
    Seq::new(rows.len(), |p: int| f::call_at(tb, stop_index, rows[p]))
}

proof fn lemma_rows_about(
    tb: Table,
    trip_index: Map<Seq<char>, u32>,
    stop_index: Map<Seq<char>, u32>,
    trip: int,
    n: int,
)
    requires
        0 <= n,
    ensures
        ({
            let rows = rows_about(tb, trip_index, stop_index, trip, n);
            &&& f::calls_of(tb, trip_index, stop_index, trip, n) == called(tb, stop_index, rows)
            &&& forall|p: int|
                0 <= p < rows.len() ==> 0 <= #[trigger] rows[p] < n && about(
                    tb,
                    trip_index,
                    stop_index,
                    trip,
                    rows[p],
                )
            &&& forall|p: int, q: int| 0 <= p < q < rows.len() ==> #[trigger] rows[p]
                < #[trigger] rows[q]
            &&& forall|i: int|
                0 <= i < n && #[trigger] about(tb, trip_index, stop_index, trip, i)
                    ==> rows.contains(i)
        }),
    decreases n,
{
    let rows = rows_about(tb, trip_index, stop_index, trip, n);
    let calls = f::calls_of(tb, trip_index, stop_index, trip, n);
    if n > 0 {
        lemma_rows_about(tb, trip_index, stop_index, trip, n - 1);
        let front = rows_about(tb, trip_index, stop_index, trip, n - 1);
        assert forall|i: int|
            0 <= i < n && #[trigger] about(tb, trip_index, stop_index, trip, i) implies rows.contains(
            i,
        ) by {
            if i < n - 1 {
                let p = choose|p: int| 0 <= p < front.len() && front[p] == i;
                assert(rows[p] == i);
            } else {
                assert(rows[front.len() as int] == i);
            }
        }
        assert(f::calls(tb, trip_index, stop_index, trip, n - 1) == about(
            tb,
            trip_index,
            stop_index,
            trip,
            n - 1,
        ));
    }
    assert(calls =~= called(tb, stop_index, rows));
}

/// The rows are in order.
spec fn rows_sorted(tb: Table, order: Seq<int>) -> bool {
    forall|p: int, q: int|
        0 <= p < q < order.len() ==> sequence(tb, #[trigger] order[p]) < sequence(
            tb,
            #[trigger] order[q],
        ) || (sequence(tb, order[p]) == sequence(tb, order[q]) && order[p] < order[q])
}

spec fn all_below(order: Seq<int>, i: int) -> bool {
    forall|p: int| 0 <= p < order.len() ==> #[trigger] order[p] < i
}

/// A later row is put where it belongs.
proof fn lemma_insert(tb: Table, stop_index: Map<Seq<char>, u32>, order: Seq<int>, i: int) -> (out:
    Seq<int>)
    requires
        rows_sorted(tb, order),
        all_below(order, i),
    ensures
        f::insert_call(called(tb, stop_index, order), f::call_at(tb, stop_index, i)) == called(
            tb,
            stop_index,
            out,
        ),
        rows_sorted(tb, out),
        out.len() == order.len() + 1,
        forall|j: int| out.contains(j) <==> order.contains(j) || j == i,
    decreases order.len(),
{
    let s = called(tb, stop_index, order);
    let x = f::call_at(tb, stop_index, i);
    lemma_sequence(tb, stop_index);
    assert(x.0 == sequence(tb, i));
    if order.len() > 0 {
        assert(s.last().0 == sequence(tb, order.last()));
    }
    if order.len() == 0 || s.last().0 <= x.0 {
        let out = order.push(i);
        assert(called(tb, stop_index, out) =~= s.push(x));
        assert forall|p: int, q: int| 0 <= p < q < out.len() implies sequence(
            tb,
            #[trigger] out[p],
        ) < sequence(tb, #[trigger] out[q]) || (sequence(tb, out[p]) == sequence(tb, out[q])
            && out[p] < out[q]) by {
            if q == order.len() {
                let l = order.len() - 1;
                assert(s.last() == f::call_at(tb, stop_index, order[l]));
                assert(order[p] < i);
                if p < l {
                    assert(sequence(tb, order[p]) <= sequence(tb, order[l]));
                }
            }
        }
        lemma_push_has(order, i);
        out
    } else {
        let front = order.drop_last();
        let last = order.last();
        assert(s.drop_last() =~= called(tb, stop_index, front));
        let mid = lemma_insert(tb, stop_index, front, i);
        let out = mid.push(last);
        assert(called(tb, stop_index, out) =~= called(tb, stop_index, mid).push(s.last()));
        assert forall|p: int, q: int| 0 <= p < q < out.len() implies sequence(
            tb,
            #[trigger] out[p],
        ) < sequence(tb, #[trigger] out[q]) || (sequence(tb, out[p]) == sequence(tb, out[q])
            && out[p] < out[q]) by {
            if q == mid.len() {
                assert(mid.contains(mid[p]));
                if mid[p] != i {
                    assert(front.contains(mid[p]));
                    let r = choose|r: int| 0 <= r < front.len() && front[r] == mid[p];
                    assert(order[r] == mid[p] && order[order.len() - 1] == last);
                }
            }
        }
        lemma_push_has(mid, last);
        lemma_push_has(front, last);
        assert(front.push(last) =~= order);
        out
    }
}

proof fn lemma_sequence(tb: Table, stop_index: Map<Seq<char>, u32>)
    ensures
        forall|i: int| f::call_at(tb, stop_index, i).0 == #[trigger] sequence(tb, i),
{
    assert forall|i: int| f::call_at(tb, stop_index, i).0 == #[trigger] sequence(tb, i) by {
        t::lemma_decimal_within(tb.field(i, "stop_sequence"@), u32::MAX as int);
    }
}

proof fn lemma_push_has(s: Seq<int>, x: int)
    ensures
        forall|j: int| #[trigger] s.push(x).contains(j) <==> s.contains(j) || j == x,
{
    assert forall|j: int| #[trigger] s.push(x).contains(j) <==> s.contains(j) || j == x by {
        if s.contains(j) {
            let p = choose|p: int| 0 <= p < s.len() && s[p] == j;
            assert(s.push(x)[p] == j);
        }
        if s.push(x).contains(j) {
            let p = choose|p: int| 0 <= p < s.push(x).len() && s.push(x)[p] == j;
            if p < s.len() {
                assert(s[p] == j);
            }
        }
        assert(s.push(x)[s.len() as int] == x);
    }
}

proof fn lemma_sort(tb: Table, stop_index: Map<Seq<char>, u32>, rows: Seq<int>, n: int) -> (out: Seq<
    int,
>)
    requires
        0 <= n <= rows.len(),
        forall|p: int, q: int| 0 <= p < q < rows.len() ==> #[trigger] rows[p] < #[trigger] rows[q],
    ensures
        f::sort_calls(called(tb, stop_index, rows), n) == called(tb, stop_index, out),
        rows_sorted(tb, out),
        out.len() == n,
        forall|j: int| out.contains(j) <==> rows.take(n).contains(j),
    decreases n,
{
    if n == 0 {
        let out = Seq::<int>::empty();
        assert(f::sort_calls(called(tb, stop_index, rows), n) =~= called(tb, stop_index, out));
        out
    } else {
        let before = lemma_sort(tb, stop_index, rows, n - 1);
        let i = rows[n - 1];
        assert(all_below(before, i)) by {
            assert forall|p: int| 0 <= p < before.len() implies #[trigger] before[p] < i by {
                assert(before.contains(before[p]));
                assert(rows.take(n - 1).contains(before[p]));
            }
        }
        let out = lemma_insert(tb, stop_index, before, i);
        assert(rows.take(n) =~= rows.take(n - 1).push(i));
        lemma_push_has(rows.take(n - 1), i);
        out
    }
}

/// The stop times are those of some rows, in their order.
pub open spec fn times_shown(
    tb: Table,
    stop_index: Map<Seq<char>, u32>,
    order: Seq<int>,
    st: StopTimesView,
) -> bool {
    &&& st.stops.len() == order.len()
    &&& st.arrivals.len() == order.len()
    &&& st.departures.len() == order.len()
    &&& forall|p: int|
        0 <= p < order.len() ==> {
            let i = #[trigger] order[p];
            &&& st.stops[p] == stop_index[tb.field(i, "stop_id"@)]
            &&& st.arrivals[p] == f::time_in(tb.field(i, "arrival_time"@))
            &&& st.departures[p] == f::time_in(tb.field(i, "departure_time"@))
        }
}

/// A trip calls where the rows about it say: at the stop of each such row, in order of the sequence
/// numbers, with its arrival and its departure. A trip with no such row has no stop times.
pub proof fn stop_times_are_rows(
    tb: Table,
    trips: Seq<TripView>,
    trip_index: Map<Seq<char>, u32>,
    stop_index: Map<Seq<char>, u32>,
    n: int,
    trip: int,
)
    requires
        0 <= trip < n <= trips.len(),
        forall|k: int| trip < k < n ==> (#[trigger] trips[k]).id != trips[trip].id,
    ensures
        ({
            let times = f::stop_times_in(tb, trips, trip_index, stop_index, n);
            let id = trips[trip].id;
            let rows = tb.rows.len() as int;
            (exists|i: int|
                0 <= i < rows && #[trigger] about(tb, trip_index, stop_index, trip, i)) ==> {
                &&& times.contains_key(id)
                &&& exists|order: Seq<int>| #[trigger]
                    is_order(tb, trip_index, stop_index, trip, rows, order) && times_shown(
                        tb,
                        stop_index,
                        order,
                        times[id],
                    )
            }
        }),
    decreases n,
{
    let times = f::stop_times_in(tb, trips, trip_index, stop_index, n);
    let id = trips[trip].id;
    let rows = tb.rows.len() as int;
    let raw = f::calls_of(tb, trip_index, stop_index, n - 1, rows);
    if trip < n - 1 {
        assert(trips[n - 1].id != id);
        stop_times_are_rows(tb, trips, trip_index, stop_index, n - 1, trip);
    } else if exists|i: int| 0 <= i < rows && #[trigger] about(tb, trip_index, stop_index, trip, i) {
        let about_it = rows_about(tb, trip_index, stop_index, trip, rows);
        lemma_rows_about(tb, trip_index, stop_index, trip, rows);
        let i = choose|i: int|
            0 <= i < rows && #[trigger] about(tb, trip_index, stop_index, trip, i);
        assert(about_it.contains(i));
        let order = lemma_sort(tb, stop_index, about_it, about_it.len() as int);
        assert(about_it.take(about_it.len() as int) =~= about_it);
        assert forall|p: int| 0 <= p < order.len() implies 0 <= #[trigger] order[p] < rows && about(
            tb,
            trip_index,
            stop_index,
            trip,
            order[p],
        ) by {
            assert(order.contains(order[p]));
            assert(about_it.contains(order[p]));
        }
        assert(is_order(tb, trip_index, stop_index, trip, rows, order));
        assert(times[id] == f::times_of(called(tb, stop_index, order)));
        assert(times_shown(tb, stop_index, order, times[id]));
    }
}

/// Only trips that some row is about have stop times.
pub proof fn stop_times_have_rows(
    tb: Table,
    trips: Seq<TripView>,
    trip_index: Map<Seq<char>, u32>,
    stop_index: Map<Seq<char>, u32>,
    n: int,
    id: Seq<char>,
)
    requires
        0 <= n <= trips.len(),
        f::stop_times_in(tb, trips, trip_index, stop_index, n).contains_key(id),
    ensures
        exists|k: int, i: int|
            0 <= k < n && 0 <= i < tb.rows.len() && (#[trigger] trips[k]).id == id
                && #[trigger] about(tb, trip_index, stop_index, k, i),
    decreases n,
{
    if n > 0 {
        let rows = tb.rows.len() as int;
        let front = f::stop_times_in(tb, trips, trip_index, stop_index, n - 1);
        let raw = f::calls_of(tb, trip_index, stop_index, n - 1, rows);
        if raw.len() > 0 && trips[n - 1].id == id {
            lemma_rows_about(tb, trip_index, stop_index, n - 1, rows);
            let list = rows_about(tb, trip_index, stop_index, n - 1, rows);
            assert(about(tb, trip_index, stop_index, n - 1, list[0]));
            assert(trips[n - 1].id == id);
        } else {
            stop_times_have_rows(tb, trips, trip_index, stop_index, n - 1, id);
            let (k, i) = choose|k: int, i: int|
                0 <= k < n - 1 && 0 <= i < tb.rows.len() && (#[trigger] trips[k]).id == id
                    && #[trigger] about(tb, trip_index, stop_index, k, i);
            assert(trips[k].id == id && about(tb, trip_index, stop_index, k, i));
        }
    }
}

// ---------------------------------------------------------------------------
// Files
// ---------------------------------------------------------------------------

proof fn lemma_first_fault(outcomes: Seq<Result<Seq<Seq<char>>, Seq<char>>>, i: int)
    requires
        0 <= i,
    ensures
        match tab::first_fault(outcomes, i) {
            Some(k) => i <= k < outcomes.len() && outcomes[k] is Err && forall|j: int|
                i <= j < k ==> (#[trigger] outcomes[j]) is Ok,
            None => forall|j: int| i <= j < outcomes.len() ==> (#[trigger] outcomes[j]) is Ok,
        },
    decreases outcomes.len() - i,
{
    if i < outcomes.len() && outcomes[i] is Ok {
        lemma_first_fault(outcomes, i + 1);
    }
}

proof fn lemma_first_missing(headers: Seq<Seq<char>>, required: Seq<Seq<char>>, i: int)
    requires
        0 <= i,
    ensures
        match tab::first_missing(headers, required, i) {
            Some(c) => !headers.contains(c) && exists|k: int|
                i <= k < required.len() && #[trigger] required[k] == c,
            None => forall|k: int|
                i <= k < required.len() ==> headers.contains(#[trigger] required[k]),
        },
    decreases required.len() - i,
{
    if i < required.len() {
        lemma_position(headers, required[i], 0);
        if tab::position(headers, required[i], 0) is Some {
            assert(headers.contains(required[i]));
            lemma_first_missing(headers, required, i + 1);
        } else if headers.contains(required[i]) {
            let k = choose|k: int| 0 <= k < headers.len() && headers[k] == required[i];
            assert(headers[k] != required[i]);
        }
    }
}

/// A file whose records can all be read, and whose first one names all columns that are required,
/// is a table: the first record names the columns, and every other one is a row, in order. Else
/// what is wrong with the first record comes first, a column that is not there next, and then the
/// first row that cannot be read.
pub proof fn tables_are_records(
    outcomes: Seq<Result<Seq<Seq<char>>, Seq<char>>>,
    file: Seq<char>,
    required: Seq<Seq<char>>,
)
    requires
        outcomes.len() > 0,
    ensures
        match tab::table_of(outcomes, file, required) {
            Ok(tb) => {
                &&& outcomes[0] == Ok::<Seq<Seq<char>>, Seq<char>>(tb.headers)
                &&& tb.rows.len() == outcomes.len() - 1
                &&& forall|i: int|
                    0 <= i < tb.rows.len() ==> outcomes[i + 1] == Ok::<Seq<Seq<char>>, Seq<char>>(
                        #[trigger] tb.rows[i],
                    )
                &&& forall|k: int|
                    0 <= k < required.len() ==> tb.headers.contains(#[trigger] required[k])
            },
            Err(Fault::Headers { file: named, cause }) => named == file && outcomes[0] == Err::<
                Seq<Seq<char>>,
                Seq<char>,
            >(cause),
            Err(Fault::MissingColumn { file: named, column }) => named == file && outcomes[0] is Ok
                && required.contains(column) && !outcomes[0]->Ok_0.contains(column),
            Err(Fault::Row { file: named, row, cause }) => {
                &&& named == file
                &&& 0 <= row < outcomes.len() - 1
                &&& outcomes[row + 1] == Err::<Seq<Seq<char>>, Seq<char>>(cause)
                &&& forall|j: int| 0 <= j <= row ==> (#[trigger] outcomes[j]) is Ok
                &&& forall|k: int|
                    0 <= k < required.len() ==> outcomes[0]->Ok_0.contains(#[trigger] required[k])
            },
            Err(_) => false,
        },
{
    lemma_first_fault(outcomes, 1);
    if outcomes[0] is Ok {
        lemma_first_missing(outcomes[0]->Ok_0, required, 0);
    }
}

/// A mark of the byte order in front of a file does not count.
pub proof fn marks_do_not_count(bytes: Seq<u8>)
    ensures
        tab::without_bom(seq![0xefu8, 0xbb, 0xbf] + bytes) == bytes,
        bytes.len() == 0 || bytes[0] != 0xef ==> tab::without_bom(bytes) == bytes,
{
    let marked = seq![0xefu8, 0xbb, 0xbf] + bytes;
    assert(marked[0] == 0xef && marked[1] == 0xbb && marked[2] == 0xbf);
    assert(marked.skip(3) =~= bytes);
}

/// The table is what a file holds: nothing if there is no such file.
pub open spec fn is_file(
    files: Map<Seq<char>, Result<Seq<u8>, Seq<char>>>,
    name: Seq<char>,
    required: Seq<Seq<char>>,
    tb: Table,
) -> bool {
    if files.contains_key(name) {
        &&& files[name] is Ok
        &&& tab::table_of(
            tab::csv_outcomes(tab::without_bom(files[name]->Ok_0)),
            name,
            required,
        ) == Ok::<Table, Fault>(tb)
    } else {
        tb.headers.len() == 0 && tb.rows.len() == 0
    }
}

/// Every table of a feed is what the file of its name holds. Only the stop times must have certain
/// columns.
pub proof fn tables_come_from_their_files(
    files: Map<Seq<char>, Result<Seq<u8>, Seq<char>>>,
)
    ensures
        g::tables_in(files) is Ok ==> {
            let tb = g::tables_in(files)->Ok_0;
            let none = Seq::<Seq<char>>::empty();
            &&& is_file(files, "agency.txt"@, none, tb.agency)
            &&& is_file(files, "stops.txt"@, none, tb.stops)
            &&& is_file(files, "routes.txt"@, none, tb.routes)
            &&& is_file(files, "trips.txt"@, none, tb.trips)
            &&& is_file(files, "stop_times.txt"@, seq!["trip_id"@, "stop_id"@], tb.stop_times)
            &&& is_file(files, "calendar.txt"@, none, tb.calendar)
            &&& is_file(files, "calendar_dates.txt"@, none, tb.calendar_dates)
            &&& is_file(files, "pathways.txt"@, none, tb.pathways)
            &&& is_file(files, "transfers.txt"@, none, tb.transfers)
            &&& is_file(files, "frequencies.txt"@, none, tb.frequencies)
            &&& is_file(files, "fare_attributes.txt"@, none, tb.fare_attributes)
            &&& is_file(files, "fare_rules.txt"@, none, tb.fare_rules)
        },
{
}

/// A feed holds what its tables say: each list is made of the rows of its own table.
pub proof fn feeds_hold_their_tables(tb: Tables)
    ensures
        ({
            let x = f::plain_feed(tb);
            &&& x.agencies == f::agencies_in(tb.agency)
            &&& x.stops == f::stops_in(tb.stops, tb.stops.rows.len() as int)
            &&& x.routes == f::routes_in(tb.routes, tb.routes.rows.len() as int)
            &&& x.trips == f::trips_in(tb.trips, x.route_index, tb.trips.rows.len() as int)
            &&& x.stop_times == f::stop_times_in(
                tb.stop_times,
                x.trips,
                x.trip_index,
                x.stop_index,
                x.trips.len() as int,
            )
            &&& x.pathways == f::pathways_in(tb.pathways, tb.pathways.rows.len() as int)
            &&& x.links == f::links_in(tb.transfers, tb.transfers.rows.len() as int)
            &&& x.fares == f::fares_in(tb.fare_attributes, tb.fare_attributes.rows.len() as int)
            &&& x.fare_uses == f::fare_uses_in(tb.fare_rules, tb.fare_rules.rows.len() as int)
            &&& f::feed_in(tb) == f::expanded(
                x,
                f::frequencies_in(
                    tb.frequencies,
                    x.trip_index,
                    tb.frequencies.rows.len() as int,
                ),
            )
        }),
{
}

/// Stops, routes and trips are found by their ids.
pub proof fn ids_lead_to_their_rows(tb: Tables, k: int)
    requires
        tb.stops.rows.len() <= u32::MAX,
        tb.routes.rows.len() <= u32::MAX,
        tb.trips.rows.len() <= u32::MAX,
    ensures
        ({
            let x = f::plain_feed(tb);
            &&& 0 <= k < x.stops.len() ==> x.stop_index.contains_key(x.stops[k].id)
                && x.stop_index[x.stops[k].id] < x.stops.len()
                && x.stops[x.stop_index[x.stops[k].id] as int].id == x.stops[k].id
            &&& 0 <= k < x.routes.len() ==> x.route_index.contains_key(x.routes[k].id)
                && x.route_index[x.routes[k].id] < x.routes.len()
                && x.routes[x.route_index[x.routes[k].id] as int].id == x.routes[k].id
            &&& 0 <= k < x.trips.len() ==> x.trip_index.contains_key(x.trips[k].id)
                && x.trip_index[x.trips[k].id] < x.trips.len()
                && x.trips[x.trip_index[x.trips[k].id] as int].id == x.trips[k].id
        }),
{
    let x = f::plain_feed(tb);
    lemma_within(tb);
    if 0 <= k < x.stops.len() {
        indexes_find_the_last(f::stop_ids(x.stops), k);
    }
    if 0 <= k < x.routes.len() {
        indexes_find_the_last(f::route_ids(x.routes), k);
    }
    if 0 <= k < x.trips.len() {
        indexes_find_the_last(f::trip_ids(x.trips), k);
    }
}

proof fn lemma_within(tb: Tables)
    ensures
        f::plain_feed(tb).stops.len() <= tb.stops.rows.len(),
        f::plain_feed(tb).routes.len() <= tb.routes.rows.len(),
        f::plain_feed(tb).trips.len() <= tb.trips.rows.len(),
{
    let x = f::plain_feed(tb);
    lemma_stops_counted(tb.stops, tb.stops.rows.len() as int);
    lemma_routes_counted(tb.routes, tb.routes.rows.len() as int);
    lemma_trips_counted(tb.trips, x.route_index, tb.trips.rows.len() as int);
    lemma_at_most(
        |i: int| tb.stops.field(i, "stop_id"@).len() > 0,
        tb.stops.rows.len() as int,
    );
    lemma_at_most(
        |i: int| tb.routes.field(i, "route_id"@).len() > 0,
        tb.routes.rows.len() as int,
    );
    lemma_at_most(
        |i: int|
            tb.trips.field(i, "trip_id"@).len() > 0 && x.route_index.contains_key(
                tb.trips.field(i, "route_id"@),
            ),
        tb.trips.rows.len() as int,
    );
}

proof fn lemma_at_most(counts: spec_fn(int) -> bool, n: int)
    requires
        0 <= n,
    ensures
        counted(counts, n) <= n,
    decreases n,
{
    if n > 0 {
        lemma_at_most(counts, n - 1);
    }
}

} // verus!
