//! Which journeys an answer holds.

use crate::data::{TransitData, Trip};
use crate::raptor::{Parent, RaptorQuery};
use crate::raptor_laws as laws;
use crate::raptor_model as m;
use crate::raptor_model::{JourneyView, OnBoard, Round};
use vstd::prelude::*;

verus! {

/// A trip runs on a day if the calendar of its service has the bit of that day.
pub proof fn trips_run_on_service_days(data: TransitData, trip: Trip, day: int)
    ensures
        m::trip_runs(data, trip, day) <==> trip.service_idx != 0xffff_ffff && ({
            let s = data.services@[trip.service_idx as int];
            let n = day - s.start_date;
            n >= 0 && n / 8 < s.day_bits@.len() && (s.day_bits@[n / 8] >> ((n % 8) as u8)) & 1 == 1
        }),
{
}

/// The times of a route stand one trip after the other, and those of a trip one stop after the
/// other.
pub proof fn times_stand_by_trip_and_stop(data: TransitData, r: int, t: int, pos: int)
    ensures
        ({
            let route = data.routes@[r];
            let at = route.stop_times_offset + t * route.stop_idxs@.len() + pos;
            &&& m::departure(data, r, t, pos) == data.departures@[at]
            &&& m::arrival(data, r, t, pos) == data.arrivals@[at]
            &&& m::trip_of(data, r, t) == data.trips@[route.trip_idxs@[t] as int]
        }),
{
}

/// A time that is moved is later by as many seconds, as long as it is a time of its own. A time that
/// is not known stays so.
pub proof fn moved_times_stay_times(time: u32, delta: int)
    ensures
        time == 0xffff_ffff ==> m::shifted(time, delta) == 0xffff_ffff,
        time != 0xffff_ffff && 0 <= time + delta < 0xffff_ffff ==> m::shifted(time, delta) == time
            + delta,
        time != 0xffff_ffff && !(0 <= time + delta < 0xffff_ffff) ==> m::shifted(time, delta)
            == 0xffff_ffff,
{
}

/// A route may be boarded wherever it calls at a stop that was reached and that lists it. The scan
/// begins at the first such position.
pub proof fn routes_are_boarded_where_reached(
    data: TransitData,
    prev: Seq<u32>,
    r: int,
    from: int,
    p: int,
)
    requires
        0 <= from <= p < data.routes@[r].stop_idxs@.len(),
    ensures
        ({
            let s = data.routes@[r].stop_idxs@[p] as int;
            prev[s] != 0xffff_ffff && data.stops@[s].route_idxs@.contains(r as u32)
                ==> m::first_marked(data, prev, r, from) is Some && m::first_marked(
                data,
                prev,
                r,
                from,
            )->0 <= p
        }),
    decreases p - from,
{
    if from < p {
        routes_are_boarded_where_reached(data, prev, r, from + 1, p);
    }
}

/// A journey of the answer leaves no earlier and arrives no later.
pub open spec fn matched(s: Seq<JourneyView>, j: JourneyView) -> bool {
    exists|i: int|
        0 <= i < s.len() && (#[trigger] s[i]).departure_time >= j.departure_time
            && s[i].arrival_time <= j.arrival_time
}

proof fn lemma_matched(s: Seq<JourneyView>, i: int)
    requires
        0 <= i < s.len(),
    ensures
        matched(m::undominated(s), s[i]),
    decreases s.len(),
{
    let kept = m::undominated(s.drop_last());
    let out = m::undominated(s);
    if i < s.len() - 1 {
        lemma_matched(s.drop_last(), i);
        assert(s.drop_last()[i] == s[i]);
        let q = choose|q: int|
            0 <= q < kept.len() && (#[trigger] kept[q]).departure_time >= s[i].departure_time
                && kept[q].arrival_time <= s[i].arrival_time;
        assert(out[q] == kept[q]);
    } else if m::dominated(kept, s.last()) {
        let q = choose|q: int| 0 <= q < kept.len() && m::dominates(#[trigger] kept[q], s.last());
        assert(out[q] == kept[q]);
    } else {
        assert(out[kept.len() as int] == s[i]);
    }
}

/// Every journey found is matched by one of the answer that leaves no earlier and arrives no later,
/// unless there is no more room: then all those of the answer arrive before it. No two journeys of
/// the answer match each other.
pub proof fn answers_match_what_was_found(data: TransitData, query: RaptorQuery, i: int)
    requires
        0 <= i < m::found_journeys(data, query).len(),
    ensures
        ({
            let all = m::answer(data, query);
            let j = m::found_journeys(data, query)[i];
            ||| matched(all, j)
            ||| all.len() == query.max_results && forall|k: int|
                0 <= k < all.len() ==> (#[trigger] all[k]).arrival_time < j.arrival_time
        }),
        ({
            let all = m::answer(data, query);
            forall|a: int, b: int|
                0 <= a < b < all.len() ==> (#[trigger] all[a]).arrival_time < (
                #[trigger] all[b]).arrival_time && all[a].departure_time < all[b].departure_time
        }),
{
    let found = m::found_journeys(data, query);
    let kept = m::undominated(found);
    let all = m::answer(data, query);
    laws::answer_is_pareto_ordered(data, query);
    laws::lemma_all_sorted(
        data,
        query,
        m::query_rounds(data, query),
        query.dest_stops@.len() as int,
    );
    laws::lemma_undominated_staggered(found);
    lemma_matched(found, i);
    let j = found[i];
    let q = choose|q: int|
        0 <= q < kept.len() && (#[trigger] kept[q]).departure_time >= j.departure_time
            && kept[q].arrival_time <= j.arrival_time;
    if q < all.len() {
        assert(all[q] == kept[q]);
    } else {
        assert forall|k: int| 0 <= k < all.len() implies (#[trigger] all[k]).arrival_time
            < j.arrival_time by {
            assert(all[k] == kept[k]);
            assert(kept[k].arrival_time < kept[q].arrival_time);
        }
    }
}

/// The journey takes these legs to the `d`-th destination stop, where it is at `at`.
pub open spec fn goes_to(query: RaptorQuery, j: JourneyView, d: int, at: int) -> bool {
    &&& j.egress_stop_idx == query.dest_stops@[d].0
    &&& j.egress_walk_secs == query.dest_stops@[d].1
    &&& if at + query.dest_stops@[d].1 < 0xffff_ffff {
        j.arrival_time == at + query.dest_stops@[d].1
    } else {
        j.arrival_time == 0xffff_ffff
    }
}

proof fn lemma_inserted(s: Seq<JourneyView>, j: JourneyView)
    ensures
        m::insert_by_arrival(s, j).contains(j),
        forall|x: JourneyView| s.contains(x) ==> #[trigger] m::insert_by_arrival(s, j).contains(x),
    decreases s.len(),
{
    let out = m::insert_by_arrival(s, j);
    if s.len() == 0 || m::in_order(s.last(), j) {
        assert(out[s.len() as int] == j);
        assert forall|x: JourneyView| s.contains(x) implies #[trigger] out.contains(x) by {
            let i = choose|i: int| 0 <= i < s.len() && s[i] == x;
            assert(out[i] == x);
        }
    } else {
        let front = s.drop_last();
        lemma_inserted(front, j);
        let inner = m::insert_by_arrival(front, j);
        let q = choose|q: int| 0 <= q < inner.len() && inner[q] == j;
        assert(out[q] == j);
        assert forall|x: JourneyView| s.contains(x) implies #[trigger] out.contains(x) by {
            let i = choose|i: int| 0 <= i < s.len() && s[i] == x;
            if i < front.len() {
                assert(front[i] == x);
                assert(inner.contains(x));
                let q = choose|q: int| 0 <= q < inner.len() && inner[q] == x;
                assert(out[q] == x);
            } else {
                assert(out[inner.len() as int] == x);
            }
        }
    }
}

proof fn lemma_dest_holds(
    data: TransitData,
    query: RaptorQuery,
    rs: Seq<Round>,
    dest: (u32, u32),
    n: int,
    found: Seq<JourneyView>,
    k: int,
)
    ensures
        forall|x: JourneyView|
            found.contains(x) ==> #[trigger] m::dest_journeys(
                data,
                query,
                rs,
                dest,
                n,
                found,
            ).contains(x),
        1 <= k < n && m::legs_to(data, rs, k, dest).len() > 0 ==> m::dest_journeys(
            data,
            query,
            rs,
            dest,
            n,
            found,
        ).contains(
            m::journey_of(
                data,
                query,
                m::legs_to(data, rs, k, dest),
                rs[k].arr[dest.0 as int],
                dest,
            ),
        ),
    decreases n,
{
    if n > 1 {
        lemma_dest_holds(data, query, rs, dest, n - 1, found, k);
        let legs = m::legs_to(data, rs, n - 1, dest);
        if legs.len() > 0 {
            lemma_inserted(
                m::dest_journeys(data, query, rs, dest, n - 1, found),
                m::journey_of(data, query, legs, rs[n - 1].arr[dest.0 as int], dest),
            );
        }
        assert forall|x: JourneyView| found.contains(x) implies #[trigger] m::dest_journeys(
            data,
            query,
            rs,
            dest,
            n,
            found,
        ).contains(x) by {
            assert(m::dest_journeys(data, query, rs, dest, n - 1, found).contains(x));
        }
    }
}

proof fn lemma_all_holds(
    data: TransitData,
    query: RaptorQuery,
    rs: Seq<Round>,
    n: int,
    d: int,
    k: int,
)
    requires
        0 <= d < n,
        1 <= k < rs.len(),
        m::legs_to(data, rs, k, query.dest_stops@[d]).len() > 0,
    ensures
        m::all_journeys(data, query, rs, n).contains(
            m::journey_of(
                data,
                query,
                m::legs_to(data, rs, k, query.dest_stops@[d]),
                rs[k].arr[query.dest_stops@[d].0 as int],
                query.dest_stops@[d],
            ),
        ),
    decreases n,
{
    let before = m::all_journeys(data, query, rs, n - 1);
    lemma_dest_holds(data, query, rs, query.dest_stops@[n - 1], rs.len() as int, before, k);
    if d < n - 1 {
        lemma_all_holds(data, query, rs, n - 1, d, k);
    }
}

/// Every destination stop that some round reaches by riding is answered: a journey to it, with the
/// walk from there, is found.
pub proof fn reached_stops_are_answered(data: TransitData, query: RaptorQuery, k: int, d: int)
    requires
        1 <= k < m::query_rounds(data, query).len(),
        0 <= d < query.dest_stops@.len(),
        m::query_rounds(data, query)[k].arr[query.dest_stops@[d].0 as int] != 0xffff_ffff,
        m::trace(
            data,
            m::query_rounds(data, query),
            k,
            query.dest_stops@[d].0 as int,
            data.stops@.len(),
        ).len() > 0,
    ensures
        exists|i: int|
            0 <= i < m::found_journeys(data, query).len() && goes_to(
                query,
                #[trigger] m::found_journeys(data, query)[i],
                d,
                m::query_rounds(data, query)[k].arr[query.dest_stops@[d].0 as int] as int,
            ),
{
    let rs = m::query_rounds(data, query);
    lemma_all_holds(data, query, rs, query.dest_stops@.len() as int, d, k);
    let all = m::found_journeys(data, query);
    let j = m::journey_of(
        data,
        query,
        m::legs_to(data, rs, k, query.dest_stops@[d]),
        rs[k].arr[query.dest_stops@[d].0 as int],
        query.dest_stops@[d],
    );
    let i = choose|i: int| 0 <= i < all.len() && all[i] == j;
    assert(goes_to(query, all[i], d, rs[k].arr[query.dest_stops@[d].0 as int] as int));
}

// ---------------------------------------------------------------------------
// Ties
// ---------------------------------------------------------------------------

/// An arrival counts only if it is earlier than all before it at that stop. Then it is the best one,
/// with how it came about. Other stops do not change.
pub proof fn only_earlier_arrivals_count(
    st: Round,
    stop: int,
    time: u32,
    parent: Parent,
    other: int,
)
    requires
        0 <= stop < st.best.len(),
        st.arr.len() == st.best.len(),
        st.par.len() == st.best.len(),
    ensures
        ({
            let r = m::improve(st, stop, time, parent);
            &&& time >= st.best[stop] ==> r == st
            &&& time < st.best[stop] ==> r.best[stop] == time && r.arr[stop] == time
                && r.par[stop] == parent
            &&& 0 <= other < st.best.len() && other != stop ==> r.best[other] == st.best[other]
                && r.arr[other] == st.arr[other] && r.par[other] == st.par[other]
            &&& r.best.len() == st.best.len()
            &&& r.arr.len() == st.arr.len()
            &&& r.par.len() == st.par.len()
        }),
{
}

/// Who is on board stays there unless a trip that can be boarded leaves the stop earlier. That trip
/// is then boarded at the stop, when it leaves.
pub proof fn nobody_changes_for_nothing(
    data: TransitData,
    day: int,
    prev: Seq<u32>,
    r: int,
    pos: int,
    ride: Option<OnBoard>,
)
    requires
        0 <= pos <= u32::MAX,
    ensures
        ({
            let at = prev[data.routes@[r].stop_idxs@[pos] as int];
            let next = m::board(data, day, prev, r, pos, ride);
            let found = m::boarding(data, r, pos, at, day);
            &&& at == 0xffff_ffff || found is None ==> next == ride
            &&& at != 0xffff_ffff && found is Some && ride is Some && m::shifted(
                m::departure(data, r, (ride->0).trip_num as int, pos),
                (ride->0).freq_delta as int,
            ) <= (found->0).time ==> next == ride
            &&& at != 0xffff_ffff && found is Some && (ride is None || m::shifted(
                m::departure(data, r, (ride->0).trip_num as int, pos),
                (ride->0).freq_delta as int,
            ) > (found->0).time) ==> {
                &&& next is Some
                &&& (next->0).trip_num == (found->0).trip_num
                &&& (next->0).freq_delta == (found->0).freq_delta
                &&& (next->0).board_time == (found->0).time
                &&& (next->0).board_pos == pos
            }
        }),
{
}

/// A journey is listed before another: it arrives earlier, or at the same time and leaves no
/// earlier.
pub open spec fn precedes(a: JourneyView, b: JourneyView) -> bool {
    a.arrival_time < b.arrival_time || (a.arrival_time == b.arrival_time && a.departure_time
        >= b.departure_time)
}

/// A journey that is found is put behind all that may stand before it, and before all others.
pub proof fn journeys_are_put_in_order(s: Seq<JourneyView>, j: JourneyView) -> (p: int)
    requires
        forall|a: int, b: int|
            0 <= a <= b < s.len() ==> precedes(#[trigger] s[a], #[trigger] s[b]),
    ensures
        0 <= p <= s.len(),
        m::insert_by_arrival(s, j) == s.take(p) + seq![j] + s.skip(p),
        forall|a: int| 0 <= a < p ==> precedes(#[trigger] s[a], j),
        forall|b: int| p <= b < s.len() ==> !precedes(#[trigger] s[b], j),
    decreases s.len(),
{
    let n = s.len() as int;
    let out = m::insert_by_arrival(s, j);
    if n == 0 || m::in_order(s.last(), j) {
        assert(out =~= s.take(n) + seq![j] + s.skip(n));
        assert forall|a: int| 0 <= a < n implies precedes(#[trigger] s[a], j) by {
            assert(precedes(s[a], s[n - 1]));
        }
        n
    } else {
        let front = s.drop_last();
        assert forall|a: int, b: int| 0 <= a <= b < front.len() implies precedes(
            #[trigger] front[a],
            #[trigger] front[b],
        ) by {
            assert(precedes(s[a], s[b]));
        }
        let p = journeys_are_put_in_order(front, j);
        assert(out =~= s.take(p) + seq![j] + s.skip(p));
        assert forall|a: int| 0 <= a < p implies precedes(#[trigger] s[a], j) by {
            assert(front[a] == s[a]);
        }
        assert forall|b: int| p <= b < s.len() implies !precedes(#[trigger] s[b], j) by {
            if b < front.len() {
                assert(front[b] == s[b]);
            }
        }
        p
    }
}

} // verus!
