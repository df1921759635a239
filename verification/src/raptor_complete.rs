//! What the search does not miss.

use crate::data::{TransitData, NOT_SET};
use crate::raptor::{Parent, RaptorLeg, RaptorQuery};
use crate::raptor_laws as laws;
use crate::raptor_model as m;
use crate::raptor_model::{JourneyView, OnBoard, Round};
use crate::raptor_sound as sound;
use vstd::prelude::*;

verus! {

// ---------------------------------------------------------------------------
// Arrivals only get earlier
// ---------------------------------------------------------------------------

/// At stop `u`, the later state knows an arrival no later, and one of this round if there was one.
spec fn keeps(before: Round, after: Round, u: int) -> bool {
    &&& after.best[u] <= before.best[u]
    &&& before.arr[u] != NOT_SET ==> after.arr[u] != NOT_SET
}

proof fn lemma_scan_keeps(
    data: TransitData,
    day: int,
    prev: Seq<u32>,
    before: Seq<u32>,
    r: int,
    from: int,
    to: int,
    st: Round,
    u: int,
)
    requires
        data.wf(),
        0 <= r < data.routes@.len(),
        0 <= from,
        to <= data.routes@[r].stop_idxs@.len(),
        before.len() == data.stops@.len(),
        sound::sized(data, st),
        sound::beats(st, before),
        0 <= u < data.stops@.len(),
    ensures
        keeps(st, m::scan(data, day, prev, r, from, to, st).st, u),
    decreases to - from,
{
    if to > from {
        lemma_scan_keeps(data, day, prev, before, r, from, to - 1, st, u);
        assert(data.route_ok(data.routes@[r]));
        assert(data.routes@[r].stop_idxs@[to - 1] < data.stops@.len());
        sound::lemma_scan_beats(data, day, prev, before, r, from, to - 1, st);
    }
}

/// Scanning more routes.
proof fn lemma_scan_routes_keeps(
    data: TransitData,
    day: int,
    prev: Seq<u32>,
    before: Seq<u32>,
    a: int,
    n: int,
    st: Round,
    u: int,
)
    requires
        data.wf(),
        0 <= a <= n <= data.routes@.len(),
        before.len() == data.stops@.len(),
        sound::sized(data, st),
        sound::beats(st, before),
        0 <= u < data.stops@.len(),
    ensures
        keeps(m::scan_routes(data, day, prev, a, st), m::scan_routes(data, day, prev, n, st), u),
    decreases n - a,
{
    if a < n {
        lemma_scan_routes_keeps(data, day, prev, before, a, n - 1, st, u);
        let mid = m::scan_routes(data, day, prev, n - 1, st);
        sound::lemma_scan_routes_beats(data, day, prev, before, n - 1, st);
        sound::lemma_first_marked(data, prev, n - 1, 0);
        match m::first_marked(data, prev, n - 1, 0) {
            Some(p) => lemma_scan_keeps(
                data,
                day,
                prev,
                before,
                n - 1,
                p,
                data.routes@[n - 1].stop_idxs@.len() as int,
                mid,
                u,
            ),
            None => {},
        }
    }
}

/// Taking more footpaths from a stop.
proof fn lemma_walk_from_keeps(
    data: TransitData,
    before: Seq<u32>,
    s: int,
    a: int,
    n: int,
    st: Round,
    u: int,
)
    requires
        data.wf(),
        0 <= s < data.stops@.len(),
        0 <= a <= n <= data.stops@[s].num_transfers,
        before.len() == data.stops@.len(),
        sound::sized(data, st),
        sound::beats(st, before),
        0 <= u < data.stops@.len(),
    ensures
        keeps(m::walk_from(data, s, a, st), m::walk_from(data, s, n, st), u),
    decreases n - a,
{
    if a < n {
        lemma_walk_from_keeps(data, before, s, a, n - 1, st, u);
        assert(data.stop_ok(data.stops@[s]));
        sound::lemma_walk_from_beats(data, before, s, n - 1, st);
    }
}

/// Walking on from more stops.
proof fn lemma_walks_keeps(
    data: TransitData,
    before: Seq<u32>,
    a: int,
    n: int,
    st: Round,
    u: int,
)
    requires
        data.wf(),
        0 <= a <= n <= data.stops@.len(),
        before.len() == data.stops@.len(),
        sound::sized(data, st),
        sound::beats(st, before),
        0 <= u < data.stops@.len(),
    ensures
        keeps(m::walks(data, a, st), m::walks(data, n, st), u),
    decreases n - a,
{
    if a < n {
        lemma_walks_keeps(data, before, a, n - 1, st, u);
        let mid = m::walks(data, n - 1, st);
        sound::lemma_walks_beats(data, before, n - 1, st);
        if mid.arr[n - 1] != NOT_SET {
            let count = data.stops@[n - 1].num_transfers as int;
            lemma_walk_from_keeps(data, before, n - 1, 0, count, mid, u);
        }
    }
}

// ---------------------------------------------------------------------------
// Rides
// ---------------------------------------------------------------------------

/// The trips of a route that run on the day never overtake one another: of two that leave a stop,
/// the one that leaves no later arrives no later anywhere after it.
pub open spec fn never_overtake(data: TransitData, r: int, day: int) -> bool {
    forall|p: int, q: int, t1: int, d1: int, x: int, t2: int, d2: int, y: int|
        0 <= p < q < data.routes@[r].stop_idxs@.len() && x <= y && #[trigger] laws::leaves_at(
            data,
            r,
            p,
            day,
            t1,
            d1,
            x,
        ) && #[trigger] laws::leaves_at(data, r, p, day, t2, d2, y) ==> m::shifted(
            #[trigger] m::arrival(data, r, t1, q),
            d1,
        ) <= m::shifted(m::arrival(data, r, t2, q), d2)
}

/// What is on board was boarded at a position passed, when it left there.
proof fn lemma_on_board(
    data: TransitData,
    day: int,
    prev: Seq<u32>,
    r: int,
    from: int,
    to: int,
    st: Round,
)
    requires
        0 <= from,
        to <= u32::MAX,
    ensures
        m::scan(data, day, prev, r, from, to, st).ride matches Some(rd) ==> {
            &&& from <= rd.board_pos < to
            &&& laws::leaves_at(
                data,
                r,
                rd.board_pos as int,
                day,
                rd.trip_num as int,
                rd.freq_delta as int,
                rd.board_time as int,
            )
        },
    decreases to - from,
{
    if to > from {
        lemma_on_board(data, day, prev, r, from, to - 1, st);
        let at = prev[sound::stop_at(data, r, to - 1)];
        laws::boarding_leaves_in_time(data, r, to - 1, at, day);
    }
}

/// Of two trips that run, the one that leaves a position no later is everywhere after it no later.
proof fn lemma_no_later(
    data: TransitData,
    r: int,
    day: int,
    pos: int,
    q: int,
    a: OnBoard,
    t: int,
    delta: int,
    time: int,
)
    requires
        sound::times_in_order(data),
        0 <= r < data.routes@.len(),
        never_overtake(data, r, day),
        0 <= pos < q < data.routes@[r].stop_idxs@.len(),
        laws::leaves_at(
            data,
            r,
            a.board_pos as int,
            day,
            a.trip_num as int,
            a.freq_delta as int,
            a.board_time as int,
        ),
        m::leaves_with(data, r, pos, a) <= time,
        m::departure(data, r, a.trip_num as int, pos) + a.freq_delta >= 0,
        laws::leaves_at(data, r, pos, day, t, delta, time),
        time < NOT_SET,
    ensures
        m::shifted(m::arrival(data, r, a.trip_num as int, q), a.freq_delta as int) <= m::shifted(
            m::arrival(data, r, t, q),
            delta,
        ),
{
    let dep = m::departure(data, r, a.trip_num as int, pos);
    assert(dep != NOT_SET);
    assert(laws::leaves_at(
        data,
        r,
        pos,
        day,
        a.trip_num as int,
        a.freq_delta as int,
        dep + a.freq_delta,
    ));
    assert(m::shifted(m::arrival(data, r, a.trip_num as int, q), a.freq_delta as int)
        <= m::shifted(m::arrival(data, r, t, q), delta));
}

/// A trip on board, moved as it is, does not leave a later position before it was boarded.
proof fn lemma_leaves_later(data: TransitData, r: int, day: int, rd: OnBoard, pos: int)
    requires
        sound::times_in_order(data),
        0 <= r < data.routes@.len(),
        rd.board_pos <= pos < data.routes@[r].stop_idxs@.len(),
        laws::leaves_at(
            data,
            r,
            rd.board_pos as int,
            day,
            rd.trip_num as int,
            rd.freq_delta as int,
            rd.board_time as int,
        ),
    ensures
        m::departure(data, r, rd.trip_num as int, pos) + rd.freq_delta >= 0,
{
    if rd.board_pos < pos {
        assert(m::departure(data, r, rd.trip_num as int, rd.board_pos as int) <= m::arrival(
            data,
            r,
            rd.trip_num as int,
            pos,
        ));
        assert(m::arrival(data, r, rd.trip_num as int, pos) <= m::departure(
            data,
            r,
            rd.trip_num as int,
            pos,
        ));
    }
}

/// What is on board after the scan of `from..to`, if the `t`-th trip could have been boarded at
/// `p`, gets everywhere no later than that trip.
proof fn lemma_keeps_up(
    data: TransitData,
    day: int,
    prev: Seq<u32>,
    before: Seq<u32>,
    r: int,
    from: int,
    p: int,
    to: int,
    st: Round,
    t: int,
    delta: int,
    time: int,
)
    requires
        data.wf(),
        sound::times_in_order(data),
        0 <= r < data.routes@.len(),
        laws::departures_ordered(data, r, p),
        never_overtake(data, r, day),
        0 <= from <= p < to <= data.routes@[r].stop_idxs@.len(),
        before.len() == data.stops@.len(),
        sound::sized(data, st),
        sound::beats(st, before),
        laws::leaves_at(data, r, p, day, t, delta, time),
        prev[sound::stop_at(data, r, p)] <= time < NOT_SET,
    ensures
        ({
            let sc = m::scan(data, day, prev, r, from, to, st);
            &&& sc.ride is Some
            &&& forall|q: int|
                to <= q < data.routes@[r].stop_idxs@.len() ==> m::shifted(
                    m::arrival(data, r, sc.ride->0.trip_num as int, q),
                    sc.ride->0.freq_delta as int,
                ) <= m::shifted(#[trigger] m::arrival(data, r, t, q), delta)
            &&& forall|q: int|
                p < q < to ==> sc.st.best[sound::stop_at(data, r, q)] <= m::shifted(
                    #[trigger] m::arrival(data, r, t, q),
                    delta,
                )
        }),
    decreases to - p,
{
    let len = data.routes@[r].stop_idxs@.len() as int;
    let pos = to - 1;
    let at = prev[sound::stop_at(data, r, pos)];
    let old_scan = m::scan(data, day, prev, r, from, pos, st);
    let sc = m::scan(data, day, prev, r, from, to, st);
    assert(sc.ride == m::board(data, day, prev, r, pos, old_scan.ride));
    assert(data.route_ok(data.routes@[r]));
    assert(data.routes@[r].stop_idxs@[pos] < data.stops@.len());
    laws::boarding_leaves_in_time(data, r, pos, at, day);
    lemma_on_board(data, day, prev, r, from, pos, st);
    lemma_on_board(data, day, prev, r, from, to, st);
    if old_scan.ride is Some {
        lemma_leaves_later(data, r, day, old_scan.ride->0, pos);
    }
    if p == pos {
        laws::boarding_is_earliest(data, r, p, at, day, t, delta, time);
        let rd = sc.ride->0;
        assert(m::leaves_with(data, r, pos, rd) <= time);
        lemma_leaves_later(data, r, day, rd, pos);
        assert forall|q: int| to <= q < len implies m::shifted(
            m::arrival(data, r, rd.trip_num as int, q),
            rd.freq_delta as int,
        ) <= m::shifted(#[trigger] m::arrival(data, r, t, q), delta) by {
            lemma_no_later(data, r, day, pos, q, rd, t, delta, time);
        }
    } else {
        lemma_keeps_up(data, day, prev, before, r, from, p, pos, st, t, delta, time);
        sound::lemma_scan_beats(data, day, prev, before, r, from, pos, st);
        let rd = old_scan.ride->0;
        sound::lemma_improve_basic(
            data,
            old_scan.st,
            before,
            sound::stop_at(data, r, pos),
            m::shifted(m::arrival(data, r, rd.trip_num as int, pos), rd.freq_delta as int),
            Parent::Ride {
                route_idx: r as u32,
                trip_num: rd.trip_num,
                board_pos: rd.board_pos,
                board_time: rd.board_time,
                freq_delta: rd.freq_delta,
            },
        );
        assert forall|q: int| p < q < to implies sc.st.best[sound::stop_at(data, r, q)]
            <= m::shifted(#[trigger] m::arrival(data, r, t, q), delta) by {
            assert(data.routes@[r].stop_idxs@[q] < data.stops@.len());
        }
        if sc.ride != old_scan.ride {
            let b = sc.ride->0;
            let dep = m::departure(data, r, rd.trip_num as int, pos);
            assert(b.board_time < m::leaves_with(data, r, pos, rd));
            assert forall|q: int| to <= q < len implies m::shifted(
                m::arrival(data, r, b.trip_num as int, q),
                b.freq_delta as int,
            ) <= m::shifted(#[trigger] m::arrival(data, r, t, q), delta) by {
                if dep == NOT_SET || dep + rd.freq_delta >= NOT_SET {
                    assert(m::departure(data, r, rd.trip_num as int, pos) <= m::arrival(
                        data,
                        r,
                        rd.trip_num as int,
                        q,
                    ));
                } else {
                    assert(laws::leaves_at(
                        data,
                        r,
                        pos,
                        day,
                        rd.trip_num as int,
                        rd.freq_delta as int,
                        dep + rd.freq_delta,
                    ));
                    lemma_leaves_later(data, r, day, b, pos);
                    lemma_no_later(
                        data,
                        r,
                        day,
                        pos,
                        q,
                        b,
                        rd.trip_num as int,
                        rd.freq_delta as int,
                        dep + rd.freq_delta,
                    );
                }
            }
        }
    }
}

/// Where the trips of a route never overtake one another, the next round gets to every later stop
/// no later than any trip that could be caught at a stop that this round reached.
pub proof fn rides_are_taken(
    data: TransitData,
    query: RaptorQuery,
    k: int,
    r: int,
    p: int,
    q: int,
    t: int,
    delta: int,
    time: int,
)
    requires
        data.wf(),
        query.wf(data),
        sound::times_in_order(data),
        0 <= k,
        k + 1 < m::query_rounds(data, query).len(),
        0 <= r < data.routes@.len(),
        laws::departures_ordered(data, r, p),
        never_overtake(data, r, query.service_day as int),
        0 <= p < q < data.routes@[r].stop_idxs@.len(),
        m::marked(data, m::query_rounds(data, query)[k].arr, r, p),
        laws::leaves_at(data, r, p, query.service_day as int, t, delta, time),
        m::query_rounds(data, query)[k].arr[sound::stop_at(data, r, p)] <= time < NOT_SET,
    ensures
        m::query_rounds(data, query)[k + 1].best[sound::stop_at(data, r, q)] <= m::shifted(
            m::arrival(data, r, t, q),
            delta,
        ),
{
    let rs = m::query_rounds(data, query);
    let day = query.service_day as int;
    let last = rs[k];
    let n = data.routes@.len() as int;
    let fresh = m::fresh_round(last.best);
    let u = sound::stop_at(data, r, q);
    sound::lemma_rounds(data, query, query.max_transfers + 1);
    sound::lemma_best(data, query, rs, k);
    assert(rs[k + 1] == m::next_round(data, day, last));
    lemma_first_marked_before(data, last.arr, r, 0, p);
    sound::lemma_first_marked(data, last.arr, r, 0);
    let from = m::first_marked(data, last.arr, r, 0)->0;
    assert(data.route_ok(data.routes@[r]));
    assert(data.routes@[r].stop_idxs@[q] < data.stops@.len());
    sound::lemma_scan_routes_beats(data, day, last.arr, last.best, r, fresh);
    let before_r = m::scan_routes(data, day, last.arr, r, fresh);
    let len = data.routes@[r].stop_idxs@.len() as int;
    lemma_keeps_up(
        data,
        day,
        last.arr,
        last.best,
        r,
        from,
        p,
        len,
        before_r,
        t,
        delta,
        time,
    );
    assert(m::scan_routes(data, day, last.arr, r + 1, fresh).best[u] <= m::shifted(
        m::arrival(data, r, t, q),
        delta,
    ));
    lemma_scan_routes_keeps(data, day, last.arr, last.best, r + 1, n, fresh, u);
    sound::lemma_scan_routes_beats(data, day, last.arr, last.best, n, fresh);
    let mid = m::scan_routes(data, day, last.arr, n, fresh);
    lemma_walks_keeps(data, last.best, 0, data.stops@.len() as int, mid, u);
}

/// A scan begins no later than at any position where it may.
proof fn lemma_first_marked_before(data: TransitData, prev: Seq<u32>, r: int, from: int, p: int)
    requires
        0 <= from <= p < data.routes@[r].stop_idxs@.len(),
        m::marked(data, prev, r, p),
    ensures
        m::first_marked(data, prev, r, from) is Some,
        m::first_marked(data, prev, r, from)->0 <= p,
    decreases p - from,
{
    if from < p && !m::marked(data, prev, r, from) {
        lemma_first_marked_before(data, prev, r, from + 1, p);
    }
}

// ---------------------------------------------------------------------------
// Footpaths
// ---------------------------------------------------------------------------

/// What the rides of the round after `last` reach, before anybody walks on.
pub open spec fn by_ride(data: TransitData, query: RaptorQuery, last: Round) -> Round {
    m::scan_routes(
        data,
        query.service_day as int,
        last.arr,
        data.routes@.len() as int,
        m::fresh_round(last.best),
    )
}

/// A round gets everywhere no later than by a ride of the round and one footpath.
pub proof fn footpaths_are_taken(
    data: TransitData,
    query: RaptorQuery,
    k: int,
    a: int,
    b: int,
    secs: int,
    i: int,
)
    requires
        data.wf(),
        query.wf(data),
        0 <= k,
        k + 1 < m::query_rounds(data, query).len(),
        0 <= a < data.stops@.len(),
        sound::footpath(data, a, b, secs, i),
        by_ride(data, query, m::query_rounds(data, query)[k]).arr[a] != NOT_SET,
    ensures
        m::query_rounds(data, query)[k + 1].best[b] <= m::stored_time(
            by_ride(data, query, m::query_rounds(data, query)[k]).arr[a] + secs,
        ),
{
    let rs = m::query_rounds(data, query);
    let day = query.service_day as int;
    let last = rs[k];
    let fresh = m::fresh_round(last.best);
    let n = data.stops@.len() as int;
    sound::lemma_rounds(data, query, query.max_transfers + 1);
    sound::lemma_best(data, query, rs, k);
    assert(rs[k + 1] == m::next_round(data, day, last));
    sound::lemma_scan_routes_beats(
        data,
        day,
        last.arr,
        last.best,
        data.routes@.len() as int,
        fresh,
    );
    let mid = by_ride(data, query, last);
    assert(data.stop_ok(data.stops@[a]));
    assert(0 <= b < data.stops@.len());
    // up to stop `a`
    lemma_walks_keeps(data, last.best, 0, a, mid, a);
    sound::lemma_walks_beats(data, last.best, a, mid);
    let there = m::walks(data, a, mid);
    assert(there.arr[a] <= mid.arr[a]) by {
        assert(there.best[a] <= last.best[a]);
        assert(mid.best[a] <= last.best[a]);
    }
    // its footpaths
    let count = data.stops@[a].num_transfers as int;
    lemma_walk_from_keeps(data, last.best, a, 0, i, there, a);
    sound::lemma_walk_from_beats(data, last.best, a, i, there);
    let so_far = m::walk_from(data, a, i, there);
    assert(so_far.arr[a] <= there.arr[a]) by {
        assert(so_far.best[a] <= last.best[a]);
        assert(there.best[a] <= last.best[a]);
    }
    assert(m::walk_from(data, a, i + 1, there).best[b] <= m::stored_time(mid.arr[a] + secs));
    lemma_walk_from_keeps(data, last.best, a, i + 1, count, there, b);
    // the other stops
    assert(m::walks(data, a + 1, mid) == m::walk_from(data, a, count, there));
    lemma_walks_keeps(data, last.best, a + 1, n, mid, b);
}

// ---------------------------------------------------------------------------
// Answers
// ---------------------------------------------------------------------------

proof fn lemma_insert_keeps(s: Seq<JourneyView>, j: JourneyView)
    ensures
        m::insert_by_arrival(s, j).contains(j),
        forall|x: JourneyView| #[trigger] s.contains(x) ==> m::insert_by_arrival(s, j).contains(x),
    decreases s.len(),
{
    let out = m::insert_by_arrival(s, j);
    if s.len() == 0 || m::in_order(s.last(), j) {
        assert(out[s.len() as int] == j);
        assert forall|x: JourneyView| #[trigger] s.contains(x) implies out.contains(x) by {
            let i = choose|i: int| 0 <= i < s.len() && s[i] == x;
            assert(out[i] == x);
        }
    } else {
        let front = s.drop_last();
        lemma_insert_keeps(front, j);
        let inner = m::insert_by_arrival(front, j);
        let at = choose|i: int| 0 <= i < inner.len() && inner[i] == j;
        assert(out[at] == j);
        assert forall|x: JourneyView| #[trigger] s.contains(x) implies out.contains(x) by {
            let i = choose|i: int| 0 <= i < s.len() && s[i] == x;
            if i == s.len() - 1 {
                assert(out[inner.len() as int] == x);
            } else {
                assert(front[i] == x);
                assert(front.contains(x));
                let p = choose|p: int| 0 <= p < inner.len() && inner[p] == x;
                assert(out[p] == x);
            }
        }
    }
}

/// What is found stays, and every round that gets to the stop adds its journey.
proof fn lemma_dest_keeps(
    data: TransitData,
    query: RaptorQuery,
    rs: Seq<Round>,
    dest: (u32, u32),
    n: int,
    found: Seq<JourneyView>,
)
    ensures
        forall|x: JourneyView| #[trigger]
            found.contains(x) ==> m::dest_journeys(data, query, rs, dest, n, found).contains(x),
        forall|k: int|
            1 <= k < n && (#[trigger] m::legs_to(data, rs, k, dest)).len() > 0
                ==> m::dest_journeys(data, query, rs, dest, n, found).contains(
                m::journey_of(
                    data,
                    query,
                    m::legs_to(data, rs, k, dest),
                    rs[k].arr[dest.0 as int],
                    dest,
                ),
            ),
    decreases n,
{
    if n > 1 {
        lemma_dest_keeps(data, query, rs, dest, n - 1, found);
        let before = m::dest_journeys(data, query, rs, dest, n - 1, found);
        let legs = m::legs_to(data, rs, n - 1, dest);
        if legs.len() > 0 {
            lemma_insert_keeps(
                before,
                m::journey_of(data, query, legs, rs[n - 1].arr[dest.0 as int], dest),
            );
        }
    }
}

proof fn lemma_all_kept(
    data: TransitData,
    query: RaptorQuery,
    rs: Seq<Round>,
    n: int,
    d: int,
    k: int,
)
    requires
        0 <= d < n <= query.dest_stops@.len(),
        1 <= k < rs.len(),
        m::legs_to(data, rs, k, query.dest_stops@[d]).len() > 0,
    ensures
        m::all_journeys(data, query, rs, n).contains(
            m::journey_of(
                data,
                query,
                m::legs_to(data, rs, k, query.dest_stops@[d]),
                rs[k].arr[query.dest_stops@[d].0 as int],
                query.dest_stops@[d],
            ),
        ),
    decreases n,
{
    if d < n - 1 {
        lemma_all_kept(data, query, rs, n - 1, d, k);
    }
    lemma_dest_keeps(
        data,
        query,
        rs,
        query.dest_stops@[n - 1],
        rs.len() as int,
        m::all_journeys(data, query, rs, n - 1),
    );
}

/// Whenever a ride gets to a destination stop, the first journey of the answer is at the
/// destination no later.
pub proof fn destinations_are_answered(data: TransitData, query: RaptorQuery, k: int, d: int)
    requires
        data.wf(),
        query.wf(data),
        sound::times_in_order(data),
        1 <= k < m::query_rounds(data, query).len(),
        0 <= d < query.dest_stops@.len(),
        m::query_rounds(data, query)[k].arr[query.dest_stops@[d].0 as int] != NOT_SET,
        query.max_results > 0,
    ensures
        m::answer(data, query).len() > 0,
        m::answer(data, query)[0].arrival_time <= m::stored_time(
            m::query_rounds(data, query)[k].arr[query.dest_stops@[d].0 as int]
                + query.dest_stops@[d].1,
        ),
{
    let rs = m::query_rounds(data, query);
    let dest = query.dest_stops@[d];
    sound::lemma_legs_found(data, query, k, dest.0 as int);
    lemma_all_kept(data, query, rs, query.dest_stops@.len() as int, d, k);
    let j = m::journey_of(
        data,
        query,
        m::legs_to(data, rs, k, dest),
        rs[k].arr[dest.0 as int],
        dest,
    );
    let found = m::found_journeys(data, query);
    assert(found.contains(j));
    let at = choose|i: int| 0 <= i < found.len() && found[i] == j;
    laws::answer_is_pareto_ordered(data, query);
    assert(m::answer(data, query)[0].arrival_time <= found[at].arrival_time);
}

// ---------------------------------------------------------------------------
// Chains of rides
// ---------------------------------------------------------------------------

/// Where two footpaths lead on from stop to stop, one leads there at once and takes no longer.
#[verifier::opaque]
pub open spec fn footpaths_closed(data: TransitData) -> bool {
    forall|a: int, b: int, c: int, x: int, y: int, i: int, j: int|
        0 <= a < data.stops@.len() && 0 <= b < data.stops@.len() && a != c
            && #[trigger] sound::footpath(data, a, b, x, i) && #[trigger] sound::footpath(
            data,
            b,
            c,
            y,
            j,
        ) ==> leads_within(data, a, c, x + y)
}

/// Some footpath leads from one stop to another within a time.
pub open spec fn leads_within(data: TransitData, a: int, b: int, secs: int) -> bool {
    exists|x: int, i: int| #[trigger] sound::footpath(data, a, b, x, i) && x <= secs
}

/// A stop is reached in a round by a ride, or from such a stop by one footpath.
spec fn well_reached(data: TransitData, mid: Round, cur: Round, u: int) -> bool {
    ||| mid.arr[u] != NOT_SET && cur.arr[u] == mid.arr[u]
    ||| exists|a: int| #[trigger] walked_from(data, mid, a, u, cur.arr[u] as int)
}

spec fn walked_from(data: TransitData, mid: Round, a: int, u: int, at: int) -> bool {
    &&& 0 <= a < data.stops@.len()
    &&& mid.arr[a] != NOT_SET
    &&& leads_within(data, a, u, at - mid.arr[a])
}

/// Instead of two footpaths one can be taken.
proof fn lemma_at_once(
    data: TransitData,
    a: int,
    b: int,
    c: int,
    within: int,
    secs: int,
    i: int,
) -> (r: (int, int))
    requires
        footpaths_closed(data),
        0 <= a < data.stops@.len(),
        0 <= b < data.stops@.len(),
        a != c,
        leads_within(data, a, b, within),
        sound::footpath(data, b, c, secs, i),
    ensures
        sound::footpath(data, a, c, r.0, r.1),
        r.0 <= within + secs,
{
    reveal(footpaths_closed);
    let (x, j) = choose|x: int, j: int| #[trigger] sound::footpath(data, a, b, x, j) && x <= within;
    assert(leads_within(data, a, c, x + secs));
    choose|y: int, l: int| #[trigger] sound::footpath(data, a, c, y, l) && y <= x + secs
}

proof fn lemma_walk_from_closed(
    data: TransitData,
    before: Seq<u32>,
    mid: Round,
    s: int,
    n: int,
    st: Round,
)
    requires
        data.wf(),
        footpaths_closed(data),
        0 <= s < data.stops@.len(),
        0 <= n <= data.stops@[s].num_transfers,
        before.len() == data.stops@.len(),
        sound::sized(data, st),
        sound::beats(st, before),
        st.arr[s] != NOT_SET,
        forall|u: int|
            0 <= u < data.stops@.len() && #[trigger] st.arr[u] != NOT_SET ==> well_reached(
                data,
                mid,
                st,
                u,
            ),
        forall|u: int|
            0 <= u < data.stops@.len() ==> #[trigger] st.best[u] <= mid.best[u],
        sound::sized(data, mid),
        sound::beats(mid, before),
    ensures
        forall|u: int|
            0 <= u < data.stops@.len() && #[trigger] m::walk_from(data, s, n, st).arr[u]
                != NOT_SET ==> well_reached(data, mid, m::walk_from(data, s, n, st), u),
    decreases n,
{
    if n > 0 {
        lemma_walk_from_closed(data, before, mid, s, n - 1, st);
        let cur = m::walk_from(data, s, n - 1, st);
        let out = m::walk_from(data, s, n, st);
        sound::lemma_walk_from_beats(data, before, s, n - 1, st);
        lemma_walk_from_keeps(data, before, s, 0, n - 1, st, s);
        assert(data.stop_ok(data.stops@[s]));
        let f = data.transfers@[data.stops@[s].transfers_offset + n - 1];
        let to = f.to_stop_idx as int;
        let time = m::stored_time(cur.arr[s] + f.walk_seconds);
        assert(sound::footpath(data, s, to, f.walk_seconds as int, n - 1));
        assert forall|u: int| 0 <= u < data.stops@.len() && #[trigger] out.arr[u]
            != NOT_SET implies well_reached(data, mid, out, u) by {
            if u == to && time < cur.best[to] {
                assert(well_reached(data, mid, cur, s));
                if mid.arr[s] != NOT_SET && cur.arr[s] == mid.arr[s] {
                    assert(leads_within(data, s, u, f.walk_seconds as int));
                    assert(walked_from(data, mid, s, u, out.arr[u] as int));
                } else {
                    let a = choose|a: int| #[trigger]
                        walked_from(data, mid, a, s, cur.arr[s] as int);
                    let (x, i) = choose|x: int, i: int| #[trigger]
                        sound::footpath(data, a, s, x, i) && x <= cur.arr[s] - mid.arr[a];
                    if a == u {
                        lemma_walk_from_keeps(data, before, s, 0, n - 1, st, u);
                        assert(mid.best[u] <= before[u]);
                        assert(x >= 0);
                    } else {
                        let (y, j) = lemma_at_once(
                            data,
                            a,
                            s,
                            u,
                            x,
                            f.walk_seconds as int,
                            n - 1,
                        );
                        assert(leads_within(data, a, u, out.arr[u] - mid.arr[a]));
                        assert(walked_from(data, mid, a, u, out.arr[u] as int));
                    }
                }
            } else {
                assert(out.arr[u] == cur.arr[u]);
                assert(well_reached(data, mid, cur, u));
            }
        }
    }
}

proof fn lemma_walks_closed(data: TransitData, before: Seq<u32>, n: int, mid: Round)
    requires
        data.wf(),
        footpaths_closed(data),
        0 <= n <= data.stops@.len(),
        before.len() == data.stops@.len(),
        sound::sized(data, mid),
        sound::beats(mid, before),
    ensures
        forall|u: int|
            0 <= u < data.stops@.len() && #[trigger] m::walks(data, n, mid).arr[u] != NOT_SET
                ==> well_reached(data, mid, m::walks(data, n, mid), u),
    decreases n,
{
    if n > 0 {
        lemma_walks_closed(data, before, n - 1, mid);
        let cur = m::walks(data, n - 1, mid);
        sound::lemma_walks_beats(data, before, n - 1, mid);
        if cur.arr[n - 1] != NOT_SET {
            assert forall|u: int| 0 <= u < data.stops@.len() implies #[trigger] cur.best[u]
                <= mid.best[u] by {
                lemma_walks_keeps(data, before, 0, n - 1, mid, u);
            }
            lemma_walk_from_closed(
                data,
                before,
                mid,
                n - 1,
                data.stops@[n - 1].num_transfers as int,
                cur,
            );
        }
    }
}

/// Where footpaths are closed, a round gets everywhere no later than by one footpath from any stop
/// that it reaches.
proof fn lemma_footpaths_lead_on(
    data: TransitData,
    query: RaptorQuery,
    k: int,
    a: int,
    b: int,
    secs: int,
    i: int,
)
    requires
        data.wf(),
        query.wf(data),
        footpaths_closed(data),
        1 <= k < m::query_rounds(data, query).len(),
        0 <= a < data.stops@.len(),
        0 <= b < data.stops@.len(),
        sound::footpath(data, a, b, secs, i),
        m::query_rounds(data, query)[k].arr[a] != NOT_SET,
    ensures
        m::query_rounds(data, query)[k].best[b] <= m::stored_time(
            m::query_rounds(data, query)[k].arr[a] + secs,
        ),
{
    let rs = m::query_rounds(data, query);
    let day = query.service_day as int;
    let last = rs[k - 1];
    let fresh = m::fresh_round(last.best);
    sound::lemma_rounds(data, query, query.max_transfers + 1);
    sound::lemma_best(data, query, rs, k - 1);
    sound::lemma_best(data, query, rs, k);
    assert(rs[k] == m::next_round(data, day, last));
    sound::lemma_scan_routes_beats(
        data,
        day,
        last.arr,
        last.best,
        data.routes@.len() as int,
        fresh,
    );
    let mid = by_ride(data, query, last);
    lemma_walks_closed(data, last.best, data.stops@.len() as int, mid);
    let cur = rs[k];
    assert(cur == m::walks(data, data.stops@.len() as int, mid));
    assert(well_reached(data, mid, cur, a));
    if mid.arr[a] != NOT_SET && cur.arr[a] == mid.arr[a] {
        footpaths_are_taken(data, query, k - 1, a, b, secs, i);
    } else {
        let a0 = choose|a0: int| #[trigger] walked_from(data, mid, a0, a, cur.arr[a] as int);
        if a0 == b {
            lemma_walks_keeps(data, last.best, 0, data.stops@.len() as int, mid, b);
            assert(mid.best[b] <= last.best[b]);
        } else {
            let (y, l) = lemma_at_once(data, a0, a, b, cur.arr[a] - mid.arr[a0], secs, i);
            footpaths_are_taken(data, query, k - 1, a0, b, y, l);
        }
    }
}

/// Within `n` rides the search has been at stop `s` by `at`, in a round that still counted.
spec fn reached_by(rs: Seq<Round>, n: int, s: int, at: int) -> bool {
    exists|j: int| 0 <= j <= n && j < rs.len() && (#[trigger] rs[j]).arr[s] <= at
}

/// The best arrival so far is the arrival of some round.
proof fn lemma_best_is_arrival(data: TransitData, query: RaptorQuery, k: int, s: int)
    requires
        data.wf(),
        query.wf(data),
        0 <= k < m::query_rounds(data, query).len(),
        0 <= s < data.stops@.len(),
    ensures
        reached_by(
            m::query_rounds(data, query),
            k,
            s,
            m::query_rounds(data, query)[k].best[s] as int,
        ),
    decreases k,
{
    let rs = m::query_rounds(data, query);
    sound::lemma_best(data, query, rs, k);
    if k == 0 {
        sound::lemma_rounds(data, query, query.max_transfers + 1);
        sound::lemma_origins(data, query, query.origin_stops@.len() as int);
        assert(rs[0].arr[s] <= rs[0].best[s]);
    } else if rs[k].arr[s] == NOT_SET {
        lemma_best_is_arrival(data, query, k - 1, s);
        assert(rs[k].best[s] <= rs[k - 1].best[s]);
        let j = choose|j: int|
            0 <= j <= k - 1 && j < rs.len() && (#[trigger] rs[j]).arr[s] <= rs[k - 1].best[s];
        assert(rs[j].arr[s] <= rs[k].best[s]);
    } else {
        assert(rs[k].best[s] <= rs[k - 1].best[s]);
        assert(rs[k].arr[s] <= rs[k].best[s]);
    }
}

/// The search goes on until the query stops it or a round reaches nothing.
proof fn lemma_full_or_stopped(data: TransitData, query: RaptorQuery, k: int)
    requires
        k >= 0,
    ensures
        m::rounds(data, query, k).len() == k + 1 || !m::any_reached(
            m::rounds(data, query, k).last().arr,
        ),
    decreases k,
{
    if k > 0 {
        lemma_full_or_stopped(data, query, k - 1);
    }
}

/// After a round that reached something another one follows, if the query allows it.
proof fn lemma_round_follows(data: TransitData, query: RaptorQuery, k: int, j: int)
    requires
        0 <= j < k,
        j < m::rounds(data, query, k).len(),
        m::any_reached(m::rounds(data, query, k)[j].arr),
    ensures
        j + 1 < m::rounds(data, query, k).len(),
{
    lemma_full_or_stopped(data, query, k);
    let all = m::rounds(data, query, k);
    if j + 1 >= all.len() {
        assert(all[j] == all.last());
    }
}

/// The stop where a leg is boarded.
pub open spec fn boards_at(data: TransitData, leg: RaptorLeg) -> int {
    sound::stop_at(data, leg.route_idx as int, leg.board_stop_pos as int)
}

/// The stop where a leg ends.
pub open spec fn alights_at(data: TransitData, leg: RaptorLeg) -> int {
    sound::stop_at(data, leg.route_idx as int, leg.alight_stop_pos as int)
}

/// A chain of rides, with at most one footpath after each, leads from the origin to stop `s`, there
/// by `at`.
pub open spec fn chain_leads_to(
    data: TransitData,
    query: RaptorQuery,
    legs: Seq<RaptorLeg>,
    s: int,
    at: int,
) -> bool
    decreases legs.len(),
{
    if legs.len() == 0 {
        sound::access_in_time(query, s, at)
    } else {
        let leg = legs.last();
        &&& sound::rideable(data, query.service_day as int, leg)
        &&& chain_leads_to(
            data,
            query,
            legs.drop_last(),
            boards_at(data, leg),
            leg.board_time as int,
        )
        &&& (s == alights_at(data, leg) && leg.alight_time <= at) || leads_within(
            data,
            alights_at(data, leg),
            s,
            at - leg.alight_time,
        )
    }
}

/// The stop where the chain goes on after its ride `i`.
pub open spec fn goes_on_at(data: TransitData, legs: Seq<RaptorLeg>, s: int, i: int) -> int {
    if i + 1 < legs.len() {
        boards_at(data, legs[i + 1])
    } else {
        s
    }
}

/// No footpath follows a ride of the chain.
pub open spec fn rides_only(data: TransitData, legs: Seq<RaptorLeg>, s: int) -> bool {
    forall|i: int|
        0 <= i < legs.len() ==> alights_at(data, #[trigger] legs[i]) == goes_on_at(data, legs, s, i)
}

/// Where a footpath follows a ride, one could not be at its beginning as early on foot from the
/// origin.
pub open spec fn outruns_walking(
    data: TransitData,
    query: RaptorQuery,
    legs: Seq<RaptorLeg>,
    s: int,
) -> bool {
    forall|i: int|
        0 <= i < legs.len() && alights_at(data, #[trigger] legs[i]) != goes_on_at(data, legs, s, i)
            ==> m::query_rounds(data, query)[0].best[alights_at(data, legs[i])]
            > legs[i].alight_time
}

/// The timetable is one in which the search finds what is earliest: times never go back along a
/// trip, trips leave every stop in the order in which they are listed and never overtake one
/// another, and every stop lists the routes that call there.
pub open spec fn plain_timetable(data: TransitData, day: int) -> bool {
    &&& sound::times_in_order(data)
    &&& forall|r: int|
        0 <= r < data.routes@.len() ==> never_overtake(data, #[trigger] same(r), day)
    &&& forall|r: int, p: int|
        0 <= r < data.routes@.len() && 0 <= p < data.routes@[r].stop_idxs@.len()
            ==> #[trigger] laws::departures_ordered(data, r, p)
    &&& forall|r: int, p: int|
        0 <= r < data.routes@.len() && 0 <= p < data.routes@[r].stop_idxs@.len()
            ==> data.stops@[#[trigger] sound::stop_at(data, r, p)].route_idxs@.contains(r as u32)
}

/// The number itself.
pub open spec fn same(r: int) -> int {
    r
}

proof fn lemma_chain_reached(
    data: TransitData,
    query: RaptorQuery,
    legs: Seq<RaptorLeg>,
    s: int,
    at: int,
)
    requires
        data.wf(),
        query.wf(data),
        plain_timetable(data, query.service_day as int),
        footpaths_closed(data) || rides_only(data, legs, s),
        legs.len() <= query.max_transfers + 1,
        chain_leads_to(data, query, legs, s, at),
        outruns_walking(data, query, legs, s),
        0 <= s < data.stops@.len(),
        at < NOT_SET,
    ensures
        reached_by(m::query_rounds(data, query), legs.len() as int, s, at),
    decreases legs.len(),
{
    let rs = m::query_rounds(data, query);
    let day = query.service_day as int;
    sound::lemma_rounds(data, query, query.max_transfers + 1);
    if legs.len() == 0 {
        lemma_origins_take(data, query, query.origin_stops@.len() as int, s, at);
        assert(rs[0].arr[s] <= at);
    } else {
        let n = legs.len() as int;
        let leg = legs.last();
        let front = legs.drop_last();
        let r = leg.route_idx as int;
        let p = leg.board_stop_pos as int;
        let q = leg.alight_stop_pos as int;
        let b = boards_at(data, leg);
        let a = alights_at(data, leg);
        assert(data.route_ok(data.routes@[r]));
        assert(data.routes@[r].stop_idxs@[p] < data.stops@.len());
        assert(data.routes@[r].stop_idxs@[q] < data.stops@.len());
        assert(outruns_walking(data, query, front, b)) by {
            assert forall|i: int|
                0 <= i < front.len() && alights_at(data, #[trigger] front[i]) != goes_on_at(
                    data,
                    front,
                    b,
                    i,
                ) implies rs[0].best[alights_at(data, front[i])] > front[i].alight_time by {
                assert(front[i] == legs[i]);
                assert(goes_on_at(data, front, b, i) == goes_on_at(data, legs, s, i));
            }
        }
        if rides_only(data, legs, s) {
            assert forall|i: int| 0 <= i < front.len() implies alights_at(data, #[trigger] front[i])
                == goes_on_at(data, front, b, i) by {
                assert(front[i] == legs[i]);
                assert(goes_on_at(data, front, b, i) == goes_on_at(data, legs, s, i));
            }
        }
        lemma_chain_reached(data, query, front, b, leg.board_time as int);
        let j = choose|j: int|
            0 <= j <= n - 1 && j < rs.len() && (#[trigger] rs[j]).arr[b] <= leg.board_time;
        sound::lemma_best(data, query, rs, j);
        assert(rs[j].arr[b] != NOT_SET);
        assert(m::any_reached(rs[j].arr));
        lemma_round_follows(data, query, query.max_transfers + 1, j);
        assert(never_overtake(data, same(r), day));
        assert(data.stops@[sound::stop_at(data, r, p)].route_idxs@.contains(r as u32));
        assert(laws::departures_ordered(data, r, p));
        rides_are_taken(
            data,
            query,
            j,
            r,
            p,
            q,
            leg.trip_num as int,
            leg.freq_delta as int,
            leg.board_time as int,
        );
        assert(m::shifted(m::arrival(data, r, leg.trip_num as int, q), leg.freq_delta as int)
            == leg.alight_time);
        lemma_best_is_arrival(data, query, j + 1, a);
        let g = choose|g: int|
            0 <= g <= j + 1 && g < rs.len() && (#[trigger] rs[g]).arr[a] <= rs[j + 1].best[a];
        assert(rs[g].arr[a] <= leg.alight_time);
        if s == a && leg.alight_time <= at {
            assert(rs[g].arr[s] <= at);
        } else {
            assert(legs[n - 1] == leg);
            let (secs, i) = choose|secs: int, i: int| #[trigger]
                sound::footpath(data, a, s, secs, i) && secs <= at - leg.alight_time;
            assert(s != a);
            assert(goes_on_at(data, legs, s, n - 1) == s);
            assert(!rides_only(data, legs, s));
            assert(rs[0].best[alights_at(data, legs[n - 1])] > legs[n - 1].alight_time);
            sound::lemma_best(data, query, rs, 0);
            assert(rs[0].best[a] <= rs[0].arr[a]);
            assert(g != 0);
            lemma_footpaths_lead_on(data, query, g, a, s, secs, i);
            assert(rs[g].best[s] <= at);
            lemma_best_is_arrival(data, query, g, s);
            let h = choose|h: int|
                0 <= h <= g && h < rs.len() && (#[trigger] rs[h]).arr[s] <= rs[g].best[s];
            assert(rs[h].arr[s] <= at);
        }
    }
}

/// The walk to a listed origin stop is taken.
proof fn lemma_origins_take(data: TransitData, query: RaptorQuery, n: int, s: int, at: int)
    requires
        query.wf(data),
        0 <= n <= query.origin_stops@.len(),
        0 <= s < data.stops@.len(),
        at < NOT_SET,
        exists|i: int|
            0 <= i < n && (#[trigger] query.origin_stops@[i]).0 == s && query.departure_time
                + query.origin_stops@[i].1 <= at,
    ensures
        m::origins(data, query, n).arr[s] <= at,
    decreases n,
{
    let i = choose|i: int|
        0 <= i < n && (#[trigger] query.origin_stops@[i]).0 == s && query.departure_time
            + query.origin_stops@[i].1 <= at;
    sound::lemma_origins(data, query, n - 1);
    sound::lemma_origins(data, query, n);
    let before = m::origins(data, query, n - 1);
    let (stop, walk) = query.origin_stops@[n - 1];
    assert(stop < data.stops@.len());
    if i < n - 1 {
        assert(query.origin_stops@[i].0 == s);
        lemma_origins_take(data, query, n - 1, s, at);
    }
}

/// The search finds what is earliest. Take any chain of rides, at most one more than changes are
/// allowed, with at most one footpath after each, that leads from the origin to a destination stop.
/// Then there is an answer, and its first journey is at the destination no later. This is so in a
/// plain timetable, whose footpaths are closed if the chain has any, for chains that outrun walking:
/// no footpath of them begins, and no chain ends, where one could be as early on foot from the
/// origin.
pub proof fn earliest_arrival_is_found(
    data: TransitData,
    query: RaptorQuery,
    legs: Seq<RaptorLeg>,
    d: int,
    at: int,
)
    requires
        data.wf(),
        query.wf(data),
        plain_timetable(data, query.service_day as int),
        query.max_results > 0,
        1 <= legs.len() <= query.max_transfers + 1,
        0 <= d < query.dest_stops@.len(),
        at < NOT_SET,
        chain_leads_to(data, query, legs, query.dest_stops@[d].0 as int, at),
        footpaths_closed(data) || rides_only(data, legs, query.dest_stops@[d].0 as int),
        outruns_walking(data, query, legs, query.dest_stops@[d].0 as int),
        m::query_rounds(data, query)[0].best[query.dest_stops@[d].0 as int] > at,
    ensures
        m::answer(data, query).len() > 0,
        m::answer(data, query)[0].arrival_time <= m::stored_time(at + query.dest_stops@[d].1),
{
    let rs = m::query_rounds(data, query);
    let s = query.dest_stops@[d].0 as int;
    assert(0 <= s < data.stops@.len());
    lemma_chain_reached(data, query, legs, s, at);
    let j = choose|j: int|
        0 <= j <= legs.len() && j < rs.len() && (#[trigger] rs[j]).arr[s] <= at;
    sound::lemma_best(data, query, rs, 0);
    assert(rs[0].best[s] <= rs[0].arr[s]);
    destinations_are_answered(data, query, j, d);
}

/// Before any ride exactly the listed origin stops are reached, each when the shortest walk that is
/// listed for it ends. No walk ends at or after the greatest time.
pub proof fn origins_are_reached_on_foot(data: TransitData, query: RaptorQuery, i: int, s: int)
    requires
        query.wf(data),
        0 <= s < data.stops@.len(),
    ensures
        0 <= i < query.origin_stops@.len() && query.departure_time + query.origin_stops@[i].1
            < 0xffff_ffff ==> m::query_rounds(data, query)[0].arr[query.origin_stops@[i].0 as int]
            <= query.departure_time + query.origin_stops@[i].1,
        m::query_rounds(data, query)[0].arr[s] != 0xffff_ffff ==> exists|j: int|
            0 <= j < query.origin_stops@.len() && (#[trigger] query.origin_stops@[j]).0 == s
                && m::query_rounds(data, query)[0].arr[s] == query.departure_time
                + query.origin_stops@[j].1,
{
    let n = query.origin_stops@.len() as int;
    lemma_first_round(data, query, query.max_transfers + 1);
    if 0 <= i < n && query.departure_time + query.origin_stops@[i].1 < 0xffff_ffff {
        lemma_origins_take(
            data,
            query,
            n,
            query.origin_stops@[i].0 as int,
            query.departure_time + query.origin_stops@[i].1,
        );
    }
    lemma_origins_from(data, query, n, s);
}

proof fn lemma_first_round(data: TransitData, query: RaptorQuery, k: int)
    ensures
        m::rounds(data, query, k).len() > 0,
        m::rounds(data, query, k)[0] == m::origins(data, query, query.origin_stops@.len() as int),
    decreases k,
{
    if k > 0 {
        lemma_first_round(data, query, k - 1);
    }
}

proof fn lemma_origins_from(data: TransitData, query: RaptorQuery, n: int, s: int)
    requires
        query.wf(data),
        0 <= n <= query.origin_stops@.len(),
        0 <= s < data.stops@.len(),
    ensures
        m::origins(data, query, n).arr.len() == data.stops@.len(),
        m::origins(data, query, n).best.len() == data.stops@.len(),
        m::origins(data, query, n).arr[s] != 0xffff_ffff ==> exists|j: int|
            0 <= j < n && (#[trigger] query.origin_stops@[j]).0 == s && m::origins(
                data,
                query,
                n,
            ).arr[s] == query.departure_time + query.origin_stops@[j].1,
    decreases n,
{
    if n > 0 {
        lemma_origins_from(data, query, n - 1, s);
        let before = m::origins(data, query, n - 1);
        let now = m::origins(data, query, n);
        let (stop, walk) = query.origin_stops@[n - 1];
        assert(stop < data.stops@.len());
        if now.arr[s] != 0xffff_ffff {
            if now.arr[s] == before.arr[s] {
                let j = choose|j: int|
                    0 <= j < n - 1 && (#[trigger] query.origin_stops@[j]).0 == s && before.arr[s]
                        == query.departure_time + query.origin_stops@[j].1;
                assert(query.origin_stops@[j].0 == s);
            } else {
                assert(query.origin_stops@[n - 1].0 == s);
            }
        }
    }
}

} // verus!
