//! Every journey that the search returns can be made.

use crate::data::{TransitData, NOT_SET};
use crate::raptor::{Parent, RaptorLeg, RaptorQuery};
use crate::raptor_laws as laws;
use crate::raptor_model as m;
use crate::raptor_model::{JourneyView, OnBoard, Round, Scan};
use vstd::prelude::*;

verus! {

// ---------------------------------------------------------------------------
// What a journey is
// ---------------------------------------------------------------------------

/// Along every trip, times never go back. An unset time counts as later than all others.
pub open spec fn times_in_order(data: TransitData) -> bool {
    &&& forall|r: int, t: int, p: int|
        0 <= r < data.routes@.len() && 0 <= t < data.routes@[r].num_trips && 0 <= p
            < data.routes@[r].stop_idxs@.len() ==> #[trigger] m::arrival(data, r, t, p)
            <= m::departure(data, r, t, p)
    &&& forall|r: int, t: int, p: int, q: int|
        0 <= r < data.routes@.len() && 0 <= t < data.routes@[r].num_trips && 0 <= p < q
            < data.routes@[r].stop_idxs@.len() ==> #[trigger] m::departure(data, r, t, p)
            <= #[trigger] m::arrival(data, r, t, q)
}

/// The stop at a position of a route.
pub open spec fn stop_at(data: TransitData, r: int, pos: int) -> int {
    data.routes@[r].stop_idxs@[pos] as int
}

/// The leg rides one trip that runs on the day, forward, at the trip's own times.
pub open spec fn rideable(data: TransitData, day: int, leg: RaptorLeg) -> bool {
    let r = leg.route_idx as int;
    let t = leg.trip_num as int;
    &&& r < data.routes@.len()
    &&& t < data.routes@[r].num_trips
    &&& leg.board_stop_pos < leg.alight_stop_pos < data.routes@[r].stop_idxs@.len()
    &&& laws::leaves_at(
        data,
        r,
        leg.board_stop_pos as int,
        day,
        t,
        leg.freq_delta as int,
        leg.board_time as int,
    )
    &&& m::arrival(data, r, t, leg.alight_stop_pos as int) != NOT_SET
    &&& leg.alight_time < NOT_SET
    &&& leg.alight_time == m::arrival(data, r, t, leg.alight_stop_pos as int) + leg.freq_delta
    &&& leg.board_time <= leg.alight_time
}

/// The `i`-th footpath from stop `from` leads to stop `to` in `secs` seconds.
pub open spec fn footpath(data: TransitData, from: int, to: int, secs: int, i: int) -> bool {
    let t = data.transfers@[data.stops@[from].transfers_offset + i];
    &&& 0 <= i < data.stops@[from].num_transfers
    &&& t.to_stop_idx == to
    &&& t.walk_seconds == secs
}

/// `n` footpaths in a row lead from one stop to another in `secs` seconds.
pub open spec fn on_foot(data: TransitData, from: int, to: int, secs: int, n: nat) -> bool
    decreases n,
{
    if n == 0 {
        from == to && secs == 0
    } else {
        exists|mid: int, last: int, i: int|
            0 <= mid < data.stops@.len() && #[trigger] footpath(data, mid, to, last, i) && on_foot(
                data,
                from,
                mid,
                secs - last,
                (n - 1) as nat,
            )
    }
}

/// Someone at stop `from` at time `t0` can be at stop `to` by `t1`, on foot.
pub open spec fn walk_in_time(data: TransitData, from: int, t0: int, to: int, t1: int) -> bool {
    exists|secs: int, n: nat|
        secs >= 0 && #[trigger] on_foot(data, from, to, secs, n) && t0 + secs <= t1
}

/// One of the origin stops is `s`, and it is reached by `t`.
pub open spec fn access_in_time(query: RaptorQuery, s: int, t: int) -> bool {
    exists|i: int|
        0 <= i < query.origin_stops@.len() && (#[trigger] query.origin_stops@[i]).0 == s
            && query.departure_time + query.origin_stops@[i].1 <= t
}

/// The legs lead from the origin to stop `s`, there by `at`.
pub open spec fn legs_lead_to(
    data: TransitData,
    query: RaptorQuery,
    legs: Seq<RaptorLeg>,
    s: int,
    at: int,
) -> bool {
    &&& legs.len() > 0
    &&& forall|i: int|
        0 <= i < legs.len() ==> rideable(data, query.service_day as int, #[trigger] legs[i])
    &&& access_in_time(
        query,
        stop_at(data, legs[0].route_idx as int, legs[0].board_stop_pos as int),
        legs[0].board_time as int,
    )
    &&& forall|i: int, j: int|
        0 <= i && j == i + 1 && j < legs.len() ==> changes(
            data,
            #[trigger] legs[i],
            #[trigger] legs[j],
        )
    &&& walk_in_time(
        data,
        stop_at(data, legs.last().route_idx as int, legs.last().alight_stop_pos as int),
        legs.last().alight_time as int,
        s,
        at,
    )
}

/// After leg `a` there is time to walk to where leg `b` is boarded.
pub open spec fn changes(data: TransitData, a: RaptorLeg, b: RaptorLeg) -> bool {
    walk_in_time(
        data,
        stop_at(data, a.route_idx as int, a.alight_stop_pos as int),
        a.alight_time as int,
        stop_at(data, b.route_idx as int, b.board_stop_pos as int),
        b.board_time as int,
    )
}

// ---------------------------------------------------------------------------
// One round
// ---------------------------------------------------------------------------

pub open spec fn sized(data: TransitData, st: Round) -> bool {
    let n = data.stops@.len();
    st.best.len() == n && st.arr.len() == n && st.par.len() == n
}

/// An arrival of the round is the best so far and beats what was known before.
pub open spec fn beats(st: Round, before: Seq<u32>) -> bool {
    forall|s: int|
        0 <= s < st.arr.len() ==> {
            &&& #[trigger] st.best[s] <= before[s]
            &&& st.arr[s] == NOT_SET ==> st.best[s] == before[s]
            &&& st.arr[s] != NOT_SET ==> st.arr[s] == st.best[s] && st.arr[s] < before[s]
        }
}

/// The ride that brings one to stop `s` at `at`.
spec fn ride_ok(data: TransitData, day: int, prev: Seq<u32>, s: int, at: u32, p: Parent) -> bool {
    let leg = m::ride_leg(data, s, p);
    let board_stop = stop_at(data, leg.route_idx as int, leg.board_stop_pos as int);
    &&& rideable(data, day, leg)
    &&& stop_at(data, leg.route_idx as int, leg.alight_stop_pos as int) == s
    &&& leg.alight_time == at
    &&& prev[board_stop] <= leg.board_time
}

spec fn earlier_rank(st: Round, stamp: Seq<int>, a: int, b: int) -> bool {
    st.arr[a] < st.arr[b] || (st.arr[a] == st.arr[b] && stamp[a] < stamp[b])
}

/// The walk that brings one to stop `s`.
spec fn walk_ok(data: TransitData, st: Round, stamp: Seq<int>, s: int, from: int) -> bool {
    &&& 0 <= from < data.stops@.len()
    &&& st.arr[from] != NOT_SET
    &&& earlier_rank(st, stamp, from, s)
    &&& exists|secs: int, i: int|
        #[trigger] footpath(data, from, s, secs, i) && st.arr[from] + secs <= st.arr[s]
}

spec fn parent_sound(
    data: TransitData,
    day: int,
    prev: Seq<u32>,
    st: Round,
    stamp: Seq<int>,
    s: int,
) -> bool {
    match st.par[s] {
        Parent::Unreached => false,
        Parent::Ride { .. } => ride_ok(data, day, prev, s, st.arr[s], st.par[s]),
        Parent::Walk { from } => walk_ok(data, st, stamp, s, from as int),
    }
}

/// Every arrival of the round has come about as its parent says. `stamp` orders the arrivals by
/// when they were recorded, all before `clock`.
spec fn round_sound(
    data: TransitData,
    day: int,
    prev: Seq<u32>,
    st: Round,
    stamp: Seq<int>,
    clock: int,
) -> bool {
    &&& stamp.len() == data.stops@.len()
    &&& forall|s: int| 0 <= s < stamp.len() ==> #[trigger] stamp[s] < clock
    &&& forall|s: int|
        0 <= s < st.arr.len() && #[trigger] st.arr[s] != NOT_SET ==> parent_sound(
            data,
            day,
            prev,
            st,
            stamp,
            s,
        )
}

pub(crate) proof fn lemma_improve_basic(
    data: TransitData,
    st: Round,
    before: Seq<u32>,
    s: int,
    time: u32,
    p: Parent,
)
    requires
        sized(data, st),
        beats(st, before),
        before.len() == data.stops@.len(),
        0 <= s < data.stops@.len(),
    ensures
        sized(data, m::improve(st, s, time, p)),
        beats(m::improve(st, s, time, p), before),
        m::improve(st, s, time, p).best[s] <= time,
        forall|u: int|
            0 <= u < data.stops@.len() ==> #[trigger] m::improve(st, s, time, p).best[u]
                <= st.best[u],
        time == NOT_SET ==> m::improve(st, s, time, p) == st,
{
    let out = m::improve(st, s, time, p);
    assert forall|u: int| 0 <= u < out.arr.len() implies {
        &&& #[trigger] out.best[u] <= before[u]
        &&& out.arr[u] == NOT_SET ==> out.best[u] == before[u]
        &&& out.arr[u] != NOT_SET ==> out.arr[u] == out.best[u] && out.arr[u] < before[u]
    } by {
        assert(st.best[u] <= before[u]);
    }
}

proof fn lemma_index_from(s: Seq<u32>, x: u32, from: int, pos: int)
    requires
        0 <= from <= pos < s.len(),
        s[pos] == x,
        forall|p: int| from <= p < pos ==> s[p] != x,
    ensures
        m::index_from(s, x, from) == Some(pos),
    decreases pos - from,
{
    if from < pos {
        lemma_index_from(s, x, from + 1, pos);
    }
}

/// The trip on board was boarded as it says, and every stop it has passed since is known to be
/// reached no later than it gets there.
spec fn on_board_ok(
    data: TransitData,
    day: int,
    prev: Seq<u32>,
    r: int,
    to: int,
    st: Round,
    rd: OnBoard,
) -> bool {
    &&& rd.board_pos < to
    &&& rd.board_time < NOT_SET
    &&& prev[stop_at(data, r, rd.board_pos as int)] <= rd.board_time
    &&& laws::leaves_at(
        data,
        r,
        rd.board_pos as int,
        day,
        rd.trip_num as int,
        rd.freq_delta as int,
        rd.board_time as int,
    )
    &&& forall|p: int|
        rd.board_pos < p < to ==> st.best[#[trigger] stop_at(data, r, p)] <= m::shifted(
            m::arrival(data, r, rd.trip_num as int, p),
            rd.freq_delta as int,
        )
}

/// A stop time after boarding, moved with the trip, is not before boarding.
proof fn lemma_shift_order(data: TransitData, r: int, t: int, delta: int, p: int, q: int)
    requires
        times_in_order(data),
        0 <= r < data.routes@.len(),
        0 <= t < data.routes@[r].num_trips,
        0 <= p < q < data.routes@[r].stop_idxs@.len(),
        0 <= m::arrival(data, r, t, p) + delta,
    ensures
        m::shifted(m::arrival(data, r, t, p), delta) <= m::shifted(
            m::arrival(data, r, t, q),
            delta,
        ),
{
    assert(m::arrival(data, r, t, p) <= m::departure(data, r, t, p));
    assert(m::departure(data, r, t, p) <= m::arrival(data, r, t, q));
}

/// Alighting keeps the round sound.
proof fn lemma_alight(
    data: TransitData,
    day: int,
    prev: Seq<u32>,
    before: Seq<u32>,
    r: int,
    pos: int,
    sc: Scan,
    stamp: Seq<int>,
    clock: int,
)
    requires
        data.wf(),
        times_in_order(data),
        0 <= r < data.routes@.len(),
        0 <= pos < data.routes@[r].stop_idxs@.len(),
        prev.len() == data.stops@.len(),
        before.len() == data.stops@.len(),
        forall|s: int| 0 <= s < prev.len() ==> #[trigger] before[s] <= prev[s],
        sized(data, sc.st),
        beats(sc.st, before),
        round_sound(data, day, prev, sc.st, stamp, clock),
        forall|s: int| 0 <= s < data.stops@.len() ==> !(#[trigger] sc.st.par[s] is Walk),
        sc.ride matches Some(rd) ==> on_board_ok(data, day, prev, r, pos, sc.st, rd),
    ensures
        sized(data, m::alight(data, r, pos, sc)),
        beats(m::alight(data, r, pos, sc), before),
        round_sound(data, day, prev, m::alight(data, r, pos, sc), stamp, clock),
        forall|s: int|
            0 <= s < data.stops@.len() ==> !(#[trigger] m::alight(
                data,
                r,
                pos,
                sc,
            ).par[s] is Walk),
        sc.ride matches Some(rd) ==> on_board_ok(
            data,
            day,
            prev,
            r,
            pos + 1,
            m::alight(data, r, pos, sc),
            rd,
        ),
{
    assert(data.route_ok(data.routes@[r]));
    let s = stop_at(data, r, pos);
    assert(data.routes@[r].stop_idxs@[pos] < data.stops@.len());
    if sc.ride is Some {
        let rd = sc.ride->0;
        let t = rd.trip_num as int;
        let delta = rd.freq_delta as int;
        let b = rd.board_pos as int;
        let time = m::shifted(m::arrival(data, r, t, pos), delta);
        let par = Parent::Ride {
            route_idx: r as u32,
            trip_num: rd.trip_num,
            board_pos: rd.board_pos,
            board_time: rd.board_time,
            freq_delta: rd.freq_delta,
        };
        let out = m::alight(data, r, pos, sc);
        lemma_improve_basic(data, sc.st, before, s, time, par);
        assert(m::departure(data, r, t, b) <= m::arrival(data, r, t, pos));
        if time < sc.st.best[s] {
            assert(sc.st.best[stop_at(data, r, b)] <= before[stop_at(data, r, b)]) by {
                assert(data.routes@[r].stop_idxs@[b] < data.stops@.len());
            }
            assert forall|p: int| b <= p < pos implies data.routes@[r].stop_idxs@[p] != s by {
                if data.routes@[r].stop_idxs@[p] == s {
                    if p == b {
                        assert(before[s] <= prev[s]);
                    } else {
                        assert(sc.st.best[stop_at(data, r, p)] <= m::shifted(
                            m::arrival(data, r, t, p),
                            delta,
                        ));
                        assert(m::departure(data, r, t, b) <= m::arrival(data, r, t, p));
                        lemma_shift_order(data, r, t, delta, p, pos);
                    }
                }
            }
            lemma_index_from(data.routes@[r].stop_idxs@, s as u32, b, pos);
            assert(ride_ok(data, day, prev, s, time, par));
            assert forall|u: int| 0 <= u < out.arr.len() && #[trigger] out.arr[u]
                != NOT_SET implies parent_sound(data, day, prev, out, stamp, u) by {
                if u != s {
                    assert(sc.st.arr[u] != NOT_SET);
                    assert(!(sc.st.par[u] is Walk));
                }
            }
            assert forall|u: int| 0 <= u < data.stops@.len() implies !(#[trigger] out.par[u] is Walk) by {
                if u != s {
                    assert(out.par[u] == sc.st.par[u]);
                }
            }
        }
        assert forall|p: int| b < p < pos + 1 implies out.best[#[trigger] stop_at(data, r, p)]
            <= m::shifted(m::arrival(data, r, t, p), delta) by {
            assert(data.routes@[r].stop_idxs@[p] < data.stops@.len());
            if p < pos {
                assert(sc.st.best[stop_at(data, r, p)] <= m::shifted(
                    m::arrival(data, r, t, p),
                    delta,
                ));
            }
        }
    }
}

proof fn lemma_scan(
    data: TransitData,
    day: int,
    prev: Seq<u32>,
    before: Seq<u32>,
    r: int,
    from: int,
    to: int,
    st: Round,
    stamp: Seq<int>,
    clock: int,
)
    requires
        data.wf(),
        times_in_order(data),
        0 <= r < data.routes@.len(),
        0 <= from,
        to <= data.routes@[r].stop_idxs@.len(),
        prev.len() == data.stops@.len(),
        before.len() == data.stops@.len(),
        forall|s: int| 0 <= s < prev.len() ==> #[trigger] before[s] <= prev[s],
        sized(data, st),
        beats(st, before),
        round_sound(data, day, prev, st, stamp, clock),
        forall|s: int| 0 <= s < data.stops@.len() ==> !(#[trigger] st.par[s] is Walk),
    ensures
        ({
            let out = m::scan(data, day, prev, r, from, to, st);
            &&& sized(data, out.st)
            &&& beats(out.st, before)
            &&& round_sound(data, day, prev, out.st, stamp, clock)
            &&& forall|s: int| 0 <= s < data.stops@.len() ==> !(#[trigger] out.st.par[s] is Walk)
            &&& out.ride matches Some(rd) ==> on_board_ok(data, day, prev, r, to, out.st, rd)
        }),
    decreases to - from,
{
    if to > from {
        lemma_scan(data, day, prev, before, r, from, to - 1, st, stamp, clock);
        let sc = m::scan(data, day, prev, r, from, to - 1, st);
        lemma_alight(data, day, prev, before, r, to - 1, sc, stamp, clock);
        let at = prev[stop_at(data, r, to - 1)];
        laws::boarding_leaves_in_time(data, r, to - 1, at, day);
        assert(data.route_ok(data.routes@[r]));
    }
}

pub(crate) proof fn lemma_first_marked(data: TransitData, prev: Seq<u32>, r: int, p: int)
    ensures
        m::first_marked(data, prev, r, p) matches Some(q) ==> p <= q,
    decreases data.routes@[r].stop_idxs@.len() - p,
{
    if p < data.routes@[r].stop_idxs@.len() {
        lemma_first_marked(data, prev, r, p + 1);
    }
}

proof fn lemma_scan_routes(
    data: TransitData,
    day: int,
    prev: Seq<u32>,
    before: Seq<u32>,
    n: int,
    st: Round,
    stamp: Seq<int>,
    clock: int,
)
    requires
        data.wf(),
        times_in_order(data),
        n <= data.routes@.len(),
        prev.len() == data.stops@.len(),
        before.len() == data.stops@.len(),
        forall|s: int| 0 <= s < prev.len() ==> #[trigger] before[s] <= prev[s],
        sized(data, st),
        beats(st, before),
        round_sound(data, day, prev, st, stamp, clock),
        forall|s: int| 0 <= s < data.stops@.len() ==> !(#[trigger] st.par[s] is Walk),
    ensures
        ({
            let out = m::scan_routes(data, day, prev, n, st);
            &&& sized(data, out)
            &&& beats(out, before)
            &&& round_sound(data, day, prev, out, stamp, clock)
            &&& forall|s: int| 0 <= s < data.stops@.len() ==> !(#[trigger] out.par[s] is Walk)
        }),
    decreases n,
{
    if n > 0 {
        lemma_scan_routes(data, day, prev, before, n - 1, st, stamp, clock);
        let mid = m::scan_routes(data, day, prev, n - 1, st);
        lemma_first_marked(data, prev, n - 1, 0);
        match m::first_marked(data, prev, n - 1, 0) {
            Some(p) => {
                lemma_scan(
                    data,
                    day,
                    prev,
                    before,
                    n - 1,
                    p,
                    data.routes@[n - 1].stop_idxs@.len() as int,
                    mid,
                    stamp,
                    clock,
                );
            },
            None => {},
        }
    }
}

/// Walking one footpath keeps the round sound, under a later clock.
proof fn lemma_walk_step(
    data: TransitData,
    day: int,
    prev: Seq<u32>,
    before: Seq<u32>,
    s: int,
    i: int,
    st: Round,
    stamp: Seq<int>,
    clock: int,
) -> (new_stamp: Seq<int>)
    requires
        data.wf(),
        0 <= s < data.stops@.len(),
        0 <= i < data.stops@[s].num_transfers,
        before.len() == data.stops@.len(),
        sized(data, st),
        beats(st, before),
        round_sound(data, day, prev, st, stamp, clock),
        st.arr[s] != NOT_SET,
    ensures
        ({
            let t = data.transfers@[data.stops@[s].transfers_offset + i];
            let out = m::improve(
                st,
                t.to_stop_idx as int,
                m::stored_time(st.arr[s] + t.walk_seconds),
                Parent::Walk { from: s as u32 },
            );
            &&& sized(data, out)
            &&& beats(out, before)
            &&& round_sound(data, day, prev, out, new_stamp, clock + 1)
            &&& out.arr[s] != NOT_SET
        }),
{
    assert(data.stop_ok(data.stops@[s]));
    let t = data.transfers@[data.stops@[s].transfers_offset + i];
    let to = t.to_stop_idx as int;
    let time = m::stored_time(st.arr[s] + t.walk_seconds);
    let par = Parent::Walk { from: s as u32 };
    let out = m::improve(st, to, time, par);
    lemma_improve_basic(data, st, before, to, time, par);
    assert(st.best[s] == st.arr[s]);
    if time < st.best[to] {
        assert(to != s);
        let new_stamp = stamp.update(to, clock);
        assert forall|u: int| 0 <= u < out.arr.len() && #[trigger] out.arr[u]
            != NOT_SET implies parent_sound(data, day, prev, out, new_stamp, u) by {
            if u == to {
                assert(footpath(data, s, to, t.walk_seconds as int, i));
                assert(stamp[s] < clock);
                assert(walk_ok(data, out, new_stamp, to, s));
            } else {
                assert(st.arr[u] != NOT_SET);
                assert(parent_sound(data, day, prev, st, stamp, u));
                match st.par[u] {
                    Parent::Walk { from } => {
                        let f = from as int;
                        let (secs, k) = choose|secs: int, k: int|
                            #[trigger] footpath(data, f, u, secs, k) && st.arr[f] + secs
                                <= st.arr[u];
                        assert(footpath(data, f, u, secs, k));
                        assert(st.best[f] == st.arr[f]);
                        assert(out.arr[f] <= st.arr[f]);
                        if f == to {
                            assert(out.arr[f] < st.arr[f]);
                        }
                        assert(walk_ok(data, out, new_stamp, u, f));
                    },
                    _ => {},
                }
            }
        }
        assert(out.arr[s] == st.arr[s]);
        new_stamp
    } else {
        assert(out == st);
        stamp
    }
}

proof fn lemma_walk_from(
    data: TransitData,
    day: int,
    prev: Seq<u32>,
    before: Seq<u32>,
    s: int,
    n: int,
    st: Round,
    stamp: Seq<int>,
    clock: int,
) -> (out: (Seq<int>, int))
    requires
        data.wf(),
        0 <= s < data.stops@.len(),
        n <= data.stops@[s].num_transfers,
        before.len() == data.stops@.len(),
        sized(data, st),
        beats(st, before),
        round_sound(data, day, prev, st, stamp, clock),
        st.arr[s] != NOT_SET,
    ensures
        sized(data, m::walk_from(data, s, n, st)),
        beats(m::walk_from(data, s, n, st), before),
        round_sound(data, day, prev, m::walk_from(data, s, n, st), out.0, out.1),
        m::walk_from(data, s, n, st).arr[s] != NOT_SET,
    decreases n,
{
    if n <= 0 {
        (stamp, clock)
    } else {
        let (st1, c1) = lemma_walk_from(data, day, prev, before, s, n - 1, st, stamp, clock);
        let mid = m::walk_from(data, s, n - 1, st);
        let st2 = lemma_walk_step(data, day, prev, before, s, n - 1, mid, st1, c1);
        (st2, c1 + 1)
    }
}

proof fn lemma_walks(
    data: TransitData,
    day: int,
    prev: Seq<u32>,
    before: Seq<u32>,
    n: int,
    st: Round,
    stamp: Seq<int>,
    clock: int,
) -> (out: (Seq<int>, int))
    requires
        data.wf(),
        n <= data.stops@.len(),
        before.len() == data.stops@.len(),
        sized(data, st),
        beats(st, before),
        round_sound(data, day, prev, st, stamp, clock),
    ensures
        sized(data, m::walks(data, n, st)),
        beats(m::walks(data, n, st), before),
        round_sound(data, day, prev, m::walks(data, n, st), out.0, out.1),
    decreases n,
{
    if n <= 0 {
        (stamp, clock)
    } else {
        let (st1, c1) = lemma_walks(data, day, prev, before, n - 1, st, stamp, clock);
        let mid = m::walks(data, n - 1, st);
        if mid.arr[n - 1] == NOT_SET {
            (st1, c1)
        } else {
            lemma_walk_from(
                data,
                day,
                prev,
                before,
                n - 1,
                data.stops@[n - 1].num_transfers as int,
                mid,
                st1,
                c1,
            )
        }
    }
}

/// A round after a round whose best arrivals are no later than its arrivals is sound.
proof fn lemma_next_round(data: TransitData, day: int, last: Round) -> (out: (Seq<int>, int))
    requires
        data.wf(),
        times_in_order(data),
        sized(data, last),
        forall|s: int| 0 <= s < last.arr.len() ==> #[trigger] last.best[s] <= last.arr[s],
    ensures
        sized(data, m::next_round(data, day, last)),
        beats(m::next_round(data, day, last), last.best),
        round_sound(data, day, last.arr, m::next_round(data, day, last), out.0, out.1),
{
    let fresh = m::fresh_round(last.best);
    let stamp = Seq::new(data.stops@.len(), |i: int| -1int);
    lemma_scan_routes(
        data,
        day,
        last.arr,
        last.best,
        data.routes@.len() as int,
        fresh,
        stamp,
        0,
    );
    let mid = m::scan_routes(data, day, last.arr, data.routes@.len() as int, fresh);
    lemma_walks(data, day, last.arr, last.best, data.stops@.len() as int, mid, stamp, 0)
}

// ---------------------------------------------------------------------------
// All rounds
// ---------------------------------------------------------------------------

pub(crate) proof fn lemma_origins(data: TransitData, query: RaptorQuery, n: int)
    requires
        query.wf(data),
        n <= query.origin_stops@.len(),
    ensures
        sized(data, m::origins(data, query, n)),
        m::origins(data, query, n).arr == m::origins(data, query, n).best,
        forall|s: int|
            0 <= s < data.stops@.len() && #[trigger] m::origins(data, query, n).arr[s] != NOT_SET
                ==> access_in_time(query, s, m::origins(data, query, n).arr[s] as int),
    decreases n,
{
    let out = m::origins(data, query, n);
    if n <= 0 {
        assert(out.arr =~= out.best);
    } else {
        lemma_origins(data, query, n - 1);
        let before = m::origins(data, query, n - 1);
        let (stop, walk) = query.origin_stops@[n - 1];
        assert forall|s: int| 0 <= s < data.stops@.len() && #[trigger] out.arr[s]
            != NOT_SET implies access_in_time(query, s, out.arr[s] as int) by {
            if out.arr[s] == before.arr[s] {
            } else {
                assert(query.origin_stops@[n - 1].0 == s);
            }
        }
    }
}

pub(crate) proof fn lemma_rounds(data: TransitData, query: RaptorQuery, k: int)
    requires
        k >= 0,
    ensures
        1 <= m::rounds(data, query, k).len() <= k + 1,
        m::rounds(data, query, k)[0] == m::origins(
            data,
            query,
            query.origin_stops@.len() as int,
        ),
        forall|i: int, j: int|
            0 <= i && j == i + 1 && j < m::rounds(data, query, k).len() ==> (#[trigger] m::rounds(
                data,
                query,
                k,
            )[j]) == m::next_round(
                data,
                query.service_day as int,
                #[trigger] m::rounds(data, query, k)[i],
            ),
    decreases k,
{
    if k > 0 {
        lemma_rounds(data, query, k - 1);
        let before = m::rounds(data, query, k - 1);
        let out = m::rounds(data, query, k);
        if m::any_reached(before.last().arr) {
            assert forall|i: int, j: int| 0 <= i && j == i + 1 && j < out.len() implies (
            #[trigger] out[j]) == m::next_round(
                data,
                query.service_day as int,
                #[trigger] out[i],
            ) by {
                assert(out[i] == before[i]);
                if j < before.len() {
                    assert(out[j] == before[j]);
                } else {
                    assert(before[i] == before.last());
                }
            }
        }
    }
}

/// The best arrivals of a round are no later than its arrivals.
pub(crate) proof fn lemma_best(data: TransitData, query: RaptorQuery, rs: Seq<Round>, k: int)
    requires
        data.wf(),
        query.wf(data),
        rs == m::query_rounds(data, query),
        0 <= k < rs.len(),
    ensures
        sized(data, rs[k]),
        forall|s: int| 0 <= s < data.stops@.len() ==> #[trigger] rs[k].best[s] <= rs[k].arr[s],
        k > 0 ==> beats(rs[k], rs[k - 1].best),
    decreases k,
{
    lemma_rounds(data, query, query.max_transfers + 1);
    if k == 0 {
        lemma_origins(data, query, query.origin_stops@.len() as int);
    } else {
        lemma_best(data, query, rs, k - 1);
        let last = rs[k - 1];
        assert(rs[k] == m::next_round(data, query.service_day as int, last));
        lemma_next_beats(data, query.service_day as int, last);
        assert forall|s: int| 0 <= s < data.stops@.len() implies #[trigger] rs[k].best[s]
            <= rs[k].arr[s] by {
            assert(rs[k].best[s] <= last.best[s]);
        }
    }
}

pub(crate) proof fn lemma_scan_beats(
    data: TransitData,
    day: int,
    prev: Seq<u32>,
    before: Seq<u32>,
    r: int,
    from: int,
    to: int,
    st: Round,
)
    requires
        data.wf(),
        0 <= r < data.routes@.len(),
        0 <= from,
        to <= data.routes@[r].stop_idxs@.len(),
        before.len() == data.stops@.len(),
        sized(data, st),
        beats(st, before),
    ensures
        sized(data, m::scan(data, day, prev, r, from, to, st).st),
        beats(m::scan(data, day, prev, r, from, to, st).st, before),
    decreases to - from,
{
    if to > from {
        lemma_scan_beats(data, day, prev, before, r, from, to - 1, st);
        let sc = m::scan(data, day, prev, r, from, to - 1, st);
        assert(data.route_ok(data.routes@[r]));
        let s = data.routes@[r].stop_idxs@[to - 1];
        assert(s < data.stops@.len());
        if sc.ride is Some {
            let rd = sc.ride->0;
            lemma_improve_basic(
                data,
                sc.st,
                before,
                s as int,
                m::shifted(
                    m::arrival(data, r, rd.trip_num as int, to - 1),
                    rd.freq_delta as int,
                ),
                Parent::Ride {
                    route_idx: r as u32,
                    trip_num: rd.trip_num,
                    board_pos: rd.board_pos,
                    board_time: rd.board_time,
                    freq_delta: rd.freq_delta,
                },
            );
        }
    }
}

pub(crate) proof fn lemma_scan_routes_beats(
    data: TransitData,
    day: int,
    prev: Seq<u32>,
    before: Seq<u32>,
    n: int,
    st: Round,
)
    requires
        data.wf(),
        n <= data.routes@.len(),
        before.len() == data.stops@.len(),
        sized(data, st),
        beats(st, before),
    ensures
        sized(data, m::scan_routes(data, day, prev, n, st)),
        beats(m::scan_routes(data, day, prev, n, st), before),
    decreases n,
{
    if n > 0 {
        lemma_scan_routes_beats(data, day, prev, before, n - 1, st);
        let mid = m::scan_routes(data, day, prev, n - 1, st);
        lemma_first_marked(data, prev, n - 1, 0);
        match m::first_marked(data, prev, n - 1, 0) {
            Some(p) => lemma_scan_beats(
                data,
                day,
                prev,
                before,
                n - 1,
                p,
                data.routes@[n - 1].stop_idxs@.len() as int,
                mid,
            ),
            None => {},
        }
    }
}

pub(crate) proof fn lemma_walk_from_beats(data: TransitData, before: Seq<u32>, s: int, n: int, st: Round)
    requires
        data.wf(),
        0 <= s < data.stops@.len(),
        n <= data.stops@[s].num_transfers,
        before.len() == data.stops@.len(),
        sized(data, st),
        beats(st, before),
    ensures
        sized(data, m::walk_from(data, s, n, st)),
        beats(m::walk_from(data, s, n, st), before),
    decreases n,
{
    if n > 0 {
        lemma_walk_from_beats(data, before, s, n - 1, st);
        let mid = m::walk_from(data, s, n - 1, st);
        assert(data.stop_ok(data.stops@[s]));
        let t = data.transfers@[data.stops@[s].transfers_offset + n - 1];
        lemma_improve_basic(
            data,
            mid,
            before,
            t.to_stop_idx as int,
            m::stored_time(mid.arr[s] + t.walk_seconds),
            Parent::Walk { from: s as u32 },
        );
    }
}

pub(crate) proof fn lemma_walks_beats(data: TransitData, before: Seq<u32>, n: int, st: Round)
    requires
        data.wf(),
        n <= data.stops@.len(),
        before.len() == data.stops@.len(),
        sized(data, st),
        beats(st, before),
    ensures
        sized(data, m::walks(data, n, st)),
        beats(m::walks(data, n, st), before),
    decreases n,
{
    if n > 0 {
        lemma_walks_beats(data, before, n - 1, st);
        let mid = m::walks(data, n - 1, st);
        if mid.arr[n - 1] != NOT_SET {
            lemma_walk_from_beats(
                data,
                before,
                n - 1,
                data.stops@[n - 1].num_transfers as int,
                mid,
            );
        }
    }
}

proof fn lemma_next_beats(data: TransitData, day: int, last: Round)
    requires
        data.wf(),
        sized(data, last),
    ensures
        sized(data, m::next_round(data, day, last)),
        beats(m::next_round(data, day, last), last.best),
{
    let fresh = m::fresh_round(last.best);
    lemma_scan_routes_beats(data, day, last.arr, last.best, data.routes@.len() as int, fresh);
    let mid = m::scan_routes(data, day, last.arr, data.routes@.len() as int, fresh);
    lemma_walks_beats(data, last.best, data.stops@.len() as int, mid);
}

/// Every arrival beats all arrivals at the same stop with fewer rides.
pub proof fn more_rides_arrive_earlier(
    data: TransitData,
    query: RaptorQuery,
    i: int,
    k: int,
    s: int,
)
    requires
        data.wf(),
        query.wf(data),
        0 <= i < k < m::query_rounds(data, query).len(),
        0 <= s < data.stops@.len(),
        m::query_rounds(data, query)[k].arr[s] != NOT_SET,
    ensures
        m::query_rounds(data, query)[k].arr[s] < m::query_rounds(data, query)[i].arr[s],
{
    let rs = m::query_rounds(data, query);
    lemma_best(data, query, rs, k);
    assert(rs[k].arr[s] < rs[k - 1].best[s]) by {
        assert(rs[k].best[s] <= rs[k - 1].best[s]);
    }
    lemma_best_falls(data, query, rs, i, k - 1, s);
    lemma_best(data, query, rs, i);
}

proof fn lemma_best_falls(
    data: TransitData,
    query: RaptorQuery,
    rs: Seq<Round>,
    i: int,
    k: int,
    s: int,
)
    requires
        data.wf(),
        query.wf(data),
        rs == m::query_rounds(data, query),
        0 <= i <= k < rs.len(),
        0 <= s < data.stops@.len(),
    ensures
        rs[k].best[s] <= rs[i].best[s],
    decreases k - i,
{
    if i < k {
        lemma_best_falls(data, query, rs, i, k - 1, s);
        lemma_best(data, query, rs, k);
    }
}

// ---------------------------------------------------------------------------
// Journeys
// ---------------------------------------------------------------------------

/// The stops that rank before `s`.
spec fn ranked_before(data: TransitData, st: Round, stamp: Seq<int>, s: int) -> Set<int> {
    vstd::set_lib::set_int_range(0, data.stops@.len() as int).filter(
        |u: int| earlier_rank(st, stamp, u, s),
    )
}

proof fn lemma_rank_drops(data: TransitData, st: Round, stamp: Seq<int>, s: int, from: int)
    requires
        earlier_rank(st, stamp, from, s),
        0 <= from < data.stops@.len(),
    ensures
        ranked_before(data, st, stamp, from).len() < ranked_before(data, st, stamp, s).len(),
        ranked_before(data, st, stamp, s).len() <= data.stops@.len(),
{
    let n = data.stops@.len() as int;
    let all = vstd::set_lib::set_int_range(0, n);
    vstd::set_lib::lemma_int_range(0, n);
    let a = ranked_before(data, st, stamp, from);
    let b = ranked_before(data, st, stamp, s);
    assert(a.subset_of(all));
    assert(b.subset_of(all));
    vstd::set_lib::lemma_len_subset(a, all);
    vstd::set_lib::lemma_len_subset(b, all);
    assert(a.insert(from).subset_of(b)) by {
        assert forall|u: int| a.insert(from).contains(u) implies b.contains(u) by {}
    }
    assert(!a.contains(from));
    vstd::set_lib::lemma_len_subset(a.insert(from), b);
}

proof fn lemma_walk_on(
    data: TransitData,
    from: int,
    t0: int,
    mid: int,
    t1: int,
    to: int,
    t2: int,
    last: int,
    i: int,
)
    requires
        walk_in_time(data, from, t0, mid, t1),
        0 <= mid < data.stops@.len(),
        footpath(data, mid, to, last, i),
        t1 + last <= t2,
    ensures
        walk_in_time(data, from, t0, to, t2),
{
    let (secs, n) = choose|secs: int, n: nat|
        secs >= 0 && #[trigger] on_foot(data, from, mid, secs, n) && t0 + secs <= t1;
    assert(on_foot(data, from, to, secs + last, n + 1));
}

/// The leg ends at stop `s` when the round says, or at a stop reached before.
spec fn ends_at(data: TransitData, st: Round, stamp: Seq<int>, leg: RaptorLeg, s: int) -> bool {
    let a = stop_at(data, leg.route_idx as int, leg.alight_stop_pos as int);
    (a == s && leg.alight_time == st.arr[s]) || earlier_rank(st, stamp, a, s)
}

proof fn lemma_trace(
    data: TransitData,
    query: RaptorQuery,
    rs: Seq<Round>,
    stamp: Seq<int>,
    clock: int,
    k: int,
    s: int,
    fuel: nat,
)
    requires
        data.wf(),
        query.wf(data),
        times_in_order(data),
        rs == m::query_rounds(data, query),
        1 <= k < rs.len(),
        0 <= s < data.stops@.len(),
        rs[k].arr[s] != NOT_SET,
        sized(data, rs[k]),
        round_sound(
            data,
            query.service_day as int,
            rs[k - 1].arr,
            rs[k],
            stamp,
            clock,
        ),
        ranked_before(data, rs[k], stamp, s).len() <= fuel,
    ensures
        m::trace(data, rs, k, s, fuel).len() == k,
        legs_lead_to(data, query, m::trace(data, rs, k, s, fuel), s, rs[k].arr[s] as int),
        ends_at(data, rs[k], stamp, m::trace(data, rs, k, s, fuel).last(), s),
    decreases k, fuel,
{
    let st = rs[k];
    let day = query.service_day as int;
    let legs = m::trace(data, rs, k, s, fuel);
    assert(parent_sound(data, day, rs[k - 1].arr, st, stamp, s));
    match st.par[s] {
        Parent::Unreached => {},
        Parent::Walk { from } => {
            let f = from as int;
            lemma_rank_drops(data, st, stamp, s, f);
            lemma_trace(data, query, rs, stamp, clock, k, f, (fuel - 1) as nat);
            let (secs, i) = choose|secs: int, i: int|
                #[trigger] footpath(data, f, s, secs, i) && st.arr[f] + secs <= st.arr[s];
            let end = legs.last();
            lemma_walk_on(
                data,
                stop_at(data, end.route_idx as int, end.alight_stop_pos as int),
                end.alight_time as int,
                f,
                st.arr[f] as int,
                s,
                st.arr[s] as int,
                secs,
                i,
            );
        },
        Parent::Ride { route_idx, trip_num, board_pos, board_time, freq_delta } => {
            let leg = m::ride_leg(data, s, st.par[s]);
            let b = stop_at(data, route_idx as int, board_pos as int);
            let front = m::trace(data, rs, k - 1, b, data.stops@.len());
            assert(legs == front.push(leg));
            assert(data.route_ok(data.routes@[route_idx as int]));
            assert(data.routes@[route_idx as int].stop_idxs@[board_pos as int]
                < data.stops@.len());
            assert(on_foot(data, s, s, 0, 0));
            assert(walk_in_time(data, s, leg.alight_time as int, s, st.arr[s] as int));
            assert(rs[k - 1].arr[b] <= leg.board_time);
            assert(leg.board_time < NOT_SET);
            if k == 1 {
                lemma_rounds(data, query, query.max_transfers + 1);
                lemma_origins(data, query, query.origin_stops@.len() as int);
                assert(access_in_time(query, b, rs[0].arr[b] as int));
                assert(front =~= Seq::empty());
                assert(legs =~= seq![leg]);
                lemma_access_later(query, b, rs[0].arr[b] as int, leg.board_time as int);
            } else {
                let (stamp1, clock1) = lemma_round_at(data, query, rs, k - 1);
                let n = data.stops@.len() as int;
                assert(ranked_before(data, rs[k - 1], stamp1, b).len() <= n) by {
                    vstd::set_lib::lemma_int_range(0, n);
                    vstd::set_lib::lemma_len_subset(
                        ranked_before(data, rs[k - 1], stamp1, b),
                        vstd::set_lib::set_int_range(0, n),
                    );
                }
                lemma_trace(data, query, rs, stamp1, clock1, k - 1, b, data.stops@.len());
                lemma_push_leg(data, query, front, leg, b, rs[k - 1].arr[b] as int, s, st.arr[s] as int);
            }
        },
    }
}

proof fn lemma_access_later(query: RaptorQuery, s: int, t0: int, t1: int)
    requires
        access_in_time(query, s, t0),
        t0 <= t1,
    ensures
        access_in_time(query, s, t1),
{
    let i = choose|i: int|
        0 <= i < query.origin_stops@.len() && (#[trigger] query.origin_stops@[i]).0 == s
            && query.departure_time + query.origin_stops@[i].1 <= t0;
    assert(query.origin_stops@[i].0 == s);
}

proof fn lemma_push_leg(
    data: TransitData,
    query: RaptorQuery,
    front: Seq<RaptorLeg>,
    leg: RaptorLeg,
    b: int,
    t0: int,
    s: int,
    at: int,
)
    requires
        legs_lead_to(data, query, front, b, t0),
        rideable(data, query.service_day as int, leg),
        stop_at(data, leg.route_idx as int, leg.board_stop_pos as int) == b,
        t0 <= leg.board_time,
        walk_in_time(
            data,
            stop_at(data, leg.route_idx as int, leg.alight_stop_pos as int),
            leg.alight_time as int,
            s,
            at,
        ),
    ensures
        legs_lead_to(data, query, front.push(leg), s, at),
{
    let legs = front.push(leg);
    let end = front.last();
    let from = stop_at(data, end.route_idx as int, end.alight_stop_pos as int);
    let (secs, n) = choose|secs: int, n: nat|
        secs >= 0 && #[trigger] on_foot(data, from, b, secs, n) && end.alight_time + secs <= t0;
    assert(on_foot(data, from, b, secs, n));
    assert(changes(data, end, leg));
    assert(legs[0] == front[0]);
    assert(legs.last() == leg);
    assert forall|i: int, j: int| 0 <= i && j == i + 1 && j < legs.len() implies changes(
        data,
        #[trigger] legs[i],
        #[trigger] legs[j],
    ) by {
        assert(legs[i] == front[i]);
        if j < front.len() {
            assert(legs[j] == front[j]);
        } else {
            assert(legs[j] == leg);
            assert(legs[i] == end);
        }
    }
    assert forall|i: int| 0 <= i < legs.len() implies rideable(
        data,
        query.service_day as int,
        #[trigger] legs[i],
    ) by {
        if i < front.len() {
            assert(legs[i] == front[i]);
        }
    }
}

proof fn lemma_round_at(data: TransitData, query: RaptorQuery, rs: Seq<Round>, k: int) -> (out: (
    Seq<int>,
    int,
))
    requires
        data.wf(),
        query.wf(data),
        times_in_order(data),
        rs == m::query_rounds(data, query),
        1 <= k < rs.len(),
    ensures
        sized(data, rs[k]),
        round_sound(data, query.service_day as int, rs[k - 1].arr, rs[k], out.0, out.1),
{
    lemma_rounds(data, query, query.max_transfers + 1);
    lemma_best(data, query, rs, k - 1);
    let last = rs[k - 1];
    assert(rs[k] == m::next_round(data, query.service_day as int, last));
    lemma_next_round(data, query.service_day as int, last)
}

/// The legs that lead to a stop reached in a round are as many as the rounds.
pub(crate) proof fn lemma_legs_found(data: TransitData, query: RaptorQuery, k: int, s: int)
    requires
        data.wf(),
        query.wf(data),
        times_in_order(data),
        1 <= k < m::query_rounds(data, query).len(),
        0 <= s < data.stops@.len(),
        m::query_rounds(data, query)[k].arr[s] != NOT_SET,
    ensures
        m::trace(data, m::query_rounds(data, query), k, s, data.stops@.len()).len() == k,
{
    let rs = m::query_rounds(data, query);
    let (stamp, clock) = lemma_round_at(data, query, rs, k);
    let n = data.stops@.len() as int;
    assert(ranked_before(data, rs[k], stamp, s).len() <= n) by {
        vstd::set_lib::lemma_int_range(0, n);
        vstd::set_lib::lemma_len_subset(
            ranked_before(data, rs[k], stamp, s),
            vstd::set_lib::set_int_range(0, n),
        );
    }
    lemma_trace(data, query, rs, stamp, clock, k, s, data.stops@.len());
}

proof fn lemma_trace_len(data: TransitData, rs: Seq<Round>, k: int, s: int, fuel: nat)
    ensures
        m::trace(data, rs, k, s, fuel).len() <= if k <= 0 {
            0
        } else {
            k
        },
    decreases k, fuel,
{
    if k > 0 {
        match rs[k].par[s] {
            Parent::Unreached => {},
            Parent::Walk { from } => if fuel > 0 {
                lemma_trace_len(data, rs, k, from as int, (fuel - 1) as nat);
            },
            Parent::Ride { route_idx, trip_num, board_pos, board_time, freq_delta } => {
                let board_stop = data.routes@[route_idx as int].stop_idxs@[board_pos as int];
                lemma_trace_len(data, rs, k - 1, board_stop as int, data.stops@.len());
            },
        }
    }
}

/// `j` is the journey to the `d`-th destination stop in round `k`.
spec fn found_at(
    data: TransitData,
    query: RaptorQuery,
    rs: Seq<Round>,
    j: JourneyView,
    d: int,
    k: int,
) -> bool {
    let dest = query.dest_stops@[d];
    let legs = m::legs_to(data, rs, k, dest);
    &&& 0 <= d < query.dest_stops@.len()
    &&& 1 <= k < rs.len()
    &&& legs.len() > 0
    &&& j == m::journey_of(data, query, legs, rs[k].arr[dest.0 as int], dest)
}

spec fn found_somewhere(
    data: TransitData,
    query: RaptorQuery,
    rs: Seq<Round>,
    j: JourneyView,
) -> bool {
    exists|d: int, k: int| found_at(data, query, rs, j, d, k)
}

proof fn lemma_insert_members(s: Seq<JourneyView>, j: JourneyView)
    ensures
        forall|i: int|
            0 <= i < m::insert_by_arrival(s, j).len() ==> {
                let x = #[trigger] m::insert_by_arrival(s, j)[i];
                x == j || s.contains(x)
            },
    decreases s.len(),
{
    let out = m::insert_by_arrival(s, j);
    if s.len() == 0 || m::in_order(s.last(), j) {
        assert forall|i: int| 0 <= i < out.len() implies {
            let x = #[trigger] out[i];
            x == j || s.contains(x)
        } by {
            if i < s.len() {
                assert(out[i] == s[i]);
            }
        }
    } else {
        let front = s.drop_last();
        lemma_insert_members(front, j);
        let inner = m::insert_by_arrival(front, j);
        assert forall|i: int| 0 <= i < out.len() implies {
            let x = #[trigger] out[i];
            x == j || s.contains(x)
        } by {
            if i < inner.len() {
                assert(out[i] == inner[i]);
                if inner[i] != j {
                    let q = choose|q: int| 0 <= q < front.len() && front[q] == inner[i];
                    assert(s[q] == inner[i]);
                }
            } else {
                assert(out[i] == s[s.len() - 1]);
            }
        }
    }
}

proof fn lemma_dest_found(
    data: TransitData,
    query: RaptorQuery,
    rs: Seq<Round>,
    d: int,
    k: int,
    found: Seq<JourneyView>,
)
    requires
        0 <= d < query.dest_stops@.len(),
        k <= rs.len(),
        forall|i: int|
            0 <= i < found.len() ==> found_somewhere(data, query, rs, #[trigger] found[i]),
    ensures
        forall|i: int|
            0 <= i < m::dest_journeys(data, query, rs, query.dest_stops@[d], k, found).len()
                ==> found_somewhere(
                data,
                query,
                rs,
                #[trigger] m::dest_journeys(data, query, rs, query.dest_stops@[d], k, found)[i],
            ),
    decreases k,
{
    let dest = query.dest_stops@[d];
    if k > 1 {
        lemma_dest_found(data, query, rs, d, k - 1, found);
        let before = m::dest_journeys(data, query, rs, dest, k - 1, found);
        let legs = m::legs_to(data, rs, k - 1, dest);
        if legs.len() > 0 {
            let j = m::journey_of(data, query, legs, rs[k - 1].arr[dest.0 as int], dest);
            lemma_insert_members(before, j);
            assert(found_at(data, query, rs, j, d, k - 1));
            let out = m::insert_by_arrival(before, j);
            assert forall|i: int| 0 <= i < out.len() implies found_somewhere(
                data,
                query,
                rs,
                #[trigger] out[i],
            ) by {
                if out[i] != j {
                    let q = choose|q: int| 0 <= q < before.len() && before[q] == out[i];
                    assert(found_somewhere(data, query, rs, before[q]));
                }
            }
        }
    }
}

proof fn lemma_all_found(data: TransitData, query: RaptorQuery, rs: Seq<Round>, n: int)
    requires
        n <= query.dest_stops@.len(),
    ensures
        forall|i: int|
            0 <= i < m::all_journeys(data, query, rs, n).len() ==> found_somewhere(
                data,
                query,
                rs,
                #[trigger] m::all_journeys(data, query, rs, n)[i],
            ),
    decreases n,
{
    if n > 0 {
        lemma_all_found(data, query, rs, n - 1);
        lemma_dest_found(
            data,
            query,
            rs,
            n - 1,
            rs.len() as int,
            m::all_journeys(data, query, rs, n - 1),
        );
    }
}

proof fn lemma_answer_found(data: TransitData, query: RaptorQuery, i: int)
    requires
        0 <= i < m::answer(data, query).len(),
    ensures
        found_somewhere(
            data,
            query,
            m::query_rounds(data, query),
            m::answer(data, query)[i],
        ),
{
    laws::answer_is_pareto_ordered(data, query);
    lemma_all_found(
        data,
        query,
        m::query_rounds(data, query),
        query.dest_stops@.len() as int,
    );
    let all = m::found_journeys(data, query);
    let j = m::answer(data, query)[i];
    assert(all.contains(j));
    let q = choose|q: int| 0 <= q < all.len() && all[q] == j;
    assert(found_somewhere(data, query, m::query_rounds(data, query), all[q]));
}

/// A journey rides at least once and changes at most as often as the query allows.
pub proof fn transfers_are_limited(data: TransitData, query: RaptorQuery, i: int)
    requires
        0 <= i < m::answer(data, query).len(),
    ensures
        1 <= m::answer(data, query)[i].legs.len() <= query.max_transfers + 1,
{
    let rs = m::query_rounds(data, query);
    let j = m::answer(data, query)[i];
    lemma_answer_found(data, query, i);
    let (d, k) = choose|d: int, k: int| found_at(data, query, rs, j, d, k);
    lemma_rounds(data, query, query.max_transfers + 1);
    lemma_trace_len(data, rs, k, query.dest_stops@[d].0 as int, data.stops@.len());
}

/// Every journey of the answer has a ride, begins at the stop where the first one is boarded, and
/// ends at a stop of the query, with its walking time.
pub proof fn journeys_begin_and_end_at_stops(data: TransitData, query: RaptorQuery, i: int)
    requires
        0 <= i < m::answer(data, query).len(),
    ensures
        ({
            let j = m::answer(data, query)[i];
            &&& j.legs.len() > 0
            &&& j.access_stop_idx == stop_at(
                data,
                j.legs[0].route_idx as int,
                j.legs[0].board_stop_pos as int,
            )
            &&& query.dest_stops@.contains((j.egress_stop_idx, j.egress_walk_secs))
        }),
{
    let rs = m::query_rounds(data, query);
    let j = m::answer(data, query)[i];
    lemma_answer_found(data, query, i);
    let (d, k) = choose|d: int, k: int| found_at(data, query, rs, j, d, k);
    assert(query.dest_stops@[d] == (j.egress_stop_idx, j.egress_walk_secs));
}

/// No origin stop is listed twice.
pub open spec fn origins_distinct(query: RaptorQuery) -> bool {
    forall|a: int, b: int|
        0 <= a < b < query.origin_stops@.len() ==> (#[trigger] query.origin_stops@[a]).0 != (
        #[trigger] query.origin_stops@[b]).0
}

/// The journey leads from an origin stop to the `d`-th destination stop, there by `at`.
pub open spec fn journey_to(
    data: TransitData,
    query: RaptorQuery,
    j: JourneyView,
    d: int,
    at: int,
) -> bool {
    &&& 0 <= d < query.dest_stops@.len()
    &&& query.dest_stops@[d] == (j.egress_stop_idx, j.egress_walk_secs)
    &&& legs_lead_to(data, query, j.legs, j.egress_stop_idx as int, at)
    &&& j.arrival_time == m::stored_time(at + j.egress_walk_secs)
    &&& j.access_stop_idx == stop_at(
        data,
        j.legs[0].route_idx as int,
        j.legs[0].board_stop_pos as int,
    )
}

proof fn lemma_walk_secs(stops: Seq<(u32, u32)>, s: u32, from: int, i: int)
    requires
        0 <= from <= i < stops.len(),
        stops[i].0 == s,
        forall|a: int, b: int|
            0 <= a < b < stops.len() ==> (#[trigger] stops[a]).0 != (#[trigger] stops[b]).0,
    ensures
        m::walk_secs_to(stops, s, from) == stops[i].1,
    decreases i - from,
{
    if from < i {
        assert(stops[from].0 != stops[i].0);
        lemma_walk_secs(stops, s, from + 1, i);
    }
}

/// Where times never go back along a trip, every journey of the answer can be made: it boards
/// first at an origin stop that can be reached in time, rides trips that run on the day, has time
/// to walk from each ride to the next, and arrives when it says. If its last ride ends at the stop
/// where it leaves for the destination, it arrives at the end of that ride plus the walk from there.
/// It does not leave before the query's departure, unless an origin stop is listed twice.
pub proof fn journeys_can_be_made(data: TransitData, query: RaptorQuery, i: int)
    requires
        data.wf(),
        query.wf(data),
        times_in_order(data),
        0 <= i < m::answer(data, query).len(),
    ensures
        exists|d: int, at: int| journey_to(data, query, m::answer(data, query)[i], d, at),
        ({
            let j = m::answer(data, query)[i];
            let last = j.legs.last();
            stop_at(data, last.route_idx as int, last.alight_stop_pos as int) == j.egress_stop_idx
                ==> j.arrival_time == m::stored_time(last.alight_time + j.egress_walk_secs)
        }),
        origins_distinct(query) ==> {
            let j = m::answer(data, query)[i];
            &&& query.departure_time <= j.departure_time
            &&& j.departure_time + j.access_walk_secs == j.legs[0].board_time
        },
{
    let rs = m::query_rounds(data, query);
    let j = m::answer(data, query)[i];
    lemma_answer_found(data, query, i);
    let (d, k) = choose|d: int, k: int| found_at(data, query, rs, j, d, k);
    let dest = query.dest_stops@[d];
    let s = dest.0 as int;
    let (stamp, clock) = lemma_round_at(data, query, rs, k);
    let n = data.stops@.len() as int;
    assert(ranked_before(data, rs[k], stamp, s).len() <= n) by {
        vstd::set_lib::lemma_int_range(0, n);
        vstd::set_lib::lemma_len_subset(
            ranked_before(data, rs[k], stamp, s),
            vstd::set_lib::set_int_range(0, n),
        );
    }
    lemma_trace(data, query, rs, stamp, clock, k, s, data.stops@.len());
    assert(journey_to(data, query, j, d, rs[k].arr[s] as int));
    if origins_distinct(query) {
        let first = stop_at(data, j.legs[0].route_idx as int, j.legs[0].board_stop_pos as int);
        let o = choose|o: int|
            0 <= o < query.origin_stops@.len() && (#[trigger] query.origin_stops@[o]).0 == first
                && query.departure_time + query.origin_stops@[o].1 <= j.legs[0].board_time;
        lemma_walk_secs(query.origin_stops@, first as u32, 0, o);
    }
}

} // verus!
