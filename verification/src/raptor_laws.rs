//! What holds of every answer of the search.

use crate::data::{FrequencyRule, TransitData, Trip, NOT_SET};
use crate::raptor::RaptorQuery;
use crate::raptor_model as m;
use crate::raptor_model::{JourneyView, Round};
use vstd::prelude::*;

verus! {

// ---------------------------------------------------------------------------
// Order of the answer
// ---------------------------------------------------------------------------

/// In order of arrival, and of departure, the latest first, where arrivals are equal.
pub open spec fn sorted_by_arrival(s: Seq<JourneyView>) -> bool {
    forall|i: int, j: int|
        0 <= i <= j < s.len() ==> m::in_order(#[trigger] s[i], #[trigger] s[j])
}

proof fn lemma_insert_sorted(s: Seq<JourneyView>, j: JourneyView)
    requires
        sorted_by_arrival(s),
    ensures
        sorted_by_arrival(m::insert_by_arrival(s, j)),
        m::insert_by_arrival(s, j).len() == s.len() + 1,
        forall|i: int|
            0 <= i < s.len() + 1 ==> {
                let x = #[trigger] m::insert_by_arrival(s, j)[i];
                x == j || s.contains(x)
            },
        s.len() > 0 && !m::in_order(s.last(), j) ==> m::insert_by_arrival(
            s,
            j,
        ).last() == s.last(),
        m::insert_by_arrival(s, j).contains(j),
        forall|x: JourneyView| s.contains(x) ==> #[trigger] m::insert_by_arrival(s, j).contains(x),
    decreases s.len(),
{
    let out = m::insert_by_arrival(s, j);
    if s.len() == 0 || m::in_order(s.last(), j) {
        assert forall|i: int| 0 <= i < out.len() implies {
            let x = #[trigger] out[i];
            x == j || s.contains(x)
        } by {
            if i < s.len() {
                assert(out[i] == s[i]);
            }
        }
        assert(out[s.len() as int] == j);
        assert forall|x: JourneyView| s.contains(x) implies #[trigger] out.contains(x) by {
            let i = choose|i: int| 0 <= i < s.len() && s[i] == x;
            assert(out[i] == x);
        }
        assert forall|a: int, b: int| 0 <= a <= b < out.len() implies m::in_order(
            #[trigger] out[a],
            #[trigger] out[b],
        ) by {
            if b == s.len() && a < s.len() {
                assert(m::in_order(s[a], s[s.len() - 1]));
            }
        }
    } else {
        let front = s.drop_last();
        let inner = m::insert_by_arrival(front, j);
        lemma_insert_sorted(front, j);
        assert(out == inner.push(s.last()));
        assert forall|i: int| 0 <= i < out.len() implies {
            let x = #[trigger] out[i];
            x == j || s.contains(x)
        } by {
            if i < inner.len() {
                assert(out[i] == inner[i]);
                if inner[i] != j {
                    let q = choose|q: int| 0 <= q < front.len() && front[q] == inner[i];
                    assert(s[q] == inner[i]);
                }
            } else {
                assert(s[s.len() - 1] == out[i]);
            }
        }
        let q = choose|q: int| 0 <= q < inner.len() && inner[q] == j;
        assert(out[q] == j);
        assert forall|x: JourneyView| s.contains(x) implies #[trigger] out.contains(x) by {
            let i = choose|i: int| 0 <= i < s.len() && s[i] == x;
            if i < s.len() - 1 {
                assert(front[i] == x);
                assert(front.contains(x));
                assert(inner.contains(x));
                let q = choose|q: int| 0 <= q < inner.len() && inner[q] == x;
                assert(out[q] == x);
            } else {
                assert(out[inner.len() as int] == x);
            }
        }
        assert forall|a: int, b: int| 0 <= a <= b < out.len() implies m::in_order(
            #[trigger] out[a],
            #[trigger] out[b],
        ) by {
            if b == inner.len() && a < inner.len() {
                assert(out[a] == inner[a]);
                if inner[a] != j {
                    let q = choose|q: int| 0 <= q < front.len() && front[q] == inner[a];
                    assert(m::in_order(s[q], s[s.len() - 1]));
                }
            }
        }
    }
}

proof fn lemma_dest_sorted(
    data: TransitData,
    query: RaptorQuery,
    rs: Seq<Round>,
    dest: (u32, u32),
    k: int,
    found: Seq<JourneyView>,
)
    requires
        sorted_by_arrival(found),
    ensures
        sorted_by_arrival(m::dest_journeys(data, query, rs, dest, k, found)),
    decreases k,
{
    if k > 1 {
        lemma_dest_sorted(data, query, rs, dest, k - 1, found);
        let before = m::dest_journeys(data, query, rs, dest, k - 1, found);
        let legs = m::legs_to(data, rs, k - 1, dest);
        if legs.len() > 0 {
            lemma_insert_sorted(
                before,
                m::journey_of(data, query, legs, rs[k - 1].arr[dest.0 as int], dest),
            );
        }
    }
}

pub(crate) proof fn lemma_all_sorted(data: TransitData, query: RaptorQuery, rs: Seq<Round>, n: int)
    ensures
        sorted_by_arrival(m::all_journeys(data, query, rs, n)),
    decreases n,
{
    if n > 0 {
        lemma_all_sorted(data, query, rs, n - 1);
        lemma_dest_sorted(
            data,
            query,
            rs,
            query.dest_stops@[n - 1],
            rs.len() as int,
            m::all_journeys(data, query, rs, n - 1),
        );
    }
}

proof fn lemma_undominated_members(s: Seq<JourneyView>)
    ensures
        m::undominated(s).len() <= s.len(),
        forall|i: int|
            0 <= i < m::undominated(s).len() ==> s.contains(#[trigger] m::undominated(s)[i]),
        forall|i: int| 0 <= i < s.len() ==> m::dominated(m::undominated(s), #[trigger] s[i]),
    decreases s.len(),
{
    if s.len() > 0 {
        let front = s.drop_last();
        lemma_undominated_members(front);
        let kept = m::undominated(front);
        let out = m::undominated(s);
        let last = s.last();
        assert(s[s.len() - 1] == last);
        assert forall|i: int| 0 <= i < out.len() implies s.contains(#[trigger] out[i]) by {
            if i < kept.len() {
                assert(out[i] == kept[i]);
                let q = choose|q: int| 0 <= q < front.len() && front[q] == kept[i];
                assert(s[q] == out[i]);
            }
        }
        assert forall|i: int| 0 <= i < s.len() implies m::dominated(out, #[trigger] s[i]) by {
            if i < front.len() {
                assert(front[i] == s[i]);
                let q = choose|q: int| 0 <= q < kept.len() && m::dominates(kept[q], front[i]);
                assert(out[q] == kept[q]);
                assert(m::dominates(out[q], s[i]));
            } else if !m::dominated(kept, last) {
                assert(m::dominates(out[kept.len() as int], last));
            }
        }
    }
}

/// Each further one arrives and leaves strictly later.
pub open spec fn staggered(s: Seq<JourneyView>) -> bool {
    forall|i: int, j: int|
        0 <= i < j < s.len() ==> (#[trigger] s[i]).arrival_time < (#[trigger] s[j]).arrival_time
            && s[i].departure_time < s[j].departure_time
}

proof fn lemma_staggered_push(kept: Seq<JourneyView>, last: JourneyView)
    requires
        staggered(kept),
        !m::dominated(kept, last),
        forall|i: int| 0 <= i < kept.len() ==> m::in_order(#[trigger] kept[i], last),
    ensures
        staggered(kept.push(last)),
{
    assert forall|i: int| 0 <= i < kept.len() implies (#[trigger] kept[i]).departure_time
        < last.departure_time && kept[i].arrival_time < last.arrival_time by {
        assert(!m::dominates(kept[i], last));
        assert(m::in_order(kept[i], last));
    }
}

pub(crate) proof fn lemma_undominated_staggered(s: Seq<JourneyView>)
    requires
        sorted_by_arrival(s),
    ensures
        staggered(m::undominated(s)),
    decreases s.len(),
{
    if s.len() > 0 {
        let front = s.drop_last();
        lemma_undominated_staggered(front);
        lemma_undominated_members(front);
        let kept = m::undominated(front);
        if !m::dominated(kept, s.last()) {
            assert forall|i: int| 0 <= i < kept.len() implies m::in_order(
                #[trigger] kept[i],
                s.last(),
            ) by {
                let q = choose|q: int| 0 <= q < front.len() && front[q] == kept[i];
                assert(m::in_order(s[q], s[s.len() - 1]));
            }
            lemma_staggered_push(kept, s.last());
        }
    }
}

/// The first one kept arrives no later than any.
proof fn lemma_first_is_earliest(s: Seq<JourneyView>, i: int)
    requires
        sorted_by_arrival(s),
        0 <= i < s.len(),
    ensures
        m::undominated(s).len() > 0,
        m::undominated(s)[0].arrival_time <= s[i].arrival_time,
{
    lemma_undominated_members(s);
    lemma_undominated_staggered(s);
    let kept = m::undominated(s);
    assert(m::dominated(kept, s[i]));
    let k = choose|k: int| 0 <= k < kept.len() && m::dominates(#[trigger] kept[k], s[i]);
    if k > 0 {
        assert(kept[0].arrival_time < kept[k].arrival_time);
    }
}

/// No journey of the answer leaves no earlier than another and arrives no later. The answer is in
/// order of arrival. It has at most `max_results` journeys, each of them found by the search; and
/// if none had to be cut off, every journey found is matched by one that leaves no earlier and
/// arrives no later. The first one arrives no later than any journey found.
pub proof fn answer_is_pareto_ordered(data: TransitData, query: RaptorQuery)
    ensures
        m::answer(data, query).len() <= query.max_results,
        staggered(m::answer(data, query)),
        forall|i: int, j: int|
            0 <= i < m::answer(data, query).len() && 0 <= j < m::answer(data, query).len() && i
                != j ==> !m::dominates(
                #[trigger] m::answer(data, query)[i],
                #[trigger] m::answer(data, query)[j],
            ),
        forall|i: int|
            0 <= i < m::answer(data, query).len() ==> m::found_journeys(data, query).contains(
                #[trigger] m::answer(data, query)[i],
            ),
        m::answer(data, query).len() < query.max_results ==> forall|i: int|
            0 <= i < m::found_journeys(data, query).len() ==> m::dominated(
                m::answer(data, query),
                #[trigger] m::found_journeys(data, query)[i],
            ),
        query.max_results > 0 ==> forall|i: int|
            0 <= i < m::found_journeys(data, query).len() ==> m::answer(data, query).len() > 0
                && m::answer(data, query)[0].arrival_time <= (#[trigger] m::found_journeys(
                data,
                query,
            )[i]).arrival_time,
{
    let found = m::found_journeys(data, query);
    lemma_all_sorted(data, query, m::query_rounds(data, query), query.dest_stops@.len() as int);
    lemma_undominated_members(found);
    lemma_undominated_staggered(found);
    let all = m::answer(data, query);
    assert forall|i: int, j: int| 0 <= i < all.len() && 0 <= j < all.len() && i != j implies
        !m::dominates(#[trigger] all[i], #[trigger] all[j]) by {
        if i < j {
            assert(all[i].departure_time < all[j].departure_time);
        } else {
            assert(all[j].arrival_time < all[i].arrival_time);
        }
    }
    if query.max_results > 0 {
        assert forall|i: int| 0 <= i < found.len() implies all.len() > 0 && all[0].arrival_time <= (
        #[trigger] found[i]).arrival_time by {
            lemma_first_is_earliest(found, i);
        }
    }
}

// ---------------------------------------------------------------------------
// Boarding
// ---------------------------------------------------------------------------

/// `run` is a start of the template under the rule.
pub open spec fn is_run(rule: FrequencyRule, run: int) -> bool {
    &&& rule.headway_secs != 0
    &&& rule.start_time != NOT_SET
    &&& rule.end_time != NOT_SET
    &&& rule.start_time <= run < rule.end_time
    &&& (run - rule.start_time) % rule.headway_secs as int == 0
}

/// The trip's stop times may be moved by `delta`: not at all for a scheduled trip, to a run of one
/// of its rules for a template.
pub open spec fn delta_ok(trip: Trip, delta: int) -> bool {
    if m::is_template(trip) {
        exists|i: int|
            0 <= i < trip.frequency_rules@.len() && is_run(
                #[trigger] trip.frequency_rules@[i],
                trip.template_first_departure + delta,
            )
    } else {
        delta == 0
    }
}

/// The `t`-th trip of route `r`, moved by `delta`, leaves position `pos` at `time`.
pub open spec fn leaves_at(
    data: TransitData,
    r: int,
    pos: int,
    day: int,
    t: int,
    delta: int,
    time: int,
) -> bool {
    let dep = m::departure(data, r, t, pos);
    &&& 0 <= t < data.routes@[r].num_trips
    &&& dep != NOT_SET
    &&& m::trip_runs(data, m::trip_of(data, r, t), day)
    &&& delta_ok(m::trip_of(data, r, t), delta)
    &&& time == dep + delta
}

proof fn lemma_next_run(rule: FrequencyRule, need: int)
    ensures
        m::next_run(rule, need) matches Some(x) ==> is_run(rule, x) && x >= need,
        forall|x: int|
            #[trigger] is_run(rule, x) && x >= need ==> m::next_run(rule, need) is Some
                && m::next_run(rule, need)->0 <= x,
{
    if rule.headway_secs != 0 && rule.start_time != NOT_SET && rule.end_time != NOT_SET {
        let h = rule.headway_secs as int;
        let s = rule.start_time as int;
        if need > s {
            let gap = need - s + h - 1;
            let run = s + (gap / h) * h;
            assert(run >= need && (run - s) % h == 0) by (nonlinear_arith)
                requires
                    h > 0,
                    gap == need - s + h - 1,
                    run == s + (gap / h) * h,
            ;
            assert forall|x: int| #[trigger] is_run(rule, x) && x >= need implies run <= x by {
                assert(run <= x) by (nonlinear_arith)
                    requires
                        h > 0,
                        gap == need - s + h - 1,
                        run == s + (gap / h) * h,
                        x >= need,
                        (x - s) % h == 0,
                ;
            }
        } else {
            assert(0int % h == 0) by (nonlinear_arith)
                requires
                    h > 0,
            ;
        }
    }
}

proof fn lemma_best_rule(trip: Trip, t: int, dep: u32, min_dep: u32, n: int)
    requires
        0 <= n <= trip.frequency_rules@.len(),
        0 <= t <= NOT_SET,
    ensures
        m::best_rule(trip, t, dep, min_dep, n) matches Some(b) ==> {
            &&& b.trip_num == t
            &&& b.time == dep + b.freq_delta
            &&& min_dep <= b.time < NOT_SET
            &&& exists|i: int|
                0 <= i < n && is_run(
                    #[trigger] trip.frequency_rules@[i],
                    trip.template_first_departure + b.freq_delta,
                )
        },
        forall|i: int, run: int|
            0 <= i < n && #[trigger] is_run(trip.frequency_rules@[i], run) && min_dep <= dep + run
                - trip.template_first_departure < NOT_SET ==> m::best_rule(
                trip,
                t,
                dep,
                min_dep,
                n,
            ) is Some && m::best_rule(trip, t, dep, min_dep, n)->0.time <= dep + run
                - trip.template_first_departure,
    decreases n,
{
    if n > 0 {
        lemma_best_rule(trip, t, dep, min_dep, n - 1);
        let rule = trip.frequency_rules@[n - 1];
        let offset = dep - trip.template_first_departure;
        lemma_next_run(rule, min_dep - offset);
        let out = m::best_rule(trip, t, dep, min_dep, n);
        let front = m::best_rule(trip, t, dep, min_dep, n - 1);
        if out is Some {
            let b = out->0;
            if out == front {
                let i = choose|i: int|
                    0 <= i < n - 1 && is_run(
                        #[trigger] trip.frequency_rules@[i],
                        trip.template_first_departure + b.freq_delta,
                    );
                assert(is_run(
                    trip.frequency_rules@[i],
                    trip.template_first_departure + b.freq_delta,
                ));
            } else {
                assert(is_run(
                    trip.frequency_rules@[n - 1],
                    trip.template_first_departure + b.freq_delta,
                ));
            }
        }
    }
}

proof fn lemma_best_template(data: TransitData, r: int, pos: int, min_dep: u32, day: int, n: int)
    requires
        0 <= n <= data.routes@[r].num_trips,
    ensures
        m::best_template(data, r, pos, min_dep, day, n) matches Some(b) ==> {
            &&& min_dep <= b.time < NOT_SET
            &&& b.trip_num < n
            &&& leaves_at(data, r, pos, day, b.trip_num as int, b.freq_delta as int, b.time as int)
        },
        forall|t: int, delta: int, time: int|
            t < n && m::is_template(m::trip_of(data, r, t)) && min_dep <= time < NOT_SET
                && #[trigger] leaves_at(data, r, pos, day, t, delta, time) ==> m::best_template(
                data,
                r,
                pos,
                min_dep,
                day,
                n,
            ) is Some && m::best_template(data, r, pos, min_dep, day, n)->0.time <= time,
    decreases n,
{
    if n > 0 {
        lemma_best_template(data, r, pos, min_dep, day, n - 1);
        let trip = m::trip_of(data, r, n - 1);
        let dep = m::departure(data, r, n - 1, pos);
        let rules = trip.frequency_rules@.len() as int;
        lemma_best_rule(trip, n - 1, dep, min_dep, rules);
        assert forall|t: int, delta: int, time: int|
            t < n && m::is_template(m::trip_of(data, r, t)) && min_dep <= time < NOT_SET
                && #[trigger] leaves_at(
                data,
                r,
                pos,
                day,
                t,
                delta,
                time,
            ) implies m::best_template(data, r, pos, min_dep, day, n) is Some && m::best_template(
            data,
            r,
            pos,
            min_dep,
            day,
            n,
        )->0.time <= time by {
            if t == n - 1 {
                let i = choose|i: int|
                    0 <= i < trip.frequency_rules@.len() && is_run(
                        #[trigger] trip.frequency_rules@[i],
                        trip.template_first_departure + delta,
                    );
                assert(is_run(trip.frequency_rules@[i], trip.template_first_departure + delta));
            }
        }
    }
}

proof fn lemma_first_scheduled(
    data: TransitData,
    r: int,
    pos: int,
    min_dep: u32,
    day: int,
    from: int,
)
    requires
        0 <= from,
    ensures
        m::first_scheduled(data, r, pos, min_dep, day, from) matches Some(b) ==> {
            &&& from <= b.trip_num < data.routes@[r].num_trips
            &&& m::scheduled_ok(data, r, pos, min_dep, day, b.trip_num as int)
            &&& b.time == m::departure(data, r, b.trip_num as int, pos)
            &&& b.freq_delta == 0
            &&& forall|t: int|
                from <= t < b.trip_num ==> !#[trigger] m::scheduled_ok(
                    data,
                    r,
                    pos,
                    min_dep,
                    day,
                    t,
                )
        },
        m::first_scheduled(data, r, pos, min_dep, day, from) is None ==> forall|t: int|
            from <= t < data.routes@[r].num_trips ==> !#[trigger] m::scheduled_ok(
                data,
                r,
                pos,
                min_dep,
                day,
                t,
            ),
    decreases data.routes@[r].num_trips - from,
{
    if from < data.routes@[r].num_trips && !m::scheduled_ok(data, r, pos, min_dep, day, from) {
        lemma_first_scheduled(data, r, pos, min_dep, day, from + 1);
    }
}

/// What is boarded leaves the stop at `time`, no earlier than asked for.
pub proof fn boarding_leaves_in_time(data: TransitData, r: int, pos: int, min_dep: u32, day: int)
    ensures
        m::boarding(data, r, pos, min_dep, day) matches Some(b) ==> {
            &&& min_dep <= b.time < NOT_SET
            &&& leaves_at(data, r, pos, day, b.trip_num as int, b.freq_delta as int, b.time as int)
        },
{
    let n = data.routes@[r].num_trips as int;
    let lb = m::lower_bound(data, r, pos, min_dep, 0, n);
    lemma_lower_bound_range(data, r, pos, min_dep, 0, n);
    lemma_first_scheduled(data, r, pos, min_dep, day, lb);
    lemma_best_template(data, r, pos, min_dep, day, n);
}

proof fn lemma_lower_bound_range(
    data: TransitData,
    r: int,
    pos: int,
    min_dep: u32,
    lo: int,
    hi: int,
)
    requires
        lo <= hi,
    ensures
        lo <= m::lower_bound(data, r, pos, min_dep, lo, hi) <= hi,
    decreases hi - lo,
{
    if lo < hi {
        let mid = lo + (hi - lo) / 2;
        lemma_lower_bound_range(data, r, pos, min_dep, mid + 1, hi);
        lemma_lower_bound_range(data, r, pos, min_dep, lo, mid);
    }
}

/// The trips of a route leave a stop position in the order in which they are listed.
pub open spec fn departures_ordered(data: TransitData, r: int, pos: int) -> bool {
    forall|a: int, b: int|
        0 <= a <= b < data.routes@[r].num_trips ==> #[trigger] m::departure(data, r, a, pos)
            <= #[trigger] m::departure(data, r, b, pos)
}

proof fn lemma_lower_bound_ordered(
    data: TransitData,
    r: int,
    pos: int,
    min_dep: u32,
    lo: int,
    hi: int,
)
    requires
        departures_ordered(data, r, pos),
        0 <= lo <= hi <= data.routes@[r].num_trips,
        forall|t: int| 0 <= t < lo ==> #[trigger] m::departure(data, r, t, pos) < min_dep,
        forall|t: int|
            hi <= t < data.routes@[r].num_trips ==> #[trigger] m::departure(data, r, t, pos)
                >= min_dep,
    ensures
        forall|t: int|
            0 <= t < m::lower_bound(data, r, pos, min_dep, lo, hi) ==> #[trigger] m::departure(
                data,
                r,
                t,
                pos,
            ) < min_dep,
    decreases hi - lo,
{
    if lo < hi {
        let mid = lo + (hi - lo) / 2;
        if m::departure(data, r, mid, pos) < min_dep {
            lemma_lower_bound_ordered(data, r, pos, min_dep, mid + 1, hi);
        } else {
            lemma_lower_bound_ordered(data, r, pos, min_dep, lo, mid);
        }
    }
}

/// Where the trips of a route leave in the order in which they are listed, no trip that runs on
/// the day leaves at or after `min_dep` and before the one that is boarded.
pub proof fn boarding_is_earliest(
    data: TransitData,
    r: int,
    pos: int,
    min_dep: u32,
    day: int,
    t: int,
    delta: int,
    time: int,
)
    requires
        departures_ordered(data, r, pos),
        leaves_at(data, r, pos, day, t, delta, time),
        min_dep <= time < NOT_SET,
    ensures
        m::boarding(data, r, pos, min_dep, day) is Some,
        m::boarding(data, r, pos, min_dep, day)->0.time <= time,
{
    let n = data.routes@[r].num_trips as int;
    let lb = m::lower_bound(data, r, pos, min_dep, 0, n);
    lemma_lower_bound_range(data, r, pos, min_dep, 0, n);
    lemma_lower_bound_ordered(data, r, pos, min_dep, 0, n);
    lemma_first_scheduled(data, r, pos, min_dep, day, lb);
    lemma_best_template(data, r, pos, min_dep, day, n);
    if !m::is_template(m::trip_of(data, r, t)) {
        assert(m::scheduled_ok(data, r, pos, min_dep, day, t));
        let b = m::first_scheduled(data, r, pos, min_dep, day, lb)->0;
        assert(m::departure(data, r, b.trip_num as int, pos) <= m::departure(data, r, t, pos));
    }
}

/// A repetition of a template is boarded only if it leaves before every scheduled trip that could be
/// boarded. Of scheduled trips, the first that is listed is.
pub proof fn scheduled_trips_go_first(
    data: TransitData,
    r: int,
    pos: int,
    min_dep: u32,
    day: int,
    t: int,
)
    requires
        departures_ordered(data, r, pos),
        0 <= t < data.routes@[r].num_trips,
        m::trip_of(data, r, t).frequency_rules@.len() == 0,
        m::trip_runs(data, m::trip_of(data, r, t), day),
        min_dep <= m::departure(data, r, t, pos) < 0xffff_ffff,
    ensures
        m::boarding(data, r, pos, min_dep, day) is Some,
        ({
            let b = m::boarding(data, r, pos, min_dep, day)->0;
            if m::trip_of(data, r, b.trip_num as int).frequency_rules@.len() > 0 {
                b.time < m::departure(data, r, t, pos)
            } else {
                b.trip_num <= t && b.freq_delta == 0
            }
        }),
{
    let n = data.routes@[r].num_trips as int;
    let lb = m::lower_bound(data, r, pos, min_dep, 0, n);
    lemma_lower_bound_range(data, r, pos, min_dep, 0, n);
    lemma_lower_bound_ordered(data, r, pos, min_dep, 0, n);
    lemma_first_scheduled(data, r, pos, min_dep, day, lb);
    lemma_best_template_kind(data, r, pos, min_dep, day, n);
    assert(lb <= t);
    assert(m::scheduled_ok(data, r, pos, min_dep, day, t));
    let b = m::first_scheduled(data, r, pos, min_dep, day, lb)->0;
    assert(b.trip_num <= t);
    assert(m::departure(data, r, b.trip_num as int, pos) <= m::departure(data, r, t, pos));
}

proof fn lemma_best_template_kind(
    data: TransitData,
    r: int,
    pos: int,
    min_dep: u32,
    day: int,
    n: int,
)
    requires
        0 <= n <= data.routes@[r].num_trips,
    ensures
        m::best_template(data, r, pos, min_dep, day, n) matches Some(b) ==> m::is_template(
            m::trip_of(data, r, b.trip_num as int),
        ),
    decreases n,
{
    if n > 0 {
        lemma_best_template_kind(data, r, pos, min_dep, day, n - 1);
        let trip = m::trip_of(data, r, n - 1);
        lemma_best_rule(
            trip,
            n - 1,
            m::departure(data, r, n - 1, pos),
            min_dep,
            trip.frequency_rules@.len() as int,
        );
    }
}

} // verus!
