//! What becomes of trips that repeat.

use crate::feed as f;
use crate::feed::{Feed, FrequencyView, GroupView, StopTimesView, TripView};
use crate::table as tab;
use crate::table::Table;
use crate::text as t;
use vstd::prelude::*;

verus! {

/// Different repetitions have different ids, of one trip and of different trips.
pub proof fn run_ids_differ(a: Seq<char>, r: int, b: Seq<char>, s: int)
    requires
        r >= 0,
        s >= 0,
        f::repeat_id(a, r) == f::repeat_id(b, s),
    ensures
        a == b,
        r == s,
{
    let x = f::repeat_id(a, r);
    let mid = "_freq_"@;
    reveal_strlit("_freq_");
    let p = t::padded(r, 10, 1);
    let q = t::padded(s, 10, 1);
    t::written_number_reads_back(r, 10, 1, r);
    t::written_number_reads_back(s, 10, 1, s);
    assert(p.len() > 0 && q.len() > 0);
    if p.len() < q.len() {
        let i = q.len() - p.len() - 1;
        t::lemma_padded_digits(s, 10, 1, i);
        assert(x[x.len() - p.len() - 1] == mid[5]);
        assert(x[x.len() - p.len() - 1] == q[i]);
    }
    if q.len() < p.len() {
        let i = p.len() - q.len() - 1;
        t::lemma_padded_digits(r, 10, 1, i);
        assert(x[x.len() - q.len() - 1] == mid[5]);
        assert(x[x.len() - q.len() - 1] == p[i]);
    }
    assert(p =~= x.subrange(x.len() - p.len(), x.len() as int));
    assert(q =~= x.subrange(x.len() - q.len(), x.len() as int));
    t::written_number_reads_back(s, 10, 1, if r < s {
        s
    } else {
        r
    });
    t::written_number_reads_back(r, 10, 1, if r < s {
        s
    } else {
        r
    });
    let n = x.len() - p.len() - mid.len();
    assert(a =~= x.take(n));
    assert(b =~= x.take(n));
}

/// The id is that of no repetition of a trip.
pub open spec fn not_a_run(trip: Seq<char>, id: Seq<char>) -> bool {
    forall|r: int| r >= 0 ==> id != #[trigger] f::repeat_id(trip, r)
}

/// What is known of a trip by its id is the same in both feeds.
spec fn same_trip(a: Feed, b: Feed, id: Seq<char>) -> bool {
    &&& a.stop_times.contains_key(id) == b.stop_times.contains_key(id)
    &&& a.stop_times[id] == b.stop_times[id]
    &&& a.trip_index.contains_key(id) == b.trip_index.contains_key(id)
    &&& a.trip_index[id] == b.trip_index[id]
}

proof fn lemma_repeats(
    x: Feed,
    template: TripView,
    st: StopTimesView,
    e: FrequencyView,
    first: int,
    n: int,
)
    requires
        first >= 0,
        n >= 0,
    ensures
        ({
            let out = f::repeats(x, template, st, e, first, n);
            &&& out.trips.len() == x.trips.len() + n
            &&& x.trips.is_prefix_of(out.trips)
            &&& forall|id: Seq<char>|
                (forall|r: int|
                    first <= r < first + n ==> id != #[trigger] f::repeat_id(template.id, r))
                    ==> #[trigger] same_trip(x, out, id)
            &&& forall|k: int|
                0 <= k < n ==> out.stop_times.contains_key(
                    #[trigger] f::repeat_id(template.id, first + k),
                ) && out.stop_times[f::repeat_id(template.id, first + k)] == f::moved_times(
                    st,
                    e.start + k * e.headway,
                ) && out.trips[x.trips.len() + k] == (TripView {
                    id: f::repeat_id(template.id, first + k),
                    ..template
                })
        }),
    decreases n,
{
    if n > 0 {
        lemma_repeats(x, template, st, e, first, n - 1);
        let before = f::repeats(x, template, st, e, first, n - 1);
        let out = f::repeats(x, template, st, e, first, n);
        let id = f::repeat_id(template.id, first + n - 1);
        assert(out.trips == before.trips.push(TripView { id, ..template }));
        assert forall|w: Seq<char>|
            (forall|r: int|
                first <= r < first + n ==> w != #[trigger] f::repeat_id(template.id, r))
            implies #[trigger] same_trip(x, out, w) by {
            assert(w != f::repeat_id(template.id, first + n - 1));
            assert(same_trip(x, before, w));
        }
        assert forall|k: int| 0 <= k < n implies out.stop_times.contains_key(
            #[trigger] f::repeat_id(template.id, first + k),
        ) && out.stop_times[f::repeat_id(template.id, first + k)] == f::moved_times(
            st,
            e.start + k * e.headway,
        ) && out.trips[x.trips.len() + k] == (TripView {
            id: f::repeat_id(template.id, first + k),
            ..template
        }) by {
            if k < n - 1 {
                if f::repeat_id(template.id, first + k) == id {
                    run_ids_differ(template.id, first + k, template.id, first + n - 1);
                }
                assert(out.trips[x.trips.len() + k] == before.trips[x.trips.len() + k]);
            }
        }
    }
}

proof fn lemma_counts(entries: Seq<FrequencyView>, n: int)
    ensures
        f::runs_before(entries, n) >= 0,
        n > 0 ==> f::repeat_count(entries[n - 1]) >= 0,
    decreases n,
{
    if n > 0 {
        lemma_counts(entries, n - 1);
        let x = entries[n - 1];
        if x.headway != 0 && x.start < x.end {
            vstd::arithmetic::div_mod::lemma_div_pos_is_pos(
                x.end - x.start - 1,
                x.headway as int,
            );
        }
    }
}

/// The runs of the first `n` frequencies, and nothing else, are added.
proof fn lemma_entries(
    x: Feed,
    template: TripView,
    st: StopTimesView,
    entries: Seq<FrequencyView>,
    n: int,
)
    requires
        0 <= n <= entries.len(),
    ensures
        ({
            let out = f::expand_entries(x, template, st, entries, n);
            &&& out.trips.len() == x.trips.len() + f::runs_before(entries, n)
            &&& x.trips.is_prefix_of(out.trips)
            &&& forall|id: Seq<char>|
                not_a_run(template.id, id) ==> #[trigger] same_trip(x, out, id)
            &&& forall|e: int, k: int|
                0 <= e < n && 0 <= k < f::repeat_count(entries[e]) ==> #[trigger] run_of(
                    x,
                    out,
                    template,
                    st,
                    entries,
                    e,
                    k,
                )
        }),
    decreases n,
{
    if n > 0 {
        lemma_entries(x, template, st, entries, n - 1);
        lemma_counts(entries, n);
        lemma_counts(entries, n - 1);
        let before = f::expand_entries(x, template, st, entries, n - 1);
        let out = f::expand_entries(x, template, st, entries, n);
        let last = entries[n - 1];
        let first = f::runs_before(entries, n - 1);
        let count = f::repeat_count(last);
        lemma_repeats(before, template, st, last, first, count);
        assert forall|id: Seq<char>| not_a_run(template.id, id) implies #[trigger] same_trip(
            x,
            out,
            id,
        ) by {
            assert(same_trip(x, before, id));
            assert(same_trip(before, out, id));
        }
        assert forall|e: int, k: int|
            0 <= e < n && 0 <= k < f::repeat_count(entries[e]) implies #[trigger] run_of(
            x,
            out,
            template,
            st,
            entries,
            e,
            k,
        ) by {
            let r = f::runs_before(entries, e) + k;
            let id = f::repeat_id(template.id, r);
            lemma_counts(entries, e);
            if e < n - 1 {
                assert(run_of(x, before, template, st, entries, e, k));
                lemma_runs_grow(entries, e, n - 1);
                assert forall|q: int| first <= q < first + count implies id
                    != #[trigger] f::repeat_id(template.id, q) by {
                    if id == f::repeat_id(template.id, q) {
                        run_ids_differ(template.id, r, template.id, q);
                    }
                }
                assert(same_trip(before, out, id));
                assert(out.trips[x.trips.len() + r] == before.trips[x.trips.len() + r]);
            } else {
                assert(id == f::repeat_id(template.id, first + k));
            }
        }
    }
}

/// Later runs have higher numbers.
proof fn lemma_runs_grow(entries: Seq<FrequencyView>, e: int, n: int)
    requires
        0 <= e < n,
    ensures
        f::runs_before(entries, e) + f::repeat_count(entries[e]) <= f::runs_before(entries, n),
    decreases n,
{
    lemma_counts(entries, n);
    if e < n - 1 {
        lemma_runs_grow(entries, e, n - 1);
    }
}

/// The `k`-th run of the `e`-th frequency is a trip of its own among those added to `x`.
pub open spec fn run_of(
    x: Feed,
    out: Feed,
    template: TripView,
    st: StopTimesView,
    entries: Seq<FrequencyView>,
    e: int,
    k: int,
) -> bool {
    let r = f::runs_before(entries, e) + k;
    let id = f::repeat_id(template.id, r);
    &&& out.stop_times.contains_key(id)
    &&& out.stop_times[id] == f::moved_times(st, entries[e].start + k * entries[e].headway)
    &&& 0 <= r
    &&& x.trips.len() + r < out.trips.len()
    &&& out.trips[x.trips.len() + r] == (TripView { id, ..template })
}

/// No trip has its frequencies in two groups, and none of them is named like a repetition.
pub open spec fn names_apart(groups: Seq<GroupView>) -> bool {
    &&& forall|a: int, b: int|
        0 <= a < b < groups.len() ==> (#[trigger] groups[a]).trip != (#[trigger] groups[b]).trip
    &&& forall|a: int, b: int|
        0 <= a < groups.len() && 0 <= b < groups.len() ==> not_a_run(
            (#[trigger] groups[a]).trip,
            (#[trigger] groups[b]).trip,
        )
}

/// The groups up to `n` change nothing about other trips than their repetitions.
proof fn lemma_groups_frame(x: Feed, groups: Seq<GroupView>, a: int, n: int, id: Seq<char>)
    requires
        0 <= a <= n <= groups.len(),
        forall|g: int| a <= g < n ==> not_a_run((#[trigger] groups[g]).trip, id),
    ensures
        same_trip(f::expand_groups(x, groups, a), f::expand_groups(x, groups, n), id),
        f::expand_groups(x, groups, a).trips.is_prefix_of(f::expand_groups(x, groups, n).trips),
    decreases n - a,
{
    if a < n {
        lemma_groups_frame(x, groups, a, n - 1, id);
        let before = f::expand_groups(x, groups, n - 1);
        let g = groups[n - 1];
        if f::is_template(before, g.trip) {
            let template = TripView { id: g.trip, ..before.trips[before.trip_index[g.trip] as int] };
            lemma_entries(
                before,
                template,
                before.stop_times[g.trip],
                g.entries,
                g.entries.len() as int,
            );
            assert(same_trip(before, f::expand_groups(x, groups, n), id));
        }
    }
}

proof fn lemma_dropped(x: Feed, groups: Seq<GroupView>, n: int, id: Seq<char>)
    requires
        0 <= n <= groups.len(),
    ensures
        ({
            let all = f::expand_groups(x, groups, groups.len() as int).stop_times;
            let out = f::drop_templates(x, groups, n);
            &&& (forall|g: int| 0 <= g < n ==> (#[trigger] groups[g]).trip != id) ==> {
                &&& out.contains_key(id) == all.contains_key(id)
                &&& out[id] == all[id]
            }
            &&& forall|g: int|
                0 <= g < n && f::is_template(
                    f::expand_groups(x, groups, g),
                    (#[trigger] groups[g]).trip,
                ) ==> !out.contains_key(groups[g].trip)
        }),
    decreases n,
{
    if n > 0 {
        lemma_dropped(x, groups, n - 1, id);
    }
}

/// Two trips are on one route, with one destination and on the same days.
pub open spec fn same_journey(a: TripView, b: TripView) -> bool {
    &&& a.route == b.route
    &&& a.service == b.service
    &&& a.headsign == b.headsign
    &&& a.direction == b.direction
}

/// Every run under every frequency of a trip becomes a trip of its own, with an id of its own and
/// the template's stop times moved to when it starts. It is on the template's route, with its
/// destination and on its days. The template has no stop times any more.
pub proof fn every_run_is_a_trip(x: Feed, groups: Seq<GroupView>, g: int, e: int, k: int)
    requires
        names_apart(groups),
        0 <= g < groups.len(),
        f::is_template(x, groups[g].trip),
        0 <= e < groups[g].entries.len(),
        0 <= k < f::repeat_count(groups[g].entries[e]),
    ensures
        ({
            let out = f::expanded(x, groups);
            let entry = groups[g].entries[e];
            let id = f::repeat_id(groups[g].trip, f::runs_before(groups[g].entries, e) + k);
            &&& out.stop_times.contains_key(id)
            &&& out.stop_times[id] == f::moved_times(
                x.stop_times[groups[g].trip],
                entry.start + k * entry.headway,
            )
            &&& exists|i: int| 0 <= i < out.trips.len() && (#[trigger] out.trips[i]).id == id
            &&& x.trip_index[groups[g].trip] < x.trips.len() ==> exists|i: int|
                0 <= i < out.trips.len() && (#[trigger] out.trips[i]).id == id && same_journey(
                    x.trips[x.trip_index[groups[g].trip] as int],
                    out.trips[i],
                )
            &&& !out.stop_times.contains_key(groups[g].trip)
        }),
{
    let n = groups.len() as int;
    let trip = groups[g].trip;
    let entries = groups[g].entries;
    let before = f::expand_groups(x, groups, g);
    let after = f::expand_groups(x, groups, g + 1);
    let all = f::expand_groups(x, groups, n);
    let r = f::runs_before(entries, e) + k;
    let id = f::repeat_id(trip, r);
    lemma_counts(entries, e);
    lemma_groups_frame(x, groups, 0, g, trip);
    assert(f::is_template(before, trip));
    let template = TripView { id: trip, ..before.trips[before.trip_index[trip] as int] };
    lemma_entries(before, template, before.stop_times[trip], entries, entries.len() as int);
    assert(run_of(before, after, template, before.stop_times[trip], entries, e, k));
    assert forall|h: int| g + 1 <= h < n implies not_a_run((#[trigger] groups[h]).trip, id) by {
        assert forall|q: int| q >= 0 implies id != #[trigger] f::repeat_id(groups[h].trip, q) by {
            if id == f::repeat_id(groups[h].trip, q) {
                run_ids_differ(trip, r, groups[h].trip, q);
                assert(groups[g].trip != groups[h].trip);
            }
        }
    }
    lemma_groups_frame(x, groups, g + 1, n, id);
    assert forall|h: int| 0 <= h < n implies (#[trigger] groups[h]).trip != id by {
        assert(not_a_run(groups[g].trip, groups[h].trip));
    }
    lemma_dropped(x, groups, n, id);
    let out = f::expanded(x, groups);
    let i = before.trips.len() + r;
    assert(out.trips[i] == after.trips[i]);
    assert(out.trips[i].id == id);
    if x.trip_index[trip] < x.trips.len() {
        assert(x.trips[x.trip_index[trip] as int] == before.trips[x.trip_index[trip] as int]);
        assert(same_journey(x.trips[x.trip_index[trip] as int], out.trips[i]));
    }
}

/// A run calls at the template's stops and takes as long from its start to each arrival and each
/// departure as the template, where the time fits in 32 bits. A time that is not known stays so.
pub proof fn runs_take_as_long(st: StopTimesView, to: int, i: int)
    requires
        0 < st.departures.len(),
        0 <= to < 0xffff_ffff,
        st.departures[0] != 0xffff_ffff,
    ensures
        ({
            let run = f::moved_times(st, to);
            let from = st.departures[0];
            &&& run.stops == st.stops
            &&& run.arrivals.len() == st.arrivals.len()
            &&& run.departures.len() == st.departures.len()
            &&& 0 <= i < st.arrivals.len() && st.arrivals[i] == 0xffff_ffff ==> run.arrivals[i]
                == 0xffff_ffff
            &&& 0 <= i < st.arrivals.len() && st.arrivals[i] != 0xffff_ffff && 0 <= st.arrivals[i]
                - from + to <= 0xffff_ffff ==> run.arrivals[i] - to == st.arrivals[i] - from
            &&& 0 <= i < st.departures.len() && st.departures[i] == 0xffff_ffff
                ==> run.departures[i] == 0xffff_ffff
            &&& 0 <= i < st.departures.len() && st.departures[i] != 0xffff_ffff && 0
                <= st.departures[i] - from + to <= 0xffff_ffff ==> run.departures[i] - to
                == st.departures[i] - from
        }),
{
}

/// Nothing but trips and their times changes where frequencies are expanded.
spec fn same_rest(a: Feed, b: Feed) -> bool {
    &&& a.timezone == b.timezone
    &&& a.feed_id == b.feed_id
    &&& a.agencies == b.agencies
    &&& a.agency_index == b.agency_index
    &&& a.stops == b.stops
    &&& a.stop_index == b.stop_index
    &&& a.routes == b.routes
    &&& a.route_index == b.route_index
    &&& a.services == b.services
    &&& a.pathways == b.pathways
    &&& a.links == b.links
    &&& a.fares == b.fares
    &&& a.fare_uses == b.fare_uses
}

proof fn lemma_repeats_rest(
    x: Feed,
    template: TripView,
    st: StopTimesView,
    e: FrequencyView,
    first: int,
    n: int,
)
    ensures
        same_rest(x, f::repeats(x, template, st, e, first, n)),
    decreases n,
{
    if n > 0 {
        lemma_repeats_rest(x, template, st, e, first, n - 1);
    }
}

proof fn lemma_entries_rest(
    x: Feed,
    template: TripView,
    st: StopTimesView,
    entries: Seq<FrequencyView>,
    n: int,
)
    ensures
        same_rest(x, f::expand_entries(x, template, st, entries, n)),
    decreases n,
{
    if n > 0 {
        lemma_entries_rest(x, template, st, entries, n - 1);
        lemma_repeats_rest(
            f::expand_entries(x, template, st, entries, n - 1),
            template,
            st,
            entries[n - 1],
            f::runs_before(entries, n - 1),
            f::repeat_count(entries[n - 1]),
        );
    }
}

proof fn lemma_groups_rest(x: Feed, groups: Seq<GroupView>, n: int)
    ensures
        same_rest(x, f::expand_groups(x, groups, n)),
    decreases n,
{
    if n > 0 {
        lemma_groups_rest(x, groups, n - 1);
        let before = f::expand_groups(x, groups, n - 1);
        let g = groups[n - 1];
        if f::is_template(before, g.trip) {
            lemma_entries_rest(
                before,
                TripView { id: g.trip, ..before.trips[before.trip_index[g.trip] as int] },
                before.stop_times[g.trip],
                g.entries,
                g.entries.len() as int,
            );
        }
    }
}

/// Frequencies change the trips that have some and nothing else: every trip stays where it is, a
/// trip without frequencies keeps its times, and the rest of the feed is as it was.
pub proof fn other_trips_stay(x: Feed, groups: Seq<GroupView>, id: Seq<char>, i: int)
    requires
        forall|g: int|
            0 <= g < groups.len() ==> (#[trigger] groups[g]).trip != id && not_a_run(
                groups[g].trip,
                id,
            ),
        0 <= i < x.trips.len(),
    ensures
        ({
            let out = f::expanded(x, groups);
            &&& out.stop_times.contains_key(id) == x.stop_times.contains_key(id)
            &&& out.stop_times[id] == x.stop_times[id]
            &&& out.trip_index.contains_key(id) == x.trip_index.contains_key(id)
            &&& out.trip_index[id] == x.trip_index[id]
            &&& i < out.trips.len()
            &&& out.trips[i] == x.trips[i]
            &&& out.timezone == x.timezone
            &&& out.feed_id == x.feed_id
            &&& out.agencies == x.agencies
            &&& out.agency_index == x.agency_index
            &&& out.stops == x.stops
            &&& out.stop_index == x.stop_index
            &&& out.routes == x.routes
            &&& out.route_index == x.route_index
            &&& out.services == x.services
            &&& out.pathways == x.pathways
            &&& out.links == x.links
            &&& out.fares == x.fares
            &&& out.fare_uses == x.fare_uses
        }),
{
    let n = groups.len() as int;
    lemma_groups_frame(x, groups, 0, n, id);
    lemma_dropped(x, groups, n, id);
    lemma_groups_rest(x, groups, n);
}

// ---------------------------------------------------------------------------
// Frequencies by trip
// ---------------------------------------------------------------------------

/// How many of the first `n` rows are about a trip.
pub open spec fn rows_about(tb: Table, trip: Seq<char>, n: int) -> int
    decreases n,
{
    if n <= 0 {
        0
    } else if tb.field(n - 1, "trip_id"@) == trip {
        rows_about(tb, trip, n - 1) + 1
    } else {
        rows_about(tb, trip, n - 1)
    }
}

spec fn groups_fit(tb: Table, trip_index: Map<Seq<char>, u32>, n: int) -> bool {
    let s = f::frequencies_in(tb, trip_index, n);
    &&& forall|a: int, b: int|
        0 <= a < b < s.len() ==> (#[trigger] s[a]).trip != (#[trigger] s[b]).trip
    &&& forall|a: int|
        0 <= a < s.len() ==> (#[trigger] s[a]).entries.len() == rows_about(tb, s[a].trip, n)
            && trip_index.contains_key(s[a].trip)
    &&& forall|i: int|
        0 <= i < n && trip_index.contains_key(tb.field(i, "trip_id"@)) ==> #[trigger] row_stands(
            tb,
            s,
            i,
        )
}

/// Row `i` stands in the group of its trip, after the rows about the trip before it.
pub open spec fn row_stands(tb: Table, s: Seq<GroupView>, i: int) -> bool {
    exists|a: int|
        0 <= a < s.len() && (#[trigger] s[a]).trip == tb.field(i, "trip_id"@) && row_at(
            tb,
            s[a].entries,
            i,
            rows_about(tb, tb.field(i, "trip_id"@), i),
        )
}

/// Entry `c` is what row `i` says.
pub open spec fn row_at(tb: Table, entries: Seq<FrequencyView>, i: int, c: int) -> bool {
    &&& 0 <= c < entries.len()
    &&& entries[c].start == f::time_in(tb.field(i, "start_time"@))
    &&& entries[c].end == f::time_in(tb.field(i, "end_time"@))
    &&& match t::decimal(tb.field(i, "headway_secs"@), 0xffff_ffff) {
        Some(v) => entries[c].headway == v,
        None => entries[c].headway == 0,
    }
}

proof fn lemma_rows_about(tb: Table, trip: Seq<char>, n: int)
    ensures
        rows_about(tb, trip, n) >= 0,
    decreases n,
{
    if n > 0 {
        lemma_rows_about(tb, trip, n - 1);
    }
}

proof fn lemma_find_group(s: Seq<GroupView>, trip: Seq<char>, from: int)
    requires
        0 <= from <= s.len(),
        forall|k: int| 0 <= k < from ==> (#[trigger] s[k]).trip != trip,
    ensures
        match tab::position(f::group_ids(s), trip, from) {
            Some(p) => 0 <= p < s.len() && s[p].trip == trip,
            None => forall|k: int| 0 <= k < s.len() ==> (#[trigger] s[k]).trip != trip,
        },
    decreases s.len() - from,
{
    if from < s.len() && s[from].trip != trip {
        lemma_find_group(s, trip, from + 1);
    }
}

proof fn lemma_no_rows(tb: Table, trip_index: Map<Seq<char>, u32>, n: int, trip: Seq<char>)
    requires
        0 <= n,
        groups_fit(tb, trip_index, n),
        trip_index.contains_key(trip),
        forall|k: int|
            0 <= k < f::frequencies_in(tb, trip_index, n).len() ==> (
            #[trigger] f::frequencies_in(tb, trip_index, n)[k]).trip != trip,
    ensures
        forall|m: int| 0 <= m <= n ==> #[trigger] rows_about(tb, trip, m) == 0,
{
    assert forall|i: int| 0 <= i < n implies #[trigger] tb.field(i, "trip_id"@) != trip by {
        if tb.field(i, "trip_id"@) == trip {
            assert(row_stands(tb, f::frequencies_in(tb, trip_index, n), i));
        }
    }
    assert forall|m: int| 0 <= m <= n implies #[trigger] rows_about(tb, trip, m) == 0 by {
        lemma_none(tb, trip, m);
    }
}

proof fn lemma_none(tb: Table, trip: Seq<char>, n: int)
    requires
        forall|i: int| 0 <= i < n ==> #[trigger] tb.field(i, "trip_id"@) != trip,
    ensures
        rows_about(tb, trip, n) == 0,
    decreases n,
{
    if n > 0 {
        lemma_none(tb, trip, n - 1);
    }
}

proof fn lemma_groups_fit(tb: Table, trip_index: Map<Seq<char>, u32>, n: int)
    requires
        0 <= n,
    ensures
        groups_fit(tb, trip_index, n),
    decreases n,
{
    let s = f::frequencies_in(tb, trip_index, n);
    if n > 0 {
        lemma_groups_fit(tb, trip_index, n - 1);
        let before = f::frequencies_in(tb, trip_index, n - 1);
        let x = f::frequency_at(tb, n - 1);
        let trip = tb.field(n - 1, "trip_id"@);
        if trip_index.contains_key(trip) {
            lemma_find_group(before, trip, 0);
            t::lemma_decimal_within(tb.field(n - 1, "headway_secs"@), 0xffff_ffff);
            lemma_rows_about(tb, trip, n - 1);
            let at: int = match tab::position(f::group_ids(before), trip, 0) {
                Some(k) => k,
                None => {
                    lemma_no_rows(tb, trip_index, n - 1, trip);
                    before.len() as int
                },
            };
            assert(s[at].trip == trip);
            assert(s[at].entries[rows_about(tb, trip, n - 1)] == x);
            assert(row_at(tb, s[at].entries, n - 1, rows_about(tb, trip, n - 1)));
            assert forall|i: int|
                0 <= i < n && trip_index.contains_key(
                    tb.field(i, "trip_id"@),
                ) implies #[trigger] row_stands(tb, s, i) by {
                if i < n - 1 {
                    assert(row_stands(tb, before, i));
                    let a = choose|a: int|
                        0 <= a < before.len() && (#[trigger] before[a]).trip == tb.field(
                            i,
                            "trip_id"@,
                        ) && row_at(
                            tb,
                            before[a].entries,
                            i,
                            rows_about(tb, tb.field(i, "trip_id"@), i),
                        );
                    let c = rows_about(tb, tb.field(i, "trip_id"@), i);
                    assert(s[a].trip == before[a].trip);
                    assert(s[a].entries[c] == before[a].entries[c]);
                    assert(row_at(tb, s[a].entries, i, c));
                }
            }
        } else {
            assert forall|a: int| 0 <= a < s.len() implies (#[trigger] s[a]).entries.len()
                == rows_about(tb, s[a].trip, n) && trip_index.contains_key(s[a].trip) by {
                assert(before[a].trip != trip);
            }
        }
    }
}

/// The frequencies of a trip are the rows about it, in order and once each, in one group. A row
/// about an unknown trip is in none.
pub proof fn frequencies_are_rows(tb: Table, trip_index: Map<Seq<char>, u32>, n: int)
    requires
        0 <= n,
    ensures
        ({
            let s = f::frequencies_in(tb, trip_index, n);
            &&& forall|a: int, b: int|
                0 <= a < b < s.len() ==> (#[trigger] s[a]).trip != (#[trigger] s[b]).trip
            &&& forall|a: int|
                0 <= a < s.len() ==> (#[trigger] s[a]).entries.len() == rows_about(
                    tb,
                    s[a].trip,
                    n,
                ) && trip_index.contains_key(s[a].trip)
            &&& forall|i: int|
                0 <= i < n && trip_index.contains_key(tb.field(i, "trip_id"@))
                    ==> #[trigger] row_stands(tb, s, i)
        }),
{
    lemma_groups_fit(tb, trip_index, n);
}

} // verus!
