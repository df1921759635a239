//! Which trips make up a pattern.

use crate::feed::Feed;
use crate::pattern as pat;
use crate::pattern::PatternView;
use vstd::prelude::*;

verus! {

/// Trip `i` belongs in a pattern with these stops, under that time: its route is known, and it
/// calls at two stops or more. It is ordered by its first departure, or by its first arrival if it
/// has none.
pub open spec fn fits_in(x: Feed, i: int, p: PatternView, time: u32) -> bool {
    let trip = x.trips[i];
    let st = x.stop_times[trip.id];
    &&& x.route_index.contains_key(trip.route)
    &&& x.stop_times.contains_key(trip.id)
    &&& st.stops.len() >= 2
    &&& p.route == x.route_index[trip.route]
    &&& p.stops == st.stops
    &&& st.departures[0] != 0xffff_ffff ==> time == st.departures[0]
    &&& st.departures[0] == 0xffff_ffff ==> time == st.arrivals[0]
}

/// Trips are in order of time; those of one time are in the order of the feed.
pub open spec fn in_order(s: Seq<(u32, u32)>) -> bool {
    forall|a: int, b: int|
        0 <= a < b < s.len() ==> (#[trigger] s[a]).1 < (#[trigger] s[b]).1 || (s[a].1 == s[b].1
            && s[a].0 < s[b].0)
}

spec fn all_before(s: Seq<(u32, u32)>, n: int) -> bool {
    forall|k: int| 0 <= k < s.len() ==> (#[trigger] s[k]).0 < n
}

proof fn lemma_insert(s: Seq<(u32, u32)>, e: (u32, u32))
    requires
        in_order(s),
        all_before(s, e.0 as int),
    ensures
        in_order(pat::insert_trip(s, e)),
        all_before(pat::insert_trip(s, e), e.0 + 1),
        forall|k: int|
            0 <= k < pat::insert_trip(s, e).len() ==> #[trigger] pat::insert_trip(s, e)[k] == e
                || s.contains(pat::insert_trip(s, e)[k]),
        pat::insert_trip(s, e).contains(e),
        forall|y: (u32, u32)| s.contains(y) ==> #[trigger] pat::insert_trip(s, e).contains(y),
    decreases s.len(),
{
    let out = pat::insert_trip(s, e);
    if s.len() == 0 || s.last().1 <= e.1 {
        assert(out[s.len() as int] == e);
        assert forall|k: int| 0 <= k < out.len() implies #[trigger] out[k] == e || s.contains(
            out[k],
        ) by {
            if k < s.len() {
                assert(s[k] == out[k]);
            }
        }
        assert forall|y: (u32, u32)| s.contains(y) implies #[trigger] out.contains(y) by {
            let k = choose|k: int| 0 <= k < s.len() && s[k] == y;
            assert(out[k] == y);
        }
        assert forall|a: int, b: int| 0 <= a < b < out.len() implies (#[trigger] out[a]).1 < (
        #[trigger] out[b]).1 || (out[a].1 == out[b].1 && out[a].0 < out[b].0) by {
            if b == s.len() && a < s.len() - 1 {
                assert(s[a].1 <= s[s.len() - 1].1);
            }
        }
    } else {
        let front = s.drop_last();
        lemma_insert(front, e);
        let inner = pat::insert_trip(front, e);
        assert(out == inner.push(s.last()));
        assert forall|k: int| 0 <= k < out.len() implies #[trigger] out[k] == e || s.contains(
            out[k],
        ) by {
            if k < inner.len() {
                assert(inner[k] == out[k]);
                if inner[k] != e {
                    assert(front.contains(inner[k]));
                    let j = choose|j: int| 0 <= j < front.len() && front[j] == inner[k];
                    assert(s[j] == out[k]);
                }
            } else {
                assert(s[s.len() - 1] == out[k]);
            }
        }
        assert forall|y: (u32, u32)| s.contains(y) implies #[trigger] out.contains(y) by {
            let k = choose|k: int| 0 <= k < s.len() && s[k] == y;
            if k < front.len() {
                assert(front[k] == y);
                assert(inner.contains(y));
                let j = choose|j: int| 0 <= j < inner.len() && inner[j] == y;
                assert(out[j] == y);
            } else {
                assert(out[inner.len() as int] == y);
            }
        }
        let at = choose|j: int| 0 <= j < inner.len() && inner[j] == e;
        assert(out[at] == e);
        assert forall|a: int, b: int| 0 <= a < b < out.len() implies (#[trigger] out[a]).1 < (
        #[trigger] out[b]).1 || (out[a].1 == out[b].1 && out[a].0 < out[b].0) by {
            if b < inner.len() {
                assert(inner[a] == out[a] && inner[b] == out[b]);
            } else {
                assert(inner[a] == out[a]);
                if inner[a] != e {
                    assert(front.contains(inner[a]));
                    let j = choose|j: int| 0 <= j < front.len() && front[j] == inner[a];
                    assert(s[j] == out[a] && s[s.len() - 1] == out[b]);
                }
            }
        }
    }
}

/// All that is in the patterns belongs there.
spec fn grouped(x: Feed, n: int) -> bool {
    let ps = pat::patterns_of(x, n);
    forall|p: int| 0 <= p < ps.len() ==> #[trigger] pattern_fits(x, ps[p], n)
}

spec fn pattern_fits(x: Feed, p: PatternView, n: int) -> bool {
    &&& in_order(p.trips)
    &&& all_before(p.trips, n)
    &&& p.trips.len() > 0
    &&& forall|k: int|
        0 <= k < p.trips.len() ==> fits_in(
            x,
            (#[trigger] p.trips[k]).0 as int,
            p,
            p.trips[k].1,
        )
}

proof fn lemma_put(x: Feed, p: PatternView, n: int)
    requires
        pattern_fits(x, p, n),
        0 <= n < u32::MAX,
        pat::usable(x, n),
        p.route == x.route_index[x.trips[n].route],
        p.stops == x.stop_times[x.trips[n].id].stops,
    ensures
        ({
            let e = (n as u32, pat::first_time(x.stop_times[x.trips[n].id]));
            pattern_fits(
                x,
                PatternView { trips: pat::insert_trip(p.trips, e), ..p },
                n + 1,
            )
        }),
{
    let e = (n as u32, pat::first_time(x.stop_times[x.trips[n].id]));
    lemma_insert(p.trips, e);
    let q = PatternView { trips: pat::insert_trip(p.trips, e), ..p };
    assert forall|k: int| 0 <= k < q.trips.len() implies fits_in(
        x,
        (#[trigger] q.trips[k]).0 as int,
        q,
        q.trips[k].1,
    ) by {
        if q.trips[k] != e {
            assert(p.trips.contains(q.trips[k]));
            let j = choose|j: int| 0 <= j < p.trips.len() && p.trips[j] == q.trips[k];
            assert(fits_in(x, p.trips[j].0 as int, p, p.trips[j].1));
        }
    }
}

proof fn lemma_grouped(x: Feed, n: int)
    requires
        n <= u32::MAX,
    ensures
        grouped(x, n),
    decreases n,
{
    if n > 0 {
        lemma_grouped(x, n - 1);
        let before = pat::patterns_of(x, n - 1);
        let ps = pat::patterns_of(x, n);
        let i = n - 1;
        if pat::usable(x, i) {
            let st = x.stop_times[x.trips[i].id];
            let route = x.route_index[x.trips[i].route];
            let e = (i as u32, pat::first_time(st));
            pat::lemma_find(before, route, st.stops, 0);
            assert forall|p: int| 0 <= p < ps.len() implies #[trigger] pattern_fits(x, ps[p], n) by {
                if p < before.len() {
                    assert(pattern_fits(x, before[p], i));
                }
                match pat::find_pattern(before, route, st.stops, 0) {
                    Some(k) => {
                        if p == k {
                            lemma_put(x, before[p], i);
                        }
                    },
                    None => {
                        if p == before.len() {
                            assert(ps[p].trips =~= seq![e]);
                        }
                    },
                }
            }
        } else {
            assert forall|p: int| 0 <= p < ps.len() implies #[trigger] pattern_fits(x, ps[p], n) by {
                assert(pattern_fits(x, before[p], i));
            }
        }
    }
}

/// A trip is in a pattern at some place.
pub open spec fn stands(x: Feed, ps: Seq<PatternView>, i: int, p: int, k: int) -> bool {
    &&& 0 <= p < ps.len()
    &&& 0 <= k < ps[p].trips.len()
    &&& ps[p].trips[k].0 == i
}

/// A trip on a known route that calls at two stops or more stands in one pattern and at one place
/// there. The pattern is that of its route and of all its stops.
pub proof fn trips_have_one_place(x: Feed, n: int, i: int)
    requires
        0 <= i < n <= u32::MAX,
        x.route_index.contains_key(x.trips[i].route),
        x.stop_times.contains_key(x.trips[i].id),
        x.stop_times[x.trips[i].id].stops.len() >= 2,
    ensures
        ({
            let ps = pat::patterns_of(x, n);
            &&& exists|p: int, k: int| #[trigger] stands(x, ps, i, p, k)
            &&& forall|p: int, k: int, q: int, j: int|
                #![trigger stands(x, ps, i, p, k), stands(x, ps, i, q, j)]
                stands(x, ps, i, p, k) && stands(x, ps, i, q, j) ==> p == q && k == j
        }),
{
    let ps = pat::patterns_of(x, n);
    pat::every_trip_is_placed(x, n, i);
    let p = choose|p: int| #[trigger] pat::placed(x, ps, i, p);
    let own = (i as u32, pat::first_time(x.stop_times[x.trips[i].id]));
    let k = choose|k: int| 0 <= k < ps[p].trips.len() && ps[p].trips[k] == own;
    assert(stands(x, ps, i, p, k));
    lemma_grouped(x, n);
    pat::patterns_are_sorted(x, n);
    assert forall|p: int, k: int, q: int, j: int|
        #![trigger stands(x, ps, i, p, k), stands(x, ps, i, q, j)]
        stands(x, ps, i, p, k) && stands(x, ps, i, q, j) implies p == q && k == j by {
        assert(pattern_fits(x, ps[p], n) && pattern_fits(x, ps[q], n));
        assert(fits_in(x, ps[p].trips[k].0 as int, ps[p], ps[p].trips[k].1));
        assert(fits_in(x, ps[q].trips[j].0 as int, ps[q], ps[q].trips[j].1));
        assert(pat::same_key(ps[p], ps[q]) && pat::same_key(ps[q], ps[p]));
    }
}

/// Every trip in a pattern is on its route and calls at all its stops in order, two or more. Trips
/// are in order of their first departure, or of their first arrival where that is not known. No
/// pattern is without trips, and no two are of one route and the same stops.
pub proof fn patterns_group_trips(x: Feed, n: int, p: int, q: int, k: int)
    requires
        n <= u32::MAX,
        0 <= p < pat::patterns_of(x, n).len(),
    ensures
        ({
            let ps = pat::patterns_of(x, n);
            &&& ps[p].trips.len() > 0
            &&& in_order(ps[p].trips)
            &&& 0 <= k < ps[p].trips.len() ==> ps[p].trips[k].0 < n && fits_in(
                x,
                ps[p].trips[k].0 as int,
                ps[p],
                ps[p].trips[k].1,
            )
            &&& 0 <= q < ps.len() && q != p ==> ps[p].route != ps[q].route || ps[p].stops
                != ps[q].stops
        }),
{
    lemma_grouped(x, n);
    let ps = pat::patterns_of(x, n);
    assert(pattern_fits(x, ps[p], n));
    pat::patterns_are_sorted(x, n);
    if 0 <= q < ps.len() && q != p {
        if p < q {
            assert(!pat::same_key(ps[p], ps[q]));
        } else {
            assert(!pat::same_key(ps[q], ps[p]));
        }
    }
}

} // verus!
