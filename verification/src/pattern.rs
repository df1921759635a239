//! Route patterns and service calendars of a feed.

use crate::calendar as cal;
use crate::data as d;
use crate::data::{Service, NOT_SET};
use crate::feed as f;
use crate::feed::{Feed, ServiceView, StopTimesView};
use crate::gtfs as g;
use crate::gtfs::{GtfsData, RawService};
use crate::lists;
use crate::text as t;
use vstd::hash_map::StringHashMap;
use vstd::prelude::*;

verus! {

// ---------------------------------------------------------------------------
// Route patterns
// ---------------------------------------------------------------------------

/// The trips of a route that call at the same stops.
#[derive(Debug, Clone)]
pub struct RoutePattern {
    pub gtfs_route_idx: u32,
    /// The stops, in order.
    pub stop_idxs: Vec<u32>,
    /// Trip and first departure, in order of departure.
    pub trip_order: Vec<(u32, u32)>,
}

#[verifier::ext_equal]
pub struct PatternView {
    pub route: u32,
    pub stops: Seq<u32>,
    pub trips: Seq<(u32, u32)>,
}

impl View for RoutePattern {
    type V = PatternView;

    open spec fn view(&self) -> PatternView {
        PatternView {
            route: self.gtfs_route_idx,
            stops: self.stop_idxs@,
            trips: self.trip_order@,
        }
    }
}

/// First departure of a trip, or its first arrival if that is not known.
pub open spec fn first_time(st: StopTimesView) -> u32 {
    if st.departures[0] != NOT_SET {
        st.departures[0]
    } else {
        st.arrivals[0]
    }
}

/// Trip `i` can be part of a pattern: its route is known and it calls at two stops or more.
pub open spec fn usable(x: Feed, i: int) -> bool {
    let trip = x.trips[i];
    &&& x.route_index.contains_key(trip.route)
    &&& x.stop_times.contains_key(trip.id)
    &&& x.stop_times[trip.id].stops.len() >= 2
}

/// First pattern from the `from`-th on with the given route and stops.
pub open spec fn find_pattern(ps: Seq<PatternView>, route: u32, stops: Seq<u32>, from: int) -> Option<
    int,
>
    decreases ps.len() - from,
{
    if from >= ps.len() {
        None
    } else if ps[from].route == route && ps[from].stops == stops {
        Some(from)
    } else {
        find_pattern(ps, route, stops, from + 1)
    }
}

/// Placed after every trip that leaves no later.
pub open spec fn insert_trip(s: Seq<(u32, u32)>, x: (u32, u32)) -> Seq<(u32, u32)>
    decreases s.len(),
{
    if s.len() == 0 || s.last().1 <= x.1 {
        s.push(x)
    } else {
        insert_trip(s.drop_last(), x).push(s.last())
    }
}

/// Adds a trip to the pattern with its route and stops, which is made if there is none.
pub open spec fn put_trip(
    ps: Seq<PatternView>,
    route: u32,
    stops: Seq<u32>,
    x: (u32, u32),
) -> Seq<PatternView> {
    match find_pattern(ps, route, stops, 0) {
        Some(k) => ps.update(k, PatternView { trips: insert_trip(ps[k].trips, x), ..ps[k] }),
        None => ps.push(PatternView { route, stops, trips: seq![x] }),
    }
}

/// The patterns of the first `n` trips.
pub open spec fn patterns_of(x: Feed, n: int) -> Seq<PatternView>
    decreases n,
{
    if n <= 0 {
        Seq::empty()
    } else if usable(x, n - 1) {
        let trip = x.trips[n - 1];
        let st = x.stop_times[trip.id];
        put_trip(
            patterns_of(x, n - 1),
            x.route_index[trip.route],
            st.stops,
            ((n - 1) as u32, first_time(st)),
        )
    } else {
        patterns_of(x, n - 1)
    }
}

/// No two patterns have the same route and stops.
pub open spec fn patterns_distinct(ps: Seq<PatternView>) -> bool {
    forall|a: int, b: int|
        0 <= a < b < ps.len() ==> !same_key(#[trigger] ps[a], #[trigger] ps[b])
}

pub open spec fn same_key(a: PatternView, b: PatternView) -> bool {
    a.route == b.route && a.stops == b.stops
}

pub(crate) proof fn lemma_find(ps: Seq<PatternView>, route: u32, stops: Seq<u32>, from: int)
    requires
        0 <= from,
    ensures
        match find_pattern(ps, route, stops, from) {
            Some(k) => from <= k < ps.len() && ps[k].route == route && ps[k].stops == stops,
            None => forall|k: int|
                from <= k < ps.len() ==> !(#[trigger] ps[k].route == route && ps[k].stops == stops),
        },
    decreases ps.len() - from,
{
    if from < ps.len() && !(ps[from].route == route && ps[from].stops == stops) {
        lemma_find(ps, route, stops, from + 1);
    }
}

proof fn lemma_put_distinct(ps: Seq<PatternView>, route: u32, stops: Seq<u32>, x: (u32, u32))
    requires
        patterns_distinct(ps),
    ensures
        patterns_distinct(put_trip(ps, route, stops, x)),
{
    lemma_find(ps, route, stops, 0);
    let out = put_trip(ps, route, stops, x);
    assert forall|a: int, b: int| 0 <= a < b < out.len() implies !same_key(
        #[trigger] out[a],
        #[trigger] out[b],
    ) by {
        if b < ps.len() {
            assert(!same_key(ps[a], ps[b]));
        }
    }
}

fn same_stops(a: &Vec<u32>, b: &Vec<u32>) -> (r: bool)
    ensures
        r == (a@ == b@),
{
    if a.len() != b.len() {
        return false;
    }
    let mut i: usize = 0;
    while i < a.len()
        invariant
            i <= a@.len(),
            a@.len() == b@.len(),
            forall|k: int| 0 <= k < i ==> a@[k] == b@[k],
        decreases a@.len() - i,
    {
        if a[i] != b[i] {
            return false;
        }
        i += 1;
    }
    assert(a@ =~= b@);
    true
}

/// Places a trip after every trip that leaves no later.
fn insert_in_order(s: &mut Vec<(u32, u32)>, x: (u32, u32))
    ensures
        final(s)@ == insert_trip(old(s)@, x),
{
    let ghost all = s@;
    let mut k: usize = s.len();
    assert(all.take(k as int) =~= all);
    assert(insert_trip(all, x) =~= insert_trip(all.take(k as int), x) + all.skip(k as int));
    while k > 0 && s[k - 1].1 > x.1
        invariant
            k <= s@.len(),
            s@ == all,
            insert_trip(all, x) == insert_trip(all.take(k as int), x) + all.skip(k as int),
        decreases k,
    {
        proof {
            let front = all.take(k as int);
            assert(front.last() == all[k as int - 1]);
            assert(front.drop_last() =~= all.take(k as int - 1));
            assert(insert_trip(front.drop_last(), x).push(front.last()) + all.skip(k as int)
                =~= insert_trip(front.drop_last(), x) + all.skip(k as int - 1));
        }
        k -= 1;
    }
    proof {
        let front = all.take(k as int);
        assert(k > 0 ==> front.last() == all[k as int - 1]);
        assert(all.insert(k as int, x) =~= front.push(x) + all.skip(k as int));
    }
    s.insert(k, x);
}

/// `lists[r]` holds the patterns of route `r`.
spec fn lists_ok(ps: Seq<PatternView>, lists: Seq<Vec<usize>>) -> bool {
    &&& forall|r: int, k: int|
        0 <= r < lists.len() && 0 <= k < lists[r]@.len() ==> (#[trigger] lists[r]@[k]) < ps.len()
            && ps[lists[r]@[k] as int].route == r
    &&& forall|p: int|
        0 <= p < ps.len() ==> (#[trigger] ps[p]).route < lists.len() && lists[ps[p].route as int]@.contains(
            p as usize,
        )
}

/// The pattern with the given route and stops.
fn find_in_list(
    ps: &Vec<RoutePattern>,
    lists: &Vec<Vec<usize>>,
    route: u32,
    stops: &Vec<u32>,
) -> (r: Option<usize>)
    requires
        lists_ok(f::views(ps@), lists@),
        patterns_distinct(f::views(ps@)),
        route < lists@.len(),
    ensures
        match r {
            Some(k) => find_pattern(f::views(ps@), route, stops@, 0) == Some(k as int) && k
                < ps@.len(),
            None => find_pattern(f::views(ps@), route, stops@, 0) is None,
        },
{
    let ghost pv = f::views(ps@);
    let list = &lists[route as usize];
    proof {
        lemma_find(pv, route, stops@, 0);
    }
    let mut i: usize = 0;
    while i < list.len()
        invariant
            i <= list@.len(),
            list == lists@[route as int],
            route < lists@.len(),
            pv == f::views(ps@),
            lists_ok(pv, lists@),
            patterns_distinct(pv),
            forall|j: int| 0 <= j < i ==> pv[#[trigger] list@[j] as int].stops != stops@,
            match find_pattern(pv, route, stops@, 0) {
                Some(k) => 0 <= k < pv.len() && pv[k].route == route && pv[k].stops == stops@,
                None => forall|k: int|
                    0 <= k < pv.len() ==> !(#[trigger] pv[k].route == route && pv[k].stops
                        == stops@),
            },
        decreases list@.len() - i,
    {
        let p: usize = list[i];
        assert(lists@[route as int]@[i as int] < pv.len());
        if same_stops(&ps[p].stop_idxs, stops) {
            proof {
                assert(pv[p as int].route == route && pv[p as int].stops == stops@);
                let k = find_pattern(pv, route, stops@, 0)->0;
                if k < p {
                    assert(!same_key(pv[k], pv[p as int]));
                } else if p < k {
                    assert(!same_key(pv[p as int], pv[k]));
                }
            }
            return Some(p);
        }
        i += 1;
    }
    proof {
        if find_pattern(pv, route, stops@, 0) is Some {
            let k = find_pattern(pv, route, stops@, 0)->0;
            assert(ps.len() == ps@.len());
            assert(pv[k].route == route);
            assert(list@.contains(k as usize));
            let j = choose|j: int| 0 <= j < list@.len() && list@[j] == k as usize;
            assert(pv[list@[j] as int].stops != stops@);
        }
    }
    None
}

/// Groups the trips of each route by the stops they call at.
pub fn build_route_patterns(gtfs: &GtfsData) -> (r: Vec<RoutePattern>)
    requires
        gtfs.wf(),
    ensures
        f::views(r@) == patterns_of(gtfs@, gtfs@.trips.len() as int),
{
    let mut ps: Vec<RoutePattern> = Vec::new();
    let mut lists: Vec<Vec<usize>> = Vec::new();
    let mut k: usize = 0;
    while k < gtfs.routes.len()
        invariant
            k <= gtfs.routes@.len(),
            lists@.len() == k,
            forall|j: int| 0 <= j < k ==> (#[trigger] lists@[j])@.len() == 0,
        decreases gtfs.routes@.len() - k,
    {
        lists.push(Vec::new());
        k += 1;
    }
    let ghost x = gtfs@;
    assert(f::views(ps@) =~= Seq::<PatternView>::empty());
    let mut i: usize = 0;
    while i < gtfs.trips.len()
        invariant
            i <= gtfs.trips@.len(),
            gtfs.wf(),
            x == gtfs@,
            lists@.len() == gtfs.routes@.len(),
            f::views(ps@) == patterns_of(x, i as int),
            patterns_distinct(f::views(ps@)),
            lists_ok(f::views(ps@), lists@),
        decreases gtfs.trips@.len() - i,
    {
        let trip = &gtfs.trips[i];
        assert(x.trips[i as int] == trip@);
        let ghost before = ps@;
        let ghost pv = f::views(before);
        match (
            gtfs.route_id_map.get(trip.route_id.as_str()),
            gtfs.stop_times.get(trip.trip_id.as_str()),
        ) {
            (Some(ridx), Some(st)) => {
                let route: u32 = *ridx;
                proof {
                    assert(x.route_index.contains_key(trip@.route));
                    assert(x.route_index[trip@.route] < x.routes.len());
                    assert(x.stop_times.contains_key(trip@.id));
                    assert(x.stop_times[trip@.id] == st@);
                    assert(g::times_ok(x.stop_times[trip@.id], x.stops.len() as int));
                }
                if st.stop_idxs.len() >= 2 {
                    let dep: u32 = if st.departures[0] != NOT_SET {
                        st.departures[0]
                    } else {
                        st.arrivals[0]
                    };
                    let entry: (u32, u32) = (i as u32, dep);
                    proof {
                        assert(usable(x, i as int));
                        lemma_put_distinct(pv, route, st@.stops, entry);
                        lemma_find(pv, route, st@.stops, 0);
                    }
                    match find_in_list(&ps, &lists, route, &st.stop_idxs) {
                        Some(p) => {
                            insert_in_order(&mut ps[p].trip_order, entry);
                            proof {
                                assert(f::views(ps@) =~= pv.update(
                                    p as int,
                                    PatternView {
                                        trips: insert_trip(pv[p as int].trips, entry),
                                        ..pv[p as int]
                                    },
                                ));
                                lemma_lists_updated(pv, f::views(ps@), lists@);
                            }
                        },
                        None => {
                            let n: usize = ps.len();
                            let mut trips: Vec<(u32, u32)> = Vec::new();
                            trips.push(entry);
                            let p = RoutePattern {
                                gtfs_route_idx: route,
                                stop_idxs: lists::copy_list(&st.stop_idxs),
                                trip_order: trips,
                            };
                            proof {
                                assert(p@ =~= (PatternView {
                                    route,
                                    stops: st@.stops,
                                    trips: seq![entry],
                                }));
                                f::lemma_views_push(before, p);
                            }
                            ps.push(p);
                            let ghost lists0 = lists@;
                            lists[route as usize].push(n);
                            proof {
                                lemma_lists_pushed(
                                    pv,
                                    f::views(ps@),
                                    lists0,
                                    lists@,
                                    route as int,
                                    n,
                                );
                            }
                        },
                    }
                } else {
                    assert(!usable(x, i as int));
                }
            },
            _ => {
                assert(!usable(x, i as int));
            },
        }
        i += 1;
    }
    ps
}

proof fn lemma_lists_updated(a: Seq<PatternView>, b: Seq<PatternView>, lists: Seq<Vec<usize>>)
    requires
        lists_ok(a, lists),
        a.len() == b.len(),
        forall|p: int| 0 <= p < a.len() ==> (#[trigger] b[p]).route == a[p].route,
    ensures
        lists_ok(b, lists),
{
    assert forall|p: int| 0 <= p < b.len() implies (#[trigger] b[p]).route < lists.len()
        && lists[b[p].route as int]@.contains(p as usize) by {
        assert(a[p].route < lists.len());
    }
    assert forall|r: int, k: int| 0 <= r < lists.len() && 0 <= k < lists[r]@.len() implies (
    #[trigger] lists[r]@[k]) < b.len() && b[lists[r]@[k] as int].route == r by {
        assert(lists[r]@[k] < a.len());
        assert(b[lists[r]@[k] as int].route == a[lists[r]@[k] as int].route);
    }
}

proof fn lemma_lists_pushed(
    a: Seq<PatternView>,
    b: Seq<PatternView>,
    lists: Seq<Vec<usize>>,
    lists1: Seq<Vec<usize>>,
    route: int,
    n: usize,
)
    requires
        lists_ok(a, lists),
        0 <= route < lists.len(),
        n == a.len(),
        b.len() == a.len() + 1,
        forall|p: int| 0 <= p < a.len() ==> (#[trigger] b[p]) == a[p],
        b[n as int].route == route,
        lists1.len() == lists.len(),
        forall|r: int| 0 <= r < lists.len() && r != route ==> #[trigger] lists1[r] == lists[r],
        lists1[route]@ == lists[route]@.push(n),
    ensures
        lists_ok(b, lists1),
{
    assert forall|p: int| 0 <= p < b.len() implies (#[trigger] b[p]).route < lists1.len()
        && lists1[b[p].route as int]@.contains(p as usize) by {
        if p < a.len() {
            assert(a[p].route < lists.len());
            let r = a[p].route as int;
            let j = choose|j: int| 0 <= j < lists[r]@.len() && lists[r]@[j] == p as usize;
            assert(lists1[r]@[j] == p as usize);
        } else {
            assert(lists1[route]@[lists[route]@.len() as int] == n);
        }
    }
    assert forall|r: int, k: int| 0 <= r < lists1.len() && 0 <= k < lists1[r]@.len() implies (
    #[trigger] lists1[r]@[k]) < b.len() && b[lists1[r]@[k] as int].route == r by {
        if r != route || k < lists[route]@.len() {
            assert(lists1[r]@[k] == lists[r]@[k]);
            assert(lists[r]@[k] < a.len());
            assert(b[lists[r]@[k] as int] == a[lists[r]@[k] as int]);
        }
    }
}

// ---------------------------------------------------------------------------
// Laws of patterns
// ---------------------------------------------------------------------------

pub open spec fn by_departure(s: Seq<(u32, u32)>) -> bool {
    forall|i: int, j: int|
        0 <= i <= j < s.len() ==> (#[trigger] s[i]).1 <= (#[trigger] s[j]).1
}

proof fn lemma_insert_by_departure(s: Seq<(u32, u32)>, x: (u32, u32))
    requires
        by_departure(s),
    ensures
        by_departure(insert_trip(s, x)),
        insert_trip(s, x).len() == s.len() + 1,
        s.len() > 0 && s.last().1 > x.1 ==> insert_trip(s, x).last() == s.last(),
        !(s.len() > 0 && s.last().1 > x.1) ==> insert_trip(s, x).last() == x,
    decreases s.len(),
{
    if s.len() > 0 && s.last().1 > x.1 {
        let front = s.drop_last();
        lemma_insert_by_departure(front, x);
        let inner = insert_trip(front, x);
        let out = inner.push(s.last());
        assert(inner.last().1 <= s.last().1) by {
            if front.len() > 0 && front.last().1 > x.1 {
                assert(front.last() == s[s.len() - 2]);
            }
        }
        assert forall|i: int, j: int| 0 <= i <= j < out.len() implies (#[trigger] out[i]).1 <= (
        #[trigger] out[j]).1 by {
            if j == out.len() - 1 {
                if i < inner.len() {
                    assert(out[i] == inner[i]);
                    assert(inner[i].1 <= inner[inner.len() - 1].1);
                }
            } else {
                assert(out[i] == inner[i] && out[j] == inner[j]);
            }
        }
    } else {
        let out = s.push(x);
        assert forall|i: int, j: int| 0 <= i <= j < out.len() implies (#[trigger] out[i]).1 <= (
        #[trigger] out[j]).1 by {
            if j == out.len() - 1 && i < s.len() {
                assert(s[i].1 <= s[s.len() - 1].1);
            }
        }
    }
}

/// Whatever was in the list stays, and the new element is in it.
proof fn lemma_insert_contains(s: Seq<(u32, u32)>, x: (u32, u32), y: (u32, u32))
    ensures
        insert_trip(s, x).contains(y) <==> y == x || s.contains(y),
    decreases s.len(),
{
    let out = insert_trip(s, x);
    if s.len() > 0 && s.last().1 > x.1 {
        let front = s.drop_last();
        lemma_insert_contains(front, x, y);
        let inner = insert_trip(front, x);
        assert(s[s.len() - 1] == s.last());
        assert(out[inner.len() as int] == s.last());
        if inner.contains(y) {
            let k = choose|k: int| 0 <= k < inner.len() && inner[k] == y;
            assert(out[k] == y);
        }
        if front.contains(y) {
            let k = choose|k: int| 0 <= k < front.len() && front[k] == y;
            assert(s[k] == y);
        }
        if s.contains(y) && y != s.last() {
            let k = choose|k: int| 0 <= k < s.len() && s[k] == y;
            assert(front[k] == y);
        }
        if out.contains(y) && y != s.last() {
            let k = choose|k: int| 0 <= k < out.len() && out[k] == y;
            assert(inner[k] == y);
        }
    } else {
        assert(out[s.len() as int] == x);
        if s.contains(y) {
            let k = choose|k: int| 0 <= k < s.len() && s[k] == y;
            assert(out[k] == y);
        }
        if out.contains(y) && y != x {
            let k = choose|k: int| 0 <= k < out.len() && out[k] == y;
            assert(s[k] == y);
        }
    }
}

/// No two patterns share route and stops, and the trips of each pattern are in order of departure.
pub proof fn patterns_are_sorted(x: Feed, n: int)
    ensures
        patterns_distinct(patterns_of(x, n)),
        forall|p: int|
            0 <= p < patterns_of(x, n).len() ==> by_departure(
                (#[trigger] patterns_of(x, n)[p]).trips,
            ),
    decreases n,
{
    if n > 0 {
        patterns_are_sorted(x, n - 1);
        if usable(x, n - 1) {
            let trip = x.trips[n - 1];
            let st = x.stop_times[trip.id];
            let ps = patterns_of(x, n - 1);
            let route = x.route_index[trip.route];
            let entry = ((n - 1) as u32, first_time(st));
            lemma_put_distinct(ps, route, st.stops, entry);
            lemma_find(ps, route, st.stops, 0);
            let out = patterns_of(x, n);
            assert forall|p: int| 0 <= p < out.len() implies by_departure(
                (#[trigger] out[p]).trips,
            ) by {
                match find_pattern(ps, route, st.stops, 0) {
                    Some(k) => {
                        assert(by_departure(ps[p].trips));
                        if p == k {
                            lemma_insert_by_departure(ps[k].trips, entry);
                        }
                    },
                    None => {
                        if p < ps.len() {
                            assert(by_departure(ps[p].trips));
                        }
                    },
                }
            }
        }
    }
}

/// Trip `i` is in pattern `p` with its own route, stops and first time.
pub open spec fn placed(x: Feed, ps: Seq<PatternView>, i: int, p: int) -> bool {
    let trip = x.trips[i];
    let st = x.stop_times[trip.id];
    &&& 0 <= p < ps.len()
    &&& ps[p].route == x.route_index[trip.route]
    &&& ps[p].stops == st.stops
    &&& ps[p].trips.contains((i as u32, first_time(st)))
}

/// Every usable trip is in the pattern of its route and stops.
pub proof fn every_trip_is_placed(x: Feed, n: int, i: int)
    requires
        0 <= i < n,
        usable(x, i),
    ensures
        exists|p: int| #[trigger] placed(x, patterns_of(x, n), i, p),
    decreases n,
{
    let ps = patterns_of(x, n - 1);
    let out = patterns_of(x, n);
    if i < n - 1 {
        every_trip_is_placed(x, n - 1, i);
        let p = choose|p: int| #[trigger] placed(x, ps, i, p);
        if usable(x, n - 1) {
            let trip = x.trips[n - 1];
            let st = x.stop_times[trip.id];
            let route = x.route_index[trip.route];
            let entry = ((n - 1) as u32, first_time(st));
            let own = (i as u32, first_time(x.stop_times[x.trips[i].id]));
            lemma_find(ps, route, st.stops, 0);
            lemma_insert_contains(ps[p].trips, entry, own);
        }
        assert(placed(x, out, i, p));
    } else {
        let trip = x.trips[i];
        let st = x.stop_times[trip.id];
        let route = x.route_index[trip.route];
        let entry = (i as u32, first_time(st));
        lemma_find(ps, route, st.stops, 0);
        match find_pattern(ps, route, st.stops, 0) {
            Some(k) => {
                lemma_insert_contains(ps[k].trips, entry, entry);
                assert(placed(x, out, i, k));
            },
            None => {
                assert(out[ps.len() as int].trips[0] == entry);
                assert(placed(x, out, i, ps.len() as int));
            },
        }
    }
}

/// The pattern belongs to a route that exists, calls at stops that exist, and has trips that call
/// at just these stops.
pub open spec fn pattern_sound(x: Feed, p: PatternView) -> bool {
    &&& p.route < x.routes.len()
    &&& p.stops.len() >= 2
    &&& p.trips.len() > 0
    &&& forall|k: int| 0 <= k < p.stops.len() ==> #[trigger] p.stops[k] < x.stops.len()
    &&& forall|k: int| 0 <= k < p.trips.len() ==> calls_at(x, (#[trigger] p.trips[k]).0, p.stops)
}

/// A trip that exists calls at these stops.
pub open spec fn calls_at(x: Feed, trip: u32, stops: Seq<u32>) -> bool {
    &&& trip < x.trips.len()
    &&& x.stop_times.contains_key(x.trips[trip as int].id)
    &&& x.stop_times[x.trips[trip as int].id].stops == stops
}

/// Every pattern refers to a route, stops and trips that exist, and its trips call at its stops.
pub proof fn patterns_are_sound(x: Feed, n: int)
    requires
        g::feed_wf(x),
        n <= x.trips.len() <= u32::MAX,
    ensures
        n >= 0 ==> patterns_of(x, n).len() <= n,
        forall|p: int|
            0 <= p < patterns_of(x, n).len() ==> pattern_sound(x, #[trigger] patterns_of(x, n)[p]),
    decreases n,
{
    if n > 0 {
        patterns_are_sound(x, n - 1);
        if usable(x, n - 1) {
            let trip = x.trips[n - 1];
            let st = x.stop_times[trip.id];
            let ps = patterns_of(x, n - 1);
            let route = x.route_index[trip.route];
            let entry = ((n - 1) as u32, first_time(st));
            lemma_find(ps, route, st.stops, 0);
            let out = patterns_of(x, n);
            assert(g::times_ok(st, x.stops.len() as int));
            assert forall|p: int| 0 <= p < out.len() implies pattern_sound(x, #[trigger] out[p]) by {
                if p < ps.len() {
                    assert(pattern_sound(x, ps[p]));
                }
                match find_pattern(ps, route, st.stops, 0) {
                    Some(k) => {
                        if p == k {
                            lemma_insert_contains(ps[k].trips, entry, entry);
                            assert forall|j: int| 0 <= j < out[p].trips.len() implies calls_at(
                                x,
                                (#[trigger] out[p].trips[j]).0,
                                out[p].stops,
                            ) by {
                                let e = out[p].trips[j];
                                assert(out[p].trips.contains(e));
                                lemma_insert_contains(ps[k].trips, entry, e);
                                if e != entry {
                                    let i = choose|i: int|
                                        0 <= i < ps[k].trips.len() && ps[k].trips[i] == e;
                                    assert(calls_at(x, ps[k].trips[i].0, ps[k].stops));
                                }
                            }
                        }
                    },
                    None => {},
                }
            }
        }
    }
}

// ---------------------------------------------------------------------------
// Service calendars
// ---------------------------------------------------------------------------

/// A service as a row of bits, one for each day from `start_epoch_days` on.
#[derive(Debug, Clone)]
pub struct EncodedService {
    pub id: String,
    pub start_epoch_days: u32,
    pub day_bits: Vec<u8>,
}

/// The service runs on a day of its range.
pub open spec fn active(s: ServiceView, day: u32) -> bool {
    (s.days[cal::weekday(day as int)] || s.additions.contains(day)) && !s.removals.contains(day)
}

/// How many days the service covers, at least one.
pub open spec fn num_days(s: ServiceView) -> int {
    if s.end >= s.start {
        s.end - s.start + 1
    } else {
        1
    }
}

/// Bit `i` of a row of bytes, from the lowest bit of the first byte on.
pub open spec fn bit_at(bits: Seq<u8>, i: int) -> bool {
    d::bit_set(bits[i / 8], i % 8)
}

/// The row of bits says of each day whether the service runs.
pub open spec fn encodes(e: EncodedService, s: ServiceView) -> bool {
    &&& e.id@ == s.id
    &&& e.start_epoch_days == s.start
    &&& e.day_bits@.len() == (num_days(s) + 7) / 8
    &&& forall|i: int|
        0 <= i < 8 * e.day_bits@.len() ==> #[trigger] bit_at(e.day_bits@, i) == (i < num_days(s)
            && active(s, (s.start + i) as u32))
}

fn holds(v: &Vec<u32>, x: u32) -> (r: bool)
    ensures
        r == v@.contains(x),
{
    let mut i: usize = 0;
    while i < v.len()
        invariant
            i <= v@.len(),
            forall|k: int| 0 <= k < i ==> v@[k] != x,
        decreases v@.len() - i,
    {
        if v[i] == x {
            return true;
        }
        i += 1;
    }
    false
}

proof fn lemma_zero_bits(k: u8)
    by (bit_vector)
    requires
        k < 8,
    ensures
        (0u8 >> k) & 1 != 1,
{
}

proof fn lemma_or_bit(b: u8, j: u8, k: u8)
    by (bit_vector)
    requires
        j < 8,
        k < 8,
    ensures
        ((b | (1u8 << j)) >> k) & 1 == 1 <==> (k == j || (b >> k) & 1 == 1),
{
}

/// Encodes one service.
fn encode_service(s: &RawService) -> (r: EncodedService)
    ensures
        encodes(r, s@),
{
    let n: u64 = if s.end_date >= s.start_date {
        (s.end_date - s.start_date) as u64 + 1
    } else {
        1
    };
    let num_bytes: u64 = (n + 7) / 8;
    let mut bits: Vec<u8> = Vec::new();
    let mut k: u64 = 0;
    while k < num_bytes
        invariant
            k <= num_bytes,
            bits@.len() == k,
            forall|j: int| 0 <= j < k ==> #[trigger] bits@[j] == 0,
        decreases num_bytes - k,
    {
        bits.push(0);
        k += 1;
    }
    assert forall|j: int| 0 <= j < 8 * bits@.len() implies !#[trigger] bit_at(bits@, j) by {
        lemma_zero_bits((j % 8) as u8);
    }
    let mut i: u64 = 0;
    while i < n
        invariant
            i <= n,
            n == num_days(s@),
            num_bytes == (n + 7) / 8,
            bits@.len() == num_bytes,
            forall|j: int|
                0 <= j < 8 * bits@.len() ==> #[trigger] bit_at(bits@, j) == (j < i && active(
                    s@,
                    (s.start_date + j) as u32,
                )),
        decreases n - i,
    {
        let day: u32 = (s.start_date as u64 + i) as u32;
        let weekday: usize = cal::weekday_of(day);
        let on: bool = (s.days[weekday] || holds(&s.additions, day)) && !holds(&s.removals, day);
        assert(on == active(s@, day));
        let ghost before = bits@;
        if on {
            assert(bits.len() == bits@.len());
            let at: usize = (i / 8) as usize;
            let bit: u8 = (i % 8) as u8;
            bits[at] = bits[at] | (1u8 << bit);
            assert forall|j: int| 0 <= j < 8 * bits@.len() implies #[trigger] bit_at(bits@, j) == (j
                < i + 1 && active(s@, (s.start_date + j) as u32)) by {
                assert(bit_at(before, j) == (j < i && active(s@, (s.start_date + j) as u32)));
                lemma_or_bit(before[at as int], bit, (j % 8) as u8);
            }
        } else {
            assert forall|j: int| 0 <= j < 8 * bits@.len() implies #[trigger] bit_at(bits@, j) == (j
                < i + 1 && active(s@, (s.start_date + j) as u32)) by {}
        }
        i += 1;
    }
    EncodedService {
        id: t::copy_str(s.service_id.as_str()),
        start_epoch_days: s.start_date,
        day_bits: bits,
    }
}

/// Encodes the services of a feed, with where each stands.
pub fn build_service_bitfields(gtfs: &GtfsData) -> (r: (Vec<EncodedService>, StringHashMap<u32>))
    ensures
        r.0@.len() == gtfs@.services.len(),
        forall|i: int|
            0 <= i < r.0@.len() ==> encodes(#[trigger] r.0@[i], gtfs@.services[i]),
        r.1@ == f::index_ids(f::service_ids(gtfs@.services)),
{
    let mut out: Vec<EncodedService> = Vec::new();
    let mut index: StringHashMap<u32> = StringHashMap::new();
    let ghost ids = f::service_ids(gtfs@.services);
    let mut i: usize = 0;
    assert(ids.take(0) =~= Seq::<Seq<char>>::empty());
    while i < gtfs.services.len()
        invariant
            i <= gtfs.services@.len(),
            ids == f::service_ids(gtfs@.services),
            out@.len() == i,
            forall|k: int| 0 <= k < i ==> encodes(#[trigger] out@[k], gtfs@.services[k]),
            index@ == f::index_ids(ids.take(i as int)),
        decreases gtfs.services@.len() - i,
    {
        let e = encode_service(&gtfs.services[i]);
        assert(gtfs@.services[i as int] == gtfs.services@[i as int]@);
        index.insert(t::copy_str(e.id.as_str()), i as u32);
        proof {
            assert(ids.take(i as int + 1).drop_last() =~= ids.take(i as int));
            assert(ids.take(i as int + 1).last() == e.id@);
        }
        out.push(e);
        i += 1;
    }
    assert(ids.take(i as int) =~= ids);
    (out, index)
}

/// A service read back from its bits runs on exactly the days that the calendar says.
pub proof fn encoded_service_runs(e: EncodedService, s: ServiceView, stored: Service, day: u16)
    requires
        encodes(e, s),
        stored.start_date == e.start_epoch_days,
        stored.day_bits@ == e.day_bits@,
    ensures
        stored.runs(day as int) <==> s.start <= day < s.start + num_days(s) && active(
            s,
            day as u32,
        ),
{
    let offset = day - stored.start_date;
    if offset >= 0 {
        if offset / 8 < e.day_bits@.len() {
            assert(bit_at(e.day_bits@, offset) == (offset < num_days(s) && active(
                s,
                (s.start + offset) as u32,
            )));
        } else {
            assert(offset >= num_days(s));
        }
    }
}

} // verus!
