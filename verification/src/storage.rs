//! What storing a timetable and loading it again keeps.

use crate::data as d;
use crate::data::{TransitData, NOT_SET};
use crate::feed as f;
use crate::feed::Feed;
use crate::gtfs as g;
use crate::file;
use crate::loader as l;
use crate::message as msg;
use crate::message::Message;
use crate::output as out;
use crate::output::Build;
use crate::pattern as pat;
use crate::pattern::PatternView;
use crate::streets as st;
use crate::streets::{EdgeView, GraphView};
use crate::transfers as tr;
use crate::walker as wk;
use vstd::prelude::*;

verus! {

/// The timetable was stored and loaded again.
pub open spec fn kept(b: Build, m: Message, cells: Seq<(i32, i32)>, data: TransitData) -> bool {
    m@ == out::stored(b) && l::loaded_from(data, m, cells)
}

/// A file that was written can be loaded.
pub proof fn written_files_load(b: Build, bytes: Seq<u8>)
    requires
        file::holds(bytes, out::stored(b)),
    ensures
        file::first_failure(bytes) is None,
{
    file::files_hold_one_message(bytes, out::stored(b), out::stored(b));
}

/// What was written to a file and loaded from it is the timetable: the laws on what is kept hold of
/// it.
pub proof fn files_keep_the_timetable(
    b: Build,
    bytes: Seq<u8>,
    cells: Seq<(i32, i32)>,
    data: TransitData,
)
    requires
        file::holds(bytes, out::stored(b)),
        l::loaded_file(data, bytes, cells),
    ensures
        exists|m: Message| #[trigger] kept(b, m, cells, data),
{
    let m = choose|m: Message|
        file::holds(bytes, m@) && #[trigger] l::loaded_from(data, m, cells);
    file::files_hold_one_message(bytes, m@, out::stored(b));
    assert(kept(b, m, cells, data));
}

pub(crate) proof fn lemma_kept_route(b: Build, m: Message, cells: Seq<(i32, i32)>, data: TransitData, p: int)
    requires
        kept(b, m, cells, data),
        0 <= p < b.patterns.len(),
    ensures
        data.routes@.len() == b.patterns.len(),
        data.routes@[p]@ == out::route_record(b.feed, b.patterns, p),
{
    assert(m@.routes == f::views(m.routes@));
    assert(m@.routes[p] == out::route_record(b.feed, b.patterns, p));
    assert(m@.routes[p] == m.routes@[p]@);
}

proof fn lemma_kept_times(b: Build, m: Message, cells: Seq<(i32, i32)>, data: TransitData)
    requires
        kept(b, m, cells, data),
    ensures
        data.arrivals@ == out::all_times(b.feed, b.patterns, true, b.patterns.len() as int),
        data.departures@ == out::all_times(b.feed, b.patterns, false, b.patterns.len() as int),
{
    msg::packed_numbers_read_back(
        out::all_times(b.feed, b.patterns, true, b.patterns.len() as int),
    );
    msg::packed_numbers_read_back(
        out::all_times(b.feed, b.patterns, false, b.patterns.len() as int),
    );
    assert(m@.stop_arrivals == m.stop_arrivals@);
    assert(m@.stop_departures == m.stop_departures@);
}

// ---------------------------------------------------------------------------
// Stop times
// ---------------------------------------------------------------------------

/// All patterns are sound.
pub open spec fn all_sound(x: Feed, ps: Seq<PatternView>) -> bool {
    forall|p: int| 0 <= p < ps.len() ==> pat::pattern_sound(x, #[trigger] ps[p])
}

proof fn lemma_trip_times(x: Feed, p: PatternView, trip: u32, arrivals: bool)
    requires
        g::feed_wf(x),
        pat::calls_at(x, trip, p.stops),
    ensures
        out::trip_times(x, p, trip, arrivals) == if arrivals {
            x.stop_times[x.trips[trip as int].id].arrivals
        } else {
            x.stop_times[x.trips[trip as int].id].departures
        },
        out::trip_times(x, p, trip, arrivals).len() == p.stops.len(),
{
    let times = x.stop_times[x.trips[trip as int].id];
    assert(g::times_ok(times, x.stops.len() as int));
    assert(times.arrivals.take(times.arrivals.len() as int) =~= times.arrivals);
    assert(times.departures.take(times.departures.len() as int) =~= times.departures);
}

proof fn lemma_pattern_times(x: Feed, p: PatternView, arrivals: bool, n: int)
    requires
        g::feed_wf(x),
        pat::pattern_sound(x, p),
        0 <= n <= p.trips.len(),
    ensures
        out::pattern_times(x, p, arrivals, n).len() == n * p.stops.len(),
        forall|k: int, s: int|
            0 <= k < n && 0 <= s < p.stops.len() ==> out::pattern_times(x, p, arrivals, n)[k
                * p.stops.len() + s] == #[trigger] out::trip_times(
                x,
                p,
                p.trips[k].0,
                arrivals,
            )[s],
    decreases n,
{
    let len = p.stops.len() as int;
    if n > 0 {
        lemma_pattern_times(x, p, arrivals, n - 1);
        assert(pat::calls_at(x, p.trips[n - 1].0, p.stops));
        lemma_trip_times(x, p, p.trips[n - 1].0, arrivals);
        assert(n * len == (n - 1) * len + len) by (nonlinear_arith);
        assert forall|k: int, s: int| 0 <= k < n && 0 <= s < p.stops.len() implies
            out::pattern_times(x, p, arrivals, n)[k * p.stops.len() + s]
            == #[trigger] out::trip_times(x, p, p.trips[k].0, arrivals)[s] by {
            if k < n - 1 {
                assert(0 <= k * len && k * len + s < (n - 1) * len) by (nonlinear_arith)
                    requires
                        0 <= k < n - 1,
                        0 <= s < len,
                ;
            }
        }
    } else {
        assert(0 * len == 0) by (nonlinear_arith);
    }
}

/// The times of a pattern are where its offset says.
proof fn lemma_all_times(x: Feed, ps: Seq<PatternView>, arrivals: bool, p: int, n: int)
    requires
        0 <= p < n <= ps.len(),
    ensures
        ({
            let own = out::pattern_times(x, ps[p], arrivals, ps[p].trips.len() as int);
            let start = out::all_times(x, ps, arrivals, p).len();
            &&& start + own.len() <= out::all_times(x, ps, arrivals, n).len()
            &&& forall|i: int|
                0 <= i < own.len() ==> out::all_times(x, ps, arrivals, n)[start + i]
                    == #[trigger] own[i]
        }),
    decreases n,
{
    if p < n - 1 {
        lemma_all_times(x, ps, arrivals, p, n - 1);
    }
}

proof fn lemma_same_count(x: Feed, ps: Seq<PatternView>, n: int)
    requires
        g::feed_wf(x),
        all_sound(x, ps),
        0 <= n <= ps.len(),
    ensures
        out::all_times(x, ps, true, n).len() == out::all_times(x, ps, false, n).len(),
    decreases n,
{
    if n > 0 {
        lemma_same_count(x, ps, n - 1);
        assert(pat::pattern_sound(x, ps[n - 1]));
        lemma_pattern_times(x, ps[n - 1], true, ps[n - 1].trips.len() as int);
        lemma_pattern_times(x, ps[n - 1], false, ps[n - 1].trips.len() as int);
    }
}

/// The time of a trip at a stop.
proof fn lemma_time_at(x: Feed, ps: Seq<PatternView>, arrivals: bool, p: int, k: int, s: int)
    requires
        g::feed_wf(x),
        all_sound(x, ps),
        0 <= p < ps.len(),
        0 <= k < ps[p].trips.len(),
        0 <= s < ps[p].stops.len(),
    ensures
        ({
            let times = x.stop_times[x.trips[ps[p].trips[k].0 as int].id];
            let all = out::all_times(x, ps, arrivals, ps.len() as int);
            let at = out::all_times(x, ps, arrivals, p).len() + k * ps[p].stops.len() + s;
            &&& 0 <= k * ps[p].stops.len()
            &&& at < all.len()
            &&& all[at] == if arrivals {
                times.arrivals[s]
            } else {
                times.departures[s]
            }
        }),
{
    let len = ps[p].stops.len() as int;
    let trips = ps[p].trips.len() as int;
    let own = out::pattern_times(x, ps[p], arrivals, trips);
    assert(pat::pattern_sound(x, ps[p]));
    assert(pat::calls_at(x, ps[p].trips[k].0, ps[p].stops));
    lemma_trip_times(x, ps[p], ps[p].trips[k].0, arrivals);
    lemma_pattern_times(x, ps[p], arrivals, trips);
    lemma_all_times(x, ps, arrivals, p, ps.len() as int);
    assert(0 <= k * len && k * len + s < trips * len) by (nonlinear_arith)
        requires
            0 <= k < trips,
            0 <= s < len,
    ;
    assert(own[k * len + s] == out::trip_times(x, ps[p], ps[p].trips[k].0, arrivals)[s]);
}

/// The arrival and the departure of a trip at a stop are read back where the route says.
pub proof fn stored_times_read_back(
    b: Build,
    m: Message,
    cells: Seq<(i32, i32)>,
    data: TransitData,
    p: int,
    k: int,
    s: int,
)
    requires
        g::feed_wf(b.feed),
        all_sound(b.feed, b.patterns),
        out::all_times(b.feed, b.patterns, true, b.patterns.len() as int).len() <= u32::MAX,
        kept(b, m, cells, data),
        0 <= p < b.patterns.len(),
        0 <= k < b.patterns[p].trips.len(),
        0 <= s < b.patterns[p].stops.len(),
    ensures
        ({
            let times = b.feed.stop_times[b.feed.trips[b.patterns[p].trips[k].0 as int].id];
            let at = data.routes@[p].time_index(k, s);
            &&& 0 <= at < data.arrivals@.len()
            &&& at < data.departures@.len()
            &&& data.arrivals@[at] == times.arrivals[s]
            &&& data.departures@[at] == times.departures[s]
        }),
{
    let x = b.feed;
    let ps = b.patterns;
    let n = ps.len() as int;
    lemma_kept_route(b, m, cells, data, p);
    lemma_kept_times(b, m, cells, data);
    lemma_time_at(x, ps, true, p, k, s);
    lemma_time_at(x, ps, false, p, k, s);
    lemma_same_count(x, ps, p);
    lemma_same_count(x, ps, n);
    lemma_all_times(x, ps, true, p, n);
}

// ---------------------------------------------------------------------------
// Stops
// ---------------------------------------------------------------------------

pub(crate) proof fn lemma_kept_stop(b: Build, m: Message, cells: Seq<(i32, i32)>, data: TransitData, i: int)
    requires
        kept(b, m, cells, data),
        0 <= i < b.feed.stops.len(),
    ensures
        data.stops@.len() == b.feed.stops.len(),
        data.stops@[i]@ == out::stop_record(
            b.feed,
            b.coords,
            b.patterns,
            b.transfers,
            b.links,
            i,
        ),
{
    assert(m@.stops == f::views(m.stops@));
    assert(m@.stops[i] == m.stops@[i]@);
}

/// The footpaths of a stop stand together.
proof fn lemma_grouped(ts: Seq<tr::Transfer>, i: int, n: int)
    requires
        0 <= i < n,
    ensures
        ({
            let own = out::leaving(ts, i, ts.len() as int);
            let start = out::grouped(ts, i).len() as int;
            &&& start + own.len() <= out::grouped(ts, n).len()
            &&& out::grouped(ts, n).subrange(start, start + own.len()) == own
        }),
    decreases n,
{
    let own = out::leaving(ts, i, ts.len() as int);
    let start = out::grouped(ts, i).len() as int;
    if i < n - 1 {
        lemma_grouped(ts, i, n - 1);
        assert(out::grouped(ts, n).subrange(start, start + own.len()) =~= out::grouped(
            ts,
            n - 1,
        ).subrange(start, start + own.len()));
    } else {
        assert(out::grouped(ts, n).subrange(start, start + own.len()) =~= own);
    }
}

/// The footpaths that leave a stop are read back where the stop says, in their order.
pub proof fn stored_footpaths_read_back(
    b: Build,
    m: Message,
    cells: Seq<(i32, i32)>,
    data: TransitData,
    i: int,
)
    requires
        kept(b, m, cells, data),
        0 <= i < b.feed.stops.len(),
        out::leaving(b.transfers, i, b.transfers.len() as int).len() <= u16::MAX,
        data.transfers@.len() <= u32::MAX,
    ensures
        ({
            let s = data.stops@[i];
            let end = s.transfers_offset + s.num_transfers;
            &&& end <= data.transfers@.len()
            &&& data.transfers@.subrange(s.transfers_offset as int, end) == out::leaving(
                b.transfers,
                i,
                b.transfers.len() as int,
            )
        }),
{
    let n = b.feed.stops.len() as int;
    let own = out::leaving(b.transfers, i, b.transfers.len() as int);
    lemma_kept_stop(b, m, cells, data, i);
    lemma_grouped(b.transfers, i, n);
    let all = out::stored_transfers(b.transfers, n);
    assert(data.transfers@ == all);
    let start = out::grouped(b.transfers, i).len() as int;
    assert(all.subrange(start, start + own.len()) =~= out::grouped(b.transfers, n).subrange(
        start,
        start + own.len(),
    ));
    if own.len() == 0 {
        assert(all.subrange(0, 0) =~= own);
    }
}

proof fn lemma_routes_at(ps: Seq<PatternView>, stop: u32, n: int, p: int)
    requires
        0 <= p < ps.len() <= u32::MAX,
        0 <= n <= ps.len(),
    ensures
        out::routes_at(ps, stop, n).contains(p as u32) <==> p < n && ps[p].stops.contains(stop),
    decreases n,
{
    if n > 0 {
        lemma_routes_at(ps, stop, n - 1, p);
        let front = out::routes_at(ps, stop, n - 1);
        let all = out::routes_at(ps, stop, n);
        if front.contains(p as u32) {
            let k = choose|k: int| 0 <= k < front.len() && front[k] == p as u32;
            assert(all[k] == p as u32);
        }
        if ps[n - 1].stops.contains(stop) {
            assert(all[front.len() as int] == (n - 1) as u32);
            if all.contains(p as u32) && p != n - 1 {
                let k = choose|k: int| 0 <= k < all.len() && all[k] == p as u32;
                assert(front[k] == p as u32);
            }
        }
    }
}

/// A stop lists a route if and only if the route calls there.
pub proof fn stops_list_their_routes(
    b: Build,
    m: Message,
    cells: Seq<(i32, i32)>,
    data: TransitData,
    i: int,
    p: int,
)
    requires
        kept(b, m, cells, data),
        b.patterns.len() <= u32::MAX,
        0 <= i < b.feed.stops.len() <= u32::MAX,
        0 <= p < b.patterns.len(),
    ensures
        data.stops@[i].route_idxs@.contains(p as u32) <==> data.routes@[p].stop_idxs@.contains(
            i as u32,
        ),
{
    lemma_kept_stop(b, m, cells, data, i);
    lemma_kept_route(b, m, cells, data, p);
    lemma_routes_at(b.patterns, i as u32, b.patterns.len() as int, p);
    assert(data.stops@[i]@.route_idxs == data.stops@[i].route_idxs@);
    assert(data.routes@[p]@.stop_idxs == data.routes@[p].stop_idxs@);
}

// ---------------------------------------------------------------------------
// Streets
// ---------------------------------------------------------------------------

proof fn lemma_stored_edges(es: Seq<EdgeView>, start: u32, n: int)
    requires
        0 <= n <= es.len(),
    ensures
        out::stored_edges(es, start, n).len() == n,
        forall|k: int|
            0 <= k < n ==> {
                let e = #[trigger] out::stored_edges(es, start, n)[k];
                &&& e.to_node_idx == es[k].to
                &&& e.dist_meters == es[k].dist
                &&& e.geometry_offset == out::points_after(es, start, k)
                &&& e.geometry_len == out::stored_len(es[k])
            },
    decreases n,
{
    if n > 0 {
        lemma_stored_edges(es, start, n - 1);
    }
}

/// The edges of a node stand together.
proof fn lemma_all_edges(g: GraphView, u: int, n: int)
    requires
        0 <= u < n,
    ensures
        ({
            let es = out::edges_at(g, u);
            let start = out::all_edges(g, u).len() as int;
            &&& start + es.len() <= out::all_edges(g, n).len()
            &&& out::all_edges(g, n).subrange(start, start + es.len()) == out::stored_edges(
                es,
                out::all_points_after(g, u),
                es.len() as int,
            )
        }),
    decreases n,
{
    let es = out::edges_at(g, u);
    let start = out::all_edges(g, u).len() as int;
    lemma_stored_edges(es, out::all_points_after(g, u), es.len() as int);
    if u < n - 1 {
        lemma_all_edges(g, u, n - 1);
        assert(out::all_edges(g, n).subrange(start, start + es.len()) =~= out::all_edges(
            g,
            n - 1,
        ).subrange(start, start + es.len()));
    } else {
        assert(out::all_edges(g, n).subrange(start, start + es.len()) =~= out::stored_edges(
            es,
            out::all_points_after(g, u),
            es.len() as int,
        ));
    }
}

/// Edges all lead to nodes.
proof fn lemma_edge_targets(g: GraphView, n: int)
    requires
        st::graph_wf(g),
        0 <= n <= g.nodes.len(),
    ensures
        forall|j: int|
            0 <= j < out::all_edges(g, n).len() ==> (#[trigger] out::all_edges(
                g,
                n,
            )[j]).to_node_idx < g.nodes.len(),
    decreases n,
{
    if n > 0 {
        lemma_edge_targets(g, n - 1);
        let es = out::edges_at(g, n - 1);
        let front = out::all_edges(g, n - 1);
        let own = out::stored_edges(es, out::all_points_after(g, n - 1), es.len() as int);
        lemma_stored_edges(es, out::all_points_after(g, n - 1), es.len() as int);
        assert forall|j: int| 0 <= j < out::all_edges(g, n).len() implies (
        #[trigger] out::all_edges(g, n)[j]).to_node_idx < g.nodes.len() by {
            if j >= front.len() {
                let k = j - front.len();
                assert(out::all_edges(g, n)[j] == own[k]);
                assert(g.edges[n - 1][k].to < g.nodes.len());
            } else {
                assert(out::all_edges(g, n)[j] == front[j]);
            }
        }
    }
}

/// No edge has more points than two bytes can count.
pub open spec fn points_countable(g: GraphView) -> bool {
    forall|u: int, k: int|
        0 <= u < g.edges.len() && 0 <= k < g.edges[u].len() ==> (
        #[trigger] g.edges[u][k]).geometry.len() <= u16::MAX
}

proof fn lemma_points_of(es: Seq<EdgeView>, start: u32, n: int)
    requires
        0 <= n <= es.len(),
        forall|k: int| 0 <= k < es.len() ==> (#[trigger] es[k]).geometry.len() <= u16::MAX,
        start + out::points_of(es, n).len() <= u32::MAX,
    ensures
        out::points_after(es, start, n) == start + out::points_of(es, n).len(),
        forall|k: int|
            0 <= k < n ==> {
                let at = out::points_after(es, start, k) - start;
                &&& 0 <= at
                &&& at + (#[trigger] es[k]).geometry.len() <= out::points_of(es, n).len()
                &&& out::points_of(es, n).subrange(at, at + es[k].geometry.len()) == es[k].geometry
            },
    decreases n,
{
    if n > 0 {
        lemma_points_of(es, start, n - 1);
        let all = out::points_of(es, n);
        let front = out::points_of(es, n - 1);
        assert(es[n - 1].geometry.len() <= u16::MAX);
        assert forall|k: int| 0 <= k < n implies {
            let at = out::points_after(es, start, k) - start;
            &&& 0 <= at
            &&& at + (#[trigger] es[k]).geometry.len() <= all.len()
            &&& all.subrange(at, at + es[k].geometry.len()) == es[k].geometry
        } by {
            let at = out::points_after(es, start, k) - start;
            if k < n - 1 {
                assert(all.subrange(at, at + es[k].geometry.len()) =~= front.subrange(
                    at,
                    at + es[k].geometry.len(),
                ));
            } else {
                assert(all.subrange(at, at + es[k].geometry.len()) =~= es[k].geometry);
            }
        }
    }
}

/// The points of a node's edges stand together.
proof fn lemma_all_points(g: GraphView, u: int, n: int)
    requires
        points_countable(g),
        0 <= u < n <= g.nodes.len(),
        out::all_points(g, n).len() <= u32::MAX,
    ensures
        out::all_points_after(g, n) == out::all_points(g, n).len(),
        out::all_points_after(g, u) == out::all_points(g, u).len(),
        ({
            let own = out::points_of(out::edges_at(g, u), out::edges_at(g, u).len() as int);
            let start = out::all_points(g, u).len() as int;
            &&& start + own.len() <= out::all_points(g, n).len()
            &&& out::all_points(g, n).subrange(start, start + own.len()) == own
        }),
    decreases n,
{
    let es = out::edges_at(g, n - 1);
    assert forall|k: int| 0 <= k < es.len() implies (#[trigger] es[k]).geometry.len()
        <= u16::MAX by {
        assert(g.edges[n - 1][k] == es[k]);
    }
    let own = out::points_of(out::edges_at(g, u), out::edges_at(g, u).len() as int);
    let start = out::all_points(g, u).len() as int;
    if u < n - 1 {
        lemma_all_points(g, u, n - 1);
        assert(out::all_points(g, n).subrange(start, start + own.len()) =~= out::all_points(
            g,
            n - 1,
        ).subrange(start, start + own.len()));
    } else {
        if n > 1 {
            lemma_all_points(g, n - 2, n - 1);
        }
        assert(out::all_points(g, n).subrange(start, start + own.len()) =~= own);
    }
    lemma_points_of(es, out::all_points_after(g, n - 1), es.len() as int);
}

/// Every edge is read back among the edges of its node, with its target, length and points.
pub proof fn stored_streets_read_back(
    b: Build,
    m: Message,
    cells: Seq<(i32, i32)>,
    data: TransitData,
    u: int,
    k: int,
)
    requires
        kept(b, m, cells, data),
        points_countable(b.graph),
        data.walk_graph.edges@.len() <= u32::MAX,
        data.walk_graph.geometry@.len() <= u32::MAX,
        0 <= u < b.graph.nodes.len(),
        b.graph.edges.len() == b.graph.nodes.len(),
        b.graph.edges[u].len() <= u16::MAX,
        0 <= k < b.graph.edges[u].len(),
    ensures
        ({
            let e = b.graph.edges[u][k];
            let node = data.walk_graph.nodes@[u];
            let r = data.walk_graph.edges@[node.edges_offset + k];
            &&& node.lat == b.graph.nodes[u].lat
            &&& node.lon == b.graph.nodes[u].lon
            &&& node.num_edges == b.graph.edges[u].len()
            &&& node.edges_offset + node.num_edges <= data.walk_graph.edges@.len()
            &&& r.to_node_idx == e.to
            &&& r.dist_meters == e.dist
            &&& r.geometry_offset + r.geometry_len <= data.walk_graph.geometry@.len()
            &&& data.walk_graph.geometry@.subrange(
                r.geometry_offset as int,
                r.geometry_offset + r.geometry_len,
            ) == e.geometry
        }),
{
    let gr = b.graph;
    let n = gr.nodes.len() as int;
    let es = out::edges_at(gr, u);
    let start = out::all_points_after(gr, u);
    assert(data.walk_graph.nodes@[u] == out::node_record(gr, u));
    assert(data.walk_graph.edges@ == out::all_edges(gr, n));
    assert(data.walk_graph.geometry@ == out::all_points(gr, n));
    lemma_all_edges(gr, u, n);
    lemma_stored_edges(es, start, es.len() as int);
    lemma_all_points(gr, u, n);
    assert forall|j: int| 0 <= j < es.len() implies (#[trigger] es[j]).geometry.len()
        <= u16::MAX by {
        assert(gr.edges[u][j] == es[j]);
    }
    lemma_points_of(es, start, es.len() as int);
    let at = out::all_edges(gr, u).len() as int;
    let own = out::stored_edges(es, start, es.len() as int);
    assert(out::all_edges(gr, n)[at + k] == out::all_edges(gr, n).subrange(
        at,
        at + es.len(),
    )[k]);
    let points = out::points_of(es, es.len() as int);
    let from = out::points_after(es, start, k) - start;
    let len = es[k].geometry.len() as int;
    assert(out::all_points(gr, n).subrange(start + from, start + from + len)
        =~= out::all_points(gr, n).subrange(start as int, start + points.len()).subrange(
        from,
        from + len,
    ));
}

// ---------------------------------------------------------------------------
// Soundness
// ---------------------------------------------------------------------------

/// The patterns of a feed can be stored with it.
pub proof fn patterns_can_be_stored(x: Feed)
    requires
        g::feed_wf(x),
        x.trips.len() <= u32::MAX,
    ensures
        ({
            let ps = pat::patterns_of(x, x.trips.len() as int);
            out::patterns_within(ps, x) && all_sound(x, ps)
        }),
{
    let n = x.trips.len() as int;
    let ps = pat::patterns_of(x, n);
    pat::patterns_are_sound(x, n);
    assert forall|p: int| 0 <= p < ps.len() implies out::pattern_within(#[trigger] ps[p], x) by {
        assert(pat::pattern_sound(x, ps[p]));
        assert forall|k: int| 0 <= k < ps[p].trips.len() implies (#[trigger] ps[p].trips[k]).0
            < x.trips.len() by {
            assert(pat::calls_at(x, ps[p].trips[k].0, ps[p].stops));
        }
    }
}

/// The parts belong together and are small enough for the file.
pub open spec fn fits(b: Build) -> bool {
    let x = b.feed;
    let n = b.patterns.len() as int;
    &&& g::feed_wf(x)
    &&& all_sound(x, b.patterns)
    &&& x.stops.len() < NOT_SET
    &&& n < NOT_SET
    &&& out::all_times(x, b.patterns, true, n).len() < NOT_SET
    &&& b.services.len() == x.services.len()
    &&& b.service_index == f::index_ids(f::service_ids(x.services))
    &&& forall|i: int|
        0 <= i < b.transfers.len() ==> (#[trigger] b.transfers[i]).to_stop_idx < x.stops.len()
    &&& out::stored_transfers(b.transfers, x.stops.len() as int).len() <= u32::MAX
    &&& st::graph_wf(b.graph)
    &&& b.graph.nodes.len() < NOT_SET
    &&& out::all_edges(b.graph, b.graph.nodes.len() as int).len() <= u32::MAX
    &&& forall|i: int|
        0 <= i < b.links.len() ==> #[trigger] b.links[i] == NOT_SET || b.links[i]
            < b.graph.nodes.len()
}

proof fn lemma_leaving_targets(ts: Seq<tr::Transfer>, stop: int, n: int, num_stops: int)
    requires
        0 <= n <= ts.len(),
        forall|i: int| 0 <= i < ts.len() ==> (#[trigger] ts[i]).to_stop_idx < num_stops,
    ensures
        forall|i: int|
            0 <= i < out::leaving(ts, stop, n).len() ==> (#[trigger] out::leaving(
                ts,
                stop,
                n,
            )[i]).to_stop_idx < num_stops,
    decreases n,
{
    if n > 0 {
        lemma_leaving_targets(ts, stop, n - 1, num_stops);
        assert(ts[n - 1].to_stop_idx < num_stops);
        let front = out::leaving(ts, stop, n - 1);
        let all = out::leaving(ts, stop, n);
        assert forall|i: int| 0 <= i < all.len() implies (#[trigger] all[i]).to_stop_idx
            < num_stops by {
            if i < front.len() {
                assert(all[i] == front[i]);
            }
        }
    }
}

proof fn lemma_grouped_targets(ts: Seq<tr::Transfer>, n: int, num_stops: int)
    requires
        forall|i: int| 0 <= i < ts.len() ==> (#[trigger] ts[i]).to_stop_idx < num_stops,
    ensures
        forall|i: int|
            0 <= i < out::grouped(ts, n).len() ==> (#[trigger] out::grouped(
                ts,
                n,
            )[i]).to_stop_idx < num_stops,
    decreases n,
{
    if n > 0 {
        lemma_grouped_targets(ts, n - 1, num_stops);
        lemma_leaving_targets(ts, n - 1, ts.len() as int, num_stops);
        let front = out::grouped(ts, n - 1);
        let own = out::leaving(ts, n - 1, ts.len() as int);
        let all = out::grouped(ts, n);
        assert forall|i: int| 0 <= i < all.len() implies (#[trigger] all[i]).to_stop_idx
            < num_stops by {
            if i < front.len() {
                assert(all[i] == front[i]);
            } else {
                assert(all[i] == own[i - front.len()]);
            }
        }
    }
}

proof fn lemma_insert_targets(s: Seq<tr::Transfer>, x: tr::Transfer, num_stops: int)
    requires
        x.to_stop_idx < num_stops,
        forall|i: int| 0 <= i < s.len() ==> (#[trigger] s[i]).to_stop_idx < num_stops,
    ensures
        forall|i: int|
            0 <= i < out::insert_by_stop(s, x).len() ==> (#[trigger] out::insert_by_stop(
                s,
                x,
            )[i]).to_stop_idx < num_stops,
    decreases s.len(),
{
    let all = out::insert_by_stop(s, x);
    if s.len() > 0 && s.last().from_stop_idx > x.from_stop_idx {
        let front = out::insert_by_stop(s.drop_last(), x);
        lemma_insert_targets(s.drop_last(), x, num_stops);
        assert(s[s.len() - 1] == s.last());
        assert forall|i: int| 0 <= i < all.len() implies (#[trigger] all[i]).to_stop_idx
            < num_stops by {
            if i < front.len() {
                assert(all[i] == front[i]);
            }
        }
    } else {
        assert forall|i: int| 0 <= i < all.len() implies (#[trigger] all[i]).to_stop_idx
            < num_stops by {
            if i < s.len() {
                assert(all[i] == s[i]);
            }
        }
    }
}

proof fn lemma_astray_targets(ts: Seq<tr::Transfer>, n: int, num_stops: int)
    requires
        0 <= n <= ts.len(),
        forall|i: int| 0 <= i < ts.len() ==> (#[trigger] ts[i]).to_stop_idx < num_stops,
    ensures
        forall|i: int|
            0 <= i < out::astray(ts, num_stops, n).len() ==> (#[trigger] out::astray(
                ts,
                num_stops,
                n,
            )[i]).to_stop_idx < num_stops,
    decreases n,
{
    if n > 0 {
        lemma_astray_targets(ts, n - 1, num_stops);
        assert(ts[n - 1].to_stop_idx < num_stops);
        if ts[n - 1].from_stop_idx >= num_stops {
            lemma_insert_targets(out::astray(ts, num_stops, n - 1), ts[n - 1], num_stops);
        }
    }
}

proof fn lemma_stop_ok(b: Build, m: Message, cells: Seq<(i32, i32)>, data: TransitData, i: int)
    requires
        fits(b),
        kept(b, m, cells, data),
        0 <= i < b.feed.stops.len(),
    ensures
        data.stop_ok(data.stops@[i]),
{
    let n = b.feed.stops.len() as int;
    let own = out::leaving(b.transfers, i, b.transfers.len() as int);
    lemma_kept_stop(b, m, cells, data, i);
    lemma_grouped(b.transfers, i, n);
    out::lemma_routes_at_below(b.patterns, i as u32, b.patterns.len() as int);
    assert(data.transfers@ == out::stored_transfers(b.transfers, n));
    assert(data.routes@.len() == b.patterns.len()) by {
        assert(m@.routes == f::views(m.routes@));
    }
    let s = data.stops@[i];
    assert(s@.route_idxs == s.route_idxs@);
    assert(s.transfers_offset == out::transfer_range(b.transfers, i).0);
    assert(s.num_transfers <= own.len());
}

proof fn lemma_route_ok(b: Build, m: Message, cells: Seq<(i32, i32)>, data: TransitData, p: int)
    requires
        fits(b),
        kept(b, m, cells, data),
        0 <= p < b.patterns.len(),
    ensures
        data.route_ok(data.routes@[p]),
        0 < b.feed.agencies.len() <= 0x1_0000 ==> data.routes@[p].agency_idx < data.agencies@.len(),
{
    let x = b.feed;
    let ps = b.patterns;
    let n = ps.len() as int;
    let r = data.routes@[p];
    let trips = ps[p].trips.len() as int;
    let len = ps[p].stops.len() as int;
    lemma_kept_route(b, m, cells, data, p);
    lemma_kept_times(b, m, cells, data);
    assert(pat::pattern_sound(x, ps[p]));
    lemma_pattern_times(x, ps[p], true, trips);
    lemma_all_times(x, ps, true, p, n);
    lemma_same_count(x, ps, n);
    assert(trips <= trips * len && len <= trips * len) by (nonlinear_arith)
        requires
            trips >= 1,
            len >= 1,
    ;
    assert(r@.stop_idxs == r.stop_idxs@);
    assert(r@.trip_idxs == r.trip_idxs@);
    assert(m@.stops.len() == data.stops@.len());
    assert(m@.trips.len() == data.trips@.len());
    assert(m@.agencies.len() == data.agencies@.len());
    assert(d::all_below(r.stop_idxs@, data.stops@.len() as int));
    assert(d::all_below(r.trip_idxs@, data.trips@.len() as int)) by {
        assert forall|k: int| 0 <= k < r.trip_idxs@.len() implies #[trigger] r.trip_idxs@[k]
            < data.trips@.len() by {
            assert(pat::calls_at(x, ps[p].trips[k].0, ps[p].stops));
        }
    }
    let agency = x.routes[ps[p].route as int].agency;
    if x.agency_index.contains_key(agency) {
        assert(x.agency_index[agency] < x.agencies.len());
    }
}

proof fn lemma_trip_ok(b: Build, m: Message, cells: Seq<(i32, i32)>, data: TransitData, i: int)
    requires
        fits(b),
        kept(b, m, cells, data),
        0 <= i < b.feed.trips.len(),
    ensures
        data.trips@.len() == b.feed.trips.len(),
        data.trip_ok(data.trips@[i]),
{
    assert(m@.trips == f::views(m.trips@));
    assert(m@.trips[i] == m.trips@[i]@);
    assert(m@.trips[i] == out::trip_record(b.feed, b.patterns, b.service_index, i));
    assert(m@.services.len() == data.services@.len());
    f::lemma_index_ids(f::service_ids(b.feed.services));
    let service = b.feed.trips[i].service;
    if b.service_index.contains_key(service) {
        assert(b.service_index[service] < b.feed.services.len());
    }
}

proof fn lemma_streets_ok(b: Build, m: Message, cells: Seq<(i32, i32)>, data: TransitData)
    requires
        fits(b),
        kept(b, m, cells, data),
    ensures
        data.walk_graph.wf(),
{
    let gr = b.graph;
    let n = gr.nodes.len() as int;
    let w = data.walk_graph;
    assert(w.nodes@ == out::node_records(gr));
    assert(w.edges@ == out::all_edges(gr, n));
    lemma_edge_targets(gr, n);
    assert forall|u: int| 0 <= u < w.nodes@.len() implies w.node_ok(#[trigger] w.nodes@[u]) by {
        lemma_all_edges(gr, u, n);
        assert(w.nodes@[u] == out::node_record(gr, u));
        assert(out::edges_at(gr, u).len() <= u32::MAX);
    }
}

/// A timetable whose parts belong together and fit the file is well-formed when it is loaded
/// again. The agencies of its routes are listed, if there are any and two bytes can tell them apart.
pub proof fn loaded_timetables_are_sound(
    b: Build,
    m: Message,
    cells: Seq<(i32, i32)>,
    data: TransitData,
)
    requires
        fits(b),
        kept(b, m, cells, data),
    ensures
        data.wf(),
        data.walk_graph.wf(),
        data.road_graph.wf(),
        wk::stops_linked(data.stops@, data.walk_graph),
        0 < b.feed.agencies.len() <= 0x1_0000 ==> forall|p: int|
            0 <= p < data.routes@.len() ==> (#[trigger] data.routes@[p]).agency_idx
                < data.agencies@.len(),
{
    assert(m@.stops.len() == data.stops@.len());
    assert(m@.routes.len() == data.routes@.len());
    assert(m@.trips.len() == data.trips@.len());
    assert forall|i: int| 0 <= i < data.stops@.len() implies data.stop_ok(
        #[trigger] data.stops@[i],
    ) by {
        lemma_stop_ok(b, m, cells, data, i);
    }
    assert forall|i: int| 0 <= i < data.routes@.len() implies data.route_ok(
        #[trigger] data.routes@[i],
    ) by {
        lemma_route_ok(b, m, cells, data, i);
    }
    assert forall|i: int| 0 <= i < data.routes@.len() && 0 < b.feed.agencies.len() <= 0x1_0000 implies (
    #[trigger] data.routes@[i]).agency_idx < data.agencies@.len() by {
        lemma_route_ok(b, m, cells, data, i);
    }
    assert forall|i: int| 0 <= i < data.trips@.len() implies data.trip_ok(
        #[trigger] data.trips@[i],
    ) by {
        lemma_trip_ok(b, m, cells, data, i);
    }
    let n = b.feed.stops.len() as int;
    let ts = b.transfers;
    lemma_grouped_targets(ts, n, n);
    lemma_astray_targets(ts, ts.len() as int, n);
    assert(data.transfers@ == out::stored_transfers(ts, n));
    assert forall|i: int| 0 <= i < data.transfers@.len() implies (
    #[trigger] data.transfers@[i]).to_stop_idx < data.stops@.len() by {
        let front = out::grouped(ts, n);
        if i < front.len() {
            assert(data.transfers@[i] == front[i]);
        } else {
            let k = i - front.len();
            let x = out::astray(ts, n, ts.len() as int)[k];
            assert(data.transfers@[i] == out::stored_transfer(x));
        }
    }
    lemma_streets_ok(b, m, cells, data);
    assert(data.walk_graph.nodes@.len() == b.graph.nodes.len());
    assert forall|i: int| 0 <= i < data.stops@.len() implies (
    #[trigger] data.stops@[i]).walk_node_idx == NOT_SET || data.stops@[i].walk_node_idx
        < data.walk_graph.nodes@.len() by {
        assert(m@.stops[i].walk_node_idx == data.stops@[i].walk_node_idx);
        if i < b.links.len() {
            assert(b.links[i] == NOT_SET || b.links[i] < b.graph.nodes.len());
        }
    }
}

} // verus!
