//! The rounds of a search, for drawing.

use crate::data::{TransitData, NOT_SET};
use crate::feed as f;
use crate::planner as pl;
use crate::raptor as rp;
use crate::raptor::{Parent, RaptorQuery};
use crate::raptor_model as m;
use crate::raptor_model::Round;
use crate::request::PlanRequest;
use crate::text as t;
use std::collections::HashMap;
use vstd::prelude::*;

verus! {

/// A stop reached in a round.
#[derive(Debug, Clone)]
pub struct VizStop {
    pub stop_idx: u32,
    pub lat: u64,
    pub lon: u64,
    pub name: String,
    pub arrival_secs: u32,
    pub round: u32,
    pub route_color: u32,
    /// Where the ride was boarded or the walk began, `NOT_SET` at the start.
    pub parent_stop_idx: u32,
    /// `NOT_SET` if the stop was reached on foot.
    pub route_idx: u32,
    pub board_stop_pos: u32,
    pub alight_stop_pos: u32,
}

/// The stops reached in each round.
#[derive(Debug)]
pub struct RaptorViz {
    pub rounds: Vec<Vec<VizStop>>,
    pub departure_time: u32,
}

/// A stop reached in a round, with its color in writing.
#[derive(Debug, Clone)]
pub struct VizStopJson {
    pub stop_idx: u32,
    pub lat: u64,
    pub lon: u64,
    pub name: String,
    pub arrival_secs: u32,
    pub round: u32,
    pub route_color: String,
    pub parent_stop_idx: u32,
    pub route_idx: u32,
    pub board_stop_pos: u32,
    pub alight_stop_pos: u32,
}

/// The shape of a route.
#[derive(Debug, Clone)]
pub struct VizRouteJson {
    pub color: String,
    /// Coordinates of every stop of the route.
    pub stops: Vec<(u64, u64)>,
}

#[derive(Debug)]
pub struct RaptorVizJson {
    pub rounds: Vec<Vec<VizStopJson>>,
    pub departure_time: u32,
    pub num_stops_total: usize,
    /// The routes that were ridden.
    pub routes: HashMap<u32, VizRouteJson>,
}

// ---------------------------------------------------------------------------
// Mathematical values
// ---------------------------------------------------------------------------

#[verifier::ext_equal]
pub struct VizStopView {
    pub stop_idx: u32,
    pub lat: u64,
    pub lon: u64,
    pub name: Seq<char>,
    pub arrival_secs: u32,
    pub round: u32,
    pub route_color: u32,
    pub parent_stop_idx: u32,
    pub route_idx: u32,
    pub board_stop_pos: u32,
    pub alight_stop_pos: u32,
}

impl View for VizStop {
    type V = VizStopView;

    open spec fn view(&self) -> VizStopView {
        VizStopView {
            stop_idx: self.stop_idx,
            lat: self.lat,
            lon: self.lon,
            name: self.name@,
            arrival_secs: self.arrival_secs,
            round: self.round,
            route_color: self.route_color,
            parent_stop_idx: self.parent_stop_idx,
            route_idx: self.route_idx,
            board_stop_pos: self.board_stop_pos,
            alight_stop_pos: self.alight_stop_pos,
        }
    }
}

/// All lists as mathematical values.
pub open spec fn round_views(rounds: Seq<Vec<VizStop>>) -> Seq<Seq<VizStopView>> {
    Seq::new(rounds.len(), |k: int| f::views(rounds[k]@))
}

/// How a stop was reached in round `k`.
pub open spec fn reached_stop(data: TransitData, round: Round, k: int, s: int) -> VizStopView {
    let stop = data.stops@[s];
    let plain = VizStopView {
        stop_idx: s as u32,
        lat: stop.lat,
        lon: stop.lon,
        name: stop.name@,
        arrival_secs: round.arr[s],
        round: k as u32,
        route_color: 0,
        parent_stop_idx: NOT_SET,
        route_idx: NOT_SET,
        board_stop_pos: NOT_SET,
        alight_stop_pos: NOT_SET,
    };
    match round.par[s] {
        Parent::Unreached => plain,
        Parent::Walk { from } => VizStopView { parent_stop_idx: from, ..plain },
        Parent::Ride { route_idx, trip_num, board_pos, board_time, freq_delta } => {
            let stops = data.routes@[route_idx as int].stop_idxs@;
            VizStopView {
                route_color: data.routes@[route_idx as int].color,
                parent_stop_idx: stops[board_pos as int],
                route_idx,
                board_stop_pos: board_pos,
                alight_stop_pos: m::stop_pos(stops, s as u32, board_pos as int) as u32,
                ..plain
            }
        },
    }
}

/// Of the first `n` stops, those reached in round `k`.
pub open spec fn reached_stops(data: TransitData, round: Round, k: int, n: int) -> Seq<VizStopView>
    decreases n,
{
    if n <= 0 {
        Seq::empty()
    } else if round.arr[n - 1] != NOT_SET {
        reached_stops(data, round, k, n - 1).push(reached_stop(data, round, k, n - 1))
    } else {
        reached_stops(data, round, k, n - 1)
    }
}

/// The stops reached in each round of a search.
pub open spec fn reached_rounds(data: TransitData, rs: Seq<Round>) -> Seq<Seq<VizStopView>> {
    Seq::new(rs.len(), |k: int| reached_stops(data, rs[k], k, data.stops@.len() as int))
}

// ---------------------------------------------------------------------------
// Colors and shapes
// ---------------------------------------------------------------------------

/// A color with a number sign; black stands for a default.
pub open spec fn shown_color(c: u32) -> Seq<char> {
    if c == 0 {
        "#007aff"@
    } else {
        "#"@ + t::padded(c as int, 16, 6)
    }
}

fn show_color(c: u32) -> (r: String)
    ensures
        r@ == shown_color(c),
{
    if c == 0 {
        t::copy_str("#007aff")
    } else {
        t::join("#", t::hex_string(c, 6).as_str())
    }
}

/// The stop is shown as it was reached.
pub open spec fn shows(x: VizStopJson, s: VizStopView) -> bool {
    &&& x.stop_idx == s.stop_idx
    &&& x.lat == s.lat
    &&& x.lon == s.lon
    &&& x.name@ == s.name
    &&& x.arrival_secs == s.arrival_secs
    &&& x.round == s.round
    &&& x.route_color@ == shown_color(s.route_color)
    &&& x.parent_stop_idx == s.parent_stop_idx
    &&& x.route_idx == s.route_idx
    &&& x.board_stop_pos == s.board_stop_pos
    &&& x.alight_stop_pos == s.alight_stop_pos
}

/// All stops of a round are shown, in order.
pub open spec fn shows_round(v: Seq<VizStopJson>, round: Seq<VizStopView>) -> bool {
    &&& v.len() == round.len()
    &&& forall|i: int| 0 <= i < v.len() ==> shows(#[trigger] v[i], round[i])
}

/// The shape shows a route.
pub open spec fn shows_route(x: VizRouteJson, data: TransitData, r: int) -> bool {
    let route = data.routes@[r];
    &&& x.color@ == shown_color(route.color)
    &&& x.stops@ == Seq::new(
        route.stop_idxs@.len(),
        |i: int|
            {
                let s = data.stops@[route.stop_idxs@[i] as int];
                (s.lat, s.lon)
            },
    )
}

/// A stop was reached by the route: one of the first `k` rounds, or the first `i` stops of the
/// next one.
pub open spec fn ridden_before(rounds: Seq<Seq<VizStopView>>, r: u32, k: int, i: int) -> bool {
    exists|a: int, b: int|
        0 <= b && (0 <= a < k && b < rounds[a].len() || a == k && b < i) && (
        #[trigger] rounds[a][b]).route_idx == r
}

/// A route that some stop was reached by.
pub open spec fn ridden(rounds: Seq<Seq<VizStopView>>, r: u32) -> bool {
    r != NOT_SET && ridden_before(rounds, r, rounds.len() as int, 0)
}

/// All rounds are shown, with the shapes of just the routes that were ridden.
pub open spec fn shown(x: RaptorVizJson, data: TransitData, rounds: Seq<Seq<VizStopView>>) -> bool {
    &&& x.rounds@.len() == rounds.len()
    &&& forall|k: int|
        0 <= k < rounds.len() ==> shows_round((#[trigger] x.rounds@[k])@, rounds[k])
    &&& forall|r: u32| #[trigger] x.routes@.contains_key(r) <==> ridden(rounds, r)
    &&& forall|r: u32| #[trigger]
        x.routes@.contains_key(r) ==> shows_route(x.routes@[r], data, r as int)
}

fn show_stop(s: &VizStop) -> (r: VizStopJson)
    ensures
        shows(r, s@),
{
    VizStopJson {
        stop_idx: s.stop_idx,
        lat: s.lat,
        lon: s.lon,
        name: t::copy_str(s.name.as_str()),
        arrival_secs: s.arrival_secs,
        round: s.round,
        route_color: show_color(s.route_color),
        parent_stop_idx: s.parent_stop_idx,
        route_idx: s.route_idx,
        board_stop_pos: s.board_stop_pos,
        alight_stop_pos: s.alight_stop_pos,
    }
}

fn show_round(round: &Vec<VizStop>) -> (r: Vec<VizStopJson>)
    ensures
        shows_round(r@, f::views(round@)),
{
    let mut out: Vec<VizStopJson> = Vec::new();
    let mut i: usize = 0;
    while i < round.len()
        invariant
            i <= round@.len(),
            out@.len() == i,
            forall|k: int| 0 <= k < i ==> shows(#[trigger] out@[k], f::views(round@)[k]),
        decreases round@.len() - i,
    {
        out.push(show_stop(&round[i]));
        i += 1;
    }
    out
}

fn show_route(data: &TransitData, r: u32) -> (x: VizRouteJson)
    requires
        data.wf(),
        r < data.routes@.len(),
    ensures
        shows_route(x, *data, r as int),
{
    let route = &data.routes[r as usize];
    assert(data.route_ok(data.routes@[r as int]));
    let ghost all = Seq::new(
        route.stop_idxs@.len(),
        |i: int|
            {
                let s = data.stops@[route.stop_idxs@[i] as int];
                (s.lat, s.lon)
            },
    );
    let mut stops: Vec<(u64, u64)> = Vec::new();
    let mut i: usize = 0;
    while i < route.stop_idxs.len()
        invariant
            i <= route.stop_idxs@.len(),
            data.route_ok(*route),
            all == Seq::new(
                route.stop_idxs@.len(),
                |k: int|
                    {
                        let s = data.stops@[route.stop_idxs@[k] as int];
                        (s.lat, s.lon)
                    },
            ),
            stops@ == all.take(i as int),
        decreases route.stop_idxs@.len() - i,
    {
        let s = &data.stops[route.stop_idxs[i] as usize];
        stops.push((s.lat, s.lon));
        i += 1;
        assert(stops@ =~= all.take(i as int));
    }
    assert(all.take(i as int) =~= all);
    VizRouteJson { color: show_color(route.color), stops }
}

/// Every ridden route exists.
pub open spec fn routes_exist(rounds: Seq<Seq<VizStopView>>, n: int) -> bool {
    forall|a: int, b: int|
        0 <= a < rounds.len() && 0 <= b < rounds[a].len() ==> {
            let r = (#[trigger] rounds[a][b]).route_idx;
            r == NOT_SET || r < n
        }
}

/// The map holds the shapes of the routes ridden so far.
spec fn shapes_ok(
    routes: Map<u32, VizRouteJson>,
    data: TransitData,
    rounds: Seq<Seq<VizStopView>>,
    k: int,
    i: int,
) -> bool {
    &&& forall|r: u32| #[trigger]
        routes.contains_key(r) <==> r != NOT_SET && ridden_before(rounds, r, k, i)
    &&& forall|r: u32| #[trigger]
        routes.contains_key(r) ==> shows_route(routes[r], data, r as int)
}

/// Adds the routes of a round.
fn show_routes_of(
    data: &TransitData,
    rounds: &Vec<Vec<VizStop>>,
    k: usize,
    routes: &mut HashMap<u32, VizRouteJson>,
)
    requires
        data.wf(),
        k < rounds@.len(),
        routes_exist(round_views(rounds@), data.routes@.len() as int),
        shapes_ok(old(routes)@, *data, round_views(rounds@), k as int, 0),
    ensures
        shapes_ok(final(routes)@, *data, round_views(rounds@), k as int + 1, 0),
{
    broadcast use vstd::std_specs::hash::group_hash_axioms;

    let ghost rv = round_views(rounds@);
    let round = &rounds[k];
    let mut i: usize = 0;
    while i < round.len()
        invariant
            data.wf(),
            k < rounds@.len(),
            rv == round_views(rounds@),
            *round == rounds@[k as int],
            i <= round@.len(),
            routes_exist(rv, data.routes@.len() as int),
            shapes_ok(routes@, *data, rv, k as int, i as int),
        decreases round@.len() - i,
    {
        let r: u32 = round[i].route_idx;
        let ghost before = routes@;
        proof {
            assert(rv[k as int] == f::views(round@));
            assert(rv[k as int][i as int] == round@[i as int]@);
            assert forall|x: u32|
                ridden_before(rv, x, k as int, i as int + 1) <==> ridden_before(
                    rv,
                    x,
                    k as int,
                    i as int,
                ) || x == r by {
                lemma_ridden_step(rv, x, k as int, i as int);
            }
        }
        if r != NOT_SET && !routes.contains_key(&r) {
            let shape = show_route(data, r);
            routes.insert(r, shape);
            assert(routes@ =~= before.insert(r, shape));
        }
        proof {
            assert forall|x: u32| #[trigger]
                routes@.contains_key(x) <==> x != NOT_SET && ridden_before(
                    rv,
                    x,
                    k as int,
                    i as int + 1,
                ) by {
                assert(before.contains_key(x) <==> x != NOT_SET && ridden_before(
                    rv,
                    x,
                    k as int,
                    i as int,
                ));
            }
            assert forall|x: u32| #[trigger] routes@.contains_key(x) implies shows_route(
                routes@[x],
                *data,
                x as int,
            ) by {
                assert(before.contains_key(x) ==> shows_route(before[x], *data, x as int));
            }
        }
        i += 1;
    }
    proof {
        assert(rv[k as int].len() == round@.len());
        assert forall|x: u32| #[trigger]
            routes@.contains_key(x) <==> x != NOT_SET && ridden_before(rv, x, k as int + 1, 0) by {
            assert(before_is_next(rv, x, k as int)) by {
                lemma_ridden_round(rv, x, k as int);
            }
        }
    }
}

spec fn before_is_next(rounds: Seq<Seq<VizStopView>>, r: u32, k: int) -> bool {
    ridden_before(rounds, r, k, rounds[k].len() as int) <==> ridden_before(rounds, r, k + 1, 0)
}

proof fn lemma_ridden_round(rounds: Seq<Seq<VizStopView>>, r: u32, k: int)
    requires
        0 <= k < rounds.len(),
    ensures
        before_is_next(rounds, r, k),
{
    let n = rounds[k].len() as int;
    if ridden_before(rounds, r, k, n) {
        let (a, b) = choose|a: int, b: int|
            0 <= b && (0 <= a < k && b < rounds[a].len() || a == k && b < n) && (
            #[trigger] rounds[a][b]).route_idx == r;
        assert(rounds[a][b].route_idx == r);
    }
    if ridden_before(rounds, r, k + 1, 0) {
        let (a, b) = choose|a: int, b: int|
            0 <= b && (0 <= a < k + 1 && b < rounds[a].len() || a == k + 1 && b < 0) && (
            #[trigger] rounds[a][b]).route_idx == r;
        assert(rounds[a][b].route_idx == r);
    }
}

proof fn lemma_ridden_step(rounds: Seq<Seq<VizStopView>>, r: u32, k: int, i: int)
    requires
        0 <= k < rounds.len(),
        0 <= i < rounds[k].len(),
    ensures
        ridden_before(rounds, r, k, i + 1) <==> ridden_before(rounds, r, k, i)
            || rounds[k][i].route_idx == r,
{
    if ridden_before(rounds, r, k, i + 1) {
        let (a, b) = choose|a: int, b: int|
            0 <= b && (0 <= a < k && b < rounds[a].len() || a == k && b < i + 1) && (
            #[trigger] rounds[a][b]).route_idx == r;
        assert(rounds[a][b].route_idx == r);
    }
    if ridden_before(rounds, r, k, i) {
        let (a, b) = choose|a: int, b: int|
            0 <= b && (0 <= a < k && b < rounds[a].len() || a == k && b < i) && (
            #[trigger] rounds[a][b]).route_idx == r;
        assert(rounds[a][b].route_idx == r);
    }
}

/// Shows the rounds of a search: every stop with its color in writing, and the shapes of the routes
/// that were ridden.
pub fn show_rounds(data: &TransitData, viz: &RaptorViz) -> (r: RaptorVizJson)
    requires
        data.wf(),
        routes_exist(round_views(viz.rounds@), data.routes@.len() as int),
    ensures
        r.departure_time == viz.departure_time,
        r.num_stops_total == data.stops@.len(),
        shown(r, *data, round_views(viz.rounds@)),
{
    broadcast use vstd::std_specs::hash::group_hash_axioms;

    let ghost rv = round_views(viz.rounds@);
    let mut rounds: Vec<Vec<VizStopJson>> = Vec::new();
    let mut routes: HashMap<u32, VizRouteJson> = HashMap::new();
    let mut k: usize = 0;
    while k < viz.rounds.len()
        invariant
            data.wf(),
            rv == round_views(viz.rounds@),
            routes_exist(rv, data.routes@.len() as int),
            k <= viz.rounds@.len(),
            rounds@.len() == k,
            forall|i: int| 0 <= i < k ==> shows_round((#[trigger] rounds@[i])@, rv[i]),
            shapes_ok(routes@, *data, rv, k as int, 0),
        decreases viz.rounds@.len() - k,
    {
        rounds.push(show_round(&viz.rounds[k]));
        show_routes_of(data, &viz.rounds, k, &mut routes);
        k += 1;
    }
    RaptorVizJson {
        rounds,
        departure_time: viz.departure_time,
        num_stops_total: data.stops.len(),
        routes,
    }
}

// ---------------------------------------------------------------------------
// From a request
// ---------------------------------------------------------------------------

/// Farthest walk to the first stop, in metres.
pub const DEFAULT_MAX_WALK: u32 = 1200;

/// How far the traveller may walk to the first stop, in metres.
pub fn walk_limit(req: &PlanRequest) -> (r: u32)
    ensures
        r == (match req.max_walk_distance {
            Some(n) => n,
            None => DEFAULT_MAX_WALK,
        }),
{
    match req.max_walk_distance {
        Some(n) => n,
        None => DEFAULT_MAX_WALK,
    }
}

/// The query that a request makes with the stops within reach of its origin. It has no end.
pub open spec fn explores(
    q: RaptorQuery,
    req: PlanRequest,
    origin_stops: Seq<(u32, u32, u32)>,
) -> bool {
    &&& q.origin_stops@ == pl::timed(origin_stops)
    &&& q.dest_stops@.len() == 0
    &&& q.departure_time == req.departure_time
    &&& q.service_day == req.service_day
    &&& q.max_transfers == (match req.max_transfers {
        Some(n) => n,
        None => pl::DEFAULT_MAX_TRANSFERS,
    })
    &&& q.max_results == 1
}

/// Shows what can be reached from the origin of a request, round by round.
pub fn plan_viz(
    data: &TransitData,
    req: &PlanRequest,
    origin_stops: &Vec<(u32, u32, u32)>,
) -> (r: RaptorVizJson)
    requires
        data.wf(),
        pl::stops_exist(origin_stops@, data.stops@.len() as int),
    ensures
        exists|q: RaptorQuery|
            {
                let rounds = #[trigger] reached_rounds(*data, m::query_rounds(*data, q));
                &&& explores(q, *req, origin_stops@)
                &&& shown(r, *data, rounds)
            },
        r.departure_time == req.departure_time,
        r.num_stops_total == data.stops@.len(),
{
    let query = RaptorQuery {
        origin_stops: pl::with_times(origin_stops),
        dest_stops: Vec::new(),
        departure_time: req.departure_time,
        service_day: req.service_day,
        max_transfers: match req.max_transfers {
            Some(n) => n,
            None => pl::DEFAULT_MAX_TRANSFERS,
        },
        max_results: 1,
    };
    assert(query.wf(*data)) by {
        assert forall|i: int| 0 <= i < query.origin_stops@.len() implies (
        #[trigger] query.origin_stops@[i]).0 < data.stops@.len() by {
            assert(origin_stops@[i].0 < data.stops@.len());
        }
    }
    assert(explores(query, *req, origin_stops@));
    let viz = rp::run_viz(data, &query);
    let r = show_rounds(data, &viz);
    assert(round_views(viz.rounds@) == reached_rounds(*data, m::query_rounds(*data, query)));
    r
}

} // verus!
