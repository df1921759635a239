//! What a drawing of a search shows.

use crate::data::TransitData;
use crate::feed as f;
use crate::raptor::{Parent, RaptorQuery};
use crate::raptor_model as m;
use crate::raptor_model::Round;
use crate::request::PlanRequest;
use crate::text as t;
use crate::viz as v;
use crate::viz::{RaptorVizJson, VizRouteJson, VizStopJson, VizStopView};
use vstd::prelude::*;

verus! {

/// A color that is shown reads back as itself. Black is shown as blue.
pub proof fn shown_colors_read_back(c: u32)
    ensures
        c != 0 ==> f::color_in(v::shown_color(c)) == c && v::shown_color(c)[0] == '#',
        c == 0 ==> v::shown_color(c) == "#007aff"@,
{
    reveal_strlit("#");
    if c != 0 {
        let text = v::shown_color(c);
        let digits = t::padded(c as int, 16, 6);
        t::written_number_reads_back(c as int, 16, 6, u32::MAX as int);
        t::lemma_padded_digits(c as int, 16, 6, digits.len() - 1);
        t::lemma_padded_digits(c as int, 16, 6, 0);
        assert(text[0] == '#');
        assert(text.skip(1) =~= digits);
        assert(text.last() == digits.last());
        t::lemma_trimmed(text);
        assert(digits[0] != '#');
        assert(f::without_leading(digits, '#') == digits);
        assert(f::without_leading(text, '#') == f::without_leading(text.skip(1), '#'));
    }
}

proof fn lemma_index_from(s: Seq<u32>, x: u32, from: int)
    requires
        0 <= from,
    ensures
        match m::index_from(s, x, from) {
            Some(p) => from <= p < s.len() && s[p] == x && forall|q: int|
                from <= q < p ==> #[trigger] s[q] != x,
            None => forall|q: int| from <= q < s.len() ==> #[trigger] s[q] != x,
        },
    decreases s.len() - from,
{
    if from < s.len() && s[from] != x {
        lemma_index_from(s, x, from + 1);
    }
}

/// Where a ride ends is the first position from where it was boarded at which the route calls at
/// the stop.
pub open spec fn ends_at(s: Seq<u32>, x: u32, board: int, p: int) -> bool {
    (exists|q: int| board <= q < s.len() && #[trigger] s[q] == x) ==> board <= p < s.len() && s[p]
        == x && forall|q: int| board <= q < p ==> #[trigger] s[q] != x
}

/// A stop is drawn where it lies, with its name, when and in which round it was reached, and how:
/// from where and by which route, or on foot.
pub open spec fn drawn(x: VizStopJson, data: TransitData, round: Round, k: int, s: int) -> bool {
    &&& x.stop_idx == s
    &&& x.lat == data.stops@[s].lat
    &&& x.lon == data.stops@[s].lon
    &&& x.name@ == data.stops@[s].name@
    &&& x.arrival_secs == round.arr[s]
    &&& x.round == k
    &&& match round.par[s] {
        Parent::Ride { route_idx, trip_num, board_pos, board_time, freq_delta } => {
            let route = data.routes@[route_idx as int];
            &&& x.route_idx == route_idx
            &&& x.board_stop_pos == board_pos
            &&& x.parent_stop_idx == route.stop_idxs@[board_pos as int]
            &&& ends_at(
                route.stop_idxs@,
                s as u32,
                board_pos as int,
                x.alight_stop_pos as int,
            )
            &&& route.color != 0 ==> f::color_in(x.route_color@) == route.color
        },
        Parent::Walk { from } => {
            &&& x.parent_stop_idx == from
            &&& x.route_idx == 0xffff_ffff
            &&& x.board_stop_pos == 0xffff_ffff
            &&& x.alight_stop_pos == 0xffff_ffff
        },
        Parent::Unreached => {
            &&& x.parent_stop_idx == 0xffff_ffff
            &&& x.route_idx == 0xffff_ffff
            &&& x.board_stop_pos == 0xffff_ffff
            &&& x.alight_stop_pos == 0xffff_ffff
        },
    }
}

/// A list holds the first `n` stops that a round reaches, in order.
spec fn lists(data: TransitData, round: Round, k: int, n: int) -> bool {
    let r = v::reached_stops(data, round, k, n);
    &&& forall|i: int|
        0 <= i < r.len() ==> 0 <= (#[trigger] r[i]).stop_idx < n && round.arr[r[i].stop_idx as int]
            != 0xffff_ffff && r[i] == v::reached_stop(data, round, k, r[i].stop_idx as int)
    &&& forall|i: int, j: int|
        0 <= i < j < r.len() ==> (#[trigger] r[i]).stop_idx < (#[trigger] r[j]).stop_idx
    &&& forall|s: int|
        0 <= s < n && #[trigger] round.arr[s] != 0xffff_ffff ==> has_stop(r, s)
}

spec fn has_stop(r: Seq<VizStopView>, s: int) -> bool {
    exists|i: int| 0 <= i < r.len() && (#[trigger] r[i]).stop_idx == s
}

proof fn lemma_lists(data: TransitData, round: Round, k: int, n: int)
    requires
        0 <= n <= data.stops@.len() <= u32::MAX,
    ensures
        lists(data, round, k, n),
    decreases n,
{
    if n > 0 {
        lemma_lists(data, round, k, n - 1);
        let front = v::reached_stops(data, round, k, n - 1);
        let r = v::reached_stops(data, round, k, n);
        assert forall|s: int|
            0 <= s < n && #[trigger] round.arr[s] != 0xffff_ffff implies has_stop(r, s) by {
            if s < n - 1 {
                assert(has_stop(front, s));
                let i = choose|i: int| 0 <= i < front.len() && (#[trigger] front[i]).stop_idx == s;
                assert(r[i] == front[i]);
            } else {
                assert(r[front.len() as int].stop_idx == s);
            }
        }
    }
}

proof fn lemma_drawn(x: VizStopJson, data: TransitData, round: Round, k: int, s: int)
    requires
        0 <= s < data.stops@.len() <= u32::MAX,
        0 <= k <= u32::MAX,
        v::shows(x, v::reached_stop(data, round, k, s)),
        forall|r: int|
            0 <= r < data.routes@.len() ==> (#[trigger] data.routes@[r]).stop_idxs@.len()
                <= u32::MAX,
        match round.par[s] {
            Parent::Ride { route_idx, .. } => route_idx < data.routes@.len(),
            _ => true,
        },
    ensures
        drawn(x, data, round, k, s),
{
    match round.par[s] {
        Parent::Ride { route_idx, trip_num, board_pos, board_time, freq_delta } => {
            let stops = data.routes@[route_idx as int].stop_idxs@;
            lemma_index_from(stops, s as u32, board_pos as int);
            lemma_index_from(stops, s as u32, 0);
            shown_colors_read_back(data.routes@[route_idx as int].color);
            if exists|q: int| board_pos <= q < stops.len() && #[trigger] stops[q] == s as u32 {
                let q = choose|q: int| board_pos <= q < stops.len() && #[trigger] stops[q]
                    == s as u32;
                assert(m::index_from(stops, s as u32, board_pos as int) is Some);
            }
        },
        _ => {},
    }
}

/// Rides are on routes that exist.
pub open spec fn rides_exist(data: TransitData, round: Round) -> bool {
    forall|s: int|
        0 <= s < data.stops@.len() && (#[trigger] round.par[s]) is Ride
            ==> round.par[s]->route_idx < data.routes@.len()
}

/// A drawing shows, for each round, the stops that the round reaches, each once and in order.
pub proof fn drawings_show_reached_stops(
    x: RaptorVizJson,
    data: TransitData,
    rs: Seq<Round>,
    k: int,
)
    requires
        data.stops@.len() <= u32::MAX,
        rs.len() <= u32::MAX,
        forall|r: int|
            0 <= r < data.routes@.len() ==> (#[trigger] data.routes@[r]).stop_idxs@.len()
                <= u32::MAX,
        v::shown(x, data, v::reached_rounds(data, rs)),
        0 <= k < rs.len(),
        rides_exist(data, rs[k]),
    ensures
        x.rounds@.len() == rs.len(),
        forall|i: int|
            0 <= i < x.rounds@[k]@.len() ==> {
                let s = (#[trigger] x.rounds@[k]@[i]).stop_idx as int;
                &&& s < data.stops@.len()
                &&& rs[k].arr[s] != 0xffff_ffff
                &&& drawn(x.rounds@[k]@[i], data, rs[k], k, s)
            },
        forall|i: int, j: int|
            0 <= i < j < x.rounds@[k]@.len() ==> (#[trigger] x.rounds@[k]@[i]).stop_idx < (
            #[trigger] x.rounds@[k]@[j]).stop_idx,
        forall|s: int|
            0 <= s < data.stops@.len() && #[trigger] rs[k].arr[s] != 0xffff_ffff ==> is_drawn(
                x,
                k,
                s,
            ),
{
    let rounds = v::reached_rounds(data, rs);
    let n = data.stops@.len() as int;
    lemma_lists(data, rs[k], k, n);
    let r = v::reached_stops(data, rs[k], k, n);
    assert(rounds[k] == r);
    let list = x.rounds@[k]@;
    assert(v::shows_round(x.rounds@[k]@, rounds[k]));
    assert forall|i: int| 0 <= i < list.len() implies {
        let s = (#[trigger] list[i]).stop_idx as int;
        &&& s < data.stops@.len()
        &&& rs[k].arr[s] != 0xffff_ffff
        &&& drawn(list[i], data, rs[k], k, s)
    } by {
        let s = list[i].stop_idx as int;
        assert(v::shows(list[i], r[i]));
        assert(r[i].stop_idx == s);
        assert(rs[k].par[s] is Ride ==> rs[k].par[s]->route_idx < data.routes@.len());
        lemma_drawn(list[i], data, rs[k], k, s);
    }
    assert forall|i: int, j: int| 0 <= i < j < list.len() implies (#[trigger] list[i]).stop_idx < (
    #[trigger] list[j]).stop_idx by {
        assert(v::shows(list[i], r[i]) && v::shows(list[j], r[j]));
        assert(r[i].stop_idx < r[j].stop_idx);
    }
    assert forall|s: int| 0 <= s < n && #[trigger] rs[k].arr[s] != 0xffff_ffff implies is_drawn(
        x,
        k,
        s,
    ) by {
        assert(has_stop(r, s));
        let i = choose|i: int| 0 <= i < r.len() && (#[trigger] r[i]).stop_idx == s;
        assert(v::shows(list[i], r[i]));
        assert(list[i].stop_idx == s);
    }
}

/// A stop is among those drawn of a round.
pub open spec fn is_drawn(x: RaptorVizJson, k: int, s: int) -> bool {
    exists|i: int| 0 <= i < x.rounds@[k]@.len() && (#[trigger] x.rounds@[k]@[i]).stop_idx == s
}

/// A shape has the color of its route, and runs through its stops.
pub open spec fn outlines(x: VizRouteJson, data: TransitData, r: int) -> bool {
    let stops = data.routes@[r].stop_idxs@;
    &&& data.routes@[r].color != 0 ==> f::color_in(x.color@) == data.routes@[r].color
    &&& x.stops@.len() == stops.len()
    &&& forall|i: int|
        0 <= i < stops.len() ==> (#[trigger] x.stops@[i]).0 == data.stops@[stops[i] as int].lat
            && x.stops@[i].1 == data.stops@[stops[i] as int].lon
}

/// Some round reaches some stop by a route.
pub open spec fn rode(data: TransitData, rs: Seq<Round>, r: u32) -> bool {
    exists|k: int, s: int|
        0 <= k < rs.len() && 0 <= s < data.stops@.len() && #[trigger] rs[k].arr[s] != 0xffff_ffff
            && rs[k].par[s] is Ride && rs[k].par[s]->route_idx == r
}

/// A drawing has the shape of every route by which some stop is reached, and no others.
pub proof fn drawings_show_ridden_routes(
    x: RaptorVizJson,
    data: TransitData,
    rs: Seq<Round>,
    r: u32,
)
    requires
        data.stops@.len() <= u32::MAX,
        v::shown(x, data, v::reached_rounds(data, rs)),
        r != 0xffff_ffff,
    ensures
        x.routes@.contains_key(r) <==> rode(data, rs, r),
        x.routes@.contains_key(r) ==> outlines(x.routes@[r], data, r as int),
{
    let rounds = v::reached_rounds(data, rs);
    let n = data.stops@.len() as int;
    assert(x.routes@.contains_key(r) <==> v::ridden(rounds, r));
    if v::ridden(rounds, r) {
        let (a, b) = choose|a: int, b: int|
            0 <= b && (0 <= a < rounds.len() && b < rounds[a].len() || a == rounds.len() && b < 0)
                && (#[trigger] rounds[a][b]).route_idx == r;
        lemma_lists(data, rs[a], a, n);
        let list = v::reached_stops(data, rs[a], a, n);
        assert(rounds[a] == list);
        let s = list[b].stop_idx as int;
        assert(list[b] == v::reached_stop(data, rs[a], a, s));
        assert(rs[a].arr[s] != 0xffff_ffff);
        shown_colors_read_back(data.routes@[r as int].color);
    }
    if rode(data, rs, r) {
        let (k, s) = choose|k: int, s: int|
            0 <= k < rs.len() && 0 <= s < data.stops@.len() && #[trigger] rs[k].arr[s]
                != 0xffff_ffff && rs[k].par[s] is Ride && rs[k].par[s]->route_idx == r;
        lemma_lists(data, rs[k], k, n);
        let list = v::reached_stops(data, rs[k], k, n);
        assert(rounds[k] == list);
        assert(has_stop(list, s));
        let i = choose|i: int| 0 <= i < list.len() && (#[trigger] list[i]).stop_idx == s;
        assert(list[i] == v::reached_stop(data, rs[k], k, s));
        assert(rounds[k][i].route_idx == r);
    }
}

/// A drawing starts from the stops within reach, when the request does, on its day. It allows three
/// changes unless the request says otherwise.
pub proof fn drawings_follow_the_request(
    q: RaptorQuery,
    req: PlanRequest,
    origin_stops: Seq<(u32, u32, u32)>,
    i: int,
)
    requires
        v::explores(q, req, origin_stops),
    ensures
        q.origin_stops@.len() == origin_stops.len(),
        0 <= i < origin_stops.len() ==> q.origin_stops@[i].0 == origin_stops[i].0
            && q.origin_stops@[i].1 == origin_stops[i].1,
        q.dest_stops@.len() == 0,
        q.departure_time == req.departure_time,
        q.service_day == req.service_day,
        req.max_transfers is Some ==> q.max_transfers == req.max_transfers->0,
        req.max_transfers is None ==> q.max_transfers == 3,
{
}

} // verus!
