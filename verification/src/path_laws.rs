//! What walking paths look like.

use crate::data::{Stop, WalkGraph};
use crate::grid;
use crate::loader as l;
use crate::planner as pl;
use crate::viz as v;
use crate::walk as w;
use crate::walker as wk;
use crate::walker::WalkReach;
use vstd::prelude::*;

verus! {

/// Nobody has to walk to stay. A way to a node can be walked on along every edge of the node, and is
/// then longer by the length of the edge.
pub proof fn streets_can_be_walked(
    g: WalkGraph,
    from: int,
    u: int,
    metres: int,
    n: nat,
    k: int,
)
    requires
        0 <= u < g.nodes@.len(),
        0 <= k < g.nodes@[u].num_edges,
    ensures
        wk::walkable(g, u, u, 0, 0),
        wk::walkable(g, from, u, metres, n) ==> ({
            let e = g.edges@[g.nodes@[u].edges_offset + k];
            wk::walkable(g, from, e.to_node_idx as int, metres + e.dist_meters, n + 1)
        }),
{
    let at = g.nodes@[u].edges_offset + k;
    assert(wk::is_edge(g, u, at));
}

/// An edge of a node, counted from its first one.
pub open spec fn edge_of(g: WalkGraph, u: int, k: int, to: int, metres: int) -> bool {
    &&& 0 <= u < g.nodes@.len()
    &&& 0 <= k < g.nodes@[u].num_edges
    &&& g.edges@[g.nodes@[u].edges_offset + k].to_node_idx == to
    &&& g.edges@[g.nodes@[u].edges_offset + k].dist_meters == metres
}

/// Every way leads along edges: the last step of it is an edge of the node before.
pub proof fn ways_lead_along_edges(g: WalkGraph, from: int, to: int, metres: int, n: nat)
    requires
        wk::walkable(g, from, to, metres, n),
    ensures
        n == 0 ==> from == to && metres == 0,
        n > 0 ==> exists|u: int, k: int, d: int| #[trigger]
            edge_of(g, u, k, to, d) && wk::walkable(g, from, u, metres - d, (n - 1) as nat),
{
    if n > 0 {
        let (u, e) = choose|u: int, e: int| #[trigger]
            wk::is_edge(g, u, e) && g.edges@[e].to_node_idx == to && wk::walkable(
                g,
                from,
                u,
                metres - g.edges@[e].dist_meters,
                (n - 1) as nat,
            );
        let k = e - g.nodes@[u].edges_offset;
        let d = g.edges@[e].dist_meters as int;
        assert(edge_of(g, u, k, to, d));
    }
}

/// The distances found are those of all nodes within the limit, and of no others: each is the length
/// of a shortest way.
pub proof fn all_nodes_within_reach_are_found(
    g: WalkGraph,
    start: int,
    limit: u32,
    dist: Seq<u32>,
    v: int,
    metres: int,
    n: nat,
)
    requires
        wk::distances_from(g, start, limit, dist),
        limit < 0xffff_ffff,
        0 <= v < g.nodes@.len(),
    ensures
        dist.len() == g.nodes@.len(),
        wk::walkable(g, start, v, metres, n) && metres <= limit ==> dist[v] <= metres,
        dist[v] != 0xffff_ffff ==> dist[v] <= limit && shortest_way(g, start, v, dist[v] as int),
{
    let m = dist[v];
    if m != 0xffff_ffff {
        assert(wk::distance_is(g, start, v, m as int));
    }
}

/// A shortest way of that many metres leads from one node to another.
pub open spec fn shortest_way(g: WalkGraph, from: int, to: int, metres: int) -> bool {
    &&& exists|n: nat| wk::walkable(g, from, to, metres, n)
    &&& forall|m: int, n: nat| #[trigger] wk::walkable(g, from, to, m, n) ==> metres <= m
}

/// A path over the streets begins and ends at the two places. In between it leads along a shortest
/// way from the one node to the other, which is no longer than the limit.
pub proof fn walks_follow_streets(
    g: WalkGraph,
    from: (u64, u64),
    start: int,
    end: int,
    to: (u64, u64),
    limit: u32,
    metres: int,
    path: Seq<(u64, u64)>,
)
    requires
        g.wf(),
        0 <= end < g.nodes@.len(),
        wk::leads_over(g, from, start, end, to, limit, metres, path),
    ensures
        shortest_way(g, start, end, metres),
        0 <= metres <= limit,
        path.len() >= 3,
        path[0] == from,
        path[1] == (g.nodes@[start].lat, g.nodes@[start].lon),
        path[path.len() - 2] == (g.nodes@[end].lat, g.nodes@[end].lon),
        path.last() == to,
{
    let (dist, inner) = choose|dist: Seq<u32>, inner: Seq<(u64, u64)>|
        {
            &&& wk::distances_from(g, start, limit, dist)
            &&& dist[end] == metres
            &&& metres != u32::MAX
            &&& #[trigger] wk::is_path(g, dist, start, end, inner)
            &&& path == seq![from] + inner + seq![to]
        };
    assert(dist[end] != u32::MAX);
    assert(wk::distance_is(g, start, end, metres));
    let route = choose|route: Seq<u32>| #[trigger]
        wk::shortest_route(g, dist, start, end, route) && inner == wk::coords_along(g, dist, route);
    lemma_ends(g, dist, route);
}

proof fn lemma_ends(g: WalkGraph, dist: Seq<u32>, route: Seq<u32>)
    requires
        route.len() > 0,
    ensures
        ({
            let path = wk::coords_along(g, dist, route);
            &&& path.len() >= route.len()
            &&& path[0] == (g.nodes@[route[0] as int].lat, g.nodes@[route[0] as int].lon)
            &&& path.last() == (
                g.nodes@[route.last() as int].lat,
                g.nodes@[route.last() as int].lon,
            )
        }),
    decreases route.len(),
{
    if route.len() > 1 {
        lemma_ends(g, dist, route.drop_last());
        assert(route.drop_last()[0] == route[0]);
        assert(wk::coords_along(g, dist, route)[0] == wk::coords_along(
            g,
            dist,
            route.drop_last(),
        )[0]);
    }
}

/// The points are those of an edge that leads on along a shortest way. There are none only if no
/// such edge has any, or if those of the first one are not there.
pub open spec fn points_on(
    g: WalkGraph,
    dist: Seq<u32>,
    from: int,
    to: u32,
    points: Seq<(u64, u64)>,
) -> bool {
    ||| exists|e: int| #[trigger]
        bends(g, dist, from, to, e) && g.edges@[e].geometry_offset + g.edges@[e].geometry_len
            <= g.geometry@.len() && points == g.geometry@.subrange(
            g.edges@[e].geometry_offset as int,
            g.edges@[e].geometry_offset + g.edges@[e].geometry_len,
        )
    ||| points.len() == 0 && forall|e: int| !#[trigger] bends(g, dist, from, to, e)
    ||| points.len() == 0 && exists|e: int| #[trigger]
        bends(g, dist, from, to, e) && g.edges@[e].geometry_offset + g.edges@[e].geometry_len
            > g.geometry@.len()
}

/// An edge leads from one node to another on a shortest way and has points of its own.
pub open spec fn bends(g: WalkGraph, dist: Seq<u32>, from: int, to: u32, e: int) -> bool {
    &&& g.nodes@[from].edges_offset <= e < g.nodes@[from].edges_offset + g.nodes@[from].num_edges
    &&& g.edges@[e].to_node_idx == to
    &&& dist[from] + g.edges@[e].dist_meters == dist[to as int]
    &&& g.edges@[e].geometry_len > 0
}

proof fn lemma_detailed(g: WalkGraph, dist: Seq<u32>, u: int, to: u32, e: int)
    requires
        g.nodes@[u].edges_offset <= e,
    ensures
        match wk::detailed_edge(g, dist, u, to, e) {
            Some(x) => bends(g, dist, u, to, x),
            None => forall|x: int| e <= x ==> !#[trigger] bends(g, dist, u, to, x),
        },
    decreases g.nodes@[u].edges_offset + g.nodes@[u].num_edges - e,
{
    if e < g.nodes@[u].edges_offset + g.nodes@[u].num_edges && !bends(g, dist, u, to, e) {
        lemma_detailed(g, dist, u, to, e + 1);
    }
}

/// A path passes the nodes of its route in order. Between two of them it has the points of the edge
/// that leads from the one to the other.
pub proof fn paths_pass_their_nodes(g: WalkGraph, dist: Seq<u32>, route: Seq<u32>, next: u32)
    requires
        route.len() > 0,
    ensures
        wk::coords_along(g, dist, seq![next]) == seq![
            (g.nodes@[next as int].lat, g.nodes@[next as int].lon),
        ],
        exists|points: Seq<(u64, u64)>| #[trigger]
            points_on(g, dist, route.last() as int, next, points) && wk::coords_along(
                g,
                dist,
                route.push(next),
            ) == wk::coords_along(g, dist, route) + points + seq![
                (g.nodes@[next as int].lat, g.nodes@[next as int].lon),
            ],
{
    let longer = route.push(next);
    let u = route.last() as int;
    assert(longer.drop_last() =~= route);
    assert(longer[longer.len() - 2] == route.last());
    lemma_detailed(g, dist, u, next, g.nodes@[u].edges_offset as int);
    let points = wk::points_between(g, dist, u, next);
    if wk::detailed_edge(g, dist, u, next, g.nodes@[u].edges_offset as int) is None {
        assert forall|e: int| !#[trigger] bends(g, dist, u, next, e) by {
            if bends(g, dist, u, next, e) {
                assert(g.nodes@[u].edges_offset <= e);
            }
        }
    }
    assert(points_on(g, dist, u, next, points));
}

/// The node of a stop: the one it is linked to, or else the one nearest to it.
pub open spec fn node_at(stop: Stop, near: Option<u32>, node: u32) -> bool {
    if stop.walk_node_idx == 0xffff_ffff {
        near == Some(node)
    } else {
        node == stop.walk_node_idx
    }
}

/// A walk between two stops leads over the streets if a way of at most 2000 metres joins their
/// nodes, and then along a shortest one. Else it is the straight line.
pub proof fn stops_are_joined_over_streets(
    g: WalkGraph,
    from: Stop,
    to: Stop,
    from_near: Option<u32>,
    to_near: Option<u32>,
    path: Seq<(u64, u64)>,
    a: u32,
    b: u32,
)
    requires
        g.wf(),
        wk::leads_between(g, from, to, from_near, to_near, path),
    ensures
        path.len() >= 2,
        path[0] == (from.lat, from.lon),
        path.last() == (to.lat, to.lon),
        g.nodes@.len() > 0 && node_at(from, from_near, a) && node_at(to, to_near, b) && b
            < g.nodes@.len() ==> {
            ||| path.len() >= 3 && path[1] == (g.nodes@[a as int].lat, g.nodes@[a as int].lon)
                && path[path.len() - 2] == (g.nodes@[b as int].lat, g.nodes@[b as int].lon)
                && exists|metres: int|
                metres <= 2000 && #[trigger] shortest_way(g, a as int, b as int, metres)
            ||| path.len() == 2 && forall|m: int, n: nat| #[trigger]
                wk::walkable(g, a as int, b as int, m, n) ==> m > 2000
        },
        (g.nodes@.len() == 0 || (from.walk_node_idx == 0xffff_ffff && from_near is None) || (
        to.walk_node_idx == 0xffff_ffff && to_near is None)) ==> path.len() == 2,
{
    let x = wk::stop_node(from, from_near);
    let y = wk::stop_node(to, to_near);
    if g.nodes@.len() > 0 && x is Some && y is Some {
        if exists|metres: int|
            wk::leads_over(
                g,
                (from.lat, from.lon),
                x->0 as int,
                y->0 as int,
                (to.lat, to.lon),
                2000,
                metres,
                path,
            ) {
            let metres = choose|metres: int|
                wk::leads_over(
                    g,
                    (from.lat, from.lon),
                    x->0 as int,
                    y->0 as int,
                    (to.lat, to.lon),
                    2000,
                    metres,
                    path,
                );
            let (dist, inner) = choose|dist: Seq<u32>, inner: Seq<(u64, u64)>|
                {
                    &&& wk::distances_from(g, x->0 as int, 2000, dist)
                    &&& dist[y->0 as int] == metres
                    &&& metres != u32::MAX
                    &&& #[trigger] wk::is_path(g, dist, x->0 as int, y->0 as int, inner)
                    &&& path == seq![(from.lat, from.lon)] + inner + seq![(to.lat, to.lon)]
                };
            if y->0 < g.nodes@.len() {
                walks_follow_streets(
                    g,
                    (from.lat, from.lon),
                    x->0 as int,
                    y->0 as int,
                    (to.lat, to.lon),
                    2000,
                    metres,
                    path,
                );
            }
        }
    }
}

/// What is known of the way to a stop leads from the node nearest to the start to the node of the
/// stop. Nothing is known if the streets were not used or the node is out of reach.
pub proof fn ways_to_stops_lead_to_their_nodes(
    reach: WalkReach,
    g: WalkGraph,
    stop: Stop,
    near: Option<u32>,
    path: Seq<(u64, u64)>,
    node: u32,
)
    requires
        reach.stop_path_known(g, stop, near, path),
    ensures
        node_at(stop, near, node) && reach.dijk is Some && (reach.dijk->0).dist@[node as int]
            != 0xffff_ffff ==> {
            let start = (reach.dijk->0).start as int;
            &&& path.len() >= 1
            &&& path[0] == (g.nodes@[start].lat, g.nodes@[start].lon)
            &&& path.last() == (g.nodes@[node as int].lat, g.nodes@[node as int].lon)
            &&& exists|n: nat|
                wk::walkable(
                    g,
                    start,
                    node as int,
                    (reach.dijk->0).dist@[node as int] as int,
                    n,
                )
        },
        node_at(stop, near, node) && (reach.dijk is None || (reach.dijk->0).dist@[node as int]
            == 0xffff_ffff) ==> path.len() == 0,
        stop.walk_node_idx == 0xffff_ffff && near is None ==> path.len() == 0,
{
    if node_at(stop, near, node) && reach.dijk is Some && (reach.dijk->0).dist@[node as int]
        != 0xffff_ffff {
        let dist = (reach.dijk->0).dist@;
        let start = (reach.dijk->0).start as int;
        let route = choose|route: Seq<u32>| #[trigger]
            wk::shortest_route(g, dist, start, node as int, route) && path == wk::coords_along(
                g,
                dist,
                route,
            );
        lemma_ends(g, dist, route);
        wk::route_covers_distance(
            g,
            dist,
            start,
            node as int,
            route,
            (route.len() - 1) as nat,
        );
    }
}

/// The way from a place to a stop begins at the place and ends at the stop. If the streets were used
/// and the node of the stop is within reach, it leads from the node nearest to the place to the node
/// of the stop; else it is the straight line.
pub proof fn doors_are_joined_to_stops(
    g: WalkGraph,
    reach: WalkReach,
    from: (u64, u64),
    stop: Stop,
    near: Option<u32>,
    path: Seq<(u64, u64)>,
    node: u32,
)
    requires
        pl::leads_to_stop(g, reach, from, stop, near, path),
    ensures
        path.len() >= 2,
        path[0] == from,
        path.last() == (stop.lat, stop.lon),
        node_at(stop, near, node) && reach.dijk is Some && (reach.dijk->0).dist@[node as int]
            != 0xffff_ffff ==> {
            let start = (reach.dijk->0).start as int;
            &&& path.len() >= 3
            &&& path[1] == (g.nodes@[start].lat, g.nodes@[start].lon)
            &&& path[path.len() - 2] == (g.nodes@[node as int].lat, g.nodes@[node as int].lon)
        },
        reach.dijk is None || (stop.walk_node_idx == 0xffff_ffff && near is None) ==> path.len()
            == 2,
        node_at(stop, near, node) && reach.dijk is Some && (reach.dijk->0).dist@[node as int]
            == 0xffff_ffff ==> path.len() == 2,
{
    let inner = choose|inner: Seq<(u64, u64)>| #[trigger]
        reach.stop_path_known(g, stop, near, inner) && path == seq![from] + inner + seq![
            (stop.lat, stop.lon),
        ];
    ways_to_stops_lead_to_their_nodes(reach, g, stop, near, inner, node);
    if wk::stop_node(stop, near) is Some {
        ways_to_stops_lead_to_their_nodes(
            reach,
            g,
            stop,
            near,
            inner,
            wk::stop_node(stop, near)->0,
        );
    }
}

/// A stop is linked to a node at most two cells away, in either direction. Only stops, stations and
/// entrances that lie somewhere are linked.
pub proof fn links_are_sought_nearby(
    node_cells: Seq<(i32, i32)>,
    cell: (i32, i32),
    location_type: u8,
    located: bool,
    i: u32,
)
    requires
        node_cells.len() <= u32::MAX,
    ensures
        w::nodes_near(node_cells, cell, location_type, located).contains(i) <==> location_type <= 2
            && located && i < node_cells.len() && -2 <= node_cells[i as int].0 - cell.0 <= 2 && -2
            <= node_cells[i as int].1 - cell.1 <= 2,
{
    grid::squares_list_what_lies_in_them(
        node_cells,
        Seq::new(node_cells.len(), |i: int| true),
        cell.0 as int,
        cell.1 as int,
        2,
        i,
    );
}

/// The nodes found around a cell are exactly those that lie at most `radius` cells away from it.
pub proof fn nodes_are_found_around(
    map: Map<u64, Vec<u32>>,
    cells: Seq<(i32, i32)>,
    gy: int,
    gx: int,
    radius: int,
    i: u32,
)
    requires
        cells.len() <= u32::MAX,
        radius >= 0,
        grid::lists_members(map, cells, l::all_picked(cells.len()), cells.len() as int),
    ensures
        grid::block_list(
            map,
            gy - radius,
            gx - radius,
            2 * radius + 1,
            2 * radius + 1,
        ).contains(i) <==> i < cells.len() && -radius <= cells[i as int].0 - gy <= radius && -radius
            <= cells[i as int].1 - gx <= radius,
{
    let pick = l::all_picked(cells.len());
    grid::lemma_block(
        map,
        cells,
        pick,
        gy - radius,
        gx - radius,
        2 * radius + 1,
        2 * radius + 1,
    );
    grid::squares_list_what_lies_in_them(cells, pick, gy, gx, radius, i);
}

/// A number is the bit pattern of so many metres: they lie between a power of two and the next, and
/// what is over the lower one is counted in shares of it.
pub open spec fn stands_for(key: int, metres: int, power: int, exponent: int, shares: int) -> bool {
    &&& power <= metres < 2 * power
    &&& (key - exponent * shares) * power == (metres - power) * shares
}

/// Nodes are looked for up to 1000 metres away, footways are preferred up to 500 metres. A walk to
/// the first and from the last stop is at most 1600 metres long unless the request says otherwise,
/// and 1200 metres where a search is drawn.
pub proof fn distances_are_limited()
    ensures
        stands_for(wk::KEY_1000 as int, 1000, 512, 136, 0x80_0000),
        stands_for(w::KEY_500 as int, 500, 256, 1031, 0x10_0000_0000_0000),
        wk::MAX_TRANSFER_WALK == 2000,
        pl::DEFAULT_MAX_WALK == 1600,
        v::DEFAULT_MAX_WALK == 1200,
{
}

} // verus!
