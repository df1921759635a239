//! Walking on the street network: shortest paths for first and last mile, and between stops.
//!
//! Distances on the ground are measured by the caller and handed in as whole metres, or as keys
//! that order like the distances they stand for.

use crate::data::{Stop, WalkGraph, NOT_SET};
use crate::grid;
use crate::heap::MinHeap;
use vstd::multiset::Multiset;
use vstd::prelude::*;

verus! {

// ---------------------------------------------------------------------------
// Shortest paths
// ---------------------------------------------------------------------------

/// Edge `e` leaves node `u`.
pub open spec fn is_edge(g: WalkGraph, u: int, e: int) -> bool {
    &&& 0 <= u < g.nodes@.len()
    &&& g.nodes@[u].edges_offset <= e < g.nodes@[u].edges_offset + g.nodes@[u].num_edges
}

/// `n` edges in a row lead from one node to another over `meters` metres.
pub open spec fn walkable(g: WalkGraph, from: int, to: int, meters: int, n: nat) -> bool
    decreases n,
{
    if n == 0 {
        from == to && meters == 0
    } else {
        exists|u: int, e: int| #[trigger]
            is_edge(g, u, e) && g.edges@[e].to_node_idx == to && walkable(
                g,
                from,
                u,
                meters - g.edges@[e].dist_meters,
                (n - 1) as nat,
            )
    }
}

/// The shortest way from one node to another is `meters` metres long.
pub open spec fn distance_is(g: WalkGraph, from: int, to: int, meters: int) -> bool {
    &&& exists|n: nat| walkable(g, from, to, meters, n)
    &&& forall|m: int, n: nat| #[trigger] walkable(g, from, to, m, n) ==> meters <= m
}

/// No way of at most `limit` metres leads from one node to another.
pub open spec fn out_of_reach(g: WalkGraph, from: int, to: int, limit: int) -> bool {
    forall|m: int, n: nat| #[trigger] walkable(g, from, to, m, n) ==> m > limit
}

/// Distances from one node, with the paths that realise them.
pub struct DijkstraResult {
    /// Metres to each node, `u32::MAX` where out of reach.
    pub dist: Vec<u32>,
    /// The node before each node on its path.
    pub parent: Vec<u32>,
    /// The node that the distances are measured from.
    pub start: u32,
}

spec fn rank_before(dist: Seq<u32>, stamp: Seq<int>, u: int, v: int) -> bool {
    dist[u] < dist[v] || (dist[u] == dist[v] && stamp[u] < stamp[v])
}

/// Edge `e` leads from `u` to `v` and makes `v` no closer than it is recorded.
spec fn leads(g: WalkGraph, dist: Seq<u32>, u: int, v: int, e: int) -> bool {
    &&& is_edge(g, u, e)
    &&& g.edges@[e].to_node_idx == v
    &&& dist[u] + g.edges@[e].dist_meters <= dist[v]
}

spec fn link_ok(
    g: WalkGraph,
    dist: Seq<u32>,
    parent: Seq<u32>,
    stamp: Seq<int>,
    v: int,
) -> bool {
    let u = parent[v] as int;
    &&& u < g.nodes@.len()
    &&& dist[u] != u32::MAX
    &&& rank_before(dist, stamp, u, v)
    &&& exists|e: int| #[trigger] leads(g, dist, u, v, e)
}

spec fn links_ok(
    g: WalkGraph,
    start: int,
    dist: Seq<u32>,
    parent: Seq<u32>,
    stamp: Seq<int>,
) -> bool {
    &&& dist.len() == g.nodes@.len()
    &&& parent.len() == g.nodes@.len()
    &&& stamp.len() == g.nodes@.len()
    &&& 0 <= start < g.nodes@.len()
    &&& dist[start] == 0
    &&& forall|v: int|
        0 <= v < dist.len() && v != start && #[trigger] dist[v] != u32::MAX ==> link_ok(
            g,
            dist,
            parent,
            stamp,
            v,
        )
}

/// No edge of `v` leads to a shorter way than recorded, within `limit`.
spec fn relaxed(g: WalkGraph, dist: Seq<u32>, limit: int, v: int) -> bool {
    forall|e: int| #[trigger] is_edge(g, v, e) ==> edge_relaxed(g, dist, limit, v, e)
}

spec fn edge_relaxed(g: WalkGraph, dist: Seq<u32>, limit: int, v: int, e: int) -> bool {
    let m = dist[v] + g.edges@[e].dist_meters;
    dist[g.edges@[e].to_node_idx as int] <= m || m > limit
}

spec fn heap_ok(heap: Multiset<(u32, u32)>, dist: Seq<u32>) -> bool {
    forall|x: (u32, u32)| #[trigger]
        heap.count(x) > 0 ==> x.1 < dist.len() && dist[x.1 as int] <= x.0 && x.0 != u32::MAX
}

spec fn total(s: Seq<u32>) -> nat
    decreases s.len(),
{
    if s.len() == 0 {
        0
    } else {
        total(s.drop_last()) + s.last() as nat
    }
}

proof fn lemma_total_drops(s: Seq<u32>, i: int, x: u32)
    requires
        0 <= i < s.len(),
        x < s[i],
    ensures
        total(s.update(i, x)) < total(s),
    decreases s.len(),
{
    let t = s.update(i, x);
    if i == s.len() - 1 {
        assert(t.drop_last() =~= s.drop_last());
    } else {
        lemma_total_drops(s.drop_last(), i, x);
        assert(t.drop_last() =~= s.drop_last().update(i, x));
    }
}

/// Every recorded distance is the length of some way.
proof fn lemma_recorded(
    g: WalkGraph,
    start: int,
    dist: Seq<u32>,
    limit: int,
    to: int,
    meters: int,
    n: nat,
)
    requires
        g.wf(),
        dist.len() == g.nodes@.len(),
        0 <= start < dist.len(),
        dist[start] == 0,
        limit < u32::MAX,
        forall|v: int|
            0 <= v < dist.len() && #[trigger] dist[v] != u32::MAX ==> relaxed(g, dist, limit, v),
        walkable(g, start, to, meters, n),
        0 <= to < dist.len(),
        meters <= limit,
    ensures
        dist[to] <= meters,
    decreases n,
{
    if n > 0 {
        let (u, e) = choose|u: int, e: int| #[trigger]
            is_edge(g, u, e) && g.edges@[e].to_node_idx == to && walkable(
                g,
                start,
                u,
                meters - g.edges@[e].dist_meters,
                (n - 1) as nat,
            );
        lemma_recorded(
            g,
            start,
            dist,
            limit,
            u,
            meters - g.edges@[e].dist_meters,
            (n - 1) as nat,
        );
        assert(relaxed(g, dist, limit, u));
        assert(edge_relaxed(g, dist, limit, u, e));
    }
}

proof fn lemma_recording(
    g: WalkGraph,
    start: int,
    dist: Seq<u32>,
    parent: Seq<u32>,
    stamp: Seq<int>,
    v: int,
    bound: nat,
)
    requires
        links_ok(g, start, dist, parent, stamp),
        0 <= v < dist.len(),
        dist[v] != u32::MAX,
        lower_ranks(dist, stamp, v).len() <= bound,
        forall|u: int, w: int, e: int|
            0 <= w < dist.len() && dist[w] != u32::MAX && #[trigger] leads(g, dist, u, w, e)
                && dist[u] != u32::MAX ==> dist[w] == dist[u] + g.edges@[e].dist_meters,
    ensures
        exists|n: nat| walkable(g, start, v, dist[v] as int, n),
    decreases bound,
{
    if v == start {
        assert(walkable(g, start, start, 0, 0));
    } else {
        assert(link_ok(g, dist, parent, stamp, v));
        let u = parent[v] as int;
        let e = choose|e: int| #[trigger] leads(g, dist, u, v, e);
        lemma_lower_ranks(dist, stamp, u, v);
        lemma_recording(g, start, dist, parent, stamp, u, (bound - 1) as nat);
        let n = choose|n: nat| walkable(g, start, u, dist[u] as int, n);
        assert(walkable(g, start, v, dist[v] as int, n + 1)) by {
            assert(is_edge(g, u, e));
        }
    }
}

spec fn lower_ranks(dist: Seq<u32>, stamp: Seq<int>, v: int) -> Set<int> {
    vstd::set_lib::set_int_range(0, dist.len() as int).filter(
        |u: int| rank_before(dist, stamp, u, v),
    )
}

proof fn lemma_lower_ranks_fit(dist: Seq<u32>, stamp: Seq<int>, v: int)
    ensures
        lower_ranks(dist, stamp, v).finite(),
        lower_ranks(dist, stamp, v).len() <= dist.len(),
{
    let all = vstd::set_lib::set_int_range(0, dist.len() as int);
    vstd::set_lib::lemma_int_range(0, dist.len() as int);
    assert(lower_ranks(dist, stamp, v).subset_of(all));
    vstd::set_lib::lemma_len_subset(lower_ranks(dist, stamp, v), all);
}

proof fn lemma_lower_ranks(dist: Seq<u32>, stamp: Seq<int>, u: int, v: int)
    requires
        0 <= u < dist.len(),
        rank_before(dist, stamp, u, v),
    ensures
        lower_ranks(dist, stamp, u).len() < lower_ranks(dist, stamp, v).len(),
{
    let a = lower_ranks(dist, stamp, u);
    let b = lower_ranks(dist, stamp, v);
    lemma_lower_ranks_fit(dist, stamp, u);
    lemma_lower_ranks_fit(dist, stamp, v);
    assert(a.insert(u).subset_of(b)) by {
        assert forall|x: int| a.insert(u).contains(x) implies b.contains(x) by {}
    }
    assert(!a.contains(u));
    vstd::set_lib::lemma_len_subset(a.insert(u), b);
}

/// Recording a shorter way to `to` over edge `e` of `node` keeps the links.
proof fn lemma_relax(
    g: WalkGraph,
    start: int,
    dist: Seq<u32>,
    parent: Seq<u32>,
    stamp: Seq<int>,
    clock: int,
    node: int,
    e: int,
)
    requires
        g.wf(),
        links_ok(g, start, dist, parent, stamp),
        forall|v: int| 0 <= v < stamp.len() ==> #[trigger] stamp[v] < clock,
        is_edge(g, node, e),
        dist[node] + g.edges@[e].dist_meters < dist[g.edges@[e].to_node_idx as int],
    ensures
        ({
            let to = g.edges@[e].to_node_idx as int;
            let x = (dist[node] + g.edges@[e].dist_meters) as u32;
            links_ok(
                g,
                start,
                dist.update(to, x),
                parent.update(to, node as u32),
                stamp.update(to, clock),
            )
        }),
{
    assert(g.node_ok(g.nodes@[node]));
    let to = g.edges@[e].to_node_idx as int;
    let x = (dist[node] + g.edges@[e].dist_meters) as u32;
    let dist1 = dist.update(to, x);
    let parent1 = parent.update(to, node as u32);
    let stamp1 = stamp.update(to, clock);
    assert forall|v: int|
        0 <= v < dist1.len() && v != start && #[trigger] dist1[v] != u32::MAX implies link_ok(
        g,
        dist1,
        parent1,
        stamp1,
        v,
    ) by {
        if v == to {
            assert(parent1[v] == node);
            assert(dist1[node] == dist[node]);
            assert(leads(g, dist1, node, to, e));
            assert(stamp[node] < clock);
            assert(stamp1[node] == stamp[node]);
        } else {
            assert(dist[v] != u32::MAX);
            assert(link_ok(g, dist, parent, stamp, v));
            let u = parent[v] as int;
            let k = choose|k: int| #[trigger] leads(g, dist, u, v, k);
            assert(dist1[u] <= dist[u]);
            assert(parent1[v] == u);
            assert(leads(g, dist1, u, v, k));
        }
    }
}

/// `dist` holds the distance of every node within `max_dist` metres of `start`, and `u32::MAX` for
/// every other node.
pub open spec fn distances_from(
    g: WalkGraph,
    start: int,
    max_dist: u32,
    dist: Seq<u32>,
) -> bool {
    &&& dist.len() == g.nodes@.len()
    &&& forall|v: int|
        0 <= v < dist.len() ==> {
            let m = #[trigger] dist[v];
            if m == u32::MAX {
                out_of_reach(g, start, v, reach_limit(max_dist))
            } else {
                m <= max_dist && distance_is(g, start, v, m as int)
            }
        }
}

/// Shortest ways from `start` to every node within `max_dist` metres.
pub fn dijkstra(graph: &WalkGraph, start: u32, max_dist: u32) -> (r: DijkstraResult)
    requires
        graph.wf(),
        start < graph.nodes@.len(),
    ensures
        r.wf(*graph),
        r.start == start,
        distances_from(*graph, start as int, max_dist, r.dist@),
{
    let n: usize = graph.nodes.len();
    let mut dist: Vec<u32> = vec![u32::MAX; n];
    let mut parent: Vec<u32> = vec![u32::MAX; n];
    let mut heap = MinHeap::new();
    dist[start as usize] = 0;
    heap.push((0, start));
    let ghost mut stamp: Seq<int> = Seq::new(n as nat, |i: int| 0int);
    let ghost mut clock: int = 1;
    let ghost limit = reach_limit(max_dist);
    let ghost g = *graph;
    assert(heap@.count((0u32, start)) > 0);
    loop
        invariant
            graph.wf(),
            g == *graph,
            limit == reach_limit(max_dist),
            n == graph.nodes@.len(),
            start < n,
            links_ok(g, start as int, dist@, parent@, stamp),
            forall|v: int| 0 <= v < stamp.len() ==> #[trigger] stamp[v] < clock,
            heap_ok(heap@, dist@),
            forall|v: int|
                0 <= v < n && #[trigger] dist@[v] != u32::MAX ==> dist@[v] <= max_dist && (
                heap@.count((dist@[v], v as u32)) > 0 || relaxed(g, dist@, limit, v)),
        ensures
            heap@.len() == 0,
        decreases total(dist@), heap@.len(),
    {
        let ghost heap0 = heap@;
        let (d, node): (u32, u32) = match heap.pop() {
            None => {
                break;
            },
            Some(x) => x,
        };
        assert(heap0.count((d, node)) > 0);
        if d > dist[node as usize] {
            assert forall|v: int| 0 <= v < n && #[trigger] dist@[v] != u32::MAX implies dist@[v]
                <= max_dist && (heap@.count((dist@[v], v as u32)) > 0 || relaxed(
                g,
                dist@,
                limit,
                v,
            )) by {
                assert((dist@[v], v as u32) != (d, node));
            }
            continue;
        }
        let wn = graph.nodes[node as usize];
        assert(graph.node_ok(graph.nodes@[node as int]));
        assert(graph.edges.len() == graph.edges@.len());
        let edges_start: usize = wn.edges_offset as usize;
        let edges_end: usize = edges_start + wn.num_edges as usize;
        let ghost total0 = total(dist@);
        let ghost len0 = heap@.len();
        let mut j: usize = edges_start;
        while j < edges_end
            invariant
                graph.wf(),
                g == *graph,
                limit == reach_limit(max_dist),
                n == graph.nodes@.len(),
                start < n,
                node < n,
                edges_start <= j <= edges_end <= graph.edges@.len(),
                edges_start == graph.nodes@[node as int].edges_offset,
                edges_end == edges_start + graph.nodes@[node as int].num_edges,
                links_ok(g, start as int, dist@, parent@, stamp),
                forall|v: int| 0 <= v < stamp.len() ==> #[trigger] stamp[v] < clock,
                heap_ok(heap@, dist@),
                dist@[node as int] == d,
                d != u32::MAX,
                d <= max_dist,
                forall|v: int|
                    0 <= v < n && v != node && #[trigger] dist@[v] != u32::MAX ==> dist@[v]
                        <= max_dist && (heap@.count((dist@[v], v as u32)) > 0 || relaxed(
                        g,
                        dist@,
                        limit,
                        v,
                    )),
                forall|e: int|
                    edges_start <= e < j ==> #[trigger] edge_relaxed(
                        g,
                        dist@,
                        limit,
                        node as int,
                        e,
                    ),
                total(dist@) < total0 || (total(dist@) == total0 && heap@.len() == len0),
            decreases edges_end - j,
        {
            let e = graph.edges[j];
            let to: usize = e.to_node_idx as usize;
            let new_dist: u64 = d as u64 + e.dist_meters as u64;
            assert(is_edge(g, node as int, j as int));
            assert(e.to_node_idx < n);
            if new_dist < dist[to] as u64 && new_dist <= max_dist as u64 {
                let ghost dist0 = dist@;
                proof {
                    lemma_relax(
                        g,
                        start as int,
                        dist@,
                        parent@,
                        stamp,
                        clock,
                        node as int,
                        j as int,
                    );
                    lemma_total_drops(dist@, to as int, new_dist as u32);
                    stamp = stamp.update(to as int, clock);
                    clock = clock + 1;
                }
                dist[to] = new_dist as u32;
                parent[to] = node;
                let ghost heap1 = heap@;
                heap.push((new_dist as u32, e.to_node_idx));
                proof {
                    assert(dist@ =~= dist0.update(to as int, new_dist as u32));
                    assert forall|x: (u32, u32)| #[trigger] heap@.count(x) > 0 implies x.1
                        < dist@.len() && dist@[x.1 as int] <= x.0 && x.0 != u32::MAX by {
                        if x != (new_dist as u32, e.to_node_idx) {
                            assert(heap1.count(x) > 0);
                        }
                    }
                    assert forall|v: int|
                        0 <= v < n && v != node && #[trigger] dist@[v]
                            != u32::MAX implies dist@[v] <= max_dist && (heap@.count(
                        (dist@[v], v as u32),
                    ) > 0 || relaxed(g, dist@, limit, v)) by {
                        if v != to {
                            assert(dist0[v] != u32::MAX);
                            if heap1.count((dist0[v], v as u32)) == 0 {
                                assert forall|k: int| #[trigger]
                                    is_edge(g, v, k) implies edge_relaxed(
                                    g,
                                    dist@,
                                    limit,
                                    v,
                                    k,
                                ) by {
                                    assert(graph.node_ok(graph.nodes@[v]));
                                    assert(edge_relaxed(g, dist0, limit, v, k));
                                    assert(g.edges@[k].to_node_idx < n);
                                }
                            } else {
                                assert(heap@.count((dist@[v], v as u32)) > 0);
                            }
                        } else {
                            assert(heap@.count((new_dist as u32, e.to_node_idx)) > 0);
                        }
                    }
                    assert forall|k: int|
                        edges_start <= k < j implies #[trigger] edge_relaxed(
                        g,
                        dist@,
                        limit,
                        node as int,
                        k,
                    ) by {
                        assert(edge_relaxed(g, dist0, limit, node as int, k));
                        assert(g.edges@[k].to_node_idx < n);
                    }
                }
            }
            assert(edge_relaxed(g, dist@, limit, node as int, j as int));
            j += 1;
        }
        proof {
            assert forall|e: int| #[trigger] is_edge(g, node as int, e) implies edge_relaxed(
                g,
                dist@,
                limit,
                node as int,
                e,
            ) by {}
            assert(relaxed(g, dist@, limit, node as int));
        }
    }
    let r = DijkstraResult { dist, parent, start };
    proof {
        assert(heap@.len() == 0);
        assert forall|v: int| 0 <= v < n && #[trigger] dist@[v] != u32::MAX implies relaxed(
            g,
            dist@,
            limit,
            v,
        ) by {
            assert(heap@.count((dist@[v], v as u32)) <= heap@.len());
        }
        lemma_result(g, start as int, dist@, parent@, stamp, max_dist);
        assert(links_ok(g, r.start as int, r.dist@, r.parent@, stamp));
    }
    r
}

/// A distance recorded as `u32::MAX` counts as out of reach.
pub open spec fn reach_limit(max_dist: u32) -> int {
    if max_dist == u32::MAX {
        u32::MAX - 1
    } else {
        max_dist as int
    }
}

proof fn lemma_result(
    g: WalkGraph,
    start: int,
    dist: Seq<u32>,
    parent: Seq<u32>,
    stamp: Seq<int>,
    max_dist: u32,
)
    requires
        g.wf(),
        links_ok(g, start, dist, parent, stamp),
        forall|v: int|
            0 <= v < dist.len() && #[trigger] dist[v] != u32::MAX ==> dist[v] <= max_dist
                && relaxed(g, dist, reach_limit(max_dist), v),
    ensures
        forall|u: int, w: int, e: int|
            0 <= w < dist.len() && dist[w] != u32::MAX && #[trigger] leads(g, dist, u, w, e)
                && dist[u] != u32::MAX ==> dist[w] == dist[u] + g.edges@[e].dist_meters,
        forall|v: int|
            0 <= v < dist.len() ==> {
                let m = #[trigger] dist[v];
                if m == u32::MAX {
                    out_of_reach(g, start, v, reach_limit(max_dist))
                } else {
                    distance_is(g, start, v, m as int)
                }
            },
{
    let limit = reach_limit(max_dist);
    assert forall|u: int, w: int, e: int|
        0 <= w < dist.len() && dist[w] != u32::MAX && #[trigger] leads(g, dist, u, w, e)
            && dist[u] != u32::MAX implies dist[w] == dist[u] + g.edges@[e].dist_meters by {
        assert(relaxed(g, dist, limit, u));
        assert(edge_relaxed(g, dist, limit, u, e));
    }
    assert forall|v: int| 0 <= v < dist.len() implies {
        let m = #[trigger] dist[v];
        if m == u32::MAX {
            out_of_reach(g, start, v, limit)
        } else {
            distance_is(g, start, v, m as int)
        }
    } by {
        assert forall|m: int, n: nat| #[trigger]
            walkable(g, start, v, m, n) && m <= limit implies dist[v] <= m by {
            lemma_recorded(g, start, dist, limit, v, m, n);
        }
        if dist[v] != u32::MAX {
            lemma_lower_ranks_fit(dist, stamp, v);
            lemma_recording(g, start, dist, parent, stamp, v, dist.len());
        }
    }
}

// ---------------------------------------------------------------------------
// Paths
// ---------------------------------------------------------------------------

/// Some edge leads from `u` to `v`, and the way to `v` through it is a shortest one.
pub open spec fn shortest_step(g: WalkGraph, dist: Seq<u32>, u: int, v: int) -> bool {
    exists|e: int| #[trigger]
        is_edge(g, u, e) && g.edges@[e].to_node_idx == v && dist[u] + g.edges@[e].dist_meters
            == dist[v]
}

/// The nodes of a shortest way, none of them twice.
pub open spec fn shortest_route(
    g: WalkGraph,
    dist: Seq<u32>,
    from: int,
    to: int,
    route: Seq<u32>,
) -> bool {
    &&& route.len() > 0
    &&& route[0] == from
    &&& route.last() == to
    &&& dist[from] == 0
    &&& route.no_duplicates()
    &&& forall|i: int| 0 <= i < route.len() ==> #[trigger] route[i] < g.nodes@.len()
    &&& forall|i: int, j: int|
        0 <= i && j == i + 1 && j < route.len() ==> shortest_step(
            g,
            dist,
            #[trigger] route[i] as int,
            #[trigger] route[j] as int,
        )
}

/// A shortest route covers, up to each of its nodes, the distance of that node.
pub proof fn route_covers_distance(
    g: WalkGraph,
    dist: Seq<u32>,
    from: int,
    to: int,
    route: Seq<u32>,
    i: nat,
)
    requires
        shortest_route(g, dist, from, to, route),
        i < route.len(),
    ensures
        walkable(g, from, route[i as int] as int, dist[route[i as int] as int] as int, i),
    decreases i,
{
    if i > 0 {
        route_covers_distance(g, dist, from, to, route, (i - 1) as nat);
        let u = route[i - 1] as int;
        let v = route[i as int] as int;
        assert(shortest_step(g, dist, u, v));
        let e = choose|e: int| #[trigger]
            is_edge(g, u, e) && g.edges@[e].to_node_idx == v && dist[u] + g.edges@[e].dist_meters
                == dist[v];
        assert(is_edge(g, u, e));
    }
}

/// The shortest route from a node to itself is that node alone.
pub proof fn nobody_walks_in_circles(g: WalkGraph, dist: Seq<u32>, from: int, route: Seq<u32>)
    requires
        shortest_route(g, dist, from, from, route),
    ensures
        route.len() == 1,
        coords_along(g, dist, route) == seq![node_coord(g, from)],
{
    if route.len() > 1 {
        assert(route[0] == route[route.len() - 1]);
    }
}

/// First edge on a shortest way from `u` to `v`, from edge `e` on, that has intermediate points.
pub open spec fn detailed_edge(g: WalkGraph, dist: Seq<u32>, u: int, v: u32, e: int) -> Option<int>
    decreases g.nodes@[u].edges_offset + g.nodes@[u].num_edges - e,
{
    if e >= g.nodes@[u].edges_offset + g.nodes@[u].num_edges {
        None
    } else if g.edges@[e].to_node_idx == v && dist[u] + g.edges@[e].dist_meters == dist[v as int]
        && g.edges@[e].geometry_len > 0 {
        Some(e)
    } else {
        detailed_edge(g, dist, u, v, e + 1)
    }
}

/// Intermediate points of the first edge on a shortest way from `u` to `v` that has any.
pub open spec fn points_between(g: WalkGraph, dist: Seq<u32>, u: int, v: u32) -> Seq<(u64, u64)> {
    match detailed_edge(g, dist, u, v, g.nodes@[u].edges_offset as int) {
        Some(e) => {
            let start = g.edges@[e].geometry_offset as int;
            let end = start + g.edges@[e].geometry_len;
            if end <= g.geometry@.len() {
                g.geometry@.subrange(start, end)
            } else {
                Seq::empty()
            }
        },
        None => Seq::empty(),
    }
}

pub open spec fn node_coord(g: WalkGraph, u: int) -> (u64, u64) {
    (g.nodes@[u].lat, g.nodes@[u].lon)
}

/// Coordinates along a route, with the intermediate points of its edges.
pub open spec fn coords_along(g: WalkGraph, dist: Seq<u32>, route: Seq<u32>) -> Seq<(u64, u64)>
    decreases route.len(),
{
    if route.len() == 0 {
        Seq::empty()
    } else if route.len() == 1 {
        seq![node_coord(g, route[0] as int)]
    } else {
        coords_along(g, dist, route.drop_last()) + points_between(
            g,
            dist,
            route[route.len() - 2] as int,
            route.last(),
        ) + seq![node_coord(g, route.last() as int)]
    }
}

/// `path` runs along a shortest way between two nodes, by the given distances.
pub open spec fn is_path(
    g: WalkGraph,
    dist: Seq<u32>,
    from: int,
    to: int,
    path: Seq<(u64, u64)>,
) -> bool {
    exists|route: Seq<u32>| #[trigger]
        shortest_route(g, dist, from, to, route) && path == coords_along(g, dist, route)
}

impl DijkstraResult {
    /// Distances and paths fit the network.
    pub closed spec fn wf(self, g: WalkGraph) -> bool {
        &&& exists|stamp: Seq<int>| #[trigger]
            links_ok(g, self.start as int, self.dist@, self.parent@, stamp)
        &&& forall|u: int, w: int, e: int|
            0 <= w < self.dist@.len() && self.dist@[w] != u32::MAX && #[trigger] leads(
                g,
                self.dist@,
                u,
                w,
                e,
            ) && self.dist@[u] != u32::MAX ==> self.dist@[w] == self.dist@[u]
                + g.edges@[e].dist_meters
        &&& self.dist@.len() == g.nodes@.len()
    }

    /// Metres to a node, or `None` if out of reach.
    pub fn get(&self, node: u32) -> (r: Option<u32>)
        requires
            node < self.dist@.len(),
        ensures
            r is None <==> self.dist@[node as int] == u32::MAX,
            r matches Some(m) ==> m == self.dist@[node as int],
    {
        let m: u32 = self.dist[node as usize];
        if m == u32::MAX {
            None
        } else {
            Some(m)
        }
    }

    /// Nodes from `target` back to the start.
    fn nodes_back(&self, graph: &WalkGraph, target: u32) -> (r: Vec<u32>)
        requires
            self.wf(*graph),
            target < graph.nodes@.len(),
            self.dist@[target as int] != u32::MAX,
        ensures
            shortest_route(
                *graph,
                self.dist@,
                self.start as int,
                target as int,
                r@.reverse(),
            ),
    {
        let ghost g = *graph;
        let ghost stamp = choose|stamp: Seq<int>| #[trigger]
            links_ok(g, self.start as int, self.dist@, self.parent@, stamp);
        let mut back: Vec<u32> = Vec::new();
        back.push(target);
        let mut cur: u32 = target;
        while cur != self.start
            invariant
                self.wf(*graph),
                g == *graph,
                links_ok(g, self.start as int, self.dist@, self.parent@, stamp),
                back@.len() > 0,
                back@[0] == target,
                back@.last() == cur,
                cur < graph.nodes@.len(),
                self.dist@[cur as int] != u32::MAX,
                forall|i: int| 0 <= i < back@.len() ==> #[trigger] back@[i] < graph.nodes@.len(),
                forall|i: int, j: int|
                    0 <= i && j == i + 1 && j < back@.len() ==> shortest_step(
                        g,
                        self.dist@,
                        #[trigger] back@[j] as int,
                        #[trigger] back@[i] as int,
                    ),
                forall|i: int|
                    0 <= i < back@.len() - 1 ==> lower_ranks(
                        self.dist@,
                        stamp,
                        #[trigger] back@[i] as int,
                    ).len() > lower_ranks(self.dist@, stamp, cur as int).len(),
                back@.no_duplicates(),
            decreases lower_ranks(self.dist@, stamp, cur as int).len(),
        {
            proof {
                assert(self.dist@[cur as int] != u32::MAX);
                assert(link_ok(g, self.dist@, self.parent@, stamp, cur as int));
                let u = self.parent@[cur as int] as int;
                lemma_lower_ranks(self.dist@, stamp, u, cur as int);
                let e = choose|e: int| #[trigger] leads(g, self.dist@, u, cur as int, e);
                assert(is_edge(g, u, e));
                assert(shortest_step(g, self.dist@, u, cur as int));
            }
            let ghost before = back@;
            cur = self.parent[cur as usize];
            back.push(cur);
            proof {
                assert forall|i: int, j: int|
                    0 <= i < back@.len() && 0 <= j < back@.len() && i != j implies back@[i]
                    != back@[j] by {
                    if i < before.len() && j < before.len() {
                        assert(before[i] != before[j]);
                    }
                }
            }
        }
        proof {
            let route = back@.reverse();
            assert(route.no_duplicates()) by {
                assert forall|i: int, j: int|
                    0 <= i < route.len() && 0 <= j < route.len() && i != j implies route[i]
                    != route[j] by {
                    assert(back@[back@.len() - 1 - i] != back@[back@.len() - 1 - j]);
                }
            }
            assert forall|i: int, j: int|
                0 <= i && j == i + 1 && j < route.len() implies shortest_step(
                g,
                self.dist@,
                #[trigger] route[i] as int,
                #[trigger] route[j] as int,
            ) by {
                assert(route[i] == back@[back@.len() - 1 - i]);
                assert(route[j] == back@[back@.len() - 1 - j]);
            }
        }
        back
    }

    /// Coordinates of the path from the start to `target`, with the intermediate points of its
    /// edges; none if out of reach.
    pub fn path_coords(&self, graph: &WalkGraph, target: u32) -> (r: Vec<(u64, u64)>)
        requires
            graph.wf(),
            self.wf(*graph),
            target < graph.nodes@.len(),
        ensures
            self.dist@[target as int] == u32::MAX ==> r@.len() == 0,
            self.dist@[target as int] != u32::MAX ==> is_path(
                *graph,
                self.dist@,
                self.start as int,
                target as int,
                r@,
            ),
    {
        let mut path: Vec<(u64, u64)> = Vec::new();
        if self.dist[target as usize] == u32::MAX {
            return path;
        }
        let back = self.nodes_back(graph, target);
        let ghost route = back@.reverse();
        let n: usize = back.len();
        let mut i: usize = 0;
        while i < n
            invariant
                graph.wf(),
                i <= n,
                n == back@.len(),
                route == back@.reverse(),
                forall|k: int| 0 <= k < route.len() ==> #[trigger] route[k] < graph.nodes@.len(),
                self.dist@.len() == graph.nodes@.len(),
                path@ == coords_along(*graph, self.dist@, route.take(i as int)),
            decreases n - i,
        {
            let cur: u32 = back[n - 1 - i];
            assert(cur == route[i as int]);
            proof {
                assert(route.take(i as int + 1).drop_last() =~= route.take(i as int));
                assert(route.take(i as int + 1).last() == cur);
            }
            if i > 0 {
                let prev: u32 = back[n - i];
                assert(prev == route[i as int - 1]);
                append_points(graph, &self.dist, prev, cur, &mut path);
            }
            let node = graph.nodes[cur as usize];
            path.push((node.lat, node.lon));
            proof {
                assert(path@ =~= coords_along(*graph, self.dist@, route.take(i as int + 1)));
            }
            i += 1;
        }
        proof {
            assert(route.take(n as int) =~= route);
        }
        path
    }
}

/// Appends the intermediate points between two nodes.
fn append_points(graph: &WalkGraph, dist: &Vec<u32>, u: u32, v: u32, path: &mut Vec<(u64, u64)>)
    requires
        graph.wf(),
        u < dist@.len(),
        v < dist@.len(),
        dist@.len() == graph.nodes@.len(),
    ensures
        final(path)@ == old(path)@ + points_between(*graph, dist@, u as int, v),
{
    let node = graph.nodes[u as usize];
    assert(graph.node_ok(graph.nodes@[u as int]));
    assert(graph.edges.len() == graph.edges@.len());
    let end: usize = node.edges_offset as usize + node.num_edges as usize;
    let mut j: usize = node.edges_offset as usize;
    while j < end
        invariant
            u < dist@.len(),
            v < dist@.len(),
            dist@.len() == graph.nodes@.len(),
            j <= end <= graph.edges@.len(),
            end == graph.nodes@[u as int].edges_offset + graph.nodes@[u as int].num_edges,
            path@ == old(path)@,
            detailed_edge(
                *graph,
                dist@,
                u as int,
                v,
                graph.nodes@[u as int].edges_offset as int,
            ) == detailed_edge(*graph, dist@, u as int, v, j as int),
        decreases end - j,
    {
        let e = graph.edges[j];
        let shortest: bool = dist[u as usize] as u64 + e.dist_meters as u64 == dist[v as usize] as u64;
        if e.to_node_idx == v && shortest && e.geometry_len > 0 {
            let from: u64 = e.geometry_offset as u64;
            let to: u64 = from + e.geometry_len as u64;
            assert(graph.geometry.len() == graph.geometry@.len());
            if to <= graph.geometry.len() as u64 {
                let ghost whole = points_between(*graph, dist@, u as int, v);
                let mut k: u64 = from;
                while k < to
                    invariant
                        from <= k <= to <= graph.geometry@.len(),
                        graph.geometry.len() == graph.geometry@.len(),
                        path@ == old(path)@ + graph.geometry@.subrange(from as int, k as int),
                    decreases to - k,
                {
                    path.push(graph.geometry[k as usize]);
                    proof {
                        assert(graph.geometry@.subrange(from as int, k as int + 1)
                            =~= graph.geometry@.subrange(from as int, k as int).push(
                            graph.geometry@[k as int],
                        ));
                    }
                    k += 1;
                }
            }
            assert(path@ =~= old(path)@ + points_between(*graph, dist@, u as int, v));
            return ;
        }
        j += 1;
    }
    assert(path@ =~= old(path)@ + points_between(*graph, dist@, u as int, v));
}

// ---------------------------------------------------------------------------
// The node nearest to a coordinate
// ---------------------------------------------------------------------------

/// Nodes of the cells at most `radius` cells away from row `gy` and column `gx`, row by row.
pub fn nodes_around(graph: &WalkGraph, gy: i32, gx: i32, radius: u8) -> (r: Vec<u32>)
    ensures
        r@ == grid::block_list(
            graph.node_grid@,
            gy - radius,
            gx - radius,
            2 * radius + 1,
            2 * radius + 1,
        ),
{
    grid::around(&graph.node_grid, gy, gx, radius)
}

/// Key of 1000 metres. Keys are the bit patterns of single-precision metres, which order as the
/// distances do.
pub const KEY_1000: u32 = 0x447a_0000;

/// The node nearest to a coordinate, given the key of the distance of every node of the network. The
/// first of several equally near ones; None if all are over 1000 metres away.
pub fn nearest_node(graph: &WalkGraph, keys: &Vec<u32>) -> (r: Option<u32>)
    requires
        keys@.len() == graph.nodes@.len(),
        graph.nodes@.len() <= u32::MAX,
    ensures
        match r {
            Some(i) => {
                &&& i < graph.nodes@.len()
                &&& keys@[i as int] <= KEY_1000
                &&& forall|k: int|
                    0 <= k < graph.nodes@.len() ==> keys@[i as int] <= #[trigger] keys@[k]
                &&& forall|k: int| 0 <= k < i ==> keys@[i as int] < #[trigger] keys@[k]
            },
            None => forall|k: int| 0 <= k < graph.nodes@.len() ==> #[trigger] keys@[k] > KEY_1000,
        },
{
    if keys.len() == 0 {
        return None;
    }
    let mut best: usize = 0;
    let mut i: usize = 1;
    while i < keys.len()
        invariant
            best < i <= keys@.len(),
            forall|k: int| 0 <= k < i ==> keys@[best as int] <= #[trigger] keys@[k],
            forall|k: int| 0 <= k < best ==> keys@[best as int] < #[trigger] keys@[k],
        decreases keys@.len() - i,
    {
        if keys[i] < keys[best] {
            best = i;
        }
        i += 1;
    }
    if keys[best] > KEY_1000 {
        None
    } else {
        Some(best as u32)
    }
}

// ---------------------------------------------------------------------------
// Stops within walking distance
// ---------------------------------------------------------------------------

/// Stops within walking distance of a coordinate, with the paths to them.
pub struct WalkReach {
    /// Stop, walking time in seconds, distance in metres.
    pub stops: Vec<(u32, u32, u32)>,
    /// Present if the street network was used.
    pub dijk: Option<DijkstraResult>,
    /// The node nearest to the coordinate.
    pub start_node: Option<u32>,
}

/// Stops within walking distance before walking times are known: stop and metres.
pub struct Reachable {
    pub stops: Vec<(u32, u32)>,
    pub dijk: Option<DijkstraResult>,
    pub start_node: Option<u32>,
}

/// Every stop that is linked to a node is linked to an existing one.
pub open spec fn stops_linked(stops: Seq<Stop>, g: WalkGraph) -> bool {
    forall|i: int|
        0 <= i < stops.len() ==> (#[trigger] stops[i]).walk_node_idx == NOT_SET
            || stops[i].walk_node_idx < g.nodes@.len()
}

/// Metres to a stop: over the network if the coordinate and the stop are linked to it, else
/// straight. None for what is not a stop to board at, or is not within `max_walk`.
pub open spec fn metres_to(
    stop: Stop,
    straight: u32,
    network: Option<(Seq<u32>, u32)>,
    max_walk: u32,
) -> Option<u32> {
    if stop.location_type != 0 {
        None
    } else if network is None || stop.walk_node_idx == NOT_SET {
        if straight <= max_walk {
            Some(straight)
        } else {
            None
        }
    } else {
        let (dist, extra) = network->0;
        let m = dist[stop.walk_node_idx as int];
        if m != u32::MAX && m + extra <= max_walk {
            Some((m + extra) as u32)
        } else {
            None
        }
    }
}

/// The first `n` stops that are within reach, in order.
pub open spec fn stops_within(
    stops: Seq<Stop>,
    straight: Seq<u32>,
    network: Option<(Seq<u32>, u32)>,
    max_walk: u32,
    n: int,
) -> Seq<(u32, u32)>
    decreases n,
{
    if n <= 0 {
        Seq::empty()
    } else {
        let front = stops_within(stops, straight, network, max_walk, n - 1);
        match metres_to(stops[n - 1], straight[n - 1], network, max_walk) {
            Some(m) => front.push(((n - 1) as u32, m)),
            None => front,
        }
    }
}

/// Every stop found is one to board at, exists, and is within the walking limit, with the metres
/// that are to be walked.
pub proof fn reach_is_limited(
    stops: Seq<Stop>,
    straight: Seq<u32>,
    network: Option<(Seq<u32>, u32)>,
    max_walk: u32,
    n: int,
    k: int,
)
    requires
        0 <= n <= stops.len() <= u32::MAX,
        0 <= k < stops_within(stops, straight, network, max_walk, n).len(),
    ensures
        ({
            let x = stops_within(stops, straight, network, max_walk, n)[k];
            &&& x.0 < n
            &&& x.1 <= max_walk
            &&& stops[x.0 as int].location_type == 0
            &&& metres_to(stops[x.0 as int], straight[x.0 as int], network, max_walk) == Some(x.1)
        }),
    decreases n,
{
    if n > 0 {
        let front = stops_within(stops, straight, network, max_walk, n - 1);
        if k < front.len() {
            reach_is_limited(stops, straight, network, max_walk, n - 1, k);
            assert(stops_within(stops, straight, network, max_walk, n)[k] == front[k]);
        }
    }
}

proof fn lemma_listed_once(
    stops: Seq<Stop>,
    straight: Seq<u32>,
    network: Option<(Seq<u32>, u32)>,
    max_walk: u32,
    n: int,
    i: u32,
    m: u32,
)
    requires
        0 <= n <= stops.len() <= u32::MAX,
    ensures
        stops_within(stops, straight, network, max_walk, n).contains((i, m)) <==> i < n
            && metres_to(stops[i as int], straight[i as int], network, max_walk) == Some(m),
    decreases n,
{
    let all = stops_within(stops, straight, network, max_walk, n);
    if n > 0 {
        let front = stops_within(stops, straight, network, max_walk, n - 1);
        lemma_listed_once(stops, straight, network, max_walk, n - 1, i, m);
        if front.contains((i, m)) {
            let p = choose|p: int| 0 <= p < front.len() && front[p] == (i, m);
            assert(all[p] == (i, m));
        }
        if all.contains((i, m)) {
            let p = choose|p: int| 0 <= p < all.len() && all[p] == (i, m);
            if p < front.len() {
                assert(front[p] == (i, m));
            }
        }
        if i == n - 1 && metres_to(stops[n - 1], straight[n - 1], network, max_walk) == Some(m) {
            assert(all[front.len() as int] == (i, m));
        }
    }
}

/// Where the coordinate is `extra` metres from node `node` of the network, a stop to board at that
/// is linked to the network is listed if and only if some way along streets leads from that node to
/// the stop's, and the shortest one and the `extra` metres together are within the limit. What is
/// listed is that sum. The straight distance has no part in it.
pub proof fn linked_stops_are_reached_along_streets(
    g: WalkGraph,
    stops: Seq<Stop>,
    straight: Seq<u32>,
    node: u32,
    extra: u32,
    dist: Seq<u32>,
    max_walk: u32,
    i: u32,
    m: u32,
)
    requires
        stops.len() <= u32::MAX,
        straight.len() == stops.len(),
        distances_from(g, node as int, max_walk, dist),
        max_walk < u32::MAX,
        i < stops.len(),
        stops[i as int].location_type == 0,
        stops[i as int].walk_node_idx != NOT_SET,
        stops[i as int].walk_node_idx < g.nodes@.len(),
    ensures
        stops_within(
            stops,
            straight,
            Some((dist, extra)),
            max_walk,
            stops.len() as int,
        ).contains((i, m)) <==> {
            let v = stops[i as int].walk_node_idx as int;
            &&& m <= max_walk
            &&& exists|n: nat| #[trigger] walkable(g, node as int, v, m - extra, n)
            &&& forall|d: int, n: nat| #[trigger] walkable(g, node as int, v, d, n) ==> m - extra <= d
        },
{
    let v = stops[i as int].walk_node_idx as int;
    let d = dist[v];
    lemma_listed_once(
        stops,
        straight,
        Some((dist, extra)),
        max_walk,
        stops.len() as int,
        i,
        m,
    );
    if d != u32::MAX {
        assert(distance_is(g, node as int, v, d as int));
        let n = choose|n: nat| walkable(g, node as int, v, d as int, n);
        assert(walkable(g, node as int, v, d as int, n));
    } else {
        assert(out_of_reach(g, node as int, v, max_walk as int));
    }
}

/// A stop that is not linked to the network, or any stop if the coordinate is not, is listed if and
/// only if it is one to board at and its straight distance is within the limit, and with that
/// distance.
pub proof fn other_stops_are_reached_straight(
    stops: Seq<Stop>,
    straight: Seq<u32>,
    network: Option<(Seq<u32>, u32)>,
    max_walk: u32,
    i: u32,
    m: u32,
)
    requires
        stops.len() <= u32::MAX,
        straight.len() == stops.len(),
        i < stops.len(),
        network is None || stops[i as int].walk_node_idx == NOT_SET,
    ensures
        stops_within(stops, straight, network, max_walk, stops.len() as int).contains((i, m))
            <==> stops[i as int].location_type == 0 && m == straight[i as int] && m <= max_walk,
{
    lemma_listed_once(stops, straight, network, max_walk, stops.len() as int, i, m);
}

/// The stops are listed in their order, each once, and only those to board at.
pub proof fn reached_stops_are_in_order(
    stops: Seq<Stop>,
    straight: Seq<u32>,
    network: Option<(Seq<u32>, u32)>,
    max_walk: u32,
    n: int,
)
    requires
        0 <= n <= stops.len() <= u32::MAX,
    ensures
        ({
            let found = stops_within(stops, straight, network, max_walk, n);
            &&& forall|a: int, b: int|
                0 <= a < b < found.len() ==> (#[trigger] found[a]).0 < (#[trigger] found[b]).0
            &&& forall|a: int|
                0 <= a < found.len() ==> (#[trigger] found[a]).0 < n && stops[found[a].0 as int].location_type
                    == 0
        }),
    decreases n,
{
    if n > 0 {
        reached_stops_are_in_order(stops, straight, network, max_walk, n - 1);
        let front = stops_within(stops, straight, network, max_walk, n - 1);
        let found = stops_within(stops, straight, network, max_walk, n);
        assert forall|a: int| 0 <= a < found.len() implies (#[trigger] found[a]).0 < n
            && stops[found[a].0 as int].location_type == 0 by {
            if a < front.len() {
                assert(found[a] == front[a]);
            }
        }
    }
}

/// Distances over the network, with the metres to reach it.
spec fn network_of(dijk: Option<DijkstraResult>, extra: u32) -> Option<(Seq<u32>, u32)> {
    match dijk {
        Some(x) => Some((x.dist@, extra)),
        None => None,
    }
}

/// Finds the stops within `max_walk` metres of a coordinate. `straight` holds the straight
/// distance to each stop, `start` the node nearest to the coordinate and the metres to it.
pub fn reachable_stops_from_coord(
    graph: &WalkGraph,
    stops: &Vec<Stop>,
    straight: &Vec<u32>,
    start: Option<(u32, u32)>,
    max_walk: u32,
) -> (r: Reachable)
    requires
        straight@.len() == stops@.len(),
        stops@.len() <= u32::MAX,
        start matches Some((node, extra)) ==> graph.wf() && node < graph.nodes@.len()
            && stops_linked(stops@, *graph),
    ensures
        start is None ==> {
            &&& r.dijk is None
            &&& r.start_node is None
            &&& r.stops@ == stops_within(
                stops@,
                straight@,
                None,
                max_walk,
                stops@.len() as int,
            )
        },
        start matches Some((node, extra)) ==> {
            &&& r.dijk is Some
            &&& r.dijk->0.wf(*graph)
            &&& r.dijk->0.start == node
            &&& distances_from(*graph, node as int, max_walk, r.dijk->0.dist@)
            &&& r.start_node == Some(node)
            &&& r.stops@ == stops_within(
                stops@,
                straight@,
                Some((r.dijk->0.dist@, extra)),
                max_walk,
                stops@.len() as int,
            )
        },
{
    let (dijk, extra, start_node): (Option<DijkstraResult>, u32, Option<u32>) = match start {
        Some((node, extra)) => (Some(dijkstra(graph, node, max_walk)), extra, Some(node)),
        None => (None, 0u32, None),
    };
    let ghost network = network_of(dijk, extra);
    let mut found: Vec<(u32, u32)> = Vec::new();
    let mut i: usize = 0;
    while i < stops.len()
        invariant
            i <= stops@.len(),
            straight@.len() == stops@.len(),
            stops@.len() <= u32::MAX,
            network == network_of(dijk, extra),
            dijk matches Some(x) ==> x.dist@.len() == graph.nodes@.len() && stops_linked(
                stops@,
                *graph,
            ),
            found@ == stops_within(stops@, straight@, network, max_walk, i as int),
        decreases stops@.len() - i,
    {
        let stop = &stops[i];
        let metres: Option<u32> = if stop.location_type != 0 {
            None
        } else {
            match &dijk {
                Some(x) if stop.walk_node_idx != NOT_SET => match x.get(stop.walk_node_idx) {
                    Some(m) => {
                        let sum: u64 = m as u64 + extra as u64;
                        if sum <= max_walk as u64 {
                            Some(sum as u32)
                        } else {
                            None
                        }
                    },
                    None => None,
                },
                _ => if straight[i] <= max_walk {
                    Some(straight[i])
                } else {
                    None
                },
            }
        };
        match metres {
            Some(m) => found.push((i as u32, m)),
            None => {},
        }
        i += 1;
    }
    Reachable { stops: found, dijk, start_node }
}

impl Reachable {
    /// The stops with their walking times.
    pub fn timed(self, secs: &Vec<u32>) -> (r: WalkReach)
        requires
            secs@.len() == self.stops@.len(),
        ensures
            r.stops@ == Seq::new(
                secs@.len(),
                |i: int| (self.stops@[i].0, secs@[i], self.stops@[i].1),
            ),
            r.dijk == self.dijk,
            r.start_node == self.start_node,
    {
        let mut stops: Vec<(u32, u32, u32)> = Vec::new();
        let mut i: usize = 0;
        while i < secs.len()
            invariant
                i <= secs@.len(),
                secs@.len() == self.stops@.len(),
                stops@ == Seq::new(
                    i as nat,
                    |k: int| (self.stops@[k].0, secs@[k], self.stops@[k].1),
                ),
            decreases secs@.len() - i,
        {
            stops.push((self.stops[i].0, secs[i], self.stops[i].1));
            i += 1;
            proof {
                assert(stops@ =~= Seq::new(
                    i as nat,
                    |k: int| (self.stops@[k].0, secs@[k], self.stops@[k].1),
                ));
            }
        }
        WalkReach { stops, dijk: self.dijk, start_node: self.start_node }
    }
}

impl WalkReach {
    /// The paths fit the network, and every stop exists.
    pub open spec fn wf(self, g: WalkGraph, stops: Seq<Stop>) -> bool {
        &&& self.dijk matches Some(x) ==> x.wf(g) && x.dist@.len() == g.nodes@.len()
        &&& forall|i: int| 0 <= i < self.stops@.len() ==> (#[trigger] self.stops@[i]).0
            < stops.len()
    }

    /// `path` is what is known of the way to a node: a shortest path if the network was used and
    /// the node is within reach, else nothing.
    pub open spec fn path_known(self, g: WalkGraph, node: int, path: Seq<(u64, u64)>) -> bool {
        match self.dijk {
            Some(x) if x.dist@[node] != u32::MAX => is_path(
                g,
                x.dist@,
                x.start as int,
                node,
                path,
            ),
            _ => path.len() == 0,
        }
    }

    /// Coordinates of the path to a node.
    pub fn path_to_node(&self, graph: &WalkGraph, node_idx: u32) -> (r: Vec<(u64, u64)>)
        requires
            graph.wf(),
            self.dijk matches Some(x) ==> x.wf(*graph) && node_idx < graph.nodes@.len()
                && x.dist@.len() == graph.nodes@.len(),
        ensures
            self.path_known(*graph, node_idx as int, r@),
    {
        match &self.dijk {
            Some(x) => x.path_coords(graph, node_idx),
            None => Vec::new(),
        }
    }

    /// `path` is what is known of the way to a stop.
    pub open spec fn stop_path_known(
        self,
        g: WalkGraph,
        stop: Stop,
        near: Option<u32>,
        path: Seq<(u64, u64)>,
    ) -> bool {
        match stop_node(stop, near) {
            Some(node) => self.path_known(g, node as int, path),
            None => path.len() == 0,
        }
    }

    /// Coordinates of the path to a stop. `near` is the node nearest to the stop, used if the stop
    /// is not linked to one.
    pub fn path_to_stop(
        &self,
        graph: &WalkGraph,
        stops: &Vec<Stop>,
        stop_idx: u32,
        near: Option<u32>,
    ) -> (r: Vec<(u64, u64)>)
        requires
            graph.wf(),
            stop_idx < stops@.len(),
            self.dijk matches Some(x) ==> x.wf(*graph) && x.dist@.len() == graph.nodes@.len()
                && stops_linked(stops@, *graph),
            self.dijk is Some && near is Some ==> near->0 < graph.nodes@.len(),
        ensures
            self.stop_path_known(*graph, stops@[stop_idx as int], near, r@),
    {
        let stop = &stops[stop_idx as usize];
        if stop.walk_node_idx != NOT_SET {
            return self.path_to_node(graph, stop.walk_node_idx);
        }
        match near {
            Some(node) => self.path_to_node(graph, node),
            None => Vec::new(),
        }
    }
}

/// The node that a stop is linked to, or else the one nearest to it.
pub open spec fn stop_node(stop: Stop, near: Option<u32>) -> Option<u32> {
    if stop.walk_node_idx != NOT_SET {
        Some(stop.walk_node_idx)
    } else {
        near
    }
}

// ---------------------------------------------------------------------------
// Walking between two places
// ---------------------------------------------------------------------------

/// `path` leads from `from` over a shortest way between two nodes, no longer than `limit`, to
/// `to`. The way is `metres` long.
pub open spec fn leads_over(
    g: WalkGraph,
    from: (u64, u64),
    start: int,
    end: int,
    to: (u64, u64),
    limit: u32,
    metres: int,
    path: Seq<(u64, u64)>,
) -> bool {
    exists|dist: Seq<u32>, inner: Seq<(u64, u64)>|
        {
            &&& distances_from(g, start, limit, dist)
            &&& dist[end] == metres
            &&& metres != u32::MAX
            &&& #[trigger] is_path(g, dist, start, end, inner)
            &&& path == seq![from] + inner + seq![to]
        }
}

/// Distance over the network between two coordinates with the path. `straight` is the straight
/// distance; `start` and `end` are the nodes nearest to the two, with the metres to them. None if
/// the straight distance is over `max_dist` or a coordinate has no node. Where the network is
/// empty, or leads over more than one and a half times `max_dist`, the straight line is taken.
pub fn walk_between(
    graph: &WalkGraph,
    from: (u64, u64),
    to: (u64, u64),
    straight: u32,
    start: Option<(u32, u32)>,
    end: Option<(u32, u32)>,
    max_dist: u32,
) -> (r: Option<(u32, Vec<(u64, u64)>)>)
    requires
        graph.wf(),
        max_dist + max_dist / 2 <= u32::MAX,
        start matches Some(x) ==> x.0 < graph.nodes@.len(),
        end matches Some(x) ==> x.0 < graph.nodes@.len(),
    ensures
        straight > max_dist ==> r is None,
        straight <= max_dist && graph.nodes@.len() == 0 ==> r is Some && (r->0).0 == straight
            && (r->0).1@ == seq![from, to],
        straight <= max_dist && graph.nodes@.len() > 0 ==> {
            &&& r is None <==> start is None || end is None
            &&& start is Some && end is Some ==> {
                let limit = (max_dist + max_dist / 2) as u32;
                let extra = (start->0).1 + (end->0).1;
                let (metres, path) = r->0;
                ||| {
                    &&& metres <= limit
                    &&& leads_over(
                        *graph,
                        from,
                        (start->0).0 as int,
                        (end->0).0 as int,
                        to,
                        limit,
                        metres - extra,
                        path@,
                    )
                }
                ||| {
                    &&& metres == straight
                    &&& path@ == seq![from, to]
                    &&& out_of_reach(
                        *graph,
                        (start->0).0 as int,
                        (end->0).0 as int,
                        reach_limit((limit) as u32) - extra,
                    )
                }
            }
        },
{
    if straight > max_dist {
        return None;
    }
    if graph.nodes.len() == 0 {
        return Some((straight, vec![from, to]));
    }
    let (start_node, extra_start): (u32, u32) = match start {
        Some(x) => x,
        None => {
            return None;
        },
    };
    let (end_node, extra_end): (u32, u32) = match end {
        Some(x) => x,
        None => {
            return None;
        },
    };
    let limit: u32 = max_dist + max_dist / 2;
    let dijk = dijkstra(graph, start_node, limit);
    match dijk.get(end_node) {
        Some(metres) => {
            let sum: u64 = metres as u64 + extra_start as u64 + extra_end as u64;
            if sum <= limit as u64 {
                let inner = dijk.path_coords(graph, end_node);
                let path = with_ends(from, &inner, to);
                proof {
                    assert(is_path(
                        *graph,
                        dijk.dist@,
                        start_node as int,
                        end_node as int,
                        inner@,
                    ));
                    assert(leads_over(
                        *graph,
                        from,
                        start_node as int,
                        end_node as int,
                        to,
                        limit,
                        metres as int,
                        path@,
                    ));
                }
                return Some((sum as u32, path));
            }
        },
        None => {},
    }
    proof {
        let m = dijk.dist@[end_node as int];
        assert(if m == u32::MAX {
            out_of_reach(*graph, start_node as int, end_node as int, reach_limit(limit))
        } else {
            m <= limit && distance_is(*graph, start_node as int, end_node as int, m as int)
        });
    }
    Some((straight, vec![from, to]))
}

/// The coordinates with one before and one after them.
pub fn with_ends(from: (u64, u64), inner: &Vec<(u64, u64)>, to: (u64, u64)) -> (r: Vec<(u64, u64)>)
    ensures
        r@ == seq![from] + inner@ + seq![to],
{
    let mut path: Vec<(u64, u64)> = Vec::new();
    path.push(from);
    let mut i: usize = 0;
    while i < inner.len()
        invariant
            i <= inner@.len(),
            path@ == seq![from] + inner@.take(i as int),
        decreases inner@.len() - i,
    {
        path.push(inner[i]);
        i += 1;
        assert(path@ =~= seq![from] + inner@.take(i as int));
    }
    path.push(to);
    assert(path@ =~= seq![from] + inner@ + seq![to]);
    path
}

/// Farthest walk over the network between two stops, in metres.
pub const MAX_TRANSFER_WALK: u32 = 2000;

pub open spec fn stop_coord(stop: Stop) -> (u64, u64) {
    (stop.lat, stop.lon)
}

/// `path` leads from stop to stop: over the network within 2000 metres, else straight.
pub open spec fn leads_between(
    g: WalkGraph,
    from: Stop,
    to: Stop,
    from_near: Option<u32>,
    to_near: Option<u32>,
    path: Seq<(u64, u64)>,
) -> bool {
    let a = stop_node(from, from_near);
    let b = stop_node(to, to_near);
    if g.nodes@.len() == 0 || a is None || b is None {
        path == seq![stop_coord(from), stop_coord(to)]
    } else {
        ||| exists|metres: int|
            leads_over(
                g,
                stop_coord(from),
                a->0 as int,
                b->0 as int,
                stop_coord(to),
                MAX_TRANSFER_WALK,
                metres,
                path,
            )
        ||| {
            &&& out_of_reach(g, a->0 as int, b->0 as int, MAX_TRANSFER_WALK as int)
            &&& path == seq![stop_coord(from), stop_coord(to)]
        }
    }
}

/// Coordinates of the walk between two stops: over the network within 2000 metres, else straight.
/// `from_near` and `to_near` are the nodes nearest to the stops, used if a stop is not linked.
pub fn walk_between_stops(
    graph: &WalkGraph,
    stops: &Vec<Stop>,
    from_idx: u32,
    to_idx: u32,
    from_near: Option<u32>,
    to_near: Option<u32>,
) -> (r: Vec<(u64, u64)>)
    requires
        graph.wf(),
        from_idx < stops@.len(),
        to_idx < stops@.len(),
        graph.nodes@.len() > 0 ==> stops_linked(stops@, *graph),
        from_near matches Some(x) ==> x < graph.nodes@.len(),
        to_near matches Some(x) ==> x < graph.nodes@.len(),
    ensures
        leads_between(
            *graph,
            stops@[from_idx as int],
            stops@[to_idx as int],
            from_near,
            to_near,
            r@,
        ),
{
    let from = &stops[from_idx as usize];
    let to = &stops[to_idx as usize];
    if graph.nodes.len() == 0 {
        return vec![(from.lat, from.lon), (to.lat, to.lon)];
    }
    let a: Option<u32> = if from.walk_node_idx != NOT_SET {
        Some(from.walk_node_idx)
    } else {
        from_near
    };
    let b: Option<u32> = if to.walk_node_idx != NOT_SET {
        Some(to.walk_node_idx)
    } else {
        to_near
    };
    match (a, b) {
        (Some(start), Some(end)) => {
            let dijk = dijkstra(graph, start, MAX_TRANSFER_WALK);
            let m: u32 = dijk.dist[end as usize];
            if m == u32::MAX {
                return vec![(from.lat, from.lon), (to.lat, to.lon)];
            }
            let inner = dijk.path_coords(graph, end);
            let path = with_ends((from.lat, from.lon), &inner, (to.lat, to.lon));
            proof {
                assert(is_path(*graph, dijk.dist@, start as int, end as int, inner@));
                assert(leads_over(
                    *graph,
                    stop_coord(*from),
                    start as int,
                    end as int,
                    stop_coord(*to),
                    MAX_TRANSFER_WALK,
                    m as int,
                    path@,
                ));
            }
            path
        },
        _ => vec![(from.lat, from.lon), (to.lat, to.lon)],
    }
}

} // verus!
