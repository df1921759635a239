//! Contraction of street networks, and linking stops to them.

use crate::data::NOT_SET;
use crate::feed as f;
use crate::grid;
use crate::streets as s;
use crate::streets::{EdgeView, GraphView, StreetGraph, WalkEdge, WalkNode};
use vstd::prelude::*;

verus! {

// ---------------------------------------------------------------------------
// What contraction does
// ---------------------------------------------------------------------------

/// The nodes that the first `n` of some edges lead to, each once.
pub open spec fn targets(es: Seq<EdgeView>, n: int) -> Seq<u32>
    decreases n,
{
    if n <= 0 {
        Seq::empty()
    } else {
        let front = targets(es, n - 1);
        if front.contains(es[n - 1].to) {
            front
        } else {
            front.push(es[n - 1].to)
        }
    }
}

/// The neighbours of a node.
pub open spec fn neighbours(g: GraphView, u: int) -> Seq<u32> {
    targets(g.edges[u], g.edges[u].len() as int)
}

/// The node only joins two neighbours and need not be kept.
pub open spec fn contractable(g: GraphView, protected: Seq<bool>, u: int) -> bool {
    neighbours(g, u).len() == 2 && !protected[u]
}

/// Length of the shortest of the first `n` of some edges to `to`.
pub open spec fn shortest(es: Seq<EdgeView>, to: u32, n: int) -> u16
    decreases n,
{
    if n <= 0 {
        u16::MAX
    } else {
        let m = shortest(es, to, n - 1);
        if es[n - 1].to == to && es[n - 1].dist < m {
            es[n - 1].dist
        } else {
            m
        }
    }
}

/// Length of the shortest edge between two nodes, in either direction.
pub open spec fn link_dist(g: GraphView, u: u32, v: u32) -> u16 {
    let a = shortest(g.edges[u as int], v, g.edges[u as int].len() as int);
    let b = shortest(g.edges[v as int], u, g.edges[v as int].len() as int);
    if a <= b {
        a
    } else {
        b
    }
}

/// A row of nodes from one end to the other, with its length.
#[verifier::ext_equal]
pub struct ChainView {
    pub nodes: Seq<u32>,
    pub total: u32,
}

pub open spec fn sum_or_max(a: u32, b: u16) -> u32 {
    if a + b <= u32::MAX {
        (a + b) as u32
    } else {
        u32::MAX
    }
}

/// Where a chain goes on from `cur`, coming from `prev`.
pub open spec fn onward(g: GraphView, prev: u32, cur: u32) -> u32 {
    let ns = neighbours(g, cur as int);
    if ns[0] != prev {
        ns[0]
    } else {
        ns[1]
    }
}

/// Follows a chain until it comes to a node that is kept, for at most `fuel` steps.
pub open spec fn follow(g: GraphView, protected: Seq<bool>, c: ChainView, fuel: nat) -> ChainView
    decreases fuel,
{
    let cur = c.nodes.last();
    if fuel == 0 || !contractable(g, protected, cur as int) {
        c
    } else {
        let next = onward(g, c.nodes[c.nodes.len() - 2], cur);
        follow(
            g,
            protected,
            ChainView {
                nodes: c.nodes.push(next),
                total: sum_or_max(c.total, link_dist(g, cur, next)),
            },
            (fuel - 1) as nat,
        )
    }
}

/// The chain that leaves `start` towards `next`.
pub open spec fn chain_from(g: GraphView, protected: Seq<bool>, start: u32, next: u32) -> ChainView {
    follow(
        g,
        protected,
        ChainView { nodes: seq![start, next], total: link_dist(g, start, next) as u32 },
        (2 * g.nodes.len()) as nat,
    )
}

/// The first `n` of some nodes marked.
pub open spec fn marked(marks: Seq<bool>, nodes: Seq<u32>, n: int) -> Seq<bool>
    decreases n,
{
    if n <= 0 {
        marks
    } else {
        marked(marks, nodes, n - 1).update(nodes[n - 1] as int, true)
    }
}

/// Chains found so far, with the nodes on them marked.
#[verifier::ext_equal]
pub struct Found {
    pub chains: Seq<ChainView>,
    pub marks: Seq<bool>,
}

/// The chains that leave `start` towards its first `n` neighbours.
pub open spec fn chains_at(
    g: GraphView,
    protected: Seq<bool>,
    start: u32,
    found: Found,
    n: int,
) -> Found
    decreases n,
{
    if n <= 0 {
        found
    } else {
        let before = chains_at(g, protected, start, found, n - 1);
        let next = neighbours(g, start as int)[n - 1];
        if contractable(g, protected, next as int) && !before.marks[next as int] {
            let c = chain_from(g, protected, start, next);
            Found {
                chains: before.chains.push(c),
                marks: marked(before.marks, c.nodes, c.nodes.len() as int),
            }
        } else {
            before
        }
    }
}

/// The chains that leave the first `n` nodes.
pub open spec fn chains_of(g: GraphView, protected: Seq<bool>, n: int) -> Found
    decreases n,
{
    if n <= 0 {
        Found {
            chains: Seq::empty(),
            marks: Seq::new(g.nodes.len(), |i: int| false),
        }
    } else {
        let before = chains_of(g, protected, n - 1);
        if contractable(g, protected, n - 1) {
            before
        } else {
            chains_at(
                g,
                protected,
                (n - 1) as u32,
                before,
                neighbours(g, n - 1).len() as int,
            )
        }
    }
}

/// Which nodes are kept.
pub open spec fn kept_nodes(g: GraphView, protected: Seq<bool>) -> Seq<bool> {
    Seq::new(g.nodes.len(), |u: int| !contractable(g, protected, u))
}

/// The edges from `u` to the first `n` of its neighbours that are kept.
pub open spec fn direct_edges(
    g: GraphView,
    protected: Seq<bool>,
    u: u32,
    n: int,
) -> Seq<EdgeView>
    decreases n,
{
    if n <= 0 {
        Seq::empty()
    } else {
        let front = direct_edges(g, protected, u, n - 1);
        let to = neighbours(g, u as int)[n - 1];
        if contractable(g, protected, to as int) {
            front
        } else {
            front.push(
                s::plain_edge(
                    s::kept_before(kept_nodes(g, protected), to as int) as u32,
                    link_dist(g, u, to),
                ),
            )
        }
    }
}

pub open spec fn points_of(g: GraphView, nodes: Seq<u32>) -> Seq<(u64, u64)> {
    Seq::new(nodes.len(), |i: int| (g.nodes[nodes[i] as int].lat, g.nodes[nodes[i] as int].lon))
}

/// Coordinates between the ends of a chain.
pub open spec fn inner_points(g: GraphView, c: ChainView) -> Seq<(u64, u64)> {
    points_of(g, c.nodes.subrange(1, c.nodes.len() - 1))
}

pub open spec fn capped(total: u32) -> u16 {
    if total <= u16::MAX {
        total as u16
    } else {
        u16::MAX
    }
}

/// The edges of `u` along the first `n` chains, each both ways.
pub open spec fn chain_edges(
    g: GraphView,
    protected: Seq<bool>,
    chains: Seq<ChainView>,
    u: u32,
    n: int,
) -> Seq<EdgeView>
    decreases n,
{
    if n <= 0 {
        Seq::empty()
    } else {
        let front = chain_edges(g, protected, chains, u, n - 1);
        let c = chains[n - 1];
        let a = c.nodes[0];
        let b = c.nodes.last();
        let keep = kept_nodes(g, protected);
        if keep[a as int] && keep[b as int] {
            let one = if a == u {
                front.push(
                    EdgeView {
                        to: s::kept_before(keep, b as int) as u32,
                        dist: capped(c.total),
                        geometry: inner_points(g, c),
                    },
                )
            } else {
                front
            };
            if b == u {
                one.push(
                    EdgeView {
                        to: s::kept_before(keep, a as int) as u32,
                        dist: capped(c.total),
                        geometry: inner_points(g, c).reverse(),
                    },
                )
            } else {
                one
            }
        } else {
            front
        }
    }
}

/// All edges of a kept node.
pub open spec fn new_edges(
    g: GraphView,
    protected: Seq<bool>,
    chains: Seq<ChainView>,
    u: int,
) -> Seq<EdgeView> {
    direct_edges(g, protected, u as u32, neighbours(g, u).len() as int) + chain_edges(
        g,
        protected,
        chains,
        u as u32,
        chains.len() as int,
    )
}

/// The network with chains contracted to single edges.
pub open spec fn contracted(g: GraphView, protected: Seq<bool>) -> GraphView {
    let n = g.nodes.len() as int;
    let keep = kept_nodes(g, protected);
    let chains = chains_of(g, protected, n).chains;
    GraphView {
        nodes: s::kept(g.nodes, keep, n),
        edges: s::kept(
            Seq::new(g.nodes.len(), |u: int| new_edges(g, protected, chains, u)),
            keep,
            n,
        ),
        pedestrian: s::kept(g.pedestrian, keep, n),
    }
}

// ---------------------------------------------------------------------------
// Contraction
// ---------------------------------------------------------------------------

pub struct Chain {
    pub nodes: Vec<u32>,
    pub total: u32,
}

impl View for Chain {
    type V = ChainView;

    open spec fn view(&self) -> ChainView {
        ChainView { nodes: self.nodes@, total: self.total }
    }
}

fn holds(v: &Vec<u32>, x: u32) -> (r: bool)
    ensures
        r == v@.contains(x),
{
    let mut i: usize = 0;
    while i < v.len()
        invariant
            i <= v@.len(),
            forall|k: int| 0 <= k < i ==> v@[k] != x,
        decreases v@.len() - i,
    {
        if v[i] == x {
            return true;
        }
        i += 1;
    }
    false
}

/// The neighbours of every node.
fn all_neighbours(g: &StreetGraph) -> (r: Vec<Vec<u32>>)
    requires
        s::graph_wf(g@),
    ensures
        r@.len() == g@.nodes.len(),
        forall|u: int| 0 <= u < r@.len() ==> (#[trigger] r@[u])@ == neighbours(g@, u),
{
    let mut out: Vec<Vec<u32>> = Vec::new();
    let mut u: usize = 0;
    while u < g.edges.len()
        invariant
            u <= g.edges@.len(),
            out@.len() == u,
            forall|k: int| 0 <= k < u ==> (#[trigger] out@[k])@ == neighbours(g@, k),
        decreases g.edges@.len() - u,
    {
        let es = &g.edges[u];
        let ghost ev = f::views(es@);
        assert(g@.edges[u as int] == ev);
        let mut list: Vec<u32> = Vec::new();
        let mut k: usize = 0;
        while k < es.len()
            invariant
                k <= es@.len(),
                ev == f::views(es@),
                list@ == targets(ev, k as int),
            decreases es@.len() - k,
        {
            let to: u32 = es[k].to_node_idx;
            assert(ev[k as int].to == to);
            if !holds(&list, to) {
                list.push(to);
            }
            k += 1;
        }
        out.push(list);
        u += 1;
    }
    out
}

proof fn lemma_targets_within(es: Seq<EdgeView>, n: int, bound: int)
    requires
        0 <= n <= es.len(),
        forall|k: int| 0 <= k < es.len() ==> (#[trigger] es[k]).to < bound,
    ensures
        forall|k: int| 0 <= k < targets(es, n).len() ==> #[trigger] targets(es, n)[k] < bound,
        targets(es, n).no_duplicates(),
        targets(es, n).len() <= n,
    decreases n,
{
    if n > 0 {
        lemma_targets_within(es, n - 1, bound);
        assert(es[n - 1].to < bound);
        let front = targets(es, n - 1);
        let all = targets(es, n);
        if !front.contains(es[n - 1].to) {
            assert forall|i: int, j: int|
                0 <= i < all.len() && 0 <= j < all.len() && i != j implies all[i] != all[j] by {
                if i < front.len() && j < front.len() {
                    assert(front[i] != front[j]);
                } else if i < front.len() {
                    assert(front.contains(front[i]));
                } else if j < front.len() {
                    assert(front.contains(front[j]));
                }
            }
        }
    }
}

pub(crate) proof fn lemma_neighbours(g: GraphView, u: int)
    requires
        s::graph_wf(g),
        0 <= u < g.nodes.len(),
    ensures
        forall|k: int| 0 <= k < neighbours(g, u).len() ==> #[trigger] neighbours(g, u)[k] < g.nodes.len(),
        neighbours(g, u).no_duplicates(),
{
    assert forall|k: int| 0 <= k < g.edges[u].len() implies (#[trigger] g.edges[u][k]).to
        < g.nodes.len() by {}
    lemma_targets_within(g.edges[u], g.edges[u].len() as int, g.nodes.len() as int);
}

fn shortest_to(es: &Vec<WalkEdge>, to: u32) -> (r: u16)
    ensures
        r == shortest(f::views(es@), to, es@.len() as int),
{
    let ghost ev = f::views(es@);
    let mut m: u16 = u16::MAX;
    let mut k: usize = 0;
    while k < es.len()
        invariant
            k <= es@.len(),
            ev == f::views(es@),
            m == shortest(ev, to, k as int),
        decreases es@.len() - k,
    {
        assert(ev[k as int] == es@[k as int]@);
        if es[k].to_node_idx == to && es[k].dist_meters < m {
            m = es[k].dist_meters;
        }
        k += 1;
    }
    m
}

fn dist_between(g: &StreetGraph, u: u32, v: u32) -> (r: u16)
    requires
        s::graph_wf(g@),
        u < g@.nodes.len(),
        v < g@.nodes.len(),
    ensures
        r == link_dist(g@, u, v),
{
    assert(g@.edges[u as int] == f::views(g.edges@[u as int]@));
    assert(g@.edges[v as int] == f::views(g.edges@[v as int]@));
    let a: u16 = shortest_to(&g.edges[u as usize], v);
    let b: u16 = shortest_to(&g.edges[v as usize], u);
    if a <= b {
        a
    } else {
        b
    }
}

/// What contraction works with: the network, the neighbours of every node, and which nodes are
/// kept.
spec fn prepared(
    g: GraphView,
    protected: Seq<bool>,
    adj: Seq<Vec<u32>>,
    keep: Seq<bool>,
) -> bool {
    &&& s::graph_wf(g)
    &&& protected.len() == g.nodes.len()
    &&& adj.len() == g.nodes.len()
    &&& forall|u: int| 0 <= u < adj.len() ==> (#[trigger] adj[u])@ == neighbours(g, u)
    &&& keep == kept_nodes(g, protected)
}

/// Follows the chain that leaves `start` towards `next`.
fn trace_chain(
    g: &StreetGraph,
    adj: &Vec<Vec<u32>>,
    keep: &Vec<bool>,
    start: u32,
    next: u32,
    Ghost(protected): Ghost<Seq<bool>>,
) -> (r: Chain)
    requires
        prepared(g@, protected, adj@, keep@),
        start < g@.nodes.len(),
        next < g@.nodes.len(),
    ensures
        r@ == chain_from(g@, protected, start, next),
        chain_within(r@, g@.nodes.len() as int),
        r@.nodes[0] == start,
{
    let ghost gv = g@;
    let mut nodes: Vec<u32> = Vec::new();
    nodes.push(start);
    nodes.push(next);
    let mut total: u32 = dist_between(g, start, next) as u32;
    let limit: u64 = 2 * (g.nodes.len() as u64);
    let mut steps: u64 = 0;
    assert(nodes@ =~= seq![start, next]);
    while steps < limit && !keep[nodes[nodes.len() - 1] as usize]
        invariant
            gv == g@,
            prepared(gv, protected, adj@, keep@),
            steps <= limit,
            limit == 2 * gv.nodes.len(),
            nodes@.len() >= 2,
            nodes@[0] == start,
            forall|k: int| 0 <= k < nodes@.len() ==> #[trigger] nodes@[k] < gv.nodes.len(),
            chain_from(gv, protected, start, next) == follow(
                gv,
                protected,
                ChainView { nodes: nodes@, total },
                (limit - steps) as nat,
            ),
        decreases limit - steps,
    {
        let n: usize = nodes.len();
        let cur: u32 = nodes[n - 1];
        let prev: u32 = nodes[n - 2];
        proof {
            assert(contractable(gv, protected, cur as int));
            assert(adj@[cur as int]@ == neighbours(gv, cur as int));
            lemma_neighbours(gv, cur as int);
            assert(neighbours(gv, cur as int)[0] < gv.nodes.len());
            assert(neighbours(gv, cur as int)[1] < gv.nodes.len());
        }
        let ns = &adj[cur as usize];
        let to: u32 = if ns[0] != prev {
            ns[0]
        } else {
            ns[1]
        };
        let d: u16 = dist_between(g, cur, to);
        let sum: u64 = total as u64 + d as u64;
        let ghost before = ChainView { nodes: nodes@, total };
        total = if sum <= u32::MAX as u64 {
            sum as u32
        } else {
            u32::MAX
        };
        nodes.push(to);
        steps += 1;
        proof {
            assert(before.nodes.last() == cur);
            assert(before.nodes[before.nodes.len() - 2] == prev);
        }
    }
    let r = Chain { nodes, total };
    assert(r@.nodes.last() == r.nodes@[r.nodes@.len() - 1]);
    r
}

/// A chain has two ends, and its nodes exist.
pub open spec fn chain_within(c: ChainView, n: int) -> bool {
    &&& c.nodes.len() >= 2
    &&& forall|k: int| 0 <= k < c.nodes.len() ==> #[trigger] c.nodes[k] < n
}

pub open spec fn chains_within(chains: Seq<ChainView>, n: int) -> bool {
    forall|i: int| 0 <= i < chains.len() ==> chain_within(#[trigger] chains[i], n)
}

fn mark_nodes(marks: &mut Vec<bool>, nodes: &Vec<u32>)
    requires
        forall|k: int| 0 <= k < nodes@.len() ==> #[trigger] nodes@[k] < old(marks)@.len(),
    ensures
        final(marks)@ == marked(old(marks)@, nodes@, nodes@.len() as int),
        final(marks)@.len() == old(marks)@.len(),
{
    let mut k: usize = 0;
    while k < nodes.len()
        invariant
            k <= nodes@.len(),
            marks@.len() == old(marks)@.len(),
            forall|j: int| 0 <= j < nodes@.len() ==> #[trigger] nodes@[j] < marks@.len(),
            marks@ == marked(old(marks)@, nodes@, k as int),
        decreases nodes@.len() - k,
    {
        marks[nodes[k] as usize] = true;
        k += 1;
    }
}

/// Finds all chains.
fn find_chains(
    g: &StreetGraph,
    adj: &Vec<Vec<u32>>,
    keep: &Vec<bool>,
    Ghost(protected): Ghost<Seq<bool>>,
) -> (r: Vec<Chain>)
    requires
        prepared(g@, protected, adj@, keep@),
    ensures
        f::views(r@) == chains_of(g@, protected, g@.nodes.len() as int).chains,
        chains_within(f::views(r@), g@.nodes.len() as int),
{
    let ghost gv = g@;
    let n: usize = g.nodes.len();
    let mut marks: Vec<bool> = Vec::new();
    let mut k: usize = 0;
    while k < n
        invariant
            k <= n,
            marks@ == Seq::new(k as nat, |i: int| false),
        decreases n - k,
    {
        marks.push(false);
        k += 1;
        assert(marks@ =~= Seq::new(k as nat, |i: int| false));
    }
    let mut chains: Vec<Chain> = Vec::new();
    assert(f::views(chains@) =~= Seq::<ChainView>::empty());
    let mut u: usize = 0;
    while u < n
        invariant
            u <= n,
            n == gv.nodes.len(),
            gv == g@,
            prepared(gv, protected, adj@, keep@),
            marks@.len() == n,
            (Found { chains: f::views(chains@), marks: marks@ }) == chains_of(
                gv,
                protected,
                u as int,
            ),
            chains_within(f::views(chains@), n as int),
        decreases n - u,
    {
        if keep[u] {
            let ghost start = chains_of(gv, protected, u as int);
            let ns = &adj[u];
            assert(ns@ == neighbours(gv, u as int));
            proof {
                lemma_neighbours(gv, u as int);
            }
            let mut j: usize = 0;
            while j < ns.len()
                invariant
                    j <= ns@.len(),
                    u < n,
                    n == gv.nodes.len(),
                    gv == g@,
                    prepared(gv, protected, adj@, keep@),
                    ns@ == neighbours(gv, u as int),
                    forall|i: int| 0 <= i < ns@.len() ==> #[trigger] ns@[i] < n,
                    marks@.len() == n,
                    (Found { chains: f::views(chains@), marks: marks@ }) == chains_at(
                        gv,
                        protected,
                        u as u32,
                        start,
                        j as int,
                    ),
                    chains_within(f::views(chains@), n as int),
                decreases ns@.len() - j,
            {
                let next: u32 = ns[j];
                assert(next < n);
                if !keep[next as usize] && !marks[next as usize] {
                    let c = trace_chain(g, adj, keep, u as u32, next, Ghost(protected));
                    mark_nodes(&mut marks, &c.nodes);
                    proof {
                        f::lemma_views_push(chains@, c);
                    }
                    let ghost before = f::views(chains@);
                    let ghost cv = c@;
                    chains.push(c);
                    assert forall|i: int| 0 <= i < f::views(chains@).len() implies chain_within(
                        #[trigger] f::views(chains@)[i],
                        n as int,
                    ) by {
                        if i < before.len() {
                            assert(f::views(chains@)[i] == before[i]);
                        }
                    }
                }
                j += 1;
            }
        }
        u += 1;
    }
    chains
}

/// New numbers of nodes: how many are kept before each.
fn new_numbers(keep: &Vec<bool>) -> (r: Vec<u32>)
    requires
        keep@.len() <= u32::MAX,
    ensures
        r@.len() == keep@.len(),
        forall|k: int|
            0 <= k < keep@.len() ==> #[trigger] r@[k] == s::kept_before(keep@, k) as u32,
{
    let mut out: Vec<u32> = Vec::new();
    let mut count: u32 = 0;
    let mut i: usize = 0;
    while i < keep.len()
        invariant
            i <= keep@.len(),
            keep@.len() <= u32::MAX,
            count == s::kept_before(keep@, i as int),
            count <= i,
            out@.len() == i,
            forall|k: int| 0 <= k < i ==> #[trigger] out@[k] == s::kept_before(keep@, k) as u32,
        decreases keep@.len() - i,
    {
        out.push(count);
        if keep[i] {
            count += 1;
        }
        i += 1;
    }
    out
}

/// The edges of `u` to neighbours that are kept.
fn direct_edges_of(
    g: &StreetGraph,
    adj: &Vec<Vec<u32>>,
    keep: &Vec<bool>,
    numbers: &Vec<u32>,
    u: u32,
    Ghost(protected): Ghost<Seq<bool>>,
) -> (r: Vec<WalkEdge>)
    requires
        prepared(g@, protected, adj@, keep@),
        numbers@.len() == keep@.len(),
        forall|k: int|
            0 <= k < keep@.len() ==> #[trigger] numbers@[k] == s::kept_before(keep@, k) as u32,
        u < g@.nodes.len(),
    ensures
        f::views(r@) == direct_edges(
            g@,
            protected,
            u,
            neighbours(g@, u as int).len() as int,
        ),
{
    let ghost gv = g@;
    let ns = &adj[u as usize];
    let mut out: Vec<WalkEdge> = Vec::new();
    let mut k: usize = 0;
    proof {
        assert(ns@ == neighbours(gv, u as int));
        lemma_neighbours(gv, u as int);
        assert(f::views(out@) =~= Seq::<EdgeView>::empty());
    }
    while k < ns.len()
        invariant
            k <= ns@.len(),
            gv == g@,
            prepared(gv, protected, adj@, keep@),
            numbers@.len() == keep@.len(),
            forall|j: int|
                0 <= j < keep@.len() ==> #[trigger] numbers@[j] == s::kept_before(keep@, j) as u32,
            u < gv.nodes.len(),
            ns@ == neighbours(gv, u as int),
            forall|i: int| 0 <= i < ns@.len() ==> #[trigger] ns@[i] < gv.nodes.len(),
            f::views(out@) == direct_edges(gv, protected, u, k as int),
        decreases ns@.len() - k,
    {
        let to: u32 = ns[k];
        assert(to < gv.nodes.len());
        if keep[to as usize] {
            let e = WalkEdge {
                to_node_idx: numbers[to as usize],
                dist_meters: dist_between(g, u, to),
                geometry: Vec::new(),
            };
            proof {
                f::lemma_views_push(out@, e);
                assert(e@ =~= s::plain_edge(
                    s::kept_before(keep@, to as int) as u32,
                    link_dist(gv, u, to),
                ));
            }
            out.push(e);
        }
        k += 1;
    }
    out
}

/// Coordinates between the ends of a chain.
fn points_inside(g: &StreetGraph, c: &Chain) -> (r: Vec<(u64, u64)>)
    requires
        chain_within(c@, g@.nodes.len() as int),
    ensures
        r@ == inner_points(g@, c@),
{
    let ghost inner = c@.nodes.subrange(1, c@.nodes.len() - 1);
    let last: usize = c.nodes.len() - 1;
    let mut out: Vec<(u64, u64)> = Vec::new();
    let mut k: usize = 1;
    assert(out@ =~= points_of(g@, inner).take(0));
    while k < last
        invariant
            1 <= k <= last,
            last == c.nodes@.len() - 1,
            chain_within(c@, g@.nodes.len() as int),
            inner == c@.nodes.subrange(1, c@.nodes.len() - 1),
            out@ == points_of(g@, inner).take(k - 1),
        decreases last - k,
    {
        assert(c@.nodes[k as int] < g@.nodes.len());
        let n = g.nodes[c.nodes[k] as usize];
        out.push((n.lat, n.lon));
        k += 1;
        assert(out@ =~= points_of(g@, inner).take(k - 1));
    }
    assert(points_of(g@, inner).take(k - 1) =~= points_of(g@, inner));
    out
}

fn backwards(v: &Vec<(u64, u64)>) -> (r: Vec<(u64, u64)>)
    ensures
        r@ == v@.reverse(),
{
    let mut out: Vec<(u64, u64)> = Vec::new();
    let mut i: usize = v.len();
    while i > 0
        invariant
            i <= v@.len(),
            out@ == v@.reverse().take(v@.len() - i),
        decreases i,
    {
        i -= 1;
        out.push(v[i]);
        assert(out@ =~= v@.reverse().take(v@.len() - i));
    }
    assert(v@.reverse().take(v@.len() - 0) =~= v@.reverse());
    out
}

/// Adds an edge to a list of lists.
fn push_edge(edges: &mut Vec<Vec<WalkEdge>>, u: usize, e: WalkEdge)
    requires
        u < old(edges)@.len(),
    ensures
        final(edges)@.len() == old(edges)@.len(),
        s::edge_lists(final(edges)@) == s::edge_lists(old(edges)@).update(
            u as int,
            s::edge_lists(old(edges)@)[u as int].push(e@),
        ),
{
    let ghost before = edges@;
    proof {
        f::lemma_views_push(before[u as int]@, e);
    }
    edges[u].push(e);
    assert(s::edge_lists(edges@) =~= s::edge_lists(before).update(
        u as int,
        s::edge_lists(before)[u as int].push(e@),
    ));
}

/// Adds the edges along chains, each both ways.
fn add_chain_edges(
    g: &StreetGraph,
    keep: &Vec<bool>,
    numbers: &Vec<u32>,
    chains: &Vec<Chain>,
    edges: &mut Vec<Vec<WalkEdge>>,
    Ghost(protected): Ghost<Seq<bool>>,
)
    requires
        keep@ == kept_nodes(g@, protected),
        numbers@.len() == keep@.len(),
        forall|k: int|
            0 <= k < keep@.len() ==> #[trigger] numbers@[k] == s::kept_before(keep@, k) as u32,
        chains_within(f::views(chains@), g@.nodes.len() as int),
        old(edges)@.len() == g@.nodes.len(),
    ensures
        final(edges)@.len() == old(edges)@.len(),
        forall|u: int|
            0 <= u < old(edges)@.len() && u <= u32::MAX ==> #[trigger] s::edge_lists(
                final(edges)@,
            )[u] == s::edge_lists(old(edges)@)[u] + chain_edges(
                g@,
                protected,
                f::views(chains@),
                u as u32,
                chains@.len() as int,
            ),
{
    let ghost gv = g@;
    let ghost all = f::views(chains@);
    let ghost start = s::edge_lists(edges@);
    let mut i: usize = 0;
    assert forall|u: int| 0 <= u < edges@.len() && u <= u32::MAX implies #[trigger] s::edge_lists(
        edges@,
    )[u] == start[u] + chain_edges(gv, protected, all, u as u32, 0) by {
        assert(start[u] + Seq::<EdgeView>::empty() =~= start[u]);
    }
    while i < chains.len()
        invariant
            i <= chains@.len(),
            gv == g@,
            all == f::views(chains@),
            keep@ == kept_nodes(gv, protected),
            numbers@.len() == keep@.len(),
            forall|k: int|
                0 <= k < keep@.len() ==> #[trigger] numbers@[k] == s::kept_before(keep@, k) as u32,
            chains_within(all, gv.nodes.len() as int),
            edges@.len() == gv.nodes.len(),
            forall|u: int|
                0 <= u < edges@.len() && u <= u32::MAX ==> #[trigger] s::edge_lists(edges@)[u]
                    == start[u] + chain_edges(gv, protected, all, u as u32, i as int),
        decreases chains@.len() - i,
    {
        let c = &chains[i];
        assert(all[i as int] == c@);
        assert(chain_within(all[i as int], gv.nodes.len() as int));
        let a: u32 = c.nodes[0];
        let b: u32 = c.nodes[c.nodes.len() - 1];
        let ghost before = s::edge_lists(edges@);
        assert(c@.nodes[0] < gv.nodes.len());
        assert(c@.nodes[c@.nodes.len() - 1] < gv.nodes.len());
        if keep[a as usize] && keep[b as usize] {
            let points = points_inside(g, c);
            let back = backwards(&points);
            let dist: u16 = if c.total <= u16::MAX as u32 {
                c.total as u16
            } else {
                u16::MAX
            };
            push_edge(
                edges,
                a as usize,
                WalkEdge { to_node_idx: numbers[b as usize], dist_meters: dist, geometry: points },
            );
            push_edge(
                edges,
                b as usize,
                WalkEdge { to_node_idx: numbers[a as usize], dist_meters: dist, geometry: back },
            );
        }
        proof {
            let after = s::edge_lists(edges@);
            assert forall|u: int| 0 <= u < edges@.len() && u <= u32::MAX implies #[trigger] after[u]
                == start[u] + chain_edges(gv, protected, all, u as u32, i as int + 1) by {
                let front = chain_edges(gv, protected, all, u as u32, i as int);
                let next = chain_edges(gv, protected, all, u as u32, i as int + 1);
                assert(before[u] == start[u] + front);
                assert(after[u] =~= start[u] + next);
            }
        }
        i += 1;
    }
}

proof fn lemma_direct_within(
    g: GraphView,
    protected: Seq<bool>,
    chains: Seq<ChainView>,
    u: u32,
    n: int,
)
    requires
        s::graph_wf(g),
        protected.len() == g.nodes.len(),
        u < g.nodes.len(),
        0 <= n <= neighbours(g, u as int).len(),
    ensures
        edges_within(direct_edges(g, protected, u, n), kept_count(g, protected)),
    decreases n,
{
    if n > 0 {
        lemma_direct_within(g, protected, chains, u, n - 1);
        lemma_neighbours(g, u as int);
        let to = neighbours(g, u as int)[n - 1];
        if !contractable(g, protected, to as int) {
            s::lemma_kept_at(
                g.nodes,
                kept_nodes(g, protected),
                g.nodes.len() as int,
                to as int,
            );
            s::lemma_kept_len(g.nodes, kept_nodes(g, protected), g.nodes.len() as int);
        }
    }
}

proof fn lemma_chain_edges_within(
    g: GraphView,
    protected: Seq<bool>,
    chains: Seq<ChainView>,
    u: u32,
    n: int,
)
    requires
        s::graph_wf(g),
        protected.len() == g.nodes.len(),
        chains_within(chains, g.nodes.len() as int),
        0 <= n <= chains.len(),
    ensures
        edges_within(chain_edges(g, protected, chains, u, n), kept_count(g, protected)),
    decreases n,
{
    if n > 0 {
        lemma_chain_edges_within(g, protected, chains, u, n - 1);
        let c = chains[n - 1];
        assert(chain_within(c, g.nodes.len() as int));
        let keep = kept_nodes(g, protected);
        let a = c.nodes[0];
        let b = c.nodes[c.nodes.len() - 1];
        assert(a < g.nodes.len() && b < g.nodes.len());
        s::lemma_kept_len(g.nodes, keep, g.nodes.len() as int);
        if keep[a as int] && keep[b as int] {
            s::lemma_kept_at(g.nodes, keep, g.nodes.len() as int, a as int);
            s::lemma_kept_at(g.nodes, keep, g.nodes.len() as int, b as int);
        }
    }
}

spec fn kept_count(g: GraphView, protected: Seq<bool>) -> int {
    s::kept_before(kept_nodes(g, protected), g.nodes.len() as int)
}

spec fn edges_within(es: Seq<EdgeView>, n: int) -> bool {
    forall|k: int| 0 <= k < es.len() ==> (#[trigger] es[k]).to < n
}

proof fn lemma_contracted_wf(g: GraphView, protected: Seq<bool>)
    requires
        s::graph_wf(g),
        protected.len() == g.nodes.len(),
        chains_within(
            chains_of(g, protected, g.nodes.len() as int).chains,
            g.nodes.len() as int,
        ),
    ensures
        s::graph_wf(contracted(g, protected)),
{
    let n = g.nodes.len() as int;
    let keep = kept_nodes(g, protected);
    let chains = chains_of(g, protected, n).chains;
    let lists = Seq::new(g.nodes.len(), |u: int| new_edges(g, protected, chains, u));
    let c = contracted(g, protected);
    s::lemma_kept_len(g.nodes, keep, n);
    s::lemma_kept_len(lists, keep, n);
    s::lemma_kept_len(g.pedestrian, keep, n);
    assert forall|v: int, k: int| 0 <= v < c.edges.len() && 0 <= k < c.edges[v].len() implies (
    #[trigger] c.edges[v][k]).to < c.nodes.len() by {
        let u = s::lemma_kept_from(lists, keep, n, v);
        let m = neighbours(g, u).len() as int;
        lemma_direct_within(g, protected, chains, u as u32, m);
        lemma_chain_edges_within(g, protected, chains, u as u32, chains.len() as int);
        let a = direct_edges(g, protected, u as u32, m);
        let b = chain_edges(g, protected, chains, u as u32, chains.len() as int);
        if k < a.len() {
            assert(c.edges[v][k] == a[k]);
        } else {
            assert(c.edges[v][k] == b[k - a.len()]);
        }
    }
}

/// Contracts every row of nodes that only join two neighbours to a single edge with the points in
/// between. Protected nodes are kept.
pub fn compress_walk_graph(g: &StreetGraph, protected: &Vec<bool>) -> (r: StreetGraph)
    requires
        s::graph_wf(g@),
        protected@.len() == g@.nodes.len(),
    ensures
        r@ == contracted(g@, protected@),
        s::graph_wf(r@),
{
    let ghost gv = g@;
    let n: usize = g.nodes.len();
    let adj = all_neighbours(g);
    let mut keep: Vec<bool> = Vec::new();
    let mut i: usize = 0;
    while i < n
        invariant
            i <= n,
            gv == g@,
            n == gv.nodes.len(),
            protected@.len() == n,
            adj@.len() == n,
            forall|u: int| 0 <= u < adj@.len() ==> (#[trigger] adj@[u])@ == neighbours(gv, u),
            keep@ == kept_nodes(gv, protected@).take(i as int),
        decreases n - i,
    {
        assert(adj@[i as int]@ == neighbours(gv, i as int));
        keep.push(!(adj[i].len() == 2 && !protected[i]));
        i += 1;
        assert(keep@ =~= kept_nodes(gv, protected@).take(i as int));
    }
    assert(keep@ =~= kept_nodes(gv, protected@));
    assert(prepared(gv, protected@, adj@, keep@));
    let numbers = new_numbers(&keep);
    let chains = find_chains(g, &adj, &keep, Ghost(protected@));
    let ghost cv = f::views(chains@);
    let mut all_edges: Vec<Vec<WalkEdge>> = Vec::new();
    let mut u: usize = 0;
    while u < n
        invariant
            u <= n,
            gv == g@,
            n == gv.nodes.len(),
            n <= u32::MAX,
            prepared(gv, protected@, adj@, keep@),
            numbers@.len() == keep@.len(),
            forall|k: int|
                0 <= k < keep@.len() ==> #[trigger] numbers@[k] == s::kept_before(keep@, k) as u32,
            all_edges@.len() == u,
            forall|k: int|
                0 <= k < u ==> #[trigger] s::edge_lists(all_edges@)[k] == direct_edges(
                    gv,
                    protected@,
                    k as u32,
                    neighbours(gv, k).len() as int,
                ),
        decreases n - u,
    {
        let list = direct_edges_of(
            g,
            &adj,
            &keep,
            &numbers,
            u as u32,
            Ghost(protected@),
        );
        let ghost before = all_edges@;
        let ghost lv = f::views(list@);
        all_edges.push(list);
        assert forall|k: int| 0 <= k < u + 1 implies #[trigger] s::edge_lists(all_edges@)[k]
            == direct_edges(gv, protected@, k as u32, neighbours(gv, k).len() as int) by {
            if k < u {
                assert(s::edge_lists(all_edges@)[k] == s::edge_lists(before)[k]);
            } else {
                assert(s::edge_lists(all_edges@)[k] == lv);
            }
        }
        u += 1;
    }
    add_chain_edges(g, &keep, &numbers, &chains, &mut all_edges, Ghost(protected@));
    let ghost lists = Seq::new(
        gv.nodes.len(),
        |k: int| new_edges(gv, protected@, cv, k),
    );
    proof {
        assert(s::edge_lists(all_edges@) =~= lists) by {
            assert forall|k: int| 0 <= k < n implies #[trigger] s::edge_lists(all_edges@)[k]
                == lists[k] by {}
        }
    }
    let mut nodes: Vec<WalkNode> = Vec::new();
    let mut edges: Vec<Vec<WalkEdge>> = Vec::new();
    let mut pedestrian: Vec<bool> = Vec::new();
    let mut k: usize = 0;
    assert(s::edge_lists(edges@) =~= s::kept(lists, keep@, 0));
    for list in it: all_edges
        invariant
            it.seq() == all_edges@,
            k == it.index(),
            gv == g@,
            n == gv.nodes.len(),
            s::graph_wf(gv),
            all_edges@.len() == n,
            keep@.len() == n,
            s::edge_lists(all_edges@) == lists,
            nodes@ == s::kept(gv.nodes, keep@, k as int),
            s::edge_lists(edges@) == s::kept(lists, keep@, k as int),
            pedestrian@ == s::kept(gv.pedestrian, keep@, k as int),
    {
        let ghost lv = f::views(list@);
        assert(lv == s::edge_lists(all_edges@)[k as int]);
        if keep[k] {
            nodes.push(g.nodes[k]);
            pedestrian.push(g.pedestrian[k]);
            let ghost before = edges@;
            edges.push(list);
            assert(s::edge_lists(edges@) =~= s::edge_lists(before).push(lv));
        }
        k += 1;
    }
    let r = StreetGraph { nodes, edges, pedestrian };
    proof {
        assert(r@ =~= contracted(gv, protected@));
        lemma_contracted_wf(gv, protected@);
    }
    r
}

// ---------------------------------------------------------------------------
// Linking stops
// ---------------------------------------------------------------------------

/// Key of 500 metres. Keys are the bit patterns of double-precision metres, which order as the
/// distances do.
pub const KEY_500: u64 = 0x407f_4000_0000_0000;

/// A stop can be linked: it is a stop, a station or an entrance, and it has a location.
pub open spec fn linkable(location_type: u8, located: bool) -> bool {
    location_type <= 2 && located
}

/// The nodes around a stop, for a stop that can be linked.
pub open spec fn nodes_near(
    node_cells: Seq<(i32, i32)>,
    cell: (i32, i32),
    location_type: u8,
    located: bool,
) -> Seq<u32> {
    if linkable(location_type, located) {
        grid::members_around(
            node_cells,
            Seq::new(node_cells.len(), |i: int| true),
            cell.0 as int,
            cell.1 as int,
            2,
        )
    } else {
        Seq::empty()
    }
}

/// The nodes that each stop may be linked to. Stops are given by cell, type, and whether they have
/// a location.
pub fn link_candidates(
    node_cells: &Vec<(i32, i32)>,
    stop_cells: &Vec<(i32, i32)>,
    location_types: &Vec<u8>,
    located: &Vec<bool>,
) -> (r: Vec<Vec<u32>>)
    requires
        location_types@.len() == stop_cells@.len(),
        located@.len() == stop_cells@.len(),
    ensures
        r@.len() == stop_cells@.len(),
        forall|i: int|
            0 <= i < r@.len() ==> (#[trigger] r@[i])@ == nodes_near(
                node_cells@,
                stop_cells@[i],
                location_types@[i],
                located@[i],
            ),
{
    let mut pick: Vec<bool> = Vec::new();
    let mut k: usize = 0;
    while k < node_cells.len()
        invariant
            k <= node_cells@.len(),
            pick@ == Seq::new(k as nat, |i: int| true),
        decreases node_cells@.len() - k,
    {
        pick.push(true);
        k += 1;
        assert(pick@ =~= Seq::new(k as nat, |i: int| true));
    }
    let map = grid::build(node_cells, &pick);
    let mut out: Vec<Vec<u32>> = Vec::new();
    let mut i: usize = 0;
    while i < stop_cells.len()
        invariant
            i <= stop_cells@.len(),
            location_types@.len() == stop_cells@.len(),
            located@.len() == stop_cells@.len(),
            pick@ == Seq::new(node_cells@.len(), |i: int| true),
            grid::lists_members(map@, node_cells@, pick@, node_cells@.len() as int),
            out@.len() == i,
            forall|j: int|
                0 <= j < i ==> (#[trigger] out@[j])@ == nodes_near(
                    node_cells@,
                    stop_cells@[j],
                    location_types@[j],
                    located@[j],
                ),
        decreases stop_cells@.len() - i,
    {
        if location_types[i] <= 2 && located[i] {
            let (gx, gy) = stop_cells[i];
            let near = grid::around(&map, gx, gy, 2);
            proof {
                grid::lemma_block(map@, node_cells@, pick@, gx - 2, gy - 2, 5, 5);
            }
            out.push(near);
        } else {
            out.push(Vec::new());
        }
        i += 1;
    }
    out
}

/// The nearest of the first `n` candidates that are allowed, if it is nearer than 500 metres.
pub open spec fn nearest_allowed(
    nodes: Seq<u32>,
    keys: Seq<u64>,
    allowed: Seq<bool>,
    n: int,
) -> (u32, u64)
    decreases n,
{
    if n <= 0 {
        (NOT_SET, KEY_500)
    } else {
        let best = nearest_allowed(nodes, keys, allowed, n - 1);
        if allowed[nodes[n - 1] as int] && keys[n - 1] < best.1 {
            (nodes[n - 1], keys[n - 1])
        } else {
            best
        }
    }
}

/// The node that a stop is linked to: the nearest one on a footway if there is one, else the
/// nearest of all. `NOT_SET` if none is nearer than 500 metres.
pub open spec fn link_of(
    nodes: Seq<u32>,
    keys: Seq<u64>,
    footways: Option<Seq<bool>>,
    num_nodes: nat,
) -> u32 {
    let any = nearest_allowed(
        nodes,
        keys,
        Seq::new(num_nodes, |i: int| true),
        nodes.len() as int,
    ).0;
    match footways {
        Some(ped) => {
            let best = nearest_allowed(nodes, keys, ped, nodes.len() as int).0;
            if best != NOT_SET {
                best
            } else {
                any
            }
        },
        None => any,
    }
}

pub open spec fn opt_flags(x: Option<Vec<bool>>) -> Option<Seq<bool>> {
    match x {
        Some(v) => Some(v@),
        None => None,
    }
}

/// The first two of three lists say the same of every stop, and every candidate exists.
pub open spec fn links_measured(
    candidates: Seq<Vec<u32>>,
    keys: Seq<Vec<u64>>,
    num_nodes: int,
) -> bool {
    &&& candidates.len() == keys.len()
    &&& forall|i: int|
        0 <= i < candidates.len() ==> (#[trigger] candidates[i])@.len() == keys[i]@.len()
    &&& forall|i: int, k: int|
        0 <= i < candidates.len() && 0 <= k < candidates[i]@.len() ==> (
        #[trigger] candidates[i]@[k]) < num_nodes
}

/// Links every stop to a node. `keys` holds the keys of the distances to the candidates.
pub fn link_stops_to_walk_graph(
    candidates: &Vec<Vec<u32>>,
    keys: &Vec<Vec<u64>>,
    footways: &Option<Vec<bool>>,
    num_nodes: usize,
) -> (r: Vec<u32>)
    requires
        links_measured(candidates@, keys@, num_nodes as int),
        *footways matches Some(ped) ==> ped@.len() == num_nodes,
    ensures
        r@ == Seq::new(
            candidates@.len(),
            |i: int|
                link_of(
                    candidates@[i]@,
                    keys@[i]@,
                    opt_flags(*footways),
                    num_nodes as nat,
                ),
        ),
{
    let ghost every = Seq::new(num_nodes as nat, |i: int| true);
    let mut out: Vec<u32> = Vec::new();
    let mut i: usize = 0;
    while i < candidates.len()
        invariant
            i <= candidates@.len(),
            every == Seq::new(num_nodes as nat, |i: int| true),
            links_measured(candidates@, keys@, num_nodes as int),
            *footways matches Some(ped) ==> ped@.len() == num_nodes,
            out@ == Seq::new(
                i as nat,
                |j: int|
                    link_of(
                        candidates@[j]@,
                        keys@[j]@,
                        opt_flags(*footways),
                        num_nodes as nat,
                    ),
            ),
        decreases candidates@.len() - i,
    {
        let nodes = &candidates[i];
        let dists = &keys[i];
        assert(candidates@[i as int]@.len() == keys@[i as int]@.len());
        let mut any: (u32, u64) = (NOT_SET, KEY_500);
        let mut foot: (u32, u64) = (NOT_SET, KEY_500);
        let mut k: usize = 0;
        while k < nodes.len()
            invariant
                k <= nodes@.len(),
                nodes@.len() == dists@.len(),
                every == Seq::new(num_nodes as nat, |i: int| true),
                forall|j: int| 0 <= j < nodes@.len() ==> #[trigger] nodes@[j] < num_nodes,
                *footways matches Some(ped) ==> ped@.len() == num_nodes,
                any == nearest_allowed(nodes@, dists@, every, k as int),
                *footways matches Some(ped) ==> foot == nearest_allowed(
                    nodes@,
                    dists@,
                    ped@,
                    k as int,
                ),
            decreases nodes@.len() - k,
        {
            let node: u32 = nodes[k];
            let key: u64 = dists[k];
            assert(nodes@[k as int] < num_nodes);
            if key < any.1 {
                any = (node, key);
            }
            match footways {
                Some(ped) => {
                    if ped[node as usize] && key < foot.1 {
                        foot = (node, key);
                    }
                },
                None => {},
            }
            k += 1;
        }
        let link: u32 = match footways {
            Some(_) => if foot.0 != NOT_SET {
                foot.0
            } else {
                any.0
            },
            None => any.0,
        };
        out.push(link);
        i += 1;
        assert(out@ =~= Seq::new(
            i as nat,
            |j: int|
                link_of(candidates@[j]@, keys@[j]@, opt_flags(*footways), num_nodes as nat),
        ));
    }
    out
}

proof fn lemma_nearest_allowed(
    nodes: Seq<u32>,
    keys: Seq<u64>,
    allowed: Seq<bool>,
    n: int,
    bound: int,
)
    requires
        0 <= n <= nodes.len(),
        forall|k: int| 0 <= k < nodes.len() ==> #[trigger] nodes[k] < bound,
    ensures
        ({
            let best = nearest_allowed(nodes, keys, allowed, n);
            &&& best.0 == NOT_SET || best.0 < bound
            &&& best.1 <= KEY_500
            &&& forall|k: int|
                0 <= k < n && allowed[#[trigger] nodes[k] as int] ==> best.1 <= keys[k]
        }),
    decreases n,
{
    if n > 0 {
        lemma_nearest_allowed(nodes, keys, allowed, n - 1, bound);
        assert(nodes[n - 1] < bound);
    }
}

/// A stop is linked to a node that exists, or to none.
pub proof fn links_exist(
    nodes: Seq<u32>,
    keys: Seq<u64>,
    footways: Option<Seq<bool>>,
    num_nodes: nat,
)
    requires
        forall|k: int| 0 <= k < nodes.len() ==> #[trigger] nodes[k] < num_nodes,
    ensures
        link_of(nodes, keys, footways, num_nodes) == NOT_SET || link_of(
            nodes,
            keys,
            footways,
            num_nodes,
        ) < num_nodes,
{
    lemma_nearest_allowed(
        nodes,
        keys,
        Seq::new(num_nodes, |i: int| true),
        nodes.len() as int,
        num_nodes as int,
    );
    if footways is Some {
        lemma_nearest_allowed(
            nodes,
            keys,
            footways->0,
            nodes.len() as int,
            num_nodes as int,
        );
    }
}

proof fn lemma_nearest_found(
    nodes: Seq<u32>,
    keys: Seq<u64>,
    allowed: Seq<bool>,
    n: int,
) -> (at: int)
    requires
        0 <= n <= nodes.len(),
        forall|k: int| 0 <= k < nodes.len() ==> #[trigger] nodes[k] < NOT_SET,
    ensures
        ({
            let best = nearest_allowed(nodes, keys, allowed, n);
            if best.0 == NOT_SET {
                &&& best.1 == KEY_500
                &&& forall|k: int|
                    0 <= k < n && allowed[#[trigger] nodes[k] as int] ==> keys[k] >= KEY_500
            } else {
                &&& 0 <= at < n
                &&& best == (nodes[at], keys[at])
                &&& keys[at] < KEY_500
                &&& allowed[nodes[at] as int]
                &&& forall|k: int|
                    0 <= k < n && allowed[#[trigger] nodes[k] as int] ==> keys[at] <= keys[k]
                &&& forall|k: int|
                    0 <= k < at && allowed[#[trigger] nodes[k] as int] ==> keys[at] < keys[k]
            }
        }),
    decreases n,
{
    if n <= 0 {
        0
    } else {
        let at = lemma_nearest_found(nodes, keys, allowed, n - 1);
        let best = nearest_allowed(nodes, keys, allowed, n - 1);
        assert(nodes[n - 1] < NOT_SET);
        if allowed[nodes[n - 1] as int] && keys[n - 1] < best.1 {
            n - 1
        } else {
            at
        }
    }
}

/// Some candidate on a footway is nearer than 500 metres.
pub open spec fn footway_near(
    nodes: Seq<u32>,
    keys: Seq<u64>,
    footways: Option<Seq<bool>>,
) -> bool {
    footways is Some && exists|i: int|
        0 <= i < nodes.len() && footways->0[#[trigger] nodes[i] as int] && keys[i] < KEY_500
}

/// Candidate `k` is nearer than 500 metres, and no candidate that comes into question is nearer
/// than it, nor as near and listed before. If a footway is near, only footways come into question.
pub open spec fn none_nearer(
    nodes: Seq<u32>,
    keys: Seq<u64>,
    footways: Option<Seq<bool>>,
    k: int,
) -> bool {
    let on_foot = footway_near(nodes, keys, footways);
    &&& keys[k] < KEY_500
    &&& on_foot ==> footways->0[nodes[k] as int]
    &&& forall|j: int|
        0 <= j < nodes.len() && (on_foot ==> footways->0[nodes[j] as int]) ==> keys[k]
            <= #[trigger] keys[j] && (j < k ==> keys[k] < keys[j])
}

/// A stop is linked to the nearest of its candidates: to one of those on a footway if any of them
/// is nearer than 500 metres, else to one of all. The one it is linked to is itself nearer than 500
/// metres, and no other one that comes into question is nearer than it, nor as near and listed
/// before. Only a stop with no candidate nearer than 500 metres is linked to none.
pub proof fn stops_are_linked_to_the_nearest(
    nodes: Seq<u32>,
    keys: Seq<u64>,
    footways: Option<Seq<bool>>,
    num_nodes: nat,
)
    requires
        keys.len() == nodes.len(),
        num_nodes <= NOT_SET,
        forall|k: int| 0 <= k < nodes.len() ==> #[trigger] nodes[k] < num_nodes,
        footways matches Some(ped) ==> ped.len() == num_nodes,
    ensures
        ({
            let link = link_of(nodes, keys, footways, num_nodes);
            &&& link == 0xffff_ffff <==> forall|j: int|
                0 <= j < nodes.len() ==> #[trigger] keys[j] >= KEY_500
            &&& link != 0xffff_ffff ==> exists|k: int|
                0 <= k < nodes.len() && nodes[k] == link && #[trigger] none_nearer(
                    nodes,
                    keys,
                    footways,
                    k,
                )
        }),
{
    let n = nodes.len() as int;
    let every = Seq::new(num_nodes, |i: int| true);
    let link = link_of(nodes, keys, footways, num_nodes);
    let at = lemma_nearest_found(nodes, keys, every, n);
    let any = nearest_allowed(nodes, keys, every, n);
    assert forall|j: int| 0 <= j < n implies every[#[trigger] nodes[j] as int] by {}
    if any.0 == NOT_SET {
        assert forall|j: int| 0 <= j < n implies #[trigger] keys[j] >= KEY_500 by {
            assert(every[nodes[j] as int]);
        }
    } else {
        assert(keys[at] < KEY_500);
        assert(nodes[at] == any.0);
    }
    let on_foot = footway_near(nodes, keys, footways);
    let k = if footways is Some {
        let ped = footways->0;
        let k = lemma_nearest_found(nodes, keys, ped, n);
        let best = nearest_allowed(nodes, keys, ped, n);
        if best.0 != NOT_SET {
            assert(ped[nodes[k] as int] && keys[k] < KEY_500);
            assert(on_foot);
            k
        } else {
            assert(!on_foot) by {
                if on_foot {
                    let i = choose|i: int|
                        0 <= i < nodes.len() && ped[#[trigger] nodes[i] as int] && keys[i]
                            < KEY_500;
                    assert(keys[i] >= KEY_500);
                }
            }
            at
        }
    } else {
        at
    };
    if link != NOT_SET {
        assert(0 <= k < n && nodes[k] == link && keys[k] < KEY_500);
        assert forall|j: int|
            0 <= j < n && (on_foot ==> footways->0[nodes[j] as int]) implies keys[k]
            <= #[trigger] keys[j] && (j < k ==> keys[k] < keys[j]) by {
            assert(every[nodes[j] as int]);
        }
        assert(keys[k] < KEY_500);
        assert(on_foot ==> footways->0[link as int]);
        assert(none_nearer(nodes, keys, footways, k));
    } else {
        assert(any.0 == NOT_SET);
    }
}

} // verus!
