//! What contraction keeps of a street network.

use crate::streets as s;
use crate::streets::{EdgeView, GraphView};
use crate::walk as w;
use crate::walk::{ChainView, Found};
use vstd::prelude::*;

verus! {

// ---------------------------------------------------------------------------
// Laws of contraction
// ---------------------------------------------------------------------------

/// A protected node is kept, under the number that counts the nodes kept before it.
pub proof fn protected_nodes_are_kept(g: GraphView, protected: Seq<bool>, u: int)
    requires
        0 <= u < g.nodes.len(),
        protected[u],
    ensures
        ({
            let k = s::kept_before(w::kept_nodes(g, protected), u);
            &&& 0 <= k < w::contracted(g, protected).nodes.len()
            &&& w::contracted(g, protected).nodes[k] == g.nodes[u]
        }),
{
    s::lemma_kept_at(g.nodes, w::kept_nodes(g, protected), g.nodes.len() as int, u);
}

proof fn lemma_targets_linked(es: Seq<EdgeView>, n: int, v: u32)
    requires
        0 <= n <= es.len(),
    ensures
        w::targets(es, n).contains(v) <==> exists|k: int| 0 <= k < n && (#[trigger] es[k]).to == v,
    decreases n,
{
    if n > 0 {
        lemma_targets_linked(es, n - 1, v);
        let front = w::targets(es, n - 1);
        let all = w::targets(es, n);
        if front.contains(v) {
            let k = choose|k: int| 0 <= k < n - 1 && (#[trigger] es[k]).to == v;
            assert(es[k].to == v);
            let q = choose|q: int| 0 <= q < front.len() && front[q] == v;
            assert(all[q] == v);
        }
        if es[n - 1].to == v && !front.contains(v) {
            assert(all[front.len() as int] == v);
        }
        if all.contains(v) && !front.contains(v) {
            let q = choose|q: int| 0 <= q < all.len() && all[q] == v;
            assert(q == front.len());
        }
        if exists|k: int| 0 <= k < n && (#[trigger] es[k]).to == v {
            let k = choose|k: int| 0 <= k < n && (#[trigger] es[k]).to == v;
            if k < n - 1 {
                assert(es[k].to == v);
            }
        }
    }
}

/// Neighbours are those that an edge leads to.
proof fn lemma_neighbours_linked(g: GraphView, u: int, v: u32)
    ensures
        w::neighbours(g, u).contains(v) <==> s::linked(g.edges, u, v as int),
{
    lemma_targets_linked(g.edges[u], g.edges[u].len() as int, v);
    if s::linked(g.edges, u, v as int) {
        let k = choose|k: int| 0 <= k < g.edges[u].len() && (#[trigger] g.edges[u][k]).to == v;
        assert(g.edges[u][k].to == v);
    }
    if exists|k: int| 0 <= k < g.edges[u].len() && (#[trigger] g.edges[u][k]).to == v {
        let k = choose|k: int| 0 <= k < g.edges[u].len() && (#[trigger] g.edges[u][k]).to == v;
        assert(g.edges[u][k].to == v);
    }
}

/// A row of nodes as it comes about when a chain is followed.
spec fn row_ok(g: GraphView, protected: Seq<bool>, r: Seq<u32>) -> bool {
    &&& r.len() >= 2
    &&& forall|i: int| 0 <= i < r.len() ==> #[trigger] r[i] < g.nodes.len()
    &&& !w::contractable(g, protected, r[0] as int)
    &&& w::neighbours(g, r[0] as int).contains(r[1])
    &&& forall|i: int| 1 <= i < r.len() - 1 ==> #[trigger] step_ok(g, protected, r, i)
}

/// The row goes on from the `i`-th node as a chain does.
spec fn step_ok(g: GraphView, protected: Seq<bool>, r: Seq<u32>, i: int) -> bool {
    w::contractable(g, protected, r[i] as int) && r[i + 1] == w::onward(g, r[i - 1], r[i])
}

/// Each node of a row is a neighbour of the one before it, and the other way round.
proof fn lemma_row_adjacent(g: GraphView, protected: Seq<bool>, r: Seq<u32>, i: int)
    requires
        s::graph_wf(g),
        s::symmetric(g.edges),
        row_ok(g, protected, r),
        0 <= i < r.len() - 1,
    ensures
        w::neighbours(g, r[i] as int).contains(r[i + 1]),
        w::neighbours(g, r[i + 1] as int).contains(r[i]),
{
    if i > 0 {
        assert(step_ok(g, protected, r, i));
        let ns = w::neighbours(g, r[i] as int);
        assert(ns.len() == 2);
        assert(r[i + 1] == w::onward(g, r[i - 1], r[i]));
        assert(ns[0] == r[i + 1] || ns[1] == r[i + 1]);
    }
    assert(r[i] < g.nodes.len() && r[i + 1] < g.nodes.len());
    lemma_neighbours_linked(g, r[i] as int, r[i + 1]);
    lemma_neighbours_linked(g, r[i + 1] as int, r[i]);
    assert(s::linked(g.edges, r[i] as int, r[i + 1] as int));
}

/// Of two neighbours, one is determined by the other.
proof fn lemma_other(ns: Seq<u32>, a: u32, b: u32, c: u32)
    requires
        ns.len() == 2,
        ns.no_duplicates(),
        ns.contains(a),
        ns.contains(b),
        ns.contains(c),
        a != c,
        b != c,
    ensures
        a == b,
{
    let i = choose|i: int| 0 <= i < ns.len() && ns[i] == a;
    let j = choose|j: int| 0 <= j < ns.len() && ns[j] == b;
    let k = choose|k: int| 0 <= k < ns.len() && ns[k] == c;
}

/// A row does not turn back at once.
proof fn lemma_onward_differs(g: GraphView, prev: u32, cur: u32)
    requires
        w::neighbours(g, cur as int).len() == 2,
        w::neighbours(g, cur as int).no_duplicates(),
    ensures
        w::onward(g, prev, cur) != prev,
{
    let ns = w::neighbours(g, cur as int);
    assert(ns[0] != ns[1]);
}

/// No step is taken twice.
proof fn lemma_steps_distinct(g: GraphView, protected: Seq<bool>, r: Seq<u32>, i: int, j: int)
    requires
        s::graph_wf(g),
        s::symmetric(g.edges),
        row_ok(g, protected, r),
        0 <= i < j < r.len() - 1,
    ensures
        !(r[i] == r[j] && r[i + 1] == r[j + 1]),
    decreases i,
{
    assert(step_ok(g, protected, r, j));
    if i > 0 && r[i] == r[j] && r[i + 1] == r[j + 1] {
        lemma_steps_distinct(g, protected, r, i - 1, j - 1);
        assert(step_ok(g, protected, r, i));
        w::lemma_neighbours(g, r[i] as int);
        lemma_row_adjacent(g, protected, r, i - 1);
        lemma_row_adjacent(g, protected, r, j - 1);
        lemma_row_adjacent(g, protected, r, i);
        lemma_onward_differs(g, r[i - 1], r[i]);
        lemma_onward_differs(g, r[j - 1], r[j]);
        lemma_other(w::neighbours(g, r[i] as int), r[i - 1], r[j - 1], r[i + 1]);
    }
}

/// A number for the `i`-th step: by the node it leads to, and from which side.
spec fn step_code(g: GraphView, r: Seq<u32>, i: int) -> int {
    2 * r[i + 1] + if w::neighbours(g, r[i + 1] as int)[0] == r[i] {
        0int
    } else {
        1int
    }
}

proof fn lemma_pigeonhole(codes: Seq<int>, bound: int)
    requires
        codes.no_duplicates(),
        bound >= 0,
        forall|i: int| 0 <= i < codes.len() ==> 0 <= #[trigger] codes[i] < bound,
    ensures
        codes.len() <= bound,
{
    codes.unique_seq_to_set();
    let all = vstd::set_lib::set_int_range(0, bound);
    vstd::set_lib::lemma_int_range(0, bound);
    assert(codes.to_set().subset_of(all)) by {
        assert forall|x: int| codes.to_set().contains(x) implies all.contains(x) by {
            let i = choose|i: int| 0 <= i < codes.len() && codes[i] == x;
            assert(0 <= codes[i] < bound);
        }
    }
    vstd::set_lib::lemma_len_subset(codes.to_set(), all);
}

/// A row that has not come to a kept node is short.
proof fn lemma_row_short(g: GraphView, protected: Seq<bool>, r: Seq<u32>)
    requires
        s::graph_wf(g),
        s::symmetric(g.edges),
        row_ok(g, protected, r),
        w::contractable(g, protected, r.last() as int),
    ensures
        r.len() - 1 <= 2 * g.nodes.len(),
{
    let codes = Seq::new((r.len() - 1) as nat, |i: int| step_code(g, r, i));
    assert forall|i: int, j: int|
        0 <= i < codes.len() && 0 <= j < codes.len() && i != j implies codes[i] != codes[j] by {
        let (a, b) = if i < j {
            (i, j)
        } else {
            (j, i)
        };
        lemma_steps_distinct(g, protected, r, a, b);
        if codes[a] == codes[b] {
            assert(r[a + 1] == r[b + 1]);
            let t = r[a + 1] as int;
            let ns = w::neighbours(g, t);
            if b + 1 < r.len() - 1 {
                assert(step_ok(g, protected, r, b + 1));
            }
            assert(w::contractable(g, protected, r[b + 1] as int));
            w::lemma_neighbours(g, t);
            lemma_row_adjacent(g, protected, r, a);
            lemma_row_adjacent(g, protected, r, b);
            if ns[0] != r[a] {
                lemma_other(ns, r[a], r[b], ns[0]);
            }
        }
    }
    assert forall|i: int| 0 <= i < codes.len() implies 0 <= #[trigger] codes[i] < 2
        * g.nodes.len() by {
        assert(r[i + 1] < g.nodes.len());
    }
    lemma_pigeonhole(codes, 2 * g.nodes.len() as int);
}

proof fn lemma_follow_ends(g: GraphView, protected: Seq<bool>, c: ChainView, fuel: nat)
    requires
        s::graph_wf(g),
        s::symmetric(g.edges),
        row_ok(g, protected, c.nodes),
        c.nodes.len() - 2 + fuel == 2 * g.nodes.len(),
    ensures
        !w::contractable(g, protected, w::follow(g, protected, c, fuel).nodes.last() as int),
        w::follow(g, protected, c, fuel).nodes.last() < g.nodes.len(),
        row_ok(g, protected, w::follow(g, protected, c, fuel).nodes),
        w::follow(g, protected, c, fuel).nodes[0] == c.nodes[0],
        w::follow(g, protected, c, fuel).nodes[1] == c.nodes[1],
    decreases fuel,
{
    let cur = c.nodes.last();
    assert(c.nodes[c.nodes.len() - 1] < g.nodes.len());
    if w::contractable(g, protected, cur as int) {
        lemma_row_short(g, protected, c.nodes);
        let prev = c.nodes[c.nodes.len() - 2];
        let next = w::onward(g, prev, cur);
        let c1 = ChainView {
            nodes: c.nodes.push(next),
            total: w::sum_or_max(c.total, w::link_dist(g, cur, next)),
        };
        w::lemma_neighbours(g, cur as int);
        assert(w::neighbours(g, cur as int)[0] < g.nodes.len());
        assert(w::neighbours(g, cur as int)[1] < g.nodes.len());
        let r = c.nodes;
        let r1 = c1.nodes;
        assert(r1[0] == r[0] && r1[1] == r[1]);
        assert forall|i: int| 1 <= i < r1.len() - 1 implies #[trigger] step_ok(
            g,
            protected,
            r1,
            i,
        ) by {
            if i < r.len() - 1 {
                assert(step_ok(g, protected, r, i));
            }
        }
        lemma_follow_ends(g, protected, c1, (fuel - 1) as nat);
    }
}

/// Where every edge leads both ways, a chain that leaves a kept node comes to a kept node.
pub proof fn chains_end_at_kept_nodes(g: GraphView, protected: Seq<bool>, start: u32, next: u32)
    requires
        s::graph_wf(g),
        s::symmetric(g.edges),
        start < g.nodes.len(),
        !w::contractable(g, protected, start as int),
        w::neighbours(g, start as int).contains(next),
    ensures
        !w::contractable(
            g,
            protected,
            w::chain_from(g, protected, start, next).nodes.last() as int,
        ),
        w::chain_from(g, protected, start, next).nodes.last() < g.nodes.len(),
{
    let c = ChainView { nodes: seq![start, next], total: w::link_dist(g, start, next) as u32 };
    w::lemma_neighbours(g, start as int);
    let k = choose|k: int|
        0 <= k < w::neighbours(g, start as int).len() && w::neighbours(g, start as int)[k] == next;
    assert(w::neighbours(g, start as int)[k] < g.nodes.len());
    lemma_follow_ends(g, protected, c, (2 * g.nodes.len()) as nat);
}

// ---------------------------------------------------------------------------
// What a contracted edge stands for
// ---------------------------------------------------------------------------

/// Each node of a row is a neighbour of the one before it.
pub open spec fn runs_along(g: GraphView, nodes: Seq<u32>) -> bool {
    &&& nodes.len() >= 2
    &&& forall|i: int| 0 <= i < nodes.len() ==> #[trigger] nodes[i] < g.nodes.len()
    &&& forall|i: int| 0 <= i < nodes.len() - 1 ==> #[trigger] adjacent(g, nodes, i)
}

/// The node after the `i`-th is one of its neighbours.
pub open spec fn adjacent(g: GraphView, nodes: Seq<u32>, i: int) -> bool {
    w::neighbours(g, nodes[i] as int).contains(nodes[i + 1])
}

/// Length of a row of nodes.
pub open spec fn row_length(g: GraphView, nodes: Seq<u32>) -> int
    decreases nodes.len(),
{
    if nodes.len() < 2 {
        0
    } else {
        row_length(g, nodes.drop_last()) + w::link_dist(g, nodes[nodes.len() - 2], nodes.last())
    }
}

/// The edge of `u` stands for a row of nodes from `u` to where it leads: it is as long as the row,
/// as far as two bytes can tell, and has the coordinates of the nodes between.
pub open spec fn stands_for(g: GraphView, keep: Seq<bool>, u: u32, e: EdgeView, nodes: Seq<u32>) -> bool {
    &&& runs_along(g, nodes)
    &&& nodes[0] == u
    &&& keep[nodes.last() as int]
    &&& e.to == s::kept_before(keep, nodes.last() as int) as u32
    &&& e.dist == (if row_length(g, nodes) <= u16::MAX {
        row_length(g, nodes)
    } else {
        u16::MAX as int
    })
    &&& e.geometry == w::points_of(g, nodes.subrange(1, nodes.len() - 1))
}

spec fn chain_sound(g: GraphView, c: ChainView) -> bool {
    &&& runs_along(g, c.nodes)
    &&& c.total == (if row_length(g, c.nodes) <= u32::MAX {
        row_length(g, c.nodes)
    } else {
        u32::MAX as int
    })
}

spec fn chains_sound(g: GraphView, chains: Seq<ChainView>) -> bool {
    forall|i: int| 0 <= i < chains.len() ==> chain_sound(g, #[trigger] chains[i])
}

proof fn lemma_row_length(g: GraphView, nodes: Seq<u32>)
    ensures
        row_length(g, nodes) >= 0,
    decreases nodes.len(),
{
    if nodes.len() >= 2 {
        lemma_row_length(g, nodes.drop_last());
    }
}

proof fn lemma_push_along(g: GraphView, nodes: Seq<u32>, next: u32)
    requires
        runs_along(g, nodes),
        next < g.nodes.len(),
        w::neighbours(g, nodes.last() as int).contains(next),
    ensures
        runs_along(g, nodes.push(next)),
        row_length(g, nodes.push(next)) == row_length(g, nodes) + w::link_dist(
            g,
            nodes.last(),
            next,
        ),
{
    let out = nodes.push(next);
    assert(out.drop_last() =~= nodes);
    assert(out[out.len() - 2] == nodes.last());
    assert forall|i: int| 0 <= i < out.len() - 1 implies #[trigger] adjacent(g, out, i) by {
        if i < nodes.len() - 1 {
            assert(adjacent(g, nodes, i));
        }
    }
}

proof fn lemma_follow_sound(g: GraphView, protected: Seq<bool>, c: ChainView, fuel: nat)
    requires
        s::graph_wf(g),
        chain_sound(g, c),
    ensures
        chain_sound(g, w::follow(g, protected, c, fuel)),
        w::follow(g, protected, c, fuel).nodes[0] == c.nodes[0],
    decreases fuel,
{
    let cur = c.nodes.last();
    if fuel > 0 && w::contractable(g, protected, cur as int) {
        let next = w::onward(g, c.nodes[c.nodes.len() - 2], cur);
        let ns = w::neighbours(g, cur as int);
        assert(c.nodes[c.nodes.len() - 1] < g.nodes.len());
        w::lemma_neighbours(g, cur as int);
        assert(ns[0] < g.nodes.len() && ns[1] < g.nodes.len());
        assert(ns.contains(next));
        lemma_push_along(g, c.nodes, next);
        lemma_row_length(g, c.nodes);
        let c1 = ChainView {
            nodes: c.nodes.push(next),
            total: w::sum_or_max(c.total, w::link_dist(g, cur, next)),
        };
        lemma_follow_sound(g, protected, c1, (fuel - 1) as nat);
    }
}

proof fn lemma_chain_sound(g: GraphView, protected: Seq<bool>, start: u32, next: u32)
    requires
        s::graph_wf(g),
        start < g.nodes.len(),
        w::neighbours(g, start as int).contains(next),
    ensures
        chain_sound(g, w::chain_from(g, protected, start, next)),
        w::chain_from(g, protected, start, next).nodes[0] == start,
{
    let nodes = seq![start, next];
    let c = ChainView { nodes, total: w::link_dist(g, start, next) as u32 };
    w::lemma_neighbours(g, start as int);
    let k = choose|k: int|
        0 <= k < w::neighbours(g, start as int).len() && w::neighbours(g, start as int)[k] == next;
    assert(w::neighbours(g, start as int)[k] < g.nodes.len());
    assert(nodes.drop_last() =~= seq![start]);
    assert(row_length(g, seq![start]) == 0);
    assert(row_length(g, nodes) == w::link_dist(g, start, next));
    assert forall|i: int| 0 <= i < nodes.len() - 1 implies #[trigger] adjacent(g, nodes, i) by {
        assert(i == 0);
    }
    lemma_follow_sound(g, protected, c, (2 * g.nodes.len()) as nat);
}

proof fn lemma_chains_at_sound(
    g: GraphView,
    protected: Seq<bool>,
    start: u32,
    found: Found,
    n: int,
)
    requires
        s::graph_wf(g),
        start < g.nodes.len(),
        n <= w::neighbours(g, start as int).len(),
        chains_sound(g, found.chains),
    ensures
        chains_sound(g, w::chains_at(g, protected, start, found, n).chains),
    decreases n,
{
    if n > 0 {
        lemma_chains_at_sound(g, protected, start, found, n - 1);
        let next = w::neighbours(g, start as int)[n - 1];
        lemma_chain_sound(g, protected, start, next);
    }
}

proof fn lemma_chains_sound(g: GraphView, protected: Seq<bool>, n: int)
    requires
        s::graph_wf(g),
        n <= g.nodes.len(),
    ensures
        chains_sound(g, w::chains_of(g, protected, n).chains),
    decreases n,
{
    if n > 0 {
        lemma_chains_sound(g, protected, n - 1);
        if !w::contractable(g, protected, n - 1) {
            lemma_chains_at_sound(
                g,
                protected,
                (n - 1) as u32,
                w::chains_of(g, protected, n - 1),
                w::neighbours(g, n - 1).len() as int,
            );
        }
    }
}

/// Length with a node put in front.
proof fn lemma_length_cons(g: GraphView, x: u32, t: Seq<u32>)
    requires
        t.len() > 0,
    ensures
        row_length(g, seq![x] + t) == w::link_dist(g, x, t[0]) + row_length(g, t),
    decreases t.len(),
{
    let all = seq![x] + t;
    if t.len() == 1 {
        assert(all.drop_last() =~= seq![x]);
        assert(row_length(g, seq![x]) == 0);
    } else {
        lemma_length_cons(g, x, t.drop_last());
        assert(all.drop_last() =~= seq![x] + t.drop_last());
        assert(all[all.len() - 2] == t[t.len() - 2]);
    }
}

proof fn lemma_length_reversed(g: GraphView, r: Seq<u32>)
    ensures
        row_length(g, r.reverse()) == row_length(g, r),
    decreases r.len(),
{
    if r.len() >= 2 {
        let front = r.drop_last();
        lemma_length_reversed(g, front);
        assert(r.reverse() =~= seq![r.last()] + front.reverse());
        lemma_length_cons(g, r.last(), front.reverse());
        assert(front.reverse()[0] == r[r.len() - 2]);
    }
}

proof fn lemma_reversed_along(g: GraphView, r: Seq<u32>)
    requires
        s::graph_wf(g),
        s::symmetric(g.edges),
        runs_along(g, r),
    ensures
        runs_along(g, r.reverse()),
{
    let back = r.reverse();
    assert forall|i: int| 0 <= i < back.len() - 1 implies #[trigger] adjacent(g, back, i) by {
        let j = r.len() - 2 - i;
        assert(adjacent(g, r, j));
        assert(back[i] == r[j + 1] && back[i + 1] == r[j]);
        lemma_neighbours_linked(g, r[j] as int, r[j + 1]);
        lemma_neighbours_linked(g, r[j + 1] as int, r[j]);
        assert(s::linked(g.edges, r[j] as int, r[j + 1] as int));
    }
}

proof fn lemma_direct_edges(
    g: GraphView,
    protected: Seq<bool>,
    u: u32,
    n: int,
    k: int,
) -> (to: u32)
    requires
        s::graph_wf(g),
        u < g.nodes.len(),
        n <= w::neighbours(g, u as int).len(),
        0 <= k < w::direct_edges(g, protected, u, n).len(),
    ensures
        w::neighbours(g, u as int).contains(to),
        !w::contractable(g, protected, to as int),
        stands_for(
            g,
            w::kept_nodes(g, protected),
            u,
            w::direct_edges(g, protected, u, n)[k],
            seq![u, to],
        ),
    decreases n,
{
    let front = w::direct_edges(g, protected, u, n - 1);
    if k < front.len() {
        let to = lemma_direct_edges(g, protected, u, n - 1, k);
        assert(w::direct_edges(g, protected, u, n)[k] == front[k]);
        to
    } else {
        let to = w::neighbours(g, u as int)[n - 1];
        let nodes = seq![u, to];
        w::lemma_neighbours(g, u as int);
        assert(nodes.drop_last() =~= seq![u]);
        assert(row_length(g, seq![u]) == 0);
        assert(row_length(g, nodes) == w::link_dist(g, u, to));
        assert(w::neighbours(g, u as int).contains(to));
        assert forall|i: int| 0 <= i < nodes.len() - 1 implies #[trigger] adjacent(
            g,
            nodes,
            i,
        ) by {
            assert(i == 0);
        }
        assert(w::points_of(g, nodes.subrange(1, 1)) =~= Seq::<(u64, u64)>::empty());
        assert(stands_for(
            g,
            w::kept_nodes(g, protected),
            u,
            w::direct_edges(g, protected, u, n)[k],
            nodes,
        ));
        to
    }
}

proof fn lemma_chain_edges(
    g: GraphView,
    protected: Seq<bool>,
    chains: Seq<ChainView>,
    u: u32,
    n: int,
    k: int,
) -> (from: (int, bool))
    requires
        s::graph_wf(g),
        s::symmetric(g.edges),
        chains_sound(g, chains),
        n <= chains.len(),
        0 <= k < w::chain_edges(g, protected, chains, u, n).len(),
    ensures
        0 <= from.0 < n,
        stands_for(
            g,
            w::kept_nodes(g, protected),
            u,
            w::chain_edges(g, protected, chains, u, n)[k],
            turned(chains[from.0].nodes, from.1),
        ),
    decreases n,
{
    let front = w::chain_edges(g, protected, chains, u, n - 1);
    if k < front.len() {
        let from = lemma_chain_edges(g, protected, chains, u, n - 1, k);
        assert(w::chain_edges(g, protected, chains, u, n)[k] == front[k]);
        from
    } else {
        let c = chains[n - 1];
        assert(chain_sound(g, c));
        let keep = w::kept_nodes(g, protected);
        let e = w::chain_edges(g, protected, chains, u, n)[k];
        lemma_row_length(g, c.nodes);
        if k == front.len() && c.nodes[0] == u {
            assert(stands_for(g, keep, u, e, c.nodes));
            (n - 1, false)
        } else {
            let back = c.nodes.reverse();
            lemma_reversed_along(g, c.nodes);
            lemma_length_reversed(g, c.nodes);
            assert(w::inner_points(g, c).reverse() =~= w::points_of(
                g,
                back.subrange(1, back.len() - 1),
            ));
            assert(stands_for(g, keep, u, e, back));
            (n - 1, true)
        }
    }
}

/// Where every edge leads both ways, contraction invents no way: every edge of the contracted
/// network stands for a row of neighbouring nodes between the two nodes that it joins.
pub proof fn contracted_edges_run_along_streets(
    g: GraphView,
    protected: Seq<bool>,
    u: int,
    k: int,
)
    requires
        s::graph_wf(g),
        s::symmetric(g.edges),
        0 <= u < g.nodes.len(),
        w::kept_nodes(g, protected)[u],
        ({
            let at = s::kept_before(w::kept_nodes(g, protected), u);
            0 <= k < w::contracted(g, protected).edges[at].len()
        }),
    ensures
        ({
            let at = s::kept_before(w::kept_nodes(g, protected), u);
            exists|nodes: Seq<u32>| #[trigger]
                stands_for(
                    g,
                    w::kept_nodes(g, protected),
                    u as u32,
                    w::contracted(g, protected).edges[at][k],
                    nodes,
                )
        }),
{
    let n = g.nodes.len() as int;
    let keep = w::kept_nodes(g, protected);
    let chains = w::chains_of(g, protected, n).chains;
    let lists = Seq::new(g.nodes.len(), |v: int| w::new_edges(g, protected, chains, v));
    s::lemma_kept_at(lists, keep, n, u);
    lemma_chains_sound(g, protected, n);
    let direct = w::direct_edges(g, protected, u as u32, w::neighbours(g, u).len() as int);
    let along = w::chain_edges(g, protected, chains, u as u32, chains.len() as int);
    let at = s::kept_before(keep, u);
    assert(w::contracted(g, protected).edges[at] == direct + along);
    if k < direct.len() {
        let to = lemma_direct_edges(g, protected, u as u32, w::neighbours(g, u).len() as int, k);
        assert(w::contracted(g, protected).edges[at][k] == direct[k]);
        assert(stands_for(g, keep, u as u32, direct[k], seq![u as u32, to]));
    } else {
        assert(w::contracted(g, protected).edges[at][k] == along[k - direct.len()]);
        let (i, back) = lemma_chain_edges(
            g,
            protected,
            chains,
            u as u32,
            chains.len() as int,
            k - direct.len(),
        );
        assert(stands_for(g, keep, u as u32, along[k - direct.len()], turned(chains[i].nodes, back)));
    }
}

// ---------------------------------------------------------------------------
// What stays connected
// ---------------------------------------------------------------------------

/// The chain begins with the step from `u` to `v`, or ends with the step back.
spec fn touches(c: ChainView, u: u32, v: u32) -> bool {
    ||| c.nodes[0] == u && c.nodes[1] == v
    ||| c.nodes.last() == u && c.nodes[c.nodes.len() - 2] == v
}

/// The chain leads from a kept node to a kept node.
spec fn chain_ok(g: GraphView, protected: Seq<bool>, c: ChainView) -> bool {
    row_ok(g, protected, c.nodes) && !w::contractable(g, protected, c.nodes.last() as int)
}

/// All chains lead from a kept node to a kept node, and a node is marked only if it is on one.
spec fn found_ok(g: GraphView, protected: Seq<bool>, x: Found) -> bool {
    &&& forall|i: int| 0 <= i < x.chains.len() ==> chain_ok(g, protected, #[trigger] x.chains[i])
    &&& x.marks.len() == g.nodes.len()
    &&& forall|v: int|
        0 <= v < x.marks.len() && #[trigger] x.marks[v] ==> on_chain(x.chains, v as u32)
}

spec fn on_chain(chains: Seq<ChainView>, v: u32) -> bool {
    exists|i: int| 0 <= i < chains.len() && (#[trigger] chains[i]).nodes.contains(v)
}

proof fn lemma_marked(marks: Seq<bool>, nodes: Seq<u32>, n: int, v: int)
    requires
        0 <= n <= nodes.len(),
        forall|i: int| 0 <= i < nodes.len() ==> #[trigger] nodes[i] < marks.len(),
        0 <= v < marks.len(),
    ensures
        w::marked(marks, nodes, n).len() == marks.len(),
        w::marked(marks, nodes, n)[v] ==> marks[v] || nodes.contains(v as u32),
    decreases n,
{
    if n > 0 {
        lemma_marked(marks, nodes, n - 1, v);
        assert(nodes[n - 1] < marks.len());
        if v == nodes[n - 1] {
            assert(nodes.contains(v as u32));
        }
    }
}

/// The chain that leaves a kept node towards a neighbour.
proof fn lemma_chain_ok(g: GraphView, protected: Seq<bool>, start: u32, next: u32)
    requires
        s::graph_wf(g),
        s::symmetric(g.edges),
        start < g.nodes.len(),
        !w::contractable(g, protected, start as int),
        w::neighbours(g, start as int).contains(next),
    ensures
        chain_ok(g, protected, w::chain_from(g, protected, start, next)),
        w::chain_from(g, protected, start, next).nodes[0] == start,
        w::chain_from(g, protected, start, next).nodes[1] == next,
{
    let c = ChainView { nodes: seq![start, next], total: w::link_dist(g, start, next) as u32 };
    w::lemma_neighbours(g, start as int);
    let k = choose|k: int|
        0 <= k < w::neighbours(g, start as int).len() && w::neighbours(g, start as int)[k] == next;
    assert(w::neighbours(g, start as int)[k] < g.nodes.len());
    lemma_follow_ends(g, protected, c, (2 * g.nodes.len()) as nat);
}

/// A node between the ends of a chain has no neighbours but those on the chain.
proof fn lemma_inner_node(g: GraphView, protected: Seq<bool>, c: ChainView, j: int, u: u32)
    requires
        s::graph_wf(g),
        s::symmetric(g.edges),
        chain_ok(g, protected, c),
        1 <= j < c.nodes.len() - 1,
        w::neighbours(g, c.nodes[j] as int).contains(u),
    ensures
        u == c.nodes[j - 1] || u == c.nodes[j + 1],
{
    let r = c.nodes;
    assert(step_ok(g, protected, r, j));
    assert(r[j] < g.nodes.len());
    w::lemma_neighbours(g, r[j] as int);
    lemma_row_adjacent(g, protected, r, j - 1);
    lemma_row_adjacent(g, protected, r, j);
    lemma_onward_differs(g, r[j - 1], r[j]);
    if u != r[j + 1] {
        lemma_other(w::neighbours(g, r[j] as int), u, r[j - 1], r[j + 1]);
    }
}

/// A chain on which a neighbour of a kept node lies touches that node.
proof fn lemma_touches(g: GraphView, protected: Seq<bool>, c: ChainView, u: u32, v: u32)
    requires
        s::graph_wf(g),
        s::symmetric(g.edges),
        chain_ok(g, protected, c),
        c.nodes.contains(v),
        w::contractable(g, protected, v as int),
        w::neighbours(g, v as int).contains(u),
        !w::contractable(g, protected, u as int),
    ensures
        touches(c, u, v),
{
    let r = c.nodes;
    let j = choose|j: int| 0 <= j < r.len() && r[j] == v;
    lemma_inner_node(g, protected, c, j, u);
    if u == r[j - 1] {
        if j - 1 > 0 {
            assert(step_ok(g, protected, r, j - 1));
        }
    } else {
        if j + 1 < r.len() - 1 {
            assert(step_ok(g, protected, r, j + 1));
        }
    }
}

/// Neighbours are neighbours of each other.
proof fn lemma_mutual(g: GraphView, u: u32, v: u32)
    requires
        s::graph_wf(g),
        s::symmetric(g.edges),
        u < g.nodes.len(),
        w::neighbours(g, u as int).contains(v),
    ensures
        v < g.nodes.len(),
        w::neighbours(g, v as int).contains(u),
{
    w::lemma_neighbours(g, u as int);
    let k = choose|k: int|
        0 <= k < w::neighbours(g, u as int).len() && w::neighbours(g, u as int)[k] == v;
    assert(w::neighbours(g, u as int)[k] < g.nodes.len());
    lemma_neighbours_linked(g, u as int, v);
    lemma_neighbours_linked(g, v as int, u);
    assert(s::linked(g.edges, u as int, v as int));
}

/// Some chain touches `u` towards `v`.
spec fn covered(chains: Seq<ChainView>, u: u32, v: u32) -> bool {
    exists|i: int| 0 <= i < chains.len() && touches(#[trigger] chains[i], u, v)
}

proof fn lemma_covered_grows(a: Seq<ChainView>, b: Seq<ChainView>, u: u32, v: u32)
    requires
        covered(a, u, v),
        a.is_prefix_of(b),
    ensures
        covered(b, u, v),
{
    let i = choose|i: int| 0 <= i < a.len() && touches(#[trigger] a[i], u, v);
    assert(b[i] == a[i]);
}

proof fn lemma_chains_at_found(
    g: GraphView,
    protected: Seq<bool>,
    start: u32,
    found: Found,
    n: int,
)
    requires
        s::graph_wf(g),
        s::symmetric(g.edges),
        start < g.nodes.len(),
        !w::contractable(g, protected, start as int),
        0 <= n <= w::neighbours(g, start as int).len(),
        found_ok(g, protected, found),
    ensures
        found_ok(g, protected, w::chains_at(g, protected, start, found, n)),
        found.chains.is_prefix_of(w::chains_at(g, protected, start, found, n).chains),
        forall|m: int|
            0 <= m < n && w::contractable(
                g,
                protected,
                #[trigger] w::neighbours(g, start as int)[m] as int,
            ) ==> covered(
                w::chains_at(g, protected, start, found, n).chains,
                start,
                w::neighbours(g, start as int)[m],
            ),
    decreases n,
{
    if n > 0 {
        lemma_chains_at_found(g, protected, start, found, n - 1);
        let before = w::chains_at(g, protected, start, found, n - 1);
        let after = w::chains_at(g, protected, start, found, n);
        let ns = w::neighbours(g, start as int);
        let next = ns[n - 1];
        assert(ns.contains(next));
        lemma_mutual(g, start, next);
        if w::contractable(g, protected, next as int) && !before.marks[next as int] {
            let c = w::chain_from(g, protected, start, next);
            lemma_chain_ok(g, protected, start, next);
            assert(after.chains == before.chains.push(c));
            assert(after.marks.len() == g.nodes.len()) by {
                lemma_marked(before.marks, c.nodes, c.nodes.len() as int, 0);
            }
            assert forall|v: int| 0 <= v < after.marks.len() && #[trigger]
                after.marks[v] implies on_chain(after.chains, v as u32) by {
                lemma_marked(before.marks, c.nodes, c.nodes.len() as int, v);
                if before.marks[v] {
                    let i = choose|i: int|
                        0 <= i < before.chains.len() && (#[trigger] before.chains[i]).nodes.contains(
                            v as u32,
                        );
                    assert(after.chains[i] == before.chains[i]);
                } else {
                    assert(after.chains[before.chains.len() as int] == c);
                }
            }
            assert forall|i: int| 0 <= i < after.chains.len() implies chain_ok(
                g,
                protected,
                #[trigger] after.chains[i],
            ) by {
                if i < before.chains.len() {
                    assert(after.chains[i] == before.chains[i]);
                }
            }
            assert(touches(after.chains[before.chains.len() as int], start, next));
        } else if w::contractable(g, protected, next as int) {
            assert(on_chain(before.chains, next));
            let i = choose|i: int|
                0 <= i < before.chains.len() && (#[trigger] before.chains[i]).nodes.contains(next);
            assert(chain_ok(g, protected, before.chains[i]));
            lemma_touches(g, protected, before.chains[i], start, next);
        }
        assert(before.chains.is_prefix_of(after.chains));
        assert forall|m: int|
            0 <= m < n && w::contractable(g, protected, #[trigger] ns[m] as int) implies covered(
            after.chains,
            start,
            ns[m],
        ) by {
            if m < n - 1 {
                lemma_covered_grows(before.chains, after.chains, start, ns[m]);
            }
        }
    }
}

proof fn lemma_chains_found(g: GraphView, protected: Seq<bool>, n: int, u: u32, v: u32)
    requires
        s::graph_wf(g),
        s::symmetric(g.edges),
        0 <= n <= g.nodes.len(),
    ensures
        found_ok(g, protected, w::chains_of(g, protected, n)),
        u < n && !w::contractable(g, protected, u as int) && w::neighbours(
            g,
            u as int,
        ).contains(v) && w::contractable(g, protected, v as int) ==> covered(
            w::chains_of(g, protected, n).chains,
            u,
            v,
        ),
    decreases n,
{
    if n > 0 {
        lemma_chains_found(g, protected, n - 1, u, v);
        if !w::contractable(g, protected, n - 1) {
            let before = w::chains_of(g, protected, n - 1);
            let ns = w::neighbours(g, n - 1);
            lemma_chains_at_found(g, protected, (n - 1) as u32, before, ns.len() as int);
            let after = w::chains_of(g, protected, n);
            if u < n - 1 && covered(before.chains, u, v) {
                lemma_covered_grows(before.chains, after.chains, u, v);
            }
            if u == n - 1 && ns.contains(v) {
                let m = choose|m: int| 0 <= m < ns.len() && ns[m] == v;
                assert(w::contractable(g, protected, ns[m] as int) ==> covered(
                    after.chains,
                    u,
                    ns[m],
                ));
            }
        }
    }
}

/// A row of nodes, or the same row from its other end.
spec fn turned(nodes: Seq<u32>, back: bool) -> Seq<u32> {
    if back {
        nodes.reverse()
    } else {
        nodes
    }
}

/// A chain between kept nodes gives an edge at either end.
proof fn lemma_chain_edge_found(
    g: GraphView,
    protected: Seq<bool>,
    chains: Seq<ChainView>,
    u: u32,
    n: int,
    i: int,
    back: bool,
)
    requires
        s::graph_wf(g),
        s::symmetric(g.edges),
        chains_sound(g, chains),
        0 <= i < n <= chains.len(),
        w::kept_nodes(g, protected)[chains[i].nodes[0] as int],
        w::kept_nodes(g, protected)[chains[i].nodes.last() as int],
        turned(chains[i].nodes, back)[0] == u,
    ensures
        exists|k: int|
            0 <= k < w::chain_edges(g, protected, chains, u, n).len() && stands_for(
                g,
                w::kept_nodes(g, protected),
                u,
                #[trigger] w::chain_edges(g, protected, chains, u, n)[k],
                turned(chains[i].nodes, back),
            ),
    decreases n,
{
    let keep = w::kept_nodes(g, protected);
    let front = w::chain_edges(g, protected, chains, u, n - 1);
    let all = w::chain_edges(g, protected, chains, u, n);
    if i < n - 1 {
        lemma_chain_edge_found(g, protected, chains, u, n - 1, i, back);
        let k = choose|k: int|
            0 <= k < front.len() && stands_for(
                g,
                keep,
                u,
                #[trigger] front[k],
                turned(chains[i].nodes, back),
            );
        assert(all[k] == front[k]);
    } else {
        let c = chains[i];
        assert(chain_sound(g, c));
        lemma_row_length(g, c.nodes);
        if back {
            let rev = c.nodes.reverse();
            lemma_reversed_along(g, c.nodes);
            lemma_length_reversed(g, c.nodes);
            assert(w::inner_points(g, c).reverse() =~= w::points_of(
                g,
                rev.subrange(1, rev.len() - 1),
            ));
            assert(rev[0] == c.nodes.last());
            assert(rev.last() == c.nodes[0]);
            assert(stands_for(g, keep, u, all[all.len() - 1], rev));
        } else {
            assert(stands_for(g, keep, u, all[front.len() as int], c.nodes));
        }
    }
}

proof fn lemma_direct_edge_found(
    g: GraphView,
    protected: Seq<bool>,
    u: u32,
    n: int,
    m: int,
)
    requires
        s::graph_wf(g),
        u < g.nodes.len(),
        0 <= m < n <= w::neighbours(g, u as int).len(),
        !w::contractable(g, protected, w::neighbours(g, u as int)[m] as int),
    ensures
        exists|k: int|
            0 <= k < w::direct_edges(g, protected, u, n).len() && stands_for(
                g,
                w::kept_nodes(g, protected),
                u,
                #[trigger] w::direct_edges(g, protected, u, n)[k],
                seq![u, w::neighbours(g, u as int)[m]],
            ),
    decreases n,
{
    let keep = w::kept_nodes(g, protected);
    let front = w::direct_edges(g, protected, u, n - 1);
    let all = w::direct_edges(g, protected, u, n);
    let to = w::neighbours(g, u as int)[m];
    let nodes = seq![u, to];
    if m < n - 1 {
        lemma_direct_edge_found(g, protected, u, n - 1, m);
        let k = choose|k: int|
            0 <= k < front.len() && stands_for(g, keep, u, #[trigger] front[k], nodes);
        assert(all[k] == front[k]);
    } else {
        w::lemma_neighbours(g, u as int);
        assert(nodes.drop_last() =~= seq![u]);
        assert(row_length(g, seq![u]) == 0);
        assert(row_length(g, nodes) == w::link_dist(g, u, to));
        assert(w::neighbours(g, u as int).contains(to));
        assert forall|i: int| 0 <= i < nodes.len() - 1 implies #[trigger] adjacent(
            g,
            nodes,
            i,
        ) by {
            assert(i == 0);
        }
        assert(w::points_of(g, nodes.subrange(1, 1)) =~= Seq::<(u64, u64)>::empty());
        assert(stands_for(g, keep, u, all[front.len() as int], nodes));
    }
}

/// Some edge of `u` in the contracted network stands for a row of nodes.
pub open spec fn kept_as_edge(
    g: GraphView,
    protected: Seq<bool>,
    u: u32,
    nodes: Seq<u32>,
) -> bool {
    let keep = w::kept_nodes(g, protected);
    let es = w::contracted(g, protected).edges[s::kept_before(keep, u as int)];
    exists|k: int| 0 <= k < es.len() && stands_for(g, keep, u, #[trigger] es[k], nodes)
}

/// The edges of a kept node in the contracted network.
proof fn lemma_edges_at(g: GraphView, protected: Seq<bool>, u: u32)
    requires
        u < g.nodes.len(),
        w::kept_nodes(g, protected)[u as int],
    ensures
        ({
            let chains = w::chains_of(g, protected, g.nodes.len() as int).chains;
            let at = s::kept_before(w::kept_nodes(g, protected), u as int);
            &&& 0 <= at < w::contracted(g, protected).edges.len()
            &&& w::contracted(g, protected).edges[at] == w::direct_edges(
                g,
                protected,
                u,
                w::neighbours(g, u as int).len() as int,
            ) + w::chain_edges(g, protected, chains, u, chains.len() as int)
        }),
{
    let n = g.nodes.len() as int;
    let chains = w::chains_of(g, protected, n).chains;
    let lists = Seq::new(g.nodes.len(), |v: int| w::new_edges(g, protected, chains, v));
    s::lemma_kept_at(lists, w::kept_nodes(g, protected), n, u as int);
}

proof fn lemma_chain_is_edge(g: GraphView, protected: Seq<bool>, i: int, back: bool, u: u32)
    requires
        s::graph_wf(g),
        s::symmetric(g.edges),
        0 <= i < w::chains_of(g, protected, g.nodes.len() as int).chains.len(),
        turned(w::chains_of(g, protected, g.nodes.len() as int).chains[i].nodes, back)[0] == u,
    ensures
        kept_as_edge(
            g,
            protected,
            u,
            turned(w::chains_of(g, protected, g.nodes.len() as int).chains[i].nodes, back),
        ),
{
    let n = g.nodes.len() as int;
    let chains = w::chains_of(g, protected, n).chains;
    let c = chains[i];
    lemma_chains_found(g, protected, n, 0, 0);
    lemma_chains_sound(g, protected, n);
    assert(chain_ok(g, protected, c));
    assert(c.nodes[0] < n && c.nodes[c.nodes.len() - 1] < n);
    lemma_chain_edge_found(g, protected, chains, u, chains.len() as int, i, back);
    lemma_edges_at(g, protected, u);
    let keep = w::kept_nodes(g, protected);
    let direct = w::direct_edges(
        g,
        protected,
        u,
        w::neighbours(g, u as int).len() as int,
    );
    let along = w::chain_edges(g, protected, chains, u, chains.len() as int);
    let k = choose|k: int|
        0 <= k < along.len() && stands_for(
            g,
            keep,
            u,
            #[trigger] along[k],
            turned(c.nodes, back),
        );
    let es = w::contracted(g, protected).edges[s::kept_before(keep, u as int)];
    assert(es[direct.len() + k] == along[k]);
}

/// Where every edge leads both ways, every way out of a kept node is kept: for a neighbour that is
/// kept some edge stands for the step there, and for a neighbour that is not, some edge stands for
/// a row that begins with it.
pub proof fn ways_out_are_kept(g: GraphView, protected: Seq<bool>, u: u32, v: u32)
    requires
        s::graph_wf(g),
        s::symmetric(g.edges),
        u < g.nodes.len(),
        w::kept_nodes(g, protected)[u as int],
        w::neighbours(g, u as int).contains(v),
    ensures
        exists|nodes: Seq<u32>| #[trigger]
            kept_as_edge(g, protected, u, nodes) && if w::contractable(g, protected, v as int) {
                nodes[1] == v
            } else {
                nodes == seq![u, v]
            },
{
    let n = g.nodes.len() as int;
    let keep = w::kept_nodes(g, protected);
    let chains = w::chains_of(g, protected, n).chains;
    lemma_mutual(g, u, v);
    lemma_chains_found(g, protected, n, u, v);
    if w::contractable(g, protected, v as int) {
        let i = choose|i: int| 0 <= i < chains.len() && touches(#[trigger] chains[i], u, v);
        let c = chains[i];
        assert(chain_ok(g, protected, c));
        let back = !(c.nodes[0] == u && c.nodes[1] == v);
        let nodes = turned(c.nodes, back);
        assert(nodes[0] == u && nodes[1] == v);
        lemma_chain_is_edge(g, protected, i, back, u);
        assert(kept_as_edge(g, protected, u, nodes));
    } else {
        let ns = w::neighbours(g, u as int);
        let m = choose|m: int| 0 <= m < ns.len() && ns[m] == v;
        let nodes = seq![u, v];
        lemma_direct_edge_found(g, protected, u, ns.len() as int, m);
        lemma_edges_at(g, protected, u);
        let direct = w::direct_edges(g, protected, u, ns.len() as int);
        let k = choose|k: int|
            0 <= k < direct.len() && stands_for(g, keep, u, #[trigger] direct[k], nodes);
        let es = w::contracted(g, protected).edges[s::kept_before(keep, u as int)];
        assert(es[k] == direct[k]);
        assert(kept_as_edge(g, protected, u, nodes));
    }
}

/// Where every edge leads both ways, every edge of the contracted network has a mirror: an edge
/// back, of the same length, with its points in reverse.
pub proof fn edges_have_mirrors(g: GraphView, protected: Seq<bool>, u: u32, k: int)
    requires
        s::graph_wf(g),
        s::symmetric(g.edges),
        u < g.nodes.len(),
        w::kept_nodes(g, protected)[u as int],
        0 <= k < w::contracted(g, protected).edges[s::kept_before(
            w::kept_nodes(g, protected),
            u as int,
        )].len(),
    ensures
        ({
            let edges = w::contracted(g, protected).edges;
            let at = s::kept_before(w::kept_nodes(g, protected), u as int);
            let e = edges[at][k];
            &&& e.to < edges.len()
            &&& exists|m: int|
                0 <= m < edges[e.to as int].len() && is_mirror(
                    #[trigger] edges[e.to as int][m],
                    e,
                    at,
                )
        }),
{
    let keep = w::kept_nodes(g, protected);
    let n = g.nodes.len() as int;
    let chains = w::chains_of(g, protected, n).chains;
    let edges = w::contracted(g, protected).edges;
    let at = s::kept_before(keep, u as int);
    let e = edges[at][k];
    let count = w::neighbours(g, u as int).len() as int;
    let direct = w::direct_edges(g, protected, u, count);
    let along = w::chain_edges(g, protected, chains, u, chains.len() as int);
    lemma_edges_at(g, protected, u);
    lemma_chains_sound(g, protected, n);
    let nodes = if k < direct.len() {
        assert(e == direct[k]);
        let v = lemma_direct_edges(g, protected, u, count, k);
        lemma_mutual(g, u, v);
        ways_out_are_kept(g, protected, v, u);
        assert(seq![u, v].reverse() =~= seq![v, u]);
        seq![u, v]
    } else {
        assert(e == along[k - direct.len()]);
        let (i, back) = lemma_chain_edges(
            g,
            protected,
            chains,
            u,
            chains.len() as int,
            k - direct.len(),
        );
        let nodes = turned(chains[i].nodes, back);
        assert(turned(chains[i].nodes, !back) =~= nodes.reverse());
        assert(nodes.reverse()[0] == nodes.last());
        lemma_chain_is_edge(g, protected, i, !back, nodes.last());
        nodes
    };
    let v = nodes.last();
    let back = nodes.reverse();
    assert(nodes[nodes.len() - 1] < n);
    assert(kept_as_edge(g, protected, v, back));
    lemma_edges_at(g, protected, v);
    s::lemma_kept_len(g.nodes, keep, n);
    s::lemma_kept_at(g.nodes, keep, n, v as int);
    s::lemma_kept_at(g.nodes, keep, n, u as int);
    lemma_length_reversed(g, nodes);
    let es = edges[s::kept_before(keep, v as int)];
    let m = choose|m: int| 0 <= m < es.len() && stands_for(g, keep, v, #[trigger] es[m], back);
    assert(back.last() == u);
    assert(w::points_of(g, back.subrange(1, back.len() - 1)) =~= w::points_of(
        g,
        nodes.subrange(1, nodes.len() - 1),
    ).reverse());
    assert(is_mirror(edges[e.to as int][m], e, at));
}

/// The edge leads back to node `at`, over the length of another and through its points in reverse.
pub open spec fn is_mirror(back: EdgeView, e: EdgeView, at: int) -> bool {
    back.to == at && back.dist == e.dist && back.geometry == e.geometry.reverse()
}

/// `n` edges in a row lead from one node to another, over a distance.
pub open spec fn leads_over(edges: Seq<Seq<EdgeView>>, a: int, b: int, n: nat, dist: int) -> bool
    decreases n,
{
    if n == 0 {
        a == b && dist == 0
    } else {
        exists|k: int|
            0 <= k < edges[a].len() && leads_over(
                edges,
                (#[trigger] edges[a][k]).to as int,
                b,
                (n - 1) as nat,
                dist - edges[a][k].dist,
            )
    }
}

/// Edges lead from one node to another over a distance of at most `dist`.
pub open spec fn within(edges: Seq<Seq<EdgeView>>, a: int, b: int, dist: int) -> bool {
    exists|n: nat, d: int| #[trigger] leads_over(edges, a, b, n, d) && d <= dist
}

/// A way along streets, node by node.
pub open spec fn street_way(g: GraphView, nodes: Seq<u32>) -> bool {
    &&& nodes.len() >= 1
    &&& forall|i: int| 0 <= i < nodes.len() ==> #[trigger] nodes[i] < g.nodes.len()
    &&& forall|i: int| 0 <= i < nodes.len() - 1 ==> #[trigger] adjacent(g, nodes, i)
}

/// A row is as long as its two parts.
proof fn lemma_length_split(g: GraphView, r: Seq<u32>, j: int)
    requires
        0 <= j < r.len(),
    ensures
        row_length(g, r) == row_length(g, r.take(j + 1)) + row_length(g, r.skip(j)),
    decreases r.len() - j,
{
    if j == r.len() - 1 {
        assert(r.take(j + 1) =~= r);
        assert(r.skip(j).len() == 1);
    } else {
        lemma_length_split(g, r, j + 1);
        assert(r.take(j + 2).drop_last() =~= r.take(j + 1));
        assert(r.take(j + 2)[j] == r[j] && r.take(j + 2).last() == r[j + 1]);
        lemma_length_cons(g, r[j], r.skip(j + 1));
        assert(seq![r[j]] + r.skip(j + 1) =~= r.skip(j));
        assert(r.skip(j + 1)[0] == r[j + 1]);
    }
}

/// Length of a chain up to a position.
spec fn up_to(g: GraphView, c: ChainView, pos: int) -> int {
    row_length(g, c.nodes.take(pos + 1))
}

proof fn lemma_up_to(g: GraphView, c: ChainView, pos: int)
    requires
        0 <= pos < c.nodes.len() - 1,
    ensures
        up_to(g, c, pos + 1) == up_to(g, c, pos) + w::link_dist(g, c.nodes[pos], c.nodes[pos + 1]),
{
    let r = c.nodes.take(pos + 2);
    assert(r.drop_last() =~= c.nodes.take(pos + 1));
    assert(r[pos] == c.nodes[pos] && r.last() == c.nodes[pos + 1]);
}

/// A way that is inside a chain comes to one of its ends, if it comes to a kept node, and covers at
/// least what is between.
proof fn lemma_leaves_chain(
    g: GraphView,
    protected: Seq<bool>,
    c: ChainView,
    way: Seq<u32>,
    i: int,
    pos: int,
) -> (r: (int, bool))
    requires
        s::graph_wf(g),
        s::symmetric(g.edges),
        chain_ok(g, protected, c),
        street_way(g, way),
        !w::contractable(g, protected, way.last() as int),
        0 <= i < way.len(),
        1 <= pos < c.nodes.len() - 1,
        way[i] == c.nodes[pos],
    ensures
        i < r.0 < way.len(),
        r.1 ==> way[r.0] == c.nodes.last() && row_length(g, way.subrange(i, r.0 + 1)) >= up_to(
            g,
            c,
            c.nodes.len() - 1,
        ) - up_to(g, c, pos),
        !r.1 ==> way[r.0] == c.nodes[0] && row_length(g, way.subrange(i, r.0 + 1)) >= up_to(
            g,
            c,
            pos,
        ),
    decreases way.len() - i,
{
    assert(step_ok(g, protected, c.nodes, pos));
    assert(i < way.len() - 1);
    assert(adjacent(g, way, i));
    lemma_inner_node(g, protected, c, pos, way[i + 1]);
    let to = if way[i + 1] == c.nodes[pos - 1] {
        pos - 1
    } else {
        pos + 1
    };
    lemma_up_to(g, c, pos);
    lemma_up_to(g, c, pos - 1);
    assert(c.nodes.take(1).len() == 1);
    assert(up_to(g, c, 0) == 0);
    let step = way.subrange(i, i + 2);
    assert(step.drop_last().len() == 1);
    assert(row_length(g, step.drop_last()) == 0);
    assert(step[step.len() - 2] == way[i]);
    assert(step[0] == way[i] && step.last() == way[i + 1]);
    assert(row_length(g, step) == w::link_dist(g, way[i], way[i + 1]));
    if to == 0 {
        (i + 1, false)
    } else if to == c.nodes.len() - 1 {
        (i + 1, true)
    } else {
        let (j, far) = lemma_leaves_chain(g, protected, c, way, i + 1, to);
        lemma_length_cons(g, way[i], way.subrange(i + 1, j + 1));
        assert(seq![way[i]] + way.subrange(i + 1, j + 1) =~= way.subrange(i, j + 1));
        assert(way.subrange(i + 1, j + 1)[0] == way[i + 1]);
        (j, far)
    }
}

/// An edge of the contracted network is one step there.
proof fn lemma_edge_leads(
    g: GraphView,
    protected: Seq<bool>,
    u: u32,
    nodes: Seq<u32>,
    b: int,
    rest: int,
)
    requires
        s::graph_wf(g),
        u < g.nodes.len(),
        kept_as_edge(g, protected, u, nodes),
        within(
            w::contracted(g, protected).edges,
            s::kept_before(w::kept_nodes(g, protected), nodes.last() as int),
            b,
            rest,
        ),
    ensures
        within(
            w::contracted(g, protected).edges,
            s::kept_before(w::kept_nodes(g, protected), u as int),
            b,
            row_length(g, nodes) + rest,
        ),
{
    let keep = w::kept_nodes(g, protected);
    let edges = w::contracted(g, protected).edges;
    let a = s::kept_before(keep, u as int);
    let es = edges[a];
    let k = choose|k: int| 0 <= k < es.len() && stands_for(g, keep, u, #[trigger] es[k], nodes);
    assert(nodes[nodes.len() - 1] < g.nodes.len());
    s::lemma_kept_at(g.nodes, keep, g.nodes.len() as int, nodes.last() as int);
    s::lemma_kept_len(g.nodes, keep, g.nodes.len() as int);
    let mid = s::kept_before(keep, nodes.last() as int);
    assert(es[k].to == mid);
    let (n, d) = choose|n: nat, d: int| #[trigger] leads_over(edges, mid, b, n, d) && d <= rest;
    assert(edges[a][k].to as int == mid);
    assert(leads_over(edges, a, b, n + 1, d + edges[a][k].dist));
}

/// Where every edge leads both ways, contraction makes no way longer: from one kept node to another
/// edges of the contracted network lead over at most the length of any way along streets.
pub proof fn ways_get_no_longer(g: GraphView, protected: Seq<bool>, way: Seq<u32>)
    requires
        s::graph_wf(g),
        s::symmetric(g.edges),
        street_way(g, way),
        w::kept_nodes(g, protected)[way[0] as int],
        w::kept_nodes(g, protected)[way.last() as int],
    ensures
        within(
            w::contracted(g, protected).edges,
            s::kept_before(w::kept_nodes(g, protected), way[0] as int),
            s::kept_before(w::kept_nodes(g, protected), way.last() as int),
            row_length(g, way),
        ),
    decreases way.len(),
{
    let keep = w::kept_nodes(g, protected);
    let edges = w::contracted(g, protected).edges;
    let u = way[0];
    let a = s::kept_before(keep, u as int);
    let b = s::kept_before(keep, way.last() as int);
    assert(u < g.nodes.len());
    if way.len() == 1 {
        assert(leads_over(edges, a, b, 0, 0));
    } else {
        let v = way[1];
        assert(v < g.nodes.len());
        assert(adjacent(g, way, 0));
        if !w::contractable(g, protected, v as int) {
            ways_out_are_kept(g, protected, u, v);
            let nodes = seq![u, v];
            assert(kept_as_edge(g, protected, u, nodes));
            lemma_way_rest(g, way, 1);
            ways_get_no_longer(g, protected, way.skip(1));
            lemma_length_split(g, way, 1);
            assert(way.take(2) =~= nodes);
            lemma_edge_leads(g, protected, u, nodes, b, row_length(g, way.skip(1)));
        } else {
            let n = g.nodes.len() as int;
            let chains = w::chains_of(g, protected, n).chains;
            lemma_chains_found(g, protected, n, u, v);
            let i = choose|i: int| 0 <= i < chains.len() && touches(#[trigger] chains[i], u, v);
            let c = chains[i];
            assert(chain_ok(g, protected, c));
            let len = c.nodes.len() as int;
            let back = !(c.nodes[0] == u && c.nodes[1] == v);
            let pos = if back {
                len - 2
            } else {
                1
            };
            let (j, far) = lemma_leaves_chain(g, protected, c, way, 1, pos);
            assert(c.nodes[0] < n && c.nodes[len - 1] < n);
            lemma_way_rest(g, way, j);
            ways_get_no_longer(g, protected, way.skip(j));
            // the way up to there
            lemma_length_split(g, way, j);
            lemma_length_cons(g, u, way.subrange(1, j + 1));
            assert(seq![u] + way.subrange(1, j + 1) =~= way.take(j + 1));
            assert(way.subrange(1, j + 1)[0] == v);
            lemma_row_length(g, way.subrange(1, j + 1));
            let rest = row_length(g, way.skip(j));
            if way[j] == u {
                let (m, d) = choose|m: nat, d: int| #[trigger]
                    leads_over(edges, a, b, m, d) && d <= rest;
                assert(leads_over(edges, a, b, m, d));
            } else {
                lemma_chain_is_edge(g, protected, i, back, u);
                let nodes = turned(c.nodes, back);
                assert(nodes.last() == way[j]);
                lemma_up_to(g, c, 0);
                lemma_up_to(g, c, len - 2);
                assert(c.nodes.take(1).len() == 1);
                assert(c.nodes.take(len) =~= c.nodes);
                lemma_length_reversed(g, c.nodes);
                assert(row_length(g, nodes) <= row_length(g, way.take(j + 1)));
                lemma_edge_leads(g, protected, u, nodes, b, rest);
                let (m, d) = choose|m: nat, d: int| #[trigger]
                    leads_over(edges, a, b, m, d) && d <= row_length(g, nodes) + rest;
                assert(leads_over(edges, a, b, m, d));
            }
        }
    }
}

/// The rest of a way is a way.
proof fn lemma_way_rest(g: GraphView, way: Seq<u32>, j: int)
    requires
        street_way(g, way),
        0 <= j < way.len(),
    ensures
        street_way(g, way.skip(j)),
        way.skip(j)[0] == way[j],
        way.skip(j).last() == way.last(),
{
    let rest = way.skip(j);
    assert forall|i: int| 0 <= i < rest.len() implies #[trigger] rest[i] < g.nodes.len() by {
        assert(rest[i] == way[i + j]);
    }
    assert forall|i: int| 0 <= i < rest.len() - 1 implies #[trigger] adjacent(g, rest, i) by {
        assert(adjacent(g, way, i + j));
    }
}

/// No edge is as long as its two bytes can tell, so that all lengths are exact.
pub open spec fn lengths_exact(edges: Seq<Seq<EdgeView>>) -> bool {
    forall|u: int, k: int|
        0 <= u < edges.len() && 0 <= k < edges[u].len() ==> (#[trigger] edges[u][k]).dist < u16::MAX
}

/// The way runs from `u` along streets to the node with number `b`, over a distance.
pub open spec fn way_between(
    g: GraphView,
    protected: Seq<bool>,
    way: Seq<u32>,
    u: u32,
    b: int,
    dist: int,
) -> bool {
    let keep = w::kept_nodes(g, protected);
    &&& street_way(g, way)
    &&& way[0] == u
    &&& keep[way.last() as int]
    &&& s::kept_before(keep, way.last() as int) == b
    &&& row_length(g, way) == dist
}

/// Where every edge leads both ways and lengths are exact, contraction makes no way shorter:
/// wherever edges of the contracted network lead, a way along streets leads over the same distance.
pub proof fn ways_get_no_shorter(
    g: GraphView,
    protected: Seq<bool>,
    u: u32,
    b: int,
    n: nat,
    dist: int,
)
    requires
        s::graph_wf(g),
        s::symmetric(g.edges),
        lengths_exact(w::contracted(g, protected).edges),
        u < g.nodes.len(),
        w::kept_nodes(g, protected)[u as int],
        leads_over(
            w::contracted(g, protected).edges,
            s::kept_before(w::kept_nodes(g, protected), u as int),
            b,
            n,
            dist,
        ),
    ensures
        exists|way: Seq<u32>| #[trigger] way_between(g, protected, way, u, b, dist),
    decreases n,
{
    let keep = w::kept_nodes(g, protected);
    let edges = w::contracted(g, protected).edges;
    let a = s::kept_before(keep, u as int);
    if n == 0 {
        assert(way_between(g, protected, seq![u], u, b, dist));
    } else {
        let k = choose|k: int|
            0 <= k < edges[a].len() && leads_over(
                edges,
                (#[trigger] edges[a][k]).to as int,
                b,
                (n - 1) as nat,
                dist - edges[a][k].dist,
            );
        contracted_edges_run_along_streets(g, protected, u as int, k);
        let e = edges[a][k];
        let nodes = choose|nodes: Seq<u32>| #[trigger] stands_for(g, keep, u, e, nodes);
        lemma_edges_at(g, protected, u);
        assert(e.dist < u16::MAX);
        assert(row_length(g, nodes) == e.dist);
        let v = nodes.last();
        assert(nodes[nodes.len() - 1] < g.nodes.len());
        s::lemma_kept_at(g.nodes, keep, g.nodes.len() as int, v as int);
        s::lemma_kept_len(g.nodes, keep, g.nodes.len() as int);
        assert(e.to == s::kept_before(keep, v as int));
        ways_get_no_shorter(g, protected, v, b, (n - 1) as nat, dist - e.dist);
        let tail = choose|way: Seq<u32>| #[trigger]
            way_between(g, protected, way, v, b, dist - e.dist);
        let way = nodes + tail.skip(1);
        let m = nodes.len() as int;
        assert forall|i: int| 0 <= i < way.len() implies #[trigger] way[i] < g.nodes.len() by {
            if i < m {
                assert(nodes[i] < g.nodes.len());
            } else {
                assert(way[i] == tail[i - m + 1]);
            }
        }
        assert forall|i: int| 0 <= i < way.len() - 1 implies #[trigger] adjacent(g, way, i) by {
            if i < m - 1 {
                assert(adjacent(g, nodes, i));
            } else {
                assert(adjacent(g, tail, i - m + 1));
                assert(way[i] == tail[i - m + 1]);
                assert(way[i + 1] == tail[i - m + 2]);
            }
        }
        assert(way.take(m) =~= nodes);
        assert(way.skip(m - 1) =~= tail);
        lemma_length_split(g, way, m - 1);
        if tail.len() > 1 {
            assert(way.last() == tail.last());
        } else {
            assert(way =~= nodes);
        }
        assert(way_between(g, protected, way, u, b, dist));
    }
}

/// Where edges lead both ways between two nodes, the shortest are as long one way as the other.
pub open spec fn lengths_mirror(g: GraphView) -> bool {
    forall|u: u32, v: u32|
        u < g.nodes.len() && v < g.nodes.len() ==> #[trigger] one_way(g, u, v) == one_way(g, v, u)
}

/// Length of the shortest edge from one node to another.
pub open spec fn one_way(g: GraphView, u: u32, v: u32) -> u16 {
    w::shortest(g.edges[u as int], v, g.edges[u as int].len() as int)
}

proof fn lemma_shortest(es: Seq<EdgeView>, to: u32, n: int)
    requires
        0 <= n <= es.len(),
    ensures
        forall|k: int| 0 <= k < n && (#[trigger] es[k]).to == to ==> w::shortest(es, to, n) <= es[k].dist,
        w::shortest(es, to, n) == u16::MAX || exists|k: int|
            0 <= k < n && (#[trigger] es[k]).to == to && es[k].dist == w::shortest(es, to, n),
    decreases n,
{
    if n > 0 {
        lemma_shortest(es, to, n - 1);
        let m = w::shortest(es, to, n - 1);
        if !(es[n - 1].to == to && es[n - 1].dist < m) && m != u16::MAX {
            let k = choose|k: int| 0 <= k < n - 1 && (#[trigger] es[k]).to == to && es[k].dist == m;
            assert(es[k].dist == w::shortest(es, to, n));
        }
    }
}

/// Edges in a row are a way along streets that is no longer.
proof fn lemma_edges_are_way(g: GraphView, u: u32, v: u32, n: nat, dist: int) -> (way: Seq<u32>)
    requires
        s::graph_wf(g),
        u < g.nodes.len(),
        leads_over(g.edges, u as int, v as int, n, dist),
    ensures
        street_way(g, way),
        way[0] == u,
        way.last() == v,
        row_length(g, way) <= dist,
    decreases n,
{
    if n == 0 {
        seq![u]
    } else {
        let k = choose|k: int|
            0 <= k < g.edges[u as int].len() && leads_over(
                g.edges,
                (#[trigger] g.edges[u as int][k]).to as int,
                v as int,
                (n - 1) as nat,
                dist - g.edges[u as int][k].dist,
            );
        let e = g.edges[u as int][k];
        let rest = lemma_edges_are_way(g, e.to, v, (n - 1) as nat, dist - e.dist);
        let way = seq![u] + rest;
        lemma_length_cons(g, u, rest);
        lemma_shortest(g.edges[u as int], e.to, g.edges[u as int].len() as int);
        assert(w::link_dist(g, u, e.to) <= e.dist);
        assert forall|i: int| 0 <= i < way.len() implies #[trigger] way[i] < g.nodes.len() by {
            if i > 0 {
                assert(way[i] == rest[i - 1]);
            }
        }
        assert forall|i: int| 0 <= i < way.len() - 1 implies #[trigger] adjacent(g, way, i) by {
            if i == 0 {
                assert(s::linked(g.edges, u as int, e.to as int));
                lemma_neighbours_linked(g, u as int, e.to);
            } else {
                assert(adjacent(g, rest, i - 1));
            }
        }
        way
    }
}

/// A way along streets is a row of edges over its length.
proof fn lemma_way_is_edges(g: GraphView, way: Seq<u32>)
    requires
        s::graph_wf(g),
        lengths_mirror(g),
        street_way(g, way),
    ensures
        leads_over(
            g.edges,
            way[0] as int,
            way.last() as int,
            (way.len() - 1) as nat,
            row_length(g, way),
        ),
    decreases way.len(),
{
    if way.len() > 1 {
        let u = way[0];
        let v = way[1];
        assert(u < g.nodes.len() && v < g.nodes.len());
        let rest = way.skip(1);
        lemma_way_rest(g, way, 1);
        lemma_way_is_edges(g, rest);
        lemma_length_cons(g, u, rest);
        assert(seq![u] + rest =~= way);
        let es = g.edges[u as int];
        lemma_shortest(es, v, es.len() as int);
        assert(one_way(g, u, v) == one_way(g, v, u));
        assert(adjacent(g, way, 0));
        lemma_neighbours_linked(g, u as int, v);
        let k = if one_way(g, u, v) == u16::MAX {
            choose|k: int| 0 <= k < es.len() && (#[trigger] g.edges[u as int][k]).to == v
        } else {
            choose|k: int|
                0 <= k < es.len() && (#[trigger] es[k]).to == v && es[k].dist == w::shortest(
                    es,
                    v,
                    es.len() as int,
                )
        };
        let e = g.edges[u as int][k];
        assert(e.to == v && e.dist == w::link_dist(g, u, v));
        assert(leads_over(
            g.edges,
            e.to as int,
            way.last() as int,
            (way.len() - 2) as nat,
            row_length(g, way) - e.dist,
        ));
    }
}

/// Contraction keeps the distances between the nodes that are kept: one is within a distance of
/// another afterwards if and only if it was before. This is so where edges lead both ways at the
/// same length and none of the new edges is as long as its two bytes can tell.
pub proof fn distances_are_kept(g: GraphView, protected: Seq<bool>, u: u32, v: u32, dist: int)
    requires
        s::graph_wf(g),
        s::symmetric(g.edges),
        lengths_mirror(g),
        lengths_exact(w::contracted(g, protected).edges),
        u < g.nodes.len(),
        v < g.nodes.len(),
        w::kept_nodes(g, protected)[u as int],
        w::kept_nodes(g, protected)[v as int],
    ensures
        within(g.edges, u as int, v as int, dist) <==> within(
            w::contracted(g, protected).edges,
            s::kept_before(w::kept_nodes(g, protected), u as int),
            s::kept_before(w::kept_nodes(g, protected), v as int),
            dist,
        ),
{
    let keep = w::kept_nodes(g, protected);
    let edges = w::contracted(g, protected).edges;
    let a = s::kept_before(keep, u as int);
    let b = s::kept_before(keep, v as int);
    if within(g.edges, u as int, v as int, dist) {
        let (n, d) = choose|n: nat, d: int| #[trigger]
            leads_over(g.edges, u as int, v as int, n, d) && d <= dist;
        let way = lemma_edges_are_way(g, u, v, n, d);
        ways_get_no_longer(g, protected, way);
        let (m, x) = choose|m: nat, x: int| #[trigger]
            leads_over(edges, a, b, m, x) && x <= row_length(g, way);
        assert(leads_over(edges, a, b, m, x) && x <= dist);
    }
    if within(edges, a, b, dist) {
        let (n, d) = choose|n: nat, d: int| #[trigger] leads_over(edges, a, b, n, d) && d <= dist;
        ways_get_no_shorter(g, protected, u, b, n, d);
        let way = choose|way: Seq<u32>| #[trigger] way_between(g, protected, way, u, b, d);
        assert(way[way.len() - 1] < g.nodes.len());
        lemma_kept_apart(keep, way.last() as int, v as int);
        lemma_way_is_edges(g, way);
        assert(leads_over(g.edges, u as int, v as int, (way.len() - 1) as nat, d) && d <= dist);
    }
}

/// Two kept nodes with the same number are the same.
proof fn lemma_kept_apart(keep: Seq<bool>, i: int, j: int)
    requires
        0 <= i < keep.len(),
        0 <= j < keep.len(),
        keep[i],
        keep[j],
        s::kept_before(keep, i) == s::kept_before(keep, j),
    ensures
        i == j,
{
    if i < j {
        lemma_kept_grows(keep, i + 1, j);
    } else if j < i {
        lemma_kept_grows(keep, j + 1, i);
    }
}

proof fn lemma_kept_grows(keep: Seq<bool>, i: int, j: int)
    requires
        0 <= i <= j <= keep.len(),
    ensures
        s::kept_before(keep, i) <= s::kept_before(keep, j),
    decreases j - i,
{
    if i < j {
        lemma_kept_grows(keep, i, j - 1);
    }
}

// ---------------------------------------------------------------------------
// Which nodes are contracted
// ---------------------------------------------------------------------------

/// The edges of a node lead to two other places, and nowhere else.
pub open spec fn joins_two(g: GraphView, u: int) -> bool {
    exists|a: int, b: int|
        0 <= a < b < g.edges[u].len() && (#[trigger] g.edges[u][a]).to != (
        #[trigger] g.edges[u][b]).to && leads_only_to(g, u, g.edges[u][a].to, g.edges[u][b].to)
}

/// Every edge of a node leads to one of two nodes.
pub open spec fn leads_only_to(g: GraphView, u: int, v: u32, w: u32) -> bool {
    forall|k: int|
        0 <= k < g.edges[u].len() ==> (#[trigger] g.edges[u][k]).to == v || g.edges[u][k].to == w
}

proof fn lemma_targets_differ(es: Seq<EdgeView>, n: int)
    ensures
        w::targets(es, n).no_duplicates(),
    decreases n,
{
    if n > 0 {
        lemma_targets_differ(es, n - 1);
    }
}

proof fn lemma_joins_two(g: GraphView, u: int)
    ensures
        w::neighbours(g, u).len() == 2 <==> joins_two(g, u),
{
    let es = g.edges[u];
    let ns = w::neighbours(g, u);
    let n = es.len() as int;
    lemma_targets_differ(es, n);
    if ns.len() == 2 {
        lemma_targets_linked(es, n, ns[0]);
        lemma_targets_linked(es, n, ns[1]);
        assert(ns.contains(ns[0]) && ns.contains(ns[1]));
        let a = choose|a: int| 0 <= a < n && (#[trigger] es[a]).to == ns[0];
        let b = choose|b: int| 0 <= b < n && (#[trigger] es[b]).to == ns[1];
        assert forall|k: int| 0 <= k < n implies (#[trigger] es[k]).to == ns[0] || es[k].to
            == ns[1] by {
            lemma_targets_linked(es, n, es[k].to);
            assert(ns.contains(es[k].to));
        }
        if a < b {
            assert(leads_only_to(g, u, g.edges[u][a].to, g.edges[u][b].to));
        } else {
            assert(leads_only_to(g, u, g.edges[u][b].to, g.edges[u][a].to));
        }
    }
    if joins_two(g, u) {
        let (a, b) = choose|a: int, b: int|
            0 <= a < b < g.edges[u].len() && (#[trigger] g.edges[u][a]).to != (
            #[trigger] g.edges[u][b]).to && leads_only_to(
                g,
                u,
                g.edges[u][a].to,
                g.edges[u][b].to,
            );
        let v = es[a].to;
        let x = es[b].to;
        lemma_targets_linked(es, n, v);
        lemma_targets_linked(es, n, x);
        let p = choose|p: int| 0 <= p < ns.len() && ns[p] == v;
        let q = choose|q: int| 0 <= q < ns.len() && ns[q] == x;
        if ns.len() > 2 {
            let r: int = if p != 0 && q != 0 {
                0
            } else if p != 1 && q != 1 {
                1
            } else {
                2
            };
            lemma_targets_linked(es, n, ns[r]);
            assert(ns.contains(ns[r]));
            let k = choose|k: int| 0 <= k < n && (#[trigger] es[k]).to == ns[r];
            assert(g.edges[u][k].to == v || g.edges[u][k].to == x);
        }
    }
}

/// A node is contracted if it is not protected and only joins two others. Every other node is kept:
/// it lies where it lay, and is on a footway if it was on one.
pub proof fn only_joints_are_contracted(g: GraphView, protected: Seq<bool>, u: int)
    requires
        0 <= u < g.nodes.len(),
        g.pedestrian.len() == g.nodes.len(),
    ensures
        w::kept_nodes(g, protected)[u] <==> protected[u] || !joins_two(g, u),
        protected[u] || !joins_two(g, u) ==> {
            let at = s::kept_before(w::kept_nodes(g, protected), u);
            &&& 0 <= at < w::contracted(g, protected).nodes.len()
            &&& w::contracted(g, protected).nodes[at] == g.nodes[u]
            &&& w::contracted(g, protected).pedestrian[at] == g.pedestrian[u]
        },
{
    lemma_joins_two(g, u);
    let keep = w::kept_nodes(g, protected);
    if keep[u] {
        s::lemma_kept_at(g.nodes, keep, g.nodes.len() as int, u);
        s::lemma_kept_at(g.pedestrian, keep, g.nodes.len() as int, u);
    }
}

/// Every node of the contracted network is one of those that were kept.
pub proof fn contraction_adds_no_nodes(g: GraphView, protected: Seq<bool>, at: int)
    requires
        0 <= at < w::contracted(g, protected).nodes.len(),
    ensures
        exists|u: int|
            0 <= u < g.nodes.len() && (protected[u] || !joins_two(g, u)) && s::kept_before(
                w::kept_nodes(g, protected),
                u,
            ) == at && w::contracted(g, protected).nodes[at] == #[trigger] g.nodes[u],
{
    let keep = w::kept_nodes(g, protected);
    let u = s::lemma_kept_from(g.nodes, keep, g.nodes.len() as int, at);
    lemma_joins_two(g, u);
    assert(g.nodes[u] == w::contracted(g, protected).nodes[at]);
}

proof fn lemma_shortest_edge(es: Seq<EdgeView>, to: u32, n: int)
    requires
        0 <= n <= es.len(),
    ensures
        forall|k: int|
            0 <= k < n && (#[trigger] es[k]).to == to ==> w::shortest(es, to, n) <= es[k].dist,
        w::shortest(es, to, n) == 0xffff || exists|k: int|
            0 <= k < n && (#[trigger] es[k]).to == to && es[k].dist == w::shortest(es, to, n),
    decreases n,
{
    if n > 0 {
        lemma_shortest_edge(es, to, n - 1);
        let m = w::shortest(es, to, n - 1);
        if w::shortest(es, to, n) == m && m != 0xffff {
            let k = choose|k: int| 0 <= k < n - 1 && (#[trigger] es[k]).to == to && es[k].dist == m;
            assert(es[k].dist == m);
        } else if w::shortest(es, to, n) != m {
            assert(es[n - 1].to == to);
        }
    }
}

/// An edge joins two nodes, in one direction or the other, over some metres.
pub open spec fn joined_over(g: GraphView, u: u32, v: u32, metres: u16) -> bool {
    ||| exists|k: int|
        0 <= k < g.edges[u as int].len() && (#[trigger] g.edges[u as int][k]).to == v
            && g.edges[u as int][k].dist == metres
    ||| exists|k: int|
        0 <= k < g.edges[v as int].len() && (#[trigger] g.edges[v as int][k]).to == u
            && g.edges[v as int][k].dist == metres
}

/// Two neighbours are as far apart as the shortest edge between them is long.
pub proof fn neighbours_are_as_near_as_can_be(g: GraphView, u: u32, v: u32, metres: u16)
    ensures
        joined_over(g, u, v, metres) ==> w::link_dist(g, u, v) <= metres,
        w::link_dist(g, u, v) == 0xffff || joined_over(g, u, v, w::link_dist(g, u, v)),
        w::link_dist(g, u, v) == w::link_dist(g, v, u),
{
    let a = g.edges[u as int];
    let b = g.edges[v as int];
    lemma_shortest_edge(a, v, a.len() as int);
    lemma_shortest_edge(b, u, b.len() as int);
    let d = w::link_dist(g, u, v);
    if joined_over(g, u, v, metres) {
        if exists|k: int| 0 <= k < a.len() && (#[trigger] a[k]).to == v && a[k].dist == metres {
            let k = choose|k: int|
                0 <= k < a.len() && (#[trigger] a[k]).to == v && a[k].dist == metres;
            assert(w::shortest(a, v, a.len() as int) <= a[k].dist);
        } else {
            let k = choose|k: int|
                0 <= k < b.len() && (#[trigger] b[k]).to == u && b[k].dist == metres;
            assert(w::shortest(b, u, b.len() as int) <= b[k].dist);
        }
    }
    if d != 0xffff {
        if d == w::shortest(a, v, a.len() as int) {
            let k = choose|k: int| 0 <= k < a.len() && (#[trigger] a[k]).to == v && a[k].dist == d;
            assert(g.edges[u as int][k].dist == d);
        } else {
            let k = choose|k: int| 0 <= k < b.len() && (#[trigger] b[k]).to == u && b[k].dist == d;
            assert(g.edges[v as int][k].dist == d);
        }
    }
}

/// A row of nodes is drawn through the places where they lie, in order.
pub proof fn rows_are_drawn_through_their_nodes(g: GraphView, nodes: Seq<u32>, i: int)
    requires
        0 <= i < nodes.len(),
    ensures
        w::points_of(g, nodes).len() == nodes.len(),
        w::points_of(g, nodes)[i].0 == g.nodes[nodes[i] as int].lat,
        w::points_of(g, nodes)[i].1 == g.nodes[nodes[i] as int].lon,
{
}

} // verus!
