//! Street networks from ways over map nodes.
//!
//! The nodes that ways refer to are numbered in the order of their ids. The caller measures each
//! segment between two of them, and says which nodes are close enough to a stop to be kept.

use crate::feed as f;
use crate::heap as h;
use crate::heap::MinHeap;
use crate::lists;
use crate::osm::{WalkWay, WayView};
use std::collections::HashMap;
use vstd::prelude::*;

verus! {

// ---------------------------------------------------------------------------
// Sorting ids
// ---------------------------------------------------------------------------

/// Each element is greater than those before it.
pub open spec fn ascending(s: Seq<i64>) -> bool {
    forall|i: int, j: int| 0 <= i < j < s.len() ==> #[trigger] s[i] < #[trigger] s[j]
}

spec fn shifted(x: i64) -> int {
    x + 0x8000_0000_0000_0000
}

spec fn pair_of(x: i64) -> (u32, u32) {
    ((shifted(x) / 0x1_0000_0000) as u32, (shifted(x) % 0x1_0000_0000) as u32)
}

fn to_pair(x: i64) -> (r: (u32, u32))
    ensures
        r == pair_of(x),
{
    let v: u64 = (x as i128 + 0x8000_0000_0000_0000) as u64;
    ((v / 0x1_0000_0000) as u32, (v % 0x1_0000_0000) as u32)
}

fn from_pair(p: (u32, u32)) -> (r: i64)
    ensures
        pair_of(r) == p,
{
    let v: i128 = p.0 as i128 * 0x1_0000_0000 + p.1 as i128 - 0x8000_0000_0000_0000;
    v as i64
}

proof fn lemma_pair_order(x: i64, y: i64)
    ensures
        h::pair_le(pair_of(x), pair_of(y)) <==> x <= y,
        pair_of(x) == pair_of(y) <==> x == y,
{
}

/// The ids in ascending order, each once.
pub fn sorted_distinct(ids: &Vec<i64>) -> (r: Vec<i64>)
    ensures
        ascending(r@),
        forall|x: i64| #![trigger r@.contains(x)] #![trigger ids@.contains(x)] r@.contains(x) <==> ids@.contains(x),
{
    let mut heap = MinHeap::new();
    let mut i: usize = 0;
    while i < ids.len()
        invariant
            i <= ids@.len(),
            forall|x: i64|
                heap@.count(#[trigger] pair_of(x)) > 0 <==> ids@.take(i as int).contains(x),
        decreases ids@.len() - i,
    {
        let ghost before = heap@;
        heap.push(to_pair(ids[i]));
        proof {
            let x0 = ids@[i as int];
            assert forall|x: i64|
                heap@.count(#[trigger] pair_of(x)) > 0 <==> ids@.take(i as int + 1).contains(x) by {
                lemma_pair_order(x, x0);
                let s = ids@.take(i as int);
                let s1 = ids@.take(i as int + 1);
                assert(s1 =~= s.push(x0));
                assert(s1[i as int] == x0);
                if s.contains(x) {
                    let k = choose|k: int| 0 <= k < s.len() && s[k] == x;
                    assert(s1[k] == x);
                }
                if s1.contains(x) && x != x0 {
                    let k = choose|k: int| 0 <= k < s1.len() && s1[k] == x;
                    assert(s[k] == x);
                }
            }
        }
        i += 1;
    }
    assert(ids@.take(i as int) =~= ids@);
    let mut out: Vec<i64> = Vec::new();
    loop
        invariant
            ascending(out@),
            forall|x: i64| #[trigger]
                heap@.count(pair_of(x)) > 0 || out@.contains(x) <==> ids@.contains(x),
            forall|x: i64|
                out@.len() > 0 && heap@.count(#[trigger] pair_of(x)) > 0 ==> out@.last() <= x,
        ensures
            heap@.len() == 0,
        decreases heap@.len(),
    {
        let ghost before = heap@;
        let ghost old_out = out@;
        match heap.pop() {
            None => {
                break ;
            },
            Some(p) => {
                let x: i64 = from_pair(p);
                assert(before.count(pair_of(x)) > 0);
                let fresh: bool = out.len() == 0 || out[out.len() - 1] != x;
                if fresh {
                    out.push(x);
                }
                proof {
                    assert(out@.len() > 0 && out@.last() == x);
                    assert(out@[out@.len() - 1] == x);
                    assert forall|y: i64| heap@.count(#[trigger] pair_of(y)) > 0 implies x
                        <= y by {
                        lemma_pair_order(x, y);
                        assert(before.count(pair_of(y)) > 0);
                        assert(h::pair_le(p, pair_of(y)));
                    }
                    assert(ascending(out@)) by {
                        if fresh {
                            assert forall|a: int, b: int|
                                0 <= a < b < out@.len() implies #[trigger] out@[a]
                                < #[trigger] out@[b] by {
                                if b == out@.len() - 1 {
                                    assert(old_out.last() <= x);
                                    assert(old_out[a] <= old_out[old_out.len() - 1]);
                                } else {
                                    assert(out@[a] == old_out[a] && out@[b] == old_out[b]);
                                }
                            }
                        }
                    }
                    assert forall|y: i64| #[trigger]
                        heap@.count(pair_of(y)) > 0 || out@.contains(y) <==> ids@.contains(y) by {
                        lemma_pair_order(x, y);
                        assert((before.count(pair_of(y)) > 0 || old_out.contains(y))
                            <==> ids@.contains(y));
                        if old_out.contains(y) {
                            let k = choose|k: int| 0 <= k < old_out.len() && old_out[k] == y;
                            assert(out@[k] == y);
                        }
                        if out@.contains(y) && y != x {
                            let k = choose|k: int| 0 <= k < out@.len() && out@[k] == y;
                            assert(old_out[k] == y);
                        }
                        if y == x {
                            assert(out@.contains(y));
                        }
                    }
                }
            },
        }
    }
    proof {
        assert forall|x: i64| out@.contains(x) <==> ids@.contains(x) by {
            assert(heap@.count(pair_of(x)) <= heap@.len());
        }
    }
    out
}

// ---------------------------------------------------------------------------
// Nodes
// ---------------------------------------------------------------------------

/// A street node. Coordinates are bit patterns.
#[derive(Debug, Clone, Copy)]
pub struct WalkNode {
    pub lat: u64,
    pub lon: u64,
}

/// A street edge with its intermediate points.
#[derive(Debug, Clone)]
pub struct WalkEdge {
    pub to_node_idx: u32,
    pub dist_meters: u16,
    pub geometry: Vec<(u64, u64)>,
}

#[verifier::ext_equal]
pub struct EdgeView {
    pub to: u32,
    pub dist: u16,
    pub geometry: Seq<(u64, u64)>,
}

impl View for WalkEdge {
    type V = EdgeView;

    open spec fn view(&self) -> EdgeView {
        EdgeView { to: self.to_node_idx, dist: self.dist_meters, geometry: self.geometry@ }
    }
}

/// Coordinates by id, of the first `n` nodes that have any; the last of several counts.
pub open spec fn coords_of(ids: Seq<i64>, coords: Seq<Option<(u64, u64)>>, n: int) -> Map<
    i64,
    (u64, u64),
>
    decreases n,
{
    if n <= 0 {
        Map::empty()
    } else {
        match coords[n - 1] {
            Some(c) => coords_of(ids, coords, n - 1).insert(ids[n - 1], c),
            None => coords_of(ids, coords, n - 1),
        }
    }
}

/// Coordinates by id.
pub fn node_coords(ids: &Vec<i64>, coords: &Vec<Option<(u64, u64)>>) -> (r: HashMap<
    i64,
    (u64, u64),
>)
    requires
        coords@.len() == ids@.len(),
    ensures
        r@ == coords_of(ids@, coords@, ids@.len() as int),
{
    broadcast use vstd::std_specs::hash::group_hash_axioms;

    let mut map: HashMap<i64, (u64, u64)> = HashMap::new();
    let mut i: usize = 0;
    while i < ids.len()
        invariant
            i <= ids@.len(),
            coords@.len() == ids@.len(),
            map@ == coords_of(ids@, coords@, i as int),
        decreases ids@.len() - i,
    {
        match coords[i] {
            Some(c) => {
                map.insert(ids[i], c);
            },
            None => {},
        }
        i += 1;
    }
    map
}

/// A way counts: those that can be walked do, or those that can be driven.
pub open spec fn counts(w: WayView, driven: bool) -> bool {
    if driven {
        w.vehicle
    } else {
        w.walkable
    }
}

/// Some way that counts refers to the node.
pub open spec fn referred(ways: Seq<WayView>, driven: bool, id: i64) -> bool {
    exists|w: int| 0 <= w < ways.len() && counts(#[trigger] ways[w], driven) && ways[w].refs.contains(id)
}

/// Street nodes with the ids they stand for.
pub struct NodeIndex {
    pub ids: Vec<i64>,
    pub nodes: Vec<WalkNode>,
    pub index: HashMap<i64, u32>,
}

impl NodeIndex {
    /// The nodes that ways refer to and that have coordinates, in the order of their ids.
    pub open spec fn holds(
        self,
        ways: Seq<WayView>,
        coords: Map<i64, (u64, u64)>,
        driven: bool,
    ) -> bool {
        &&& self.wf()
        &&& forall|id: i64|
            #![trigger self.ids@.contains(id)]
            self.ids@.contains(id) <==> referred(ways, driven, id) && coords.contains_key(id)
        &&& forall|k: int|
            0 <= k < self.ids@.len() ==> coords[#[trigger] self.ids@[k]] == (
                self.nodes@[k].lat,
                self.nodes@[k].lon,
            )
    }

    /// The index says where each id stands.
    pub open spec fn wf(self) -> bool {
        &&& ascending(self.ids@)
        &&& self.ids@.len() <= u32::MAX
        &&& self.nodes@.len() == self.ids@.len()
        &&& forall|id: i64| #[trigger]
            self.index@.contains_key(id) ==> self.index@[id] < self.ids@.len()
                && self.ids@[self.index@[id] as int] == id
        &&& forall|k: int|
            0 <= k < self.ids@.len() ==> self.index@.contains_key(#[trigger] self.ids@[k])
                && self.index@[self.ids@[k]] == k
    }
}

/// The ids that ways refer to.
fn referred_ids(ways: &Vec<WalkWay>, driven: bool) -> (r: Vec<i64>)
    ensures
        forall|id: i64|
            #![trigger r@.contains(id)]
            r@.contains(id) <==> referred(f::views(ways@), driven, id),
{
    let ghost all = f::views(ways@);
    let mut out: Vec<i64> = Vec::new();
    let mut i: usize = 0;
    assert forall|id: i64| #![trigger out@.contains(id)] out@.contains(id) <==> referred(
        all.take(0),
        driven,
        id,
    ) by {}
    while i < ways.len()
        invariant
            i <= ways@.len(),
            all == f::views(ways@),
            forall|id: i64|
                #![trigger out@.contains(id)]
                out@.contains(id) <==> referred(all.take(i as int), driven, id),
        decreases ways@.len() - i,
    {
        let w = &ways[i];
        let ghost before = out@;
        assert(all[i as int] == w@);
        if (driven && w.is_vehicle) || (!driven && w.is_walkable) {
            let mut k: usize = 0;
            while k < w.node_refs.len()
                invariant
                    k <= w.node_refs@.len(),
                    out@ == before + w.node_refs@.take(k as int),
                decreases w.node_refs@.len() - k,
            {
                out.push(w.node_refs[k]);
                k += 1;
                assert(out@ =~= before + w.node_refs@.take(k as int));
            }
            assert(w.node_refs@.take(k as int) =~= w@.refs);
        }
        proof {
            assert forall|id: i64|
                #![trigger out@.contains(id)]
                out@.contains(id) <==> referred(all.take(i as int + 1), driven, id) by {
                lemma_referred_step(all, driven, i as int, id);
                assert(before.contains(id) <==> referred(all.take(i as int), driven, id));
                if counts(w@, driven) {
                    lemma_concat_contains(before, w@.refs, id);
                }
            }
        }
        i += 1;
    }
    assert(all.take(i as int) =~= all);
    out
}

proof fn lemma_concat_contains(a: Seq<i64>, b: Seq<i64>, x: i64)
    ensures
        (a + b).contains(x) <==> a.contains(x) || b.contains(x),
{
    let s = a + b;
    if a.contains(x) {
        let k = choose|k: int| 0 <= k < a.len() && a[k] == x;
        assert(s[k] == x);
    }
    if b.contains(x) {
        let k = choose|k: int| 0 <= k < b.len() && b[k] == x;
        assert(s[a.len() + k] == x);
    }
    if s.contains(x) {
        let k = choose|k: int| 0 <= k < s.len() && s[k] == x;
        if k < a.len() {
            assert(a[k] == x);
        } else {
            assert(b[k - a.len()] == x);
        }
    }
}

proof fn lemma_referred_step(ways: Seq<WayView>, driven: bool, i: int, id: i64)
    requires
        0 <= i < ways.len(),
    ensures
        referred(ways.take(i + 1), driven, id) <==> referred(ways.take(i), driven, id) || (counts(
            ways[i],
            driven,
        ) && ways[i].refs.contains(id)),
{
    let a = ways.take(i);
    let b = ways.take(i + 1);
    if referred(a, driven, id) {
        let w = choose|w: int|
            0 <= w < a.len() && counts(#[trigger] a[w], driven) && a[w].refs.contains(id);
        assert(b[w] == a[w]);
    }
    if counts(ways[i], driven) && ways[i].refs.contains(id) {
        assert(b[i] == ways[i]);
    }
    if referred(b, driven, id) {
        let w = choose|w: int|
            0 <= w < b.len() && counts(#[trigger] b[w], driven) && b[w].refs.contains(id);
        if w < i {
            assert(a[w] == b[w]);
        }
    }
}

/// Numbers the nodes that ways refer to and that have coordinates. None if there are too many to
/// number.
pub fn index_nodes(
    ways: &Vec<WalkWay>,
    coords: &HashMap<i64, (u64, u64)>,
    driven: bool,
) -> (r: Option<NodeIndex>)
    ensures
        r matches Some(x) ==> x.holds(f::views(ways@), coords@, driven),
        r is None ==> exists|ids: Seq<i64>| {
            &&& ids.len() > u32::MAX
            &&& #[trigger] ascending(ids)
            &&& forall|k: int|
                0 <= k < ids.len() ==> referred(f::views(ways@), driven, #[trigger] ids[k])
                    && coords@.contains_key(ids[k])
        },
{
    broadcast use vstd::std_specs::hash::group_hash_axioms;

    let ghost all = f::views(ways@);
    let sorted = sorted_distinct(&referred_ids(ways, driven));
    let mut out = NodeIndex { ids: Vec::new(), nodes: Vec::new(), index: HashMap::new() };
    let mut i: usize = 0;
    while i < sorted.len()
        invariant
            i <= sorted@.len(),
            all == f::views(ways@),
            ascending(sorted@),
            forall|id: i64|
                #![trigger sorted@.contains(id)]
                sorted@.contains(id) <==> referred(all, driven, id),
            out.wf(),
            forall|k: int|
                0 <= k < out.ids@.len() ==> coords@.contains_key(#[trigger] out.ids@[k])
                    && sorted@.take(i as int).contains(out.ids@[k]) && coords@[out.ids@[k]] == (
                    out.nodes@[k].lat,
                    out.nodes@[k].lon,
                ),
            forall|k: int|
                0 <= k < i && coords@.contains_key(#[trigger] sorted@[k]) ==> out.ids@.contains(
                    sorted@[k],
                ),
        decreases sorted@.len() - i,
    {
        let id: i64 = sorted[i];
        let ghost before = out;
        let ghost s0 = sorted@.take(i as int);
        let ghost s1 = sorted@.take(i as int + 1);
        proof {
            assert(s1 =~= s0.push(id));
            assert(s1[i as int] == id);
            assert forall|x: i64| s0.contains(x) implies #[trigger] s1.contains(x) && x < id by {
                let k = choose|k: int| 0 <= k < s0.len() && s0[k] == x;
                assert(s1[k] == x);
                assert(sorted@[k] < sorted@[i as int]);
            }
        }
        match coords.get(&id) {
            Some(c) => {
                let n: usize = out.ids.len();
                if n >= u32::MAX as usize {
                    proof {
                        let ids = before.ids@.push(id);
                        assert forall|a: int, b: int|
                            0 <= a < b < ids.len() implies #[trigger] ids[a] < #[trigger] ids[b] by {
                            if b == ids.len() - 1 {
                                assert(s0.contains(before.ids@[a]));
                            } else {
                                assert(before.ids@[a] < before.ids@[b]);
                            }
                        }
                        assert(ascending(ids));
                        assert(sorted@.contains(id));
                        assert forall|k: int| 0 <= k < ids.len() implies referred(
                            all,
                            driven,
                            #[trigger] ids[k],
                        ) && coords@.contains_key(ids[k]) by {
                            if k < before.ids@.len() {
                                assert(s0.contains(before.ids@[k]));
                                let q = choose|q: int| 0 <= q < s0.len() && s0[q] == before.ids@[k];
                                assert(sorted@[q] == before.ids@[k]);
                                assert(sorted@.contains(before.ids@[k]));
                            }
                        }
                    }
                    return None;
                }
                out.ids.push(id);
                out.nodes.push(WalkNode { lat: c.0, lon: c.1 });
                out.index.insert(id, n as u32);
                proof {
                    assert(!before.ids@.contains(id)) by {
                        if before.ids@.contains(id) {
                            let k = choose|k: int| 0 <= k < before.ids@.len() && before.ids@[k] == id;
                            assert(s0.contains(before.ids@[k]));
                        }
                    }
                    assert forall|a: int, b: int|
                        0 <= a < b < out.ids@.len() implies #[trigger] out.ids@[a]
                        < #[trigger] out.ids@[b] by {
                        if b == n {
                            assert(s0.contains(before.ids@[a]));
                        } else {
                            assert(before.ids@[a] < before.ids@[b]);
                        }
                    }
                    assert forall|x: i64| #[trigger] out.index@.contains_key(x) implies out.index@[x]
                        < out.ids@.len() && out.ids@[out.index@[x] as int] == x by {
                        if x != id {
                            assert(before.index@.contains_key(x));
                        }
                    }
                    assert forall|k: int| 0 <= k < out.ids@.len() implies out.index@.contains_key(
                        #[trigger] out.ids@[k],
                    ) && out.index@[out.ids@[k]] == k by {
                        if k < n {
                            assert(out.ids@[k] == before.ids@[k]);
                            assert(before.ids@.contains(before.ids@[k]));
                        }
                    }
                    assert(out.ids@[n as int] == id);
                }
            },
            None => {},
        }
        proof {
            assert forall|k: int| 0 <= k < out.ids@.len() implies coords@.contains_key(
                #[trigger] out.ids@[k],
            ) && s1.contains(out.ids@[k]) && coords@[out.ids@[k]] == (
                out.nodes@[k].lat,
                out.nodes@[k].lon,
            ) by {
                if k < before.ids@.len() {
                    assert(out.ids@[k] == before.ids@[k]);
                    assert(s0.contains(before.ids@[k]));
                }
            }
            assert forall|k: int|
                0 <= k < i + 1 && coords@.contains_key(#[trigger] sorted@[k]) implies out.ids@.contains(
                sorted@[k],
            ) by {
                if k < i {
                    assert(before.ids@.contains(sorted@[k]));
                    let q = choose|q: int| 0 <= q < before.ids@.len() && before.ids@[q] == sorted@[k];
                    assert(out.ids@[q] == sorted@[k]);
                }
            }
        }
        i += 1;
    }
    proof {
        assert(sorted@.take(i as int) =~= sorted@);
        assert forall|id: i64|
            #![trigger out.ids@.contains(id)]
            out.ids@.contains(id) <==> referred(all, driven, id) && coords@.contains_key(id) by {
            if out.ids@.contains(id) {
                let k = choose|k: int| 0 <= k < out.ids@.len() && out.ids@[k] == id;
                assert(sorted@.contains(out.ids@[k]));
            }
            if referred(all, driven, id) && coords@.contains_key(id) {
                assert(sorted@.contains(id));
                let k = choose|k: int| 0 <= k < sorted@.len() && sorted@[k] == id;
                assert(out.ids@.contains(sorted@[k]));
            }
        }
    }
    Some(out)
}

// ---------------------------------------------------------------------------
// Segments
// ---------------------------------------------------------------------------

/// A stretch of a way between two of its nodes that follow each other.
#[derive(Debug, Clone, Copy)]
pub struct Segment {
    pub a: u32,
    pub b: u32,
    /// Its length counts this many times.
    pub penalty: u32,
    pub is_pedestrian: bool,
    /// It leads from `a` to `b`.
    pub forward: bool,
    /// It leads from `b` to `a`.
    pub backward: bool,
}

/// A segment of a way. On foot every segment leads both ways, and lengths count as the way says.
/// Driven, the direction of the way counts, and lengths are what they are.
pub open spec fn segment_of(w: WayView, a: u32, b: u32, driven: bool) -> Segment {
    Segment {
        a,
        b,
        penalty: if driven {
            1
        } else {
            w.penalty
        },
        is_pedestrian: w.pedestrian,
        forward: !driven || w.oneway >= 0,
        backward: !driven || w.oneway <= 0,
    }
}

/// The first `n` segments of a way whose ends are street nodes.
pub open spec fn way_segments(w: WayView, index: Map<i64, u32>, driven: bool, n: int) -> Seq<Segment>
    decreases n,
{
    if n <= 0 {
        Seq::empty()
    } else {
        let front = way_segments(w, index, driven, n - 1);
        if index.contains_key(w.refs[n - 1]) && index.contains_key(w.refs[n]) {
            front.push(segment_of(w, index[w.refs[n - 1]], index[w.refs[n]], driven))
        } else {
            front
        }
    }
}

/// The segments of the first `n` ways that count.
pub open spec fn segments_of(ways: Seq<WayView>, index: Map<i64, u32>, driven: bool, n: int) -> Seq<
    Segment,
>
    decreases n,
{
    if n <= 0 {
        Seq::empty()
    } else {
        let w = ways[n - 1];
        let front = segments_of(ways, index, driven, n - 1);
        if counts(w, driven) {
            front + way_segments(w, index, driven, w.refs.len() - 1)
        } else {
            front
        }
    }
}

/// The segments of the ways that count.
pub fn street_segments(ways: &Vec<WalkWay>, nodes: &NodeIndex, driven: bool) -> (r: Vec<Segment>)
    ensures
        r@ == segments_of(f::views(ways@), nodes.index@, driven, ways@.len() as int),
{
    broadcast use vstd::std_specs::hash::group_hash_axioms;

    let ghost all = f::views(ways@);
    let ghost index = nodes.index@;
    let mut out: Vec<Segment> = Vec::new();
    let mut i: usize = 0;
    while i < ways.len()
        invariant
            i <= ways@.len(),
            all == f::views(ways@),
            index == nodes.index@,
            out@ == segments_of(all, index, driven, i as int),
        decreases ways@.len() - i,
    {
        let w = &ways[i];
        assert(all[i as int] == w@);
        if (driven && w.is_vehicle) || (!driven && w.is_walkable) {
            let ghost before = out@;
            let mut k: usize = 1;
            assert(out@ =~= before + way_segments(w@, index, driven, 0));
            while k < w.node_refs.len()
                invariant
                    1 <= k,
                    k <= w.node_refs@.len() || k == 1,
                    index == nodes.index@,
                    out@ == before + way_segments(w@, index, driven, k - 1),
                decreases w.node_refs@.len() - k,
            {
                let ghost ws = way_segments(w@, index, driven, k - 1);
                match (nodes.index.get(&w.node_refs[k - 1]), nodes.index.get(&w.node_refs[k])) {
                    (Some(a), Some(b)) => {
                        let seg = Segment {
                            a: *a,
                            b: *b,
                            penalty: if driven {
                                1
                            } else {
                                w.penalty
                            },
                            is_pedestrian: w.is_pedestrian,
                            forward: !driven || w.oneway >= 0,
                            backward: !driven || w.oneway <= 0,
                        };
                        out.push(seg);
                        assert(before + ws.push(seg) =~= (before + ws).push(seg));
                    },
                    _ => {},
                }
                k += 1;
            }
            proof {
                if w@.refs.len() == 0 {
                    assert(way_segments(w@, index, driven, -1) =~= Seq::<Segment>::empty());
                }
            }
        }
        i += 1;
    }
    out
}

// ---------------------------------------------------------------------------
// Networks
// ---------------------------------------------------------------------------

/// A street network.
#[derive(Debug)]
pub struct StreetGraph {
    pub nodes: Vec<WalkNode>,
    /// The edges of each node.
    pub edges: Vec<Vec<WalkEdge>>,
    /// Which nodes are on a way made for people on foot.
    pub pedestrian: Vec<bool>,
}

#[verifier::ext_equal]
pub struct GraphView {
    pub nodes: Seq<WalkNode>,
    pub edges: Seq<Seq<EdgeView>>,
    pub pedestrian: Seq<bool>,
}

pub open spec fn edge_lists(v: Seq<Vec<WalkEdge>>) -> Seq<Seq<EdgeView>> {
    Seq::new(v.len(), |i: int| f::views(v[i]@))
}

impl View for StreetGraph {
    type V = GraphView;

    open spec fn view(&self) -> GraphView {
        GraphView {
            nodes: self.nodes@,
            edges: edge_lists(self.edges@),
            pedestrian: self.pedestrian@,
        }
    }
}

/// Every list has an entry for every node, and every edge leads to a node.
pub open spec fn graph_wf(g: GraphView) -> bool {
    &&& g.nodes.len() <= u32::MAX
    &&& g.edges.len() == g.nodes.len()
    &&& g.pedestrian.len() == g.nodes.len()
    &&& forall|u: int, k: int|
        0 <= u < g.edges.len() && 0 <= k < g.edges[u].len() ==> (#[trigger] g.edges[u][k]).to
            < g.nodes.len()
}

/// Some edge leads from `u` to `v`.
pub open spec fn linked(edges: Seq<Seq<EdgeView>>, u: int, v: int) -> bool {
    exists|k: int| 0 <= k < edges[u].len() && (#[trigger] edges[u][k]).to == v
}

/// Where an edge leads, another leads back.
pub open spec fn symmetric(edges: Seq<Seq<EdgeView>>) -> bool {
    forall|u: int, v: int|
        0 <= u < edges.len() && 0 <= v < edges.len() && #[trigger] linked(edges, u, v) ==> linked(
            edges,
            v,
            u,
        )
}

pub open spec fn plain_edge(to: u32, dist: u16) -> EdgeView {
    EdgeView { to, dist, geometry: Seq::empty() }
}

/// The edges of node `u` from the first `n` segments.
pub open spec fn edges_of(segs: Seq<Segment>, dists: Seq<u16>, u: int, n: int) -> Seq<EdgeView>
    decreases n,
{
    if n <= 0 {
        Seq::empty()
    } else {
        let front = edges_of(segs, dists, u, n - 1);
        let s = segs[n - 1];
        let one = if s.forward && s.a == u {
            front.push(plain_edge(s.b, dists[n - 1]))
        } else {
            front
        };
        if s.backward && s.b == u {
            one.push(plain_edge(s.a, dists[n - 1]))
        } else {
            one
        }
    }
}

/// Node `u` is on a way made for people on foot, by the first `n` segments.
pub open spec fn on_footway(segs: Seq<Segment>, u: int, n: int) -> bool {
    exists|k: int|
        0 <= k < n && (#[trigger] segs[k]).is_pedestrian && (segs[k].a == u || segs[k].b == u)
}

/// The network of some segments.
pub open spec fn network_of(nodes: Seq<WalkNode>, segs: Seq<Segment>, dists: Seq<u16>) -> GraphView {
    GraphView {
        nodes,
        edges: Seq::new(nodes.len(), |u: int| edges_of(segs, dists, u, segs.len() as int)),
        pedestrian: Seq::new(nodes.len(), |u: int| on_footway(segs, u, segs.len() as int)),
    }
}

/// All segments join existing nodes.
pub open spec fn segments_within(segs: Seq<Segment>, n: int) -> bool {
    forall|k: int|
        0 <= k < segs.len() ==> (#[trigger] segs[k]).a < n && segs[k].b < n
}

fn add_edge(edges: &mut Vec<Vec<WalkEdge>>, u: u32, to: u32, dist: u16)
    requires
        u < old(edges)@.len(),
    ensures
        final(edges)@.len() == old(edges)@.len(),
        edge_lists(final(edges)@) == edge_lists(old(edges)@).update(
            u as int,
            edge_lists(old(edges)@)[u as int].push(plain_edge(to, dist)),
        ),
{
    let ghost before = edges@;
    let e = WalkEdge { to_node_idx: to, dist_meters: dist, geometry: Vec::new() };
    proof {
        assert(e@ =~= plain_edge(to, dist));
        f::lemma_views_push(before[u as int]@, e);
    }
    edges[u as usize].push(e);
    assert(edge_lists(edges@) =~= edge_lists(before).update(
        u as int,
        edge_lists(before)[u as int].push(plain_edge(to, dist)),
    ));
}

/// The network of some segments. `dists` holds the length of each.
pub fn assemble(nodes: Vec<WalkNode>, segs: &Vec<Segment>, dists: &Vec<u16>) -> (r: StreetGraph)
    requires
        dists@.len() == segs@.len(),
        segments_within(segs@, nodes@.len() as int),
    ensures
        r@ == network_of(nodes@, segs@, dists@),
{
    let n: usize = nodes.len();
    let mut edges: Vec<Vec<WalkEdge>> = Vec::new();
    let mut pedestrian: Vec<bool> = Vec::new();
    let mut k: usize = 0;
    while k < n
        invariant
            k <= n,
            edges@.len() == k,
            pedestrian@.len() == k,
            forall|u: int| 0 <= u < k ==> (#[trigger] edges@[u])@.len() == 0,
            forall|u: int| 0 <= u < k ==> !#[trigger] pedestrian@[u],
        decreases n - k,
    {
        edges.push(Vec::new());
        pedestrian.push(false);
        k += 1;
    }
    assert(edge_lists(edges@) =~= Seq::new(n as nat, |u: int| edges_of(segs@, dists@, u, 0))) by {
        assert forall|u: int| 0 <= u < n implies #[trigger] edge_lists(edges@)[u] == edges_of(
            segs@,
            dists@,
            u,
            0,
        ) by {
            assert(edges@[u]@.len() == 0);
            assert(edge_lists(edges@)[u] =~= Seq::<EdgeView>::empty());
        }
    }
    assert(pedestrian@ =~= Seq::new(n as nat, |u: int| on_footway(segs@, u, 0)));
    let mut i: usize = 0;
    while i < segs.len()
        invariant
            i <= segs@.len(),
            n == nodes@.len(),
            dists@.len() == segs@.len(),
            segments_within(segs@, n as int),
            edges@.len() == n,
            pedestrian@.len() == n,
            edge_lists(edges@) == Seq::new(
                n as nat,
                |u: int| edges_of(segs@, dists@, u, i as int),
            ),
            pedestrian@ == Seq::new(n as nat, |u: int| on_footway(segs@, u, i as int)),
        decreases segs@.len() - i,
    {
        let s = segs[i];
        let ghost before = edge_lists(edges@);
        let ghost foot = pedestrian@;
        assert(s.a < n && s.b < n);
        if s.forward {
            add_edge(&mut edges, s.a, s.b, dists[i]);
        }
        let ghost mid = edge_lists(edges@);
        if s.backward {
            add_edge(&mut edges, s.b, s.a, dists[i]);
        }
        if s.is_pedestrian {
            pedestrian[s.a as usize] = true;
            pedestrian[s.b as usize] = true;
        }
        proof {
            let after = edge_lists(edges@);
            assert forall|u: int| 0 <= u < n implies #[trigger] after[u] == edges_of(
                segs@,
                dists@,
                u,
                i as int + 1,
            ) by {
                assert(before[u] == edges_of(segs@, dists@, u, i as int));
            }
            assert(after =~= Seq::new(
                n as nat,
                |u: int| edges_of(segs@, dists@, u, i as int + 1),
            ));
            assert forall|u: int| 0 <= u < n implies #[trigger] pedestrian@[u] == on_footway(
                segs@,
                u,
                i as int + 1,
            ) by {
                assert(foot[u] == on_footway(segs@, u, i as int));
                if on_footway(segs@, u, i as int) {
                    let q = choose|q: int|
                        0 <= q < i && (#[trigger] segs@[q]).is_pedestrian && (segs@[q].a == u
                            || segs@[q].b == u);
                    assert(segs@[q].is_pedestrian);
                }
                if s.is_pedestrian && (s.a == u || s.b == u) {
                    assert(segs@[i as int].is_pedestrian);
                }
            }
            assert(pedestrian@ =~= Seq::new(
                n as nat,
                |u: int| on_footway(segs@, u, i as int + 1),
            ));
        }
        i += 1;
    }
    let r = StreetGraph { nodes, edges, pedestrian };
    assert(r@ =~= network_of(nodes@, segs@, dists@));
    r
}

// ---------------------------------------------------------------------------
// Laws of networks
// ---------------------------------------------------------------------------

pub(crate) proof fn lemma_edges_from(segs: Seq<Segment>, dists: Seq<u16>, u: int, n: int, k: int)
    requires
        0 <= n <= segs.len(),
        0 <= k < edges_of(segs, dists, u, n).len(),
    ensures
        exists|q: int|
            0 <= q < n && {
                let s = #[trigger] segs[q];
                let e = edges_of(segs, dists, u, n)[k];
                e.dist == dists[q] && ((s.forward && s.a == u && s.b == e.to) || (s.backward && s.b
                    == u && s.a == e.to))
            },
    decreases n,
{
    let front = edges_of(segs, dists, u, n - 1);
    let all = edges_of(segs, dists, u, n);
    if k < front.len() {
        lemma_edges_from(segs, dists, u, n - 1, k);
        assert(all[k] == front[k]);
        let q = choose|q: int|
            0 <= q < n - 1 && {
                let s = #[trigger] segs[q];
                let e = front[k];
                e.dist == dists[q] && ((s.forward && s.a == u && s.b == e.to) || (s.backward && s.b
                    == u && s.a == e.to))
            };
        assert(segs[q] == segs[q]);
    } else {
        let s = segs[n - 1];
        assert(s.a == u || s.b == u);
    }
}

proof fn lemma_segment_gives(segs: Seq<Segment>, dists: Seq<u16>, n: int, q: int)
    requires
        0 <= q < n <= segs.len(),
    ensures
        segs[q].forward ==> exists|k: int|
            0 <= k < edges_of(segs, dists, segs[q].a as int, n).len() && (#[trigger] edges_of(
                segs,
                dists,
                segs[q].a as int,
                n,
            )[k]).to == segs[q].b,
        segs[q].backward ==> exists|k: int|
            0 <= k < edges_of(segs, dists, segs[q].b as int, n).len() && (#[trigger] edges_of(
                segs,
                dists,
                segs[q].b as int,
                n,
            )[k]).to == segs[q].a,
    decreases n,
{
    let s = segs[q];
    let a = s.a as int;
    let b = s.b as int;
    if q < n - 1 {
        lemma_segment_gives(segs, dists, n - 1, q);
        if s.forward {
            let front = edges_of(segs, dists, a, n - 1);
            let k = choose|k: int| 0 <= k < front.len() && (#[trigger] front[k]).to == s.b;
            assert(edges_of(segs, dists, a, n)[k] == front[k]);
        }
        if s.backward {
            let front = edges_of(segs, dists, b, n - 1);
            let k = choose|k: int| 0 <= k < front.len() && (#[trigger] front[k]).to == s.a;
            assert(edges_of(segs, dists, b, n)[k] == front[k]);
        }
    } else {
        if s.forward {
            let front = edges_of(segs, dists, a, n - 1);
            let all = edges_of(segs, dists, a, n);
            assert(all[front.len() as int] == plain_edge(s.b, dists[q]));
        }
        if s.backward {
            let all = edges_of(segs, dists, b, n);
            assert(all[all.len() - 1] == plain_edge(s.a, dists[q]));
        }
    }
}

/// Every edge of a network leads to one of its nodes. If every segment leads both ways, so does
/// the network.
pub proof fn networks_are_sound(nodes: Seq<WalkNode>, segs: Seq<Segment>, dists: Seq<u16>)
    requires
        nodes.len() <= u32::MAX,
        dists.len() == segs.len(),
        segments_within(segs, nodes.len() as int),
    ensures
        graph_wf(network_of(nodes, segs, dists)),
        (forall|k: int|
            0 <= k < segs.len() ==> (#[trigger] segs[k]).forward && segs[k].backward) ==> symmetric(
            network_of(nodes, segs, dists).edges,
        ),
{
    let g = network_of(nodes, segs, dists);
    let n = segs.len() as int;
    assert forall|u: int, k: int| 0 <= u < g.edges.len() && 0 <= k < g.edges[u].len() implies (
    #[trigger] g.edges[u][k]).to < g.nodes.len() by {
        lemma_edges_from(segs, dists, u, n, k);
    }
    if forall|k: int| 0 <= k < segs.len() ==> (#[trigger] segs[k]).forward && segs[k].backward {
        assert forall|u: int, v: int|
            0 <= u < g.edges.len() && 0 <= v < g.edges.len() && #[trigger] linked(
                g.edges,
                u,
                v,
            ) implies linked(g.edges, v, u) by {
            let k = choose|k: int| 0 <= k < g.edges[u].len() && (#[trigger] g.edges[u][k]).to == v;
            lemma_edges_from(segs, dists, u, n, k);
            let q = choose|q: int|
                0 <= q < n && {
                    let s = #[trigger] segs[q];
                    let e = edges_of(segs, dists, u, n)[k];
                    e.dist == dists[q] && ((s.forward && s.a == u && s.b == e.to) || (s.backward
                        && s.b == u && s.a == e.to))
                };
            lemma_segment_gives(segs, dists, n, q);
            let back = edges_of(segs, dists, v, n);
            let j = choose|j: int| 0 <= j < back.len() && (#[trigger] back[j]).to == u;
            assert(g.edges[v][j].to == u);
        }
    }
}

proof fn lemma_way_within(w: WayView, nodes: NodeIndex, driven: bool, n: int)
    requires
        nodes.wf(),
    ensures
        segments_within(
            way_segments(w, nodes.index@, driven, n),
            nodes.nodes@.len() as int,
        ),
        !driven ==> forall|k: int|
            0 <= k < way_segments(w, nodes.index@, driven, n).len() ==> (#[trigger] way_segments(
                w,
                nodes.index@,
                driven,
                n,
            )[k]).forward && way_segments(w, nodes.index@, driven, n)[k].backward,
    decreases n,
{
    if n > 0 {
        lemma_way_within(w, nodes, driven, n - 1);
        if nodes.index@.contains_key(w.refs[n - 1]) && nodes.index@.contains_key(w.refs[n]) {
            assert(nodes.index@[w.refs[n - 1]] < nodes.ids@.len());
            assert(nodes.index@[w.refs[n]] < nodes.ids@.len());
        }
    }
}

/// The segments of ways join street nodes. On foot they all lead both ways.
pub proof fn segments_are_sound(ways: Seq<WayView>, nodes: NodeIndex, driven: bool, n: int)
    requires
        nodes.wf(),
    ensures
        segments_within(
            segments_of(ways, nodes.index@, driven, n),
            nodes.nodes@.len() as int,
        ),
        !driven ==> forall|k: int|
            0 <= k < segments_of(ways, nodes.index@, driven, n).len() ==> (#[trigger] segments_of(
                ways,
                nodes.index@,
                driven,
                n,
            )[k]).forward && segments_of(ways, nodes.index@, driven, n)[k].backward,
    decreases n,
{
    if n > 0 {
        let w = ways[n - 1];
        segments_are_sound(ways, nodes, driven, n - 1);
        lemma_way_within(w, nodes, driven, w.refs.len() - 1);
        let a = segments_of(ways, nodes.index@, driven, n - 1);
        let b = way_segments(w, nodes.index@, driven, w.refs.len() - 1);
        let all = segments_of(ways, nodes.index@, driven, n);
        if counts(w, driven) {
            assert forall|k: int| 0 <= k < all.len() implies (#[trigger] all[k]).a
                < nodes.nodes@.len() && all[k].b < nodes.nodes@.len() && (!driven ==> all[k].forward
                && all[k].backward) by {
                if k < a.len() {
                    assert(all[k] == a[k]);
                } else {
                    assert(all[k] == b[k - a.len()]);
                }
            }
        }
    }
}

// ---------------------------------------------------------------------------
// Pruning
// ---------------------------------------------------------------------------

/// How many of the first `i` are kept.
pub open spec fn kept_before(keep: Seq<bool>, i: int) -> int
    decreases i,
{
    if i <= 0 {
        0
    } else if keep[i - 1] {
        kept_before(keep, i - 1) + 1
    } else {
        kept_before(keep, i - 1)
    }
}

/// Those of the first `n` that are kept, in order.
pub open spec fn kept<A>(s: Seq<A>, keep: Seq<bool>, n: int) -> Seq<A>
    decreases n,
{
    if n <= 0 {
        Seq::empty()
    } else if keep[n - 1] {
        kept(s, keep, n - 1).push(s[n - 1])
    } else {
        kept(s, keep, n - 1)
    }
}

/// The first `n` of some edges that lead to a node that is kept, under its new number.
pub open spec fn kept_edges(es: Seq<EdgeView>, keep: Seq<bool>, n: int) -> Seq<EdgeView>
    decreases n,
{
    if n <= 0 {
        Seq::empty()
    } else {
        let e = es[n - 1];
        if keep[e.to as int] {
            kept_edges(es, keep, n - 1).push(
                EdgeView { to: kept_before(keep, e.to as int) as u32, ..e },
            )
        } else {
            kept_edges(es, keep, n - 1)
        }
    }
}

/// A network without the nodes that are not kept.
pub open spec fn pruned(g: GraphView, keep: Seq<bool>) -> GraphView {
    let n = g.nodes.len() as int;
    GraphView {
        nodes: kept(g.nodes, keep, n),
        edges: kept(
            Seq::new(
                g.edges.len(),
                |u: int| kept_edges(g.edges[u], keep, g.edges[u].len() as int),
            ),
            keep,
            n,
        ),
        pedestrian: kept(g.pedestrian, keep, n),
    }
}

pub proof fn lemma_kept_len<A>(s: Seq<A>, keep: Seq<bool>, n: int)
    ensures
        kept(s, keep, n).len() == kept_before(keep, n),
        0 <= kept_before(keep, n),
        n >= 0 ==> kept_before(keep, n) <= n,
    decreases n,
{
    if n > 0 {
        lemma_kept_len(s, keep, n - 1);
    }
}

/// A kept element stands where the count of those kept before it says.
pub proof fn lemma_kept_at<A>(s: Seq<A>, keep: Seq<bool>, n: int, i: int)
    requires
        0 <= i < n,
        keep[i],
    ensures
        0 <= kept_before(keep, i) < kept(s, keep, n).len(),
        kept(s, keep, n)[kept_before(keep, i)] == s[i],
    decreases n,
{
    lemma_kept_len(s, keep, n - 1);
    lemma_kept_len(s, keep, i);
    if i < n - 1 {
        lemma_kept_at(s, keep, n - 1, i);
        if keep[n - 1] {
            assert(kept(s, keep, n)[kept_before(keep, i)] == kept(s, keep, n - 1)[kept_before(
                keep,
                i,
            )]);
        }
    }
}

/// Every kept element comes from somewhere.
pub proof fn lemma_kept_from<A>(s: Seq<A>, keep: Seq<bool>, n: int, j: int) -> (i: int)
    requires
        0 <= j < kept(s, keep, n).len(),
    ensures
        0 <= i < n,
        keep[i],
        kept_before(keep, i) == j,
        kept(s, keep, n)[j] == s[i],
    decreases n,
{
    lemma_kept_len(s, keep, n - 1);
    if keep[n - 1] && j == kept(s, keep, n - 1).len() {
        n - 1
    } else {
        let i = lemma_kept_from(s, keep, n - 1, j);
        assert(kept(s, keep, n)[j] == kept(s, keep, n - 1)[j]);
        i
    }
}

pub(crate) proof fn lemma_kept_edge_from(es: Seq<EdgeView>, keep: Seq<bool>, n: int, k: int) -> (q: int)
    requires
        0 <= k < kept_edges(es, keep, n).len(),
    ensures
        0 <= q < n,
        keep[es[q].to as int],
        kept_edges(es, keep, n)[k] == (EdgeView {
            to: kept_before(keep, es[q].to as int) as u32,
            ..es[q]
        }),
    decreases n,
{
    let front = kept_edges(es, keep, n - 1);
    if keep[es[n - 1].to as int] && k == front.len() {
        n - 1
    } else {
        let q = lemma_kept_edge_from(es, keep, n - 1, k);
        assert(kept_edges(es, keep, n)[k] == front[k]);
        q
    }
}

pub(crate) proof fn lemma_kept_edge_at(es: Seq<EdgeView>, keep: Seq<bool>, n: int, q: int) -> (k: int)
    requires
        0 <= q < n,
        keep[es[q].to as int],
    ensures
        0 <= k < kept_edges(es, keep, n).len(),
        kept_edges(es, keep, n)[k] == (EdgeView {
            to: kept_before(keep, es[q].to as int) as u32,
            ..es[q]
        }),
    decreases n,
{
    let front = kept_edges(es, keep, n - 1);
    if q == n - 1 {
        front.len() as int
    } else {
        let k = lemma_kept_edge_at(es, keep, n - 1, q);
        if keep[es[n - 1].to as int] {
            assert(kept_edges(es, keep, n)[k] == front[k]);
        }
        k
    }
}

/// Pruning keeps a network sound, and one that leads both ways stays so.
pub proof fn pruning_keeps_networks_sound(g: GraphView, keep: Seq<bool>)
    requires
        graph_wf(g),
        keep.len() == g.nodes.len(),
    ensures
        graph_wf(pruned(g, keep)),
        symmetric(g.edges) ==> symmetric(pruned(g, keep).edges),
{
    let n = g.nodes.len() as int;
    let lists = Seq::new(
        g.edges.len(),
        |u: int| kept_edges(g.edges[u], keep, g.edges[u].len() as int),
    );
    let p = pruned(g, keep);
    lemma_kept_len(g.nodes, keep, n);
    lemma_kept_len(lists, keep, n);
    lemma_kept_len(g.pedestrian, keep, n);
    assert forall|u: int, k: int| 0 <= u < p.edges.len() && 0 <= k < p.edges[u].len() implies (
    #[trigger] p.edges[u][k]).to < p.nodes.len() by {
        let i = lemma_kept_from(lists, keep, n, u);
        let es = g.edges[i];
        let q = lemma_kept_edge_from(es, keep, es.len() as int, k);
        assert(g.edges[i][q].to < n);
        lemma_kept_at(g.nodes, keep, n, es[q].to as int);
    }
    if symmetric(g.edges) {
        assert forall|u: int, v: int|
            0 <= u < p.edges.len() && 0 <= v < p.edges.len() && #[trigger] linked(
                p.edges,
                u,
                v,
            ) implies linked(p.edges, v, u) by {
            let k = choose|k: int| 0 <= k < p.edges[u].len() && (#[trigger] p.edges[u][k]).to == v;
            let i = lemma_kept_from(lists, keep, n, u);
            let es = g.edges[i];
            let q = lemma_kept_edge_from(es, keep, es.len() as int, k);
            let w = es[q].to as int;
            assert(g.edges[i][q].to < n);
            lemma_kept_at(lists, keep, n, w);
            assert(linked(g.edges, i, w));
            assert(linked(g.edges, w, i));
            let back = choose|back: int|
                0 <= back < g.edges[w].len() && (#[trigger] g.edges[w][back]).to == i;
            lemma_kept_at(g.nodes, keep, n, i);
            let j = lemma_kept_edge_at(g.edges[w], keep, g.edges[w].len() as int, back);
            assert(p.edges[v] == lists[w]);
            assert(p.edges[v][j].to == u);
        }
    }
}

fn keep_edges(es: &Vec<WalkEdge>, keep: &Vec<bool>, new_index: &Vec<u32>) -> (r: Vec<WalkEdge>)
    requires
        new_index@.len() == keep@.len(),
        forall|i: int|
            0 <= i < keep@.len() ==> #[trigger] new_index@[i] == kept_before(keep@, i) as u32,
        forall|k: int| 0 <= k < es@.len() ==> (#[trigger] es@[k]).to_node_idx < keep@.len(),
    ensures
        f::views(r@) == kept_edges(f::views(es@), keep@, es@.len() as int),
{
    let ghost all = f::views(es@);
    let mut out: Vec<WalkEdge> = Vec::new();
    let mut k: usize = 0;
    assert(f::views(out@) =~= kept_edges(all, keep@, 0));
    while k < es.len()
        invariant
            k <= es@.len(),
            all == f::views(es@),
            new_index@.len() == keep@.len(),
            forall|i: int|
                0 <= i < keep@.len() ==> #[trigger] new_index@[i] == kept_before(keep@, i) as u32,
            forall|j: int| 0 <= j < es@.len() ==> (#[trigger] es@[j]).to_node_idx < keep@.len(),
            f::views(out@) == kept_edges(all, keep@, k as int),
        decreases es@.len() - k,
    {
        let e = &es[k];
        assert(all[k as int] == e@);
        let to: usize = e.to_node_idx as usize;
        if keep[to] {
            let x = WalkEdge {
                to_node_idx: new_index[to],
                dist_meters: e.dist_meters,
                geometry: lists::copy_list(&e.geometry),
            };
            proof {
                f::lemma_views_push(out@, x);
            }
            out.push(x);
        }
        k += 1;
    }
    out
}

/// The network without the nodes that are not kept.
pub fn prune(g: &StreetGraph, keep: &Vec<bool>) -> (r: StreetGraph)
    requires
        graph_wf(g@),
        keep@.len() == g@.nodes.len(),
    ensures
        r@ == pruned(g@, keep@),
        graph_wf(r@),
        symmetric(g@.edges) ==> symmetric(r@.edges),
{
    let n: usize = keep.len();
    let mut new_index: Vec<u32> = Vec::new();
    let mut count: u32 = 0;
    let mut i: usize = 0;
    while i < n
        invariant
            i <= n,
            n == keep@.len(),
            n <= u32::MAX,
            count == kept_before(keep@, i as int),
            count <= i,
            new_index@.len() == i,
            forall|k: int|
                0 <= k < i ==> #[trigger] new_index@[k] == kept_before(keep@, k) as u32,
        decreases n - i,
    {
        new_index.push(count);
        if keep[i] {
            count += 1;
        }
        i += 1;
    }
    let ghost lists = Seq::new(
        g@.edges.len(),
        |u: int| kept_edges(g@.edges[u], keep@, g@.edges[u].len() as int),
    );
    let mut nodes: Vec<WalkNode> = Vec::new();
    let mut edges: Vec<Vec<WalkEdge>> = Vec::new();
    let mut pedestrian: Vec<bool> = Vec::new();
    let mut k: usize = 0;
    assert(edge_lists(edges@) =~= kept(lists, keep@, 0));
    while k < n
        invariant
            k <= n,
            n == keep@.len(),
            graph_wf(g@),
            n == g@.nodes.len(),
            lists == Seq::new(
                g@.edges.len(),
                |u: int| kept_edges(g@.edges[u], keep@, g@.edges[u].len() as int),
            ),
            new_index@.len() == n,
            forall|j: int|
                0 <= j < n ==> #[trigger] new_index@[j] == kept_before(keep@, j) as u32,
            nodes@ == kept(g@.nodes, keep@, k as int),
            edge_lists(edges@) == kept(lists, keep@, k as int),
            pedestrian@ == kept(g@.pedestrian, keep@, k as int),
        decreases n - k,
    {
        if keep[k] {
            nodes.push(g.nodes[k]);
            proof {
                assert(g@.edges[k as int] == f::views(g.edges@[k as int]@));
                assert forall|j: int| 0 <= j < g.edges@[k as int]@.len() implies (
                #[trigger] g.edges@[k as int]@[j]).to_node_idx < keep@.len() by {
                    assert(g@.edges[k as int][j].to < g@.nodes.len());
                }
            }
            let list = keep_edges(&g.edges[k], keep, &new_index);
            let ghost before = edges@;
            let ghost lv = f::views(list@);
            edges.push(list);
            proof {
                assert(lv == lists[k as int]);
                assert(edge_lists(edges@) =~= edge_lists(before).push(lv));
            }
            pedestrian.push(g.pedestrian[k]);
        }
        k += 1;
    }
    let r = StreetGraph { nodes, edges, pedestrian };
    proof {
        pruning_keeps_networks_sound(g@, keep@);
        assert(r@ =~= pruned(g@, keep@));
    }
    r
}

/// The walking network: the segments of all ways, both ways, without the nodes that are not kept.
/// `dists` holds the length of each segment.
pub fn build_walk_graph(
    ways: &Vec<WalkWay>,
    nodes: NodeIndex,
    dists: &Vec<u16>,
    keep: &Vec<bool>,
) -> (r: StreetGraph)
    requires
        nodes.wf(),
        dists@.len() == segments_of(
            f::views(ways@),
            nodes.index@,
            false,
            ways@.len() as int,
        ).len(),
        keep@.len() == nodes.nodes@.len(),
    ensures
        r@ == pruned(
            network_of(
                nodes.nodes@,
                segments_of(f::views(ways@), nodes.index@, false, ways@.len() as int),
                dists@,
            ),
            keep@,
        ),
        graph_wf(r@),
        symmetric(r@.edges),
{
    let segs = street_segments(ways, &nodes, false);
    proof {
        segments_are_sound(f::views(ways@), nodes, false, ways@.len() as int);
        networks_are_sound(nodes.nodes@, segs@, dists@);
    }
    let whole = assemble(nodes.nodes, &segs, dists);
    prune(&whole, keep)
}

/// The road network: the segments of the ways that can be driven, in their direction, without the
/// nodes that are not kept. `dists` holds the length of each segment.
pub fn build_road_graph(
    ways: &Vec<WalkWay>,
    nodes: NodeIndex,
    dists: &Vec<u16>,
    keep: &Vec<bool>,
) -> (r: StreetGraph)
    requires
        nodes.wf(),
        dists@.len() == segments_of(
            f::views(ways@),
            nodes.index@,
            true,
            ways@.len() as int,
        ).len(),
        keep@.len() == nodes.nodes@.len(),
    ensures
        r@ == pruned(
            network_of(
                nodes.nodes@,
                segments_of(f::views(ways@), nodes.index@, true, ways@.len() as int),
                dists@,
            ),
            keep@,
        ),
        graph_wf(r@),
{
    let segs = street_segments(ways, &nodes, true);
    proof {
        segments_are_sound(f::views(ways@), nodes, true, ways@.len() as int);
        networks_are_sound(nodes.nodes@, segs@, dists@);
    }
    let whole = assemble(nodes.nodes, &segs, dists);
    prune(&whole, keep)
}

} // verus!
