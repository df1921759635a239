//! Which footpaths there are, and how long they are.

use crate::feed::{Feed, LinkView, PathwayView};
use crate::grid;
use crate::gtfs as g;
use crate::transfers as tr;
use crate::transfers::{Candidate, Measure, Transfer};
use vstd::prelude::*;

verus! {

/// Some footpath leads from one stop to another.
pub open spec fn leads(ts: Seq<Transfer>, a: u32, b: u32) -> bool {
    exists|t: int|
        0 <= t < ts.len() && (#[trigger] ts[t]).from_stop_idx == a && ts[t].to_stop_idx == b
}

/// The footpaths of a feed.
pub open spec fn footpaths(
    x: Feed,
    cells: Seq<(i32, i32)>,
    radius: u8,
    ms: Seq<Measure>,
) -> Seq<Transfer> {
    let cs = tr::candidates(x, cells, radius);
    tr::transfers_of(cs, ms, cs.len() as int)
}

// ---------------------------------------------------------------------------
// From candidates to footpaths
// ---------------------------------------------------------------------------

/// The candidate asks for a footpath from `a` to `b`: it joins the two stops in this direction or in
/// both, and they are near each other if it asks for that.
pub open spec fn asks_for(c: Candidate, m: Measure, a: u32, b: u32) -> bool {
    &&& (c.from == a && c.to == b) || (c.from == b && c.to == a && c.both)
    &&& c.near_only ==> m.near
}

/// The footpath has the time that the candidate knows, or else the one measured but not less than
/// the least; and its length at 1.2 metres a second, or else the one measured.
pub open spec fn fits(t: Transfer, c: Candidate, m: Measure) -> bool {
    &&& c.secs matches Some(s) ==> t.walk_seconds == s
    &&& c.secs is None ==> t.walk_seconds >= m.secs && t.walk_seconds >= c.least && (t.walk_seconds
        == m.secs || t.walk_seconds == c.least)
    &&& !c.paced ==> t.dist_meters == m.metres
    &&& c.paced && t.dist_meters < u32::MAX ==> 5 * t.dist_meters <= 6 * t.walk_seconds < 5
        * t.dist_meters + 5
    &&& c.paced && t.dist_meters == u32::MAX ==> 6 * t.walk_seconds >= 5 * t.dist_meters
}

/// Candidate `k` is the first that asks for the footpath, and the footpath fits it.
pub open spec fn comes_from(cs: Seq<Candidate>, ms: Seq<Measure>, t: Transfer, k: int) -> bool {
    &&& asks_for(cs[k], ms[k], t.from_stop_idx, t.to_stop_idx)
    &&& fits(t, cs[k], ms[k])
    &&& forall|j: int|
        0 <= j < k ==> !asks_for(#[trigger] cs[j], ms[j], t.from_stop_idx, t.to_stop_idx)
}

proof fn lemma_leads(ts: Seq<Transfer>, a: u32, b: u32)
    ensures
        leads(ts, a, b) == tr::joined(ts, a, b),
{
}

/// Every footpath comes from the first candidate that asks for it, and joins two different stops.
pub proof fn footpaths_come_from_candidates(cs: Seq<Candidate>, ms: Seq<Measure>, n: int, i: int)
    requires
        0 <= n <= cs.len(),
        0 <= i < tr::transfers_of(cs, ms, n).len(),
    ensures
        ({
            let t = tr::transfers_of(cs, ms, n)[i];
            &&& t.from_stop_idx != t.to_stop_idx
            &&& exists|k: int| 0 <= k < n && #[trigger] comes_from(cs, ms, t, k)
        }),
    decreases n,
{
    if n > 0 {
        let before = tr::transfers_of(cs, ms, n - 1);
        let all = tr::transfers_of(cs, ms, n);
        let t = all[i];
        if i < before.len() {
            footpaths_come_from_candidates(cs, ms, n - 1, i);
            assert(all[i] == before[i]);
            let k = choose|k: int| 0 <= k < n - 1 && #[trigger] comes_from(cs, ms, before[i], k);
            assert(comes_from(cs, ms, t, k));
        } else {
            let c = cs[n - 1];
            let m = ms[n - 1];
            let a = t.from_stop_idx;
            let b = t.to_stop_idx;
            let one = tr::add_transfer(
                before,
                c.from,
                c.to,
                tr::secs_of(c, m),
                tr::metres_of(c, m),
            );
            assert(!leads(before, a, b)) by {
                if leads(before, a, b) {
                    let p = choose|p: int|
                        0 <= p < before.len() && (#[trigger] before[p]).from_stop_idx == a
                            && before[p].to_stop_idx == b;
                    assert(all[p] == before[p]);
                    tr::transfers_are_proper(cs, ms, n);
                }
            }
            assert(asks_for(c, m, a, b));
            assert(fits(t, c, m));
            assert forall|j: int| 0 <= j < n - 1 implies !asks_for(
                #[trigger] cs[j],
                ms[j],
                a,
                b,
            ) by {
                if asks_for(cs[j], ms[j], a, b) {
                    assert(tr::stands_for(cs[j], ms[j], a, b));
                    tr::transfers_are_proper(cs, ms, n);
                    tr::joined_iff_candidate(cs, ms, n - 1, a, b);
                    lemma_leads(before, a, b);
                }
            }
            assert(comes_from(cs, ms, t, n - 1));
        }
    }
}

/// Two different stops are joined if some candidate asks for it.
proof fn lemma_asked(cs: Seq<Candidate>, ms: Seq<Measure>, k: int, a: u32, b: u32)
    requires
        0 <= k < cs.len(),
        asks_for(cs[k], ms[k], a, b),
        a != b,
    ensures
        leads(tr::transfers_of(cs, ms, cs.len() as int), a, b),
{
    assert(tr::stands_for(cs[k], ms[k], a, b));
    tr::joined_iff_candidate(cs, ms, cs.len() as int, a, b);
    lemma_leads(tr::transfers_of(cs, ms, cs.len() as int), a, b);
}

// ---------------------------------------------------------------------------
// Transfers that the feed lists
// ---------------------------------------------------------------------------

/// The transfer is between two stops of the feed, and possible.
pub open spec fn possible(x: Feed, l: LinkView) -> bool {
    x.stop_index.contains_key(l.from) && x.stop_index.contains_key(l.to) && l.kind != 3
}

/// The candidate stands for a transfer that the feed lists: one way if it is timed, with the
/// transfer time that the feed gives, if any.
pub open spec fn is_listed(x: Feed, l: LinkView, c: Candidate) -> bool {
    &&& possible(x, l)
    &&& c.from == x.stop_index[l.from]
    &&& c.to == x.stop_index[l.to]
    &&& l.kind == 1 ==> !c.both
    &&& l.kind != 1 ==> c.both
    &&& !c.near_only
    &&& l.min_time > 0 ==> c.secs == Some(l.min_time) && c.paced
    &&& l.min_time == 0 ==> c.secs is None && c.least == 60 && !c.paced
}

proof fn lemma_listed(x: Feed, n: int, i: int) -> (k: int)
    requires
        0 <= i < n <= x.links.len(),
        possible(x, x.links[i]),
    ensures
        0 <= k < tr::listed(x, n).len(),
        is_listed(x, x.links[i], tr::listed(x, n)[k]),
    decreases n,
{
    let front = tr::listed(x, n - 1);
    if i == n - 1 {
        front.len() as int
    } else {
        let k = lemma_listed(x, n - 1, i);
        assert(tr::listed(x, n)[k] == front[k]);
        k
    }
}

proof fn lemma_listed_from(x: Feed, n: int, k: int) -> (i: int)
    requires
        0 <= n <= x.links.len(),
        0 <= k < tr::listed(x, n).len(),
    ensures
        0 <= i < n,
        is_listed(x, x.links[i], tr::listed(x, n)[k]),
    decreases n,
{
    if n <= 0 {
        0
    } else {
        let front = tr::listed(x, n - 1);
        if k < front.len() {
            assert(tr::listed(x, n)[k] == front[k]);
            lemma_listed_from(x, n - 1, k)
        } else {
            n - 1
        }
    }
}

/// A transfer that the feed lists between two different stops, of any type but the one that says it
/// is not possible, is a footpath from the first stop to the second, and back too unless it is
/// timed.
pub proof fn listed_transfers_are_footpaths(
    x: Feed,
    cells: Seq<(i32, i32)>,
    radius: u8,
    ms: Seq<Measure>,
    i: int,
)
    requires
        0 <= i < x.links.len(),
        x.stop_index.contains_key(x.links[i].from),
        x.stop_index.contains_key(x.links[i].to),
        x.stop_index[x.links[i].from] != x.stop_index[x.links[i].to],
        x.links[i].kind != 3,
    ensures
        ({
            let a = x.stop_index[x.links[i].from];
            let b = x.stop_index[x.links[i].to];
            let ts = footpaths(x, cells, radius, ms);
            &&& leads(ts, a, b)
            &&& x.links[i].kind != 1 ==> leads(ts, b, a)
        }),
{
    let n = x.links.len() as int;
    let cs = tr::candidates(x, cells, radius);
    let k = lemma_listed(x, n, i);
    assert(cs[k] == tr::listed(x, n)[k]);
    let a = x.stop_index[x.links[i].from];
    let b = x.stop_index[x.links[i].to];
    assert(asks_for(cs[k], ms[k], a, b));
    lemma_asked(cs, ms, k, a, b);
    if x.links[i].kind != 1 {
        assert(asks_for(cs[k], ms[k], b, a));
        lemma_asked(cs, ms, k, b, a);
    }
}

/// The transfer joins two stops in this direction.
pub open spec fn link_joins(x: Feed, l: LinkView, a: u32, b: u32) -> bool {
    &&& possible(x, l)
    &&& (x.stop_index[l.from] == a && x.stop_index[l.to] == b) || (x.stop_index[l.from] == b
        && x.stop_index[l.to] == a && l.kind != 1)
}

/// The candidate comes of the first transfer of the feed that joins two stops in this direction.
proof fn lemma_first_listed(x: Feed, n: int, i: int, a: u32, b: u32) -> (k: int)
    requires
        0 <= i < n <= x.links.len(),
        link_joins(x, x.links[i], a, b),
        forall|j: int| 0 <= j < i ==> !link_joins(x, #[trigger] x.links[j], a, b),
    ensures
        ({
            let cs = tr::listed(x, n);
            &&& 0 <= k < cs.len()
            &&& is_listed(x, x.links[i], cs[k])
            &&& forall|q: int|
                0 <= q < k ==> !(((#[trigger] cs[q]).from == a && cs[q].to == b) || (cs[q].from == b
                    && cs[q].to == a && cs[q].both))
        }),
    decreases n,
{
    let front = tr::listed(x, n - 1);
    let cs = tr::listed(x, n);
    if i == n - 1 {
        let k = front.len() as int;
        assert forall|q: int| 0 <= q < k implies !(((#[trigger] cs[q]).from == a && cs[q].to == b)
            || (cs[q].from == b && cs[q].to == a && cs[q].both)) by {
            assert(cs[q] == front[q]);
            let j = lemma_listed_from(x, n - 1, q);
            assert(!link_joins(x, x.links[j], a, b));
        }
        k
    } else {
        let k = lemma_first_listed(x, n - 1, i, a, b);
        assert(cs[k] == front[k]);
        assert forall|q: int| 0 <= q < k implies !(((#[trigger] cs[q]).from == a && cs[q].to == b)
            || (cs[q].from == b && cs[q].to == a && cs[q].both)) by {
            assert(cs[q] == front[q]);
        }
        k
    }
}

/// A footpath between stops for which the feed lists transfers takes as long as the first of them
/// says, if it gives a time: the length is then what is walked in that time.
pub proof fn listed_times_are_kept(
    x: Feed,
    cells: Seq<(i32, i32)>,
    radius: u8,
    ms: Seq<Measure>,
    i: int,
    t: int,
)
    requires
        0 <= t < footpaths(x, cells, radius, ms).len(),
        0 <= i < x.links.len(),
        ({
            let p = footpaths(x, cells, radius, ms)[t];
            &&& link_joins(x, x.links[i], p.from_stop_idx, p.to_stop_idx)
            &&& forall|j: int|
                0 <= j < i ==> !link_joins(
                    x,
                    #[trigger] x.links[j],
                    p.from_stop_idx,
                    p.to_stop_idx,
                )
        }),
    ensures
        ({
            let p = footpaths(x, cells, radius, ms)[t];
            let secs = x.links[i].min_time;
            &&& secs > 0 ==> p.walk_seconds == secs
            &&& secs > 0 && p.dist_meters < u32::MAX ==> 5 * p.dist_meters <= 6 * secs < 5
                * p.dist_meters + 5
            &&& secs == 0 ==> p.walk_seconds >= 60
        }),
{
    let cs = tr::candidates(x, cells, radius);
    let p = footpaths(x, cells, radius, ms)[t];
    let a = p.from_stop_idx;
    let b = p.to_stop_idx;
    let n = x.links.len() as int;
    let own = tr::listed(x, n);
    let k = lemma_first_listed(x, n, i, a, b);
    assert(cs[k] == own[k]);
    footpaths_come_from_candidates(cs, ms, cs.len() as int, t);
    let q = choose|q: int| 0 <= q < cs.len() && #[trigger] comes_from(cs, ms, p, q);
    assert(asks_for(cs[k], ms[k], a, b));
    assert(q <= k);
    if q < k {
        assert(cs[q] == own[q]);
    }
}

// ---------------------------------------------------------------------------
// Inside stations
// ---------------------------------------------------------------------------

/// The stop belongs to the station.
pub open spec fn belongs(x: Feed, i: int, st: int) -> bool {
    let p = x.stops[i].parent;
    p.len() > 0 && x.stop_index.contains_key(p) && x.stop_index[p] == st
        && x.stops[st].location_type == 1
}

/// The pathway leads from one stop to another.
pub open spec fn way_leads(p: PathwayView, a: Seq<char>, b: Seq<char>) -> bool {
    (p.from == a && p.to == b) || (p.both_ways && p.from == b && p.to == a)
}

/// Pathway `i` is the last that leads from one stop to another.
pub open spec fn last_way(x: Feed, a: Seq<char>, b: Seq<char>, i: int) -> bool {
    &&& 0 <= i < x.pathways.len()
    &&& way_leads(x.pathways[i], a, b)
    &&& forall|k: int| i < k < x.pathways.len() ==> !way_leads(#[trigger] x.pathways[k], a, b)
}

/// Some pathway leads from one stop to another.
pub open spec fn any_way(x: Feed, a: Seq<char>, b: Seq<char>) -> bool {
    exists|i: int| 0 <= i < x.pathways.len() && way_leads(#[trigger] x.pathways[i], a, b)
}

/// `secs` is the time of the last pathway between two stops: of those that lead there, or else of
/// those that lead back. None if there is no pathway.
pub open spec fn way_time(x: Feed, a: Seq<char>, b: Seq<char>, secs: Option<u32>) -> bool {
    match secs {
        Some(s) => exists|i: int|
            (#[trigger] x.pathways[i]).secs == s && if any_way(x, a, b) {
                last_way(x, a, b, i)
            } else {
                last_way(x, b, a, i)
            },
        None => !any_way(x, a, b) && !any_way(x, b, a),
    }
}

proof fn lemma_pathway(x: Feed, a: Seq<char>, b: Seq<char>, n: int) -> (i: int)
    requires
        0 <= n <= x.pathways.len(),
    ensures
        match tr::pathway_secs(x.pathways, a, b, n) {
            Some(s) => {
                &&& 0 <= i < n
                &&& x.pathways[i].secs == s
                &&& way_leads(x.pathways[i], a, b)
                &&& forall|k: int| i < k < n ==> !way_leads(#[trigger] x.pathways[k], a, b)
            },
            None => forall|k: int| 0 <= k < n ==> !way_leads(#[trigger] x.pathways[k], a, b),
        },
    decreases n,
{
    if n <= 0 {
        0
    } else if way_leads(x.pathways[n - 1], a, b) {
        n - 1
    } else {
        lemma_pathway(x, a, b, n - 1)
    }
}

proof fn lemma_way_time(x: Feed, i: u32, j: u32)
    ensures
        way_time(x, x.stops[i as int].id, x.stops[j as int].id, tr::way_secs(x, i, j)),
{
    let a = x.stops[i as int].id;
    let b = x.stops[j as int].id;
    let n = x.pathways.len() as int;
    let there = lemma_pathway(x, a, b, n);
    let back = lemma_pathway(x, b, a, n);
    if tr::pathway_secs(x.pathways, a, b, n) is Some {
        assert(last_way(x, a, b, there));
        assert(way_leads(x.pathways[there], a, b));
    } else {
        assert(!any_way(x, a, b));
        if tr::pathway_secs(x.pathways, b, a, n) is Some {
            assert(last_way(x, b, a, back));
            assert(x.pathways[back].secs == tr::way_secs(x, i, j)->0);
        }
    }
}

/// The candidate joins two platforms of a station, or an entrance and a platform, both ways. It has
/// the time of the pathway between them, or else takes as long as is measured, but not less than two
/// minutes between platforms and one minute from an entrance.
pub open spec fn is_inside(x: Feed, st: int, c: Candidate) -> bool {
    let a = c.from as int;
    let b = c.to as int;
    &&& a < x.stops.len() && b < x.stops.len()
    &&& belongs(x, a, st)
    &&& belongs(x, b, st)
    &&& x.stops[b].location_type == 0
    &&& (x.stops[a].location_type == 0 && c.least == 120) || (x.stops[a].location_type == 2
        && c.least == 60)
    &&& c.both
    &&& c.paced
    &&& !c.near_only
    &&& way_time(x, x.stops[a].id, x.stops[b].id, c.secs)
}

proof fn lemma_parent(x: Feed, i: int, st: int)
    requires
        0 <= st < 0xffff_ffff,
    ensures
        tr::parent_of(x, i) == st && x.stops[st].location_type == 1 <==> belongs(x, i, st),
{
}

proof fn lemma_station_stops(x: Feed, st: int, kind: u8, n: int)
    requires
        0 <= n <= x.stops.len() <= u32::MAX,
        0 <= st < x.stops.len(),
    ensures
        ({
            let s = tr::station_stops(x, st, kind, n);
            &&& forall|p: int|
                0 <= p < s.len() ==> (#[trigger] s[p]) < n && belongs(x, s[p] as int, st)
                    && x.stops[s[p] as int].location_type == kind
            &&& forall|p: int, q: int| 0 <= p < q < s.len() ==> #[trigger] s[p] < #[trigger] s[q]
            &&& forall|i: int|
                0 <= i < n && #[trigger] belongs(x, i, st) && x.stops[i].location_type == kind
                    ==> s.contains(i as u32)
        }),
    decreases n,
{
    let s = tr::station_stops(x, st, kind, n);
    if n > 0 {
        lemma_station_stops(x, st, kind, n - 1);
        let front = tr::station_stops(x, st, kind, n - 1);
        assert(st < 0xffff_ffff);
        lemma_parent(x, n - 1, st);
        assert forall|p: int| 0 <= p < s.len() implies (#[trigger] s[p]) < n && belongs(
            x,
            s[p] as int,
            st,
        ) && x.stops[s[p] as int].location_type == kind by {
            if p < front.len() {
                assert(s[p] == front[p]);
            }
        }
        assert forall|p: int, q: int| 0 <= p < q < s.len() implies #[trigger] s[p]
            < #[trigger] s[q] by {
            assert(s[p] == front[p]);
            if q < front.len() {
                assert(s[q] == front[q]);
            }
        }
        assert forall|i: int|
            0 <= i < n && #[trigger] belongs(x, i, st) && x.stops[i].location_type
                == kind implies s.contains(i as u32) by {
            if i < n - 1 {
                assert(front.contains(i as u32));
                let p = choose|p: int| 0 <= p < front.len() && front[p] == i as u32;
                assert(s[p] == i as u32);
            } else {
                assert(s[front.len() as int] == i as u32);
            }
        }
    }
}

proof fn lemma_pairs(x: Feed, i: u32, others: Seq<u32>, from: int, n: int, least: u32)
    requires
        0 <= from,
        n <= others.len(),
    ensures
        ({
            let cs = tr::pairs_with(x, i, others, from, n, least);
            &&& cs.len() == (if n > from {
                n - from
            } else {
                0
            })
            &&& forall|p: int|
                0 <= p < cs.len() ==> #[trigger] cs[p] == tr::inside_pair(
                    x,
                    i,
                    others[from + p],
                    least,
                )
        }),
    decreases n - from,
{
    if n > from {
        lemma_pairs(x, i, others, from, n - 1, least);
        let front = tr::pairs_with(x, i, others, from, n - 1, least);
        let cs = tr::pairs_with(x, i, others, from, n, least);
        assert forall|p: int| 0 <= p < cs.len() implies #[trigger] cs[p] == tr::inside_pair(
            x,
            i,
            others[from + p],
            least,
        ) by {
            if p < front.len() {
                assert(cs[p] == front[p]);
            }
        }
    }
}

/// Some of the candidates joins two stops, in one direction or the other.
spec fn pairs_up(cs: Seq<Candidate>, a: u32, b: u32) -> bool {
    exists|p: int|
        0 <= p < cs.len() && (#[trigger] cs[p]).both && !cs[p].near_only && ((cs[p].from == a
            && cs[p].to == b) || (cs[p].from == b && cs[p].to == a))
}

/// All candidates are inside the station.
spec fn all_inside(x: Feed, st: int, cs: Seq<Candidate>) -> bool {
    forall|p: int| 0 <= p < cs.len() ==> is_inside(x, st, #[trigger] cs[p])
}

proof fn lemma_add_inside(x: Feed, st: int, a: Seq<Candidate>, b: Seq<Candidate>)
    requires
        all_inside(x, st, a),
        all_inside(x, st, b),
    ensures
        all_inside(x, st, a + b),
{
    let s = a + b;
    assert forall|p: int| 0 <= p < s.len() implies is_inside(x, st, #[trigger] s[p]) by {
        if p < a.len() {
            assert(s[p] == a[p]);
        } else {
            assert(s[p] == b[p - a.len()]);
        }
    }
}

proof fn lemma_add_pairs(a: Seq<Candidate>, b: Seq<Candidate>, i: u32, j: u32)
    ensures
        pairs_up(a, i, j) ==> pairs_up(a + b, i, j),
        pairs_up(b, i, j) ==> pairs_up(a + b, i, j),
{
    let s = a + b;
    if pairs_up(a, i, j) {
        let p = choose|p: int|
            0 <= p < a.len() && (#[trigger] a[p]).both && !a[p].near_only && ((a[p].from == i
                && a[p].to == j) || (a[p].from == j && a[p].to == i));
        assert(s[p] == a[p]);
    }
    if pairs_up(b, i, j) {
        let p = choose|p: int|
            0 <= p < b.len() && (#[trigger] b[p]).both && !b[p].near_only && ((b[p].from == i
                && b[p].to == j) || (b[p].from == j && b[p].to == i));
        assert(s[a.len() + p] == b[p]);
    }
}

proof fn lemma_row_inside(x: Feed, st: int, i: u32, ps: Seq<u32>, from: int, least: u32)
    requires
        0 <= from,
        forall|p: int|
            0 <= p < ps.len() ==> (#[trigger] ps[p]) < x.stops.len() && belongs(
                x,
                ps[p] as int,
                st,
            ) && x.stops[ps[p] as int].location_type == 0,
        i < x.stops.len(),
        belongs(x, i as int, st),
        (x.stops[i as int].location_type == 0 && least == 120) || (x.stops[i as int].location_type
            == 2 && least == 60),
    ensures
        all_inside(x, st, tr::pairs_with(x, i, ps, from, ps.len() as int, least)),
        forall|p: int|
            from <= p < ps.len() ==> pairs_up(
                tr::pairs_with(x, i, ps, from, ps.len() as int, least),
                i,
                #[trigger] ps[p],
            ),
{
    let cs = tr::pairs_with(x, i, ps, from, ps.len() as int, least);
    lemma_pairs(x, i, ps, from, ps.len() as int, least);
    assert forall|p: int| 0 <= p < cs.len() implies is_inside(x, st, #[trigger] cs[p]) by {
        let j = ps[from + p];
        lemma_way_time(x, i, j);
    }
    assert forall|p: int| from <= p < ps.len() implies pairs_up(cs, i, #[trigger] ps[p]) by {
        assert(cs[p - from] == tr::inside_pair(x, i, ps[p], least));
    }
}

proof fn lemma_platforms(x: Feed, st: int, ps: Seq<u32>, n: int)
    requires
        0 <= n <= ps.len(),
        forall|p: int|
            0 <= p < ps.len() ==> (#[trigger] ps[p]) < x.stops.len() && belongs(
                x,
                ps[p] as int,
                st,
            ) && x.stops[ps[p] as int].location_type == 0,
    ensures
        all_inside(x, st, tr::platform_pairs(x, ps, n)),
        forall|p: int, q: int|
            0 <= p < n && p < q < ps.len() ==> pairs_up(
                tr::platform_pairs(x, ps, n),
                #[trigger] ps[p],
                #[trigger] ps[q],
            ),
    decreases n,
{
    if n > 0 {
        lemma_platforms(x, st, ps, n - 1);
        let front = tr::platform_pairs(x, ps, n - 1);
        let row = tr::pairs_with(x, ps[n - 1], ps, n, ps.len() as int, 120);
        assert(tr::platform_pairs(x, ps, n) == front + row);
        lemma_row_inside(x, st, ps[n - 1], ps, n, 120);
        lemma_add_inside(x, st, front, row);
        assert forall|p: int, q: int| 0 <= p < n && p < q < ps.len() implies pairs_up(
            front + row,
            #[trigger] ps[p],
            #[trigger] ps[q],
        ) by {
            lemma_add_pairs(front, row, ps[p], ps[q]);
            if p < n - 1 {
                assert(pairs_up(front, ps[p], ps[q]));
            } else {
                assert(pairs_up(row, ps[p], ps[q]));
            }
        }
    }
}

proof fn lemma_entrances(x: Feed, st: int, es: Seq<u32>, ps: Seq<u32>, n: int)
    requires
        0 <= n <= es.len(),
        forall|p: int|
            0 <= p < ps.len() ==> (#[trigger] ps[p]) < x.stops.len() && belongs(
                x,
                ps[p] as int,
                st,
            ) && x.stops[ps[p] as int].location_type == 0,
        forall|p: int|
            0 <= p < es.len() ==> (#[trigger] es[p]) < x.stops.len() && belongs(
                x,
                es[p] as int,
                st,
            ) && x.stops[es[p] as int].location_type == 2,
    ensures
        all_inside(x, st, tr::entrance_pairs(x, es, ps, n)),
        forall|p: int, q: int|
            0 <= p < n && 0 <= q < ps.len() ==> pairs_up(
                tr::entrance_pairs(x, es, ps, n),
                #[trigger] es[p],
                #[trigger] ps[q],
            ),
    decreases n,
{
    if n > 0 {
        lemma_entrances(x, st, es, ps, n - 1);
        let front = tr::entrance_pairs(x, es, ps, n - 1);
        let row = tr::pairs_with(x, es[n - 1], ps, 0, ps.len() as int, 60);
        assert(tr::entrance_pairs(x, es, ps, n) == front + row);
        lemma_row_inside(x, st, es[n - 1], ps, 0, 60);
        lemma_add_inside(x, st, front, row);
        assert forall|p: int, q: int| 0 <= p < n && 0 <= q < ps.len() implies pairs_up(
            front + row,
            #[trigger] es[p],
            #[trigger] ps[q],
        ) by {
            lemma_add_pairs(front, row, es[p], ps[q]);
            if p < n - 1 {
                assert(pairs_up(front, es[p], ps[q]));
            } else {
                assert(pairs_up(row, es[p], ps[q]));
            }
        }
    }
}

/// Two stops of a station between which there is a footpath: two platforms, or an entrance and a
/// platform.
pub open spec fn inside_together(x: Feed, st: int, i: int, j: int) -> bool {
    &&& belongs(x, i, st)
    &&& belongs(x, j, st)
    &&& x.stops[j].location_type == 0
    &&& (x.stops[i].location_type == 0 && i != j) || x.stops[i].location_type == 2
}

/// The candidate is inside one of the first `n` stations.
pub open spec fn inside_some(x: Feed, n: int, c: Candidate) -> bool {
    exists|st: int| 0 <= st < n && #[trigger] is_inside(x, st, c)
}

proof fn lemma_inside(x: Feed, n: int)
    requires
        0 <= n <= x.stops.len() <= u32::MAX,
    ensures
        ({
            let cs = tr::inside_stations(x, n);
            &&& forall|p: int| 0 <= p < cs.len() ==> inside_some(x, n, #[trigger] cs[p])
            &&& forall|st: int, i: int, j: int|
                0 <= st < n && 0 <= i < x.stops.len() && 0 <= j < x.stops.len()
                    && #[trigger] inside_together(x, st, i, j) ==> pairs_up(cs, i as u32, j as u32)
        }),
    decreases n,
{
    if n > 0 {
        lemma_inside(x, n - 1);
        let all = x.stops.len() as int;
        let st = n - 1;
        let ps = tr::station_stops(x, st, 0, all);
        let es = tr::station_stops(x, st, 2, all);
        lemma_station_stops(x, st, 0, all);
        lemma_station_stops(x, st, 2, all);
        let front = tr::inside_stations(x, n - 1);
        let one = tr::platform_pairs(x, ps, ps.len() as int);
        let two = tr::entrance_pairs(x, es, ps, es.len() as int);
        lemma_platforms(x, st, ps, ps.len() as int);
        lemma_entrances(x, st, es, ps, es.len() as int);
        let cs = front + one + two;
        assert(tr::inside_stations(x, n) == cs);
        assert forall|p: int| 0 <= p < cs.len() implies inside_some(x, n, #[trigger] cs[p]) by {
            if p < front.len() {
                assert(cs[p] == front[p]);
                assert(inside_some(x, n - 1, front[p]));
                let s = choose|s: int| 0 <= s < n - 1 && #[trigger] is_inside(x, s, front[p]);
                assert(is_inside(x, s, cs[p]));
            } else if p < front.len() + one.len() {
                assert(cs[p] == one[p - front.len()]);
                assert(is_inside(x, st, cs[p]));
            } else {
                assert(cs[p] == two[p - front.len() - one.len()]);
                assert(is_inside(x, st, cs[p]));
            }
        }
        assert forall|s: int, i: int, j: int|
            0 <= s < n && 0 <= i < all && 0 <= j < all && #[trigger] inside_together(
                x,
                s,
                i,
                j,
            ) implies pairs_up(cs, i as u32, j as u32) by {
            let a = i as u32;
            let b = j as u32;
            lemma_add_pairs(front, one, a, b);
            lemma_add_pairs(front + one, two, a, b);
            if s < n - 1 {
                assert(pairs_up(front, a, b));
            } else {
                assert(belongs(x, j, st));
                assert(ps.contains(b));
                let q = choose|q: int| 0 <= q < ps.len() && ps[q] == b;
                if x.stops[i].location_type == 0 {
                    assert(belongs(x, i, st));
                    assert(ps.contains(a));
                    let p = choose|p: int| 0 <= p < ps.len() && ps[p] == a;
                    if p < q {
                        assert(pairs_up(one, ps[p], ps[q]));
                    } else {
                        assert(pairs_up(one, ps[q], ps[p]));
                        lemma_turned(one, a, b);
                    }
                    assert(pairs_up(one, a, b));
                } else {
                    assert(belongs(x, i, st));
                    assert(es.contains(a));
                    let p = choose|p: int| 0 <= p < es.len() && es[p] == a;
                    assert(pairs_up(two, es[p], ps[q]));
                }
            }
        }
    }
}

proof fn lemma_turned(cs: Seq<Candidate>, a: u32, b: u32)
    requires
        pairs_up(cs, b, a),
    ensures
        pairs_up(cs, a, b),
{
    let p = choose|p: int|
        0 <= p < cs.len() && (#[trigger] cs[p]).both && !cs[p].near_only && ((cs[p].from == b
            && cs[p].to == a) || (cs[p].from == a && cs[p].to == b));
    assert(cs[p].both);
}

/// Inside a station every two platforms are joined, and every entrance with every platform, both
/// ways.
pub proof fn stations_are_walked_through(
    x: Feed,
    cells: Seq<(i32, i32)>,
    radius: u8,
    ms: Seq<Measure>,
    st: int,
    i: int,
    j: int,
)
    requires
        x.stops.len() <= u32::MAX,
        0 <= st < x.stops.len(),
        0 <= i < x.stops.len(),
        0 <= j < x.stops.len(),
        inside_together(x, st, i, j),
    ensures
        leads(footpaths(x, cells, radius, ms), i as u32, j as u32),
        leads(footpaths(x, cells, radius, ms), j as u32, i as u32),
{
    let n = x.stops.len() as int;
    let cs = tr::candidates(x, cells, radius);
    let front = tr::listed(x, x.links.len() as int);
    let own = tr::inside_stations(x, n);
    lemma_inside(x, n);
    let a = i as u32;
    let b = j as u32;
    assert(pairs_up(own, a, b));
    let p = choose|p: int|
        0 <= p < own.len() && (#[trigger] own[p]).both && !own[p].near_only && ((own[p].from == a
            && own[p].to == b) || (own[p].from == b && own[p].to == a));
    let k = front.len() + p;
    assert(cs[k] == own[p]);
    assert(asks_for(cs[k], ms[k], a, b));
    assert(asks_for(cs[k], ms[k], b, a));
    lemma_asked(cs, ms, k, a, b);
    lemma_asked(cs, ms, k, b, a);
}

// ---------------------------------------------------------------------------
// Stops close by
// ---------------------------------------------------------------------------

/// Two stops belong to the same stop of the feed.
pub open spec fn same_parent(x: Feed, i: int, j: int) -> bool {
    let p = x.stops[i].parent;
    let q = x.stops[j].parent;
    &&& p.len() > 0 && x.stop_index.contains_key(p)
    &&& q.len() > 0 && x.stop_index.contains_key(q)
    &&& x.stop_index[p] == x.stop_index[q]
}

/// Parents are stops that exist.
pub open spec fn parents_exist(x: Feed) -> bool {
    forall|id: Seq<char>| #[trigger]
        x.stop_index.contains_key(id) ==> x.stop_index[id] < 0xffff_ffff
}

/// The candidate joins two stops to board at that do not belong to one parent and lie at most
/// `radius` cells from each other, both ways, if they are near. It takes as long as is measured, but
/// not less than half a minute.
pub open spec fn is_close(x: Feed, cells: Seq<(i32, i32)>, radius: u8, c: Candidate) -> bool {
    let a = c.from as int;
    let b = c.to as int;
    &&& a < b < x.stops.len()
    &&& x.stops[a].location_type == 0
    &&& x.stops[b].location_type == 0
    &&& -radius <= cells[b].0 - cells[a].0 <= radius
    &&& -radius <= cells[b].1 - cells[a].1 <= radius
    &&& !same_parent(x, a, b)
    &&& c.near_only
    &&& c.both
    &&& !c.paced
    &&& c.secs is None
    &&& c.least == 30
}

proof fn lemma_off(x: Feed, i: int, j: u32)
    requires
        parents_exist(x),
    ensures
        tr::pairs_off(x, i, j) <==> i < j && !same_parent(x, i, j as int),
{
}

proof fn lemma_close_of(
    x: Feed,
    cells: Seq<(i32, i32)>,
    radius: u8,
    i: int,
    around: Seq<u32>,
    n: int,
    k: int,
)
    requires
        parents_exist(x),
        cells.len() == x.stops.len() <= u32::MAX,
        0 <= i < x.stops.len(),
        x.stops[i].location_type == 0,
        around == grid::members_around(
            cells,
            tr::boardable(x),
            cells[i].0 as int,
            cells[i].1 as int,
            radius as int,
        ),
        n <= around.len(),
        0 <= k < tr::nearby_of(x, i, around, n).len(),
    ensures
        is_close(x, cells, radius, tr::nearby_of(x, i, around, n)[k]),
    decreases n,
{
    if n > 0 {
        let front = tr::nearby_of(x, i, around, n - 1);
        if k < front.len() {
            lemma_close_of(x, cells, radius, i, around, n - 1, k);
            assert(tr::nearby_of(x, i, around, n)[k] == front[k]);
        } else {
            let j = around[n - 1];
            assert(around.contains(j));
            grid::squares_list_what_lies_in_them(
                cells,
                tr::boardable(x),
                cells[i].0 as int,
                cells[i].1 as int,
                radius as int,
                j,
            );
            lemma_off(x, i, j);
        }
    }
}

proof fn lemma_close(x: Feed, cells: Seq<(i32, i32)>, radius: u8, n: int, k: int)
    requires
        parents_exist(x),
        cells.len() == x.stops.len() <= u32::MAX,
        n <= x.stops.len(),
        0 <= k < tr::nearby(x, cells, radius, n).len(),
    ensures
        is_close(x, cells, radius, tr::nearby(x, cells, radius, n)[k]),
    decreases n,
{
    if n > 0 {
        let front = tr::nearby(x, cells, radius, n - 1);
        if k < front.len() {
            lemma_close(x, cells, radius, n - 1, k);
            assert(tr::nearby(x, cells, radius, n)[k] == front[k]);
        } else {
            let around = grid::members_around(
                cells,
                tr::boardable(x),
                cells[n - 1].0 as int,
                cells[n - 1].1 as int,
                radius as int,
            );
            lemma_close_of(
                x,
                cells,
                radius,
                n - 1,
                around,
                around.len() as int,
                k - front.len(),
            );
        }
    }
}

/// Every candidate is there for a reason: the feed lists the transfer, or the two stops are in one
/// station, or close by.
pub proof fn candidates_have_reasons(x: Feed, cells: Seq<(i32, i32)>, radius: u8, k: int)
    requires
        parents_exist(x),
        cells.len() == x.stops.len() <= u32::MAX,
        0 <= k < tr::candidates(x, cells, radius).len(),
    ensures
        ({
            let c = tr::candidates(x, cells, radius)[k];
            ||| exists|i: int| 0 <= i < x.links.len() && is_listed(x, #[trigger] x.links[i], c)
            ||| inside_some(x, x.stops.len() as int, c)
            ||| is_close(x, cells, radius, c)
        }),
{
    let n = x.stops.len() as int;
    let c = tr::candidates(x, cells, radius)[k];
    let one = tr::listed(x, x.links.len() as int);
    let two = tr::inside_stations(x, n);
    if k < one.len() {
        let i = lemma_listed_from(x, x.links.len() as int, k);
        assert(is_listed(x, x.links[i], c));
    } else if k < one.len() + two.len() {
        lemma_inside(x, n);
        assert(c == two[k - one.len()]);
    } else {
        lemma_close(x, cells, radius, n, k - one.len() - two.len());
    }
}

/// Two stops to board at that lie at most `radius` cells from each other and do not belong to one
/// parent are joined both ways, if they are near wherever they are measured.
pub proof fn close_stops_are_joined(
    x: Feed,
    cells: Seq<(i32, i32)>,
    radius: u8,
    ms: Seq<Measure>,
    i: int,
    j: int,
)
    requires
        parents_exist(x),
        cells.len() == x.stops.len() <= u32::MAX,
        0 <= i < j < x.stops.len(),
        x.stops[i].location_type == 0,
        x.stops[j].location_type == 0,
        !same_parent(x, i, j),
        -radius <= cells[j].0 - cells[i].0 <= radius,
        -radius <= cells[j].1 - cells[i].1 <= radius,
        forall|k: int|
            0 <= k < tr::candidates(x, cells, radius).len() && (#[trigger] tr::candidates(
                x,
                cells,
                radius,
            )[k]).from == i && tr::candidates(x, cells, radius)[k].to == j ==> ms[k].near,
    ensures
        leads(footpaths(x, cells, radius, ms), i as u32, j as u32),
        leads(footpaths(x, cells, radius, ms), j as u32, i as u32),
{
    lemma_off(x, i, j as u32);
    tr::near_stops_are_joined(x, cells, radius, ms, i, j);
    lemma_leads(footpaths(x, cells, radius, ms), i as u32, j as u32);
    lemma_leads(footpaths(x, cells, radius, ms), j as u32, i as u32);
}

/// A pathway takes the time that the feed says. If it says none, the pathway takes as long as its
/// length does, and two minutes if that is not known either. Nothing else changes.
pub proof fn pathways_take_time(p: PathwayView, by_length: u32)
    ensures
        ({
            let r = g::settled_pathway(p, by_length);
            &&& p.secs > 0 ==> r.secs == p.secs
            &&& p.secs == 0 && by_length > 0 ==> r.secs == by_length
            &&& p.secs == 0 && by_length == 0 ==> r.secs == 120
            &&& r.from == p.from
            &&& r.to == p.to
            &&& r.length == p.length
            &&& r.both_ways == p.both_ways
        }),
{
}

} // verus!
