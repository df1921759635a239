//! Bringing a timetable file into memory.

use crate::data::{FareRule, TransitData, WalkGraph};
use crate::grid as gr;
use crate::message as msg;
use crate::message::{FareRecord, Message, StoredFare};
use crate::feed as f;
use crate::file;
use std::collections::HashMap;
use vstd::prelude::*;
use vstd::utf8;

verus! {

/// A fare with its currency as a hash.
pub open spec fn loaded_fare(x: FareRecord) -> FareRule {
    let bytes = utf8::encode_utf8(x.currency);
    FareRule {
        route_idx: x.route_idx,
        price: x.price,
        currency_hash: msg::hash_of(bytes, bytes.len() as int) as u32,
    }
}

pub open spec fn all_picked(n: nat) -> Seq<bool> {
    Seq::new(n, |i: int| true)
}

/// The timetable in memory is what the file holds: times are unpacked, currencies hashed, and
/// street nodes listed by the grid cell they lie in. There is no vehicle network.
pub open spec fn loaded_from(data: TransitData, m: Message, cells: Seq<(i32, i32)>) -> bool {
    &&& data.feed_id@ == m.feed_id@
    &&& data.timezone@ == m.timezone@
    &&& data.agencies@ == m.agencies@
    &&& data.stops@ == m.stops@
    &&& data.routes@ == m.routes@
    &&& data.trips@ == m.trips@
    &&& data.services@ == m.services@
    &&& data.transfers@ == m.transfers@
    &&& data.arrivals@ == msg::unpacked(m.stop_arrivals@)
    &&& data.departures@ == msg::unpacked(m.stop_departures@)
    &&& data.fare_rules@ == m@.fare_rules.map_values(|x: FareRecord| loaded_fare(x))
    &&& data.walk_graph.nodes@ == m.walk_nodes@
    &&& data.walk_graph.edges@ == m.walk_edges@
    &&& data.walk_graph.geometry@ == m.geometry@
    &&& gr::lists_members(
        data.walk_graph.node_grid@,
        cells,
        all_picked(cells.len()),
        cells.len() as int,
    )
    &&& data.road_graph.nodes@.len() == 0
    &&& data.road_graph.edges@.len() == 0
    &&& data.road_graph.geometry@.len() == 0
    &&& data.road_graph.wf()
}

fn load_fares(fares: &Vec<StoredFare>) -> (r: Vec<FareRule>)
    ensures
        r@ == f::views(fares@).map_values(|x: FareRecord| loaded_fare(x)),
{
    let ghost all = f::views(fares@).map_values(|x: FareRecord| loaded_fare(x));
    let mut out: Vec<FareRule> = Vec::new();
    let mut i: usize = 0;
    while i < fares.len()
        invariant
            i <= fares@.len(),
            all == f::views(fares@).map_values(|x: FareRecord| loaded_fare(x)),
            out@ == all.take(i as int),
        decreases fares@.len() - i,
    {
        let x = &fares[i];
        assert(f::views(fares@)[i as int] == x@);
        out.push(
            FareRule {
                route_idx: x.route_idx,
                price: x.price,
                currency_hash: msg::hash_str(x.currency.as_str()),
            },
        );
        i += 1;
        assert(out@ =~= all.take(i as int));
    }
    assert(all.take(i as int) =~= all);
    out
}

/// The grid of all street nodes.
fn grid_of(cells: &Vec<(i32, i32)>) -> (r: HashMap<u64, Vec<u32>>)
    ensures
        gr::lists_members(r@, cells@, all_picked(cells@.len()), cells@.len() as int),
{
    let mut pick: Vec<bool> = Vec::new();
    let mut i: usize = 0;
    while i < cells.len()
        invariant
            i <= cells@.len(),
            pick@.len() == i,
            forall|k: int| 0 <= k < i ==> #[trigger] pick@[k],
        decreases cells@.len() - i,
    {
        pick.push(true);
        i += 1;
    }
    assert(pick@ =~= all_picked(cells@.len()));
    gr::build(cells, &pick)
}

/// Makes a timetable of what a file holds. `cells` are the grid cells of the street nodes.
fn unpacked(m: Message, cells: &Vec<(i32, i32)>) -> (r: TransitData)
    ensures
        loaded_from(r, m, cells@),
{
    let node_grid = grid_of(cells);
    let fare_rules = load_fares(&m.fare_rules);
    let arrivals = msg::unpack_numbers(&m.stop_arrivals);
    let departures = msg::unpack_numbers(&m.stop_departures);
    TransitData {
        feed_id: m.feed_id,
        timezone: m.timezone,
        stops: m.stops,
        routes: m.routes,
        trips: m.trips,
        agencies: m.agencies,
        arrivals,
        departures,
        transfers: m.transfers,
        services: m.services,
        walk_graph: WalkGraph {
            nodes: m.walk_nodes,
            edges: m.walk_edges,
            geometry: m.geometry,
            node_grid,
        },
        road_graph: WalkGraph::default(),
        fare_rules,
    }
}

/// The timetable in memory is what the bytes of a file hold.
pub open spec fn loaded_file(data: TransitData, bytes: Seq<u8>, cells: Seq<(i32, i32)>) -> bool {
    exists|m: Message| file::holds(bytes, m@) && #[trigger] loaded_from(data, m, cells)
}

/// Loads the bytes of a timetable file. The street nodes are not listed by grid cell yet.
pub fn load(bytes: &[u8]) -> (r: Result<TransitData, String>)
    ensures
        match r {
            Ok(data) => loaded_file(data, bytes@, Seq::empty()),
            Err(e) => file::first_failure(bytes@) == Some(e@),
        },
{
    match file::read_message(bytes) {
        Ok(m) => {
            let ghost kept = m;
            let cells: Vec<(i32, i32)> = Vec::new();
            let data = unpacked(m, &cells);
            assert(cells@ =~= Seq::empty());
            assert(loaded_from(data, kept, Seq::empty()));
            Ok(data)
        },
        Err(e) => Err(e),
    }
}

/// Two timetables differ at most in the grid of the street nodes.
pub open spec fn same_but_grid(a: TransitData, b: TransitData) -> bool {
    &&& a.feed_id == b.feed_id
    &&& a.timezone == b.timezone
    &&& a.agencies == b.agencies
    &&& a.stops == b.stops
    &&& a.routes == b.routes
    &&& a.trips == b.trips
    &&& a.services == b.services
    &&& a.transfers == b.transfers
    &&& a.arrivals == b.arrivals
    &&& a.departures == b.departures
    &&& a.fare_rules == b.fare_rules
    &&& a.walk_graph.nodes == b.walk_graph.nodes
    &&& a.walk_graph.edges == b.walk_graph.edges
    &&& a.walk_graph.geometry == b.walk_graph.geometry
    &&& a.road_graph == b.road_graph
}

/// Lists the street nodes by the grid cells they lie in.
pub fn list_nodes(data: &mut TransitData, cells: &Vec<(i32, i32)>)
    ensures
        same_but_grid(*final(data), *old(data)),
        gr::lists_members(
            final(data).walk_graph.node_grid@,
            cells@,
            all_picked(cells@.len()),
            cells@.len() as int,
        ),
{
    data.walk_graph.node_grid = grid_of(cells);
}

/// A timetable whose street nodes are listed anew is still what the file holds.
pub proof fn listing_keeps_what_was_loaded(
    before: TransitData,
    after: TransitData,
    bytes: Seq<u8>,
    earlier: Seq<(i32, i32)>,
    cells: Seq<(i32, i32)>,
)
    requires
        loaded_file(before, bytes, earlier),
        same_but_grid(after, before),
        gr::lists_members(
            after.walk_graph.node_grid@,
            cells,
            all_picked(cells.len()),
            cells.len() as int,
        ),
    ensures
        loaded_file(after, bytes, cells),
{
    let m = choose|m: Message| file::holds(bytes, m@) && #[trigger] loaded_from(before, m, earlier);
    assert(loaded_from(after, m, cells));
}

} // verus!
