//! In-memory transit data.
//!
//! Everything is flattened into contiguous arrays indexed by position. Coordinates are carried as
//! the bit pattern of a double-precision number of degrees: nothing here computes with them.

use std::collections::HashMap;
use vstd::prelude::*;

verus! {

/// Marks an absent index or time.
pub const NOT_SET: u32 = 0xffff_ffff;

/// A complete timetable with its walking network.
#[derive(Debug)]
pub struct TransitData {
    pub feed_id: String,
    pub timezone: String,
    pub stops: Vec<Stop>,
    pub routes: Vec<Route>,
    pub trips: Vec<Trip>,
    pub agencies: Vec<Agency>,
    /// Packed arrival times: for each route, `num_trips * stop_idxs.len()` consecutive values
    /// starting at `stop_times_offset`, trip by trip.
    pub arrivals: Vec<u32>,
    /// Packed departure times, laid out as `arrivals`.
    pub departures: Vec<u32>,
    /// Footpaths, grouped by the stop they leave from (`Stop::transfers_offset`).
    pub transfers: Vec<Transfer>,
    pub services: Vec<Service>,
    /// Pedestrian network.
    pub walk_graph: WalkGraph,
    /// Directed vehicle network, empty when the build has none.
    pub road_graph: WalkGraph,
    pub fare_rules: Vec<FareRule>,
}

#[derive(Debug, Clone)]
pub struct Agency {
    pub id: String,
    pub name: String,
    pub url: String,
}

#[derive(Debug, Clone)]
pub struct Stop {
    pub id: String,
    pub name: String,
    pub lat: u64,
    pub lon: u64,
    pub location_type: u8,
    pub parent_idx: u32,
    pub platform_code: String,
    pub zone_id: String,
    pub transfers_offset: u32,
    pub num_transfers: u16,
    /// Indexes of the routes serving this stop.
    pub route_idxs: Vec<u32>,
    pub walk_node_idx: u32,
}

#[derive(Debug, Clone)]
pub struct Route {
    pub id: String,
    pub short_name: String,
    pub long_name: String,
    pub route_type: u8,
    pub color: u32,
    pub text_color: u32,
    pub agency_idx: u16,
    /// Ordered stop indexes of this route pattern.
    pub stop_idxs: Vec<u32>,
    /// Offset into the packed arrivals and departures.
    pub stop_times_offset: u32,
    pub num_trips: u32,
    /// Trip indexes ordered by departure time.
    pub trip_idxs: Vec<u32>,
}

#[derive(Debug, Clone)]
pub struct Trip {
    pub id: String,
    pub route_idx: u32,
    pub service_idx: u32,
    pub headsign: String,
    pub direction_id: u8,
    /// If non-empty, the trip is a template that repeats by these rules.
    pub frequency_rules: Vec<FrequencyRule>,
    /// First departure of the template's stop times, in seconds since midnight.
    pub template_first_departure: u32,
}

/// The trip repeats every `headway_secs` from `start_time` on, while before `end_time`.
#[derive(Debug, Clone, Copy)]
pub struct FrequencyRule {
    pub start_time: u32,
    pub end_time: u32,
    pub headway_secs: u32,
    pub exact_times: bool,
}

/// A footpath to another stop.
#[derive(Debug, Clone, Copy)]
pub struct Transfer {
    pub to_stop_idx: u32,
    pub walk_seconds: u16,
    pub dist_meters: u16,
}

/// A calendar: bit `i` of `day_bits` says whether the service runs `i` days after `start_date`.
#[derive(Debug, Clone)]
pub struct Service {
    pub id: String,
    /// Days since 1970-01-01.
    pub start_date: u16,
    pub day_bits: Vec<u8>,
}

#[derive(Debug, Clone, Copy)]
pub struct FareRule {
    /// `NOT_SET` stands for every route.
    pub route_idx: u32,
    pub price: u32,
    /// Hash of the currency code.
    pub currency_hash: u32,
}

/// A street network with edges grouped by the node they leave from.
#[derive(Debug)]
pub struct WalkGraph {
    pub nodes: Vec<WalkNode>,
    pub edges: Vec<WalkEdge>,
    /// Intermediate points of all edges, packed.
    pub geometry: Vec<(u64, u64)>,
    /// Nodes of each grid cell, keyed by `cell_key`.
    pub node_grid: HashMap<u64, Vec<u32>>,
}

#[derive(Debug, Clone, Copy)]
pub struct WalkNode {
    pub lat: u64,
    pub lon: u64,
    pub edges_offset: u32,
    pub num_edges: u16,
}

#[derive(Debug, Clone, Copy)]
pub struct WalkEdge {
    pub to_node_idx: u32,
    pub dist_meters: u16,
    /// First intermediate point in `WalkGraph::geometry`.
    pub geometry_offset: u32,
    /// Number of intermediate points.
    pub geometry_len: u16,
}

/// A set bit of a day field.
pub open spec fn bit_set(b: u8, i: int) -> bool {
    (b >> (i as u8)) & 1 == 1
}

impl Service {
    /// Whether the calendar has the given day (days since 1970-01-01).
    pub open spec fn runs(self, epoch_day: int) -> bool {
        let offset = epoch_day - self.start_date;
        &&& offset >= 0
        &&& offset / 8 < self.day_bits@.len()
        &&& bit_set(self.day_bits@[offset / 8], offset % 8)
    }

    /// Checks whether the service runs on a day (days since 1970-01-01).
    pub fn runs_on(&self, epoch_day: u16) -> (r: bool)
        ensures
            r == self.runs(epoch_day as int),
    {
        if epoch_day < self.start_date {
            return false;
        }
        let offset: usize = (epoch_day - self.start_date) as usize;
        let byte_idx: usize = offset / 8;
        let bit_idx: usize = offset % 8;
        if byte_idx >= self.day_bits.len() {
            return false;
        }
        (self.day_bits[byte_idx] >> (bit_idx as u8)) & 1 == 1
    }
}

impl Route {
    /// Position of a stop time in the packed arrays.
    pub open spec fn time_index(self, trip_num: int, stop_pos: int) -> int {
        self.stop_times_offset + trip_num * self.stop_idxs@.len() + stop_pos
    }

    /// Departure time of the route's `trip_num`-th trip at `stop_pos`.
    pub fn departure_at(&self, departures: &[u32], trip_num: u32, stop_pos: usize) -> (r: u32)
        requires
            self.time_index(trip_num as int, stop_pos as int) < departures@.len(),
        ensures
            r == departures@[self.time_index(trip_num as int, stop_pos as int)],
    {
        let num_stops: usize = self.stop_idxs.len();
        proof {
            assert(departures.len() == departures@.len());
            vstd::arithmetic::mul::lemma_mul_nonnegative(trip_num as int, num_stops as int);
        }
        let idx: usize = self.stop_times_offset as usize + (trip_num as usize * num_stops)
            + stop_pos;
        departures[idx]
    }

    /// Arrival time of the route's `trip_num`-th trip at `stop_pos`.
    pub fn arrival_at(&self, arrivals: &[u32], trip_num: u32, stop_pos: usize) -> (r: u32)
        requires
            self.time_index(trip_num as int, stop_pos as int) < arrivals@.len(),
        ensures
            r == arrivals@[self.time_index(trip_num as int, stop_pos as int)],
    {
        let num_stops: usize = self.stop_idxs.len();
        proof {
            assert(arrivals.len() == arrivals@.len());
            vstd::arithmetic::mul::lemma_mul_nonnegative(trip_num as int, num_stops as int);
        }
        let idx: usize = self.stop_times_offset as usize + (trip_num as usize * num_stops)
            + stop_pos;
        arrivals[idx]
    }
}

/// Key of the grid cell in row `gy` and column `gx`.
pub open spec fn spec_cell_key(gy: int, gx: int) -> int {
    (gy + 0x8000_0000) * 0x1_0000_0000 + (gx + 0x8000_0000)
}

/// Key of the grid cell in row `gy` and column `gx`.
pub fn cell_key(gy: i32, gx: i32) -> (r: u64)
    ensures
        r == spec_cell_key(gy as int, gx as int),
{
    ((gy as i64 + 0x8000_0000) as u64) * 0x1_0000_0000 + ((gx as i64 + 0x8000_0000) as u64)
}

/// Distinct cells have distinct keys.
pub proof fn cell_key_injective(gy1: i32, gx1: i32, gy2: i32, gx2: i32)
    requires
        spec_cell_key(gy1 as int, gx1 as int) == spec_cell_key(gy2 as int, gx2 as int),
    ensures
        gy1 == gy2,
        gx1 == gx2,
{
}

impl WalkGraph {
    /// Every edge range and every edge target is within bounds.
    pub open spec fn wf(self) -> bool {
        &&& self.nodes@.len() < NOT_SET
        &&& forall|i: int|
            0 <= i < self.nodes@.len() ==> self.node_ok(#[trigger] self.nodes@[i])
        &&& forall|j: int|
            0 <= j < self.edges@.len() ==> (#[trigger] self.edges@[j]).to_node_idx
                < self.nodes@.len()
    }

    pub open spec fn node_ok(self, n: WalkNode) -> bool {
        n.edges_offset + n.num_edges <= self.edges@.len()
    }

    /// Checks that every edge range and every edge target is within bounds.
    pub fn check(&self) -> (r: bool)
        ensures
            r == self.wf(),
    {
        if self.nodes.len() >= NOT_SET as usize {
            return false;
        }
        let mut i: usize = 0;
        while i < self.nodes.len()
            invariant
                i <= self.nodes@.len(),
                forall|k: int| 0 <= k < i ==> self.node_ok(#[trigger] self.nodes@[k]),
            decreases self.nodes@.len() - i,
        {
            let n = self.nodes[i];
            if n.edges_offset as u64 + n.num_edges as u64 > self.edges.len() as u64 {
                assert(!self.node_ok(self.nodes@[i as int]));
                return false;
            }
            i += 1;
        }
        let mut j: usize = 0;
        while j < self.edges.len()
            invariant
                j <= self.edges@.len(),
                forall|k: int|
                    0 <= k < j ==> (#[trigger] self.edges@[k]).to_node_idx < self.nodes@.len(),
            decreases self.edges@.len() - j,
        {
            if self.edges[j].to_node_idx as usize >= self.nodes.len() {
                assert(self.edges@[j as int].to_node_idx >= self.nodes@.len());
                return false;
            }
            j += 1;
        }
        true
    }
}

impl Default for WalkGraph {
    /// The empty network.
    fn default() -> (r: Self)
        ensures
            r.nodes@ == Seq::<WalkNode>::empty(),
            r.edges@ == Seq::<WalkEdge>::empty(),
            r.geometry@ == Seq::<(u64, u64)>::empty(),
            r.node_grid@ == Map::<u64, Vec<u32>>::empty(),
            r.wf(),
    {
        WalkGraph {
            nodes: Vec::new(),
            edges: Vec::new(),
            geometry: Vec::new(),
            node_grid: HashMap::new(),
        }
    }
}

/// All elements are below `n`.
pub open spec fn all_below(s: Seq<u32>, n: int) -> bool {
    forall|i: int| 0 <= i < s.len() ==> #[trigger] s[i] < n
}

/// Checks that all elements are below `n`.
fn check_below(s: &Vec<u32>, n: usize) -> (r: bool)
    ensures
        r == all_below(s@, n as int),
{
    let mut i: usize = 0;
    while i < s.len()
        invariant
            i <= s@.len(),
            forall|k: int| 0 <= k < i ==> #[trigger] s@[k] < n,
        decreases s@.len() - i,
    {
        if s[i] as usize >= n {
            assert(s@[i as int] >= n);
            return false;
        }
        i += 1;
    }
    true
}

impl TransitData {
    pub open spec fn stop_ok(self, s: Stop) -> bool {
        &&& all_below(s.route_idxs@, self.routes@.len() as int)
        &&& s.transfers_offset + s.num_transfers <= self.transfers@.len()
    }

    pub open spec fn route_ok(self, r: Route) -> bool {
        &&& r.stop_idxs@.len() < NOT_SET
        &&& all_below(r.stop_idxs@, self.stops@.len() as int)
        &&& all_below(r.trip_idxs@, self.trips@.len() as int)
        &&& r.num_trips <= r.trip_idxs@.len()
        &&& r.stop_times_offset + r.num_trips * r.stop_idxs@.len() <= self.arrivals@.len()
        &&& r.stop_times_offset + r.num_trips * r.stop_idxs@.len() <= self.departures@.len()
    }

    pub open spec fn trip_ok(self, t: Trip) -> bool {
        t.service_idx == NOT_SET || t.service_idx < self.services@.len()
    }

    /// Every stored index that the search follows is within the array it points into.
    pub open spec fn wf(self) -> bool {
        &&& self.stops@.len() < NOT_SET
        &&& self.routes@.len() < NOT_SET
        &&& forall|i: int| 0 <= i < self.stops@.len() ==> self.stop_ok(#[trigger] self.stops@[i])
        &&& forall|i: int|
            0 <= i < self.routes@.len() ==> self.route_ok(#[trigger] self.routes@[i])
        &&& forall|i: int| 0 <= i < self.trips@.len() ==> self.trip_ok(#[trigger] self.trips@[i])
        &&& forall|i: int|
            0 <= i < self.transfers@.len() ==> (#[trigger] self.transfers@[i]).to_stop_idx
                < self.stops@.len()
    }

    fn check_stop(&self, s: &Stop) -> (r: bool)
        ensures
            r == self.stop_ok(*s),
    {
        check_below(&s.route_idxs, self.routes.len()) && s.transfers_offset as u64
            + s.num_transfers as u64 <= self.transfers.len() as u64
    }

    fn check_route(&self, r: &Route) -> (ok: bool)
        ensures
            ok == self.route_ok(*r),
    {
        if r.stop_idxs.len() >= NOT_SET as usize {
            return false;
        }
        let n: u64 = r.stop_idxs.len() as u64;
        proof {
            assert(r.num_trips * n <= 0xffff_ffff * 0xffff_ffff) by (nonlinear_arith)
                requires
                    0 <= r.num_trips <= 0xffff_ffff,
                    0 <= n <= 0xffff_ffff,
            ;
            assert(0 <= r.num_trips * n) by (nonlinear_arith);
        }
        let end: u64 = r.stop_times_offset as u64 + r.num_trips as u64 * n;
        check_below(&r.stop_idxs, self.stops.len()) && check_below(&r.trip_idxs, self.trips.len())
            && r.num_trips as u64 <= r.trip_idxs.len() as u64 && end <= self.arrivals.len() as u64
            && end <= self.departures.len() as u64
    }

    /// Checks that every stored index that the search follows is within the array it points into.
    pub fn check(&self) -> (r: bool)
        ensures
            r == self.wf(),
    {
        if self.stops.len() >= NOT_SET as usize || self.routes.len() >= NOT_SET as usize {
            return false;
        }
        let mut i: usize = 0;
        while i < self.stops.len()
            invariant
                i <= self.stops@.len(),
                forall|k: int| 0 <= k < i ==> self.stop_ok(#[trigger] self.stops@[k]),
            decreases self.stops@.len() - i,
        {
            if !self.check_stop(&self.stops[i]) {
                assert(!self.stop_ok(self.stops@[i as int]));
                return false;
            }
            i += 1;
        }
        let mut i: usize = 0;
        while i < self.routes.len()
            invariant
                i <= self.routes@.len(),
                forall|k: int| 0 <= k < i ==> self.route_ok(#[trigger] self.routes@[k]),
            decreases self.routes@.len() - i,
        {
            if !self.check_route(&self.routes[i]) {
                assert(!self.route_ok(self.routes@[i as int]));
                return false;
            }
            i += 1;
        }
        let mut i: usize = 0;
        while i < self.trips.len()
            invariant
                i <= self.trips@.len(),
                forall|k: int| 0 <= k < i ==> self.trip_ok(#[trigger] self.trips@[k]),
            decreases self.trips@.len() - i,
        {
            let svc: u32 = self.trips[i].service_idx;
            if svc != NOT_SET && svc as usize >= self.services.len() {
                assert(!self.trip_ok(self.trips@[i as int]));
                return false;
            }
            i += 1;
        }
        let mut i: usize = 0;
        while i < self.transfers.len()
            invariant
                i <= self.transfers@.len(),
                forall|k: int|
                    0 <= k < i ==> (#[trigger] self.transfers@[k]).to_stop_idx
                        < self.stops@.len(),
            decreases self.transfers@.len() - i,
        {
            if self.transfers[i].to_stop_idx as usize >= self.stops.len() {
                assert(self.transfers@[i as int].to_stop_idx >= self.stops@.len());
                return false;
            }
            i += 1;
        }
        true
    }

    /// A stop time of a well-formed route lies within the packed arrays.
    pub proof fn lemma_time_index(self, route_idx: int, trip_num: int, stop_pos: int)
        requires
            self.wf(),
            0 <= route_idx < self.routes@.len(),
            0 <= trip_num < self.routes@[route_idx].num_trips,
            0 <= stop_pos < self.routes@[route_idx].stop_idxs@.len(),
        ensures
            0 <= self.routes@[route_idx].time_index(trip_num, stop_pos) < self.arrivals@.len(),
            self.routes@[route_idx].time_index(trip_num, stop_pos) < self.departures@.len(),
    {
        let r = self.routes@[route_idx];
        let n = r.stop_idxs@.len() as int;
        assert(self.route_ok(r));
        assert(0 <= trip_num * n && trip_num * n + stop_pos < r.num_trips * n) by (nonlinear_arith)
            requires
                0 <= trip_num < r.num_trips,
                0 <= stop_pos < n,
        ;
    }
}

} // verus!
