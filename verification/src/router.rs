//! The router: a loaded timetable that answers requests.

use crate::data::{Stop, TransitData, WalkGraph, NOT_SET};
use crate::feed as f;
use crate::file;
use crate::grid as gr;
use crate::loader as l;
use crate::planner as pl;
use crate::planner::JourneyWalks;
use crate::raptor as rp;
use crate::raptor::{RaptorJourney, RaptorQuery};
use crate::raptor_model as m;
use crate::request::PlanRequest;
use crate::types::PlanResponse;
use crate::viz as v;
use crate::viz::RaptorVizJson;
use crate::walker as w;
use vstd::prelude::*;

verus! {

/// A loaded timetable.
#[derive(Debug)]
pub struct Router {
    pub data: TransitData,
}

/// How much a timetable holds.
#[derive(Debug, Clone, Copy)]
pub struct Stats {
    pub stops: usize,
    pub routes: usize,
    pub trips: usize,
    pub services: usize,
}

fn check_links(stops: &Vec<Stop>, graph: &WalkGraph) -> (r: bool)
    ensures
        r == w::stops_linked(stops@, *graph),
{
    let mut i: usize = 0;
    while i < stops.len()
        invariant
            i <= stops@.len(),
            forall|k: int|
                0 <= k < i ==> (#[trigger] stops@[k]).walk_node_idx == NOT_SET
                    || stops@[k].walk_node_idx < graph.nodes@.len(),
        decreases stops@.len() - i,
    {
        let node: u32 = stops[i].walk_node_idx;
        if node != NOT_SET && node as usize >= graph.nodes.len() {
            assert(stops@[i as int].walk_node_idx >= graph.nodes@.len());
            return false;
        }
        i += 1;
    }
    true
}

impl Router {
    /// The timetable, its street networks and the links between them are sound.
    pub open spec fn wf(self) -> bool {
        pl::data_ok(self.data) && self.data.road_graph.wf()
    }

    /// Loads the bytes of a timetable file. Before requests are answered, the street nodes are to
    /// be listed by grid cell.
    pub fn load(bytes: &[u8]) -> (r: Result<Router, String>)
        ensures
            match r {
                Ok(router) => l::loaded_file(router.data, bytes@, Seq::empty()),
                Err(e) => file::first_failure(bytes@) == Some(e@),
            },
    {
        match l::load(bytes) {
            Ok(data) => Ok(Router { data }),
            Err(e) => Err(e),
        }
    }

    /// Lists the street nodes by the grid cells they lie in.
    pub fn list_nodes(&mut self, cells: &Vec<(i32, i32)>)
        ensures
            l::same_but_grid(final(self).data, old(self).data),
            gr::lists_members(
                final(self).data.walk_graph.node_grid@,
                cells@,
                l::all_picked(cells@.len()),
                cells@.len() as int,
            ),
    {
        l::list_nodes(&mut self.data, cells);
    }

    /// Checks that everything loaded is sound.
    pub fn check(&self) -> (r: bool)
        ensures
            r == self.wf(),
    {
        self.data.check() && self.data.walk_graph.check() && check_links(
            &self.data.stops,
            &self.data.walk_graph,
        ) && self.data.road_graph.check()
    }

    /// How much the timetable holds.
    pub fn stats(&self) -> (r: Stats)
        ensures
            r.stops == self.data.stops@.len(),
            r.routes == self.data.routes@.len(),
            r.trips == self.data.trips@.len(),
            r.services == self.data.services@.len(),
    {
        Stats {
            stops: self.data.stops.len(),
            routes: self.data.routes.len(),
            trips: self.data.trips.len(),
            services: self.data.services.len(),
        }
    }

    /// The network for roads: that of vehicles if there is one, else that of pedestrians.
    pub fn assistant_graph(&self) -> (r: &WalkGraph)
        ensures
            *r == (if self.data.road_graph.nodes@.len() > 0 {
                self.data.road_graph
            } else {
                self.data.walk_graph
            }),
    {
        if self.data.road_graph.nodes.len() > 0 {
            &self.data.road_graph
        } else {
            &self.data.walk_graph
        }
    }

    /// Finds the journeys that answer a request, from the stops within reach of its ends.
    pub fn find_journeys(
        &self,
        req: &PlanRequest,
        origin_stops: &Vec<(u32, u32, u32)>,
        dest_stops: &Vec<(u32, u32, u32)>,
    ) -> (r: Vec<RaptorJourney>)
        requires
            self.wf(),
            pl::stops_exist(origin_stops@, self.data.stops@.len() as int),
            pl::stops_exist(dest_stops@, self.data.stops@.len() as int),
        ensures
            origin_stops@.len() == 0 || dest_stops@.len() == 0 ==> r@.len() == 0,
            origin_stops@.len() > 0 && dest_stops@.len() > 0 ==> exists|q: RaptorQuery|
                pl::asks(q, *req, origin_stops@, dest_stops@) && rp::journeys_view(r@)
                    == #[trigger] m::answer(self.data, q),
            rp::journeys_ok(self.data, r@),
    {
        pl::find_journeys(&self.data, req, origin_stops, dest_stops)
    }

    /// Checks that the agencies of all rides of some journeys are listed.
    pub fn check_agencies(&self, journeys: &Vec<RaptorJourney>) -> (r: bool)
        requires
            rp::journeys_ok(self.data, journeys@),
        ensures
            r == pl::all_agencies_known(self.data, journeys@),
    {
        pl::check_agencies(&self.data, journeys)
    }

    /// Answers a request with the plans of its journeys.
    pub fn plan(
        &self,
        req: &PlanRequest,
        journeys: &Vec<RaptorJourney>,
        origin_stops: &Vec<(u32, u32, u32)>,
        dest_stops: &Vec<(u32, u32, u32)>,
        walks: &Vec<JourneyWalks>,
    ) -> (r: PlanResponse)
        requires
            self.wf(),
            rp::journeys_ok(self.data, journeys@),
            pl::all_agencies_known(self.data, journeys@),
            pl::all_walks_match(self.data, journeys@, walks@),
        ensures
            f::views(r.plans@) == pl::plans_of(
                self.data,
                *req,
                rp::journeys_view(journeys@),
                origin_stops@,
                dest_stops@,
                f::views(walks@),
            ),
    {
        pl::plan(&self.data, req, journeys, origin_stops, dest_stops, walks)
    }

    /// Shows what can be reached from the origin of a request, round by round.
    pub fn plan_viz(&self, req: &PlanRequest, origin_stops: &Vec<(u32, u32, u32)>) -> (r:
        RaptorVizJson)
        requires
            self.wf(),
            pl::stops_exist(origin_stops@, self.data.stops@.len() as int),
        ensures
            exists|q: RaptorQuery|
                {
                    let rounds = #[trigger] v::reached_rounds(
                        self.data,
                        m::query_rounds(self.data, q),
                    );
                    &&& v::explores(q, *req, origin_stops@)
                    &&& v::shown(r, self.data, rounds)
                },
            r.departure_time == req.departure_time,
            r.num_stops_total == self.data.stops@.len(),
    {
        v::plan_viz(&self.data, req, origin_stops)
    }
}

} // verus!
