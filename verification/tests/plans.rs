use wheels_router_nano::data::{
    Agency, FareRule, Route, Service, Stop, Transfer, TransitData, Trip, WalkGraph, NOT_SET,
};
use wheels_router_nano::gtfs::{parse_color, parse_time, secs_to_timestr};
use wheels_router_nano::planner::{
    color_to_hex, journey_walks, parse_walk_speed, route_type_to_mode, secs_to_iso, stop_walks,
    walk_limit, StopGap, WalkSpeed,
};
use wheels_router_nano::raptor::{earliest_trip, find_stop_pos, run, RaptorQuery};
use wheels_router_nano::request::{
    parse_datetime, parse_location, plan_request_from_input, PlanRequest, PlanRequestInput,
};
use wheels_router_nano::router::Router;
use wheels_router_nano::types::{Leg, Plan, RouteOption, WalkLeg};
use wheels_router_nano::viz;
use wheels_router_nano::walker::{reachable_stops_from_coord, WalkReach};

fn stop(id: &str, routes: Vec<u32>, offset: u32, n: u16) -> Stop {
    Stop {
        id: id.to_string(),
        name: format!("Stop {}", id),
        lat: 1,
        lon: 2,
        location_type: 0,
        parent_idx: NOT_SET,
        platform_code: if id == "C" { "7".to_string() } else { String::new() },
        zone_id: String::new(),
        transfers_offset: offset,
        num_transfers: n,
        route_idxs: routes,
        walk_node_idx: NOT_SET,
    }
}

fn route(id: &str, stops: Vec<u32>, offset: u32, trips: Vec<u32>) -> Route {
    Route {
        id: id.to_string(),
        short_name: id.to_string(),
        long_name: String::new(),
        route_type: 1,
        color: 0xff8000,
        text_color: 0,
        agency_idx: 0,
        stop_idxs: stops,
        stop_times_offset: offset,
        num_trips: trips.len() as u32,
        trip_idxs: trips,
    }
}

fn trip(id: &str, route: u32) -> Trip {
    Trip {
        id: id.to_string(),
        route_idx: route,
        service_idx: 0,
        headsign: "Out".to_string(),
        direction_id: 0,
        frequency_rules: vec![],
        template_first_departure: 0,
    }
}

/// A -> B by route X (two trips), a footpath from B to C, and C -> D by route Y, with a footpath
/// from D to E.
fn network() -> Router {
    Router {
        data: TransitData {
            feed_id: "F".to_string(),
            timezone: "UTC".to_string(),
            stops: vec![
                stop("A", vec![0], 0, 0),
                stop("B", vec![0], 0, 1),
                stop("C", vec![1], 0, 0),
                stop("D", vec![1], 1, 1),
                stop("E", vec![], 0, 0),
            ],
            routes: vec![
                route("X", vec![0, 1], 0, vec![0, 1]),
                route("Y", vec![2, 3], 4, vec![2]),
            ],
            trips: vec![trip("T0", 0), trip("T1", 0), trip("T2", 1)],
            agencies: vec![Agency {
                id: "A".to_string(),
                name: "Agency".to_string(),
                url: String::new(),
            }],
            arrivals: vec![1000, 1600, 2000, 2600, 3000, 3600],
            departures: vec![1000, 1600, 2000, 2600, 3060, 3660],
            transfers: vec![
                Transfer {
                    to_stop_idx: 2,
                    walk_seconds: 120,
                    dist_meters: 100,
                },
                Transfer {
                    to_stop_idx: 4,
                    walk_seconds: 90,
                    dist_meters: 80,
                },
            ],
            services: vec![Service {
                id: "W".to_string(),
                start_date: 100,
                day_bits: vec![1],
            }],
            walk_graph: WalkGraph::default(),
            road_graph: WalkGraph::default(),
            fare_rules: vec![
                FareRule {
                    route_idx: 1,
                    price: 250,
                    currency_hash: 0,
                },
                FareRule {
                    route_idx: NOT_SET,
                    price: 100,
                    currency_hash: 0,
                },
            ],
        },
    }
}

fn request() -> PlanRequest {
    PlanRequest {
        origin_lat: 10,
        origin_lon: 11,
        dest_lat: 20,
        dest_lon: 21,
        departure_time: 900,
        service_day: 100,
        date_str: "2025-01-06".to_string(),
        max_transfers: None,
        max_results: None,
        max_walk_distance: None,
        walking_speed: None,
    }
}

fn reach(stops: Vec<(u32, u32, u32)>) -> WalkReach {
    WalkReach {
        stops,
        dijk: None,
        start_node: None,
    }
}

fn plans(router: &Router, origin: &WalkReach, dest: &WalkReach) -> Vec<Plan> {
    let req = request();
    let journeys = router.find_journeys(&req, &origin.stops, &dest.stops);
    let walks = journeys
        .iter()
        .map(|j| {
            let gaps: Vec<StopGap> = stop_walks(&router.data, j)
                .iter()
                .map(|_| StopGap {
                    metres: 55,
                    from_near: None,
                    to_near: None,
                })
                .collect();
            journey_walks(&router.data, &req, j, origin, dest, None, None, &gaps)
        })
        .collect();
    router
        .plan(&req, &journeys, &origin.stops, &dest.stops, &walks)
        .plans
}

fn as_walk(leg: &Leg) -> &WalkLeg {
    match leg {
        Leg::Walk(w) => w,
        _ => panic!("not a walk"),
    }
}

fn as_ride(leg: &Leg) -> &RouteOption {
    match leg {
        Leg::Transit(t) => &t.route_options[0],
        _ => panic!("not a ride"),
    }
}

#[test]
fn plans_tell_the_whole_way() {
    let router = network();
    assert!(router.check());
    let found = plans(
        &router,
        &reach(vec![(0, 60, 70)]),
        &reach(vec![(4, 30, 35)]),
    );
    assert_eq!(found.len(), 1);
    let p = &found[0];
    assert_eq!(p.legs.len(), 6);
    assert_eq!(p.start_time, "2025-01-06T00:15:40Z");
    assert_eq!(p.duration_seconds, 3600 + 90 + 30 - (1000 - 60));
    assert_eq!(p.duration_seconds_min, Some(p.duration_seconds));

    let access = as_walk(&p.legs[0]);
    assert_eq!(access.walk_type.as_deref(), Some("station_access"));
    assert_eq!(access.distance_meters, Some(70));
    assert_eq!(access.duration_seconds, 60);
    assert_eq!(access.path, Some(vec![(10, 11), (1, 2)]));
    let from = access.from.as_ref().unwrap();
    assert_eq!(from.address.as_deref(), Some("START"));
    assert_eq!(from.stop_id, None);

    let first = as_ride(&p.legs[1]);
    assert_eq!(first.route_id, "X");
    assert_eq!(first.trip_id.as_deref(), Some("T0"));
    assert_eq!(first.mode, "subway");
    assert_eq!(first.color.as_deref(), Some("ff8000"));
    assert_eq!(first.text_color, None);
    assert_eq!(first.duration_seconds, 600);
    assert_eq!(first.headsign.as_deref(), Some("Out"));
    assert_eq!(first.agency.url, None);
    assert_eq!(first.fare.as_ref().unwrap().base_fare, 100);
    assert_eq!(first.fare.as_ref().unwrap().currency, "USD");
    assert_eq!(first.stops.len(), 2);
    assert_eq!(first.stops[0].arrival_offset_minutes, None);
    assert_eq!(first.stops[0].departure_offset_minutes, Some(0));
    assert_eq!(first.stops[1].arrival_offset_minutes, Some(10));
    assert_eq!(first.stops[1].departure_offset_minutes, None);

    let change = as_walk(&p.legs[2]);
    assert_eq!(change.walk_type.as_deref(), Some("station_transfer"));
    assert_eq!(change.duration_seconds, 3060 - 1600);
    assert_eq!(change.distance_meters, Some(55));
    assert_eq!(
        change.to.as_ref().unwrap().platform.as_deref(),
        Some("7")
    );

    let second = as_ride(&p.legs[3]);
    assert_eq!(second.fare.as_ref().unwrap().base_fare, 250);
    assert_eq!(second.start_time.as_deref(), Some("2025-01-06T00:51:00Z"));

    let last = as_walk(&p.legs[4]);
    assert_eq!(last.walk_type.as_deref(), Some("station_transfer"));
    assert_eq!(last.duration_seconds, 90);

    let egress = as_walk(&p.legs[5]);
    assert_eq!(egress.walk_type.as_deref(), Some("station_egress"));
    assert_eq!(egress.path, Some(vec![(1, 2), (20, 21)]));
    assert_eq!(
        egress.to.as_ref().unwrap().address.as_deref(),
        Some("END")
    );
}

#[test]
fn legs_begin_where_the_last_one_ended() {
    let router = network();
    for dest in [3, 4] {
        let found = plans(
            &router,
            &reach(vec![(0, 60, 70)]),
            &reach(vec![(dest, 30, 35)]),
        );
        for p in &found {
            let begin = |leg: &Leg| match leg {
                Leg::Walk(w) => w.from.as_ref().unwrap().stop_id.clone(),
                Leg::Transit(t) => t.route_options[0].from.stop_id.clone(),
                Leg::Wait(_) => None,
            };
            let end = |leg: &Leg| match leg {
                Leg::Walk(w) => w.to.as_ref().unwrap().stop_id.clone(),
                Leg::Transit(t) => t.route_options[0].to.stop_id.clone(),
                Leg::Wait(_) => None,
            };
            for k in 1..p.legs.len() {
                assert_eq!(end(&p.legs[k - 1]), begin(&p.legs[k]));
            }
        }
        assert!(!found.is_empty());
    }
}

#[test]
fn without_stops_in_reach_there_are_no_plans() {
    let router = network();
    assert!(plans(&router, &reach(vec![]), &reach(vec![(1, 0, 0)])).is_empty());
    assert!(plans(&router, &reach(vec![(0, 0, 0)]), &reach(vec![])).is_empty());
}

#[test]
fn walks_of_no_length_are_left_out() {
    let router = network();
    let found = plans(&router, &reach(vec![(0, 0, 0)]), &reach(vec![(1, 0, 0)]));
    assert_eq!(found.len(), 1);
    assert_eq!(found[0].legs.len(), 1);
    assert_eq!(as_ride(&found[0].legs[0]).trip_id.as_deref(), Some("T0"));
}

fn query(origin: Vec<(u32, u32)>, dest: Vec<(u32, u32)>, at: u32, transfers: u32) -> RaptorQuery {
    RaptorQuery {
        origin_stops: origin,
        dest_stops: dest,
        departure_time: at,
        service_day: 100,
        max_transfers: transfers,
        max_results: 5,
    }
}

#[test]
fn the_earliest_trip_is_boarded() {
    let data = network().data;
    let b = earliest_trip(&data, 0, 0, 1000, 100, false).unwrap();
    assert_eq!((b.trip_num, b.time, b.freq_delta), (0, 1000, 0));
    let b = earliest_trip(&data, 0, 0, 1001, 100, false).unwrap();
    assert_eq!((b.trip_num, b.time), (1, 2000));
    assert!(earliest_trip(&data, 0, 0, 2001, 100, false).is_none());
    assert!(earliest_trip(&data, 0, 0, 0, 101, false).is_none());
}

#[test]
fn transfers_are_counted() {
    let data = network().data;
    let far = vec![(3, 0)];
    assert!(run(&data, &query(vec![(0, 0)], far.clone(), 900, 0)).is_empty());
    let js = run(&data, &query(vec![(0, 0)], far, 900, 1));
    assert_eq!(js.len(), 1);
    assert_eq!(js[0].legs.len(), 2);
    assert_eq!(js[0].arrival_time, 3600);
    assert_eq!(js[0].departure_time, 1000);
}

#[test]
fn journeys_never_leave_before_the_traveller() {
    let data = network().data;
    let js = run(&data, &query(vec![(0, 50)], vec![(1, 10)], 940, 3));
    assert_eq!(js.len(), 1);
    assert_eq!(js[0].departure_time, 950);
    assert_eq!(js[0].arrival_time, 1610);
    let js = run(&data, &query(vec![(0, 50)], vec![(1, 10)], 951, 3));
    assert_eq!(js[0].departure_time, 1950);
    assert_eq!(js[0].legs[0].trip_num, 1);
}

#[test]
fn direct_trips_are_found() {
    let data = network().data;
    let js = run(&data, &query(vec![(0, 0)], vec![(1, 5)], 1000, 3));
    assert_eq!(js[0].arrival_time, 1605);
    let js = run(&data, &query(vec![(0, 0)], vec![(1, 5)], 2000, 3));
    assert_eq!(js[0].arrival_time, 2605);
    assert!(run(&data, &query(vec![(0, 0)], vec![(1, 5)], 2001, 3)).is_empty());
}

#[test]
fn an_earlier_trip_is_changed_to_on_the_way() {
    let mut data = network().data;
    data.routes = vec![route("Z", vec![0, 1, 2], 0, vec![0, 1])];
    data.trips = vec![trip("T0", 0), trip("T1", 0)];
    data.arrivals = vec![850, 910, 930, 900, 920, 940];
    data.departures = data.arrivals.clone();
    for s in 0..5 {
        data.stops[s].route_idxs = if s < 3 { vec![0] } else { vec![] };
        data.stops[s].num_transfers = 0;
    }
    assert!(data.check());
    // T1 can be boarded at the first stop, but T0 can still be caught at the second
    let js = run(&data, &query(vec![(0, 5), (1, 15)], vec![(2, 0)], 890, 3));
    assert_eq!(js[0].arrival_time, 930);
    let js = run(&data, &query(vec![(1, 15)], vec![(2, 0)], 890, 3));
    assert_eq!(js[0].arrival_time, 930);
}

/// Three stops in a row, with two trips that leave ten minutes apart.
fn line() -> TransitData {
    let mut data = network().data;
    data.routes = vec![route("Z", vec![0, 1, 2], 0, vec![0, 1])];
    data.trips = vec![trip("T0", 0), trip("T1", 0)];
    data.arrivals = vec![35400, 36480, 37800, 36000, 37200, 38400];
    data.departures = data.arrivals.clone();
    for s in 0..5 {
        data.stops[s].route_idxs = if s < 3 { vec![0] } else { vec![] };
        data.stops[s].num_transfers = 0;
    }
    data
}

#[test]
fn the_earliest_arrival_is_found() {
    let data = line();
    assert!(data.check());
    let js = run(&data, &query(vec![(0, 300), (1, 900)], vec![(2, 0)], 35400, 3));
    assert_eq!(js[0].arrival_time, 37800);
    assert_eq!(js[0].legs[0].trip_num, 0);
}

#[test]
fn arrivals_add_up() {
    let data = line();
    for j in run(&data, &query(vec![(0, 0)], vec![(1, 50), (2, 70)], 35000, 3)) {
        let last = &j.legs[j.legs.len() - 1];
        let end = data.routes[0].stop_idxs[last.alight_stop_pos as usize];
        assert_eq!(end, j.egress_stop_idx);
        assert_eq!(j.arrival_time, last.alight_time + j.egress_walk_secs);
    }
}

#[test]
fn routes_without_agencies_are_searched_but_not_shown() {
    let mut router = network();
    router.data.agencies.clear();
    assert!(router.check());
    let stops = vec![(0, 0, 0)];
    let dest = vec![(1, 10, 12)];
    let journeys = router.find_journeys(&request(), &stops, &dest);
    assert_eq!(journeys.len(), 1);
    assert!(!router.check_agencies(&journeys));
    assert!(router.check_agencies(&vec![]));
    assert!(network().check_agencies(&journeys));
}

#[test]
fn no_journey_is_beaten_by_another() {
    let data = line();
    let q = query(vec![(0, 0), (1, 100)], vec![(1, 2000), (2, 0)], 35000, 3);
    let js = run(&data, &q);
    assert!(!js.is_empty());
    for (i, a) in js.iter().enumerate() {
        for (j, b) in js.iter().enumerate() {
            let beaten = b.departure_time >= a.departure_time && b.arrival_time <= a.arrival_time;
            assert!(i == j || !beaten);
        }
    }
}

#[test]
fn footpaths_lead_on_from_rides() {
    let data = network().data;
    let js = run(&data, &query(vec![(0, 0)], vec![(2, 5)], 1000, 0));
    assert_eq!(js.len(), 1);
    assert_eq!(js[0].legs.len(), 1);
    assert_eq!(js[0].arrival_time, 1600 + 120 + 5);
}

#[test]
fn stops_are_looked_for_from_a_position_on() {
    let r = route("Z", vec![4, 5, 4, 6], 0, vec![]);
    assert_eq!(find_stop_pos(&r, 4, 0), 0);
    assert_eq!(find_stop_pos(&r, 4, 1), 2);
    assert_eq!(find_stop_pos(&r, 5, 2), 1);
    assert_eq!(find_stop_pos(&r, 9, 2), 0);
    assert_eq!(find_stop_pos(&r, 6, 9), 3);
}

#[test]
fn rounds_are_shown() {
    let router = network();
    let v = router.plan_viz(&request(), &vec![(0, 60, 70)]);
    assert_eq!(v.departure_time, 900);
    assert_eq!(v.num_stops_total, 5);
    assert_eq!(v.rounds[0].len(), 1);
    assert_eq!(v.rounds[0][0].arrival_secs, 960);
    assert_eq!(v.rounds[0][0].route_idx, NOT_SET);
    assert_eq!(v.rounds[0][0].route_color, "#007aff");
    assert_eq!(v.rounds[1].len(), 2);
    let b = &v.rounds[1][0];
    assert_eq!((b.stop_idx, b.arrival_secs, b.round), (1, 1600, 1));
    assert_eq!((b.route_idx, b.parent_stop_idx), (0, 0));
    assert_eq!((b.board_stop_pos, b.alight_stop_pos), (0, 1));
    assert_eq!(b.route_color, "#ff8000");
    let c = &v.rounds[1][1];
    assert_eq!((c.stop_idx, c.parent_stop_idx, c.route_idx), (2, 1, NOT_SET));
    assert_eq!(v.routes.len(), 2);
    assert_eq!(v.routes[&1].color, "#ff8000");
    assert_eq!(v.routes[&1].stops, vec![(1, 2), (1, 2)]);
}

#[test]
fn requests_have_defaults() {
    let mut req = request();
    assert_eq!(walk_limit(&req), 1600);
    assert_eq!(viz::walk_limit(&req), 1200);
    req.max_walk_distance = Some(7);
    assert_eq!(walk_limit(&req), 7);
    assert_eq!(viz::walk_limit(&req), 7);
}

#[test]
fn stops_within_reach_are_found() {
    let data = network().data;
    let straight = vec![10, 20, 30, 40, 50];
    let r = reachable_stops_from_coord(&data.walk_graph, &data.stops, &straight, None, 30);
    assert_eq!(r.stops, vec![(0, 10), (1, 20), (2, 30)]);
    let r = r.timed(&vec![8, 16, 25]);
    assert_eq!(r.stops, vec![(0, 8, 10), (1, 16, 20), (2, 25, 30)]);
    assert!(r.dijk.is_none());
}

#[test]
fn modes_colors_and_times_are_written() {
    assert_eq!(route_type_to_mode(0), "tram");
    assert_eq!(route_type_to_mode(3), "bus");
    assert_eq!(route_type_to_mode(12), "monorail");
    assert_eq!(route_type_to_mode(99), "bus");
    assert_eq!(color_to_hex(0xff), "0000ff");
    assert_eq!(color_to_hex(0x12ab_cdef), "abcdef");
    assert_eq!(secs_to_iso("2025-01-06", 29109), "2025-01-06T08:05:09Z");
    assert_eq!(secs_to_iso("2025-01-06", 90000), "2025-01-06T01:00:00Z");
    assert_eq!(secs_to_iso("2025-01-06", 176400), "2025-01-06T01:00:00Z");
}

#[test]
fn what_is_written_is_read_back() {
    for secs in [0, 59, 3600, 36030, 86399] {
        assert_eq!(
            parse_datetime(&secs_to_iso("2026-03-09", secs)).unwrap(),
            (secs, 20521, "2026-03-09".to_string())
        );
    }
    for secs in [0, 29109, 90000, 400000] {
        assert_eq!(parse_time(&secs_to_timestr(secs)), secs);
    }
    for color in [1, 0xff8000, 0xffffff] {
        assert_eq!(parse_color(&color_to_hex(color)), color);
    }
}

#[test]
fn walking_speeds_are_read() {
    assert!(matches!(parse_walk_speed(None), WalkSpeed::Normal));
    assert!(matches!(parse_walk_speed(Some("normal")), WalkSpeed::Normal));
    assert!(matches!(parse_walk_speed(Some("slow")), WalkSpeed::Slow));
    assert!(matches!(parse_walk_speed(Some("fast")), WalkSpeed::Fast));
    assert!(matches!(parse_walk_speed(Some("1.5")), WalkSpeed::Given(s) if s == "1.5"));
}

#[test]
fn dates_and_times_are_read() {
    assert_eq!(
        parse_datetime(" 2026-03-09T10:00:30ZZ ").unwrap(),
        (36030, 20521, "2026-03-09".to_string())
    );
    assert_eq!(parse_datetime("2026-03-09T10:00").unwrap().0, 36000);
    assert_eq!(
        parse_datetime("2025-11-25T09:13:30.000Z").unwrap(),
        (33210, 20417, "2025-11-25".to_string())
    );
    assert_eq!(parse_datetime("2026-03-09T10:00:x").unwrap().0, 36000);
    let error = |s: &str| parse_datetime(s).unwrap_err();
    assert_eq!(error("2026-03-09"), "invalid datetime: 2026-03-09");
    assert_eq!(error("2026-03T10:00"), "invalid date: 2026-03");
    assert_eq!(error("x-03-09T10:00"), "bad year");
    assert_eq!(error("2026-x-09T10:00"), "bad month");
    assert_eq!(error("2026-03-xT10:00"), "bad day");
    assert_eq!(error("2026-03-09T10"), "invalid time: 10");
    assert_eq!(error("2026-03-09Tx:00"), "bad hour");
    assert_eq!(error("2026-03-09T10:x"), "bad minute");
}

#[test]
fn places_are_read() {
    assert_eq!(parse_location("1, 2", Some(1), Some(2)), Ok((1, 2)));
    let error = |s: &str, lat, lon| parse_location(s, lat, lon).unwrap_err();
    assert_eq!(
        error("stop:9", None, None),
        "stop: references not yet supported, use lat,lon"
    );
    assert_eq!(error("1", Some(1), None), "invalid location format: 1");
    assert_eq!(error("1,2,3", Some(1), Some(2)), "invalid location format: 1,2,3");
    assert_eq!(error("a, 2", None, Some(2)), "invalid latitude: a");
    assert_eq!(error("1, b", Some(1), None), "invalid longitude:  b");
}

fn input() -> PlanRequestInput {
    PlanRequestInput {
        origin: "1,2".to_string(),
        destination: "3,4".to_string(),
        depart_at: None,
        arrive_by: None,
        modes: None,
        max_transfers: Some(2),
        max_results: Some(4),
        max_walk_distance: None,
        walking_speed: Some("fast".to_string()),
        modifier: None,
    }
}

#[test]
fn requests_are_understood() {
    let given = (Some(1), Some(2));
    let r = plan_request_from_input(input(), given, (Some(3), Some(4))).unwrap();
    assert_eq!((r.origin_lat, r.origin_lon, r.dest_lat, r.dest_lon), (1, 2, 3, 4));
    assert_eq!((r.departure_time, r.service_day), (28800, 0));
    assert_eq!(r.date_str, "2026-01-01");
    assert_eq!((r.max_transfers, r.max_results), (Some(2), Some(4)));
    assert_eq!(r.walking_speed.as_deref(), Some("fast"));
    let e = plan_request_from_input(input(), given, (None, Some(4))).unwrap_err();
    assert_eq!(e, "invalid latitude: 3");
    let mut late = input();
    late.depart_at = Some("never".to_string());
    let e = plan_request_from_input(late, given, (Some(3), Some(4))).unwrap_err();
    assert_eq!(e, "invalid datetime: never");
}
