use wheels_router_nano::calendar::days_since_epoch;
use wheels_router_nano::data::{
    Agency, FrequencyRule, Route, Service, Stop, TransitData, Trip, WalkGraph, NOT_SET,
};
use wheels_router_nano::raptor::{run, RaptorQuery};
use wheels_router_nano::request::{coordinate_texts, parse_datetime, parse_location};

fn bits(x: f64) -> u64 {
    x.to_bits()
}

fn stop(id: &str, name: &str, lat: f64) -> Stop {
    Stop {
        id: id.to_string(),
        name: name.to_string(),
        lat: bits(lat),
        lon: bits(0.0),
        location_type: 0,
        parent_idx: NOT_SET,
        platform_code: String::new(),
        zone_id: String::new(),
        transfers_offset: 0,
        num_transfers: 0,
        route_idxs: vec![0],
        walk_node_idx: NOT_SET,
    }
}

/// One frequency-based route: stop 0 -> stop 1 -> stop 2. The template leaves at 06:00 and takes
/// ten minutes between stops; it repeats every ten minutes from 08:00 to 10:00 on day 20000.
fn make_freq_data() -> TransitData {
    let template_first_dep: u32 = 6 * 3600;
    TransitData {
        feed_id: "test".to_string(),
        timezone: "UTC".to_string(),
        stops: vec![
            stop("S0", "Stop0", 0.0),
            stop("S1", "Stop1", 0.001),
            stop("S2", "Stop2", 0.002),
        ],
        routes: vec![Route {
            id: "R0".to_string(),
            short_name: "1".to_string(),
            long_name: String::new(),
            route_type: 3,
            color: 0,
            text_color: 0,
            agency_idx: 0,
            stop_idxs: vec![0, 1, 2],
            stop_times_offset: 0,
            num_trips: 1,
            trip_idxs: vec![0],
        }],
        trips: vec![Trip {
            id: "T0".to_string(),
            route_idx: 0,
            service_idx: 0,
            headsign: String::new(),
            direction_id: 0,
            frequency_rules: vec![FrequencyRule {
                start_time: 8 * 3600,
                end_time: 10 * 3600,
                headway_secs: 600,
                exact_times: false,
            }],
            template_first_departure: template_first_dep,
        }],
        agencies: vec![Agency {
            id: "A".to_string(),
            name: "Agency".to_string(),
            url: String::new(),
        }],
        arrivals: vec![21600, 22200, 22800],
        departures: vec![21600, 22200, 22800],
        transfers: vec![],
        services: vec![Service {
            id: "SVC".to_string(),
            start_date: 20000,
            day_bits: vec![0b00000001],
        }],
        walk_graph: WalkGraph::default(),
        road_graph: WalkGraph::default(),
        fare_rules: vec![],
    }
}

#[test]
fn test_frequency_trip_raptor() {
    let data = make_freq_data();
    assert!(data.check());
    let query = RaptorQuery {
        origin_stops: vec![(0, 0)],
        dest_stops: vec![(2, 0)],
        departure_time: 29100,
        service_day: 20000,
        max_transfers: 3,
        max_results: 5,
    };
    let journeys = run(&data, &query);
    assert!(
        !journeys.is_empty(),
        "expected at least one journey for frequency trip"
    );
    let j = &journeys[0];
    assert_eq!(j.legs.len(), 1, "expected 1 leg");
    let leg = &j.legs[0];
    assert_eq!(
        leg.board_time, 29400,
        "board time should be 08:10 = 29400, got {}",
        leg.board_time
    );
    assert_eq!(
        leg.alight_time, 30600,
        "alight time should be 08:30 = 30600, got {}",
        leg.alight_time
    );
}

#[test]
fn test_parse_location() {
    let s = "22.297432,114.237296";
    let (lat_text, lon_text) = coordinate_texts(s).unwrap();
    let lat: Option<u64> = lat_text.parse::<f64>().ok().map(bits);
    let lon: Option<u64> = lon_text.parse::<f64>().ok().map(bits);
    let (lat, lon) = parse_location(s, lat, lon).unwrap();
    assert!((f64::from_bits(lat) - 22.297432).abs() < 0.0001);
    assert!((f64::from_bits(lon) - 114.237296).abs() < 0.0001);
}

#[test]
fn test_parse_datetime() {
    let (secs, _day, date) = parse_datetime("2025-11-25T09:13:00Z").unwrap();
    assert_eq!(secs, 9 * 3600 + 13 * 60);
    assert_eq!(date, "2025-11-25");
}

#[test]
fn test_days_since_epoch() {
    let d = days_since_epoch(2025, 1, 1);
    assert_eq!(d, 20089);
}

#[test]
fn test_service_bitfield() {
    let svc = Service {
        id: "test".to_string(),
        start_date: 100,
        day_bits: vec![0b10101010, 0b01010101],
    };
    assert!(!svc.runs_on(100));
    assert!(svc.runs_on(101));
    assert!(!svc.runs_on(102));
    assert!(svc.runs_on(103));
}
