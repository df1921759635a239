use wheels_router_nano::archive::FeedFiles;
use wheels_router_nano::data::{FrequencyRule, NOT_SET};
use wheels_router_nano::gtfs::GtfsData;
use wheels_router_nano::message::{hash_str, pack_number, unpack_numbers};
use wheels_router_nano::file::{message_bytes, read_message};
use wheels_router_nano::output::{build_capnp, price_texts};
use wheels_router_nano::pattern::{build_route_patterns, build_service_bitfields};
use wheels_router_nano::router::Router;
use wheels_router_nano::streets::{StreetGraph, WalkEdge, WalkNode};
use wheels_router_nano::transfers::Transfer;

fn feed() -> GtfsData {
    let mut f = FeedFiles::new();
    let list = [
        (
            "agency.txt",
            "agency_id,agency_name,agency_url,agency_timezone\nA,First,http://a,UTC\nB,Second,,UTC\n",
        ),
        (
            "stops.txt",
            "stop_id,stop_name,location_type,parent_station,platform_code,zone_id\n\
S0,Zero,0,,,z\nS1,One,0,ST,4,\nST,Station,1,,,\n",
        ),
        (
            "routes.txt",
            "route_id,agency_id,route_short_name,route_long_name,route_type\n\
R0,B,10,Ten,1\nR1,C,20,,3\n",
        ),
        (
            "trips.txt",
            "trip_id,route_id,service_id,trip_headsign,direction_id\n\
T0,R0,W,Out,0\nT1,R0,W,Back,1\nT2,R0,V,Out,0\n",
        ),
        (
            "stop_times.txt",
            "trip_id,stop_id,stop_sequence,arrival_time,departure_time\n\
T0,S0,1,08:00:00,08:01:00\nT0,S1,2,08:10:00,08:10:00\n\
T1,S1,1,09:00:00,09:00:00\nT1,S0,2,09:10:00,09:10:00\n\
T2,S0,1,07:00:00,07:00:00\nT2,S1,2,07:10:00,07:10:00\n",
        ),
        (
            "calendar.txt",
            "service_id,monday,tuesday,wednesday,thursday,friday,saturday,sunday,start_date,end_date\n\
W,1,1,1,1,1,1,1,20250106,20250106\n",
        ),
        (
            "fare_attributes.txt",
            "fare_id,price,currency_type\nF,2.50,EUR\n",
        ),
        (
            "fare_rules.txt",
            "fare_id,route_id,origin_id,destination_id\nF,R0,z,\nG,,,\nF,,,\nF,R9,,\nF,R1,,\n",
        ),
    ];
    for (name, content) in list {
        f.put(name, Ok(content.as_bytes().to_vec()));
    }
    GtfsData::load_files(&f).unwrap()
}

fn transfer(from: u32, to: u32, secs: u32) -> Transfer {
    Transfer {
        from_stop_idx: from,
        to_stop_idx: to,
        walk_seconds: secs,
        dist_meters: 2 * secs,
    }
}

fn graph() -> StreetGraph {
    let node = |i: u64| WalkNode { lat: i, lon: 50 + i };
    let edge = |to: u32, geometry: Vec<(u64, u64)>| WalkEdge {
        to_node_idx: to,
        dist_meters: 9,
        geometry,
    };
    StreetGraph {
        nodes: vec![node(0), node(1), node(2)],
        edges: vec![
            vec![edge(1, vec![(7, 7), (8, 8)]), edge(2, vec![])],
            vec![edge(0, vec![(8, 8), (7, 7)])],
            vec![],
        ],
        pedestrian: vec![true, true, false],
    }
}

fn stored_bytes() -> Vec<u8> {
    let gtfs = feed();
    let patterns = build_route_patterns(&gtfs);
    let (services, index) = build_service_bitfields(&gtfs);
    let coords = vec![(1, 2), (3, 4), (5, 6)];
    let prices: Vec<u32> = price_texts(&gtfs)
        .iter()
        .map(|p| if p.is_some() { 250 } else { 0 })
        .collect();
    let transfers = vec![
        transfer(1, 0, 100),
        transfer(0, 1, 70000),
        transfer(0, 2, 60),
        transfer(8, 1, 10),
    ];
    build_capnp(
        &gtfs,
        &coords,
        &prices,
        &patterns,
        &services,
        &index,
        &transfers,
        &graph(),
        &vec![2, NOT_SET],
    )
    .unwrap()
}

fn stored_router() -> Router {
    let mut router = Router::load(&stored_bytes()).unwrap();
    router.list_nodes(&vec![(0, 0), (0, 1), (3, 3)]);
    router
}

#[test]
fn files_hold_what_was_written() {
    let bytes = stored_bytes();
    let message = read_message(&bytes).unwrap();
    assert_eq!((message.feed_id.as_str(), message.timezone.as_str()), ("A", "UTC"));
    assert_eq!(message.stops.len(), 3);
    assert_eq!((message.stops[1].lat, message.stops[1].lon), (3, 4));
    assert_eq!(message.geometry[0], (7, 7));
    assert_eq!(message_bytes(&message).unwrap(), bytes);
}

#[test]
fn wide_numbers_and_rules_survive_storage() {
    let mut message = read_message(&stored_bytes()).unwrap();
    message.stops[0].lat = f64::to_bits(22.5);
    message.stops[0].lon = u64::MAX;
    message.stops[0].name = "Gare du Nord \u{e9}".to_string();
    message.trips[0].frequency_rules = vec![FrequencyRule {
        start_time: 1,
        end_time: u32::MAX,
        headway_secs: 3,
        exact_times: true,
    }];
    let back = read_message(&message_bytes(&message).unwrap()).unwrap();
    assert_eq!((back.stops[0].lat, back.stops[0].lon), (f64::to_bits(22.5), u64::MAX));
    assert_eq!(back.stops[0].name, "Gare du Nord \u{e9}");
    let rule = back.trips[0].frequency_rules[0];
    assert_eq!((rule.start_time, rule.end_time, rule.headway_secs), (1, u32::MAX, 3));
    assert!(rule.exact_times);
}

#[test]
fn broken_files_are_refused() {
    let bytes = stored_bytes();
    assert!(Router::load(&[]).is_err());
    assert!(Router::load(&bytes[..bytes.len() / 2]).is_err());
    let mut empty = capnp::message::Builder::new_default();
    empty.initn_root::<capnp::any_pointer_list::Builder>(3);
    let short = capnp::serialize::write_message_to_words(&empty);
    assert_eq!(read_message(&short).unwrap_err(), "damaged timetable file");
}

#[test]
fn packed_numbers_come_back() {
    let mut bytes: Vec<u8> = Vec::new();
    for x in [0, 1, 258, NOT_SET, 0x0102_0304] {
        pack_number(&mut bytes, x);
    }
    assert_eq!(&bytes[8..12], &[2, 1, 0, 0]);
    assert_eq!(unpack_numbers(&bytes), vec![0, 1, 258, NOT_SET, 0x0102_0304]);
    bytes.push(9);
    assert_eq!(unpack_numbers(&bytes).len(), 5);
}

#[test]
fn currencies_are_hashed() {
    assert_eq!(hash_str(""), 5381);
    assert_eq!(hash_str("a"), 5381 * 33 + 97);
    assert_eq!(hash_str("USD"), 193_472_369);
    assert_ne!(hash_str("EUR"), hash_str("USD"));
}

#[test]
fn prices_are_looked_up_by_rule() {
    let p = price_texts(&feed());
    assert_eq!(p.len(), 5);
    assert_eq!(p[0].as_deref(), Some("2.50"));
    assert_eq!(p[1], None);
}

#[test]
fn timetables_survive_storage() {
    let router = stored_router();
    assert!(router.check());
    let data = &router.data;
    assert_eq!(data.feed_id, "A");
    assert_eq!(data.routes.len(), 2);
    let r = &data.routes[0];
    assert_eq!(r.stop_idxs, vec![0, 1]);
    assert_eq!(r.trip_idxs, vec![2, 0]);
    assert_eq!(r.agency_idx, 1);
    assert_eq!(r.departure_at(&data.departures, 1, 0), 28860);
    assert_eq!(r.arrival_at(&data.arrivals, 1, 0), 28800);
    assert_eq!(r.arrival_at(&data.arrivals, 0, 1), 25800);
    let back = &data.routes[1];
    assert_eq!(back.stop_times_offset, 4);
    assert_eq!(back.arrival_at(&data.arrivals, 0, 1), 33000);
    assert_eq!(data.trips[0].service_idx, 0);
    assert_eq!(data.trips[2].service_idx, NOT_SET);
    assert_eq!(data.trips[1].route_idx, 1);
}

#[test]
fn footpaths_survive_storage() {
    let data = stored_router().data;
    let s = &data.stops[0];
    assert_eq!((s.transfers_offset, s.num_transfers), (0, 2));
    assert_eq!(data.transfers[0].to_stop_idx, 1);
    assert_eq!(data.transfers[0].walk_seconds, u16::MAX);
    assert_eq!(data.transfers[1].to_stop_idx, 2);
    let s = &data.stops[1];
    assert_eq!((s.transfers_offset, s.num_transfers), (2, 1));
    assert_eq!(data.transfers[2].dist_meters, 200);
    let s = &data.stops[2];
    assert_eq!((s.transfers_offset, s.num_transfers), (0, 0));
    assert_eq!(data.transfers.len(), 4);
    assert_eq!(data.transfers[3].walk_seconds, 10);
}

#[test]
fn stops_survive_storage() {
    let data = stored_router().data;
    assert_eq!(data.stops[0].route_idxs, vec![0, 1]);
    assert_eq!(data.stops[2].route_idxs, Vec::<u32>::new());
    assert_eq!(data.stops[1].parent_idx, 2);
    assert_eq!(data.stops[0].parent_idx, NOT_SET);
    assert_eq!(data.stops[1].platform_code, "4");
    assert_eq!(data.stops[0].zone_id, "z");
    assert_eq!((data.stops[1].lat, data.stops[1].lon), (3, 4));
    assert_eq!(data.stops[0].walk_node_idx, 2);
    assert_eq!(data.stops[1].walk_node_idx, NOT_SET);
    assert_eq!(data.stops[2].walk_node_idx, NOT_SET);
}

#[test]
fn streets_survive_storage() {
    let data = stored_router().data;
    let g = &data.walk_graph;
    assert_eq!((g.nodes[0].edges_offset, g.nodes[0].num_edges), (0, 2));
    assert_eq!((g.nodes[1].edges_offset, g.nodes[1].num_edges), (2, 1));
    assert_eq!((g.nodes[2].edges_offset, g.nodes[2].num_edges), (3, 0));
    let e = &g.edges[2];
    assert_eq!((e.to_node_idx, e.geometry_offset, e.geometry_len), (0, 2, 2));
    assert_eq!(g.geometry, vec![(7, 7), (8, 8), (8, 8), (7, 7)]);
    assert_eq!(
        wheels_router_nano::walker::nodes_around(g, 0, 0, 1),
        vec![0, 1]
    );
}

#[test]
fn fares_survive_storage() {
    let data = stored_router().data;
    let routes: Vec<u32> = data.fare_rules.iter().map(|x| x.route_idx).collect();
    assert_eq!(routes, vec![0, 1, NOT_SET]);
    assert_eq!(data.fare_rules[0].price, 250);
    assert_eq!(data.fare_rules[0].currency_hash, hash_str("EUR"));
}

#[test]
fn stats_count_what_was_loaded() {
    let s = stored_router().stats();
    assert_eq!((s.stops, s.routes, s.trips, s.services), (3, 2, 3, 1));
}

#[test]
fn without_roads_the_walking_network_is_used() {
    let mut router = stored_router();
    assert_eq!(router.assistant_graph().nodes.len(), 3);
    router.data.road_graph = router.data.walk_graph;
    router.data.walk_graph = Default::default();
    assert_eq!(router.assistant_graph().nodes.len(), 3);
    router.data.road_graph = Default::default();
    assert_eq!(router.assistant_graph().nodes.len(), 0);
}

#[test]
fn broken_links_are_noticed() {
    let mut router = stored_router();
    router.data.stops[0].walk_node_idx = 3;
    assert!(!router.check());
    let mut router = stored_router();
    router.data.walk_graph.edges[0].to_node_idx = 9;
    assert!(!router.check());
    let mut router = stored_router();
    router.data.arrivals.pop();
    assert!(!router.check());
}
