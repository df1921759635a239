use std::io::Write;
use wheels_router_nano::archive::{read_archive, FeedFiles};
use wheels_router_nano::calendar::{gregorian_to_epoch_days, weekday_of};
use wheels_router_nano::data::{Service, NOT_SET};
use wheels_router_nano::gtfs::{parse_color, parse_date, parse_time, secs_to_timestr, GtfsData};
use wheels_router_nano::pattern::{build_route_patterns, build_service_bitfields};
use wheels_router_nano::table::{read_csv, table_from, LoadError};
use wheels_router_nano::transfers::{compute_transfers, transfer_candidates, Measure};

fn files(list: &[(&str, &str)]) -> FeedFiles {
    let mut r = FeedFiles::new();
    for (name, content) in list {
        r.put(name, Ok(content.as_bytes().to_vec()));
    }
    r
}

fn archive(list: &[(&str, &str)]) -> Vec<u8> {
    let mut w = zip::ZipWriter::new(std::io::Cursor::new(Vec::new()));
    let options = zip::write::SimpleFileOptions::default();
    for (name, content) in list {
        w.start_file(*name, options).unwrap();
        w.write_all(content.as_bytes()).unwrap();
    }
    w.finish().unwrap().into_inner()
}

const AGENCY: &str = "agency_id,agency_name,agency_url,agency_timezone\nA,First,http://a,Europe/Rome\n";
const STOPS: &str = "stop_id,stop_name,stop_lat,stop_lon,location_type,parent_station\n\
S1,One,1.0,2.0,0,\n\
S2,Two,1.1,2.1,0,ST\n\
S3,Three,1.2,2.2,0,ST\n\
ST,Station,1.2,2.2,1,\n\
E1,Door,1.2,2.2,2,ST\n\
,Nameless,0,0,0,\n";
const ROUTES: &str = "route_id,agency_id,route_short_name,route_type,route_color\n\
R1,A,10,1,#FF8000\n\
R2,A,20,x,zz\n";
const TRIPS: &str = "trip_id,route_id,service_id,trip_headsign,direction_id\n\
T1,R1,W,Center,1\n\
T2,R1,W,,\n\
T3,R9,W,,\n\
T4,R1,W,,\n";
const STOP_TIMES: &str = "trip_id,stop_id,stop_sequence,arrival_time,departure_time\n\
T1,S2,2,08:10:00,08:11:00\n\
T1,S1,1,08:00:00,08:00:00\n\
T2,S1,1,07:00:00,07:00:00\n\
T2,S2,2,07:10:00,07:10:00\n\
T4,S1,1,09:00:00,\n\
T9,S1,1,09:00:00,\n";

fn small_feed() -> Vec<(&'static str, &'static str)> {
    vec![
        ("agency.txt", AGENCY),
        ("stops.txt", STOPS),
        ("routes.txt", ROUTES),
        ("trips.txt", TRIPS),
        ("stop_times.txt", STOP_TIMES),
    ]
}

#[test]
fn times_are_seconds_since_midnight() {
    assert_eq!(parse_time("8:05:09"), 29109);
    assert_eq!(parse_time(" 25:00:00 "), 90000);
    assert_eq!(parse_time(""), NOT_SET);
    assert_eq!(parse_time("08:00"), NOT_SET);
    assert_eq!(parse_time("a:b:c"), NOT_SET);
    assert_eq!(secs_to_timestr(29109), "08:05:09");
    assert_eq!(secs_to_timestr(90000), "25:00:00");
}

#[test]
fn dates_are_days_since_1970() {
    assert_eq!(parse_date("19700101"), Some(0));
    assert_eq!(parse_date("20250101"), Some(20089));
    assert_eq!(parse_date("20240229xyz"), Some(19782));
    assert_eq!(parse_date("2025010"), None);
    assert_eq!(parse_date("2025ab01"), None);
    assert_eq!(gregorian_to_epoch_days(2000, 3, 1), 11017);
    assert_eq!(weekday_of(0), 3);
    assert_eq!(weekday_of(20089), 2);
}

#[test]
fn colors_are_hexadecimal() {
    assert_eq!(parse_color("#FF8000"), 0xff8000);
    assert_eq!(parse_color(" ff8000 "), 0xff8000);
    assert_eq!(parse_color(""), 0);
    assert_eq!(parse_color("zz"), 0);
}

#[test]
fn tables_skip_a_byte_order_mark() {
    let f = files(&[("a.txt", "\u{feff}x,y\n1,2\n3\n")]);
    let table = read_csv(&f, "a.txt", &vec![]).unwrap();
    assert_eq!(table.get(0, "x"), "1");
    assert_eq!(table.get(0, "y"), "2");
    assert_eq!(table.get(1, "x"), "3");
    assert_eq!(table.get(1, "y"), "");
    assert_eq!(table.get(1, "z"), "");
}

#[test]
fn quoted_fields_lose_their_quotes() {
    let f = files(&[("a.txt", "name,n\n\"one, two\",\"say \"\"hi\"\"\"\n")]);
    let table = read_csv(&f, "a.txt", &vec![]).unwrap();
    assert_eq!(table.get(0, "name"), "one, two");
    assert_eq!(table.get(0, "n"), "say \"hi\"");
}

#[test]
fn a_missing_file_is_an_empty_table() {
    let table = read_csv(&FeedFiles::new(), "a.txt", &vec!["x"]).unwrap();
    assert_eq!(table.rows.len(), 0);
    assert_eq!(table.headers.len(), 0);
}

#[test]
fn tables_report_what_is_wrong() {
    let mut f = FeedFiles::new();
    f.put("head.txt", Ok(vec![0xff, b'\n']));
    f.put("row.txt", Ok(b"a\n1\n\xff\n".to_vec()));
    f.put("column.txt", Ok(b"a\n1\n".to_vec()));
    f.put("entry.txt", Err("broken".to_string()));
    assert!(matches!(
        read_csv(&f, "head.txt", &vec![]),
        Err(LoadError::Headers { file, .. }) if file == "head.txt"
    ));
    assert!(matches!(
        read_csv(&f, "row.txt", &vec![]),
        Err(LoadError::Row { file, row: 1, .. }) if file == "row.txt"
    ));
    assert!(matches!(
        read_csv(&f, "column.txt", &vec!["a", "b"]),
        Err(LoadError::MissingColumn { file, column }) if file == "column.txt" && column == "b"
    ));
    assert!(matches!(
        read_csv(&f, "entry.txt", &vec![]),
        Err(LoadError::Entry { file, cause }) if file == "entry.txt" && cause == "broken"
    ));
}

#[test]
fn tables_are_made_of_what_the_parser_gives() {
    let outcomes = vec![
        Ok(vec!["a".to_string(), "b".to_string()]),
        Ok(vec!["1".to_string()]),
    ];
    let table = table_from(outcomes, "t.txt", &vec!["b"]).unwrap();
    assert_eq!(table.get(0, "a"), "1");
    assert_eq!(table.get(0, "b"), "");
    let failed = vec![Ok(vec!["a".to_string()]), Err("bad".to_string())];
    assert!(matches!(
        table_from(failed, "t.txt", &vec![]),
        Err(LoadError::Row { row: 0, cause, .. }) if cause == "bad"
    ));
}

#[test]
fn archives_give_back_their_files() {
    let bytes = archive(&[("a.txt", "hello"), ("b.txt", "")]);
    let f = read_archive(&bytes, &vec!["a.txt", "b.txt", "c.txt"]).unwrap();
    assert_eq!(f.get("a.txt").unwrap().as_ref().unwrap(), &b"hello".to_vec());
    assert_eq!(f.get("b.txt").unwrap().as_ref().unwrap(), &Vec::<u8>::new());
    assert!(f.get("c.txt").is_none());
    assert!(read_archive(&b"no archive".to_vec(), &vec![]).is_err());
}

#[test]
fn feeds_load_from_archives() {
    let gtfs = GtfsData::load(&archive(&small_feed())).unwrap();
    assert_eq!(gtfs.timezone, "Europe/Rome");
    assert_eq!(gtfs.feed_id, "A");
    assert_eq!(gtfs.stops.len(), 5);
    assert_eq!(gtfs.stops[1].stop_name, "Two");
    assert_eq!(gtfs.stops[1].parent_station, "ST");
    assert_eq!(gtfs.routes[0].route_type, 1);
    assert_eq!(gtfs.routes[0].color, 0xff8000);
    assert_eq!(gtfs.routes[1].route_type, 3);
    assert_eq!(gtfs.routes[1].color, 0);
    assert_eq!(gtfs.trips.len(), 3);
    assert_eq!(gtfs.trips[0].headsign, "Center");
    assert_eq!(gtfs.trips[0].direction_id, 1);
    let st = gtfs.stop_times.get("T1").unwrap();
    assert_eq!(st.stop_idxs, vec![0, 1]);
    assert_eq!(st.arrivals, vec![28800, 29400]);
    assert_eq!(st.departures, vec![28800, 29460]);
    assert!(gtfs.stop_times.get("T9").is_none());
}

#[test]
fn feeds_report_what_is_wrong() {
    assert!(matches!(
        GtfsData::load(&b"no archive".to_vec()),
        Err(LoadError::Archive { .. })
    ));
    let mut list = small_feed();
    list[4] = ("stop_times.txt", "trip_id,stop_sequence\nT1,1\n");
    assert!(matches!(
        GtfsData::load(&archive(&list)),
        Err(LoadError::MissingColumn { file, column })
            if file == "stop_times.txt" && column == "stop_id"
    ));
}

#[test]
fn an_empty_feed_has_defaults() {
    let gtfs = GtfsData::load_files(&FeedFiles::new()).unwrap();
    assert_eq!(gtfs.timezone, "UTC");
    assert_eq!(gtfs.feed_id, "unknown");
    assert_eq!(build_route_patterns(&gtfs).len(), 0);
}

#[test]
fn patterns_hold_trips_in_order_of_departure() {
    let gtfs = GtfsData::load_files(&files(&small_feed())).unwrap();
    let patterns = build_route_patterns(&gtfs);
    assert_eq!(patterns.len(), 1);
    assert_eq!(patterns[0].gtfs_route_idx, 0);
    assert_eq!(patterns[0].stop_idxs, vec![0, 1]);
    assert_eq!(patterns[0].trip_order, vec![(1, 25200), (0, 28800)]);
}

#[test]
fn frequencies_become_trips() {
    let mut list = small_feed();
    list.push((
        "frequencies.txt",
        "trip_id,start_time,end_time,headway_secs\nT1,10:00:00,10:25:00,600\n",
    ));
    let gtfs = GtfsData::load_files(&files(&list)).unwrap();
    assert!(gtfs.stop_times.get("T1").is_none());
    assert_eq!(gtfs.trips.len(), 6);
    assert_eq!(gtfs.trips[3].trip_id, "T1_freq_0");
    assert_eq!(gtfs.trips[5].trip_id, "T1_freq_2");
    let st = gtfs.stop_times.get("T1_freq_1").unwrap();
    assert_eq!(st.departures, vec![36600, 37260]);
    assert_eq!(st.arrivals, vec![36600, 37200]);
}

#[test]
fn runs_are_numbered_across_windows() {
    let mut list = small_feed();
    list.push((
        "frequencies.txt",
        "trip_id,start_time,end_time,headway_secs\nT1,10:00:00,10:20:00,600\nT1,20:00:00,20:20:00,600\n",
    ));
    let gtfs = GtfsData::load_files(&files(&list)).unwrap();
    let ids: Vec<&str> = gtfs.trips[3..].iter().map(|t| t.trip_id.as_str()).collect();
    assert_eq!(ids, vec!["T1_freq_0", "T1_freq_1", "T1_freq_2", "T1_freq_3"]);
    let first = |id: &str| gtfs.stop_times.get(id).unwrap().departures[0];
    assert_eq!(first("T1_freq_0"), 36000);
    assert_eq!(first("T1_freq_1"), 36600);
    assert_eq!(first("T1_freq_2"), 72000);
    assert_eq!(first("T1_freq_3"), 72600);
}

#[test]
fn calendars_become_bits() {
    let mut list = small_feed();
    list.push((
        "calendar.txt",
        "service_id,monday,tuesday,wednesday,thursday,friday,saturday,sunday,start_date,end_date\n\
W,1,1,1,1,1,0,0,20250106,20250112\n",
    ));
    list.push((
        "calendar_dates.txt",
        "service_id,date,exception_type\nW,20250111,1\nW,20250107,2\nX,20250101,1\n",
    ));
    let gtfs = GtfsData::load_files(&files(&list)).unwrap();
    let (services, index) = build_service_bitfields(&gtfs);
    assert_eq!(services.len(), 2);
    assert_eq!(index.get("X"), Some(&1));
    let w = &services[*index.get("W").unwrap() as usize];
    assert_eq!(w.start_epoch_days, 20094);
    assert_eq!(w.day_bits, vec![0b0011_1101]);
    let stored = Service {
        id: w.id.clone(),
        start_date: w.start_epoch_days as u16,
        day_bits: w.day_bits.clone(),
    };
    assert!(stored.runs_on(20094));
    assert!(!stored.runs_on(20095));
    assert!(stored.runs_on(20099));
    assert!(!stored.runs_on(20100));
    assert!(!stored.runs_on(20093));
}

#[test]
fn footpaths_join_stops() {
    let mut list = small_feed();
    list.push((
        "transfers.txt",
        "from_stop_id,to_stop_id,transfer_type,min_transfer_time\nS1,S2,2,100\nS1,S3,1,0\nS2,S3,3,0\n",
    ));
    list.push((
        "pathways.txt",
        "from_stop_id,to_stop_id,traversal_time,length,is_bidirectional\nE1,S2,45,,0\nE1,S3,,30,1\n",
    ));
    let mut gtfs = GtfsData::load_files(&files(&list)).unwrap();
    assert_eq!(gtfs.pathways[1].length, "30");
    gtfs.settle_pathways(&vec![0, 25]);
    assert_eq!(gtfs.pathways[0].traversal_time, 45);
    assert_eq!(gtfs.pathways[1].traversal_time, 25);
    let cells = vec![(0, 0); gtfs.stops.len()];
    let candidates = transfer_candidates(&gtfs, &cells, 1);
    let measures: Vec<Measure> = candidates
        .iter()
        .map(|_| Measure {
            metres: 84,
            secs: 70,
            near: false,
        })
        .collect();
    let ts = compute_transfers(&candidates, &measures);
    let find = |a: u32, b: u32| {
        ts.iter()
            .find(|t| t.from_stop_idx == a && t.to_stop_idx == b)
            .map(|t| (t.walk_seconds, t.dist_meters))
    };
    assert_eq!(find(0, 1), Some((100, 120)));
    assert_eq!(find(1, 0), Some((100, 120)));
    assert_eq!(find(0, 2), Some((70, 84)));
    assert_eq!(find(2, 0), None);
    assert_eq!(find(1, 2), Some((120, 144)));
    assert_eq!(find(2, 1), Some((120, 144)));
    assert_eq!(find(4, 1), Some((45, 54)));
    assert_eq!(find(1, 4), Some((45, 54)));
    assert_eq!(find(4, 2), Some((25, 30)));
    assert_eq!(ts.len(), 9);
}

#[test]
fn nearby_stops_are_joined_unless_they_share_a_station() {
    let gtfs = GtfsData::load_files(&files(&small_feed())).unwrap();
    let cells = vec![(0, 0); gtfs.stops.len()];
    let candidates = transfer_candidates(&gtfs, &cells, 1);
    let measures: Vec<Measure> = candidates
        .iter()
        .map(|_| Measure {
            metres: 24,
            secs: 20,
            near: true,
        })
        .collect();
    let ts = compute_transfers(&candidates, &measures);
    let find = |a: u32, b: u32| {
        ts.iter()
            .find(|t| t.from_stop_idx == a && t.to_stop_idx == b)
            .map(|t| (t.walk_seconds, t.dist_meters))
    };
    assert_eq!(find(0, 1), Some((30, 24)));
    assert_eq!(find(2, 0), Some((30, 24)));
    assert_eq!(find(1, 2), Some((120, 144)));
    assert_eq!(find(4, 1), Some((60, 72)));
}

#[test]
fn stops_far_apart_are_joined_if_the_radius_allows() {
    let gtfs = GtfsData::load_files(&files(&[
        ("agency.txt", AGENCY),
        (
            "stops.txt",
            "stop_id,stop_name,stop_lat,stop_lon\nS1,One,0.0,0.001\nS2,Two,0.008,0.001\n",
        ),
    ]))
    .unwrap();
    let cells = vec![(0, 0), (0, 2)];
    assert!(transfer_candidates(&gtfs, &cells, 1).is_empty());
    let candidates = transfer_candidates(&gtfs, &cells, 10);
    let measures: Vec<Measure> = candidates
        .iter()
        .map(|_| Measure {
            metres: 889,
            secs: 741,
            near: true,
        })
        .collect();
    let mut ts: Vec<(u32, u32, u32, u32)> = compute_transfers(&candidates, &measures)
        .iter()
        .map(|t| (t.from_stop_idx, t.to_stop_idx, t.walk_seconds, t.dist_meters))
        .collect();
    ts.sort();
    assert_eq!(ts, vec![(0, 1, 741, 889), (1, 0, 741, 889)]);
}
