use std::collections::HashMap;
use wheels_router_nano::data::{WalkEdge, WalkGraph, WalkNode, NOT_SET};
use wheels_router_nano::heap::MinHeap;
use wheels_router_nano::osm::{
    is_osm_xml, is_pedestrian_priority, is_road_class, is_vehicle_class, is_walkable, load_osm_pbf,
    way_from_tags, PbfElement, PbfNode, WalkWay,
};
use wheels_router_nano::osm_xml::{load_osm_xml, MapReader, XmlEvent};
use wheels_router_nano::streets::{
    build_road_graph, build_walk_graph, index_nodes, node_coords, sorted_distinct, street_segments,
    StreetGraph,
};
use wheels_router_nano::walk::{
    compress_walk_graph, link_candidates, link_stops_to_walk_graph, KEY_500,
};
use wheels_router_nano::walker::{
    dijkstra, nearest_node, nodes_around, walk_between, KEY_1000,
};

fn tags(list: &[(&str, &str)]) -> Vec<(String, String)> {
    list.iter()
        .map(|(k, v)| (k.to_string(), v.to_string()))
        .collect()
}

fn way(refs: Vec<i64>, list: &[(&str, &str)]) -> Option<WalkWay> {
    way_from_tags(&tags(list), refs)
}

#[test]
fn ways_are_told_apart_by_class() {
    assert!(is_pedestrian_priority("footway") && !is_pedestrian_priority("primary"));
    assert!(is_road_class("primary") && !is_road_class("motorway"));
    assert!(is_walkable("steps") && is_walkable("track") && !is_walkable("motorway"));
    assert!(is_vehicle_class("motorway") && !is_vehicle_class("footway"));
}

#[test]
fn tags_make_ways() {
    let w = way(vec![1, 2], &[("highway", "residential"), ("oneway", "-1")]).unwrap();
    assert_eq!(w.node_refs, vec![1, 2]);
    assert!(!w.is_pedestrian && w.is_vehicle);
    assert_eq!((w.penalty, w.oneway), (3, -1));
    let w = way(vec![1, 2], &[("highway", "footway")]).unwrap();
    assert!(w.is_pedestrian && !w.is_vehicle);
    assert_eq!((w.penalty, w.oneway), (1, 0));
    let w = way(
        vec![1, 2],
        &[("highway", "primary"), ("junction", "roundabout"), ("motor_vehicle", "no")],
    )
    .unwrap();
    assert!(!w.is_vehicle);
    assert_eq!(w.oneway, 1);
    assert!(way(vec![1], &[("highway", "footway")]).is_none());
    let w = way(vec![1, 2], &[("highway", "motorway")]).unwrap();
    assert!(w.is_vehicle && !w.is_walkable && w.oneway == 0);
    let w = way(vec![1, 2], &[("highway", "primary"), ("foot", "no")]).unwrap();
    assert!(w.is_vehicle && !w.is_walkable);
    assert!(way(vec![1, 2], &[("highway", "corridor")]).is_none());
    assert!(way(vec![1, 2], &[("highway", "footway"), ("foot", "no")]).is_none());
    assert!(way(vec![1, 2], &[("highway", "footway"), ("access", "private")]).is_none());
    assert!(way(vec![1, 2], &[]).is_none());
}

#[test]
fn map_formats_are_told_apart() {
    assert!(is_osm_xml(Some("osm"), None));
    assert!(is_osm_xml(Some("XML"), Some(0)));
    assert!(!is_osm_xml(Some("pbf"), Some(b'<')));
    assert!(is_osm_xml(Some("dat"), Some(b'<')));
    assert!(!is_osm_xml(None, Some(0)));
    assert!(!is_osm_xml(None, None));
}

const MAP: &str = r#"<?xml version="1.0"?>
<osm>
  <node id="1" lat="1.0" lon="2.0"/>
  <node id="2" lat="1.5" lon="2.5"><tag k="highway" v="crossing"/></node>
  <way id="9">
    <nd ref="1"/>
    <nd ref="2"/>
    <tag k="highway" v="footway"/>
  </way>
  <way id="10">
    <nd ref="1"/>
    <tag k="highway" v="footway"/>
  </way>
</osm>"#;

#[test]
fn maps_are_read_from_xml() {
    let (nodes, ways) = load_osm_xml(MAP.as_bytes()).unwrap();
    assert_eq!(nodes.len(), 2);
    assert_eq!(nodes[1].id, 2);
    assert_eq!(nodes[1].lat, "1.5");
    assert_eq!(nodes[1].lon, "2.5");
    assert_eq!(ways.len(), 1);
    assert_eq!(ways[0].node_refs, vec![1, 2]);
    assert!(ways[0].is_pedestrian);
}

#[test]
fn document_types_are_passed_over() {
    let map = MAP.replace("<osm>", "<!DOCTYPE osm [<!ELEMENT osm (node|way)*>]>\n<osm>");
    let (nodes, ways) = load_osm_xml(map.as_bytes()).unwrap();
    assert_eq!((nodes.len(), ways.len()), (2, 1));
    let r = load_osm_xml(b"<!doctype osm [<osm></osm>");
    assert!(!r.unwrap_err().cause.is_empty());
}

#[test]
fn maps_are_made_of_elements() {
    let node = |id: i64| PbfNode {
        id,
        lat: 1_500_000_000,
        lon: id,
    };
    let (nodes, ways) = load_osm_pbf(vec![
        PbfElement::Node(node(4)),
        PbfElement::Relation,
        PbfElement::Way {
            tags: tags(&[("highway", "steps")]),
            refs: vec![4, 5],
        },
        PbfElement::Way {
            tags: tags(&[("building", "yes")]),
            refs: vec![4, 5],
        },
        PbfElement::Node(node(5)),
    ]);
    assert_eq!(nodes.iter().map(|n| n.id).collect::<Vec<i64>>(), vec![4, 5]);
    assert_eq!((nodes[1].lat, nodes[1].lon), (1_500_000_000, 5));
    assert_eq!(ways.len(), 1);
    assert_eq!(ways[0].node_refs, vec![4, 5]);
}

#[test]
fn broken_xml_is_reported() {
    let r = load_osm_xml(b"<osm><node id=\"1\" lat=\"1\" lon=\"2\"/></way>");
    assert!(r.is_err());
    assert!(!r.err().unwrap().cause.is_empty());
}

#[test]
fn map_events_build_ways() {
    let mut m = MapReader::new();
    m.note(&XmlEvent::Open {
        name: b"way".to_vec(),
        attrs: vec![],
    });
    for id in ["5", "6"] {
        m.note(&XmlEvent::Open {
            name: b"nd".to_vec(),
            attrs: vec![Some((b"ref".to_vec(), id.as_bytes().to_vec()))],
        });
    }
    m.note(&XmlEvent::Open {
        name: b"tag".to_vec(),
        attrs: vec![
            Some((b"k".to_vec(), b"highway".to_vec())),
            Some((b"v".to_vec(), b"steps".to_vec())),
        ],
    });
    m.note(&XmlEvent::Close {
        name: b"way".to_vec(),
    });
    let (nodes, ways) = m.finish();
    assert!(nodes.is_empty());
    assert_eq!(ways.len(), 1);
    assert_eq!(ways[0].node_refs, vec![5, 6]);
}

#[test]
fn ids_are_sorted_and_distinct() {
    assert_eq!(sorted_distinct(&vec![5, -3, 5, 0, i64::MIN]), vec![i64::MIN, -3, 0, 5]);
    assert_eq!(sorted_distinct(&vec![]), Vec::<i64>::new());
}

#[test]
fn heaps_hand_out_the_least() {
    let mut h = MinHeap::new();
    h.push((3, 1));
    h.push((1, 9));
    h.push((1, 2));
    assert_eq!(h.pop(), Some((1, 2)));
    assert_eq!(h.pop(), Some((1, 9)));
    assert_eq!(h.pop(), Some((3, 1)));
    assert_eq!(h.pop(), None);
}

/// Nodes 10, 20, 30, 40 in a row on a footway, and 40, 50 on a one-way road.
fn town() -> (Vec<WalkWay>, HashMap<i64, (u64, u64)>) {
    let ways = vec![
        way(vec![10, 20, 30, 40], &[("highway", "footway")]).unwrap(),
        way(vec![40, 50], &[("highway", "residential"), ("oneway", "yes")]).unwrap(),
    ];
    let ids = vec![10, 20, 30, 40, 50];
    let coords: Vec<Option<(u64, u64)>> = (0..5).map(|i| Some((i, 100 + i))).collect();
    (ways, node_coords(&ids, &coords))
}

#[test]
fn walking_networks_lead_both_ways() {
    let (ways, coords) = town();
    let nodes = index_nodes(&ways, &coords, false).unwrap();
    assert_eq!(nodes.ids, vec![10, 20, 30, 40, 50]);
    let segments = street_segments(&ways, &nodes, false);
    assert_eq!(segments.len(), 4);
    assert_eq!(segments[3].penalty, 3);
    let g = build_walk_graph(&ways, nodes, &vec![7, 8, 9, 30], &vec![true; 5]);
    assert_eq!(g.nodes.len(), 5);
    assert_eq!(g.edges[0].len(), 1);
    assert_eq!(g.edges[1].len(), 2);
    assert_eq!((g.edges[3][1].to_node_idx, g.edges[3][1].dist_meters), (4, 30));
    assert_eq!(g.edges[4][0].to_node_idx, 3);
    assert_eq!(g.pedestrian, vec![true, true, true, true, false]);
}

#[test]
fn road_networks_keep_directions() {
    let (ways, coords) = town();
    let nodes = index_nodes(&ways, &coords, true).unwrap();
    assert_eq!(nodes.ids, vec![40, 50]);
    let g = build_road_graph(&ways, nodes, &vec![10], &vec![true; 2]);
    assert_eq!(g.edges[0].len(), 1);
    assert_eq!(g.edges[1].len(), 0);
}

#[test]
fn nodes_that_are_not_kept_leave_the_network() {
    let (ways, coords) = town();
    let nodes = index_nodes(&ways, &coords, false).unwrap();
    let keep = vec![false, true, true, true, true];
    let g = build_walk_graph(&ways, nodes, &vec![7, 8, 9, 30], &keep);
    assert_eq!(g.nodes.len(), 4);
    assert_eq!(g.edges[0].len(), 1);
    assert_eq!(g.edges[0][0].to_node_idx, 1);
}

#[test]
fn chains_become_single_edges() {
    let (ways, coords) = town();
    let nodes = index_nodes(&ways, &coords, false).unwrap();
    let g = build_walk_graph(&ways, nodes, &vec![7, 8, 9, 30], &vec![true; 5]);
    let c = compress_walk_graph(&g, &vec![false; 5]);
    assert_eq!(c.nodes.len(), 2);
    assert_eq!(c.edges[0].len(), 1);
    assert_eq!(c.edges[0][0].dist_meters, 54);
    assert_eq!(c.edges[0][0].geometry, vec![(1, 101), (2, 102), (3, 103)]);
    assert_eq!(c.edges[1][0].geometry, vec![(3, 103), (2, 102), (1, 101)]);
    let kept = compress_walk_graph(&g, &vec![false, false, true, false, false]);
    assert_eq!(kept.nodes.len(), 3);
}

/// A direct street from 10 to 30 beside a detour over 20, and dead ends 40, 50 at both.
#[test]
fn direct_streets_stay_beside_detours() {
    let ways = vec![
        way(vec![10, 20, 30], &[("highway", "footway")]).unwrap(),
        way(vec![10, 30], &[("highway", "footway")]).unwrap(),
        way(vec![40, 10], &[("highway", "footway")]).unwrap(),
        way(vec![50, 30], &[("highway", "footway")]).unwrap(),
    ];
    let ids = vec![10, 20, 30, 40, 50];
    let coords: Vec<Option<(u64, u64)>> = (0..5).map(|i| Some((i, 100 + i))).collect();
    let nodes = index_nodes(&ways, &node_coords(&ids, &coords), false).unwrap();
    assert_eq!(nodes.ids, vec![10, 20, 30, 40, 50]);
    let g = build_walk_graph(&ways, nodes, &vec![60, 60, 100, 5, 5], &vec![true; 5]);
    let c = compress_walk_graph(&g, &vec![false; 5]);
    assert_eq!(c.nodes.len(), 4);
    let mut there: Vec<u16> = c.edges[0]
        .iter()
        .filter(|e| e.to_node_idx == 1)
        .map(|e| e.dist_meters)
        .collect();
    there.sort();
    assert_eq!(there, vec![100, 120]);
}

/// Distances between all nodes of a network.
fn distances(g: &StreetGraph) -> Vec<Vec<u32>> {
    let n = g.nodes.len();
    let mut d = vec![vec![u32::MAX / 2; n]; n];
    for u in 0..n {
        d[u][u] = 0;
        for e in &g.edges[u] {
            let v = e.to_node_idx as usize;
            d[u][v] = d[u][v].min(u32::from(e.dist_meters));
        }
    }
    for k in 0..n {
        for u in 0..n {
            for v in 0..n {
                d[u][v] = d[u][v].min(d[u][k] + d[k][v]);
            }
        }
    }
    d
}

#[test]
fn distances_stay_when_chains_are_contracted() {
    let ways = vec![
        way(vec![1, 2, 3, 4], &[("highway", "footway")]).unwrap(),
        way(vec![1, 5, 6, 4], &[("highway", "footway")]).unwrap(),
        way(vec![4, 7, 8, 1], &[("highway", "footway")]).unwrap(),
        way(vec![4, 1], &[("highway", "footway")]).unwrap(),
        way(vec![9, 1], &[("highway", "footway")]).unwrap(),
    ];
    let ids: Vec<i64> = (1..=9).collect();
    let coords: Vec<Option<(u64, u64)>> = (0..9).map(|i| Some((i, i))).collect();
    let nodes = index_nodes(&ways, &node_coords(&ids, &coords), false).unwrap();
    let n = street_segments(&ways, &nodes, false).len();
    let lengths: Vec<u16> = (0..n).map(|i| 10 + 7 * (i as u16 % 5)).collect();
    let g = build_walk_graph(&ways, nodes, &lengths, &vec![true; 9]);
    let mut protected = vec![false; 9];
    protected[5] = true;
    let c = compress_walk_graph(&g, &protected);
    let kept: Vec<usize> =
        c.nodes.iter().map(|n| g.nodes.iter().position(|x| x.lat == n.lat).unwrap()).collect();
    assert_eq!(kept, vec![0, 3, 5, 8]);
    let (before, after) = (distances(&g), distances(&c));
    for (i, &u) in kept.iter().enumerate() {
        for (j, &v) in kept.iter().enumerate() {
            assert_eq!(after[i][j], before[u][v]);
        }
    }
}

#[test]
fn contracted_streets_lead_back() {
    let (ways, coords) = town();
    let nodes = index_nodes(&ways, &coords, false).unwrap();
    let g = build_walk_graph(&ways, nodes, &vec![7, 8, 9, 30], &vec![true; 5]);
    let c = compress_walk_graph(&g, &vec![false, false, false, true, false]);
    assert_eq!(c.nodes.len(), 3);
    for u in 0..3 {
        for e in &c.edges[u] {
            let points: Vec<(u64, u64)> = e.geometry.iter().rev().copied().collect();
            assert!(c.edges[e.to_node_idx as usize].iter().any(|b| {
                b.to_node_idx as usize == u
                    && b.dist_meters == e.dist_meters
                    && b.geometry == points
            }));
        }
    }
}

#[test]
fn motorways_are_roads_but_no_footways() {
    let ways = vec![way(vec![10, 20], &[("highway", "motorway")]).unwrap()];
    let coords = vec![Some((0, 100)), Some((1, 101))];
    let coords = node_coords(&vec![10, 20], &coords);
    assert!(index_nodes(&ways, &coords, false).unwrap().ids.is_empty());
    let nodes = index_nodes(&ways, &coords, true).unwrap();
    let g = build_road_graph(&ways, nodes, &vec![10], &vec![true; 2]);
    assert_eq!((g.edges[0].len(), g.edges[1].len()), (1, 1));
    assert_eq!((g.edges[0][0].to_node_idx, g.edges[1][0].to_node_idx), (1, 0));
}

#[test]
fn what_is_connected_stays_connected() {
    let (ways, coords) = town();
    let nodes = index_nodes(&ways, &coords, false).unwrap();
    let g = build_walk_graph(&ways, nodes, &vec![7, 8, 9, 30], &vec![true; 5]);
    let c = compress_walk_graph(&g, &vec![false, false, true, false, false]);
    let to = |u: usize| c.edges[u].iter().map(|e| e.to_node_idx).collect::<Vec<u32>>();
    assert_eq!(to(0), vec![1]);
    assert_eq!(to(2), vec![1]);
    let mut middle = to(1);
    middle.sort();
    assert_eq!(middle, vec![0, 2]);
}

#[test]
fn stops_are_linked_to_the_nearest_node() {
    let node_cells = vec![(0, 0), (0, 1), (9, 9)];
    let c = link_candidates(
        &node_cells,
        &vec![(0, 0), (0, 0), (0, 0)],
        &vec![0, 3, 0],
        &vec![true, true, false],
    );
    assert_eq!(c[0].len(), 2);
    assert!(c[1].is_empty() && c[2].is_empty());
    let near = 10.0f64.to_bits();
    let far = 20.0f64.to_bits();
    let keys: Vec<Vec<u64>> = vec![
        c[0].iter().map(|&n| if n == 0 { far } else { near }).collect(),
        vec![],
        vec![],
    ];
    assert_eq!(
        link_stops_to_walk_graph(&c, &keys, &None, 3),
        vec![1, NOT_SET, NOT_SET]
    );
    let on_foot = Some(vec![true, false, true]);
    assert_eq!(
        link_stops_to_walk_graph(&c, &keys, &on_foot, 3),
        vec![0, NOT_SET, NOT_SET]
    );
    assert_eq!(KEY_500, 500.0f64.to_bits());
    let out: Vec<Vec<u64>> = vec![vec![KEY_500, KEY_500], vec![], vec![]];
    assert_eq!(link_stops_to_walk_graph(&c, &out, &None, 3)[0], NOT_SET);
}

fn edge(to: u32, dist: u16) -> WalkEdge {
    WalkEdge {
        to_node_idx: to,
        dist_meters: dist,
        geometry_offset: 0,
        geometry_len: 0,
    }
}

/// 0 -> 1 -> 2 is shorter than 0 -> 2; node 3 is on its own. The edge from 1 to 2 has a point.
fn small_graph() -> WalkGraph {
    let node = |i: u64, offset: u32, n: u16| WalkNode {
        lat: i,
        lon: 10 + i,
        edges_offset: offset,
        num_edges: n,
    };
    let mut bent = edge(2, 20);
    bent.geometry_len = 1;
    WalkGraph {
        nodes: vec![node(0, 0, 2), node(1, 2, 1), node(2, 3, 0), node(3, 3, 0)],
        edges: vec![edge(1, 10), edge(2, 50), bent],
        geometry: vec![(77, 78)],
        node_grid: HashMap::new(),
    }
}

#[test]
fn shortest_ways_are_found() {
    let g = small_graph();
    assert!(g.check());
    let d = dijkstra(&g, 0, 100);
    assert_eq!(d.get(0), Some(0));
    assert_eq!(d.get(1), Some(10));
    assert_eq!(d.get(2), Some(30));
    assert_eq!(d.get(3), None);
    assert_eq!(d.path_coords(&g, 2), vec![(0, 10), (1, 11), (77, 78), (2, 12)]);
    assert_eq!(d.path_coords(&g, 3), vec![]);
    assert_eq!(dijkstra(&g, 0, 29).get(2), None);
}

#[test]
fn paths_take_the_shorter_of_two_streets() {
    let mut g = small_graph();
    // from 1 to 2: first a street with a point that is longer, then a straight one
    g.edges[2].dist_meters = 30;
    g.edges.push(edge(2, 20));
    g.nodes[1].num_edges = 2;
    g.nodes[2].edges_offset = 4;
    g.nodes[3].edges_offset = 4;
    assert!(g.check());
    let d = dijkstra(&g, 0, 100);
    assert_eq!(d.get(2), Some(30));
    assert_eq!(d.path_coords(&g, 2), vec![(0, 10), (1, 11), (2, 12)]);
    assert_eq!(d.path_coords(&g, 0), vec![(0, 10)]);
}

#[test]
fn walks_follow_the_network() {
    let g = small_graph();
    let (m, path) = walk_between(&g, (5, 5), (6, 6), 20, Some((0, 2)), Some((2, 3)), 40).unwrap();
    assert_eq!(m, 35);
    assert_eq!(
        path,
        vec![(5, 5), (0, 10), (1, 11), (77, 78), (2, 12), (6, 6)]
    );
    let (m, path) = walk_between(&g, (5, 5), (6, 6), 20, Some((0, 2)), Some((3, 3)), 40).unwrap();
    assert_eq!((m, path), (20, vec![(5, 5), (6, 6)]));
    assert!(walk_between(&g, (5, 5), (6, 6), 41, Some((0, 2)), Some((2, 3)), 40).is_none());
    assert!(walk_between(&g, (5, 5), (6, 6), 20, None, Some((2, 3)), 40).is_none());
}

#[test]
fn the_nearest_node_of_all_is_found() {
    let key = |m: f32| m.to_bits();
    assert_eq!(KEY_1000, key(1000.0));
    let g = small_graph();
    let nearest = |metres: [f32; 4]| nearest_node(&g, &metres.map(key).to_vec());
    assert_eq!(nearest([200.0, 150.0, 1.0, 700.0]), Some(2));
    assert_eq!(nearest([900.0, 50.0, 50.0, 700.0]), Some(1));
    assert_eq!(nearest([f32::INFINITY, 1000.5, 1000.0, f32::MAX]), Some(2));
    assert_eq!(nearest([1000.5, f32::NAN, 2000.0, f32::INFINITY]), None);
    assert_eq!(nearest_node(&WalkGraph::default(), &vec![]), None);
}

#[test]
fn grids_list_the_nodes_around() {
    let cells = vec![(0, 0), (1, 1), (5, 5)];
    let mut g = small_graph();
    g.node_grid = wheels_router_nano::grid::build(&cells, &vec![true, true, true]);
    assert_eq!(nodes_around(&g, 0, 0, 1), vec![0, 1]);
    assert_eq!(nodes_around(&g, 4, 4, 1), vec![2]);
    assert!(nodes_around(&g, 50, 50, 3).is_empty());
}
