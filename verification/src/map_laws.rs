//! What a map says about streets.

use crate::osm as o;
use crate::osm::{PbfElement, WayView};
use crate::osm_xml as x;
use crate::osm_xml::{EventView, MapView};
use crate::streets as st;
use crate::streets::{GraphView, NodeIndex, Segment, WalkNode};
use crate::table_laws as rows;
use crate::text as t;
use vstd::prelude::*;

verus! {

// ---------------------------------------------------------------------------
// Tags
// ---------------------------------------------------------------------------

/// Some tag has that key and that value.
pub open spec fn tagged(tags: Seq<(Seq<char>, Seq<char>)>, k: Seq<char>, v: Seq<char>) -> bool {
    exists|i: int| 0 <= i < tags.len() && #[trigger] tags[i] == (k, v)
}

/// Tag `h` is the last one that says what kind of way it is.
pub open spec fn tells_kind(tags: Seq<(Seq<char>, Seq<char>)>, h: int) -> bool {
    &&& 0 <= h < tags.len()
    &&& tags[h].0 == "highway"@
    &&& forall|i: int| h < i < tags.len() ==> (#[trigger] tags[i]).0 != "highway"@
}

/// Kinds of ways made for people on foot.
pub open spec fn for_walkers(kind: Seq<char>) -> bool {
    kind == "footway"@ || kind == "pedestrian"@ || kind == "path"@ || kind == "steps"@ || kind
        == "living_street"@ || kind == "cycleway"@
}

/// Kinds of roads that people may walk along.
pub open spec fn along_roads(kind: Seq<char>) -> bool {
    kind == "residential"@ || kind == "service"@ || kind == "tertiary"@ || kind == "secondary"@
        || kind == "primary"@ || kind == "trunk"@ || kind == "unclassified"@ || kind == "track"@
}

/// Kinds of roads for vehicles.
pub open spec fn for_vehicles(kind: Seq<char>) -> bool {
    kind == "motorway"@ || kind == "motorway_link"@ || kind == "trunk"@ || kind == "trunk_link"@
        || kind == "primary"@ || kind == "primary_link"@ || kind == "secondary"@ || kind
        == "secondary_link"@ || kind == "tertiary"@ || kind == "tertiary_link"@ || kind
        == "unclassified"@ || kind == "residential"@ || kind == "living_street"@ || kind
        == "service"@ || kind == "busway"@
}

proof fn lemma_keys()
    ensures
        "highway"@ != "foot"@,
        "highway"@ != "access"@,
        "highway"@ != "oneway"@,
        "highway"@ != "junction"@,
        "highway"@ != "motor_vehicle"@,
        "foot"@ != "access"@,
        "foot"@ != "oneway"@,
        "foot"@ != "junction"@,
        "foot"@ != "motor_vehicle"@,
        "access"@ != "oneway"@,
        "access"@ != "junction"@,
        "access"@ != "motor_vehicle"@,
        "oneway"@ != "junction"@,
        "oneway"@ != "motor_vehicle"@,
        "junction"@ != "motor_vehicle"@,
{
    reveal_strlit("highway");
    reveal_strlit("foot");
    reveal_strlit("access");
    reveal_strlit("oneway");
    reveal_strlit("junction");
    reveal_strlit("motor_vehicle");
    assert("foot"@.len() == 4 && "access"@.len() == 6 && "oneway"@.len() == 6);
    assert("access"@[0] == 'a' && "oneway"@[0] == 'o');
    assert("highway"@.len() == 7 && "junction"@.len() == 8 && "motor_vehicle"@.len() == 13);
}

proof fn lemma_tagged(tags: Seq<(Seq<char>, Seq<char>)>, k: Seq<char>, v: Seq<char>, n: int)
    requires
        0 < n <= tags.len(),
    ensures
        tagged(tags.take(n), k, v) <==> tagged(tags.take(n - 1), k, v) || tags[n - 1] == (k, v),
{
    let all = tags.take(n);
    let front = tags.take(n - 1);
    if tagged(all, k, v) {
        let i = choose|i: int| 0 <= i < all.len() && #[trigger] all[i] == (k, v);
        if i < n - 1 {
            assert(front[i] == (k, v));
        }
    }
    if tagged(front, k, v) {
        let i = choose|i: int| 0 <= i < front.len() && #[trigger] front[i] == (k, v);
        assert(all[i] == (k, v));
    }
    assert(all[n - 1] == tags[n - 1]);
}

proof fn lemma_tags(tags: Seq<(Seq<char>, Seq<char>)>, n: int)
    requires
        0 <= n <= tags.len(),
    ensures
        ({
            let s = o::tags_of(tags, n);
            let all = tags.take(n);
            &&& s.foot_no == tagged(all, "foot"@, "no"@)
            &&& s.access_private == tagged(all, "access"@, "private"@)
            &&& s.motor_no == tagged(all, "motor_vehicle"@, "no"@)
        }),
    decreases n,
{
    lemma_keys();
    if n > 0 {
        lemma_tags(tags, n - 1);
        lemma_tagged(tags, "foot"@, "no"@, n);
        lemma_tagged(tags, "access"@, "private"@, n);
        lemma_tagged(tags, "motor_vehicle"@, "no"@, n);
    }
}

proof fn lemma_kind(tags: Seq<(Seq<char>, Seq<char>)>, h: int, n: int)
    requires
        tells_kind(tags, h),
        h < n <= tags.len(),
    ensures
        o::tags_of(tags, n).highway == Some(tags[h].1),
    decreases n,
{
    lemma_keys();
    if h < n - 1 {
        lemma_kind(tags, h, n - 1);
        assert(tags[n - 1].0 != "highway"@);
    }
}

proof fn lemma_no_kind(tags: Seq<(Seq<char>, Seq<char>)>, n: int)
    requires
        0 <= n <= tags.len(),
        forall|i: int| 0 <= i < tags.len() ==> (#[trigger] tags[i]).0 != "highway"@,
    ensures
        o::tags_of(tags, n).highway is None,
    decreases n,
{
    if n > 0 {
        lemma_no_kind(tags, n - 1);
        assert(tags[n - 1].0 != "highway"@);
    }
}

/// A way can be walked if it is of a kind for walkers or along roads, unless it is private or
/// closed to people on foot. It can be driven if it is of a kind for vehicles, unless it is private
/// or closed to vehicles. A way that is neither, or has fewer than two nodes, is passed over. Only
/// on ways for walkers do lengths count once: elsewhere they count three times.
pub proof fn ways_follow_their_tags(
    tags: Seq<(Seq<char>, Seq<char>)>,
    refs: Seq<i64>,
    h: int,
)
    requires
        tells_kind(tags, h),
    ensures
        ({
            let kind = tags[h].1;
            let on_foot = (for_walkers(kind) || along_roads(kind)) && !tagged(
                tags,
                "foot"@,
                "no"@,
            ) && !tagged(tags, "access"@, "private"@);
            let by_bus = for_vehicles(kind) && !tagged(tags, "motor_vehicle"@, "no"@) && !tagged(
                tags,
                "access"@,
                "private"@,
            );
            match o::way_of(o::tags_of(tags, tags.len() as int), refs) {
                Some(w) => {
                    &&& on_foot || by_bus
                    &&& refs.len() >= 2
                    &&& w.refs == refs
                    &&& w.walkable == on_foot
                    &&& w.vehicle == by_bus
                    &&& w.pedestrian == for_walkers(kind)
                    &&& for_walkers(kind) ==> w.penalty == 1
                    &&& !for_walkers(kind) ==> w.penalty == 3
                },
                None => refs.len() < 2 || (!on_foot && !by_bus),
            }
        }),
{
    let n = tags.len() as int;
    lemma_tags(tags, n);
    assert(tags.take(n) =~= tags);
    lemma_kind(tags, h, n);
}

/// A way that is of no kind is passed over.
pub proof fn ways_need_a_kind(tags: Seq<(Seq<char>, Seq<char>)>, refs: Seq<i64>)
    requires
        forall|i: int| 0 <= i < tags.len() ==> (#[trigger] tags[i]).0 != "highway"@,
    ensures
        o::way_of(o::tags_of(tags, tags.len() as int), refs) is None,
{
    lemma_no_kind(tags, tags.len() as int);
}

/// A tag says in which direction a way leads.
pub open spec fn directs(tag: (Seq<char>, Seq<char>)) -> bool {
    tag.0 == "oneway"@ || tag == ("junction"@, "roundabout"@)
}

/// The last tag about the direction of a way says where it leads: forward only if it is marked so
/// or is a roundabout, backward only if it is marked with -1, and both ways otherwise. Without such
/// a tag a way leads both ways.
pub proof fn directions_follow_tags(
    tags: Seq<(Seq<char>, Seq<char>)>,
    refs: Seq<i64>,
    d: int,
    n: int,
)
    requires
        0 <= d < n <= tags.len(),
        forall|i: int| d < i < n ==> !directs(#[trigger] tags[i]),
    ensures
        directs(tags[d]) ==> ({
            let v = tags[d].1;
            let ahead = tags[d].0 == "junction"@ || v == "yes"@ || v == "1"@ || v == "true"@;
            match o::way_of(o::tags_of(tags, n), refs) {
                Some(w) => {
                    &&& ahead ==> w.oneway == 1
                    &&& !ahead && v == "-1"@ ==> w.oneway == -1
                    &&& !ahead && v != "-1"@ ==> w.oneway == 0
                },
                None => true,
            }
        }),
        d == 0 && !directs(tags[0]) ==> match o::way_of(o::tags_of(tags, n), refs) {
            Some(w) => w.oneway == 0,
            None => true,
        },
{
    lemma_direction(tags, d, n);
}

proof fn lemma_direction(tags: Seq<(Seq<char>, Seq<char>)>, d: int, n: int)
    requires
        0 <= d < n <= tags.len(),
        forall|i: int| d < i < n ==> !directs(#[trigger] tags[i]),
    ensures
        ({
            let one = o::tags_of(tags, n).oneway;
            let v = tags[d].1;
            let ahead = tags[d].0 == "junction"@ || v == "yes"@ || v == "1"@ || v == "true"@;
            &&& directs(tags[d]) && ahead ==> one == 1
            &&& directs(tags[d]) && !ahead && v == "-1"@ ==> one == -1
            &&& directs(tags[d]) && !ahead && v != "-1"@ ==> one == 0
            &&& !directs(tags[d]) && d == 0 ==> one == 0
        }),
    decreases n,
{
    lemma_keys();
    if d < n - 1 {
        lemma_direction(tags, d, n - 1);
        assert(!directs(tags[n - 1]));
    } else if d == 0 {
        assert(o::tags_of(tags, 0).oneway == 0);
    }
}

// ---------------------------------------------------------------------------
// Elements of a PBF file
// ---------------------------------------------------------------------------

/// Every node of a file is listed, in order, and nothing else is.
pub proof fn nodes_are_listed(elements: Seq<PbfElement>, n: int, i: int)
    requires
        0 <= i < n,
        elements[i] is Node,
    ensures
        ({
            let counts = |i: int| elements[i] is Node;
            let nodes = o::pbf_nodes(elements, n);
            &&& nodes.len() == rows::counted(counts, n)
            &&& 0 <= rows::counted(counts, i) < nodes.len()
            &&& elements[i] == PbfElement::Node(nodes[rows::counted(counts, i)])
        }),
    decreases n,
{
    let counts = |i: int| elements[i] is Node;
    lemma_nodes_counted(elements, n);
    rows::lemma_counted(counts, i, n);
    if i < n - 1 {
        nodes_are_listed(elements, n - 1, i);
    } else {
        lemma_nodes_counted(elements, n - 1);
    }
}

proof fn lemma_nodes_counted(elements: Seq<PbfElement>, n: int)
    ensures
        o::pbf_nodes(elements, n).len() == rows::counted(|i: int| elements[i] is Node, n),
    decreases n,
{
    if n > 0 {
        lemma_nodes_counted(elements, n - 1);
    }
}

/// The way of an element of a file.
pub open spec fn way_at(e: PbfElement) -> Option<WayView> {
    match e {
        PbfElement::Way { tags, refs } => o::way_of(
            o::tags_of(o::tags_view(tags@), tags@.len() as int),
            refs@,
        ),
        PbfElement::Node(_) => None,
        PbfElement::Relation => None,
    }
}

/// Every way of a file that can be walked or driven is listed, in order, and nothing else is.
pub proof fn ways_are_listed(elements: Seq<PbfElement>, n: int, i: int)
    requires
        0 <= i < n,
        way_at(elements[i]) is Some,
    ensures
        ({
            let counts = |i: int| way_at(elements[i]) is Some;
            let ways = o::pbf_ways(elements, n);
            &&& ways.len() == rows::counted(counts, n)
            &&& 0 <= rows::counted(counts, i) < ways.len()
            &&& way_at(elements[i]) == Some(ways[rows::counted(counts, i)])
        }),
    decreases n,
{
    let counts = |i: int| way_at(elements[i]) is Some;
    lemma_ways_counted(elements, n);
    rows::lemma_counted(counts, i, n);
    assert(way_at(elements[n - 1]) == o::pbf_way(elements[n - 1]));
    if i < n - 1 {
        ways_are_listed(elements, n - 1, i);
    } else {
        lemma_ways_counted(elements, n - 1);
    }
}

proof fn lemma_ways_counted(elements: Seq<PbfElement>, n: int)
    ensures
        o::pbf_ways(elements, n).len() == rows::counted(
            |i: int| way_at(elements[i]) is Some,
            n,
        ),
    decreases n,
{
    if n > 0 {
        lemma_ways_counted(elements, n - 1);
        assert(way_at(elements[n - 1]) == o::pbf_way(elements[n - 1]));
    }
}

// ---------------------------------------------------------------------------
// Elements of an XML file
// ---------------------------------------------------------------------------

/// Attribute `i` is the last of that name, and its value is a text.
pub open spec fn says(
    attrs: Seq<Option<(Seq<u8>, Seq<u8>)>>,
    i: int,
    name: Seq<u8>,
    text: Seq<char>,
) -> bool {
    &&& 0 <= i < attrs.len()
    &&& attrs[i] is Some
    &&& (attrs[i]->0).0 == name
    &&& t::text_in((attrs[i]->0).1) == Some(text)
    &&& forall|k: int|
        i < k < attrs.len() && #[trigger] attrs[k] is Some ==> (attrs[k]->0).0 != name
}

proof fn lemma_says(
    attrs: Seq<Option<(Seq<u8>, Seq<u8>)>>,
    i: int,
    name: Seq<u8>,
    text: Seq<char>,
    n: int,
)
    requires
        says(attrs, i, name, text),
        i < n <= attrs.len(),
    ensures
        x::attr_in(attrs, name, n) == Some((attrs[i]->0).1),
    decreases n,
{
    if i < n - 1 {
        lemma_says(attrs, i, name, text, n - 1);
        assert(attrs[n - 1] is Some ==> (attrs[n - 1]->0).0 != name);
    }
}

proof fn lemma_names()
    ensures
        seq![110u8, 111, 100, 101] != seq![119u8, 97, 121],
        seq![110u8, 111, 100, 101] != seq![110u8, 100],
        seq![110u8, 111, 100, 101] != seq![116u8, 97, 103],
        seq![119u8, 97, 121] != seq![110u8, 100],
        seq![119u8, 97, 121] != seq![116u8, 97, 103],
        seq![110u8, 100] != seq![116u8, 97, 103],
{
    assert(seq![110u8, 111, 100, 101].len() == 4);
    assert(seq![119u8, 97, 121].len() == 3);
    assert(seq![110u8, 100].len() == 2);
    assert(seq![116u8, 97, 103].len() == 3);
    assert(seq![119u8, 97, 121][0] == 119);
    assert(seq![116u8, 97, 103][0] == 116);
}

/// A "node" with the attributes "id", "lat" and "lon" is added to the nodes if its id is a number.
/// Nothing else changes.
pub proof fn node_elements_are_nodes(
    s: MapView,
    attrs: Seq<Option<(Seq<u8>, Seq<u8>)>>,
    i: int,
    id: Seq<char>,
    j: int,
    lat: Seq<char>,
    k: int,
    lon: Seq<char>,
)
    requires
        says(attrs, i, seq![105u8, 100], id),
        says(attrs, j, seq![108u8, 97, 116], lat),
        says(attrs, k, seq![108u8, 111, 110], lon),
    ensures
        ({
            let r = x::note_event(
                s,
                EventView::Open { name: seq![110u8, 111, 100, 101], attrs },
            );
            &&& r.ways == s.ways
            &&& r.in_way == s.in_way
            &&& r.refs == s.refs
            &&& r.tags == s.tags
            &&& match t::long_decimal(id) {
                Some(v) => {
                    &&& r.nodes.len() == s.nodes.len() + 1
                    &&& r.nodes.drop_last() == s.nodes
                    &&& r.nodes.last().id == v
                    &&& r.nodes.last().lat == lat
                    &&& r.nodes.last().lon == lon
                },
                None => r.nodes == s.nodes,
            }
        }),
{
    lemma_names();
    let n = attrs.len() as int;
    lemma_says(attrs, i, seq![105u8, 100], id, n);
    lemma_says(attrs, j, seq![108u8, 97, 116], lat, n);
    lemma_says(attrs, k, seq![108u8, 111, 110], lon, n);
    let r = x::note_event(s, EventView::Open { name: seq![110u8, 111, 100, 101], attrs });
    if t::long_decimal(id) is Some {
        assert(r.nodes.drop_last() =~= s.nodes);
    }
}

/// A "way" begins without nodes and without tags. Nothing else changes.
pub proof fn way_elements_begin_empty(s: MapView, attrs: Seq<Option<(Seq<u8>, Seq<u8>)>>)
    ensures
        ({
            let r = x::note_event(s, EventView::Open { name: seq![119u8, 97, 121], attrs });
            &&& r.nodes == s.nodes
            &&& r.ways == s.ways
            &&& r.in_way
            &&& r.refs.len() == 0
            &&& r.tags == o::tags_of(Seq::empty(), 0)
        }),
{
    lemma_names();
}

/// An "nd" inside a way adds the node that its only "ref" names. Nothing else changes.
pub proof fn nd_elements_add_nodes(
    s: MapView,
    attrs: Seq<Option<(Seq<u8>, Seq<u8>)>>,
    i: int,
    text: Seq<char>,
)
    requires
        s.in_way,
        says(attrs, i, seq![114u8, 101, 102], text),
        forall|k: int|
            0 <= k < i && #[trigger] attrs[k] is Some ==> (attrs[k]->0).0 != seq![114u8, 101, 102],
    ensures
        ({
            let r = x::note_event(s, EventView::Open { name: seq![110u8, 100], attrs });
            &&& r.nodes == s.nodes
            &&& r.ways == s.ways
            &&& r.in_way
            &&& r.tags == s.tags
            &&& match t::long_decimal(text) {
                Some(v) => r.refs == s.refs.push(v as i64),
                None => r.refs == s.refs,
            }
        }),
{
    lemma_names();
    lemma_refs(attrs, i, text, attrs.len() as int);
    let r = x::note_event(s, EventView::Open { name: seq![110u8, 100], attrs });
    match t::long_decimal(text) {
        Some(v) => {
            assert(r.refs =~= s.refs.push(v as i64));
        },
        None => {
            assert(r.refs =~= s.refs);
        },
    }
}

proof fn lemma_refs(
    attrs: Seq<Option<(Seq<u8>, Seq<u8>)>>,
    i: int,
    text: Seq<char>,
    n: int,
)
    requires
        says(attrs, i, seq![114u8, 101, 102], text),
        forall|k: int|
            0 <= k < i && #[trigger] attrs[k] is Some ==> (attrs[k]->0).0 != seq![114u8, 101, 102],
        0 <= n <= attrs.len(),
    ensures
        x::refs_in(attrs, n) == if n <= i {
            Seq::<i64>::empty()
        } else {
            match t::long_decimal(text) {
                Some(v) => seq![v as i64],
                None => Seq::empty(),
            }
        },
    decreases n,
{
    if n > 0 {
        lemma_refs(attrs, i, text, n - 1);
        if n - 1 != i {
            assert(attrs[n - 1] is Some ==> (attrs[n - 1]->0).0 != seq![114u8, 101, 102]);
        } else {
            assert(Seq::<i64>::empty().push(t::long_decimal(text)->0 as i64) =~= seq![
                t::long_decimal(text)->0 as i64,
            ]);
        }
    }
}

/// A "tag" inside a way adds its key and its value to the tags of the way. Nothing else changes.
pub proof fn tag_elements_add_tags(
    s: MapView,
    attrs: Seq<Option<(Seq<u8>, Seq<u8>)>>,
    i: int,
    key: Seq<char>,
    j: int,
    value: Seq<char>,
    tags: Seq<(Seq<char>, Seq<char>)>,
)
    requires
        s.in_way,
        says(attrs, i, seq![107u8], key),
        says(attrs, j, seq![118u8], value),
        s.tags == o::tags_of(tags, tags.len() as int),
    ensures
        ({
            let r = x::note_event(s, EventView::Open { name: seq![116u8, 97, 103], attrs });
            &&& r.nodes == s.nodes
            &&& r.ways == s.ways
            &&& r.in_way
            &&& r.refs == s.refs
            &&& r.tags == o::tags_of(tags.push((key, value)), tags.len() as int + 1)
        }),
{
    lemma_names();
    let n = attrs.len() as int;
    lemma_says(attrs, i, seq![107u8], key, n);
    lemma_says(attrs, j, seq![118u8], value, n);
    lemma_tags_grow(tags, (key, value), tags.len() as int);
}

proof fn lemma_tags_grow(
    tags: Seq<(Seq<char>, Seq<char>)>,
    tag: (Seq<char>, Seq<char>),
    n: int,
)
    requires
        n <= tags.len(),
    ensures
        o::tags_of(tags.push(tag), n) == o::tags_of(tags, n),
    decreases n,
{
    if n > 0 {
        lemma_tags_grow(tags, tag, n - 1);
    }
}

/// At the end of a "way" the way over its nodes, with its tags, is listed if it can be walked or
/// driven. What is not inside a way is no part of one.
pub proof fn way_elements_are_ways(s: MapView, e: EventView, refs: Seq<i64>)
    ensures
        ({
            let r = x::note_event(s, EventView::Close { name: seq![119u8, 97, 121] });
            &&& r.nodes == s.nodes
            &&& !r.in_way
            &&& s.in_way ==> match o::way_of(s.tags, s.refs) {
                Some(w) => r.ways == s.ways.push(w),
                None => r.ways == s.ways,
            }
            &&& !s.in_way ==> r == s
        }),
        e is Other || e is Eof || e is Fault ==> x::note_event(s, e) == s,
        !s.in_way && e is Open && (e->Open_name == seq![110u8, 100] || e->Open_name
            == seq![116u8, 97, 103]) ==> x::note_event(s, e) == s,
        e is Close && e->Close_name != seq![119u8, 97, 121] ==> x::note_event(s, e) == s,
{
    lemma_names();
}

/// A file is read from its first event to its last, one after the other.
pub proof fn events_are_read_in_order(es: Seq<EventView>, n: int)
    requires
        0 < n <= es.len(),
    ensures
        x::map_after(es, 0).nodes.len() == 0,
        x::map_after(es, 0).ways.len() == 0,
        !x::map_after(es, 0).in_way,
        x::map_after(es, n) == x::note_event(x::map_after(es, n - 1), es[n - 1]),
        match x::streets_in(es) {
            Ok((nodes, ways)) => !(es.last() is Fault) && nodes == x::map_after(
                es,
                es.len() as int,
            ).nodes && ways == x::map_after(es, es.len() as int).ways,
            Err((position, cause)) => es.last() == (EventView::Fault { position, cause }),
        },
{
}

proof fn lemma_brackets(bytes: Seq<u8>)
    ensures
        0 <= x::open_brackets(bytes) <= bytes.len(),
    decreases bytes.len(),
{
    if bytes.len() > 0 {
        lemma_brackets(bytes.drop_last());
    }
}

/// A map of less than two gigabytes is read, and so is a longer one that declares no document type.
pub proof fn maps_are_read_unless_too_long(bytes: Seq<u8>)
    ensures
        bytes.len() < 0x8000_0000 ==> x::countable(bytes),
        (forall|i: int|
            0 <= i < bytes.len() - 2 && #[trigger] bytes[i] == 60 && bytes[i + 1] == 33
                ==> bytes[i + 2] != 68 && bytes[i + 2] != 100) ==> x::countable(bytes),
{
    lemma_brackets(bytes);
    if x::opens_doctype(bytes) {
        let i = choose|i: int| #[trigger] x::doctype_at(bytes, i);
        assert(bytes[i] == 60);
    }
}

// ---------------------------------------------------------------------------
// Streets
// ---------------------------------------------------------------------------

/// A node lies where the last entry with coordinates says.
pub proof fn coordinates_are_the_last(
    ids: Seq<i64>,
    coords: Seq<Option<(u64, u64)>>,
    n: int,
    i: int,
)
    requires
        0 <= i < n,
        coords[i] is Some,
        forall|k: int| i < k < n && ids[k] == ids[i] ==> (#[trigger] coords[k]) is None,
    ensures
        st::coords_of(ids, coords, n).contains_key(ids[i]),
        st::coords_of(ids, coords, n)[ids[i]] == coords[i]->0,
    decreases n,
{
    if i < n - 1 {
        coordinates_are_the_last(ids, coords, n - 1, i);
        assert(ids[n - 1] == ids[i] ==> coords[n - 1] is None);
    }
}

/// Only nodes with coordinates lie anywhere.
pub proof fn coordinates_are_given(ids: Seq<i64>, coords: Seq<Option<(u64, u64)>>, n: int, id: i64)
    requires
        st::coords_of(ids, coords, n).contains_key(id),
    ensures
        exists|i: int| 0 <= i < n && ids[i] == id && (#[trigger] coords[i]) is Some,
    decreases n,
{
    if n > 0 {
        if coords[n - 1] is Some && ids[n - 1] == id {
            assert(coords[n - 1] is Some);
        } else {
            coordinates_are_given(ids, coords, n - 1, id);
            let i = choose|i: int| 0 <= i < n - 1 && ids[i] == id && (#[trigger] coords[i]) is Some;
            assert(coords[i] is Some);
        }
    }
}

/// A segment lies on way `w` between its nodes `k` and `k + 1`. On foot it leads both ways, and its
/// length counts as often as the way says. Driven, it leads where the way does, and its length
/// counts once.
pub open spec fn on_way(
    w: WayView,
    index: Map<i64, u32>,
    driven: bool,
    k: int,
    s: Segment,
) -> bool {
    &&& 0 <= k < w.refs.len() - 1
    &&& index.contains_key(w.refs[k])
    &&& index.contains_key(w.refs[k + 1])
    &&& s.a == index[w.refs[k]]
    &&& s.b == index[w.refs[k + 1]]
    &&& s.is_pedestrian == w.pedestrian
    &&& driven ==> w.vehicle && s.penalty == 1
    &&& !driven ==> w.walkable && s.penalty == w.penalty
    &&& s.forward <==> !(driven && w.oneway < 0)
    &&& s.backward <==> !(driven && w.oneway > 0)
}

proof fn lemma_way_gives(
    w: WayView,
    index: Map<i64, u32>,
    driven: bool,
    n: int,
    k: int,
) -> (q: int)
    requires
        0 <= k < n < w.refs.len(),
        index.contains_key(w.refs[k]),
        index.contains_key(w.refs[k + 1]),
        if driven {
            w.vehicle
        } else {
            w.walkable
        },
    ensures
        0 <= q < st::way_segments(w, index, driven, n).len(),
        on_way(w, index, driven, k, st::way_segments(w, index, driven, n)[q]),
    decreases n,
{
    let front = st::way_segments(w, index, driven, n - 1);
    if k < n - 1 {
        let q = lemma_way_gives(w, index, driven, n - 1, k);
        assert(st::way_segments(w, index, driven, n)[q] == front[q]);
        q
    } else {
        assert(st::way_segments(w, index, driven, n)[front.len() as int] == st::segment_of(
            w,
            index[w.refs[k]],
            index[w.refs[k + 1]],
            driven,
        ));
        front.len() as int
    }
}

/// Two nodes that follow each other on a way are joined by a segment.
pub proof fn ways_give_segments(
    ways: Seq<WayView>,
    index: Map<i64, u32>,
    driven: bool,
    n: int,
    w: int,
    k: int,
)
    requires
        0 <= w < n <= ways.len(),
        0 <= k < ways[w].refs.len() - 1,
        index.contains_key(ways[w].refs[k]),
        index.contains_key(ways[w].refs[k + 1]),
        if driven {
            ways[w].vehicle
        } else {
            ways[w].walkable
        },
    ensures
        ({
            let segs = st::segments_of(ways, index, driven, n);
            exists|q: int| 0 <= q < segs.len() && on_way(ways[w], index, driven, k, #[trigger] segs[q])
        }),
    decreases n,
{
    let segs = st::segments_of(ways, index, driven, n);
    let front = st::segments_of(ways, index, driven, n - 1);
    if w < n - 1 {
        ways_give_segments(ways, index, driven, n - 1, w, k);
        let q = choose|q: int|
            0 <= q < front.len() && on_way(ways[w], index, driven, k, #[trigger] front[q]);
        assert(segs[q] == front[q]);
    } else {
        let q = lemma_way_gives(ways[w], index, driven, ways[w].refs.len() - 1, k);
        assert(segs[front.len() + q] == st::way_segments(
            ways[w],
            index,
            driven,
            ways[w].refs.len() - 1,
        )[q]);
    }
}

proof fn lemma_way_from(w: WayView, index: Map<i64, u32>, driven: bool, n: int, q: int) -> (k: int)
    requires
        0 <= n < w.refs.len() || n <= 0,
        0 <= q < st::way_segments(w, index, driven, n).len(),
        if driven {
            w.vehicle
        } else {
            w.walkable
        },
    ensures
        on_way(w, index, driven, k, st::way_segments(w, index, driven, n)[q]),
    decreases n,
{
    let front = st::way_segments(w, index, driven, n - 1);
    if q < front.len() {
        let k = lemma_way_from(w, index, driven, n - 1, q);
        assert(st::way_segments(w, index, driven, n)[q] == front[q]);
        k
    } else {
        n - 1
    }
}

/// Every segment lies on a way that can be walked, or on one that can be driven.
pub proof fn segments_lie_on_ways(
    ways: Seq<WayView>,
    index: Map<i64, u32>,
    driven: bool,
    n: int,
    q: int,
)
    requires
        0 <= n <= ways.len(),
        0 <= q < st::segments_of(ways, index, driven, n).len(),
    ensures
        exists|w: int, k: int|
            0 <= w < n && #[trigger] on_way(
                ways[w],
                index,
                driven,
                k,
                st::segments_of(ways, index, driven, n)[q],
            ),
    decreases n,
{
    let segs = st::segments_of(ways, index, driven, n);
    let front = st::segments_of(ways, index, driven, n - 1);
    if q < front.len() {
        segments_lie_on_ways(ways, index, driven, n - 1, q);
        let (w, k) = choose|w: int, k: int|
            0 <= w < n - 1 && #[trigger] on_way(ways[w], index, driven, k, front[q]);
        assert(segs[q] == front[q]);
        assert(on_way(ways[w], index, driven, k, segs[q]));
    } else {
        let k = lemma_way_from(
            ways[n - 1],
            index,
            driven,
            ways[n - 1].refs.len() - 1,
            q - front.len(),
        );
        assert(on_way(ways[n - 1], index, driven, k, segs[q]));
    }
}

/// An edge leads from `u` to `v` over some metres.
pub open spec fn leads(g: GraphView, u: int, v: int, metres: u16) -> bool {
    exists|k: int|
        0 <= k < g.edges[u].len() && (#[trigger] g.edges[u][k]).to == v && g.edges[u][k].dist
            == metres
}

proof fn lemma_gives(segs: Seq<Segment>, dists: Seq<u16>, n: int, q: int, u: int, v: u32)
    requires
        0 <= q < n <= segs.len(),
        (segs[q].forward && segs[q].a == u && segs[q].b == v) || (segs[q].backward && segs[q].b == u
            && segs[q].a == v),
    ensures
        exists|k: int|
            0 <= k < st::edges_of(segs, dists, u, n).len() && (#[trigger] st::edges_of(
                segs,
                dists,
                u,
                n,
            )[k]) == st::plain_edge(v, dists[q]),
    decreases n,
{
    let s = segs[n - 1];
    let front = st::edges_of(segs, dists, u, n - 1);
    let all = st::edges_of(segs, dists, u, n);
    if q < n - 1 {
        lemma_gives(segs, dists, n - 1, q, u, v);
        let k = choose|k: int|
            0 <= k < front.len() && (#[trigger] front[k]) == st::plain_edge(v, dists[q]);
        assert(all[k] == front[k]);
    } else if s.forward && s.a == u && s.b == v {
        assert(all[front.len() as int] == st::plain_edge(v, dists[q]));
    } else {
        assert(all[all.len() - 1] == st::plain_edge(v, dists[q]));
    }
}

/// A segment between two nodes that are kept can be followed in each direction in which it leads,
/// over its length. A node that is kept lies where it lay, and is on a footway if some footway leads
/// to it.
pub proof fn segments_can_be_followed(
    nodes: Seq<WalkNode>,
    segs: Seq<Segment>,
    dists: Seq<u16>,
    keep: Seq<bool>,
    q: int,
)
    requires
        nodes.len() <= u32::MAX,
        keep.len() == nodes.len(),
        dists.len() == segs.len(),
        0 <= q < segs.len(),
        segs[q].a < nodes.len(),
        segs[q].b < nodes.len(),
        keep[segs[q].a as int],
        keep[segs[q].b as int],
    ensures
        ({
            let g = st::pruned(st::network_of(nodes, segs, dists), keep);
            let a = st::kept_before(keep, segs[q].a as int);
            let b = st::kept_before(keep, segs[q].b as int);
            &&& 0 <= a < g.nodes.len() && 0 <= b < g.nodes.len()
            &&& g.nodes[a] == nodes[segs[q].a as int]
            &&& g.nodes[b] == nodes[segs[q].b as int]
            &&& segs[q].is_pedestrian ==> g.pedestrian[a] && g.pedestrian[b]
            &&& segs[q].forward ==> leads(g, a, b, dists[q])
            &&& segs[q].backward ==> leads(g, b, a, dists[q])
        }),
{
    let n = nodes.len() as int;
    let whole = st::network_of(nodes, segs, dists);
    let lists = Seq::new(
        whole.edges.len(),
        |u: int| st::kept_edges(whole.edges[u], keep, whole.edges[u].len() as int),
    );
    let g = st::pruned(whole, keep);
    let i = segs[q].a as int;
    let j = segs[q].b as int;
    st::lemma_kept_at(nodes, keep, n, i);
    st::lemma_kept_at(nodes, keep, n, j);
    st::lemma_kept_at(lists, keep, n, i);
    st::lemma_kept_at(lists, keep, n, j);
    st::lemma_kept_at(whole.pedestrian, keep, n, i);
    st::lemma_kept_at(whole.pedestrian, keep, n, j);
    st::lemma_kept_len(nodes, keep, n);
    if segs[q].forward {
        lemma_gives(segs, dists, segs.len() as int, q, i, segs[q].b);
        lemma_kept_leads(whole, keep, i, segs[q].b, dists[q]);
    }
    if segs[q].backward {
        lemma_gives(segs, dists, segs.len() as int, q, j, segs[q].a);
        lemma_kept_leads(whole, keep, j, segs[q].a, dists[q]);
    }
}

proof fn lemma_kept_leads(g: GraphView, keep: Seq<bool>, u: int, v: u32, metres: u16)
    requires
        g.nodes.len() <= u32::MAX,
        g.edges.len() == g.nodes.len(),
        keep.len() == g.nodes.len(),
        0 <= u < g.nodes.len(),
        v < g.nodes.len(),
        keep[u],
        keep[v as int],
        exists|k: int|
            0 <= k < g.edges[u].len() && (#[trigger] g.edges[u][k]) == st::plain_edge(v, metres),
    ensures
        leads(
            st::pruned(g, keep),
            st::kept_before(keep, u),
            st::kept_before(keep, v as int),
            metres,
        ),
{
    let n = g.nodes.len() as int;
    let lists = Seq::new(
        g.edges.len(),
        |u: int| st::kept_edges(g.edges[u], keep, g.edges[u].len() as int),
    );
    let k = choose|k: int|
        0 <= k < g.edges[u].len() && (#[trigger] g.edges[u][k]) == st::plain_edge(v, metres);
    st::lemma_kept_at(lists, keep, n, u);
    st::lemma_kept_len(lists, keep, v as int);
    let j = st::lemma_kept_edge_at(g.edges[u], keep, g.edges[u].len() as int, k);
    let p = st::pruned(g, keep);
    let from = st::kept_before(keep, u);
    assert(p.edges[from] == lists[u]);
    assert(p.edges[from][j].to == st::kept_before(keep, v as int));
}

/// Every edge follows a segment in a direction in which it leads, over its length, between two
/// nodes that are kept. No other nodes are there, and a node on a footway has one.
pub proof fn edges_follow_segments(
    nodes: Seq<WalkNode>,
    segs: Seq<Segment>,
    dists: Seq<u16>,
    keep: Seq<bool>,
    u: int,
    k: int,
)
    requires
        nodes.len() <= u32::MAX,
        keep.len() == nodes.len(),
        dists.len() == segs.len(),
        st::segments_within(segs, nodes.len() as int),
        0 <= u < st::pruned(st::network_of(nodes, segs, dists), keep).nodes.len(),
    ensures
        ({
            let g = st::pruned(st::network_of(nodes, segs, dists), keep);
            exists|i: int|
                0 <= i < nodes.len() && #[trigger] keep[i] && st::kept_before(keep, i) == u
                    && nodes[i] == g.nodes[u] && (g.pedestrian[u] ==> exists|q: int|
                    0 <= q < segs.len() && (#[trigger] segs[q]).is_pedestrian && (segs[q].a == i
                        || segs[q].b == i)) && (0 <= k < g.edges[u].len() ==> exists|q: int|
                    0 <= q < segs.len() && follows(
                        #[trigger] segs[q],
                        keep,
                        i,
                        g.edges[u][k].to as int,
                    ) && dists[q] == g.edges[u][k].dist)
        }),
{
    let n = nodes.len() as int;
    let whole = st::network_of(nodes, segs, dists);
    let lists = Seq::new(
        whole.edges.len(),
        |u: int| st::kept_edges(whole.edges[u], keep, whole.edges[u].len() as int),
    );
    let g = st::pruned(whole, keep);
    let i = st::lemma_kept_from(nodes, keep, n, u);
    st::lemma_kept_at(lists, keep, n, i);
    st::lemma_kept_at(whole.pedestrian, keep, n, i);
    assert(keep[i]);
    assert(g.edges[u] == lists[i]);
    assert(g.nodes[u] == nodes[i]);
    if 0 <= k < g.edges[u].len() {
        let es = whole.edges[i];
        let e = st::lemma_kept_edge_from(es, keep, es.len() as int, k);
        st::lemma_edges_from(segs, dists, i, segs.len() as int, e);
        let q = choose|q: int|
            0 <= q < segs.len() && {
                let s = #[trigger] segs[q];
                es[e].dist == dists[q] && ((s.forward && s.a == i && s.b == es[e].to) || (s.backward
                    && s.b == i && s.a == es[e].to))
            };
        st::lemma_kept_len(nodes, keep, es[e].to as int);
        assert(es[e].to < n);
        assert(follows(segs[q], keep, i, g.edges[u][k].to as int));
    }
}

/// A segment leads from node `i` to a node that is kept and has number `v` among those.
pub open spec fn follows(s: Segment, keep: Seq<bool>, i: int, v: int) -> bool {
    ||| s.forward && s.a == i && keep[s.b as int] && st::kept_before(keep, s.b as int) == v
    ||| s.backward && s.b == i && keep[s.a as int] && st::kept_before(keep, s.a as int) == v
}

/// Every node of a way that can be walked, or driven, is there if its coordinates are known: once, in
/// the order of the ids, and where they say. No other nodes are there.
pub proof fn streets_have_the_nodes_of_ways(
    nodes: NodeIndex,
    ways: Seq<WayView>,
    coords: Map<i64, (u64, u64)>,
    driven: bool,
    w: int,
    k: int,
    i: int,
    j: int,
)
    requires
        nodes.holds(ways, coords, driven),
    ensures
        0 <= w < ways.len() && (if driven {
            ways[w].vehicle
        } else {
            ways[w].walkable
        }) && 0 <= k < ways[w].refs.len() && coords.contains_key(ways[w].refs[k]) ==> {
            let id = ways[w].refs[k];
            &&& nodes.index@.contains_key(id)
            &&& nodes.index@[id] < nodes.nodes@.len()
            &&& nodes.nodes@[nodes.index@[id] as int].lat == coords[id].0
            &&& nodes.nodes@[nodes.index@[id] as int].lon == coords[id].1
        },
        0 <= i < nodes.ids@.len() ==> coords.contains_key(nodes.ids@[i]) && exists|x: int, y: int|
            0 <= x < ways.len() && 0 <= y < ways[x].refs.len() && (if driven {
                ways[x].vehicle
            } else {
                ways[x].walkable
            }) && #[trigger] ways[x].refs[y] == nodes.ids@[i],
        0 <= i < j < nodes.ids@.len() ==> nodes.ids@[i] < nodes.ids@[j],
        nodes.nodes@.len() == nodes.ids@.len(),
{
    if 0 <= w < ways.len() && (if driven {
        ways[w].vehicle
    } else {
        ways[w].walkable
    }) && 0 <= k < ways[w].refs.len() && coords.contains_key(ways[w].refs[k]) {
        let id = ways[w].refs[k];
        assert(ways[w].refs.contains(id));
        assert(st::counts(ways[w], driven));
        assert(st::referred(ways, driven, id));
        assert(nodes.ids@.contains(id));
        let p = choose|p: int| 0 <= p < nodes.ids@.len() && nodes.ids@[p] == id;
        assert(nodes.index@.contains_key(nodes.ids@[p]));
        assert(coords[nodes.ids@[p]] == (nodes.nodes@[p].lat, nodes.nodes@[p].lon));
    }
    if 0 <= i < nodes.ids@.len() {
        let id = nodes.ids@[i];
        assert(nodes.ids@.contains(id));
        assert(st::referred(ways, driven, id));
        let x = choose|x: int|
            0 <= x < ways.len() && st::counts(#[trigger] ways[x], driven)
                && ways[x].refs.contains(id);
        let y = choose|y: int| 0 <= y < ways[x].refs.len() && ways[x].refs[y] == id;
        assert(ways[x].refs[y] == nodes.ids@[i]);
    }
}

} // verus!
