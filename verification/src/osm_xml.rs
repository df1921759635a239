//! Streets from a map extract in XML.

use crate::feed as f;
use crate::lists;
use crate::osm as o;
use crate::osm::{TagsView, WalkWay, WayTags, WayView};
use crate::text as t;
use quick_xml::events::{BytesStart, Event};
use vstd::prelude::*;

verus! {

// ---------------------------------------------------------------------------
// The parser
// ---------------------------------------------------------------------------

/// `quick_xml::Reader`: a parser over some source of bytes.
#[verifier::external_type_specification]
#[verifier::external_body]
#[verifier::reject_recursive_types(R)]
pub struct ExReader<R>(quick_xml::Reader<R>);

/// One thing that the parser hands out. Names and values are raw bytes.
#[derive(Debug)]
pub enum XmlEvent {
    /// A start tag or an empty element. An attribute that cannot be parsed is None.
    Open { name: Vec<u8>, attrs: Vec<Option<(Vec<u8>, Vec<u8>)>> },
    /// An end tag.
    Close { name: Vec<u8> },
    /// Text, comments and the like.
    Other,
    /// The end of the input.
    Eof,
    /// The input cannot be parsed from here on.
    Fault { position: u64, cause: String },
}

/// An event as a mathematical value.
pub enum EventView {
    Open { name: Seq<u8>, attrs: Seq<Option<(Seq<u8>, Seq<u8>)>> },
    Close { name: Seq<u8> },
    Other,
    Eof,
    Fault { position: u64, cause: Seq<char> },
}

pub open spec fn attr_view(a: Option<(Vec<u8>, Vec<u8>)>) -> Option<(Seq<u8>, Seq<u8>)> {
    match a {
        Some((k, v)) => Some((k@, v@)),
        None => None,
    }
}

pub open spec fn attrs_view(v: Seq<Option<(Vec<u8>, Vec<u8>)>>) -> Seq<Option<(Seq<u8>, Seq<u8>)>> {
    Seq::new(v.len(), |i: int| attr_view(v[i]))
}

impl View for XmlEvent {
    type V = EventView;

    open spec fn view(&self) -> EventView {
        match self {
            XmlEvent::Open { name, attrs } => EventView::Open {
                name: name@,
                attrs: attrs_view(attrs@),
            },
            XmlEvent::Close { name } => EventView::Close { name: name@ },
            XmlEvent::Other => EventView::Other,
            XmlEvent::Eof => EventView::Eof,
            XmlEvent::Fault { position, cause } => EventView::Fault {
                position: *position,
                cause: cause@,
            },
        }
    }
}

pub open spec fn is_last(e: EventView) -> bool {
    e is Eof || e is Fault
}

/// The events come to an end, which is the end of the input or a fault.
pub open spec fn comes_to_end(es: Seq<EventView>) -> bool {
    &&& es.len() > 0
    &&& is_last(es.last())
    &&& forall|i: int| 0 <= i < es.len() - 1 ==> !is_last(#[trigger] es[i])
}

/// What a `quick_xml::Reader` hands out over the given bytes, up to the end of the input or the
/// first error.
pub uninterp spec fn xml_events(bytes: Seq<u8>) -> Seq<EventView>;

/// What a `quick_xml::Reader` has not handed out yet, up to the end of the input or the first
/// error.
pub uninterp spec fn xml_rest(rdr: quick_xml::Reader<&[u8]>) -> Seq<EventView>;

/// How often `<` occurs in some bytes.
pub open spec fn open_brackets(bytes: Seq<u8>) -> int
    decreases bytes.len(),
{
    if bytes.len() == 0 {
        0
    } else if bytes.last() == 60 {
        open_brackets(bytes.drop_last()) + 1
    } else {
        open_brackets(bytes.drop_last())
    }
}

/// `<!D` or `<!d` stands at a position.
pub open spec fn doctype_at(bytes: Seq<u8>, i: int) -> bool {
    &&& 0 <= i < bytes.len() - 2
    &&& bytes[i] == 60
    &&& bytes[i + 1] == 33
    &&& bytes[i + 2] == 68 || bytes[i + 2] == 100
}

/// A document type declaration may begin somewhere.
pub open spec fn opens_doctype(bytes: Seq<u8>) -> bool {
    exists|i: int| #[trigger] doctype_at(bytes, i)
}

/// The parser counts the brackets inside a document type declaration in 32 bits: so many fit.
pub open spec fn countable(bytes: Seq<u8>) -> bool {
    opens_doctype(bytes) ==> open_brackets(bytes) <= i32::MAX
}

/// The bytes that a `quick_xml::Reader` was opened over.
pub uninterp spec fn xml_source(rdr: quick_xml::Reader<&[u8]>) -> Seq<u8>;

/// `quick_xml::Reader::from_reader`, with text trimmed: a parser over the bytes. What it will hand
/// out depends on the bytes alone, and comes to an end.
#[verifier::external_body]
fn open_xml<'a>(bytes: &'a [u8]) -> (rdr: quick_xml::Reader<&'a [u8]>)
    requires
        countable(bytes@),
    ensures
        xml_source(rdr) == bytes@,
        xml_rest(rdr) == xml_events(bytes@),
        comes_to_end(xml_rest(rdr)),
{
    let mut rdr = quick_xml::Reader::from_reader(bytes);
    rdr.config_mut().trim_text(true);
    rdr
}

/// `quick_xml::Reader::read_event`: hands out the next event and moves on. Bytes whose brackets the
/// parser could not count are left out: it adds them up unchecked.
#[verifier::external_body]
fn next_event(rdr: &mut quick_xml::Reader<&[u8]>) -> (event: XmlEvent)
    requires
        countable(xml_source(*old(rdr))),
        xml_rest(*old(rdr)).len() > 0,
    ensures
        xml_source(*final(rdr)) == xml_source(*old(rdr)),
        event@ == xml_rest(*old(rdr))[0],
        xml_rest(*final(rdr)) == xml_rest(*old(rdr)).skip(1),
{
    let open = |e: BytesStart| XmlEvent::Open {
        name: e.name().0.to_vec(),
        attrs: e.attributes().map(|a| a.ok().map(|a| (a.key.0.to_vec(), a.value.to_vec()))).collect(),
    };
    match rdr.read_event() {
        Ok(Event::Start(e)) => open(e),
        Ok(Event::Empty(e)) => open(e),
        Ok(Event::End(e)) => XmlEvent::Close { name: e.name().0.to_vec() },
        Ok(Event::Eof) => XmlEvent::Eof,
        Ok(_) => XmlEvent::Other,
        Err(e) => XmlEvent::Fault { position: rdr.buffer_position(), cause: e.to_string() },
    }
}

/// Checks that the parser can count the brackets.
fn check_countable(bytes: &[u8]) -> (r: bool)
    ensures
        r == countable(bytes@),
{
    let mut found: bool = false;
    let mut count: u64 = 0;
    let mut i: usize = 0;
    while i < bytes.len()
        invariant
            i <= bytes@.len(),
            count == open_brackets(bytes@.take(i as int)),
            count <= i,
            found == exists|k: int| k < i && #[trigger] doctype_at(bytes@, k),
        decreases bytes@.len() - i,
    {
        proof {
            let next = bytes@.take(i + 1);
            assert(next.drop_last() =~= bytes@.take(i as int));
            assert(next.last() == bytes@[i as int]);
        }
        let ghost before = found;
        if bytes[i] == 60 {
            count += 1;
            if bytes.len() - i > 2 && bytes[i + 1] == 33 && (bytes[i + 2] == 68 || bytes[i + 2] == 100) {
                found = true;
                assert(doctype_at(bytes@, i as int));
            }
        }
        proof {
            if before {
                let k = choose|k: int| k < i && #[trigger] doctype_at(bytes@, k);
                assert(k < i + 1 && doctype_at(bytes@, k));
            }
            if !found {
                assert(!doctype_at(bytes@, i as int));
            }
        }
        i += 1;
    }
    assert(bytes@.take(i as int) =~= bytes@);
    proof {
        if opens_doctype(bytes@) {
            let k = choose|k: int| #[trigger] doctype_at(bytes@, k);
            assert(k < i && doctype_at(bytes@, k));
        }
    }
    !found || count <= 0x7fff_ffff
}

// ---------------------------------------------------------------------------
// Streets
// ---------------------------------------------------------------------------

/// A point of the map. Coordinates are kept as text.
#[derive(Debug)]
pub struct MapNode {
    pub id: i64,
    pub lat: String,
    pub lon: String,
}

#[verifier::ext_equal]
pub struct NodeView {
    pub id: int,
    pub lat: Seq<char>,
    pub lon: Seq<char>,
}

impl View for MapNode {
    type V = NodeView;

    open spec fn view(&self) -> NodeView {
        NodeView { id: self.id as int, lat: self.lat@, lon: self.lon@ }
    }
}

/// Value of the last attribute of that name among the first `n`.
pub open spec fn attr_in(attrs: Seq<Option<(Seq<u8>, Seq<u8>)>>, name: Seq<u8>, n: int) -> Option<
    Seq<u8>,
>
    decreases n,
{
    if n <= 0 {
        None
    } else {
        match attrs[n - 1] {
            Some((k, v)) if k == name => Some(v),
            _ => attr_in(attrs, name, n - 1),
        }
    }
}

/// Text of an attribute.
pub open spec fn attr_text(attrs: Seq<Option<(Seq<u8>, Seq<u8>)>>, name: Seq<u8>) -> Option<
    Seq<char>,
> {
    match attr_in(attrs, name, attrs.len() as int) {
        Some(v) => t::text_in(v),
        None => None,
    }
}

pub open spec fn text_or_empty(x: Option<Seq<char>>) -> Seq<char> {
    match x {
        Some(s) => s,
        None => Seq::empty(),
    }
}

/// A node with an id that is a number, and with both coordinates.
pub open spec fn node_in(attrs: Seq<Option<(Seq<u8>, Seq<u8>)>>) -> Option<NodeView> {
    match (
        attr_text(attrs, seq![105u8, 100]),
        attr_text(attrs, seq![108u8, 97, 116]),
        attr_text(attrs, seq![108u8, 111, 110]),
    ) {
        (Some(id), Some(lat), Some(lon)) => match t::long_decimal(id) {
            Some(id) => Some(NodeView { id, lat, lon }),
            None => None,
        },
        _ => None,
    }
}

/// The references among the first `n` attributes that are numbers.
pub open spec fn refs_in(attrs: Seq<Option<(Seq<u8>, Seq<u8>)>>, n: int) -> Seq<i64>
    decreases n,
{
    if n <= 0 {
        Seq::empty()
    } else {
        let front = refs_in(attrs, n - 1);
        match attrs[n - 1] {
            Some((k, v)) if k == seq![114u8, 101, 102] => match t::text_in(v) {
                Some(s) => match t::long_decimal(s) {
                    Some(id) => front.push(id as i64),
                    None => front,
                },
                None => front,
            },
            _ => front,
        }
    }
}

/// What has been read of a map.
#[verifier::ext_equal]
pub struct MapView {
    pub nodes: Seq<NodeView>,
    pub ways: Seq<WayView>,
    pub in_way: bool,
    pub refs: Seq<i64>,
    pub tags: TagsView,
}

pub open spec fn empty_map() -> MapView {
    MapView {
        nodes: Seq::empty(),
        ways: Seq::empty(),
        in_way: false,
        refs: Seq::empty(),
        tags: o::no_tags(),
    }
}

/// Takes note of a start tag: "node", "way", "nd" or "tag".
pub open spec fn open_tag(
    s: MapView,
    name: Seq<u8>,
    attrs: Seq<Option<(Seq<u8>, Seq<u8>)>>,
) -> MapView {
    if name == seq![110u8, 111, 100, 101] {
        match node_in(attrs) {
            Some(n) => MapView { nodes: s.nodes.push(n), ..s },
            None => s,
        }
    } else if name == seq![119u8, 97, 121] {
        MapView { in_way: true, refs: Seq::empty(), tags: o::no_tags(), ..s }
    } else if name == seq![110u8, 100] && s.in_way {
        MapView { refs: s.refs + refs_in(attrs, attrs.len() as int), ..s }
    } else if name == seq![116u8, 97, 103] && s.in_way {
        MapView {
            tags: o::note_tag(
                s.tags,
                text_or_empty(attr_text(attrs, seq![107u8])),
                text_or_empty(attr_text(attrs, seq![118u8])),
            ),
            ..s
        }
    } else {
        s
    }
}

/// Takes note of an end tag: "way".
pub open spec fn close_tag(s: MapView, name: Seq<u8>) -> MapView {
    if name == seq![119u8, 97, 121] && s.in_way {
        match o::way_of(s.tags, s.refs) {
            Some(w) => MapView {
                ways: s.ways.push(w),
                in_way: false,
                tags: TagsView { highway: None, ..s.tags },
                ..s
            },
            None => MapView { in_way: false, tags: TagsView { highway: None, ..s.tags }, ..s },
        }
    } else {
        s
    }
}

pub open spec fn note_event(s: MapView, e: EventView) -> MapView {
    match e {
        EventView::Open { name, attrs } => open_tag(s, name, attrs),
        EventView::Close { name } => close_tag(s, name),
        _ => s,
    }
}

/// What has been read after the first `n` events.
pub open spec fn map_after(es: Seq<EventView>, n: int) -> MapView
    decreases n,
{
    if n <= 0 {
        empty_map()
    } else {
        note_event(map_after(es, n - 1), es[n - 1])
    }
}

/// The nodes and ways of a map, or where it cannot be parsed.
pub open spec fn streets_in(es: Seq<EventView>) -> Result<
    (Seq<NodeView>, Seq<WayView>),
    (u64, Seq<char>),
> {
    match es.last() {
        EventView::Fault { position, cause } => Err((position, cause)),
        _ => {
            let s = map_after(es, es.len() as int);
            Ok((s.nodes, s.ways))
        },
    }
}

/// What has been read of a map.
pub struct MapReader {
    nodes: Vec<MapNode>,
    ways: Vec<WalkWay>,
    in_way: bool,
    refs: Vec<i64>,
    tags: WayTags,
}

impl View for MapReader {
    type V = MapView;

    closed spec fn view(&self) -> MapView {
        MapView {
            nodes: f::views(self.nodes@),
            ways: f::views(self.ways@),
            in_way: self.in_way,
            refs: self.refs@,
            tags: self.tags@,
        }
    }
}

fn same_bytes(a: &Vec<u8>, b: &[u8]) -> (r: bool)
    ensures
        r == (a@ == b@),
{
    if a.len() != b.len() {
        return false;
    }
    let mut i: usize = 0;
    while i < a.len()
        invariant
            i <= a@.len(),
            a@.len() == b@.len(),
            forall|k: int| 0 <= k < i ==> a@[k] == b@[k],
        decreases a@.len() - i,
    {
        if a[i] != b[i] {
            return false;
        }
        i += 1;
    }
    assert(a@ =~= b@);
    true
}

/// Text of an attribute.
fn attr_string(attrs: &Vec<Option<(Vec<u8>, Vec<u8>)>>, name: &[u8]) -> (r: Option<String>)
    ensures
        match r {
            Some(s) => attr_text(attrs_view(attrs@), name@) == Some(s@),
            None => attr_text(attrs_view(attrs@), name@) is None,
        },
{
    let ghost all = attrs_view(attrs@);
    let mut i: usize = attrs.len();
    while i > 0
        invariant
            i <= attrs@.len(),
            all == attrs_view(attrs@),
            attr_in(all, name@, all.len() as int) == attr_in(all, name@, i as int),
        decreases i,
    {
        assert(all[i as int - 1] == attr_view(attrs@[i as int - 1]));
        match &attrs[i - 1] {
            Some((k, v)) => {
                if same_bytes(k, name) {
                    return t::utf8_text(v.as_slice());
                }
            },
            None => {},
        }
        i -= 1;
    }
    None
}

fn string_or_empty(x: Option<String>) -> (r: String)
    ensures
        r@ == match x {
            Some(s) => s@,
            None => Seq::empty(),
        },
{
    match x {
        Some(s) => s,
        None => String::new(),
    }
}

impl MapReader {
    pub fn new() -> (r: Self)
        ensures
            r@ == empty_map(),
    {
        let r = MapReader {
            nodes: Vec::new(),
            ways: Vec::new(),
            in_way: false,
            refs: Vec::new(),
            tags: WayTags::new(),
        };
        assert(r@ =~= empty_map());
        r
    }

    fn add_node(&mut self, attrs: &Vec<Option<(Vec<u8>, Vec<u8>)>>)
        ensures
            final(self)@ == match node_in(attrs_view(attrs@)) {
                Some(n) => MapView { nodes: old(self)@.nodes.push(n), ..old(self)@ },
                None => old(self)@,
            },
    {
        let id_name: [u8; 2] = [105, 100];
        let lat_name: [u8; 3] = [108, 97, 116];
        let lon_name: [u8; 3] = [108, 111, 110];
        assert(id_name@ =~= seq![105u8, 100]);
        assert(lat_name@ =~= seq![108u8, 97, 116]);
        assert(lon_name@ =~= seq![108u8, 111, 110]);
        let id = attr_string(attrs, id_name.as_slice());
        let lat = attr_string(attrs, lat_name.as_slice());
        let lon = attr_string(attrs, lon_name.as_slice());
        match (id, lat, lon) {
            (Some(id), Some(lat), Some(lon)) => match t::read_i64(&t::chars_of(id.as_str())) {
                Some(number) => {
                    let n = MapNode { id: number, lat, lon };
                    proof {
                        f::lemma_views_push(self.nodes@, n);
                    }
                    self.nodes.push(n);
                },
                None => {},
            },
            _ => {},
        }
    }

    fn add_refs(&mut self, attrs: &Vec<Option<(Vec<u8>, Vec<u8>)>>)
        ensures
            final(self)@ == (MapView {
                refs: old(self)@.refs + refs_in(attrs_view(attrs@), attrs@.len() as int),
                ..old(self)@
            }),
    {
        let ghost all = attrs_view(attrs@);
        let ghost start = self@;
        let ref_name: [u8; 3] = [114, 101, 102];
        assert(ref_name@ =~= seq![114u8, 101, 102]);
        let mut i: usize = 0;
        assert(start.refs + refs_in(all, 0) =~= start.refs);
        while i < attrs.len()
            invariant
                i <= attrs@.len(),
                all == attrs_view(attrs@),
                ref_name@ == seq![114u8, 101, 102],
                self@ == (MapView { refs: start.refs + refs_in(all, i as int), ..start }),
            decreases attrs@.len() - i,
        {
            let ghost before = refs_in(all, i as int);
            assert(all[i as int] == attr_view(attrs@[i as int]));
            match &attrs[i] {
                Some((k, v)) => {
                    if same_bytes(k, ref_name.as_slice()) {
                        match t::utf8_text(v.as_slice()) {
                            Some(s) => match t::read_i64(&t::chars_of(s.as_str())) {
                                Some(id) => {
                                    self.refs.push(id);
                                    assert(start.refs + before.push(id) =~= (start.refs
                                        + before).push(id));
                                },
                                None => {},
                            },
                            None => {},
                        }
                    }
                },
                None => {},
            }
            i += 1;
            assert(self@ =~= (MapView { refs: start.refs + refs_in(all, i as int), ..start }));
        }
    }

    fn open_tag(&mut self, name: &Vec<u8>, attrs: &Vec<Option<(Vec<u8>, Vec<u8>)>>)
        ensures
            final(self)@ == open_tag(old(self)@, name@, attrs_view(attrs@)),
    {
        let node: [u8; 4] = [110, 111, 100, 101];
        let way: [u8; 3] = [119, 97, 121];
        let nd: [u8; 2] = [110, 100];
        let tag: [u8; 3] = [116, 97, 103];
        assert(node@ =~= seq![110u8, 111, 100, 101]);
        assert(way@ =~= seq![119u8, 97, 121]);
        assert(nd@ =~= seq![110u8, 100]);
        assert(tag@ =~= seq![116u8, 97, 103]);
        if same_bytes(name, node.as_slice()) {
            self.add_node(attrs);
        } else if same_bytes(name, way.as_slice()) {
            self.in_way = true;
            self.refs = Vec::new();
            self.tags = WayTags::new();
            assert(self@.refs =~= Seq::<i64>::empty());
        } else if same_bytes(name, nd.as_slice()) && self.in_way {
            self.add_refs(attrs);
        } else if same_bytes(name, tag.as_slice()) && self.in_way {
            let key: [u8; 1] = [107];
            let value: [u8; 1] = [118];
            assert(key@ =~= seq![107u8]);
            assert(value@ =~= seq![118u8]);
            let k = string_or_empty(attr_string(attrs, key.as_slice()));
            let v = string_or_empty(attr_string(attrs, value.as_slice()));
            self.tags.note(k.as_str(), v.as_str());
        }
    }

    fn close_tag(&mut self, name: &Vec<u8>)
        ensures
            final(self)@ == close_tag(old(self)@, name@),
    {
        let way: [u8; 3] = [119, 97, 121];
        assert(way@ =~= seq![119u8, 97, 121]);
        if same_bytes(name, way.as_slice()) && self.in_way {
            self.in_way = false;
            let refs = lists::copy_list(&self.refs);
            match self.tags.way(refs) {
                Some(w) => {
                    proof {
                        f::lemma_views_push(self.ways@, w);
                    }
                    self.ways.push(w);
                },
                None => {},
            }
            self.tags.drop_highway();
        }
    }

    /// Takes note of an event.
    pub fn note(&mut self, e: &XmlEvent)
        ensures
            final(self)@ == note_event(old(self)@, e@),
    {
        match e {
            XmlEvent::Open { name, attrs } => self.open_tag(name, attrs),
            XmlEvent::Close { name } => self.close_tag(name),
            _ => {},
        }
    }

    /// The nodes and ways that have been read.
    pub fn finish(self) -> (r: (Vec<MapNode>, Vec<WalkWay>))
        ensures
            f::views(r.0@) == self@.nodes,
            f::views(r.1@) == self@.ways,
    {
        (self.nodes, self.ways)
    }
}

/// Why a map could not be read.
#[derive(Debug)]
pub struct XmlFault {
    pub position: u64,
    pub cause: String,
}

/// What is said of a map whose brackets the parser cannot count.
pub open spec fn too_many_brackets() -> Seq<char> {
    "too many brackets in a map with a document type declaration"@
}

/// Reads the nodes and the walkable ways of a map extract in XML.
pub fn load_osm_xml(bytes: &[u8]) -> (r: Result<(Vec<MapNode>, Vec<WalkWay>), XmlFault>)
    ensures
        match r {
            Ok((nodes, ways)) => countable(bytes@) && streets_in(xml_events(bytes@)) == Ok::<
                (Seq<NodeView>, Seq<WayView>),
                (u64, Seq<char>),
            >((f::views(nodes@), f::views(ways@))),
            Err(e) => if countable(bytes@) {
                streets_in(xml_events(bytes@)) == Err::<
                    (Seq<NodeView>, Seq<WayView>),
                    (u64, Seq<char>),
                >((e.position, e.cause@))
            } else {
                e.position == 0 && e.cause@ == too_many_brackets()
            },
        },
{
    if !check_countable(bytes) {
        return Err(
            XmlFault {
                position: 0,
                cause: t::copy_str("too many brackets in a map with a document type declaration"),
            },
        );
    }
    let mut rdr = open_xml(bytes);
    let ghost all = xml_rest(rdr);
    let mut map = MapReader::new();
    let ghost mut done: int = 0;
    assert(all.skip(0) =~= all);
    loop
        invariant_except_break
            xml_rest(rdr) == all.skip(done),
        invariant
            all == xml_events(bytes@),
            comes_to_end(all),
            countable(bytes@),
            xml_source(rdr) == bytes@,
            0 <= done < all.len(),
            map@ == map_after(all, done),
        ensures
            done == all.len() - 1,
            all.last() is Eof,
        decreases xml_rest(rdr).len(),
    {
        let e = next_event(&mut rdr);
        assert(e@ == all[done]);
        match e {
            XmlEvent::Eof => {
                break ;
            },
            XmlEvent::Fault { position, cause } => {
                assert(all.last() == e@);
                return Err(XmlFault { position, cause });
            },
            _ => {},
        }
        map.note(&e);
        proof {
            assert(all.skip(done).skip(1) =~= all.skip(done + 1));
            done = done + 1;
        }
    }
    proof {
        assert(map_after(all, all.len() as int) == note_event(map_after(all, done), all[done]));
    }
    Ok(map.finish())
}

} // verus!
