//! Streets from a map extract: which ways can be walked or driven.

use crate::feed as f;
use crate::text as t;
use vstd::prelude::*;

verus! {

// ---------------------------------------------------------------------------
// Tags
// ---------------------------------------------------------------------------

/// Road distances count three times as long as footways.
pub const ROAD_PENALTY: u32 = 3;

pub open spec fn pedestrian_class(hw: Seq<char>) -> bool {
    ||| hw == "footway"@
    ||| hw == "pedestrian"@
    ||| hw == "path"@
    ||| hw == "steps"@
    ||| hw == "living_street"@
    ||| hw == "cycleway"@
}

pub open spec fn road_class(hw: Seq<char>) -> bool {
    ||| hw == "residential"@
    ||| hw == "service"@
    ||| hw == "tertiary"@
    ||| hw == "secondary"@
    ||| hw == "primary"@
    ||| hw == "trunk"@
    ||| hw == "unclassified"@
    ||| hw == "track"@
}

pub open spec fn vehicle_class(hw: Seq<char>) -> bool {
    ||| hw == "motorway"@
    ||| hw == "motorway_link"@
    ||| hw == "trunk"@
    ||| hw == "trunk_link"@
    ||| hw == "primary"@
    ||| hw == "primary_link"@
    ||| hw == "secondary"@
    ||| hw == "secondary_link"@
    ||| hw == "tertiary"@
    ||| hw == "tertiary_link"@
    ||| hw == "unclassified"@
    ||| hw == "residential"@
    ||| hw == "living_street"@
    ||| hw == "service"@
    ||| hw == "busway"@
}

/// A way made for people on foot.
pub fn is_pedestrian_priority(hw: &str) -> (r: bool)
    ensures
        r == pedestrian_class(hw@),
{
    hw.eq("footway") || hw.eq("pedestrian") || hw.eq("path") || hw.eq("steps") || hw.eq(
        "living_street",
    ) || hw.eq("cycleway")
}

/// A road that can be walked along.
pub fn is_road_class(hw: &str) -> (r: bool)
    ensures
        r == road_class(hw@),
{
    hw.eq("residential") || hw.eq("service") || hw.eq("tertiary") || hw.eq("secondary") || hw.eq(
        "primary",
    ) || hw.eq("trunk") || hw.eq("unclassified") || hw.eq("track")
}

/// A way that can be walked.
pub fn is_walkable(hw: &str) -> (r: bool)
    ensures
        r == (pedestrian_class(hw@) || road_class(hw@)),
{
    is_pedestrian_priority(hw) || is_road_class(hw)
}

/// A road that a bus may take.
pub fn is_vehicle_class(hw: &str) -> (r: bool)
    ensures
        r == vehicle_class(hw@),
{
    hw.eq("motorway") || hw.eq("motorway_link") || hw.eq("trunk") || hw.eq("trunk_link") || hw.eq(
        "primary",
    ) || hw.eq("primary_link") || hw.eq("secondary") || hw.eq("secondary_link") || hw.eq(
        "tertiary",
    ) || hw.eq("tertiary_link") || hw.eq("unclassified") || hw.eq("residential") || hw.eq(
        "living_street",
    ) || hw.eq("service") || hw.eq("busway")
}

/// What the tags of a way say.
#[verifier::ext_equal]
pub struct TagsView {
    pub highway: Option<Seq<char>>,
    pub foot_no: bool,
    pub access_private: bool,
    pub motor_no: bool,
    pub oneway: int,
}

pub open spec fn no_tags() -> TagsView {
    TagsView {
        highway: None,
        foot_no: false,
        access_private: false,
        motor_no: false,
        oneway: 0,
    }
}

/// Direction of a way: 1 forward only, -1 backward only, 0 both ways.
pub open spec fn oneway_value(v: Seq<char>) -> int {
    if v == "yes"@ || v == "1"@ || v == "true"@ {
        1
    } else if v == "-1"@ {
        -1
    } else {
        0
    }
}

/// Takes note of a tag.
pub open spec fn note_tag(s: TagsView, k: Seq<char>, v: Seq<char>) -> TagsView {
    if k == "highway"@ {
        TagsView { highway: Some(v), ..s }
    } else if k == "foot"@ && v == "no"@ {
        TagsView { foot_no: true, ..s }
    } else if k == "access"@ && v == "private"@ {
        TagsView { access_private: true, ..s }
    } else if k == "oneway"@ {
        TagsView { oneway: oneway_value(v), ..s }
    } else if k == "junction"@ && v == "roundabout"@ {
        TagsView { oneway: 1, ..s }
    } else if k == "motor_vehicle"@ && v == "no"@ {
        TagsView { motor_no: true, ..s }
    } else {
        s
    }
}

/// What the tags of a way say.
pub struct WayTags {
    highway: Option<String>,
    foot_no: bool,
    access_private: bool,
    motor_no: bool,
    oneway: i8,
}

impl View for WayTags {
    type V = TagsView;

    closed spec fn view(&self) -> TagsView {
        TagsView {
            highway: match self.highway {
                Some(s) => Some(s@),
                None => None,
            },
            foot_no: self.foot_no,
            access_private: self.access_private,
            motor_no: self.motor_no,
            oneway: self.oneway as int,
        }
    }
}

impl WayTags {
    pub fn new() -> (r: Self)
        ensures
            r@ == no_tags(),
    {
        WayTags {
            highway: None,
            foot_no: false,
            access_private: false,
            motor_no: false,
            oneway: 0,
        }
    }

    /// Takes note of a tag.
    pub fn note(&mut self, k: &str, v: &str)
        ensures
            final(self)@ == note_tag(old(self)@, k@, v@),
    {
        if k.eq("highway") {
            self.highway = Some(t::copy_str(v));
        } else if k.eq("foot") && v.eq("no") {
            self.foot_no = true;
        } else if k.eq("access") && v.eq("private") {
            self.access_private = true;
        } else if k.eq("oneway") {
            self.oneway = if v.eq("yes") || v.eq("1") || v.eq("true") {
                1
            } else if v.eq("-1") {
                -1
            } else {
                0
            };
        } else if k.eq("junction") && v.eq("roundabout") {
            self.oneway = 1;
        } else if k.eq("motor_vehicle") && v.eq("no") {
            self.motor_no = true;
        }
        assert(self@ =~= note_tag(old(self)@, k@, v@));
    }

    /// Forgets the kind of way.
    pub fn drop_highway(&mut self)
        ensures
            final(self)@ == (TagsView { highway: None, ..old(self)@ }),
    {
        self.highway = None;
    }

    /// The way with these tags over some nodes, if it can be walked or driven.
    pub fn way(&self, node_refs: Vec<i64>) -> (r: Option<WalkWay>)
        ensures
            match r {
                Some(w) => way_of(self@, node_refs@) == Some(w@),
                None => way_of(self@, node_refs@) is None,
            },
    {
        match &self.highway {
            Some(hw) => {
                let walked: bool = is_walkable(hw.as_str()) && !self.foot_no
                    && !self.access_private;
                let driven: bool = is_vehicle_class(hw.as_str()) && !self.motor_no
                    && !self.access_private;
                if (walked || driven) && node_refs.len() >= 2 {
                    let on_foot: bool = is_pedestrian_priority(hw.as_str());
                    Some(
                        WalkWay {
                            node_refs,
                            is_walkable: walked,
                            is_pedestrian: on_foot,
                            penalty: if on_foot {
                                1
                            } else {
                                ROAD_PENALTY
                            },
                            is_vehicle: driven,
                            oneway: self.oneway,
                        },
                    )
                } else {
                    None
                }
            },
            None => None,
        }
    }
}

/// A way that can be walked or driven.
#[derive(Debug, Clone)]
pub struct WalkWay {
    pub node_refs: Vec<i64>,
    /// The way can be walked.
    pub is_walkable: bool,
    pub is_pedestrian: bool,
    /// Distances count this many times.
    pub penalty: u32,
    /// The way can be driven.
    pub is_vehicle: bool,
    /// 1 forward only, -1 backward only, 0 both ways.
    pub oneway: i8,
}

#[verifier::ext_equal]
pub struct WayView {
    pub refs: Seq<i64>,
    pub walkable: bool,
    pub pedestrian: bool,
    pub penalty: u32,
    pub vehicle: bool,
    pub oneway: int,
}

impl View for WalkWay {
    type V = WayView;

    open spec fn view(&self) -> WayView {
        WayView {
            refs: self.node_refs@,
            walkable: self.is_walkable,
            pedestrian: self.is_pedestrian,
            penalty: self.penalty,
            vehicle: self.is_vehicle,
            oneway: self.oneway as int,
        }
    }
}

/// Tags of a way that can be walked.
pub open spec fn walked(s: TagsView, hw: Seq<char>) -> bool {
    (pedestrian_class(hw) || road_class(hw)) && !s.foot_no && !s.access_private
}

/// Tags of a way that can be driven.
pub open spec fn driven(s: TagsView, hw: Seq<char>) -> bool {
    vehicle_class(hw) && !s.motor_no && !s.access_private
}

/// The way with some tags over some nodes, if it can be walked or driven.
pub open spec fn way_of(s: TagsView, refs: Seq<i64>) -> Option<WayView> {
    match s.highway {
        Some(hw) if (walked(s, hw) || driven(s, hw)) && refs.len() >= 2 => Some(
            WayView {
                refs,
                walkable: walked(s, hw),
                pedestrian: pedestrian_class(hw),
                penalty: if pedestrian_class(hw) {
                    1
                } else {
                    ROAD_PENALTY
                },
                vehicle: driven(s, hw),
                oneway: s.oneway,
            },
        ),
        _ => None,
    }
}

/// What the first `n` of some tags say.
pub open spec fn tags_of(tags: Seq<(Seq<char>, Seq<char>)>, n: int) -> TagsView
    decreases n,
{
    if n <= 0 {
        no_tags()
    } else {
        note_tag(tags_of(tags, n - 1), tags[n - 1].0, tags[n - 1].1)
    }
}

pub open spec fn tags_view(v: Seq<(String, String)>) -> Seq<(Seq<char>, Seq<char>)> {
    Seq::new(v.len(), |i: int| (v[i].0@, v[i].1@))
}

/// The way with some tags over some nodes, if it can be walked or driven.
pub fn way_from_tags(tags: &Vec<(String, String)>, node_refs: Vec<i64>) -> (r: Option<WalkWay>)
    ensures
        ({
            let all = tags_view(tags@);
            match r {
                Some(w) => way_of(tags_of(all, all.len() as int), node_refs@) == Some(w@),
                None => way_of(tags_of(all, all.len() as int), node_refs@) is None,
            }
        }),
{
    let mut s = WayTags::new();
    let mut i: usize = 0;
    while i < tags.len()
        invariant
            i <= tags@.len(),
            s@ == tags_of(tags_view(tags@), i as int),
        decreases tags@.len() - i,
    {
        s.note(tags[i].0.as_str(), tags[i].1.as_str());
        i += 1;
    }
    s.way(node_refs)
}

// ---------------------------------------------------------------------------
// Elements of a PBF file
// ---------------------------------------------------------------------------

/// A node, with its coordinates in billionths of a degree.
#[derive(Debug, Clone, Copy)]
pub struct PbfNode {
    pub id: i64,
    pub lat: i64,
    pub lon: i64,
}

/// An element of a PBF file.
#[derive(Debug)]
pub enum PbfElement {
    Node(PbfNode),
    Way { tags: Vec<(String, String)>, refs: Vec<i64> },
    Relation,
}

/// The nodes among the first `n` elements, in their order.
pub open spec fn pbf_nodes(elements: Seq<PbfElement>, n: int) -> Seq<PbfNode>
    decreases n,
{
    if n <= 0 {
        Seq::empty()
    } else {
        match elements[n - 1] {
            PbfElement::Node(x) => pbf_nodes(elements, n - 1).push(x),
            _ => pbf_nodes(elements, n - 1),
        }
    }
}

/// The way that an element stands for, if it can be walked or driven.
pub open spec fn pbf_way(element: PbfElement) -> Option<WayView> {
    match element {
        PbfElement::Way { tags, refs } => {
            let all = tags_view(tags@);
            way_of(tags_of(all, all.len() as int), refs@)
        },
        _ => None,
    }
}

/// The ways among the first `n` elements that can be walked or driven, in their order.
pub open spec fn pbf_ways(elements: Seq<PbfElement>, n: int) -> Seq<WayView>
    decreases n,
{
    if n <= 0 {
        Seq::empty()
    } else {
        match pbf_way(elements[n - 1]) {
            Some(w) => pbf_ways(elements, n - 1).push(w),
            None => pbf_ways(elements, n - 1),
        }
    }
}

/// What the elements of a PBF file say: its nodes, and the ways that can be walked or driven.
pub fn load_osm_pbf(elements: Vec<PbfElement>) -> (r: (Vec<PbfNode>, Vec<WalkWay>))
    ensures
        r.0@ == pbf_nodes(elements@, elements@.len() as int),
        f::views(r.1@) == pbf_ways(elements@, elements@.len() as int),
{
    let ghost all = elements@;
    let mut elements = elements;
    let mut nodes: Vec<PbfNode> = Vec::new();
    let mut ways: Vec<WalkWay> = Vec::new();
    let n: usize = elements.len();
    let mut i: usize = 0;
    assert(f::views(ways@) =~= Seq::empty());
    while i < n
        invariant
            i <= n,
            n == all.len(),
            elements@.len() == n,
            forall|k: int| i <= k < n ==> #[trigger] elements@[k] == all[k],
            nodes@ == pbf_nodes(all, i as int),
            f::views(ways@) == pbf_ways(all, i as int),
        decreases n - i,
    {
        let mut element = PbfElement::Relation;
        std::mem::swap(&mut elements[i], &mut element);
        assert(element == all[i as int]);
        match element {
            PbfElement::Node(x) => {
                nodes.push(x);
            },
            PbfElement::Way { tags, refs } => {
                if let Some(w) = way_from_tags(&tags, refs) {
                    proof {
                        f::lemma_views_push(ways@, w);
                    }
                    ways.push(w);
                }
            },
            PbfElement::Relation => {},
        }
        i += 1;
    }
    (nodes, ways)
}

// ---------------------------------------------------------------------------
// Kind of file
// ---------------------------------------------------------------------------

pub open spec fn lower(c: char) -> char {
    if 0x41 <= c as u32 <= 0x5a {
        (c as u32 + 0x20) as char
    } else {
        c
    }
}

pub open spec fn lowered(s: Seq<char>) -> Seq<char> {
    Seq::new(s.len(), |i: int| lower(s[i]))
}

fn lower_ascii(s: &str) -> (r: String)
    ensures
        r@ == lowered(s@),
{
    let v = t::chars_of(s);
    let mut out = String::new();
    let mut i: usize = 0;
    while i < v.len()
        invariant
            i <= v@.len(),
            v@ == s@,
            out@ == lowered(s@).take(i as int),
        decreases v@.len() - i,
    {
        let c: char = v[i];
        let x: u32 = c as u32;
        if 0x41 <= x && x <= 0x5a {
            out.push((x as u8 + 0x20) as char);
        } else {
            out.push(c);
        }
        i += 1;
        assert(out@ =~= lowered(s@).take(i as int));
    }
    assert(lowered(s@).take(i as int) =~= lowered(s@));
    out
}

/// Whether a map extract is XML: by the extension of its name, else by its first byte.
pub fn is_osm_xml(extension: Option<&str>, first_byte: Option<u8>) -> (r: bool)
    ensures
        ({
            let ext = match extension {
                Some(e) => Some(lowered(e@)),
                None => None,
            };
            r == if ext == Some("xml"@) || ext == Some("osm"@) {
                true
            } else if ext == Some("pbf"@) {
                false
            } else {
                first_byte == Some(0x3cu8)
            }
        }),
{
    match extension {
        Some(e) => {
            let ext = lower_ascii(e);
            if ext.as_str().eq("xml") || ext.as_str().eq("osm") {
                return true;
            }
            if ext.as_str().eq("pbf") {
                return false;
            }
        },
        None => {},
    }
    match first_byte {
        Some(b) => b == 0x3c,
        None => false,
    }
}

} // verus!
