//! The content of a timetable file.

use crate::data::{
    Agency, FrequencyRule, Route, Service, Stop, Transfer, Trip, WalkEdge, WalkNode,
};
use crate::feed as f;
use vstd::prelude::*;
use vstd::utf8;

verus! {

/// A fare as it is stored.
#[derive(Debug, Clone)]
pub struct StoredFare {
    /// `NOT_SET` stands for every route.
    pub route_idx: u32,
    pub origin_zone: String,
    pub dest_zone: String,
    /// In hundredths.
    pub price: u32,
    pub currency: String,
}

/// Everything that a timetable file holds.
#[derive(Debug)]
pub struct Message {
    pub feed_id: String,
    pub timezone: String,
    pub agencies: Vec<Agency>,
    pub stops: Vec<Stop>,
    pub routes: Vec<Route>,
    /// Packed arrival times, four bytes each, the lowest first.
    pub stop_arrivals: Vec<u8>,
    /// Packed departure times, laid out as the arrivals.
    pub stop_departures: Vec<u8>,
    pub transfers: Vec<Transfer>,
    pub services: Vec<Service>,
    pub trips: Vec<Trip>,
    pub fare_rules: Vec<StoredFare>,
    pub walk_nodes: Vec<WalkNode>,
    pub walk_edges: Vec<WalkEdge>,
    /// Intermediate points of all edges, packed.
    pub geometry: Vec<(u64, u64)>,
}

// ---------------------------------------------------------------------------
// Mathematical values
// ---------------------------------------------------------------------------

#[verifier::ext_equal]
pub struct AgencyRecord {
    pub id: Seq<char>,
    pub name: Seq<char>,
    pub url: Seq<char>,
}

#[verifier::ext_equal]
pub struct StopRecord {
    pub id: Seq<char>,
    pub name: Seq<char>,
    pub lat: u64,
    pub lon: u64,
    pub location_type: u8,
    pub parent_idx: u32,
    pub platform_code: Seq<char>,
    pub zone_id: Seq<char>,
    pub transfers_offset: u32,
    pub num_transfers: u16,
    pub route_idxs: Seq<u32>,
    pub walk_node_idx: u32,
}

#[verifier::ext_equal]
pub struct RouteRecord {
    pub id: Seq<char>,
    pub short_name: Seq<char>,
    pub long_name: Seq<char>,
    pub route_type: u8,
    pub color: u32,
    pub text_color: u32,
    pub agency_idx: u16,
    pub stop_idxs: Seq<u32>,
    pub stop_times_offset: u32,
    pub num_trips: u32,
    pub trip_idxs: Seq<u32>,
}

#[verifier::ext_equal]
pub struct TripRecord {
    pub id: Seq<char>,
    pub route_idx: u32,
    pub service_idx: u32,
    pub headsign: Seq<char>,
    pub direction_id: u8,
    pub frequency_rules: Seq<FrequencyRule>,
    pub template_first_departure: u32,
}

#[verifier::ext_equal]
pub struct ServiceRecord {
    pub id: Seq<char>,
    pub start_date: u16,
    pub day_bits: Seq<u8>,
}

#[verifier::ext_equal]
pub struct FareRecord {
    pub route_idx: u32,
    pub origin_zone: Seq<char>,
    pub dest_zone: Seq<char>,
    pub price: u32,
    pub currency: Seq<char>,
}

impl View for Agency {
    type V = AgencyRecord;

    open spec fn view(&self) -> AgencyRecord {
        AgencyRecord { id: self.id@, name: self.name@, url: self.url@ }
    }
}

impl View for Stop {
    type V = StopRecord;

    open spec fn view(&self) -> StopRecord {
        StopRecord {
            id: self.id@,
            name: self.name@,
            lat: self.lat,
            lon: self.lon,
            location_type: self.location_type,
            parent_idx: self.parent_idx,
            platform_code: self.platform_code@,
            zone_id: self.zone_id@,
            transfers_offset: self.transfers_offset,
            num_transfers: self.num_transfers,
            route_idxs: self.route_idxs@,
            walk_node_idx: self.walk_node_idx,
        }
    }
}

impl View for Route {
    type V = RouteRecord;

    open spec fn view(&self) -> RouteRecord {
        RouteRecord {
            id: self.id@,
            short_name: self.short_name@,
            long_name: self.long_name@,
            route_type: self.route_type,
            color: self.color,
            text_color: self.text_color,
            agency_idx: self.agency_idx,
            stop_idxs: self.stop_idxs@,
            stop_times_offset: self.stop_times_offset,
            num_trips: self.num_trips,
            trip_idxs: self.trip_idxs@,
        }
    }
}

impl View for Trip {
    type V = TripRecord;

    open spec fn view(&self) -> TripRecord {
        TripRecord {
            id: self.id@,
            route_idx: self.route_idx,
            service_idx: self.service_idx,
            headsign: self.headsign@,
            direction_id: self.direction_id,
            frequency_rules: self.frequency_rules@,
            template_first_departure: self.template_first_departure,
        }
    }
}

impl View for Service {
    type V = ServiceRecord;

    open spec fn view(&self) -> ServiceRecord {
        ServiceRecord {
            id: self.id@,
            start_date: self.start_date,
            day_bits: self.day_bits@,
        }
    }
}

impl View for StoredFare {
    type V = FareRecord;

    open spec fn view(&self) -> FareRecord {
        FareRecord {
            route_idx: self.route_idx,
            origin_zone: self.origin_zone@,
            dest_zone: self.dest_zone@,
            price: self.price,
            currency: self.currency@,
        }
    }
}

/// The content of a timetable file as a mathematical value.
#[verifier::ext_equal]
pub struct MessageView {
    pub feed_id: Seq<char>,
    pub timezone: Seq<char>,
    pub agencies: Seq<AgencyRecord>,
    pub stops: Seq<StopRecord>,
    pub routes: Seq<RouteRecord>,
    pub stop_arrivals: Seq<u8>,
    pub stop_departures: Seq<u8>,
    pub transfers: Seq<Transfer>,
    pub services: Seq<ServiceRecord>,
    pub trips: Seq<TripRecord>,
    pub fare_rules: Seq<FareRecord>,
    pub walk_nodes: Seq<WalkNode>,
    pub walk_edges: Seq<WalkEdge>,
    pub geometry: Seq<(u64, u64)>,
}

impl View for Message {
    type V = MessageView;

    open spec fn view(&self) -> MessageView {
        MessageView {
            feed_id: self.feed_id@,
            timezone: self.timezone@,
            agencies: f::views(self.agencies@),
            stops: f::views(self.stops@),
            routes: f::views(self.routes@),
            stop_arrivals: self.stop_arrivals@,
            stop_departures: self.stop_departures@,
            transfers: self.transfers@,
            services: f::views(self.services@),
            trips: f::views(self.trips@),
            fare_rules: f::views(self.fare_rules@),
            walk_nodes: self.walk_nodes@,
            walk_edges: self.walk_edges@,
            geometry: self.geometry@,
        }
    }
}

// ---------------------------------------------------------------------------
// Packed numbers
// ---------------------------------------------------------------------------

/// A number as four bytes, the lowest first.
pub open spec fn bytes_of(x: u32) -> Seq<u8> {
    seq![
        (x % 256) as u8,
        (x / 256 % 256) as u8,
        (x / 65536 % 256) as u8,
        (x / 16777216) as u8,
    ]
}

/// Numbers as bytes, one after the other.
pub open spec fn packed(s: Seq<u32>) -> Seq<u8>
    decreases s.len(),
{
    if s.len() == 0 {
        Seq::empty()
    } else {
        packed(s.drop_last()) + bytes_of(s.last())
    }
}

/// The number in four bytes, the lowest first.
pub open spec fn number_at(bytes: Seq<u8>, i: int) -> u32 {
    (bytes[4 * i] + bytes[4 * i + 1] * 256 + bytes[4 * i + 2] * 65536 + bytes[4 * i + 3]
        * 16777216) as u32
}

/// The numbers in some bytes; bytes left over at the end are none.
pub open spec fn unpacked(bytes: Seq<u8>) -> Seq<u32> {
    Seq::new(bytes.len() / 4, |i: int| number_at(bytes, i))
}

/// Appends a number.
pub fn pack_number(bytes: &mut Vec<u8>, x: u32)
    ensures
        final(bytes)@ == old(bytes)@ + bytes_of(x),
{
    bytes.push((x % 256) as u8);
    bytes.push((x / 256 % 256) as u8);
    bytes.push((x / 65536 % 256) as u8);
    bytes.push((x / 16777216) as u8);
    assert(bytes@ =~= old(bytes)@ + bytes_of(x));
}

/// The numbers in some bytes.
pub fn unpack_numbers(bytes: &Vec<u8>) -> (r: Vec<u32>)
    ensures
        r@ == unpacked(bytes@),
{
    let n: usize = bytes.len() / 4;
    let mut out: Vec<u32> = Vec::new();
    let mut i: usize = 0;
    while i < n
        invariant
            i <= n,
            n == bytes@.len() / 4,
            out@ == unpacked(bytes@).take(i as int),
        decreases n - i,
    {
        assert(bytes.len() == bytes@.len());
        let x: u32 = bytes[4 * i] as u32 + bytes[4 * i + 1] as u32 * 256 + bytes[4 * i + 2] as u32
            * 65536 + bytes[4 * i + 3] as u32 * 16777216;
        out.push(x);
        i += 1;
        assert(out@ =~= unpacked(bytes@).take(i as int));
    }
    assert(unpacked(bytes@).take(i as int) =~= unpacked(bytes@));
    out
}

pub proof fn lemma_packed_len(s: Seq<u32>)
    ensures
        packed(s).len() == 4 * s.len(),
    decreases s.len(),
{
    if s.len() > 0 {
        lemma_packed_len(s.drop_last());
    }
}

proof fn lemma_packed_at(s: Seq<u32>, i: int)
    requires
        0 <= i < s.len(),
    ensures
        number_at(packed(s), i) == s[i],
    decreases s.len(),
{
    let front = s.drop_last();
    lemma_packed_len(front);
    lemma_packed_len(s);
    let b = packed(s);
    if i < s.len() - 1 {
        lemma_packed_at(front, i);
        assert(b[4 * i] == packed(front)[4 * i]);
        assert(b[4 * i + 1] == packed(front)[4 * i + 1]);
        assert(b[4 * i + 2] == packed(front)[4 * i + 2]);
        assert(b[4 * i + 3] == packed(front)[4 * i + 3]);
    } else {
        let x = s.last();
        assert(b[4 * i] == bytes_of(x)[0]);
        assert(b[4 * i + 1] == bytes_of(x)[1]);
        assert(b[4 * i + 2] == bytes_of(x)[2]);
        assert(b[4 * i + 3] == bytes_of(x)[3]);
    }
}

/// Reading packed numbers gives them back.
pub proof fn packed_numbers_read_back(s: Seq<u32>)
    ensures
        unpacked(packed(s)) == s,
{
    lemma_packed_len(s);
    assert forall|i: int| 0 <= i < s.len() implies #[trigger] unpacked(packed(s))[i] == s[i] by {
        lemma_packed_at(s, i);
    }
    assert(unpacked(packed(s)) =~= s);
}

// ---------------------------------------------------------------------------
// Currencies
// ---------------------------------------------------------------------------

/// Hash of the first `n` of some bytes.
pub open spec fn hash_of(bytes: Seq<u8>, n: int) -> int
    decreases n,
{
    if n <= 0 {
        5381
    } else {
        (hash_of(bytes, n - 1) * 33 + bytes[n - 1]) % 0x1_0000_0000
    }
}

/// Hash of a currency code, within 32 bits.
pub fn hash_str(text: &str) -> (r: u32)
    ensures
        r == hash_of(utf8::encode_utf8(text@), utf8::encode_utf8(text@).len() as int),
{
    let bytes = text.as_bytes();
    let mut h: u32 = 5381;
    let mut i: usize = 0;
    while i < bytes.len()
        invariant
            i <= bytes@.len(),
            bytes@ == utf8::encode_utf8(text@),
            h == hash_of(bytes@, i as int),
        decreases bytes@.len() - i,
    {
        h = ((h as u64 * 33 + bytes[i] as u64) % 0x1_0000_0000) as u32;
        i += 1;
    }
    h
}

} // verus!
