//! Records as rows of numbers and byte blocks.

use crate::data::{
    Agency, FrequencyRule, Route, Service, Stop, Transfer, Trip, WalkEdge, WalkNode,
};
use crate::feed as f;
use crate::lists::copy_list;
use crate::message as msg;
use crate::message::{
    AgencyRecord, FareRecord, RouteRecord, ServiceRecord, StopRecord, StoredFare, TripRecord,
};
use crate::text as t;
use vstd::prelude::*;
use vstd::utf8;

verus! {

/// What can be stored as a row: so many numbers and so many blocks.
pub trait Record: Sized {
    /// The record as a mathematical value.
    type Val;

    spec fn val(&self) -> Self::Val;

    /// Numbers of a row.
    spec fn width() -> nat;

    /// Blocks of a row.
    spec fn depth() -> nat;

    spec fn numbers_of(v: Self::Val) -> Seq<u32>;

    spec fn blocks_of(v: Self::Val) -> Seq<Seq<u8>>;

    /// The record that a row stands for, if it stands for one.
    spec fn record_in(numbers: Seq<u32>, blocks: Seq<Seq<u8>>) -> Option<Self::Val>;

    /// Reading the row of a record gives it back.
    proof fn reads_back(v: Self::Val)
        ensures
            Self::numbers_of(v).len() == Self::width(),
            Self::blocks_of(v).len() == Self::depth(),
            Self::record_in(Self::numbers_of(v), Self::blocks_of(v)) == Some(v),
    ;

    proof fn not_empty()
        ensures
            Self::width() + Self::depth() > 0,
    ;

    fn numbers_per_row() -> (r: usize)
        ensures
            r == Self::width(),
    ;

    fn blocks_per_row() -> (r: usize)
        ensures
            r == Self::depth(),
    ;

    /// Appends the row of a record.
    fn put(&self, numbers: &mut Vec<u32>, blocks: &mut Vec<Vec<u8>>)
        ensures
            final(numbers)@ == old(numbers)@ + Self::numbers_of(self.val()),
            f::views(final(blocks)@) == f::views(old(blocks)@) + Self::blocks_of(self.val()),
    ;

    /// Reads a row.
    fn get(numbers: &Vec<u32>, at: usize, blocks: &Vec<Vec<u8>>, from: usize) -> (r: Option<Self>)
        requires
            at + Self::width() <= numbers@.len(),
            from + Self::depth() <= blocks@.len(),
        ensures
            ({
                let found = Self::record_in(
                    numbers@.subrange(at as int, at + Self::width()),
                    f::views(blocks@).subrange(from as int, from + Self::depth()),
                );
                match r {
                    Some(x) => found == Some(x.val()),
                    None => found is None,
                }
            }),
    ;
}

pub open spec fn values<T: Record>(s: Seq<T>) -> Seq<T::Val> {
    Seq::new(s.len(), |i: int| s[i].val())
}

// ---------------------------------------------------------------------------
// Tables
// ---------------------------------------------------------------------------

/// The numbers of some records, row by row.
pub open spec fn all_numbers<T: Record>(s: Seq<T::Val>) -> Seq<u32>
    decreases s.len(),
{
    if s.len() == 0 {
        Seq::empty()
    } else {
        T::numbers_of(s[0]) + all_numbers::<T>(s.skip(1))
    }
}

/// The blocks of some records, row by row.
pub open spec fn all_blocks<T: Record>(s: Seq<T::Val>) -> Seq<Seq<u8>>
    decreases s.len(),
{
    if s.len() == 0 {
        Seq::empty()
    } else {
        T::blocks_of(s[0]) + all_blocks::<T>(s.skip(1))
    }
}

/// The records that rows stand for; None if a row stands for none or is cut short.
pub open spec fn rows<T: Record>(numbers: Seq<u32>, blocks: Seq<Seq<u8>>) -> Option<Seq<T::Val>>
    decreases numbers.len() + blocks.len(),
{
    let w = T::width() as int;
    let d = T::depth() as int;
    if numbers.len() == 0 && blocks.len() == 0 {
        Some(Seq::empty())
    } else if w + d == 0 || numbers.len() < w || blocks.len() < d {
        None
    } else {
        match (T::record_in(numbers.take(w), blocks.take(d)), rows::<T>(
            numbers.skip(w),
            blocks.skip(d),
        )) {
            (Some(x), Some(rest)) => Some(seq![x] + rest),
            _ => None,
        }
    }
}

/// Reading the rows of records gives them back.
pub proof fn tables_read_back<T: Record>(s: Seq<T::Val>)
    ensures
        rows::<T>(all_numbers::<T>(s), all_blocks::<T>(s)) == Some(s),
    decreases s.len(),
{
    let n = all_numbers::<T>(s);
    let b = all_blocks::<T>(s);
    if s.len() > 0 {
        let w = T::width() as int;
        let d = T::depth() as int;
        T::reads_back(s[0]);
        T::not_empty();
        tables_read_back::<T>(s.skip(1));
        assert(n.take(w) =~= T::numbers_of(s[0]));
        assert(b.take(d) =~= T::blocks_of(s[0]));
        assert(n.skip(w) =~= all_numbers::<T>(s.skip(1)));
        assert(b.skip(d) =~= all_blocks::<T>(s.skip(1)));
        assert(seq![s[0]] + s.skip(1) =~= s);
    } else {
        assert(s =~= Seq::empty());
    }
}

/// Writes records row by row.
pub fn put_all<T: Record>(items: &Vec<T>) -> (r: (Vec<u32>, Vec<Vec<u8>>))
    ensures
        r.0@ == all_numbers::<T>(values(items@)),
        f::views(r.1@) == all_blocks::<T>(values(items@)),
{
    let ghost all = values(items@);
    let mut numbers: Vec<u32> = Vec::new();
    let mut blocks: Vec<Vec<u8>> = Vec::new();
    let mut i: usize = 0;
    assert(all.skip(0) =~= all);
    assert(numbers@ + all_numbers::<T>(all) =~= all_numbers::<T>(all));
    assert(f::views(blocks@) + all_blocks::<T>(all) =~= all_blocks::<T>(all));
    while i < items.len()
        invariant
            i <= items@.len(),
            all == values(items@),
            numbers@ + all_numbers::<T>(all.skip(i as int)) == all_numbers::<T>(all),
            f::views(blocks@) + all_blocks::<T>(all.skip(i as int)) == all_blocks::<T>(all),
        decreases items@.len() - i,
    {
        let ghost rest = all.skip(i as int);
        let ghost n = numbers@;
        let ghost b = f::views(blocks@);
        items[i].put(&mut numbers, &mut blocks);
        proof {
            assert(rest[0] == items@[i as int].val());
            assert(rest.skip(1) =~= all.skip(i + 1));
            assert(n + (T::numbers_of(rest[0]) + all_numbers::<T>(rest.skip(1))) =~= numbers@
                + all_numbers::<T>(rest.skip(1)));
            assert(b + (T::blocks_of(rest[0]) + all_blocks::<T>(rest.skip(1))) =~= f::views(
                blocks@,
            ) + all_blocks::<T>(rest.skip(1)));
        }
        i += 1;
    }
    assert(all.skip(i as int) =~= Seq::empty());
    assert(numbers@ + Seq::<u32>::empty() =~= numbers@);
    assert(f::views(blocks@) + Seq::<Seq<u8>>::empty() =~= f::views(blocks@));
    (numbers, blocks)
}

pub open spec fn option_values<T: Record>(x: Option<Vec<T>>) -> Option<Seq<T::Val>> {
    match x {
        Some(v) => Some(values(v@)),
        None => None,
    }
}

/// Reads rows.
pub fn get_all<T: Record>(numbers: &Vec<u32>, blocks: &Vec<Vec<u8>>) -> (r: Option<Vec<T>>)
    ensures
        option_values(r) == rows::<T>(numbers@, f::views(blocks@)),
{
    let w: usize = T::numbers_per_row();
    let d: usize = T::blocks_per_row();
    proof {
        T::not_empty();
    }
    let ghost all = rows::<T>(numbers@, f::views(blocks@));
    let mut out: Vec<T> = Vec::new();
    let mut at: usize = 0;
    let mut from: usize = 0;
    assert(numbers@.skip(0) =~= numbers@);
    assert(f::views(blocks@).skip(0) =~= f::views(blocks@));
    assert(all matches Some(s) ==> values(out@) + s =~= s);
    while at < numbers.len() || from < blocks.len()
        invariant
            w == T::width(),
            d == T::depth(),
            w + d > 0,
            at <= numbers@.len(),
            from <= blocks@.len(),
            all == rows::<T>(numbers@, f::views(blocks@)),
            match rows::<T>(numbers@.skip(at as int), f::views(blocks@).skip(from as int)) {
                Some(s) => all == Some(values(out@) + s),
                None => all is None,
            },
        decreases numbers@.len() - at + (blocks@.len() - from),
    {
        let ghost n = numbers@.skip(at as int);
        let ghost b = f::views(blocks@).skip(from as int);
        if numbers.len() - at < w || blocks.len() - from < d {
            assert(rows::<T>(n, b) is None);
            return None;
        }
        let x: Option<T> = T::get(numbers, at, blocks, from);
        proof {
            assert(n.take(w as int) =~= numbers@.subrange(at as int, at + w));
            assert(b.take(d as int) =~= f::views(blocks@).subrange(from as int, from + d));
            assert(n.skip(w as int) =~= numbers@.skip(at + w));
            assert(b.skip(d as int) =~= f::views(blocks@).skip(from + d));
        }
        match x {
            Some(x) => {
                let ghost before = values(out@);
                let ghost v = x.val();
                out.push(x);
                at += w;
                from += d;
                proof {
                    assert(values(out@) =~= before.push(v));
                    match rows::<T>(numbers@.skip(at as int), f::views(blocks@).skip(from as int)) {
                        Some(s) => {
                            assert(before + (seq![v] + s) =~= values(out@) + s);
                        },
                        None => {},
                    }
                }
            },
            None => {
                assert(rows::<T>(n, b) is None);
                return None;
            },
        }
    }
    assert(values(out@) + Seq::empty() =~= values(out@));
    Some(out)
}

// ---------------------------------------------------------------------------
// Fields
// ---------------------------------------------------------------------------

pub open spec fn high(x: u64) -> u32 {
    (x / 0x1_0000_0000) as u32
}

pub open spec fn low(x: u64) -> u32 {
    (x % 0x1_0000_0000) as u32
}

/// A number of 64 bits from its two halves.
pub open spec fn wide(high: u32, low: u32) -> u64 {
    (high * 0x1_0000_0000 + low) as u64
}

pub open spec fn bit(x: bool) -> u32 {
    if x {
        1
    } else {
        0
    }
}

proof fn lemma_wide(x: u64)
    ensures
        wide(high(x), low(x)) == x,
{
}

proof fn lemma_text(s: Seq<char>)
    ensures
        t::text_in(utf8::encode_utf8(s)) == Some(s),
{
    utf8::encode_utf8_valid_utf8(s);
    utf8::encode_utf8_decode_utf8(s);
}

proof fn lemma_no_blocks(s: Seq<FrequencyRule>)
    ensures
        all_blocks::<FrequencyRule>(s) == Seq::<Seq<u8>>::empty(),
    decreases s.len(),
{
    if s.len() > 0 {
        lemma_no_blocks(s.skip(1));
        assert(all_blocks::<FrequencyRule>(s) =~= Seq::empty());
    }
}

proof fn lemma_rules(s: Seq<FrequencyRule>)
    ensures
        rows::<FrequencyRule>(
            msg::unpacked(msg::packed(all_numbers::<FrequencyRule>(s))),
            Seq::empty(),
        ) == Some(s),
{
    msg::packed_numbers_read_back(all_numbers::<FrequencyRule>(s));
    lemma_no_blocks(s);
    tables_read_back::<FrequencyRule>(s);
}

fn text_bytes(s: &str) -> (r: Vec<u8>)
    ensures
        r@ == utf8::encode_utf8(s@),
{
    let bytes = s.as_bytes();
    let mut out: Vec<u8> = Vec::new();
    let mut i: usize = 0;
    while i < bytes.len()
        invariant
            i <= bytes@.len(),
            out@ == bytes@.take(i as int),
        decreases bytes@.len() - i,
    {
        out.push(bytes[i]);
        i += 1;
        assert(out@ =~= bytes@.take(i as int));
    }
    assert(bytes@.take(i as int) =~= bytes@);
    out
}

fn pack_all(v: &Vec<u32>) -> (r: Vec<u8>)
    ensures
        r@ == msg::packed(v@),
{
    let mut out: Vec<u8> = Vec::new();
    let mut i: usize = 0;
    while i < v.len()
        invariant
            i <= v@.len(),
            out@ == msg::packed(v@.take(i as int)),
        decreases v@.len() - i,
    {
        msg::pack_number(&mut out, v[i]);
        assert(v@.take(i + 1).drop_last() =~= v@.take(i as int));
        i += 1;
    }
    assert(v@.take(i as int) =~= v@);
    out
}

// ---------------------------------------------------------------------------
// Records
// ---------------------------------------------------------------------------

/// What a file holds besides its tables.
#[derive(Debug)]
pub struct Header {
    pub feed_id: String,
    pub timezone: String,
    /// Packed arrival times.
    pub arrivals: Vec<u8>,
    /// Packed departure times.
    pub departures: Vec<u8>,
}

#[verifier::ext_equal]
pub struct HeaderRecord {
    pub feed_id: Seq<char>,
    pub timezone: Seq<char>,
    pub arrivals: Seq<u8>,
    pub departures: Seq<u8>,
}

impl View for Header {
    type V = HeaderRecord;

    open spec fn view(&self) -> HeaderRecord {
        HeaderRecord {
            feed_id: self.feed_id@,
            timezone: self.timezone@,
            arrivals: self.arrivals@,
            departures: self.departures@,
        }
    }
}

impl Record for Agency {
    type Val = AgencyRecord;

    open spec fn val(&self) -> AgencyRecord {
        self@
    }

    open spec fn width() -> nat {
        0
    }

    open spec fn depth() -> nat {
        3
    }

    open spec fn numbers_of(v: AgencyRecord) -> Seq<u32> {
        Seq::empty()
    }

    open spec fn blocks_of(v: AgencyRecord) -> Seq<Seq<u8>> {
        seq![utf8::encode_utf8(v.id), utf8::encode_utf8(v.name), utf8::encode_utf8(v.url)]
    }

    open spec fn record_in(n: Seq<u32>, b: Seq<Seq<u8>>) -> Option<AgencyRecord> {
        match (t::text_in(b[0]), t::text_in(b[1]), t::text_in(b[2])) {
            (Some(id), Some(name), Some(url)) => Some(
                AgencyRecord {
                    id,
                    name,
                    url,
                },
            ),
            _ => None,
        }
    }

    proof fn reads_back(v: AgencyRecord) {
        let n = Self::numbers_of(v);
        let b = Self::blocks_of(v);
        lemma_text(v.id);
        lemma_text(v.name);
        lemma_text(v.url);
        assert(Self::record_in(n, b)->0 =~= v);
    }

    proof fn not_empty() {
    }

    fn numbers_per_row() -> (r: usize) {
        0
    }

    fn blocks_per_row() -> (r: usize) {
        3
    }

    fn put(&self, numbers: &mut Vec<u32>, blocks: &mut Vec<Vec<u8>>) {
        blocks.push(text_bytes(self.id.as_str()));
        blocks.push(text_bytes(self.name.as_str()));
        blocks.push(text_bytes(self.url.as_str()));
        assert(numbers@ =~= old(numbers)@ + Self::numbers_of(self.val()));
        assert(f::views(blocks@) =~= f::views(old(blocks)@) + Self::blocks_of(self.val()));
    }

    fn get(numbers: &Vec<u32>, at: usize, blocks: &Vec<Vec<u8>>, from: usize) -> (r: Option<Self>) {
        assert(at + 0 <= numbers.len() && from + 3 <= blocks.len());
        let ghost n = numbers@.subrange(at as int, at + 0);
        let ghost b = f::views(blocks@).subrange(from as int, from + 3);
        assert(b[0] == blocks@[from as int]@);
        assert(b[1] == blocks@[from + 1]@);
        assert(b[2] == blocks@[from + 2]@);
        let id = match t::utf8_text(blocks[from].as_slice()) {
            Some(x) => x,
            None => {
                return None;
            },
        };
        let name = match t::utf8_text(blocks[from + 1].as_slice()) {
            Some(x) => x,
            None => {
                return None;
            },
        };
        let url = match t::utf8_text(blocks[from + 2].as_slice()) {
            Some(x) => x,
            None => {
                return None;
            },
        };
        let r = Agency {
            id,
            name,
            url,
        };
        assert(Self::record_in(n, b)->0 =~= r.val());
        Some(r)
    }
}

impl Record for Stop {
    type Val = StopRecord;

    open spec fn val(&self) -> StopRecord {
        self@
    }

    open spec fn width() -> nat {
        9
    }

    open spec fn depth() -> nat {
        5
    }

    open spec fn numbers_of(v: StopRecord) -> Seq<u32> {
        seq![
            high(v.lat),
            low(v.lat),
            high(v.lon),
            low(v.lon),
            v.location_type as u32,
            v.parent_idx,
            v.transfers_offset,
            v.num_transfers as u32,
            v.walk_node_idx,
        ]
    }

    open spec fn blocks_of(v: StopRecord) -> Seq<Seq<u8>> {
        seq![
            utf8::encode_utf8(v.id),
            utf8::encode_utf8(v.name),
            utf8::encode_utf8(v.platform_code),
            utf8::encode_utf8(v.zone_id),
            msg::packed(v.route_idxs),
        ]
    }

    open spec fn record_in(n: Seq<u32>, b: Seq<Seq<u8>>) -> Option<StopRecord> {
        if n[4] < 256 && n[7] < 65536 {
            match (t::text_in(b[0]), t::text_in(b[1]), t::text_in(b[2]), t::text_in(b[3])) {
                (Some(id), Some(name), Some(platform_code), Some(zone_id)) => Some(
                    StopRecord {
                        lat: wide(n[0], n[1]),
                        lon: wide(n[2], n[3]),
                        location_type: n[4] as u8,
                        parent_idx: n[5],
                        transfers_offset: n[6],
                        num_transfers: n[7] as u16,
                        walk_node_idx: n[8],
                        id,
                        name,
                        platform_code,
                        zone_id,
                        route_idxs: msg::unpacked(b[4]),
                    },
                ),
                _ => None,
            }
        } else {
            None
        }
    }

    proof fn reads_back(v: StopRecord) {
        let n = Self::numbers_of(v);
        let b = Self::blocks_of(v);
        lemma_text(v.id);
        lemma_text(v.name);
        lemma_text(v.platform_code);
        lemma_text(v.zone_id);
        msg::packed_numbers_read_back(v.route_idxs);
        lemma_wide(v.lat);
        lemma_wide(v.lon);
        assert(Self::record_in(n, b)->0 =~= v);
    }

    proof fn not_empty() {
    }

    fn numbers_per_row() -> (r: usize) {
        9
    }

    fn blocks_per_row() -> (r: usize) {
        5
    }

    fn put(&self, numbers: &mut Vec<u32>, blocks: &mut Vec<Vec<u8>>) {
        numbers.push((self.lat / 0x1_0000_0000) as u32);
        numbers.push((self.lat % 0x1_0000_0000) as u32);
        numbers.push((self.lon / 0x1_0000_0000) as u32);
        numbers.push((self.lon % 0x1_0000_0000) as u32);
        numbers.push(self.location_type as u32);
        numbers.push(self.parent_idx);
        numbers.push(self.transfers_offset);
        numbers.push(self.num_transfers as u32);
        numbers.push(self.walk_node_idx);
        blocks.push(text_bytes(self.id.as_str()));
        blocks.push(text_bytes(self.name.as_str()));
        blocks.push(text_bytes(self.platform_code.as_str()));
        blocks.push(text_bytes(self.zone_id.as_str()));
        blocks.push(pack_all(&self.route_idxs));
        assert(numbers@ =~= old(numbers)@ + Self::numbers_of(self.val()));
        assert(f::views(blocks@) =~= f::views(old(blocks)@) + Self::blocks_of(self.val()));
    }

    fn get(numbers: &Vec<u32>, at: usize, blocks: &Vec<Vec<u8>>, from: usize) -> (r: Option<Self>) {
        assert(at + 9 <= numbers.len() && from + 5 <= blocks.len());
        let ghost n = numbers@.subrange(at as int, at + 9);
        let ghost b = f::views(blocks@).subrange(from as int, from + 5);
        assert(b[0] == blocks@[from as int]@);
        assert(b[1] == blocks@[from + 1]@);
        assert(b[2] == blocks@[from + 2]@);
        assert(b[3] == blocks@[from + 3]@);
        assert(b[4] == blocks@[from + 4]@);
        assert(n[0] == numbers@[at as int]);
        assert(n[1] == numbers@[at + 1]);
        assert(n[2] == numbers@[at + 2]);
        assert(n[3] == numbers@[at + 3]);
        assert(n[4] == numbers@[at + 4]);
        assert(n[5] == numbers@[at + 5]);
        assert(n[6] == numbers@[at + 6]);
        assert(n[7] == numbers@[at + 7]);
        assert(n[8] == numbers@[at + 8]);
        if numbers[at + 4] >= 256 {
            return None;
        }
        if numbers[at + 7] >= 65536 {
            return None;
        }
        let id = match t::utf8_text(blocks[from].as_slice()) {
            Some(x) => x,
            None => {
                return None;
            },
        };
        let name = match t::utf8_text(blocks[from + 1].as_slice()) {
            Some(x) => x,
            None => {
                return None;
            },
        };
        let platform_code = match t::utf8_text(blocks[from + 2].as_slice()) {
            Some(x) => x,
            None => {
                return None;
            },
        };
        let zone_id = match t::utf8_text(blocks[from + 3].as_slice()) {
            Some(x) => x,
            None => {
                return None;
            },
        };
        let r = Stop {
            lat: numbers[at] as u64 * 0x1_0000_0000 + numbers[at + 1] as u64,
            lon: numbers[at + 2] as u64 * 0x1_0000_0000 + numbers[at + 3] as u64,
            location_type: numbers[at + 4] as u8,
            parent_idx: numbers[at + 5],
            transfers_offset: numbers[at + 6],
            num_transfers: numbers[at + 7] as u16,
            walk_node_idx: numbers[at + 8],
            id,
            name,
            platform_code,
            zone_id,
            route_idxs: msg::unpack_numbers(&blocks[from + 4]),
        };
        assert(Self::record_in(n, b)->0 =~= r.val());
        Some(r)
    }
}

impl Record for Route {
    type Val = RouteRecord;

    open spec fn val(&self) -> RouteRecord {
        self@
    }

    open spec fn width() -> nat {
        6
    }

    open spec fn depth() -> nat {
        5
    }

    open spec fn numbers_of(v: RouteRecord) -> Seq<u32> {
        seq![
            v.route_type as u32,
            v.color,
            v.text_color,
            v.agency_idx as u32,
            v.stop_times_offset,
            v.num_trips,
        ]
    }

    open spec fn blocks_of(v: RouteRecord) -> Seq<Seq<u8>> {
        seq![
            utf8::encode_utf8(v.id),
            utf8::encode_utf8(v.short_name),
            utf8::encode_utf8(v.long_name),
            msg::packed(v.stop_idxs),
            msg::packed(v.trip_idxs),
        ]
    }

    open spec fn record_in(n: Seq<u32>, b: Seq<Seq<u8>>) -> Option<RouteRecord> {
        if n[0] < 256 && n[3] < 65536 {
            match (t::text_in(b[0]), t::text_in(b[1]), t::text_in(b[2])) {
                (Some(id), Some(short_name), Some(long_name)) => Some(
                    RouteRecord {
                        route_type: n[0] as u8,
                        color: n[1],
                        text_color: n[2],
                        agency_idx: n[3] as u16,
                        stop_times_offset: n[4],
                        num_trips: n[5],
                        id,
                        short_name,
                        long_name,
                        stop_idxs: msg::unpacked(b[3]),
                        trip_idxs: msg::unpacked(b[4]),
                    },
                ),
                _ => None,
            }
        } else {
            None
        }
    }

    proof fn reads_back(v: RouteRecord) {
        let n = Self::numbers_of(v);
        let b = Self::blocks_of(v);
        lemma_text(v.id);
        lemma_text(v.short_name);
        lemma_text(v.long_name);
        msg::packed_numbers_read_back(v.stop_idxs);
        msg::packed_numbers_read_back(v.trip_idxs);
        assert(Self::record_in(n, b)->0 =~= v);
    }

    proof fn not_empty() {
    }

    fn numbers_per_row() -> (r: usize) {
        6
    }

    fn blocks_per_row() -> (r: usize) {
        5
    }

    fn put(&self, numbers: &mut Vec<u32>, blocks: &mut Vec<Vec<u8>>) {
        numbers.push(self.route_type as u32);
        numbers.push(self.color);
        numbers.push(self.text_color);
        numbers.push(self.agency_idx as u32);
        numbers.push(self.stop_times_offset);
        numbers.push(self.num_trips);
        blocks.push(text_bytes(self.id.as_str()));
        blocks.push(text_bytes(self.short_name.as_str()));
        blocks.push(text_bytes(self.long_name.as_str()));
        blocks.push(pack_all(&self.stop_idxs));
        blocks.push(pack_all(&self.trip_idxs));
        assert(numbers@ =~= old(numbers)@ + Self::numbers_of(self.val()));
        assert(f::views(blocks@) =~= f::views(old(blocks)@) + Self::blocks_of(self.val()));
    }

    fn get(numbers: &Vec<u32>, at: usize, blocks: &Vec<Vec<u8>>, from: usize) -> (r: Option<Self>) {
        assert(at + 6 <= numbers.len() && from + 5 <= blocks.len());
        let ghost n = numbers@.subrange(at as int, at + 6);
        let ghost b = f::views(blocks@).subrange(from as int, from + 5);
        assert(b[0] == blocks@[from as int]@);
        assert(b[1] == blocks@[from + 1]@);
        assert(b[2] == blocks@[from + 2]@);
        assert(b[3] == blocks@[from + 3]@);
        assert(b[4] == blocks@[from + 4]@);
        assert(n[0] == numbers@[at as int]);
        assert(n[1] == numbers@[at + 1]);
        assert(n[2] == numbers@[at + 2]);
        assert(n[3] == numbers@[at + 3]);
        assert(n[4] == numbers@[at + 4]);
        assert(n[5] == numbers@[at + 5]);
        if numbers[at] >= 256 {
            return None;
        }
        if numbers[at + 3] >= 65536 {
            return None;
        }
        let id = match t::utf8_text(blocks[from].as_slice()) {
            Some(x) => x,
            None => {
                return None;
            },
        };
        let short_name = match t::utf8_text(blocks[from + 1].as_slice()) {
            Some(x) => x,
            None => {
                return None;
            },
        };
        let long_name = match t::utf8_text(blocks[from + 2].as_slice()) {
            Some(x) => x,
            None => {
                return None;
            },
        };
        let r = Route {
            route_type: numbers[at] as u8,
            color: numbers[at + 1],
            text_color: numbers[at + 2],
            agency_idx: numbers[at + 3] as u16,
            stop_times_offset: numbers[at + 4],
            num_trips: numbers[at + 5],
            id,
            short_name,
            long_name,
            stop_idxs: msg::unpack_numbers(&blocks[from + 3]),
            trip_idxs: msg::unpack_numbers(&blocks[from + 4]),
        };
        assert(Self::record_in(n, b)->0 =~= r.val());
        Some(r)
    }
}

impl Record for Transfer {
    type Val = Transfer;

    open spec fn val(&self) -> Transfer {
        *self
    }

    open spec fn width() -> nat {
        3
    }

    open spec fn depth() -> nat {
        0
    }

    open spec fn numbers_of(v: Transfer) -> Seq<u32> {
        seq![v.to_stop_idx, v.walk_seconds as u32, v.dist_meters as u32]
    }

    open spec fn blocks_of(v: Transfer) -> Seq<Seq<u8>> {
        Seq::empty()
    }

    open spec fn record_in(n: Seq<u32>, b: Seq<Seq<u8>>) -> Option<Transfer> {
        if n[1] < 65536 && n[2] < 65536 {
            Some(
                Transfer {
                    to_stop_idx: n[0],
                    walk_seconds: n[1] as u16,
                    dist_meters: n[2] as u16,
                },
            )
        } else {
            None
        }
    }

    proof fn reads_back(v: Transfer) {
        let n = Self::numbers_of(v);
        let b = Self::blocks_of(v);
    }

    proof fn not_empty() {
    }

    fn numbers_per_row() -> (r: usize) {
        3
    }

    fn blocks_per_row() -> (r: usize) {
        0
    }

    fn put(&self, numbers: &mut Vec<u32>, blocks: &mut Vec<Vec<u8>>) {
        numbers.push(self.to_stop_idx);
        numbers.push(self.walk_seconds as u32);
        numbers.push(self.dist_meters as u32);
        assert(numbers@ =~= old(numbers)@ + Self::numbers_of(self.val()));
        assert(f::views(blocks@) =~= f::views(old(blocks)@) + Self::blocks_of(self.val()));
    }

    fn get(numbers: &Vec<u32>, at: usize, blocks: &Vec<Vec<u8>>, from: usize) -> (r: Option<Self>) {
        assert(at + 3 <= numbers.len() && from + 0 <= blocks.len());
        let ghost n = numbers@.subrange(at as int, at + 3);
        let ghost b = f::views(blocks@).subrange(from as int, from + 0);
        assert(n[0] == numbers@[at as int]);
        assert(n[1] == numbers@[at + 1]);
        assert(n[2] == numbers@[at + 2]);
        if numbers[at + 1] >= 65536 {
            return None;
        }
        if numbers[at + 2] >= 65536 {
            return None;
        }
        let r = Transfer {
            to_stop_idx: numbers[at],
            walk_seconds: numbers[at + 1] as u16,
            dist_meters: numbers[at + 2] as u16,
        };
        Some(r)
    }
}

impl Record for Service {
    type Val = ServiceRecord;

    open spec fn val(&self) -> ServiceRecord {
        self@
    }

    open spec fn width() -> nat {
        1
    }

    open spec fn depth() -> nat {
        2
    }

    open spec fn numbers_of(v: ServiceRecord) -> Seq<u32> {
        seq![v.start_date as u32]
    }

    open spec fn blocks_of(v: ServiceRecord) -> Seq<Seq<u8>> {
        seq![utf8::encode_utf8(v.id), v.day_bits]
    }

    open spec fn record_in(n: Seq<u32>, b: Seq<Seq<u8>>) -> Option<ServiceRecord> {
        if n[0] < 65536 {
            match t::text_in(b[0]) {
                Some(id) => Some(
                    ServiceRecord {
                        start_date: n[0] as u16,
                        id,
                        day_bits: b[1],
                    },
                ),
                _ => None,
            }
        } else {
            None
        }
    }

    proof fn reads_back(v: ServiceRecord) {
        let n = Self::numbers_of(v);
        let b = Self::blocks_of(v);
        lemma_text(v.id);
        assert(Self::record_in(n, b)->0 =~= v);
    }

    proof fn not_empty() {
    }

    fn numbers_per_row() -> (r: usize) {
        1
    }

    fn blocks_per_row() -> (r: usize) {
        2
    }

    fn put(&self, numbers: &mut Vec<u32>, blocks: &mut Vec<Vec<u8>>) {
        numbers.push(self.start_date as u32);
        blocks.push(text_bytes(self.id.as_str()));
        blocks.push(copy_list(&self.day_bits));
        assert(numbers@ =~= old(numbers)@ + Self::numbers_of(self.val()));
        assert(f::views(blocks@) =~= f::views(old(blocks)@) + Self::blocks_of(self.val()));
    }

    fn get(numbers: &Vec<u32>, at: usize, blocks: &Vec<Vec<u8>>, from: usize) -> (r: Option<Self>) {
        assert(at + 1 <= numbers.len() && from + 2 <= blocks.len());
        let ghost n = numbers@.subrange(at as int, at + 1);
        let ghost b = f::views(blocks@).subrange(from as int, from + 2);
        assert(b[0] == blocks@[from as int]@);
        assert(b[1] == blocks@[from + 1]@);
        assert(n[0] == numbers@[at as int]);
        if numbers[at] >= 65536 {
            return None;
        }
        let id = match t::utf8_text(blocks[from].as_slice()) {
            Some(x) => x,
            None => {
                return None;
            },
        };
        let r = Service {
            start_date: numbers[at] as u16,
            id,
            day_bits: copy_list(&blocks[from + 1]),
        };
        assert(Self::record_in(n, b)->0 =~= r.val());
        Some(r)
    }
}

impl Record for FrequencyRule {
    type Val = FrequencyRule;

    open spec fn val(&self) -> FrequencyRule {
        *self
    }

    open spec fn width() -> nat {
        4
    }

    open spec fn depth() -> nat {
        0
    }

    open spec fn numbers_of(v: FrequencyRule) -> Seq<u32> {
        seq![v.start_time, v.end_time, v.headway_secs, bit(v.exact_times)]
    }

    open spec fn blocks_of(v: FrequencyRule) -> Seq<Seq<u8>> {
        Seq::empty()
    }

    open spec fn record_in(n: Seq<u32>, b: Seq<Seq<u8>>) -> Option<FrequencyRule> {
        Some(
            FrequencyRule {
                start_time: n[0],
                end_time: n[1],
                headway_secs: n[2],
                exact_times: n[3] != 0,
            },
        )
    }

    proof fn reads_back(v: FrequencyRule) {
        let n = Self::numbers_of(v);
        let b = Self::blocks_of(v);
    }

    proof fn not_empty() {
    }

    fn numbers_per_row() -> (r: usize) {
        4
    }

    fn blocks_per_row() -> (r: usize) {
        0
    }

    fn put(&self, numbers: &mut Vec<u32>, blocks: &mut Vec<Vec<u8>>) {
        numbers.push(self.start_time);
        numbers.push(self.end_time);
        numbers.push(self.headway_secs);
        numbers.push(if self.exact_times { 1 } else { 0 });
        assert(numbers@ =~= old(numbers)@ + Self::numbers_of(self.val()));
        assert(f::views(blocks@) =~= f::views(old(blocks)@) + Self::blocks_of(self.val()));
    }

    fn get(numbers: &Vec<u32>, at: usize, blocks: &Vec<Vec<u8>>, from: usize) -> (r: Option<Self>) {
        assert(at + 4 <= numbers.len() && from + 0 <= blocks.len());
        let ghost n = numbers@.subrange(at as int, at + 4);
        let ghost b = f::views(blocks@).subrange(from as int, from + 0);
        assert(n[0] == numbers@[at as int]);
        assert(n[1] == numbers@[at + 1]);
        assert(n[2] == numbers@[at + 2]);
        assert(n[3] == numbers@[at + 3]);
        let r = FrequencyRule {
            start_time: numbers[at],
            end_time: numbers[at + 1],
            headway_secs: numbers[at + 2],
            exact_times: numbers[at + 3] != 0,
        };
        Some(r)
    }
}

impl Record for Trip {
    type Val = TripRecord;

    open spec fn val(&self) -> TripRecord {
        self@
    }

    open spec fn width() -> nat {
        4
    }

    open spec fn depth() -> nat {
        3
    }

    open spec fn numbers_of(v: TripRecord) -> Seq<u32> {
        seq![v.route_idx, v.service_idx, v.direction_id as u32, v.template_first_departure]
    }

    open spec fn blocks_of(v: TripRecord) -> Seq<Seq<u8>> {
        seq![
            utf8::encode_utf8(v.id),
            utf8::encode_utf8(v.headsign),
            msg::packed(all_numbers::<FrequencyRule>(v.frequency_rules)),
        ]
    }

    open spec fn record_in(n: Seq<u32>, b: Seq<Seq<u8>>) -> Option<TripRecord> {
        if n[2] < 256 {
            match (
                t::text_in(b[0]),
                t::text_in(b[1]),
                rows::<FrequencyRule>(msg::unpacked(b[2]), Seq::empty()),
            ) {
                (Some(id), Some(headsign), Some(frequency_rules)) => Some(
                    TripRecord {
                        route_idx: n[0],
                        service_idx: n[1],
                        direction_id: n[2] as u8,
                        template_first_departure: n[3],
                        id,
                        headsign,
                        frequency_rules,
                    },
                ),
                _ => None,
            }
        } else {
            None
        }
    }

    proof fn reads_back(v: TripRecord) {
        let n = Self::numbers_of(v);
        let b = Self::blocks_of(v);
        lemma_text(v.id);
        lemma_text(v.headsign);
        lemma_rules(v.frequency_rules);
        assert(Self::record_in(n, b)->0 =~= v);
    }

    proof fn not_empty() {
    }

    fn numbers_per_row() -> (r: usize) {
        4
    }

    fn blocks_per_row() -> (r: usize) {
        3
    }

    fn put(&self, numbers: &mut Vec<u32>, blocks: &mut Vec<Vec<u8>>) {
        numbers.push(self.route_idx);
        numbers.push(self.service_idx);
        numbers.push(self.direction_id as u32);
        numbers.push(self.template_first_departure);
        blocks.push(text_bytes(self.id.as_str()));
        blocks.push(text_bytes(self.headsign.as_str()));
        let (rule_numbers, _) = put_all(&self.frequency_rules);
        blocks.push(pack_all(&rule_numbers));
        assert(values(self.frequency_rules@) =~= self.frequency_rules@);
        assert(numbers@ =~= old(numbers)@ + Self::numbers_of(self.val()));
        assert(f::views(blocks@) =~= f::views(old(blocks)@) + Self::blocks_of(self.val()));
    }

    fn get(numbers: &Vec<u32>, at: usize, blocks: &Vec<Vec<u8>>, from: usize) -> (r: Option<Self>) {
        assert(at + 4 <= numbers.len() && from + 3 <= blocks.len());
        let ghost n = numbers@.subrange(at as int, at + 4);
        let ghost b = f::views(blocks@).subrange(from as int, from + 3);
        assert(b[0] == blocks@[from as int]@);
        assert(b[1] == blocks@[from + 1]@);
        assert(b[2] == blocks@[from + 2]@);
        assert(n[0] == numbers@[at as int]);
        assert(n[1] == numbers@[at + 1]);
        assert(n[2] == numbers@[at + 2]);
        assert(n[3] == numbers@[at + 3]);
        if numbers[at + 2] >= 256 {
            return None;
        }
        let id = match t::utf8_text(blocks[from].as_slice()) {
            Some(x) => x,
            None => {
                return None;
            },
        };
        let headsign = match t::utf8_text(blocks[from + 1].as_slice()) {
            Some(x) => x,
            None => {
                return None;
            },
        };
        let rule_numbers = msg::unpack_numbers(&blocks[from + 2]);
        let none: Vec<Vec<u8>> = Vec::new();
        assert(f::views(none@) =~= Seq::empty());
        let frequency_rules: Vec<FrequencyRule> = match get_all(&rule_numbers, &none) {
            Some(x) => x,
            None => {
                return None;
            },
        };
        assert(values(frequency_rules@) =~= frequency_rules@);
        let r = Trip {
            route_idx: numbers[at],
            service_idx: numbers[at + 1],
            direction_id: numbers[at + 2] as u8,
            template_first_departure: numbers[at + 3],
            id,
            headsign,
            frequency_rules,
        };
        assert(Self::record_in(n, b)->0 =~= r.val());
        Some(r)
    }
}

impl Record for StoredFare {
    type Val = FareRecord;

    open spec fn val(&self) -> FareRecord {
        self@
    }

    open spec fn width() -> nat {
        2
    }

    open spec fn depth() -> nat {
        3
    }

    open spec fn numbers_of(v: FareRecord) -> Seq<u32> {
        seq![v.route_idx, v.price]
    }

    open spec fn blocks_of(v: FareRecord) -> Seq<Seq<u8>> {
        seq![
            utf8::encode_utf8(v.origin_zone),
            utf8::encode_utf8(v.dest_zone),
            utf8::encode_utf8(v.currency),
        ]
    }

    open spec fn record_in(n: Seq<u32>, b: Seq<Seq<u8>>) -> Option<FareRecord> {
        match (t::text_in(b[0]), t::text_in(b[1]), t::text_in(b[2])) {
            (Some(origin_zone), Some(dest_zone), Some(currency)) => Some(
                FareRecord {
                    route_idx: n[0],
                    price: n[1],
                    origin_zone,
                    dest_zone,
                    currency,
                },
            ),
            _ => None,
        }
    }

    proof fn reads_back(v: FareRecord) {
        let n = Self::numbers_of(v);
        let b = Self::blocks_of(v);
        lemma_text(v.origin_zone);
        lemma_text(v.dest_zone);
        lemma_text(v.currency);
        assert(Self::record_in(n, b)->0 =~= v);
    }

    proof fn not_empty() {
    }

    fn numbers_per_row() -> (r: usize) {
        2
    }

    fn blocks_per_row() -> (r: usize) {
        3
    }

    fn put(&self, numbers: &mut Vec<u32>, blocks: &mut Vec<Vec<u8>>) {
        numbers.push(self.route_idx);
        numbers.push(self.price);
        blocks.push(text_bytes(self.origin_zone.as_str()));
        blocks.push(text_bytes(self.dest_zone.as_str()));
        blocks.push(text_bytes(self.currency.as_str()));
        assert(numbers@ =~= old(numbers)@ + Self::numbers_of(self.val()));
        assert(f::views(blocks@) =~= f::views(old(blocks)@) + Self::blocks_of(self.val()));
    }

    fn get(numbers: &Vec<u32>, at: usize, blocks: &Vec<Vec<u8>>, from: usize) -> (r: Option<Self>) {
        assert(at + 2 <= numbers.len() && from + 3 <= blocks.len());
        let ghost n = numbers@.subrange(at as int, at + 2);
        let ghost b = f::views(blocks@).subrange(from as int, from + 3);
        assert(b[0] == blocks@[from as int]@);
        assert(b[1] == blocks@[from + 1]@);
        assert(b[2] == blocks@[from + 2]@);
        assert(n[0] == numbers@[at as int]);
        assert(n[1] == numbers@[at + 1]);
        let origin_zone = match t::utf8_text(blocks[from].as_slice()) {
            Some(x) => x,
            None => {
                return None;
            },
        };
        let dest_zone = match t::utf8_text(blocks[from + 1].as_slice()) {
            Some(x) => x,
            None => {
                return None;
            },
        };
        let currency = match t::utf8_text(blocks[from + 2].as_slice()) {
            Some(x) => x,
            None => {
                return None;
            },
        };
        let r = StoredFare {
            route_idx: numbers[at],
            price: numbers[at + 1],
            origin_zone,
            dest_zone,
            currency,
        };
        assert(Self::record_in(n, b)->0 =~= r.val());
        Some(r)
    }
}

impl Record for WalkNode {
    type Val = WalkNode;

    open spec fn val(&self) -> WalkNode {
        *self
    }

    open spec fn width() -> nat {
        6
    }

    open spec fn depth() -> nat {
        0
    }

    open spec fn numbers_of(v: WalkNode) -> Seq<u32> {
        seq![
            high(v.lat),
            low(v.lat),
            high(v.lon),
            low(v.lon),
            v.edges_offset,
            v.num_edges as u32,
        ]
    }

    open spec fn blocks_of(v: WalkNode) -> Seq<Seq<u8>> {
        Seq::empty()
    }

    open spec fn record_in(n: Seq<u32>, b: Seq<Seq<u8>>) -> Option<WalkNode> {
        if n[5] < 65536 {
            Some(
                WalkNode {
                    lat: wide(n[0], n[1]),
                    lon: wide(n[2], n[3]),
                    edges_offset: n[4],
                    num_edges: n[5] as u16,
                },
            )
        } else {
            None
        }
    }

    proof fn reads_back(v: WalkNode) {
        let n = Self::numbers_of(v);
        let b = Self::blocks_of(v);
        lemma_wide(v.lat);
        lemma_wide(v.lon);
    }

    proof fn not_empty() {
    }

    fn numbers_per_row() -> (r: usize) {
        6
    }

    fn blocks_per_row() -> (r: usize) {
        0
    }

    fn put(&self, numbers: &mut Vec<u32>, blocks: &mut Vec<Vec<u8>>) {
        numbers.push((self.lat / 0x1_0000_0000) as u32);
        numbers.push((self.lat % 0x1_0000_0000) as u32);
        numbers.push((self.lon / 0x1_0000_0000) as u32);
        numbers.push((self.lon % 0x1_0000_0000) as u32);
        numbers.push(self.edges_offset);
        numbers.push(self.num_edges as u32);
        assert(numbers@ =~= old(numbers)@ + Self::numbers_of(self.val()));
        assert(f::views(blocks@) =~= f::views(old(blocks)@) + Self::blocks_of(self.val()));
    }

    fn get(numbers: &Vec<u32>, at: usize, blocks: &Vec<Vec<u8>>, from: usize) -> (r: Option<Self>) {
        assert(at + 6 <= numbers.len() && from + 0 <= blocks.len());
        let ghost n = numbers@.subrange(at as int, at + 6);
        let ghost b = f::views(blocks@).subrange(from as int, from + 0);
        assert(n[0] == numbers@[at as int]);
        assert(n[1] == numbers@[at + 1]);
        assert(n[2] == numbers@[at + 2]);
        assert(n[3] == numbers@[at + 3]);
        assert(n[4] == numbers@[at + 4]);
        assert(n[5] == numbers@[at + 5]);
        if numbers[at + 5] >= 65536 {
            return None;
        }
        let r = WalkNode {
            lat: numbers[at] as u64 * 0x1_0000_0000 + numbers[at + 1] as u64,
            lon: numbers[at + 2] as u64 * 0x1_0000_0000 + numbers[at + 3] as u64,
            edges_offset: numbers[at + 4],
            num_edges: numbers[at + 5] as u16,
        };
        Some(r)
    }
}

impl Record for WalkEdge {
    type Val = WalkEdge;

    open spec fn val(&self) -> WalkEdge {
        *self
    }

    open spec fn width() -> nat {
        4
    }

    open spec fn depth() -> nat {
        0
    }

    open spec fn numbers_of(v: WalkEdge) -> Seq<u32> {
        seq![v.to_node_idx, v.dist_meters as u32, v.geometry_offset, v.geometry_len as u32]
    }

    open spec fn blocks_of(v: WalkEdge) -> Seq<Seq<u8>> {
        Seq::empty()
    }

    open spec fn record_in(n: Seq<u32>, b: Seq<Seq<u8>>) -> Option<WalkEdge> {
        if n[1] < 65536 && n[3] < 65536 {
            Some(
                WalkEdge {
                    to_node_idx: n[0],
                    dist_meters: n[1] as u16,
                    geometry_offset: n[2],
                    geometry_len: n[3] as u16,
                },
            )
        } else {
            None
        }
    }

    proof fn reads_back(v: WalkEdge) {
        let n = Self::numbers_of(v);
        let b = Self::blocks_of(v);
    }

    proof fn not_empty() {
    }

    fn numbers_per_row() -> (r: usize) {
        4
    }

    fn blocks_per_row() -> (r: usize) {
        0
    }

    fn put(&self, numbers: &mut Vec<u32>, blocks: &mut Vec<Vec<u8>>) {
        numbers.push(self.to_node_idx);
        numbers.push(self.dist_meters as u32);
        numbers.push(self.geometry_offset);
        numbers.push(self.geometry_len as u32);
        assert(numbers@ =~= old(numbers)@ + Self::numbers_of(self.val()));
        assert(f::views(blocks@) =~= f::views(old(blocks)@) + Self::blocks_of(self.val()));
    }

    fn get(numbers: &Vec<u32>, at: usize, blocks: &Vec<Vec<u8>>, from: usize) -> (r: Option<Self>) {
        assert(at + 4 <= numbers.len() && from + 0 <= blocks.len());
        let ghost n = numbers@.subrange(at as int, at + 4);
        let ghost b = f::views(blocks@).subrange(from as int, from + 0);
        assert(n[0] == numbers@[at as int]);
        assert(n[1] == numbers@[at + 1]);
        assert(n[2] == numbers@[at + 2]);
        assert(n[3] == numbers@[at + 3]);
        if numbers[at + 1] >= 65536 {
            return None;
        }
        if numbers[at + 3] >= 65536 {
            return None;
        }
        let r = WalkEdge {
            to_node_idx: numbers[at],
            dist_meters: numbers[at + 1] as u16,
            geometry_offset: numbers[at + 2],
            geometry_len: numbers[at + 3] as u16,
        };
        Some(r)
    }
}

impl Record for Header {
    type Val = HeaderRecord;

    open spec fn val(&self) -> HeaderRecord {
        self@
    }

    open spec fn width() -> nat {
        0
    }

    open spec fn depth() -> nat {
        4
    }

    open spec fn numbers_of(v: HeaderRecord) -> Seq<u32> {
        Seq::empty()
    }

    open spec fn blocks_of(v: HeaderRecord) -> Seq<Seq<u8>> {
        seq![
            utf8::encode_utf8(v.feed_id),
            utf8::encode_utf8(v.timezone),
            v.arrivals,
            v.departures,
        ]
    }

    open spec fn record_in(n: Seq<u32>, b: Seq<Seq<u8>>) -> Option<HeaderRecord> {
        match (t::text_in(b[0]), t::text_in(b[1])) {
            (Some(feed_id), Some(timezone)) => Some(
                HeaderRecord {
                    feed_id,
                    timezone,
                    arrivals: b[2],
                    departures: b[3],
                },
            ),
            _ => None,
        }
    }

    proof fn reads_back(v: HeaderRecord) {
        let n = Self::numbers_of(v);
        let b = Self::blocks_of(v);
        lemma_text(v.feed_id);
        lemma_text(v.timezone);
        assert(Self::record_in(n, b)->0 =~= v);
    }

    proof fn not_empty() {
    }

    fn numbers_per_row() -> (r: usize) {
        0
    }

    fn blocks_per_row() -> (r: usize) {
        4
    }

    fn put(&self, numbers: &mut Vec<u32>, blocks: &mut Vec<Vec<u8>>) {
        blocks.push(text_bytes(self.feed_id.as_str()));
        blocks.push(text_bytes(self.timezone.as_str()));
        blocks.push(copy_list(&self.arrivals));
        blocks.push(copy_list(&self.departures));
        assert(numbers@ =~= old(numbers)@ + Self::numbers_of(self.val()));
        assert(f::views(blocks@) =~= f::views(old(blocks)@) + Self::blocks_of(self.val()));
    }

    fn get(numbers: &Vec<u32>, at: usize, blocks: &Vec<Vec<u8>>, from: usize) -> (r: Option<Self>) {
        assert(at + 0 <= numbers.len() && from + 4 <= blocks.len());
        let ghost n = numbers@.subrange(at as int, at + 0);
        let ghost b = f::views(blocks@).subrange(from as int, from + 4);
        assert(b[0] == blocks@[from as int]@);
        assert(b[1] == blocks@[from + 1]@);
        assert(b[2] == blocks@[from + 2]@);
        assert(b[3] == blocks@[from + 3]@);
        let feed_id = match t::utf8_text(blocks[from].as_slice()) {
            Some(x) => x,
            None => {
                return None;
            },
        };
        let timezone = match t::utf8_text(blocks[from + 1].as_slice()) {
            Some(x) => x,
            None => {
                return None;
            },
        };
        let r = Header {
            feed_id,
            timezone,
            arrivals: copy_list(&blocks[from + 2]),
            departures: copy_list(&blocks[from + 3]),
        };
        assert(Self::record_in(n, b)->0 =~= r.val());
        Some(r)
    }
}

/// A point.
impl Record for (u64, u64) {
    type Val = (u64, u64);

    open spec fn val(&self) -> (u64, u64) {
        *self
    }

    open spec fn width() -> nat {
        4
    }

    open spec fn depth() -> nat {
        0
    }

    open spec fn numbers_of(v: (u64, u64)) -> Seq<u32> {
        seq![high(v.0), low(v.0), high(v.1), low(v.1)]
    }

    open spec fn blocks_of(v: (u64, u64)) -> Seq<Seq<u8>> {
        Seq::empty()
    }

    open spec fn record_in(n: Seq<u32>, b: Seq<Seq<u8>>) -> Option<(u64, u64)> {
        Some((wide(n[0], n[1]), wide(n[2], n[3])))
    }

    proof fn reads_back(v: (u64, u64)) {
        lemma_wide(v.0);
        lemma_wide(v.1);
    }

    proof fn not_empty() {
    }

    fn numbers_per_row() -> (r: usize) {
        4
    }

    fn blocks_per_row() -> (r: usize) {
        0
    }

    fn put(&self, numbers: &mut Vec<u32>, blocks: &mut Vec<Vec<u8>>) {
        numbers.push((self.0 / 0x1_0000_0000) as u32);
        numbers.push((self.0 % 0x1_0000_0000) as u32);
        numbers.push((self.1 / 0x1_0000_0000) as u32);
        numbers.push((self.1 % 0x1_0000_0000) as u32);
        assert(numbers@ =~= old(numbers)@ + Self::numbers_of(self.val()));
        assert(f::views(blocks@) =~= f::views(old(blocks)@) + Self::blocks_of(self.val()));
    }

    fn get(numbers: &Vec<u32>, at: usize, blocks: &Vec<Vec<u8>>, from: usize) -> (r: Option<Self>) {
        assert(at + 4 <= numbers.len());
        let ghost n = numbers@.subrange(at as int, at + 4);
        assert(n[0] == numbers@[at as int]);
        assert(n[1] == numbers@[at + 1]);
        assert(n[2] == numbers@[at + 2]);
        assert(n[3] == numbers@[at + 3]);
        let a: u64 = numbers[at] as u64 * 0x1_0000_0000 + numbers[at + 1] as u64;
        let b: u64 = numbers[at + 2] as u64 * 0x1_0000_0000 + numbers[at + 3] as u64;
        Some((a, b))
    }
}

} // verus!
