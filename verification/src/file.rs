//! Timetable files: Cap'n Proto messages with one list of numbers and one list of blocks for each
//! table.

use crate::columns as c;
use crate::columns::{Column, ColumnView};
use crate::data::{Agency, Route, Service, Stop, Transfer, Trip, WalkEdge, WalkNode};
use crate::feed as f;
use crate::lists::copy_list;
use crate::message::{Message, MessageView, StoredFare};
use crate::records as r;
use crate::records::{Header, HeaderRecord, Record};
use crate::text as t;
use vstd::prelude::*;

verus! {

/// Number of tables of a file. Each has a list of numbers and a list of blocks behind it.
pub const TABLES: u32 = 11;

pub open spec fn damaged() -> Seq<char> {
    "damaged timetable file"@
}

/// What a table of a file holds, or the message of the error that reading it gives.
pub open spec fn table<T: Record>(bytes: Seq<u8>, at: u32) -> Result<Seq<T::Val>, Seq<char>> {
    match (c::capnp_numbers(bytes, (2 * at) as u32), c::capnp_blocks(bytes, (2 * at + 1) as u32)) {
        (Err(e), _) => Err(e),
        (_, Err(e)) => Err(e),
        (Ok(Some(numbers)), Ok(Some(blocks))) => match r::rows::<T>(numbers, blocks) {
            Some(records) => Ok(records),
            None => Err(damaged()),
        },
        _ => Err(damaged()),
    }
}

/// What a file holds besides its tables.
pub open spec fn header_of(m: MessageView) -> HeaderRecord {
    HeaderRecord {
        feed_id: m.feed_id,
        timezone: m.timezone,
        arrivals: m.stop_arrivals,
        departures: m.stop_departures,
    }
}

/// The table that stands for the header has one row.
pub open spec fn header(bytes: Seq<u8>) -> Result<HeaderRecord, Seq<char>> {
    match table::<Header>(bytes, 0) {
        Ok(rows) => if rows.len() == 1 {
            Ok(rows[0])
        } else {
            Err(damaged())
        },
        Err(e) => Err(e),
    }
}

pub open spec fn is_table<V>(x: Result<Seq<V>, Seq<char>>, s: Seq<V>) -> bool {
    x matches Ok(y) && y == s
}

/// The file holds a message.
pub open spec fn holds(bytes: Seq<u8>, m: MessageView) -> bool {
    &&& header(bytes) matches Ok(h) && h == header_of(m)
    &&& is_table(table::<Agency>(bytes, 1), m.agencies)
    &&& is_table(table::<Stop>(bytes, 2), m.stops)
    &&& is_table(table::<Route>(bytes, 3), m.routes)
    &&& is_table(table::<Transfer>(bytes, 4), m.transfers)
    &&& is_table(table::<Service>(bytes, 5), m.services)
    &&& is_table(table::<Trip>(bytes, 6), m.trips)
    &&& is_table(table::<StoredFare>(bytes, 7), m.fare_rules)
    &&& is_table(table::<WalkNode>(bytes, 8), m.walk_nodes)
    &&& is_table(table::<WalkEdge>(bytes, 9), m.walk_edges)
    &&& is_table(table::<(u64, u64)>(bytes, 10), m.geometry)
}

/// The error of a result.
pub open spec fn failure<V>(x: Result<V, Seq<char>>) -> Option<Seq<char>> {
    match x {
        Ok(_) => None,
        Err(e) => Some(e),
    }
}

pub open spec fn first_of(a: Option<Seq<char>>, b: Option<Seq<char>>) -> Option<Seq<char>> {
    if a is Some {
        a
    } else {
        b
    }
}

/// The first error that reading a file gives; None if all of it can be read.
pub open spec fn first_failure(bytes: Seq<u8>) -> Option<Seq<char>> {
    let e10 = failure(table::<(u64, u64)>(bytes, 10));
    let e9 = first_of(failure(table::<WalkEdge>(bytes, 9)), e10);
    let e8 = first_of(failure(table::<WalkNode>(bytes, 8)), e9);
    let e7 = first_of(failure(table::<StoredFare>(bytes, 7)), e8);
    let e6 = first_of(failure(table::<Trip>(bytes, 6)), e7);
    let e5 = first_of(failure(table::<Service>(bytes, 5)), e6);
    let e4 = first_of(failure(table::<Transfer>(bytes, 4)), e5);
    let e3 = first_of(failure(table::<Route>(bytes, 3)), e4);
    let e2 = first_of(failure(table::<Stop>(bytes, 2)), e3);
    let e1 = first_of(failure(table::<Agency>(bytes, 1)), e2);
    first_of(failure(header(bytes)), e1)
}

pub open spec fn table_read<T: Record>(x: Result<Vec<T>, String>) -> Result<Seq<T::Val>, Seq<char>> {
    match x {
        Ok(v) => Ok(r::values(v@)),
        Err(e) => Err(e@),
    }
}

/// Reads a table of a file.
fn read_table<T: Record>(bytes: &[u8], at: u32) -> (x: Result<Vec<T>, String>)
    requires
        at < TABLES,
    ensures
        table_read(x) == table::<T>(bytes@, at),
{
    let numbers = match c::read_numbers(bytes, 2 * at) {
        Ok(x) => x,
        Err(e) => {
            return Err(e);
        },
    };
    let blocks = match c::read_blocks(bytes, 2 * at + 1) {
        Ok(x) => x,
        Err(e) => {
            return Err(e);
        },
    };
    match (numbers, blocks) {
        (Some(numbers), Some(blocks)) => match r::get_all(&numbers, &blocks) {
            Some(records) => Ok(records),
            None => Err(t::copy_str("damaged timetable file")),
        },
        _ => Err(t::copy_str("damaged timetable file")),
    }
}

fn read_header(bytes: &[u8]) -> (x: Result<Header, String>)
    ensures
        match x {
            Ok(h) => header(bytes@) == Ok::<HeaderRecord, Seq<char>>(h@),
            Err(e) => header(bytes@) == Err::<HeaderRecord, Seq<char>>(e@),
        },
{
    let mut rows: Vec<Header> = match read_table(bytes, 0) {
        Ok(x) => x,
        Err(e) => {
            return Err(e);
        },
    };
    if rows.len() != 1 {
        return Err(t::copy_str("damaged timetable file"));
    }
    assert(r::values(rows@)[0] == rows@[0]@);
    Ok(rows.swap_remove(0))
}

/// Reads what a timetable file holds.
pub fn read_message(bytes: &[u8]) -> (x: Result<Message, String>)
    ensures
        match x {
            Ok(m) => holds(bytes@, m@),
            Err(e) => first_failure(bytes@) == Some(e@),
        },
{
    let head = match read_header(bytes) {
        Ok(x) => x,
        Err(e) => {
            return Err(e);
        },
    };
    let agencies: Vec<Agency> = match read_table(bytes, 1) {
        Ok(x) => x,
        Err(e) => {
            return Err(e);
        },
    };
    let stops: Vec<Stop> = match read_table(bytes, 2) {
        Ok(x) => x,
        Err(e) => {
            return Err(e);
        },
    };
    let routes: Vec<Route> = match read_table(bytes, 3) {
        Ok(x) => x,
        Err(e) => {
            return Err(e);
        },
    };
    let transfers: Vec<Transfer> = match read_table(bytes, 4) {
        Ok(x) => x,
        Err(e) => {
            return Err(e);
        },
    };
    let services: Vec<Service> = match read_table(bytes, 5) {
        Ok(x) => x,
        Err(e) => {
            return Err(e);
        },
    };
    let trips: Vec<Trip> = match read_table(bytes, 6) {
        Ok(x) => x,
        Err(e) => {
            return Err(e);
        },
    };
    let fare_rules: Vec<StoredFare> = match read_table(bytes, 7) {
        Ok(x) => x,
        Err(e) => {
            return Err(e);
        },
    };
    let walk_nodes: Vec<WalkNode> = match read_table(bytes, 8) {
        Ok(x) => x,
        Err(e) => {
            return Err(e);
        },
    };
    let walk_edges: Vec<WalkEdge> = match read_table(bytes, 9) {
        Ok(x) => x,
        Err(e) => {
            return Err(e);
        },
    };
    let geometry: Vec<(u64, u64)> = match read_table(bytes, 10) {
        Ok(x) => x,
        Err(e) => {
            return Err(e);
        },
    };
    let m = Message {
        feed_id: head.feed_id,
        timezone: head.timezone,
        agencies,
        stops,
        routes,
        stop_arrivals: head.arrivals,
        stop_departures: head.departures,
        transfers,
        services,
        trips,
        fare_rules,
        walk_nodes,
        walk_edges,
        geometry,
    };
    proof {
        lemma_values(m);
    }
    Ok(m)
}

proof fn lemma_values(m: Message)
    ensures
        r::values(m.agencies@) == m@.agencies,
        r::values(m.stops@) == m@.stops,
        r::values(m.routes@) == m@.routes,
        r::values(m.transfers@) == m@.transfers,
        r::values(m.services@) == m@.services,
        r::values(m.trips@) == m@.trips,
        r::values(m.fare_rules@) == m@.fare_rules,
        r::values(m.walk_nodes@) == m@.walk_nodes,
        r::values(m.walk_edges@) == m@.walk_edges,
        r::values(m.geometry@) == m@.geometry,
{
    assert(r::values(m.agencies@) =~= m@.agencies);
    assert(r::values(m.stops@) =~= m@.stops);
    assert(r::values(m.routes@) =~= m@.routes);
    assert(r::values(m.transfers@) =~= m@.transfers);
    assert(r::values(m.services@) =~= m@.services);
    assert(r::values(m.trips@) =~= m@.trips);
    assert(r::values(m.fare_rules@) =~= m@.fare_rules);
    assert(r::values(m.walk_nodes@) =~= m@.walk_nodes);
    assert(r::values(m.walk_edges@) =~= m@.walk_edges);
    assert(r::values(m.geometry@) =~= m@.geometry);
}

/// The lists of a file.
pub open spec fn columns_of(m: MessageView) -> Seq<ColumnView> {
    let head = seq![header_of(m)];
    seq![
        ColumnView::Numbers(r::all_numbers::<Header>(head)),
        ColumnView::Blocks(r::all_blocks::<Header>(head)),
        ColumnView::Numbers(r::all_numbers::<Agency>(m.agencies)),
        ColumnView::Blocks(r::all_blocks::<Agency>(m.agencies)),
        ColumnView::Numbers(r::all_numbers::<Stop>(m.stops)),
        ColumnView::Blocks(r::all_blocks::<Stop>(m.stops)),
        ColumnView::Numbers(r::all_numbers::<Route>(m.routes)),
        ColumnView::Blocks(r::all_blocks::<Route>(m.routes)),
        ColumnView::Numbers(r::all_numbers::<Transfer>(m.transfers)),
        ColumnView::Blocks(r::all_blocks::<Transfer>(m.transfers)),
        ColumnView::Numbers(r::all_numbers::<Service>(m.services)),
        ColumnView::Blocks(r::all_blocks::<Service>(m.services)),
        ColumnView::Numbers(r::all_numbers::<Trip>(m.trips)),
        ColumnView::Blocks(r::all_blocks::<Trip>(m.trips)),
        ColumnView::Numbers(r::all_numbers::<StoredFare>(m.fare_rules)),
        ColumnView::Blocks(r::all_blocks::<StoredFare>(m.fare_rules)),
        ColumnView::Numbers(r::all_numbers::<WalkNode>(m.walk_nodes)),
        ColumnView::Blocks(r::all_blocks::<WalkNode>(m.walk_nodes)),
        ColumnView::Numbers(r::all_numbers::<WalkEdge>(m.walk_edges)),
        ColumnView::Blocks(r::all_blocks::<WalkEdge>(m.walk_edges)),
        ColumnView::Numbers(r::all_numbers::<(u64, u64)>(m.geometry)),
        ColumnView::Blocks(r::all_blocks::<(u64, u64)>(m.geometry)),
    ]
}

/// The message is not too large for a file.
pub open spec fn writable(m: MessageView) -> bool {
    c::writable(columns_of(m))
}

/// The bytes of the file that holds a message.
pub open spec fn file_of(m: MessageView) -> Seq<u8> {
    c::capnp_bytes(columns_of(m))
}

proof fn lemma_table<T: Record>(bytes: Seq<u8>, m: MessageView, at: u32, s: Seq<T::Val>)
    requires
        c::reads_as(bytes, columns_of(m)),
        at < TABLES,
        columns_of(m)[2 * at] == ColumnView::Numbers(r::all_numbers::<T>(s)),
        columns_of(m)[2 * at + 1] == ColumnView::Blocks(r::all_blocks::<T>(s)),
    ensures
        table::<T>(bytes, at) == Ok::<Seq<T::Val>, Seq<char>>(s),
{
    r::tables_read_back::<T>(s);
    assert(columns_of(m).len() == 2 * TABLES);
    let i = 2 * at;
    let k = 2 * at + 1;
    assert(c::column_reads_as(bytes, i as u32, columns_of(m)[i]));
    assert(c::column_reads_as(bytes, k as u32, columns_of(m)[k]));
}

/// A file whose lists are those of a message holds it.
proof fn lemma_holds(bytes: Seq<u8>, m: MessageView)
    requires
        c::reads_as(bytes, columns_of(m)),
    ensures
        holds(bytes, m),
{
    lemma_table::<Header>(bytes, m, 0, seq![header_of(m)]);
    lemma_table::<Agency>(bytes, m, 1, m.agencies);
    lemma_table::<Stop>(bytes, m, 2, m.stops);
    lemma_table::<Route>(bytes, m, 3, m.routes);
    lemma_table::<Transfer>(bytes, m, 4, m.transfers);
    lemma_table::<Service>(bytes, m, 5, m.services);
    lemma_table::<Trip>(bytes, m, 6, m.trips);
    lemma_table::<StoredFare>(bytes, m, 7, m.fare_rules);
    lemma_table::<WalkNode>(bytes, m, 8, m.walk_nodes);
    lemma_table::<WalkEdge>(bytes, m, 9, m.walk_edges);
    lemma_table::<(u64, u64)>(bytes, m, 10, m.geometry);
}

/// A file holds one message at most, and none if reading it gives an error.
pub proof fn files_hold_one_message(bytes: Seq<u8>, a: MessageView, b: MessageView)
    requires
        holds(bytes, a),
    ensures
        first_failure(bytes) is None,
        holds(bytes, b) ==> a == b,
{
    if holds(bytes, b) {
        assert(header_of(a) == header_of(b));
        assert(a =~= b);
    }
}

fn short_list(list: &Vec<Vec<u8>>) -> (x: bool)
    ensures
        x == c::short(ColumnView::Blocks(f::views(list@))),
{
    if list.len() >= c::LENGTH_LIMIT {
        return false;
    }
    let mut i: usize = 0;
    while i < list.len()
        invariant
            i <= list@.len(),
            forall|k: int| 0 <= k < i ==> (#[trigger] f::views(list@)[k]).len() < c::LENGTH_LIMIT,
        decreases list@.len() - i,
    {
        if list[i].len() >= c::LENGTH_LIMIT {
            assert(f::views(list@)[i as int].len() >= c::LENGTH_LIMIT);
            return false;
        }
        i += 1;
    }
    true
}

/// Checks that lists can be written.
fn check_columns(columns: &Vec<Column>) -> (x: bool)
    ensures
        x == c::writable(f::views(columns@)),
{
    if columns.len() >= c::LENGTH_LIMIT {
        return false;
    }
    let mut i: usize = 0;
    while i < columns.len()
        invariant
            i <= columns@.len(),
            forall|k: int| 0 <= k < i ==> c::short(#[trigger] f::views(columns@)[k]),
        decreases columns@.len() - i,
    {
        let fits: bool = match &columns[i] {
            Column::Numbers(list) => list.len() < c::LENGTH_LIMIT,
            Column::Blocks(list) => short_list(list),
        };
        assert(fits == c::short(f::views(columns@)[i as int]));
        if !fits {
            return false;
        }
        i += 1;
    }
    true
}

fn put_table<T: Record>(items: &Vec<T>, columns: &mut Vec<Column>)
    ensures
        f::views(final(columns)@) == f::views(old(columns)@) + seq![
            ColumnView::Numbers(r::all_numbers::<T>(r::values(items@))),
            ColumnView::Blocks(r::all_blocks::<T>(r::values(items@))),
        ],
{
    let (numbers, blocks) = r::put_all(items);
    columns.push(Column::Numbers(numbers));
    columns.push(Column::Blocks(blocks));
    assert(f::views(columns@) =~= f::views(old(columns)@) + seq![
        ColumnView::Numbers(numbers@),
        ColumnView::Blocks(f::views(blocks@)),
    ]);
}

/// Writes the file that holds a message. If a reader takes so many bytes, it holds it again.
pub fn message_bytes(m: &Message) -> (x: Result<Vec<u8>, String>)
    ensures
        match x {
            Ok(bytes) => writable(m@) && bytes@ == file_of(m@) && (bytes@.len() <= c::READ_LIMIT
                ==> holds(bytes@, m@)),
            Err(e) => !writable(m@) && e@ == "timetable too large"@,
        },
{
    let mut head: Vec<Header> = Vec::new();
    head.push(
        Header {
            feed_id: t::copy_str(m.feed_id.as_str()),
            timezone: t::copy_str(m.timezone.as_str()),
            arrivals: copy_list(&m.stop_arrivals),
            departures: copy_list(&m.stop_departures),
        },
    );
    let mut columns: Vec<Column> = Vec::new();
    proof {
        lemma_values(*m);
        assert(r::values(head@) =~= seq![header_of(m@)]);
    }
    put_table(&head, &mut columns);
    put_table(&m.agencies, &mut columns);
    put_table(&m.stops, &mut columns);
    put_table(&m.routes, &mut columns);
    put_table(&m.transfers, &mut columns);
    put_table(&m.services, &mut columns);
    put_table(&m.trips, &mut columns);
    put_table(&m.fare_rules, &mut columns);
    put_table(&m.walk_nodes, &mut columns);
    put_table(&m.walk_edges, &mut columns);
    put_table(&m.geometry, &mut columns);
    assert(f::views(columns@) =~= columns_of(m@));
    if !check_columns(&columns) {
        return Err(t::copy_str("timetable too large"));
    }
    let bytes = c::write_columns(&columns);
    proof {
        if bytes@.len() <= c::READ_LIMIT {
            lemma_holds(bytes@, m@);
        }
    }
    Ok(bytes)
}

} // verus!
