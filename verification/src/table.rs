//! Tables of comma-separated text with a header row.

use crate::archive as ar;
use crate::archive::FeedFiles;
use crate::text as t;
use vstd::prelude::*;

verus! {

// ---------------------------------------------------------------------------
// The parser
// ---------------------------------------------------------------------------

/// `csv::Reader`: a parser over some source of bytes.
#[verifier::external_type_specification]
#[verifier::external_body]
#[verifier::reject_recursive_types(R)]
pub struct ExReader<R>(csv::Reader<R>);

/// What a `csv::Reader` hands out over the given bytes, record by record: the fields of a record,
/// or the message of the error that stands in its place.
pub uninterp spec fn csv_outcomes(bytes: Seq<u8>) -> Seq<Result<Seq<Seq<char>>, Seq<char>>>;

/// What a `csv::Reader` has not handed out yet.
pub uninterp spec fn csv_rest(rdr: csv::Reader<&[u8]>) -> Seq<Result<Seq<Seq<char>>, Seq<char>>>;

/// `csv::ReaderBuilder::from_reader`: a parser over the bytes that takes records of any length and
/// hands out the header row like any other. What it will hand out depends on the bytes alone.
#[verifier::external_body]
fn open_csv<'a>(bytes: &'a [u8]) -> (rdr: csv::Reader<&'a [u8]>)
    ensures
        csv_rest(rdr) == csv_outcomes(bytes@),
{
    csv::ReaderBuilder::new().has_headers(false).flexible(true).from_reader(bytes)
}

/// `csv::Reader::read_record`: hands out the next record, or an error in its place, and moves on.
/// None when nothing is left.
#[verifier::external_body]
fn next_record(rdr: &mut csv::Reader<&[u8]>) -> (next: Option<Result<Vec<String>, String>>)
    ensures
        csv_rest(*old(rdr)).len() == 0 ==> next is None && csv_rest(*final(rdr)).len() == 0,
        csv_rest(*old(rdr)).len() > 0 ==> next is Some && outcome_view(next->0) == csv_rest(
            *old(rdr),
        )[0] && csv_rest(*final(rdr)) == csv_rest(*old(rdr)).skip(1),
{
    let mut record = csv::StringRecord::new();
    match rdr.read_record(&mut record) {
        Ok(true) => Some(Ok(record.iter().map(|field| field.to_string()).collect())),
        Ok(false) => None,
        Err(e) => Some(Err(e.to_string())),
    }
}

/// The fields of a record as mathematical values.
pub open spec fn fields_view(v: Seq<String>) -> Seq<Seq<char>> {
    Seq::new(v.len(), |i: int| v[i]@)
}

/// An outcome as a mathematical value.
pub open spec fn outcome_view(o: Result<Vec<String>, String>) -> Result<Seq<Seq<char>>, Seq<char>> {
    match o {
        Ok(fields) => Ok(fields_view(fields@)),
        Err(message) => Err(message@),
    }
}

// ---------------------------------------------------------------------------
// Tables
// ---------------------------------------------------------------------------

/// A table as a mathematical value.
#[verifier::ext_equal]
pub struct Table {
    pub headers: Seq<Seq<char>>,
    pub rows: Seq<Seq<Seq<char>>>,
}

/// First index from `from` on that holds `x`.
pub open spec fn position(s: Seq<Seq<char>>, x: Seq<char>, from: int) -> Option<int>
    decreases s.len() - from,
{
    if from >= s.len() {
        None
    } else if s[from] == x {
        Some(from)
    } else {
        position(s, x, from + 1)
    }
}

impl Table {
    pub open spec fn has_column(self, name: Seq<char>) -> bool {
        position(self.headers, name, 0) is Some
    }

    /// The trimmed field of a row in the column of that name; empty if there is none.
    pub open spec fn field(self, row: int, name: Seq<char>) -> Seq<char> {
        match position(self.headers, name, 0) {
            Some(p) => if p < self.rows[row].len() {
                t::trimmed(self.rows[row][p])
            } else {
                Seq::empty()
            },
            None => Seq::empty(),
        }
    }
}

/// A header row with the rows under it.
pub struct CsvRows {
    pub headers: Vec<String>,
    pub rows: Vec<Vec<String>>,
}

pub open spec fn rows_view(v: Seq<Vec<String>>) -> Seq<Seq<Seq<char>>> {
    Seq::new(v.len(), |i: int| fields_view(v[i]@))
}

impl View for CsvRows {
    type V = Table;

    open spec fn view(&self) -> Table {
        Table { headers: fields_view(self.headers@), rows: rows_view(self.rows@) }
    }
}

/// Where a column of the given name stands.
fn find_column(headers: &Vec<String>, name: &str) -> (r: Option<usize>)
    ensures
        match r {
            Some(p) => position(fields_view(headers@), name@, 0) == Some(p as int) && p
                < headers@.len(),
            None => position(fields_view(headers@), name@, 0) is None,
        },
{
    let mut i: usize = 0;
    while i < headers.len()
        invariant
            i <= headers@.len(),
            position(fields_view(headers@), name@, 0) == position(
                fields_view(headers@),
                name@,
                i as int,
            ),
        decreases headers@.len() - i,
    {
        if headers[i].as_str().eq(name) {
            return Some(i);
        }
        i += 1;
    }
    None
}

impl CsvRows {
    /// The trimmed field of a row in the column of that name; empty if there is none.
    pub fn get(&self, row: usize, field: &str) -> (r: String)
        requires
            row < self.rows@.len(),
        ensures
            r@ == self@.field(row as int, field@),
    {
        match find_column(&self.headers, field) {
            Some(p) => {
                if p < self.rows[row].len() {
                    t::trim_str(self.rows[row][p].as_str())
                } else {
                    String::new()
                }
            },
            None => String::new(),
        }
    }

    /// Whether there is a column of that name.
    pub fn has(&self, field: &str) -> (r: bool)
        ensures
            r == self@.has_column(field@),
    {
        find_column(&self.headers, field).is_some()
    }
}

/// Why a feed could not be read.
#[derive(Debug)]
pub enum LoadError {
    /// The archive cannot be opened.
    Archive { cause: String },
    /// The file cannot be taken out of the archive.
    Entry { file: String, cause: String },
    /// The header row of the file cannot be parsed.
    Headers { file: String, cause: String },
    /// A row of the file cannot be parsed. Rows count from 0, below the header row.
    Row { file: String, row: usize, cause: String },
    /// The file lacks a column.
    MissingColumn { file: String, column: String },
}

/// An error as a mathematical value.
pub enum Fault {
    Archive { cause: Seq<char> },
    Entry { file: Seq<char>, cause: Seq<char> },
    Headers { file: Seq<char>, cause: Seq<char> },
    Row { file: Seq<char>, row: int, cause: Seq<char> },
    MissingColumn { file: Seq<char>, column: Seq<char> },
}

impl View for LoadError {
    type V = Fault;

    open spec fn view(&self) -> Fault {
        match self {
            LoadError::Archive { cause } => Fault::Archive { cause: cause@ },
            LoadError::Entry { file, cause } => Fault::Entry { file: file@, cause: cause@ },
            LoadError::Headers { file, cause } => Fault::Headers { file: file@, cause: cause@ },
            LoadError::Row { file, row, cause } => Fault::Row {
                file: file@,
                row: *row as int,
                cause: cause@,
            },
            LoadError::MissingColumn { file, column } => Fault::MissingColumn {
                file: file@,
                column: column@,
            },
        }
    }
}

/// A byte order mark in front is skipped.
pub open spec fn without_bom(bytes: Seq<u8>) -> Seq<u8> {
    if bytes.len() >= 3 && bytes[0] == 0xef && bytes[1] == 0xbb && bytes[2] == 0xbf {
        bytes.skip(3)
    } else {
        bytes
    }
}

/// First record from the `i`-th on that is an error.
pub open spec fn first_fault(outcomes: Seq<Result<Seq<Seq<char>>, Seq<char>>>, i: int) -> Option<
    int,
>
    decreases outcomes.len() - i,
{
    if i >= outcomes.len() {
        None
    } else if outcomes[i] is Err {
        Some(i)
    } else {
        first_fault(outcomes, i + 1)
    }
}

/// The table that the records of a file make, or the first fault among them. A column of
/// `required` that the header row lacks is a fault after that of the header row.
pub open spec fn table_of(
    outcomes: Seq<Result<Seq<Seq<char>>, Seq<char>>>,
    file: Seq<char>,
    required: Seq<Seq<char>>,
) -> Result<Table, Fault> {
    let headers = if outcomes.len() == 0 {
        Seq::empty()
    } else {
        outcomes[0]->Ok_0
    };
    if outcomes.len() > 0 && outcomes[0] is Err {
        Err(Fault::Headers { file, cause: outcomes[0]->Err_0 })
    } else if first_missing(headers, required, 0) is Some {
        Err(Fault::MissingColumn { file, column: first_missing(headers, required, 0)->0 })
    } else {
        match first_fault(outcomes, 1) {
            Some(i) => Err(Fault::Row { file, row: i - 1, cause: outcomes[i]->Err_0 }),
            None => Ok(
                Table {
                    headers,
                    rows: Seq::new(
                        if outcomes.len() == 0 {
                            0
                        } else {
                            (outcomes.len() - 1) as nat
                        },
                        |i: int| outcomes[i + 1]->Ok_0,
                    ),
                },
            ),
        }
    }
}

/// First of the required columns, from the `i`-th on, that is missing.
pub open spec fn first_missing(
    headers: Seq<Seq<char>>,
    required: Seq<Seq<char>>,
    i: int,
) -> Option<Seq<char>>
    decreases required.len() - i,
{
    if i >= required.len() {
        None
    } else if position(headers, required[i], 0) is None {
        Some(required[i])
    } else {
        first_missing(headers, required, i + 1)
    }
}

/// The table in a file; an absent file is an empty table.
pub open spec fn table_in(
    files: Map<Seq<char>, Result<Seq<u8>, Seq<char>>>,
    file: Seq<char>,
    required: Seq<Seq<char>>,
) -> Result<Table, Fault> {
    match ar::content_of(files, file) {
        Some(Ok(bytes)) => table_of(csv_outcomes(without_bom(bytes)), file, required),
        Some(Err(cause)) => Err(Fault::Entry { file, cause }),
        None => Ok(Table { headers: Seq::empty(), rows: Seq::empty() }),
    }
}

/// The required columns as mathematical values.
pub open spec fn names_view(v: Seq<&str>) -> Seq<Seq<char>> {
    Seq::new(v.len(), |i: int| v[i]@)
}

/// Outcomes as mathematical values.
pub open spec fn outcomes_view(v: Seq<Result<Vec<String>, String>>) -> Seq<
    Result<Seq<Seq<char>>, Seq<char>>,
> {
    Seq::new(v.len(), |i: int| outcome_view(v[i]))
}

/// Everything that a parser has left.
fn read_all(rdr: &mut csv::Reader<&[u8]>) -> (r: Vec<Result<Vec<String>, String>>)
    ensures
        outcomes_view(r@) == csv_rest(*old(rdr)),
{
    let ghost all = csv_rest(*rdr);
    let mut out: Vec<Result<Vec<String>, String>> = Vec::new();
    assert(all.skip(0) =~= all);
    assert(outcomes_view(out@) =~= all.take(0));
    loop
        invariant
            all == csv_rest(*old(rdr)),
            out@.len() <= all.len(),
            csv_rest(*rdr) == all.skip(out@.len() as int),
            outcomes_view(out@) == all.take(out@.len() as int),
        ensures
            out@.len() == all.len(),
        decreases csv_rest(*rdr).len(),
    {
        match next_record(rdr) {
            Some(outcome) => {
                let ghost before = out@;
                out.push(outcome);
                proof {
                    let n = before.len() as int;
                    assert(all.skip(n).skip(1) =~= all.skip(n + 1));
                    assert(all.skip(n)[0] == all[n]);
                    assert(outcomes_view(out@) =~= outcomes_view(before).push(
                        outcome_view(out@[n]),
                    ));
                    assert(all.take(n + 1) =~= all.take(n).push(all[n]));
                }
            },
            None => {
                break ;
            },
        }
    }
    assert(all.take(all.len() as int) =~= all);
    out
}

/// Makes a table of the records of a file.
pub fn table_from(
    outcomes: Vec<Result<Vec<String>, String>>,
    file: &str,
    required: &Vec<&str>,
) -> (r: Result<CsvRows, LoadError>)
    ensures
        match r {
            Ok(x) => table_of(outcomes_view(outcomes@), file@, names_view(required@)) == Ok::<
                Table,
                Fault,
            >(x@),
            Err(e) => table_of(outcomes_view(outcomes@), file@, names_view(required@)) == Err::<
                Table,
                Fault,
            >(e@),
        },
{
    let ghost all = outcomes_view(outcomes@);
    let ghost head: Seq<Seq<char>> = if all.len() == 0 {
        Seq::empty()
    } else {
        all[0]->Ok_0
    };
    let mut headers: Vec<String> = Vec::new();
    let mut rows: Vec<Vec<String>> = Vec::new();
    assert(rows_view(rows@) =~= Seq::<Seq<Seq<char>>>::empty());
    assert(fields_view(headers@) =~= Seq::<Seq<char>>::empty());
    let mut first: bool = true;
    for outcome in it: outcomes
        invariant
            it.seq() == outcomes@,
            all == outcomes_view(outcomes@),
            head == (if all.len() == 0 {
                Seq::<Seq<char>>::empty()
            } else {
                all[0]->Ok_0
            }),
            first == (it.index() == 0),
            it.index() == 0 ==> rows@.len() == 0 && headers@.len() == 0,
            it.index() > 0 ==> {
                &&& all[0] is Ok
                &&& fields_view(headers@) == head
                &&& first_missing(head, names_view(required@), 0) is None
                &&& rows@.len() == it.index() - 1
                &&& first_fault(all, 1) == first_fault(all, it.index() as int)
                &&& rows_view(rows@) == Seq::new(rows@.len(), |k: int| all[k + 1]->Ok_0)
            },
    {
        let ghost i = it.index() as int;
        assert(outcome_view(outcome) == all[i]);
        match outcome {
            Ok(fields) => {
                if first {
                    headers = fields;
                    assert(fields_view(headers@) == head);
                    match check_required(&headers, required) {
                        Some(column) => {
                            return Err(LoadError::MissingColumn { file: t::copy_str(file), column });
                        },
                        None => {},
                    }
                    first = false;
                } else {
                    let ghost before = rows@;
                    rows.push(fields);
                    proof {
                        assert(rows_view(rows@) =~= rows_view(before).push(
                            fields_view(rows@[before.len() as int]@),
                        ));
                    }
                }
                proof {
                    assert(rows_view(rows@) =~= Seq::new(
                        rows@.len(),
                        |k: int| all[k + 1]->Ok_0,
                    ));
                }
            },
            Err(cause) => {
                if first {
                    return Err(LoadError::Headers { file: t::copy_str(file), cause });
                }
                return Err(LoadError::Row { file: t::copy_str(file), row: rows.len(), cause });
            },
        }
    }
    if first {
        match check_required(&headers, required) {
            Some(column) => {
                return Err(LoadError::MissingColumn { file: t::copy_str(file), column });
            },
            None => {},
        }
    }
    let table = CsvRows { headers, rows };
    proof {
        assert(all.len() == outcomes@.len());
        assert(first_fault(all, 1) is None);
        assert(table@.headers =~= head);
        assert(table@.rows =~= Seq::new(
            if all.len() == 0 {
                0
            } else {
                (all.len() - 1) as nat
            },
            |k: int| all[k + 1]->Ok_0,
        ));
    }
    Ok(table)
}

/// The first of the required columns that is missing.
fn check_required(headers: &Vec<String>, required: &Vec<&str>) -> (r: Option<String>)
    ensures
        match r {
            Some(c) => first_missing(fields_view(headers@), names_view(required@), 0) == Some(c@),
            None => first_missing(fields_view(headers@), names_view(required@), 0) is None,
        },
{
    let mut i: usize = 0;
    while i < required.len()
        invariant
            i <= required@.len(),
            first_missing(fields_view(headers@), names_view(required@), 0) == first_missing(
                fields_view(headers@),
                names_view(required@),
                i as int,
            ),
        decreases required@.len() - i,
    {
        if find_column(headers, required[i]).is_none() {
            return Some(t::copy_str(required[i]));
        }
        i += 1;
    }
    None
}

/// Reads the table in a file; an absent file is an empty table.
pub fn read_csv(files: &FeedFiles, file: &str, required: &Vec<&str>) -> (r: Result<
    CsvRows,
    LoadError,
>)
    ensures
        match r {
            Ok(x) => table_in(files@, file@, names_view(required@)) == Ok::<
                Table,
                Fault,
            >(x@),
            Err(e) => table_in(files@, file@, names_view(required@)) == Err::<
                Table,
                Fault,
            >(e@),
        },
{
    match files.get(file) {
        None => {
            let table = CsvRows { headers: Vec::new(), rows: Vec::new() };
            assert(table@ =~= Table { headers: Seq::empty(), rows: Seq::empty() });
            Ok(table)
        },
        Some(Err(cause)) => Err(
            LoadError::Entry { file: t::copy_str(file), cause: t::copy_str(cause.as_str()) },
        ),
        Some(Ok(bytes)) => {
            let all = bytes.as_slice();
            let start: usize = if bytes.len() >= 3 && bytes[0] == 0xef && bytes[1] == 0xbb
                && bytes[2] == 0xbf {
                3
            } else {
                0
            };
            let body = vstd::slice::slice_subrange(all, start, bytes.len());
            assert(body@ =~= without_bom(bytes@));
            let mut rdr = open_csv(body);
            table_from(read_all(&mut rdr), file, required)
        },
    }
}

} // verus!
