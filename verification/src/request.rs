//! Requests for a trip.

use crate::calendar as cal;
use crate::text as t;
use vstd::prelude::*;

verus! {

/// A request as it comes in.
#[derive(Debug, Clone)]
pub struct PlanRequestInput {
    pub origin: String,
    pub destination: String,
    pub depart_at: Option<String>,
    pub arrive_by: Option<String>,
    pub modes: Option<String>,
    pub max_transfers: Option<u32>,
    pub max_results: Option<u32>,
    pub max_walk_distance: Option<u32>,
    pub walking_speed: Option<String>,
    pub modifier: Option<String>,
}

/// A request with its parts understood. Coordinates are bit patterns.
#[derive(Debug, Clone)]
pub struct PlanRequest {
    pub origin_lat: u64,
    pub origin_lon: u64,
    pub dest_lat: u64,
    pub dest_lon: u64,
    /// Seconds since midnight.
    pub departure_time: u32,
    /// Days since 1970-01-01.
    pub service_day: u16,
    /// The date in writing.
    pub date_str: String,
    pub max_transfers: Option<u32>,
    pub max_results: Option<usize>,
    pub max_walk_distance: Option<u32>,
    pub walking_speed: Option<String>,
}

// ---------------------------------------------------------------------------
// Date and time
// ---------------------------------------------------------------------------

/// Without any of a character at the end.
pub open spec fn without_trailing(s: Seq<char>, c: char) -> Seq<char>
    decreases s.len(),
{
    if s.len() > 0 && s.last() == c {
        without_trailing(s.drop_last(), c)
    } else {
        s
    }
}

fn strip_trailing(v: &Vec<char>, c: char) -> (r: Vec<char>)
    ensures
        r@ == without_trailing(v@, c),
{
    let mut n: usize = v.len();
    assert(v@.take(n as int) =~= v@);
    while n > 0 && v[n - 1] == c
        invariant
            n <= v@.len(),
            without_trailing(v@.take(n as int), c) == without_trailing(v@, c),
        decreases n,
    {
        assert(v@.take(n as int).drop_last() =~= v@.take(n - 1));
        n -= 1;
    }
    let r = t::sub_chars(v, 0, n);
    assert(r@ =~= v@.take(n as int));
    r
}

/// The day in writing, from year, month and day.
pub open spec fn day_in(s: Seq<char>) -> Result<int, Seq<char>> {
    let parts = t::split_at(s, '-');
    if parts.len() != 3 {
        Err("invalid date: "@ + s)
    } else if t::signed_decimal(parts[0]) is None {
        Err("bad year"@)
    } else if t::decimal(parts[1], u32::MAX as int) is None {
        Err("bad month"@)
    } else if t::decimal(parts[2], u32::MAX as int) is None {
        Err("bad day"@)
    } else {
        Ok(
            cal::wrapped(
                cal::day_number(
                    t::signed_decimal(parts[0])->0,
                    cal::as_signed(t::decimal(parts[1], u32::MAX as int)->0),
                    cal::as_signed(t::decimal(parts[2], u32::MAX as int)->0),
                ),
            ),
        )
    }
}

/// A number, or zero.
pub open spec fn number_or_zero(s: Seq<char>) -> int {
    match t::decimal(s, u32::MAX as int) {
        Some(x) => x,
        None => 0,
    }
}

/// Seconds in writing, without the fraction that may follow a point.
pub open spec fn seconds_in(s: Seq<char>) -> int {
    number_or_zero(t::split_at(s, '.')[0])
}

/// Seconds since midnight, from hour, minute and perhaps second, within 32 bits.
pub open spec fn clock_in(s: Seq<char>) -> Result<int, Seq<char>> {
    let parts = t::split_at(s, ':');
    if parts.len() < 2 {
        Err("invalid time: "@ + s)
    } else if t::decimal(parts[0], u32::MAX as int) is None {
        Err("bad hour"@)
    } else if t::decimal(parts[1], u32::MAX as int) is None {
        Err("bad minute"@)
    } else {
        let sec = if parts.len() > 2 {
            seconds_in(parts[2])
        } else {
            0
        };
        Ok(
            (t::decimal(parts[0], u32::MAX as int)->0 * 3600 + t::decimal(
                parts[1],
                u32::MAX as int,
            )->0 * 60 + sec) % 0x1_0000_0000,
        )
    }
}

/// Seconds since midnight, day since 1970-01-01 within 16 bits, and the date as it is written.
pub open spec fn datetime_in(s: Seq<char>) -> Result<(int, int, Seq<char>), Seq<char>> {
    let text = without_trailing(t::trimmed(s), 'Z');
    let parts = t::split_at(text, 'T');
    if parts.len() != 2 {
        Err("invalid datetime: "@ + text)
    } else {
        match day_in(parts[0]) {
            Err(e) => Err(e),
            Ok(day) => match clock_in(parts[1]) {
                Err(e) => Err(e),
                Ok(secs) => Ok((secs, day % 0x1_0000, parts[0])),
            },
        }
    }
}

fn parse_day(v: &Vec<char>) -> (r: Result<i32, String>)
    ensures
        match r {
            Ok(x) => day_in(v@) == Ok::<int, Seq<char>>(x as int),
            Err(e) => day_in(v@) == Err::<int, Seq<char>>(e@),
        },
{
    let parts = t::split(v, '-');
    let ghost pv = t::pieces_view(parts@);
    assert(pv.len() == parts@.len());
    if parts.len() != 3 {
        return Err(t::join("invalid date: ", t::string_of(v).as_str()));
    }
    assert(pv[0] == parts@[0]@ && pv[1] == parts@[1]@ && pv[2] == parts@[2]@);
    let year: i32 = match t::read_i32(&parts[0]) {
        Some(x) => x,
        None => return Err(t::copy_str("bad year")),
    };
    let month: u32 = match t::read_u32(&parts[1]) {
        Some(x) => x,
        None => return Err(t::copy_str("bad month")),
    };
    let day: u32 = match t::read_u32(&parts[2]) {
        Some(x) => x,
        None => return Err(t::copy_str("bad day")),
    };
    Ok(cal::days_since_epoch(year, month, day))
}

fn parse_clock(v: &Vec<char>) -> (r: Result<u32, String>)
    ensures
        match r {
            Ok(x) => clock_in(v@) == Ok::<int, Seq<char>>(x as int),
            Err(e) => clock_in(v@) == Err::<int, Seq<char>>(e@),
        },
{
    let parts = t::split(v, ':');
    let ghost pv = t::pieces_view(parts@);
    assert(pv.len() == parts@.len());
    if parts.len() < 2 {
        return Err(t::join("invalid time: ", t::string_of(v).as_str()));
    }
    assert(pv[0] == parts@[0]@ && pv[1] == parts@[1]@);
    let h: u32 = match t::read_u32(&parts[0]) {
        Some(x) => x,
        None => return Err(t::copy_str("bad hour")),
    };
    let m: u32 = match t::read_u32(&parts[1]) {
        Some(x) => x,
        None => return Err(t::copy_str("bad minute")),
    };
    let sec: u32 = if parts.len() > 2 {
        assert(pv[2] == parts@[2]@);
        let whole = t::split(&parts[2], '.');
        assert(t::pieces_view(whole@)[0] == whole@[0]@);
        match t::read_u32(&whole[0]) {
            Some(x) => x,
            None => 0,
        }
    } else {
        0
    };
    Ok(((h as u64 * 3600 + m as u64 * 60 + sec as u64) % 0x1_0000_0000) as u32)
}

/// Reads an ISO 8601 date and time: seconds since midnight, day since 1970-01-01, and the date as
/// it is written.
pub fn parse_datetime(s: &str) -> (r: Result<(u32, u16, String), String>)
    ensures
        match r {
            Ok(x) => datetime_in(s@) == Ok::<(int, int, Seq<char>), Seq<char>>(
                (x.0 as int, x.1 as int, x.2@),
            ),
            Err(e) => datetime_in(s@) == Err::<(int, int, Seq<char>), Seq<char>>(e@),
        },
{
    let text = strip_trailing(&t::trim(&t::chars_of(s)), 'Z');
    let parts = t::split(&text, 'T');
    let ghost pv = t::pieces_view(parts@);
    assert(pv.len() == parts@.len());
    if parts.len() != 2 {
        return Err(t::join("invalid datetime: ", t::string_of(&text).as_str()));
    }
    assert(pv[0] == parts@[0]@ && pv[1] == parts@[1]@);
    let day: i32 = match parse_day(&parts[0]) {
        Ok(x) => x,
        Err(e) => return Err(e),
    };
    let secs: u32 = match parse_clock(&parts[1]) {
        Ok(x) => x,
        Err(e) => return Err(e),
    };
    let low: i64 = (day as i64 + 0x8000_0000) % 0x1_0000;
    assert(low == day as int % 0x1_0000);
    Ok((secs, low as u16, t::string_of(&parts[0])))
}

// ---------------------------------------------------------------------------
// Places
// ---------------------------------------------------------------------------

/// The two coordinates of a place in writing, each as it stands and without white space.
pub open spec fn places_in(s: Seq<char>) -> Result<(Seq<char>, Seq<char>), Seq<char>> {
    let parts = t::split_at(s, ',');
    if t::begins_with(s, "stop:"@) {
        Err("stop: references not yet supported, use lat,lon"@)
    } else if parts.len() != 2 {
        Err("invalid location format: "@ + s)
    } else {
        Ok((parts[0], parts[1]))
    }
}

/// A place from the numbers that its two texts stand for.
pub open spec fn place_from(s: Seq<char>, lat: Option<u64>, lon: Option<u64>) -> Result<
    (u64, u64),
    Seq<char>,
> {
    match places_in(s) {
        Err(e) => Err(e),
        Ok(texts) => match (lat, lon) {
            (None, _) => Err("invalid latitude: "@ + texts.0),
            (_, None) => Err("invalid longitude: "@ + texts.1),
            (Some(a), Some(b)) => Ok((a, b)),
        },
    }
}

fn split_place(s: &str) -> (r: Result<(Vec<char>, Vec<char>), String>)
    ensures
        match r {
            Ok(x) => places_in(s@) == Ok::<(Seq<char>, Seq<char>), Seq<char>>((x.0@, x.1@)),
            Err(e) => places_in(s@) == Err::<(Seq<char>, Seq<char>), Seq<char>>(e@),
        },
{
    let v = t::chars_of(s);
    if t::starts_with(&v, &t::chars_of("stop:")) {
        return Err(t::copy_str("stop: references not yet supported, use lat,lon"));
    }
    let mut parts = t::split(&v, ',');
    let ghost pv = t::pieces_view(parts@);
    assert(pv.len() == parts@.len());
    if parts.len() != 2 {
        return Err(t::join("invalid location format: ", s));
    }
    assert(pv[0] == parts@[0]@ && pv[1] == parts@[1]@);
    let lon = parts.swap_remove(1);
    let lat = parts.swap_remove(0);
    Ok((lat, lon))
}

/// The texts of latitude and longitude, without white space around them.
pub fn coordinate_texts(s: &str) -> (r: Result<(String, String), String>)
    ensures
        match r {
            Ok(x) => places_in(s@) is Ok && x.0@ == t::trimmed((places_in(s@)->Ok_0).0) && x.1@
                == t::trimmed((places_in(s@)->Ok_0).1),
            Err(e) => places_in(s@) == Err::<(Seq<char>, Seq<char>), Seq<char>>(e@),
        },
{
    match split_place(s) {
        Ok((lat, lon)) => Ok((t::string_of(&t::trim(&lat)), t::string_of(&t::trim(&lon)))),
        Err(e) => Err(e),
    }
}

/// Reads a place. `lat` and `lon` are the numbers that `coordinate_texts` stand for, nothing where
/// a text is no number.
pub fn parse_location(s: &str, lat: Option<u64>, lon: Option<u64>) -> (r: Result<
    (u64, u64),
    String,
>)
    ensures
        match r {
            Ok(x) => place_from(s@, lat, lon) == Ok::<(u64, u64), Seq<char>>(x),
            Err(e) => place_from(s@, lat, lon) == Err::<(u64, u64), Seq<char>>(e@),
        },
{
    match split_place(s) {
        Err(e) => Err(e),
        Ok((lat_text, lon_text)) => match (lat, lon) {
            (None, _) => Err(
                t::join("invalid latitude: ", t::string_of(&lat_text).as_str()),
            ),
            (_, None) => Err(
                t::join("invalid longitude: ", t::string_of(&lon_text).as_str()),
            ),
            (Some(a), Some(b)) => Ok((a, b)),
        },
    }
}

// ---------------------------------------------------------------------------
// The whole request
// ---------------------------------------------------------------------------

/// When the trip begins: eight in the morning of no particular day if nothing is said.
pub open spec fn departure_in(depart_at: Option<Seq<char>>) -> Result<
    (int, int, Seq<char>),
    Seq<char>,
> {
    match depart_at {
        Some(s) => datetime_in(s),
        None => Ok((28800, 0, "2026-01-01"@)),
    }
}

/// What is wrong with a request, the first thing of several.
pub open spec fn request_error(
    req: PlanRequestInput,
    origin: (Option<u64>, Option<u64>),
    dest: (Option<u64>, Option<u64>),
) -> Option<Seq<char>> {
    match place_from(req.origin@, origin.0, origin.1) {
        Err(e) => Some(e),
        Ok(_) => match place_from(req.destination@, dest.0, dest.1) {
            Err(e) => Some(e),
            Ok(_) => match departure_in(t::text_of(req.depart_at)) {
                Err(e) => Some(e),
                Ok(_) => None,
            },
        },
    }
}

/// The request says what came in.
pub open spec fn understood(
    r: PlanRequest,
    req: PlanRequestInput,
    origin: (Option<u64>, Option<u64>),
    dest: (Option<u64>, Option<u64>),
) -> bool {
    &&& place_from(req.origin@, origin.0, origin.1) == Ok::<(u64, u64), Seq<char>>(
        (r.origin_lat, r.origin_lon),
    )
    &&& place_from(req.destination@, dest.0, dest.1) == Ok::<(u64, u64), Seq<char>>(
        (r.dest_lat, r.dest_lon),
    )
    &&& departure_in(t::text_of(req.depart_at)) == Ok::<(int, int, Seq<char>), Seq<char>>(
        (r.departure_time as int, r.service_day as int, r.date_str@),
    )
    &&& r.max_transfers == req.max_transfers
    &&& r.max_results == (match req.max_results {
        Some(n) => Some(n as usize),
        None => None,
    })
    &&& r.max_walk_distance == req.max_walk_distance
    &&& t::text_of(r.walking_speed) == t::text_of(req.walking_speed)
}

/// Makes a request of what came in. `origin` and `dest` are the numbers that the coordinates of
/// the two places stand for.
pub fn plan_request_from_input(
    req: PlanRequestInput,
    origin: (Option<u64>, Option<u64>),
    dest: (Option<u64>, Option<u64>),
) -> (r: Result<PlanRequest, String>)
    ensures
        match r {
            Ok(x) => understood(x, req, origin, dest) && request_error(req, origin, dest) is None,
            Err(e) => request_error(req, origin, dest) == Some(e@),
        },
{
    let (origin_lat, origin_lon) = match parse_location(req.origin.as_str(), origin.0, origin.1) {
        Ok(x) => x,
        Err(e) => return Err(e),
    };
    let (dest_lat, dest_lon) = match parse_location(req.destination.as_str(), dest.0, dest.1) {
        Ok(x) => x,
        Err(e) => return Err(e),
    };
    let (departure_time, service_day, date_str) = match &req.depart_at {
        Some(s) => match parse_datetime(s.as_str()) {
            Ok(x) => x,
            Err(e) => return Err(e),
        },
        None => (28800, 0, t::copy_str("2026-01-01")),
    };
    Ok(
        PlanRequest {
            origin_lat,
            origin_lon,
            dest_lat,
            dest_lon,
            departure_time,
            service_day,
            date_str,
            max_transfers: req.max_transfers,
            max_results: match req.max_results {
                Some(n) => Some(n as usize),
                None => None,
            },
            max_walk_distance: req.max_walk_distance,
            walking_speed: req.walking_speed,
        },
    )
}

} // verus!
