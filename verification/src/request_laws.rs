//! How dates, times and places in writing are understood.

use crate::calendar as cal;
use crate::feed as f;
use crate::planner as pl;
use crate::planner::WalkSpeed;
use crate::raptor::RaptorQuery;
use crate::request as rq;
use crate::request::{PlanRequest, PlanRequestInput};
use crate::text as t;
use vstd::prelude::*;

verus! {

/// A character does not occur.
pub open spec fn lacks(s: Seq<char>, c: char) -> bool {
    forall|i: int| 0 <= i < s.len() ==> s[i] != c
}

/// A day of a month of the years 1 to 9999.
pub open spec fn is_day(year: int, month: int, day: int) -> bool {
    1 <= year <= 9999 && 1 <= month <= 12 && 0 <= day <= 31
}

proof fn lemma_day_fits(year: int, month: int, day: int)
    requires
        is_day(year, month, day),
    ensures
        -800_000 <= cal::day_number(year, month, day) <= 4_000_000,
        cal::era_day_number(year, month, day) == cal::day_number(year, month, day),
{
    cal::day_counts_agree(year, month, day);
}

/// A date is year, month and day with hyphens between them. It is the number of that day, counted
/// from 1970 on.
pub proof fn dates_are_year_month_day(a: Seq<char>, b: Seq<char>, c: Seq<char>)
    requires
        lacks(a, '-'),
        lacks(b, '-'),
        lacks(c, '-'),
    ensures
        ({
            let r = rq::day_in(a + seq!['-'] + b + seq!['-'] + c);
            match (
                t::signed_decimal(a),
                t::decimal(b, 0xffff_ffff),
                t::decimal(c, 0xffff_ffff),
            ) {
                (None, _, _) => r == Err::<int, Seq<char>>("bad year"@),
                (_, None, _) => r == Err::<int, Seq<char>>("bad month"@),
                (_, _, None) => r == Err::<int, Seq<char>>("bad day"@),
                (Some(y), Some(m), Some(d)) => r is Ok && (is_day(y, m, d) ==> r->Ok_0
                    == cal::day_number(y, m, d)),
            }
        }),
{
    let s = a + seq!['-'] + b + seq!['-'] + c;
    t::lemma_split_whole(a, '-');
    t::lemma_split_join(a, '-', b);
    t::lemma_split_join(a + seq!['-'] + b, '-', c);
    assert(t::split_at(s, '-') =~= seq![a, b, c]);
    match (t::signed_decimal(a), t::decimal(b, 0xffff_ffff), t::decimal(c, 0xffff_ffff)) {
        (Some(y), Some(m), Some(d)) => {
            if is_day(y, m, d) {
                lemma_day_fits(y, m, d);
            }
        },
        _ => {},
    }
}

/// A date without two hyphens is none.
pub proof fn dates_have_three_parts(s: Seq<char>, b: Seq<char>)
    requires
        lacks(s, '-'),
        lacks(b, '-'),
    ensures
        rq::day_in(s) == Err::<int, Seq<char>>("invalid date: "@ + s),
        rq::day_in(s + seq!['-'] + b) == Err::<int, Seq<char>>(
            "invalid date: "@ + (s + seq!['-'] + b),
        ),
{
    t::lemma_split_whole(s, '-');
    t::lemma_split_join(s, '-', b);
}

/// Seconds since midnight.
pub open spec fn seconds(h: Seq<char>, m: Seq<char>, secs: int, r: Result<int, Seq<char>>) -> bool {
    match (t::decimal(h, 0xffff_ffff), t::decimal(m, 0xffff_ffff)) {
        (None, _) => r == Err::<int, Seq<char>>("bad hour"@),
        (_, None) => r == Err::<int, Seq<char>>("bad minute"@),
        (Some(x), Some(y)) => r is Ok && (x < 1000 && y < 1000 && 0 <= secs < 1000 ==> r->Ok_0
            == x * 3600 + y * 60 + secs),
    }
}

/// A time of day is hour and minute, perhaps with the second behind them. A fraction of a second
/// does not count, and a second that cannot be read is none.
pub proof fn clocks_are_hour_minute_second(
    h: Seq<char>,
    m: Seq<char>,
    s: Seq<char>,
    fraction: Seq<char>,
)
    requires
        lacks(h, ':'),
        lacks(m, ':'),
        lacks(s, ':'),
        lacks(s, '.'),
        lacks(fraction, ':'),
        lacks(fraction, '.'),
    ensures
        ({
            let secs = match t::decimal(s, 0xffff_ffff) {
                Some(x) => x,
                None => 0,
            };
            let two = h + seq![':'] + m;
            &&& seconds(h, m, 0, rq::clock_in(two))
            &&& seconds(h, m, secs, rq::clock_in(two + seq![':'] + s))
            &&& seconds(
                h,
                m,
                secs,
                rq::clock_in(two + seq![':'] + (s + seq!['.'] + fraction)),
            )
        }),
        rq::clock_in(h) == Err::<int, Seq<char>>("invalid time: "@ + h),
{
    let two = h + seq![':'] + m;
    let long = s + seq!['.'] + fraction;
    assert(lacks(long, ':'));
    t::lemma_split_whole(h, ':');
    t::lemma_split_join(h, ':', m);
    t::lemma_split_join(two, ':', s);
    t::lemma_split_join(two, ':', long);
    t::lemma_split_whole(s, '.');
    t::lemma_split_join(s, '.', fraction);
    assert(t::split_at(two, ':') =~= seq![h, m]);
    assert(t::split_at(two + seq![':'] + s, ':') =~= seq![h, m, s]);
    assert(t::split_at(two + seq![':'] + long, ':') =~= seq![h, m, long]);
    assert(t::split_at(long, '.')[0] == s);
    assert(t::split_at(s, '.')[0] == s);
    t::lemma_decimal_within(h, 0xffff_ffff);
    t::lemma_decimal_within(m, 0xffff_ffff);
    t::lemma_decimal_within(s, 0xffff_ffff);
}

/// A date and time are a date, a `T` and a time of day. The mark of universal time at the end
/// changes nothing. The date is kept as it is written.
pub proof fn datetimes_are_date_and_clock(date: Seq<char>, clock: Seq<char>)
    requires
        lacks(date, 'T'),
        lacks(clock, 'T'),
        date.len() > 0,
        clock.len() > 0,
        clock.last() != 'Z',
        !t::is_space(date[0]),
        !t::is_space(clock.last()),
    ensures
        ({
            let plain = date + seq!['T'] + clock;
            let r = rq::datetime_in(plain);
            &&& rq::datetime_in(plain.push('Z')) == r
            &&& match (rq::day_in(date), rq::clock_in(clock)) {
                (Err(e), _) => r == Err::<(int, int, Seq<char>), Seq<char>>(e),
                (Ok(_), Err(e)) => r == Err::<(int, int, Seq<char>), Seq<char>>(e),
                (Ok(day), Ok(secs)) => r == Ok::<(int, int, Seq<char>), Seq<char>>(
                    (secs, day % 0x1_0000, date),
                ),
            }
        }),
{
    let plain = date + seq!['T'] + clock;
    let marked = plain.push('Z');
    t::lemma_split_whole(date, 'T');
    t::lemma_split_join(date, 'T', clock);
    assert(t::split_at(plain, 'T') =~= seq![date, clock]);
    assert(plain[0] == date[0] && plain.last() == clock.last());
    t::lemma_trimmed(plain);
    t::lemma_trimmed(marked);
    assert(marked.drop_last() =~= plain);
    assert(rq::without_trailing(plain, 'Z') == plain);
}

/// A date in a feed is a year in four digits, and month and day in two. What follows does not
/// count. It is the number of that day, counted from 1970 on.
pub proof fn feed_dates_are_year_month_day(
    a: Seq<char>,
    b: Seq<char>,
    c: Seq<char>,
    rest: Seq<char>,
)
    requires
        a.len() == 4,
        b.len() == 2,
        c.len() == 2,
    ensures
        ({
            let r = f::date_in(a + b + c + rest);
            match (
                t::signed_decimal(a),
                t::decimal(b, 0xffff_ffff),
                t::decimal(c, 0xffff_ffff),
            ) {
                (Some(y), Some(m), Some(d)) => r is Some && (is_day(y, m, d) && cal::day_number(
                    y,
                    m,
                    d,
                ) >= 0 ==> r->0 == cal::day_number(y, m, d)),
                _ => r is None,
            }
        }),
        f::date_in(a + b) is None,
{
    let s = a + b + c + rest;
    assert(s.subrange(0, 4) =~= a);
    assert(s.subrange(4, 6) =~= b);
    assert(s.subrange(6, 8) =~= c);
    match (t::signed_decimal(a), t::decimal(b, 0xffff_ffff), t::decimal(c, 0xffff_ffff)) {
        (Some(y), Some(m), Some(d)) => {
            if is_day(y, m, d) {
                lemma_day_fits(y, m, d);
            }
        },
        _ => {},
    }
}

/// A color in a feed is the number that its hexadecimal digits stand for, after any number of
/// number signs. What is not made of such digits counts as black.
pub proof fn feed_colors_are_hexadecimal(s: Seq<char>)
    requires
        s.len() > 0,
        !t::is_space(s[0]),
        !t::is_space(s.last()),
        s[0] != '#',
    ensures
        f::color_in(seq!['#'] + s) == f::color_in(s),
        match t::number_in(s, 16, 0xffff_ffff) {
            Some(v) => f::color_in(s) == v as u32,
            None => f::color_in(s) == 0,
        },
{
    let marked = seq!['#'] + s;
    t::lemma_trimmed(s);
    assert(marked.last() == s.last());
    t::lemma_trimmed(marked);
    assert(marked.skip(1) =~= s);
    assert(f::without_leading(s, '#') == s);
    assert(f::without_leading(marked, '#') == f::without_leading(marked.skip(1), '#'));
}

// ---------------------------------------------------------------------------
// Places
// ---------------------------------------------------------------------------

/// A place is two texts with a comma between them, latitude first. Both must be numbers.
pub proof fn places_are_latitude_and_longitude(
    a: Seq<char>,
    b: Seq<char>,
    lat: Option<u64>,
    lon: Option<u64>,
)
    requires
        lacks(a, ','),
        lacks(b, ','),
        !t::begins_with(a + seq![','] + b, "stop:"@),
    ensures
        ({
            let s = a + seq![','] + b;
            let r = rq::place_from(s, lat, lon);
            &&& rq::places_in(s) == Ok::<(Seq<char>, Seq<char>), Seq<char>>((a, b))
            &&& match (lat, lon) {
                (None, _) => r == Err::<(u64, u64), Seq<char>>("invalid latitude: "@ + a),
                (Some(_), None) => r == Err::<(u64, u64), Seq<char>>("invalid longitude: "@ + b),
                (Some(x), Some(y)) => r == Ok::<(u64, u64), Seq<char>>((x, y)),
            }
        }),
{
    t::lemma_split_whole(a, ',');
    t::lemma_split_join(a, ',', b);
    assert(t::split_at(a + seq![','] + b, ',') =~= seq![a, b]);
}

/// A text with no comma, or with two, is no place.
pub proof fn other_texts_are_no_places(
    a: Seq<char>,
    b: Seq<char>,
    c: Seq<char>,
    lat: Option<u64>,
    lon: Option<u64>,
)
    requires
        lacks(a, ','),
        lacks(b, ','),
        lacks(c, ','),
    ensures
        ({
            let three = a + seq![','] + b + seq![','] + c;
            &&& !t::begins_with(a, "stop:"@) ==> rq::place_from(a, lat, lon) == Err::<
                (u64, u64),
                Seq<char>,
            >("invalid location format: "@ + a)
            &&& !t::begins_with(three, "stop:"@) ==> rq::place_from(three, lat, lon) == Err::<
                (u64, u64),
                Seq<char>,
            >("invalid location format: "@ + three)
        }),
{
    t::lemma_split_whole(a, ',');
    t::lemma_split_join(a, ',', b);
    t::lemma_split_join(a + seq![','] + b, ',', c);
}

/// A place cannot be given as a stop.
pub proof fn stops_are_no_places(rest: Seq<char>, lat: Option<u64>, lon: Option<u64>)
    ensures
        rq::place_from("stop:"@ + rest, lat, lon) == Err::<(u64, u64), Seq<char>>(
            "stop: references not yet supported, use lat,lon"@,
        ),
{
    let s = "stop:"@ + rest;
    assert(s.take("stop:"@.len() as int) =~= "stop:"@);
}

// ---------------------------------------------------------------------------
// Requests
// ---------------------------------------------------------------------------

/// A request leads from its origin to its destination and leaves when it says: at eight in the
/// morning if it says nothing. Its limits are taken over.
pub proof fn requests_are_taken_over(
    r: PlanRequest,
    req: PlanRequestInput,
    origin: (Option<u64>, Option<u64>),
    dest: (Option<u64>, Option<u64>),
)
    requires
        rq::understood(r, req, origin, dest),
    ensures
        origin == (Some(r.origin_lat), Some(r.origin_lon)),
        dest == (Some(r.dest_lat), Some(r.dest_lon)),
        match req.depart_at {
            Some(s) => rq::datetime_in(s@) == Ok::<(int, int, Seq<char>), Seq<char>>(
                (r.departure_time as int, r.service_day as int, r.date_str@),
            ),
            None => r.departure_time == 8 * 3600 && r.service_day == 0 && r.date_str@
                == "2026-01-01"@,
        },
        r.max_transfers == req.max_transfers,
        r.max_walk_distance == req.max_walk_distance,
        req.max_results is None ==> r.max_results is None,
        req.max_results is Some ==> r.max_results is Some && r.max_results->0
            == req.max_results->0,
        t::text_of(r.walking_speed) == t::text_of(req.walking_speed),
{
}

/// A request fails by its origin, else by its destination, else by its time, and only then.
pub proof fn requests_fail_by_their_parts(
    req: PlanRequestInput,
    origin: (Option<u64>, Option<u64>),
    dest: (Option<u64>, Option<u64>),
)
    ensures
        ({
            let e = rq::request_error(req, origin, dest);
            let a = rq::place_from(req.origin@, origin.0, origin.1);
            let b = rq::place_from(req.destination@, dest.0, dest.1);
            &&& a is Err ==> e == Some(a->Err_0)
            &&& a is Ok && b is Err ==> e == Some(b->Err_0)
            &&& a is Ok && b is Ok ==> match req.depart_at {
                Some(s) => match rq::datetime_in(s@) {
                    Err(x) => e == Some(x),
                    Ok(_) => e is None,
                },
                None => e is None,
            }
        }),
{
}

/// The search is asked for what the request says, from and to the stops within reach, with their
/// walking times. Three changes and fifteen results are allowed if the request does not say.
pub proof fn searches_follow_the_request(
    q: RaptorQuery,
    req: PlanRequest,
    origin_stops: Seq<(u32, u32, u32)>,
    dest_stops: Seq<(u32, u32, u32)>,
    i: int,
)
    requires
        pl::asks(q, req, origin_stops, dest_stops),
    ensures
        q.origin_stops@.len() == origin_stops.len(),
        q.dest_stops@.len() == dest_stops.len(),
        0 <= i < origin_stops.len() ==> q.origin_stops@[i].0 == origin_stops[i].0
            && q.origin_stops@[i].1 == origin_stops[i].1,
        0 <= i < dest_stops.len() ==> q.dest_stops@[i].0 == dest_stops[i].0
            && q.dest_stops@[i].1 == dest_stops[i].1,
        q.departure_time == req.departure_time,
        q.service_day == req.service_day,
        req.max_transfers is Some ==> q.max_transfers == req.max_transfers->0,
        req.max_transfers is None ==> q.max_transfers == 3,
        req.max_results is Some ==> q.max_results == req.max_results->0,
        req.max_results is None ==> q.max_results == 15,
{
}

/// A walking speed is slow, normal or fast if it is called so, normal if nothing is said, and
/// else what is said.
pub proof fn speeds_are_named_or_given(r: WalkSpeed, s: Seq<char>)
    ensures
        pl::speed_is(r, None) ==> r is Normal,
        pl::speed_is(r, Some("normal"@)) ==> r is Normal,
        pl::speed_is(r, Some("slow"@)) ==> r is Slow,
        pl::speed_is(r, Some("fast"@)) ==> r is Fast,
        s != "slow"@ && s != "normal"@ && s != "fast"@ && pl::speed_is(r, Some(s)) ==> r is Given
            && r->Given_0@ == s,
{
    reveal_strlit("normal");
    reveal_strlit("slow");
    reveal_strlit("fast");
    assert("normal"@.len() == 6 && "slow"@.len() == 4 && "fast"@.len() == 4);
    assert("slow"@[0] == 's' && "fast"@[0] == 'f');
}

} // verus!
