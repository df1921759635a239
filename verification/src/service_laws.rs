//! On which days the services of a feed run.

use crate::calendar as cal;
use crate::data::Service;
use crate::feed as f;
use crate::feed::{ServiceView, Tables};
use crate::pattern as pat;
use crate::pattern::EncodedService;
use crate::table as tab;
use crate::table::Table;
use crate::text as t;
use vstd::prelude::*;

verus! {

// ---------------------------------------------------------------------------
// Rows
// ---------------------------------------------------------------------------

/// Row `i` of the calendar dates is about a day of a service.
pub open spec fn dates(tb: Table, i: int, id: Seq<char>, day: u32) -> bool {
    &&& id.len() > 0
    &&& tb.field(i, "service_id"@) == id
    &&& f::date_in(tb.field(i, "date"@)) == Some(day)
}

/// Row `i` of the calendar dates adds a day to a service.
pub open spec fn adds(tb: Table, i: int, id: Seq<char>, day: u32) -> bool {
    dates(tb, i, id, day) && t::decimal(tb.field(i, "exception_type"@), 255) == Some(1int)
}

/// Row `i` of the calendar dates removes a day from a service.
pub open spec fn removes(tb: Table, i: int, id: Seq<char>, day: u32) -> bool {
    dates(tb, i, id, day) && t::decimal(tb.field(i, "exception_type"@), 255) == Some(2int)
}

/// Some of the first `n` rows adds the day.
pub open spec fn added(tb: Table, n: int, id: Seq<char>, day: u32) -> bool {
    exists|i: int| 0 <= i < n && #[trigger] adds(tb, i, id, day)
}

/// Some of the first `n` rows removes the day.
pub open spec fn removed(tb: Table, n: int, id: Seq<char>, day: u32) -> bool {
    exists|i: int| 0 <= i < n && #[trigger] removes(tb, i, id, day)
}

/// Row `c` of the calendar is the last of the first `n` about a service.
pub open spec fn last_about(tb: Table, n: int, id: Seq<char>, c: int) -> bool {
    &&& id.len() > 0
    &&& 0 <= c < n
    &&& tb.field(c, "service_id"@) == id
    &&& forall|i: int| c < i < n ==> #[trigger] tb.field(i, "service_id"@) != id
}

/// No two services have the same id.
pub open spec fn ids_apart(s: Seq<ServiceView>) -> bool {
    forall|a: int, b: int|
        0 <= a < b < s.len() ==> (#[trigger] s[a]).id != (#[trigger] s[b]).id
}

/// Some service has the id.
pub open spec fn known(s: Seq<ServiceView>, id: Seq<char>) -> bool {
    exists|k: int| 0 <= k < s.len() && (#[trigger] s[k]).id == id
}

proof fn lemma_position(s: Seq<ServiceView>, id: Seq<char>, from: int)
    requires
        0 <= from <= s.len(),
        forall|k: int| 0 <= k < from ==> (#[trigger] s[k]).id != id,
    ensures
        match tab::position(f::service_ids(s), id, from) {
            Some(k) => 0 <= k < s.len() && s[k].id == id,
            None => forall|k: int| 0 <= k < s.len() ==> (#[trigger] s[k]).id != id,
        },
    decreases s.len() - from,
{
    let ids = f::service_ids(s);
    if from < s.len() {
        assert(ids[from] == s[from].id);
        if ids[from] != id {
            lemma_position(s, id, from + 1);
        }
    }
}

// ---------------------------------------------------------------------------
// The calendar
// ---------------------------------------------------------------------------

/// A service as row `c` of the calendar has it.
pub open spec fn as_row(s: ServiceView, tb: Table, c: int) -> bool {
    &&& s.id == tb.field(c, "service_id"@)
    &&& s.days.len() == 7
    &&& s.days[0] <==> tb.field(c, "monday"@) == "1"@
    &&& s.days[1] <==> tb.field(c, "tuesday"@) == "1"@
    &&& s.days[2] <==> tb.field(c, "wednesday"@) == "1"@
    &&& s.days[3] <==> tb.field(c, "thursday"@) == "1"@
    &&& s.days[4] <==> tb.field(c, "friday"@) == "1"@
    &&& s.days[5] <==> tb.field(c, "saturday"@) == "1"@
    &&& s.days[6] <==> tb.field(c, "sunday"@) == "1"@
}

/// The first and the last day of row `c` of the calendar; a date that cannot be read counts as the
/// first day of all.
pub open spec fn row_days(tb: Table, c: int) -> (u32, u32) {
    (
        match f::date_in(tb.field(c, "start_date"@)) {
            Some(d) => d,
            None => 0,
        },
        match f::date_in(tb.field(c, "end_date"@)) {
            Some(d) => d,
            None => 0,
        },
    )
}

/// The service is as the last of the first `n` rows of the calendar about it says.
spec fn from_calendar(tb: Table, n: int, x: ServiceView) -> bool {
    &&& x.additions.len() == 0
    &&& x.removals.len() == 0
    &&& exists|c: int| #[trigger]
        last_about(tb, n, x.id, c) && as_row(x, tb, c) && (x.start, x.end) == row_days(tb, c)
}

proof fn lemma_still_last(tb: Table, n: int, x: ServiceView)
    requires
        n > 0,
        from_calendar(tb, n - 1, x),
        tb.field(n - 1, "service_id"@) != x.id,
    ensures
        from_calendar(tb, n, x),
{
    let c = choose|c: int| #[trigger]
        last_about(tb, n - 1, x.id, c) && as_row(x, tb, c) && (x.start, x.end) == row_days(tb, c);
    assert(last_about(tb, n, x.id, c));
}

/// The services of the first `n` rows of the calendar: one for each id, as the last row about it
/// says.
proof fn lemma_calendar(tb: Table, n: int)
    requires
        0 <= n,
    ensures
        ({
            let s = f::services_in(tb, n);
            &&& ids_apart(s)
            &&& forall|k: int| 0 <= k < s.len() ==> from_calendar(tb, n, #[trigger] s[k])
            &&& forall|i: int|
                0 <= i < n && tb.field(i, "service_id"@).len() > 0 ==> known(
                    s,
                    #[trigger] tb.field(i, "service_id"@),
                )
        }),
    decreases n,
{
    let s = f::services_in(tb, n);
    if n > 0 {
        lemma_calendar(tb, n - 1);
        let before = f::services_in(tb, n - 1);
        let row = f::service_at(tb, n - 1);
        let id = tb.field(n - 1, "service_id"@);
        if id.len() > 0 {
            lemma_row(tb, n - 1);
            lemma_position(before, id, 0);
            let at = tab::position(f::service_ids(before), id, 0);
            let spot = match at {
                Some(k) => k,
                None => before.len() as int,
            };
            assert(s[spot] == row);
            assert(last_about(tb, n, id, n - 1));
            assert(from_calendar(tb, n, row));
            assert forall|k: int| 0 <= k < s.len() implies from_calendar(tb, n, #[trigger] s[k]) by {
                if k != spot {
                    assert(s[k] == before[k]);
                    assert(from_calendar(tb, n - 1, before[k]));
                    if at is Some {
                        if k < spot {
                            assert(before[k].id != before[spot].id);
                        } else {
                            assert(before[spot].id != before[k].id);
                        }
                    }
                    lemma_still_last(tb, n, s[k]);
                }
            }
            assert forall|i: int| 0 <= i < n && tb.field(i, "service_id"@).len() > 0 implies known(
                s,
                #[trigger] tb.field(i, "service_id"@),
            ) by {
                let want = tb.field(i, "service_id"@);
                if want == id {
                    assert(s[spot].id == want);
                } else {
                    assert(known(before, want));
                    let k = choose|k: int| 0 <= k < before.len() && (#[trigger] before[k]).id == want;
                    assert(s[k].id == want);
                }
            }
        } else {
            assert forall|k: int| 0 <= k < s.len() implies from_calendar(tb, n, #[trigger] s[k]) by {
                assert(from_calendar(tb, n - 1, before[k]));
                assert(s[k].id.len() > 0);
                lemma_still_last(tb, n, s[k]);
            }
        }
    }
}

proof fn lemma_row(tb: Table, c: int)
    ensures
        as_row(f::service_at(tb, c), tb, c),
        (f::service_at(tb, c).start, f::service_at(tb, c).end) == row_days(tb, c),
{
    assert(f::weekday_name(0) == "monday"@);
    assert(f::weekday_name(1) == "tuesday"@);
    assert(f::weekday_name(2) == "wednesday"@);
    assert(f::weekday_name(3) == "thursday"@);
    assert(f::weekday_name(4) == "friday"@);
    assert(f::weekday_name(5) == "saturday"@);
    assert(f::weekday_name(6) == "sunday"@);
}

// ---------------------------------------------------------------------------
// Exceptions
// ---------------------------------------------------------------------------

/// The service reaches from the first to the last of a span and the days added to it, and no
/// further.
pub open spec fn spans(s: ServiceView, start: u32, end: u32) -> bool {
    &&& s.start <= start
    &&& s.end >= end
    &&& s.start == start || s.additions.contains(s.start)
    &&& s.end == end || s.additions.contains(s.end)
    &&& forall|d: u32| #[trigger] s.additions.contains(d) ==> s.start <= d <= s.end
}

/// What the first `n` rows of the calendar dates make of service `k`: the days that they add and
/// remove, over the base that the calendar gives, or none.
spec fn excepted(tb: Table, base: Seq<ServiceView>, n: int, s: Seq<ServiceView>, k: int) -> bool {
    let x = s[k];
    &&& forall|d: u32| #[trigger] x.additions.contains(d) <==> added(tb, n, x.id, d)
    &&& forall|d: u32| #[trigger] x.removals.contains(d) <==> removed(tb, n, x.id, d)
    &&& k < base.len() ==> x.id == base[k].id && x.days == base[k].days && spans(
        x,
        base[k].start,
        base[k].end,
    )
    &&& k >= base.len() ==> {
        &&& !known(base, x.id)
        &&& x.days == Seq::new(7, |i: int| false)
        &&& exists|i: int, d: u32| 0 <= i < n && #[trigger] dates(tb, i, x.id, d) && spans(x, d, d)
    }
}

proof fn lemma_with(x: f::ServiceView, day: u32, kind: int, d: u32)
    ensures
        ({
            let y = f::with_exception(x, day, kind);
            &&& y.id == x.id
            &&& y.days == x.days
            &&& y.additions.contains(d) <==> x.additions.contains(d) || (kind == 1 && d == day)
            &&& y.removals.contains(d) <==> x.removals.contains(d) || (kind == 2 && d == day)
        }),
{
    let y = f::with_exception(x, day, kind);
    if kind == 1 {
        lemma_push_contains(x.additions, day, d);
    } else if kind == 2 {
        lemma_push_contains(x.removals, day, d);
    }
}

proof fn lemma_push_contains(s: Seq<u32>, x: u32, d: u32)
    ensures
        s.push(x).contains(d) <==> s.contains(d) || d == x,
{
    if s.contains(d) {
        let i = choose|i: int| 0 <= i < s.len() && s[i] == d;
        assert(s.push(x)[i] == d);
    }
    if s.push(x).contains(d) {
        let i = choose|i: int| 0 <= i < s.push(x).len() && s.push(x)[i] == d;
        if i < s.len() {
            assert(s[i] == d);
        }
    }
    assert(s.push(x)[s.len() as int] == x);
}

proof fn lemma_spans(x: ServiceView, day: u32, kind: int, start: u32, end: u32)
    requires
        spans(x, start, end),
    ensures
        spans(f::with_exception(x, day, kind), start, end),
{
    let y = f::with_exception(x, day, kind);
    lemma_with(x, day, kind, y.start);
    lemma_with(x, day, kind, y.end);
    lemma_with(x, day, kind, x.start);
    lemma_with(x, day, kind, x.end);
    assert forall|d: u32| #[trigger] y.additions.contains(d) implies y.start <= d <= y.end by {
        lemma_with(x, day, kind, d);
        if x.additions.contains(d) {
            assert(x.start <= d <= x.end);
        }
    }
}

/// One more row.
proof fn lemma_more(tb: Table, n: int, id: Seq<char>, d: u32)
    requires
        n > 0,
    ensures
        added(tb, n, id, d) <==> added(tb, n - 1, id, d) || adds(tb, n - 1, id, d),
        removed(tb, n, id, d) <==> removed(tb, n - 1, id, d) || removes(tb, n - 1, id, d),
{
    if added(tb, n - 1, id, d) {
        let i = choose|i: int| 0 <= i < n - 1 && #[trigger] adds(tb, i, id, d);
        assert(adds(tb, i, id, d));
    }
    if removed(tb, n - 1, id, d) {
        let i = choose|i: int| 0 <= i < n - 1 && #[trigger] removes(tb, i, id, d);
        assert(removes(tb, i, id, d));
    }
    if added(tb, n, id, d) && !adds(tb, n - 1, id, d) {
        let i = choose|i: int| 0 <= i < n && #[trigger] adds(tb, i, id, d);
        assert(adds(tb, i, id, d) && i < n - 1);
    }
    if removed(tb, n, id, d) && !removes(tb, n - 1, id, d) {
        let i = choose|i: int| 0 <= i < n && #[trigger] removes(tb, i, id, d);
        assert(removes(tb, i, id, d) && i < n - 1);
    }
}

/// The service that is not touched by a row.
proof fn lemma_untouched(
    tb: Table,
    base: Seq<ServiceView>,
    n: int,
    before: Seq<ServiceView>,
    s: Seq<ServiceView>,
    k: int,
)
    requires
        n > 0,
        excepted(tb, base, n - 1, before, k),
        0 <= k < before.len(),
        s[k] == before[k],
        forall|d: u32| !#[trigger] adds(tb, n - 1, s[k].id, d),
        forall|d: u32| !#[trigger] removes(tb, n - 1, s[k].id, d),
    ensures
        excepted(tb, base, n, s, k),
{
    let x = s[k];
    assert forall|d: u32| #[trigger] x.additions.contains(d) <==> added(tb, n, x.id, d) by {
        lemma_more(tb, n, x.id, d);
    }
    assert forall|d: u32| #[trigger] x.removals.contains(d) <==> removed(tb, n, x.id, d) by {
        lemma_more(tb, n, x.id, d);
    }
    if k >= base.len() {
        let (i, d) = choose|i: int, d: u32|
            0 <= i < n - 1 && #[trigger] dates(tb, i, x.id, d) && spans(x, d, d);
        assert(dates(tb, i, x.id, d) && i < n);
    }
}

/// The service that a row is about.
proof fn lemma_touched(
    tb: Table,
    base: Seq<ServiceView>,
    n: int,
    before: Seq<ServiceView>,
    s: Seq<ServiceView>,
    k: int,
    day: u32,
)
    requires
        n > 0,
        0 <= k < s.len(),
        dates(tb, n - 1, s[k].id, day),
        ({
            let kind = f::number_or(tb.field(n - 1, "exception_type"@), 255, 0);
            if k < before.len() {
                excepted(tb, base, n - 1, before, k) && s[k] == f::with_exception(
                    before[k],
                    day,
                    kind,
                )
            } else {
                &&& k >= base.len()
                &&& !known(base, s[k].id)
                &&& forall|d: u32| !#[trigger] added(tb, n - 1, s[k].id, d)
                &&& forall|d: u32| !#[trigger] removed(tb, n - 1, s[k].id, d)
                &&& s[k] == f::with_exception(f::idle_service(s[k].id, day), day, kind)
            }
        }),
    ensures
        excepted(tb, base, n, s, k),
{
    let x = s[k];
    let kind = f::number_or(tb.field(n - 1, "exception_type"@), 255, 0);
    let old = if k < before.len() {
        before[k]
    } else {
        f::idle_service(x.id, day)
    };
    lemma_with(old, day, kind, day);
    assert forall|d: u32| #[trigger] x.additions.contains(d) <==> added(tb, n, x.id, d) by {
        lemma_more(tb, n, x.id, d);
        lemma_with(old, day, kind, d);
        assert(old.additions.contains(d) <==> added(tb, n - 1, x.id, d));
        assert(adds(tb, n - 1, x.id, d) <==> kind == 1 && d == day);
    }
    assert forall|d: u32| #[trigger] x.removals.contains(d) <==> removed(tb, n, x.id, d) by {
        lemma_more(tb, n, x.id, d);
        lemma_with(old, day, kind, d);
        assert(old.removals.contains(d) <==> removed(tb, n - 1, x.id, d));
        assert(removes(tb, n - 1, x.id, d) <==> kind == 2 && d == day);
    }
    if k < base.len() {
        lemma_spans(old, day, kind, base[k].start, base[k].end);
    } else if k < before.len() {
        let (i, d) = choose|i: int, d: u32|
            0 <= i < n - 1 && #[trigger] dates(tb, i, x.id, d) && spans(old, d, d);
        lemma_spans(old, day, kind, d, d);
        assert(dates(tb, i, x.id, d) && i < n);
    } else {
        assert(spans(old, day, day));
        lemma_spans(old, day, kind, day, day);
        assert(dates(tb, n - 1, x.id, day));
    }
}

/// Rows about unknown services except nothing.
proof fn lemma_unknown(tb: Table, n: int, s: Seq<ServiceView>, id: Seq<char>)
    requires
        !known(s, id),
        forall|i: int, d: u32| 0 <= i < n && #[trigger] dates(tb, i, tb.field(i, "service_id"@), d) ==> known(
            s,
            tb.field(i, "service_id"@),
        ),
    ensures
        forall|d: u32| !#[trigger] added(tb, n, id, d),
        forall|d: u32| !#[trigger] removed(tb, n, id, d),
{
    assert forall|d: u32| !#[trigger] added(tb, n, id, d) by {
        if added(tb, n, id, d) {
            let i = choose|i: int| 0 <= i < n && #[trigger] adds(tb, i, id, d);
            assert(dates(tb, i, tb.field(i, "service_id"@), d));
        }
    }
    assert forall|d: u32| !#[trigger] removed(tb, n, id, d) by {
        if removed(tb, n, id, d) {
            let i = choose|i: int| 0 <= i < n && #[trigger] removes(tb, i, id, d);
            assert(dates(tb, i, tb.field(i, "service_id"@), d));
        }
    }
}

proof fn lemma_exceptions(tb: Table, base: Seq<ServiceView>, n: int)
    requires
        0 <= n,
        ids_apart(base),
        forall|k: int|
            0 <= k < base.len() ==> (#[trigger] base[k]).additions.len() == 0
                && base[k].removals.len() == 0,
    ensures
        ({
            let s = f::exceptions_in(tb, base, n);
            &&& ids_apart(s)
            &&& s.len() >= base.len()
            &&& forall|k: int| 0 <= k < s.len() ==> #[trigger] excepted(tb, base, n, s, k)
            &&& forall|k: int|
                0 <= k < base.len() ==> known(s, (#[trigger] base[k]).id)
            &&& forall|i: int, d: u32|
                0 <= i < n && #[trigger] dates(tb, i, tb.field(i, "service_id"@), d) ==> known(
                    s,
                    tb.field(i, "service_id"@),
                )
        }),
    decreases n,
{
    let s = f::exceptions_in(tb, base, n);
    if n == 0 {
        assert forall|k: int| 0 <= k < s.len() implies #[trigger] excepted(tb, base, n, s, k) by {
            let x = s[k];
            assert forall|d: u32| #[trigger] x.additions.contains(d) <==> added(tb, n, x.id, d) by {}
        }
        assert forall|k: int| 0 <= k < base.len() implies known(s, (#[trigger] base[k]).id) by {
            assert(s[k].id == base[k].id);
        }
    } else {
        lemma_exceptions(tb, base, n - 1);
        let before = f::exceptions_in(tb, base, n - 1);
        let id = tb.field(n - 1, "service_id"@);
        match f::date_in(tb.field(n - 1, "date"@)) {
            Some(day) if id.len() > 0 => {
                assert(dates(tb, n - 1, id, day));
                lemma_position(before, id, 0);
                let at = tab::position(f::service_ids(before), id, 0);
                let spot = match at {
                    Some(k) => k,
                    None => before.len() as int,
                };
                let kind = f::number_or(tb.field(n - 1, "exception_type"@), 255, 0);
                if at is Some {
                    lemma_with(before[spot], day, kind, day);
                } else {
                    lemma_with(f::idle_service(id, day), day, kind, day);
                    lemma_unknown(tb, n - 1, before, id);
                    assert(!known(base, id)) by {
                        if known(base, id) {
                            let k = choose|k: int|
                                0 <= k < base.len() && (#[trigger] base[k]).id == id;
                            assert(known(before, base[k].id));
                        }
                    }
                }
                assert(s[spot].id == id);
                assert forall|k: int| 0 <= k < s.len() implies #[trigger] excepted(
                    tb,
                    base,
                    n,
                    s,
                    k,
                ) by {
                    if k == spot {
                        if at is Some {
                            assert(excepted(tb, base, n - 1, before, k));
                        }
                        lemma_touched(tb, base, n, before, s, k, day);
                    } else {
                        assert(excepted(tb, base, n - 1, before, k));
                        assert(s[k] == before[k]);
                        if at is Some {
                            assert(before[k].id != before[spot].id);
                        }
                        lemma_untouched(tb, base, n, before, s, k);
                    }
                }
                assert forall|k: int| 0 <= k < base.len() implies known(
                    s,
                    (#[trigger] base[k]).id,
                ) by {
                    assert(excepted(tb, base, n, s, k));
                    assert(s[k].id == base[k].id);
                }
                assert forall|i: int, d: u32|
                    0 <= i < n && #[trigger] dates(tb, i, tb.field(i, "service_id"@), d) implies known(
                    s,
                    tb.field(i, "service_id"@),
                ) by {
                    let want = tb.field(i, "service_id"@);
                    if want == id {
                        assert(s[spot].id == want);
                    } else {
                        assert(known(before, want));
                        let k = choose|k: int|
                            0 <= k < before.len() && (#[trigger] before[k]).id == want;
                        assert(s[k].id == want);
                    }
                }
            },
            _ => {
                assert forall|k: int| 0 <= k < s.len() implies #[trigger] excepted(
                    tb,
                    base,
                    n,
                    s,
                    k,
                ) by {
                    assert(excepted(tb, base, n - 1, before, k));
                    lemma_untouched(tb, base, n, before, s, k);
                }
            },
        }
    }
}

// ---------------------------------------------------------------------------
// What holds of the feed
// ---------------------------------------------------------------------------

/// A service of a feed is what its rows say: the weekdays of the last row of the calendar about it,
/// none if there is none, and exactly the days that the calendar dates add and remove. It reaches
/// from the first to the last day of that row, or from the day of a row of the calendar dates if
/// there is none, and over every day that is added.
pub open spec fn service_said(tb: Tables, s: ServiceView) -> bool {
    let rows = tb.calendar_dates.rows.len() as int;
    &&& forall|d: u32| #[trigger]
        s.additions.contains(d) <==> added(tb.calendar_dates, rows, s.id, d)
    &&& forall|d: u32| #[trigger]
        s.removals.contains(d) <==> removed(tb.calendar_dates, rows, s.id, d)
    &&& (exists|c: int| #[trigger]
        last_about(tb.calendar, tb.calendar.rows.len() as int, s.id, c) && as_row(
            s,
            tb.calendar,
            c,
        ) && spans(s, row_days(tb.calendar, c).0, row_days(tb.calendar, c).1)) || ({
        &&& forall|c: int|
            0 <= c < tb.calendar.rows.len() ==> #[trigger] tb.calendar.field(c, "service_id"@)
                != s.id
        &&& s.days == Seq::new(7, |i: int| false)
        &&& exists|i: int, d: u32|
            0 <= i < rows && #[trigger] dates(tb.calendar_dates, i, s.id, d) && spans(s, d, d)
    })
}

/// The services of a feed are those that the calendar and the calendar dates name, each once and as
/// their rows say.
pub proof fn services_are_as_said(tb: Tables)
    ensures
        ({
            let s = f::plain_feed(tb).services;
            &&& ids_apart(s)
            &&& forall|k: int| 0 <= k < s.len() ==> service_said(tb, #[trigger] s[k])
            &&& forall|c: int|
                0 <= c < tb.calendar.rows.len() && tb.calendar.field(c, "service_id"@).len() > 0
                    ==> known(s, #[trigger] tb.calendar.field(c, "service_id"@))
            &&& forall|i: int, id: Seq<char>, d: u32|
                0 <= i < tb.calendar_dates.rows.len() && #[trigger] dates(
                    tb.calendar_dates,
                    i,
                    id,
                    d,
                ) ==> known(s, id)
        }),
{
    let n = tb.calendar.rows.len() as int;
    let rows = tb.calendar_dates.rows.len() as int;
    let base = f::services_in(tb.calendar, n);
    let s = f::plain_feed(tb).services;
    lemma_calendar(tb.calendar, n);
    assert forall|k: int| 0 <= k < base.len() implies (#[trigger] base[k]).additions.len() == 0
        && base[k].removals.len() == 0 by {
        assert(from_calendar(tb.calendar, n, base[k]));
    }
    lemma_exceptions(tb.calendar_dates, base, rows);
    assert forall|k: int| 0 <= k < s.len() implies service_said(tb, #[trigger] s[k]) by {
        assert(excepted(tb.calendar_dates, base, rows, s, k));
        if k < base.len() {
            let x = base[k];
            assert(from_calendar(tb.calendar, n, x));
            let c = choose|c: int| #[trigger]
                last_about(tb.calendar, n, x.id, c) && as_row(x, tb.calendar, c) && (x.start, x.end)
                    == row_days(tb.calendar, c);
            assert(last_about(tb.calendar, n, s[k].id, c) && as_row(s[k], tb.calendar, c));
        } else {
            assert forall|c: int| 0 <= c < n implies #[trigger] tb.calendar.field(
                c,
                "service_id"@,
            ) != s[k].id by {
                let id = tb.calendar.field(c, "service_id"@);
                let (i, d) = choose|i: int, d: u32|
                    0 <= i < rows && #[trigger] dates(tb.calendar_dates, i, s[k].id, d) && spans(
                        s[k],
                        d,
                        d,
                    );
                assert(dates(tb.calendar_dates, i, s[k].id, d));
                if id.len() > 0 {
                    assert(known(base, id));
                }
            }
        }
    }
    assert forall|c: int|
        0 <= c < n && tb.calendar.field(c, "service_id"@).len() > 0 implies known(
        s,
        #[trigger] tb.calendar.field(c, "service_id"@),
    ) by {
        let id = tb.calendar.field(c, "service_id"@);
        assert(known(base, id));
        let k = choose|k: int| 0 <= k < base.len() && (#[trigger] base[k]).id == id;
        assert(known(s, base[k].id));
    }
    assert forall|i: int, id: Seq<char>, d: u32|
        0 <= i < rows && #[trigger] dates(tb.calendar_dates, i, id, d) implies known(s, id) by {
        assert(dates(tb.calendar_dates, i, tb.calendar_dates.field(i, "service_id"@), d));
    }
}

/// A service that was encoded and stored runs on a day if and only if the day is within its reach,
/// is one of its weekdays or was added, and was not removed.
pub proof fn services_run_as_said(
    tb: Tables,
    k: int,
    e: EncodedService,
    stored: Service,
    day: u16,
)
    requires
        0 <= k < f::plain_feed(tb).services.len(),
        pat::encodes(e, f::plain_feed(tb).services[k]),
        stored.start_date == e.start_epoch_days,
        stored.day_bits@ == e.day_bits@,
    ensures
        ({
            let s = f::plain_feed(tb).services[k];
            let rows = tb.calendar_dates.rows.len() as int;
            let within = s.start <= day && (day <= s.end || day == s.start);
            stored.runs(day as int) <==> within && (s.days[(day + 3) % 7] || added(
                tb.calendar_dates,
                rows,
                s.id,
                day as u32,
            )) && !removed(tb.calendar_dates, rows, s.id, day as u32)
        }),
{
    let s = f::plain_feed(tb).services[k];
    services_are_as_said(tb);
    pat::encoded_service_runs(e, s, stored, day);
    assert(service_said(tb, s));
    assert(s.additions.contains(day as u32) <==> added(
        tb.calendar_dates,
        tb.calendar_dates.rows.len() as int,
        s.id,
        day as u32,
    ));
    assert(s.removals.contains(day as u32) <==> removed(
        tb.calendar_dates,
        tb.calendar_dates.rows.len() as int,
        s.id,
        day as u32,
    ));
}

/// A day that a row of the calendar dates adds to a service and none removes is within the reach of
/// the service, and the service runs on it once it was encoded and stored. On a day that a row
/// removes it never runs.
pub proof fn exceptions_decide(
    tb: Tables,
    i: int,
    id: Seq<char>,
    k: int,
    e: EncodedService,
    stored: Service,
    day: u16,
)
    requires
        0 <= i < tb.calendar_dates.rows.len(),
        0 <= k < f::plain_feed(tb).services.len(),
        f::plain_feed(tb).services[k].id == id,
        pat::encodes(e, f::plain_feed(tb).services[k]),
        stored.start_date == e.start_epoch_days,
        stored.day_bits@ == e.day_bits@,
    ensures
        adds(tb.calendar_dates, i, id, day as u32) && (forall|r: int|
            0 <= r < tb.calendar_dates.rows.len() ==> !#[trigger] removes(
                tb.calendar_dates,
                r,
                id,
                day as u32,
            )) ==> stored.runs(day as int) && f::plain_feed(tb).services[k].start <= day
            <= f::plain_feed(tb).services[k].end,
        removes(tb.calendar_dates, i, id, day as u32) ==> !stored.runs(day as int),
{
    let s = f::plain_feed(tb).services[k];
    services_are_as_said(tb);
    services_run_as_said(tb, k, e, stored, day);
    assert(service_said(tb, s));
    if adds(tb.calendar_dates, i, id, day as u32) {
        assert(s.additions.contains(day as u32));
    }
}

/// The days of the week follow each other, and begin with a Thursday on 1970-01-01.
pub proof fn weekdays_follow_each_other(day: int)
    requires
        day >= 0,
    ensures
        cal::weekday(0) == 3,
        0 <= cal::weekday(day) < 7,
        cal::weekday(day + 1) == (if cal::weekday(day) == 6 {
            0
        } else {
            cal::weekday(day) + 1
        }),
{
}

} // verus!
