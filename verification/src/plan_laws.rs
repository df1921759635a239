//! What every plan keeps.

use crate::data::{Stop, TransitData, NOT_SET};
use crate::feed as f;
use crate::planner as pl;
use crate::planner::{JourneyWalksView, StopWalkView};
use crate::raptor::{RaptorLeg, RaptorQuery};
use crate::raptor_model as m;
use crate::raptor_model::JourneyView;
use crate::raptor_sound as sound;
use crate::request as rq;
use crate::request::PlanRequest;
use crate::text as t;
use crate::types::{LatLon, LegView};
use vstd::prelude::*;

verus! {

/// A place by its coordinate, and by the id and the name of the stop if it is one.
pub struct Place {
    pub at: LatLon,
    pub id: Option<Seq<char>>,
    pub name: Option<Seq<char>>,
}

/// Where a leg begins.
pub open spec fn begins_at(leg: LegView) -> Place {
    match leg {
        LegView::Walk(w) => Place {
            at: (w.from->0).location,
            id: (w.from->0).stop_id,
            name: (w.from->0).address,
        },
        LegView::Transit(options) => Place {
            at: options[0].from.location,
            id: options[0].from.stop_id,
            name: options[0].from.stop_name,
        },
        LegView::Wait(_) => arbitrary(),
    }
}

/// Where a leg ends.
pub open spec fn ends_at(leg: LegView) -> Place {
    match leg {
        LegView::Walk(w) => Place {
            at: (w.to->0).location,
            id: (w.to->0).stop_id,
            name: (w.to->0).address,
        },
        LegView::Transit(options) => Place {
            at: options[0].to.location,
            id: options[0].to.stop_id,
            name: options[0].to.stop_name,
        },
        LegView::Wait(_) => arbitrary(),
    }
}

pub open spec fn place_of(s: Stop) -> Place {
    Place { at: pl::at_stop(s), id: Some(s.id@), name: Some(s.name@) }
}

/// Every leg begins where the one before it ends.
pub open spec fn joined(legs: Seq<LegView>) -> bool {
    forall|k: int, l: int|
        0 <= k && l == k + 1 && l < legs.len() ==> ends_at(#[trigger] legs[k]) == begins_at(
            #[trigger] legs[l],
        )
}

proof fn lemma_push_joined(legs: Seq<LegView>, x: LegView)
    requires
        joined(legs),
        legs.len() > 0 ==> ends_at(legs.last()) == begins_at(x),
    ensures
        joined(legs.push(x)),
{
    let out = legs.push(x);
    assert forall|k: int, l: int| 0 <= k && l == k + 1 && l < out.len() implies ends_at(
        #[trigger] out[k],
    ) == begins_at(#[trigger] out[l]) by {
        if l < legs.len() {
            assert(ends_at(legs[k]) == begins_at(legs[l]));
        }
    }
}

proof fn lemma_rides_joined(
    data: TransitData,
    date: Seq<char>,
    legs: Seq<RaptorLeg>,
    walks: Seq<StopWalkView>,
    n: int,
)
    requires
        1 <= n <= legs.len(),
    ensures
        pl::rides(data, date, legs, walks, n).len() > 0,
        joined(pl::rides(data, date, legs, walks, n)),
        begins_at(pl::rides(data, date, legs, walks, n)[0]) == place_of(
            data.stops@[pl::board_stop(data, legs[0]) as int],
        ),
        ends_at(pl::rides(data, date, legs, walks, n).last()) == place_of(
            data.stops@[pl::alight_stop(data, legs[n - 1]) as int],
        ),
    decreases n,
{
    let before = pl::rides(data, date, legs, walks, n - 1);
    let leg = legs[n - 1];
    let ride = LegView::Transit(seq![pl::route_option(data, date, leg)]);
    assert(begins_at(ride) == place_of(data.stops@[pl::board_stop(data, leg) as int]));
    assert(ends_at(ride) == place_of(data.stops@[pl::alight_stop(data, leg) as int]));
    if n > 1 {
        lemma_rides_joined(data, date, legs, walks, n - 1);
        if pl::walks_before(data, legs, n - 1) {
            let all = pl::rides(data, date, legs, walks, n);
            let walk = all[all.len() - 2];
            assert(all =~= before.push(walk).push(ride));
            lemma_push_joined(before, walk);
            lemma_push_joined(before.push(walk), ride);
        } else {
            lemma_push_joined(before, ride);
        }
    } else {
        lemma_push_joined(before, ride);
    }
}

/// Every leg of a plan that answers a query begins where the one before it ends: the walk to the
/// first stop ends where the first ride begins, and the walk to the destination begins where the
/// last ride, or the walk after it, ends.
pub proof fn legs_meet(
    data: TransitData,
    query: RaptorQuery,
    i: int,
    req: PlanRequest,
    origin_stops: Seq<(u32, u32, u32)>,
    dest_stops: Seq<(u32, u32, u32)>,
    walks: JourneyWalksView,
)
    requires
        0 <= i < m::answer(data, query).len(),
    ensures
        joined(
            pl::plan_of(
                data,
                req,
                m::answer(data, query)[i],
                origin_stops,
                dest_stops,
                walks,
            ).legs,
        ),
{
    let j = m::answer(data, query)[i];
    sound::journeys_begin_and_end_at_stops(data, query, i);
    let n = j.legs.len() as int;
    let date = req.date_str@;
    let ridden = pl::rides(data, date, j.legs, walks.between, n);
    lemma_rides_joined(data, date, j.legs, walks.between, n);
    let start = if j.access_walk_secs > 0 {
        seq![pl::access_leg(data, req, j, origin_stops, walks)]
    } else {
        Seq::empty()
    };
    let first = start + ridden;
    assert(joined(first)) by {
        assert forall|k: int, l: int| 0 <= k && l == k + 1 && l < first.len() implies ends_at(
            #[trigger] first[k],
        ) == begins_at(#[trigger] first[l]) by {
            let s = start.len() as int;
            if k >= s {
                assert(first[k] == ridden[k - s] && first[l] == ridden[l - s]);
            } else {
                assert(first[l] == ridden[0]);
            }
        }
    }
    assert(first.last() == ridden.last());
    let last = pl::last_stop_leg(data, j, walks);
    let arrived = if pl::walks_at_end(data, j) {
        lemma_push_joined(first, last);
        first.push(last)
    } else {
        first
    };
    if j.egress_walk_secs > 0 {
        lemma_push_joined(arrived, pl::egress_leg(data, req, j, dest_stops, walks));
    }
}

// ---------------------------------------------------------------------------
// Colors and times
// ---------------------------------------------------------------------------

/// Reading a written color gives back its 24 bits.
pub proof fn written_colors_read_back(c: u32)
    ensures
        f::color_in(pl::hex_of(c)) == c % 0x100_0000,
{
    let text = pl::hex_of(c);
    let n = (c % 0x100_0000) as int;
    t::written_number_reads_back(n, 16, 6, u32::MAX as int);
    assert(text.len() > 0);
    t::lemma_padded_digits(n, 16, 6, 0);
    t::lemma_padded_digits(n, 16, 6, text.len() - 1);
    t::lemma_trimmed(text);
}

/// How long a leg takes.
pub open spec fn leg_secs(leg: LegView) -> int {
    match leg {
        LegView::Walk(w) => w.duration_seconds as int,
        LegView::Transit(options) => options[0].duration_seconds as int,
        LegView::Wait(secs) => secs as int,
    }
}

/// How long some legs take together.
pub open spec fn total_secs(legs: Seq<LegView>) -> int
    decreases legs.len(),
{
    if legs.len() == 0 {
        0
    } else {
        total_secs(legs.drop_last()) + leg_secs(legs.last())
    }
}

/// Time spent waiting at the stops where the first `n` rides are changed without a walk.
pub open spec fn waits(data: TransitData, legs: Seq<RaptorLeg>, n: int) -> int
    decreases n,
{
    if n <= 1 {
        0
    } else if pl::walks_before(data, legs, n - 1) {
        waits(data, legs, n - 1)
    } else {
        waits(data, legs, n - 1) + legs[n - 1].board_time - legs[n - 2].alight_time
    }
}

/// Time spent at the last stop, if the last ride ends there.
pub open spec fn wait_at_end(data: TransitData, j: JourneyView) -> int {
    if pl::walks_at_end(data, j) {
        0
    } else {
        j.arrival_time - j.egress_walk_secs - j.legs.last().alight_time
    }
}

proof fn lemma_total_push(legs: Seq<LegView>, x: LegView)
    ensures
        total_secs(legs.push(x)) == total_secs(legs) + leg_secs(x),
{
    assert(legs.push(x).drop_last() =~= legs);
}

proof fn lemma_total_add(a: Seq<LegView>, b: Seq<LegView>)
    ensures
        total_secs(a + b) == total_secs(a) + total_secs(b),
    decreases b.len(),
{
    if b.len() == 0 {
        assert(a + b =~= a);
    } else {
        lemma_total_add(a, b.drop_last());
        assert((a + b).drop_last() =~= a + b.drop_last());
    }
}

/// The rides follow each other in time.
spec fn in_time(legs: Seq<RaptorLeg>) -> bool {
    &&& forall|i: int|
        0 <= i < legs.len() ==> (#[trigger] legs[i]).board_time <= legs[i].alight_time
    &&& forall|i: int, j: int|
        0 <= i && j == i + 1 && j < legs.len() ==> (#[trigger] legs[i]).alight_time <= (
        #[trigger] legs[j]).board_time
}

proof fn lemma_rides_total(
    data: TransitData,
    date: Seq<char>,
    legs: Seq<RaptorLeg>,
    walks: Seq<StopWalkView>,
    n: int,
)
    requires
        in_time(legs),
        1 <= n <= legs.len(),
    ensures
        total_secs(pl::rides(data, date, legs, walks, n)) + waits(data, legs, n)
            == legs[n - 1].alight_time - legs[0].board_time,
    decreases n,
{
    let before = pl::rides(data, date, legs, walks, n - 1);
    let leg = legs[n - 1];
    let ride = LegView::Transit(seq![pl::route_option(data, date, leg)]);
    assert(leg_secs(ride) == leg.alight_time - leg.board_time);
    if n > 1 {
        lemma_rides_total(data, date, legs, walks, n - 1);
        assert(legs[n - 2].alight_time <= legs[n - 1].board_time);
        if pl::walks_before(data, legs, n - 1) {
            let all = pl::rides(data, date, legs, walks, n);
            let walk = all[all.len() - 2];
            assert(all =~= before.push(walk).push(ride));
            assert(leg_secs(walk) == leg.board_time - legs[n - 2].alight_time);
            lemma_total_push(before, walk);
            lemma_total_push(before.push(walk), ride);
        } else {
            lemma_total_push(before, ride);
        }
    } else {
        lemma_total_push(before, ride);
    }
}

/// Where times never go back along a trip and no origin stop is listed twice, the legs of a plan
/// and the waits between them add up to its duration, unless it arrives at no time that can be
/// told.
pub proof fn legs_add_up(
    data: TransitData,
    query: RaptorQuery,
    i: int,
    req: PlanRequest,
    origin_stops: Seq<(u32, u32, u32)>,
    dest_stops: Seq<(u32, u32, u32)>,
    walks: JourneyWalksView,
)
    requires
        data.wf(),
        query.wf(data),
        sound::times_in_order(data),
        sound::origins_distinct(query),
        0 <= i < m::answer(data, query).len(),
        m::answer(data, query)[i].arrival_time < NOT_SET,
    ensures
        ({
            let j = m::answer(data, query)[i];
            let plan = pl::plan_of(data, req, j, origin_stops, dest_stops, walks);
            total_secs(plan.legs) + waits(data, j.legs, j.legs.len() as int) + wait_at_end(data, j)
                == plan.duration_seconds
        }),
{
    let j = m::answer(data, query)[i];
    let n = j.legs.len() as int;
    sound::journeys_can_be_made(data, query, i);
    let (d, at) = choose|d: int, at: int| sound::journey_to(data, query, j, d, at);
    let legs = j.legs;
    let last = legs.last();
    assert(in_time(legs)) by {
        assert forall|a: int| 0 <= a < legs.len() implies (#[trigger] legs[a]).board_time
            <= legs[a].alight_time by {
            assert(sound::rideable(data, query.service_day as int, legs[a]));
        }
        assert forall|a: int, b: int| 0 <= a && b == a + 1 && b < legs.len() implies (
        #[trigger] legs[a]).alight_time <= (#[trigger] legs[b]).board_time by {
            assert(sound::changes(data, legs[a], legs[b]));
        }
    }
    assert(last.alight_time <= at);
    assert(j.arrival_time == at + j.egress_walk_secs);
    let date = req.date_str@;
    let ridden = pl::rides(data, date, legs, walks.between, n);
    lemma_rides_total(data, date, legs, walks.between, n);
    let start = if j.access_walk_secs > 0 {
        seq![pl::access_leg(data, req, j, origin_stops, walks)]
    } else {
        Seq::empty()
    };
    assert(total_secs(start) == j.access_walk_secs) by {
        if j.access_walk_secs > 0 {
            assert(start.drop_last() =~= Seq::<LegView>::empty());
            assert(total_secs(Seq::<LegView>::empty()) == 0);
        }
    }
    lemma_total_add(start, ridden);
    let first = start + ridden;
    let walk = pl::last_stop_leg(data, j, walks);
    lemma_total_push(first, walk);
    assert(leg_secs(walk) == at - last.alight_time);
    let arrived = if pl::walks_at_end(data, j) {
        first.push(walk)
    } else {
        first
    };
    lemma_total_push(arrived, pl::egress_leg(data, req, j, dest_stops, walks));
    assert(in_order(legs, n)) by {
        lemma_in_order(legs, n);
    }
}

/// The first ride begins no later than the last one ends.
spec fn in_order(legs: Seq<RaptorLeg>, n: int) -> bool {
    legs[0].board_time <= legs[n - 1].alight_time
}

proof fn lemma_in_order(legs: Seq<RaptorLeg>, n: int)
    requires
        in_time(legs),
        1 <= n <= legs.len(),
    ensures
        in_order(legs, n),
    decreases n,
{
    assert(legs[n - 1].board_time <= legs[n - 1].alight_time);
    if n > 1 {
        lemma_in_order(legs, n - 1);
        assert(legs[n - 2].alight_time <= legs[n - 1].board_time);
    }
}

// ---------------------------------------------------------------------------
// Times
// ---------------------------------------------------------------------------

/// A character that may stand in a date.
spec fn date_char(c: char) -> bool {
    t::digit_value(c, 10) is Some || c == '+' || c == '-'
}

proof fn lemma_date_chars(date: Seq<char>, i: int)
    requires
        rq::day_in(date) is Ok,
        0 <= i < date.len(),
    ensures
        date_char(date[i]),
{
    if date[i] != '-' {
        let parts = t::split_at(date, '-');
        t::lemma_split_chars(date, '-', i);
        let k = choose|k: int| 0 <= k < parts.len() && (#[trigger] parts[k]).contains(date[i]);
        let part = parts[k];
        let j = choose|j: int| 0 <= j < part.len() && part[j] == date[i];
        if k > 0 {
            t::lemma_number_chars(part, 10, u32::MAX as int, j);
        } else if part[0] == '-' {
            if j > 0 {
                t::lemma_all_digits(part.skip(1), 10, j - 1);
                assert(part.skip(1)[j - 1] == part[j]);
            }
        } else {
            t::lemma_number_chars(part, 10, i32::MAX as int, j);
        }
    }
}

spec fn only_digits(s: Seq<char>) -> bool {
    forall|i: int| 0 <= i < s.len() ==> t::digit_value(#[trigger] s[i], 10) is Some
}

proof fn lemma_clock_parts(h: Seq<char>, m: Seq<char>, s: Seq<char>)
    requires
        only_digits(h),
        only_digits(m),
        only_digits(s),
    ensures
        t::split_at(h + seq![':'] + m + seq![':'] + s, ':') == seq![h, m, s],
        t::split_at(s, '.') == seq![s],
{
    t::lemma_split_whole(h, ':');
    t::lemma_split_join(h, ':', m);
    t::lemma_split_join(h + seq![':'] + m, ':', s);
    assert(t::split_at(h + seq![':'] + m + seq![':'] + s, ':') =~= seq![h, m, s]);
    t::lemma_split_whole(s, '.');
}

/// A number written with two digits at least is made of digits.
proof fn lemma_two_digits(n: int)
    requires
        0 <= n <= u32::MAX,
    ensures
        only_digits(t::padded(n, 10, 2)),
        t::padded(n, 10, 2).len() > 0,
        t::number_in(t::padded(n, 10, 2), 10, u32::MAX as int) == Some(n),
{
    let s = t::padded(n, 10, 2);
    t::written_number_reads_back(n, 10, 2, u32::MAX as int);
    assert forall|i: int| 0 <= i < s.len() implies t::digit_value(#[trigger] s[i], 10) is Some by {
        t::lemma_padded_digits(n, 10, 2, i);
    }
}

/// The time of day in writing.
spec fn clock_text(secs: u32) -> Seq<char> {
    t::padded((secs / 3600) as int, 10, 2) + seq![':'] + t::padded(
        (secs % 3600 / 60) as int,
        10,
        2,
    ) + seq![':'] + t::padded((secs % 60) as int, 10, 2)
}

proof fn lemma_clock(secs: u32)
    requires
        secs < 86400,
    ensures
        rq::clock_in(clock_text(secs)) == Ok::<int, Seq<char>>(secs as int),
{
    let hh = (secs / 3600) as int;
    let mm = (secs % 3600 / 60) as int;
    let ss = (secs % 60) as int;
    lemma_two_digits(hh);
    lemma_two_digits(mm);
    lemma_two_digits(ss);
    lemma_clock_parts(t::padded(hh, 10, 2), t::padded(mm, 10, 2), t::padded(ss, 10, 2));
    assert(hh * 3600 + mm * 60 + ss == secs);
}

proof fn lemma_clock_chars(secs: u32)
    ensures
        clock_text(secs).len() > 0,
        t::digit_value(clock_text(secs).last(), 10) is Some,
        forall|i: int| 0 <= i < clock_text(secs).len() ==> #[trigger] clock_text(secs)[i] != 'T',
{
    let h = t::padded((secs / 3600) as int, 10, 2);
    let m = t::padded((secs % 3600 / 60) as int, 10, 2);
    let s = t::padded((secs % 60) as int, 10, 2);
    let clock = clock_text(secs);
    lemma_two_digits((secs / 3600) as int);
    lemma_two_digits((secs % 3600 / 60) as int);
    lemma_two_digits((secs % 60) as int);
    assert(clock.last() == s[s.len() - 1]);
    assert forall|i: int| 0 <= i < clock.len() implies #[trigger] clock[i] != 'T' by {
        if i < h.len() {
            assert(clock[i] == h[i]);
        } else if h.len() < i < h.len() + 1 + m.len() {
            assert(clock[i] == m[i - h.len() - 1]);
        } else if i > h.len() + 1 + m.len() {
            assert(clock[i] == s[i - h.len() - m.len() - 2]);
        }
    }
}

/// A date and a time of day are told apart again.
proof fn lemma_halves(date: Seq<char>, secs: u32)
    requires
        rq::day_in(date) is Ok,
    ensures
        t::split_at(date + seq!['T'] + clock_text(secs), 'T') == seq![date, clock_text(secs)],
{
    let clock = clock_text(secs);
    lemma_clock_chars(secs);
    assert forall|i: int| 0 <= i < date.len() implies #[trigger] date[i] != 'T' by {
        lemma_date_chars(date, i);
    }
    t::lemma_split_whole(date, 'T');
    t::lemma_split_join(date, 'T', clock);
    assert(t::split_at(date + seq!['T'] + clock, 'T') =~= seq![date, clock]);
}

proof fn lemma_iso_text(date: Seq<char>, secs: u32)
    requires
        secs < 86400,
    ensures
        pl::iso_text(date, secs) == (date + seq!['T'] + clock_text(secs)).push('Z'),
{
    reveal_strlit("T");
    reveal_strlit(":");
    reveal_strlit("Z");
    assert("T"@ =~= seq!['T']);
    assert(":"@ =~= seq![':']);
    assert("Z"@ =~= seq!['Z']);
    assert(pl::iso_text(date, secs) =~= (date + seq!['T'] + clock_text(secs)).push('Z'));
}

/// Nothing but the mark at the end is cut off.
proof fn lemma_stripped(date: Seq<char>, secs: u32)
    requires
        rq::day_in(date) is Ok,
    ensures
        ({
            let plain = date + seq!['T'] + clock_text(secs);
            rq::without_trailing(t::trimmed(plain.push('Z')), 'Z') == plain
        }),
{
    let plain = date + seq!['T'] + clock_text(secs);
    let text = plain.push('Z');
    assert(date.len() > 0) by {
        if date.len() == 0 {
            assert(t::split_at(date, '-').len() == 1);
        }
    }
    lemma_date_chars(date, 0);
    lemma_clock_chars(secs);
    assert(text[0] == date[0]);
    t::lemma_trimmed(text);
    assert(plain.last() == clock_text(secs).last());
    assert(text.drop_last() =~= plain);
    assert(rq::without_trailing(plain, 'Z') == plain);
}

/// Where a plan starts before midnight, its start in writing can be asked for as a departure: it is
/// read back as the same time on the same day.
pub proof fn start_times_read_back(date: Seq<char>, secs: u32, day: int)
    requires
        secs < 86400,
        rq::day_in(date) == Ok::<int, Seq<char>>(day),
    ensures
        rq::datetime_in(pl::iso_text(date, secs)) == Ok::<(int, int, Seq<char>), Seq<char>>(
            (secs as int, day % 0x1_0000, date),
        ),
{
    lemma_iso_text(date, secs);
    lemma_stripped(date, secs);
    lemma_halves(date, secs);
    lemma_clock(secs);
}

} // verus!
