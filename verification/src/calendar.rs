//! Days of the proleptic Gregorian calendar, counted from 1970-01-01.

use vstd::prelude::*;

verus! {

/// Quotient rounded towards zero.
pub open spec fn quotient(a: int, b: int) -> int {
    if a >= 0 {
        a / b
    } else {
        -((-a) / b)
    }
}

fn quotient_of(a: i64, b: i64) -> (r: i64)
    requires
        b > 0,
        a > i64::MIN,
    ensures
        r == quotient(a as int, b as int),
        a >= 0 ==> 0 <= r <= a,
        a < 0 ==> a <= r <= 0,
{
    if a >= 0 {
        proof {
            assert(0 <= a / b <= a) by (nonlinear_arith)
                requires
                    a >= 0,
                    b > 0,
            ;
        }
        a / b
    } else {
        let n: i64 = -a;
        proof {
            assert(0 <= n / b <= n) by (nonlinear_arith)
                requires
                    n >= 0,
                    b > 0,
            ;
        }
        -(n / b)
    }
}

/// A value read as a signed number of 32 bits.
pub open spec fn as_signed(x: int) -> int {
    if x < 0x8000_0000 {
        x
    } else {
        x - 0x1_0000_0000
    }
}

/// A value kept to 32 bits, signed.
pub open spec fn wrapped(v: int) -> int {
    as_signed(v % 0x1_0000_0000)
}

/// Days from 1970-01-01 to a day. March is taken as the first month of the year.
pub open spec fn day_number(year: int, month: int, day: int) -> int {
    let y = if month <= 2 {
        year - 1
    } else {
        year
    };
    let m = if month <= 2 {
        month + 12
    } else {
        month
    };
    let era = quotient(y, 400);
    let yoe = y - era * 400;
    let doy = quotient(153 * (m - 3) + 2, 5) + day - 1;
    let doe = yoe * 365 + quotient(yoe, 4) - quotient(yoe, 100) + doy;
    era * 146097 + doe - 719468
}

fn exact_day_number(year: i32, month: i64, day: i64) -> (r: i64)
    requires
        i32::MIN <= month <= i32::MAX,
        i32::MIN <= day <= i32::MAX,
    ensures
        r == day_number(year as int, month as int, day as int),
        -0x100_0000_0000 < r < 0x100_0000_0000,
{
    let y: i64 = if month <= 2 {
        year as i64 - 1
    } else {
        year as i64
    };
    let m: i64 = if month <= 2 {
        month + 12
    } else {
        month
    };
    let era: i64 = quotient_of(y, 400);
    assert(-5368710 <= era <= 5368710);
    let yoe: i64 = y - era * 400;
    assert(-400 < yoe < 400);
    let doy: i64 = quotient_of(153 * (m - 3) + 2, 5) + day - 1;
    let doe: i64 = yoe * 365 + quotient_of(yoe, 4) - quotient_of(yoe, 100) + doy;
    era * 146097 + doe - 719468
}

/// Days from 1970-01-01 to a day.
pub fn days_since_epoch(year: i32, month: u32, day: u32) -> (r: i32)
    ensures
        r == wrapped(day_number(year as int, as_signed(month as int), as_signed(day as int))),
{
    let m: i64 = if month < 0x8000_0000 {
        month as i64
    } else {
        month as i64 - 0x1_0000_0000
    };
    let d: i64 = if day < 0x8000_0000 {
        day as i64
    } else {
        day as i64 - 0x1_0000_0000
    };
    let n: i64 = exact_day_number(year, m, d);
    let low: i64 = (n + 0x100_0000_0000) % 0x1_0000_0000;
    proof {
        assert((n + 0x100_0000_0000) % 0x1_0000_0000 == (n as int) % 0x1_0000_0000);
    }
    if low < 0x8000_0000 {
        low as i32
    } else {
        (low - 0x1_0000_0000) as i32
    }
}

pub open spec fn is_leap(year: int) -> bool {
    year % 4 == 0 && (year % 100 != 0 || year % 400 == 0)
}

pub open spec fn month_length(year: int, month: int) -> int {
    if month == 2 {
        if is_leap(year) {
            29
        } else {
            28
        }
    } else if month == 4 || month == 6 || month == 9 || month == 11 {
        30
    } else {
        31
    }
}

proof fn lemma_year(y: int)
    requires
        y >= 0,
    ensures
        ({
            let days = |y: int|
                quotient(y, 400) * 146097 + (y - quotient(y, 400) * 400) * 365 + quotient(
                    y - quotient(y, 400) * 400,
                    4,
                ) - quotient(y - quotient(y, 400) * 400, 100);
            days(y + 1) == days(y) + 365 + if is_leap(y + 1) {
                1int
            } else {
                0int
            }
        }),
{
    let era = y / 400;
    let yoe = y - era * 400;
    assert(0 <= yoe < 400);
    if yoe == 399 {
        assert((y + 1) / 400 == era + 1);
        assert((y + 1) % 400 == 0);
    } else {
        assert((y + 1) / 400 == era);
        assert((y + 1) - (y + 1) / 400 * 400 == yoe + 1);
        assert((y + 1) % 400 == yoe + 1);
        assert((y + 1) % 4 == (yoe + 1) % 4);
        assert((y + 1) % 100 == (yoe + 1) % 100);
        if (yoe + 1) % 4 == 0 {
            assert((yoe + 1) / 4 == yoe / 4 + 1);
        } else {
            assert((yoe + 1) / 4 == yoe / 4);
        }
        if (yoe + 1) % 100 == 0 {
            assert((yoe + 1) / 100 == yoe / 100 + 1);
        } else {
            assert((yoe + 1) / 100 == yoe / 100);
        }
    }
}

/// The count starts on 1970-01-01, moves on by one from day to day, and from each month to the
/// next by the length of the month, from year 1 on.
pub proof fn day_numbers_follow_the_calendar(year: int, month: int, day: int)
    requires
        year >= 1,
        1 <= month <= 12,
    ensures
        day_number(1970, 1, 1) == 0,
        day_number(year, month, day + 1) == day_number(year, month, day) + 1,
        ({
            let next = if month == 12 {
                day_number(year + 1, 1, 1)
            } else {
                day_number(year, month + 1, 1)
            };
            next == day_number(year, month, 1) + month_length(year, month)
        }),
{
    if month == 2 {
        lemma_year(year - 1);
    }
}

/// Days from 1970-01-01 to a day, counted in eras of 400 years that begin in March.
pub open spec fn era_day_number(y: int, m: int, d: int) -> int {
    let z = if m <= 2 {
        y - 1
    } else {
        y
    };
    let era = z / 400;
    let yoe = z - era * 400;
    let doy = (153 * (if m > 2 {
        m - 3
    } else {
        m + 9
    }) + 2) / 5 + d - 1;
    let doe = yoe * 365 + yoe / 4 - yoe / 100 + doy;
    era * 146097 + doe - 719468
}

/// Days from 1970-01-01 to a day, as an unsigned number of 32 bits.
pub fn gregorian_to_epoch_days(y: i32, m: u32, d: u32) -> (r: u32)
    ensures
        r == era_day_number(y as int, m as int, d as int) % 0x1_0000_0000,
{
    let z: i64 = if m <= 2 {
        y as i64 - 1
    } else {
        y as i64
    };
    let era: i64 = if z >= 0 {
        z / 400
    } else {
        -((399 - z) / 400)
    };
    assert(era == z as int / 400);
    let yoe: i64 = z - era * 400;
    assert(0 <= yoe < 400);
    let from_march: i64 = if m > 2 {
        m as i64 - 3
    } else {
        m as i64 + 9
    };
    let doy: i64 = (153 * from_march + 2) / 5 + d as i64 - 1;
    let doe: i64 = yoe * 365 + yoe / 4 - yoe / 100 + doy;
    let n: i64 = era * 146097 + doe - 719468;
    assert(-0x100_0000_0000 < n < 0x100_0000_0000);
    assert((n + 0x100_0000_0000) % 0x1_0000_0000 == (n as int) % 0x1_0000_0000);
    ((n + 0x100_0000_0000) % 0x1_0000_0000) as u32
}

/// Both ways of counting agree from year 1 on.
pub proof fn day_counts_agree(year: int, month: int, day: int)
    requires
        year >= 1,
        1 <= month <= 12,
    ensures
        era_day_number(year, month, day) == day_number(year, month, day),
{
}

/// The day of the week, Monday being 0: 1970-01-01 was a Thursday.
pub open spec fn weekday(epoch_day: int) -> int {
    (epoch_day + 3) % 7
}

/// The day of the week, Monday being 0.
pub fn weekday_of(epoch_day: u32) -> (r: usize)
    ensures
        r == weekday(epoch_day as int),
        r < 7,
{
    ((epoch_day as u64 + 3) % 7) as usize
}

} // verus!
