//! Points in time, as they are written: ISO 8601, in UTC.

use vstd::prelude::*;
use vstd::string::*;

use crate::num::{decimal, push_decimal};
use crate::text::push;

verus! {

// ------------------------------------------------------------- the calendar

/// Whether a year has a twenty-ninth of February.
pub open spec fn leap(year: int) -> bool {
    year % 4 == 0 && (year % 100 != 0 || year % 400 == 0)
}

/// How many days a month has.
pub open spec fn days_in_month(year: int, month: int) -> int {
    if month == 2 {
        if leap(year) {
            29
        } else {
            28
        }
    } else if month == 4 || month == 6 || month == 9 || month == 11 {
        30
    } else {
        31
    }
}

/// How many days of a year are over when a month of it begins.
pub open spec fn days_before_month(year: int, month: int) -> int
    decreases month,
{
    if month <= 1 {
        0
    } else {
        days_before_month(year, month - 1) + days_in_month(year, month - 1)
    }
}

/// How many days are over when a year begins, counted from the start of the
/// year zero.
pub open spec fn days_before_year(year: int) -> int
    decreases year,
{
    if year <= 0 {
        0
    } else {
        days_before_year(year - 1) + if leap(year - 1) {
            366int
        } else {
            365int
        }
    }
}

/// Whether a year, a month and a day make a date.
pub open spec fn is_date(year: int, month: int, day: int) -> bool {
    &&& 0 <= year
    &&& 1 <= month <= 12
    &&& 1 <= day <= days_in_month(year, month)
}

/// How many days lie between the first of January 1970 and a date.
pub open spec fn day_number(year: int, month: int, day: int) -> int {
    days_before_year(year) + days_before_month(year, month) + day - 1 - 719_528
}

// ---------------------------------------------------- the date of a day

/// The year of a four-hundred-year cycle that a day of it is in, with years
/// that begin in March.
pub open spec fn year_of_cycle(day: int) -> int {
    (day - day / 1460 + day / 36_524 - day / 146_096) / 365
}

/// How many days of a cycle are over when a year of it begins.
pub open spec fn days_before_cycle_year(year: int) -> int {
    365 * year + year / 4 - year / 100
}

/// The month, counted from March, that a day of a year that begins in March is
/// in.
pub open spec fn month_from_march(day: int) -> int {
    (5 * day + 2) / 153
}

/// The date of a day counted from the first of January 1970.
pub open spec fn date_of(days: int) -> (int, int, int) {
    let z = days + 719_468;
    let cycle = z / 146_097;
    let in_cycle = z % 146_097;
    let year = year_of_cycle(in_cycle);
    let in_year = in_cycle - days_before_cycle_year(year);
    let march = month_from_march(in_year);
    let day = in_year - (153 * march + 2) / 5 + 1;
    let month = if march < 10 {
        march + 3
    } else {
        march - 9
    };
    let year = year + cycle * 400;
    (
        if month <= 2 {
            year + 1
        } else {
            year
        },
        month,
        day,
    )
}

/// The days before a year, counted by fours, hundreds and four hundreds.
pub proof fn lemma_days_before_year(year: int)
    requires
        0 <= year,
    ensures
        days_before_year(year) == 365 * year + (year + 3) / 4 - (year + 99) / 100 + (year + 399)
            / 400,
    decreases year,
{
    if year > 0 {
        lemma_days_before_year(year - 1);
    }
}

/// The year of a cycle is the one its day falls into.
proof fn lemma_year_of_cycle(day: int)
    requires
        0 <= day < 146_097,
    ensures
        0 <= year_of_cycle(day) <= 399,
        days_before_cycle_year(year_of_cycle(day)) <= day,
        day - days_before_cycle_year(year_of_cycle(day)) <= 365,
        day - days_before_cycle_year(year_of_cycle(day)) == 365 ==> (year_of_cycle(day) + 1) % 4
            == 0 && ((year_of_cycle(day) + 1) % 100 != 0 || (year_of_cycle(day) + 1) % 400 == 0),
{
}

/// The months of a year before one of them, for every month.
proof fn lemma_months(year: int)
    ensures
        days_before_month(year, 1) == 0,
        days_before_month(year, 2) == 31,
        forall|m: int| #![trigger days_before_month(year, m)]
            3 <= m <= 12 ==> days_before_month(year, m) == (153 * (m - 3) + 2) / 5 + 59 + if leap(
                year,
            ) {
                1int
            } else {
                0int
            },
{
    reveal_with_fuel(days_before_month, 13);
}

/// The month a day of a year that begins in March is in, and the day of the
/// month it is.
proof fn lemma_month_from_march(day: int)
    requires
        0 <= day <= 365,
    ensures
        ({
            let march = month_from_march(day);
            let of_month = day - (153 * march + 2) / 5 + 1;
            &&& 0 <= march <= 11
            &&& 1 <= of_month <= 31
            &&& (march == 1 || march == 3 || march == 6 || march == 8) ==> of_month <= 30
            &&& march == 11 ==> of_month <= 29
            &&& march == 11 && of_month == 29 ==> day == 365
        }),
{
}

/// The date of a day of the first cycle.
proof fn lemma_date_in_cycle(day: int)
    requires
        0 <= day < 146_097,
    ensures
        ({
            let year = year_of_cycle(day);
            let in_year = day - days_before_cycle_year(year);
            let march = month_from_march(in_year);
            let of_month = in_year - (153 * march + 2) / 5 + 1;
            if march < 10 {
                &&& is_date(year, march + 3, of_month)
                &&& days_before_year(year) + days_before_month(year, march + 3) + of_month - 1 == day
                    + 60
            } else {
                &&& is_date(year + 1, march - 9, of_month)
                &&& days_before_year(year + 1) + days_before_month(year + 1, march - 9) + of_month
                    - 1 == day + 60
            }
        }),
{
    lemma_year_of_cycle(day);
    let year = year_of_cycle(day);
    let in_year = day - days_before_cycle_year(year);
    lemma_month_from_march(in_year);
    let march = month_from_march(in_year);
    if march < 10 {
        lemma_months(year);
        lemma_days_before_year(year);
        assert(days_before_month(year, march + 3) == (153 * march + 2) / 5 + 59 + if leap(year) {
            1int
        } else {
            0int
        });
    } else {
        lemma_months(year + 1);
        lemma_days_before_year(year + 1);
    }
}

/// The months of a year are as long as those of the same year of another cycle.
proof fn lemma_cycle_months(year: int, cycle: int, month: int)
    requires
        0 <= year,
        0 <= cycle,
    ensures
        days_in_month(year + 400 * cycle, month) == days_in_month(year, month),
        days_before_month(year + 400 * cycle, month) == days_before_month(year, month),
    decreases month,
{
    lemma_cycle_leap(year, cycle);
    if month > 1 {
        lemma_cycle_months(year, cycle, month - 1);
    }
}

/// The date of a day is a date, and the day is that date's.
pub proof fn date_of_is_the_date(days: int)
    requires
        0 <= days,
    ensures
        is_date(date_of(days).0, date_of(days).1, date_of(days).2),
        day_number(date_of(days).0, date_of(days).1, date_of(days).2) == days,
{
    let z = days + 719_468;
    let cycle = z / 146_097;
    let in_cycle = z % 146_097;
    lemma_date_in_cycle(in_cycle);
    lemma_year_of_cycle(in_cycle);
    let y = year_of_cycle(in_cycle);
    let in_year = in_cycle - days_before_cycle_year(y);
    let march = month_from_march(in_year);
    lemma_month_from_march(in_year);
    let base = if march < 10 {
        y
    } else {
        y + 1
    };
    let month = if march < 10 {
        march + 3
    } else {
        march - 9
    };
    lemma_cycle_months(base, cycle, month);
    lemma_cycle_days(base, cycle);
    assert(date_of(days).0 == base + 400 * cycle);
    assert(date_of(days).1 == month);
}

/// Adding whole cycles does not change whether a year is a leap year.
proof fn lemma_cycle_leap(year: int, cycle: int)
    requires
        0 <= year,
        0 <= cycle,
    ensures
        leap(year + 400 * cycle) == leap(year),
{
    assert((year + 400 * cycle) % 4 == year % 4);
    assert((year + 400 * cycle) % 100 == year % 100);
    assert((year + 400 * cycle) % 400 == year % 400);
}

/// A cycle has as many days as the last one.
proof fn lemma_cycle_days(year: int, cycle: int)
    requires
        0 <= year,
        0 <= cycle,
    ensures
        days_before_year(year + 400 * cycle) == days_before_year(year) + 146_097 * cycle,
    decreases cycle,
{
    if cycle > 0 {
        let before = year + 400 * (cycle - 1);
        lemma_cycle_days(year, cycle - 1);
        lemma_days_before_year(before);
        lemma_days_before_year(before + 400);
        assert((before + 403) / 4 == (before + 3) / 4 + 100);
        assert((before + 499) / 100 == (before + 99) / 100 + 4);
        assert((before + 799) / 400 == (before + 399) / 400 + 1);
    }
}

/// Before a month begins, no more days of its year are over than before a
/// later one.
proof fn lemma_month_order(year: int, a: int, b: int)
    requires
        1 <= a < b <= 12,
    ensures
        days_before_month(year, a) + days_in_month(year, a) <= days_before_month(year, b),
    decreases b - a,
{
    if a + 1 < b {
        lemma_month_order(year, a, b - 1);
    }
}

/// A later year begins no sooner than the one before it has ended.
proof fn lemma_year_order(a: int, b: int)
    requires
        0 <= a < b,
    ensures
        days_before_year(a) + if leap(a) {
            366int
        } else {
            365int
        } <= days_before_year(b),
    decreases b - a,
{
    if a + 1 < b {
        lemma_year_order(a, b - 1);
    }
}

/// A date lies within its year.
proof fn lemma_in_year(year: int, month: int, day: int)
    requires
        is_date(year, month, day),
    ensures
        0 <= days_before_month(year, month) + day - 1 < if leap(year) {
            366int
        } else {
            365int
        },
{
    lemma_months(year);
}

/// A day has one date.
pub proof fn dates_are_unique(y1: int, m1: int, d1: int, y2: int, m2: int, d2: int)
    requires
        is_date(y1, m1, d1),
        is_date(y2, m2, d2),
        day_number(y1, m1, d1) == day_number(y2, m2, d2),
    ensures
        y1 == y2 && m1 == m2 && d1 == d2,
{
    lemma_in_year(y1, m1, d1);
    lemma_in_year(y2, m2, d2);
    if y1 < y2 {
        lemma_year_order(y1, y2);
    } else if y2 < y1 {
        lemma_year_order(y2, y1);
    } else if m1 < m2 {
        lemma_month_order(y1, m1, m2);
    } else if m2 < m1 {
        lemma_month_order(y1, m2, m1);
    }
}

// ---------------------------------------------------------------- writing it

/// A number in decimal, with a zero before it where it has one digit.
pub open spec fn two_digits(n: nat) -> Seq<char> {
    if n < 10 {
        seq!['0'] + decimal(n)
    } else {
        decimal(n)
    }
}

/// A number in decimal, with zeros before it where it has less than four
/// digits.
pub open spec fn four_digits(n: nat) -> Seq<char> {
    if n < 10 {
        seq!['0', '0', '0'] + decimal(n)
    } else if n < 100 {
        seq!['0', '0'] + decimal(n)
    } else if n < 1000 {
        seq!['0'] + decimal(n)
    } else {
        decimal(n)
    }
}

/// A point in time as it is written, from the seconds since 1970.
pub open spec fn iso(secs: nat) -> Seq<char> {
    let (year, month, day) = date_of((secs / 86400) as int);
    let rest = secs % 86400;
    four_digits(year as nat) + seq!['-'] + two_digits(month as nat) + seq!['-'] + two_digits(
        day as nat,
    ) + seq!['T'] + two_digits(rest / 3600) + seq![':'] + two_digits(rest % 3600 / 60) + seq![':']
        + two_digits(rest % 60) + seq!['Z']
}

/// Writes a number of at least two digits.
fn push_two(out: &mut String, n: u64)
    ensures
        final(out)@ == old(out)@ + two_digits(n as nat),
{
    if n < 10 {
        push(out, '0');
    }
    push_decimal(out, n);
    assert(out@ =~= old(out)@ + two_digits(n as nat));
}

/// Writes a number of at least four digits.
fn push_four(out: &mut String, n: u64)
    ensures
        final(out)@ == old(out)@ + four_digits(n as nat),
{
    if n < 10 {
        push(out, '0');
    }
    if n < 100 {
        push(out, '0');
    }
    if n < 1000 {
        push(out, '0');
    }
    push_decimal(out, n);
    assert(out@ =~= old(out)@ + four_digits(n as nat));
}

/// The date of a day counted from the first of January 1970.
fn civil(days: u64) -> (r: (u64, u64, u64))
    requires
        days <= u64::MAX / 86400,
    ensures
        (r.0 as int, r.1 as int, r.2 as int) == date_of(days as int),
{
    let z: u64 = days + 719_468;
    let cycle: u64 = z / 146_097;
    let in_cycle: u64 = z % 146_097;
    proof {
        lemma_year_of_cycle(in_cycle as int);
    }
    let year: u64 = (in_cycle - in_cycle / 1460 + in_cycle / 36_524 - in_cycle / 146_096) / 365;
    let in_year: u64 = in_cycle - (365 * year + year / 4 - year / 100);
    let march: u64 = (5 * in_year + 2) / 153;
    let day: u64 = in_year - (153 * march + 2) / 5 + 1;
    let month: u64 = if march < 10 {
        march + 3
    } else {
        march - 9
    };
    let year: u64 = year + cycle * 400;
    (
        if month <= 2 {
            year + 1
        } else {
            year
        },
        month,
        day,
    )
}

/// A point in time as it is written, such as `2026-08-11T01:12:40Z`.
pub fn iso_from(secs: u64) -> (r: String)
    ensures
        r@ == iso(secs as nat),
{
    let (year, month, day) = civil(secs / 86400);
    let rest: u64 = secs % 86400;
    proof {
        date_of_is_the_date((secs / 86400) as int);
    }
    let mut out: String = String::new();
    push_four(&mut out, year);
    push(&mut out, '-');
    push_two(&mut out, month);
    push(&mut out, '-');
    push_two(&mut out, day);
    push(&mut out, 'T');
    push_two(&mut out, rest / 3600);
    push(&mut out, ':');
    push_two(&mut out, rest % 3600 / 60);
    push(&mut out, ':');
    push_two(&mut out, rest % 60);
    push(&mut out, 'Z');
    assert(out@ =~= iso(secs as nat));
    out
}

/// `std::time::SystemTime::now` and `duration_since`: the seconds since 1970, and none
/// where the clock is set before that. Nothing is said of what the clock shows.
#[verifier::external_body]
fn seconds_now() -> (r: u64) {
    match std::time::SystemTime::now().duration_since(std::time::UNIX_EPOCH) {
        Ok(since) => since.as_secs(),
        Err(_) => 0,
    }
}

/// The current time as it is written.
pub fn iso_now() -> (r: String)
    ensures
        exists|secs: u64| r@ == #[trigger] iso(secs as nat),
{
    let secs: u64 = seconds_now();
    let out: String = iso_from(secs);
    assert(out@ == iso(secs as nat));
    out
}

} // verus!
