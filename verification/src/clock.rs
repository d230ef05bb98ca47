//! The present time, and how a time is written.

use std::time::{Duration, SystemTime, SystemTimeError, UNIX_EPOCH};

use vstd::prelude::*;

use crate::number;

verus! {

// --------------------------------------------------------------- calendar
/// Whether a year is a leap year.
pub open spec fn leap(year: int) -> bool {
    year % 4 == 0 && (year % 100 != 0 || year % 400 == 0)
}

/// The number of days in the years before a year, from the year 0 on.
pub open spec fn days_before_year(year: int) -> int {
    365 * year + (year + 3) / 4 - (year + 99) / 100 + (year + 399) / 400
}

/// The number of days in a month.
pub open spec fn days_in_month(year: int, month: int) -> int {
    if month == 2 {
        if leap(year) {
            29
        } else {
            28
        }
    } else if month == 4 || month == 6 || month == 9 || month == 11 {
        30
    } else {
        31
    }
}

/// The number of days in the months before a month of a year.
pub open spec fn days_before_month(year: int, month: int) -> int
    decreases month,
{
    if month <= 1 {
        0
    } else {
        days_before_month(year, month - 1) + days_in_month(year, month - 1)
    }
}

/// Whether there is such a day.
pub open spec fn valid_date(year: int, month: int, day: int) -> bool {
    1 <= month <= 12 && 1 <= day <= days_in_month(year, month)
}

/// The number of a day: the first of January 1970 has the number 0.
pub open spec fn day_number(year: int, month: int, day: int) -> int {
    days_before_year(year) + days_before_month(year, month) + day - 1 - 719528
}

/// Each year follows the one before it: it is 365 or 366 days later.
pub proof fn lemma_next_year(year: int)
    ensures
        days_before_year(year + 1) == days_before_year(year) + if leap(year) {
            366int
        } else {
            365int
        },
{
    assert((year + 1 + 3) / 4 == (year + 3) / 4 + if year % 4 == 0 {
        1int
    } else {
        0int
    });
    assert((year + 1 + 99) / 100 == (year + 99) / 100 + if year % 100 == 0 {
        1int
    } else {
        0int
    });
    assert((year + 1 + 399) / 400 == (year + 399) / 400 + if year % 400 == 0 {
        1int
    } else {
        0int
    });
}

/// The months of a year, unfolded.
pub proof fn lemma_months(year: int)
    ensures
        days_before_month(year, 1) == 0,
        days_before_month(year, 2) == 31,
        ({
            let february = if leap(year) {
                29int
            } else {
                28int
            };
            &&& days_before_month(year, 3) == 31 + february
            &&& days_before_month(year, 4) == 62 + february
            &&& days_before_month(year, 5) == 92 + february
            &&& days_before_month(year, 6) == 123 + february
            &&& days_before_month(year, 7) == 153 + february
            &&& days_before_month(year, 8) == 184 + february
            &&& days_before_month(year, 9) == 215 + february
            &&& days_before_month(year, 10) == 245 + february
            &&& days_before_month(year, 11) == 276 + february
            &&& days_before_month(year, 12) == 306 + february
        }),
{
    reveal_with_fuel(days_before_month, 13);
}

/// A day lies within its year.
proof fn lemma_within_year(year: int, month: int, day: int)
    requires
        valid_date(year, month, day),
    ensures
        0 <= days_before_month(year, month) + day - 1 < if leap(year) {
            366int
        } else {
            365int
        },
{
    lemma_months(year);
}

proof fn lemma_years_in_order(a: int, b: int)
    requires
        a < b,
    ensures
        days_before_year(a) + (if leap(a) {
            366int
        } else {
            365int
        }) <= days_before_year(b),
    decreases b - a,
{
    lemma_next_year(a);
    if a + 1 < b {
        lemma_years_in_order(a + 1, b);
    }
}

proof fn lemma_months_in_order(year: int, a: int, b: int)
    requires
        1 <= a < b <= 12,
    ensures
        days_before_month(year, a) + days_in_month(year, a) <= days_before_month(year, b),
    decreases b - a,
{
    if a + 1 < b {
        lemma_months_in_order(year, a + 1, b);
    }
}

/// No two days have the same number.
pub proof fn day_numbers_are_unique(
    year: int,
    month: int,
    day: int,
    other_year: int,
    other_month: int,
    other_day: int,
)
    requires
        valid_date(year, month, day),
        valid_date(other_year, other_month, other_day),
        day_number(year, month, day) == day_number(other_year, other_month, other_day),
    ensures
        year == other_year,
        month == other_month,
        day == other_day,
{
    lemma_within_year(year, month, day);
    lemma_within_year(other_year, other_month, other_day);
    if year < other_year {
        lemma_years_in_order(year, other_year);
    }
    if other_year < year {
        lemma_years_in_order(other_year, year);
    }
    if month < other_month {
        lemma_months_in_order(year, month, other_month);
    }
    if other_month < month {
        lemma_months_in_order(year, other_month, month);
    }
}

/// A date.
#[derive(Clone, Copy, Debug, PartialEq, Eq, Structural)]
pub struct Date {
    pub year: i64,
    pub month: i64,
    pub day: i64,
}

/// The days from the first of March of the year 0 to the first of March of a year.
spec fn days_before_march(year: int) -> int {
    365 * year + year / 4 - year / 100 + year / 400
}

/// March begins after January and February.
proof fn lemma_march(year: int)
    ensures
        days_before_year(year) + days_before_month(year, 3) == days_before_march(year) + 60,
        days_before_year(year + 1) == days_before_march(year) + 60 + 306,
{
    lemma_months(year);
    lemma_next_year(year);
    assert((year + 3) / 4 == year / 4 + if year % 4 == 0 {
        0int
    } else {
        1int
    });
    assert((year + 99) / 100 == year / 100 + if year % 100 == 0 {
        0int
    } else {
        1int
    });
    assert((year + 399) / 400 == year / 400 + if year % 400 == 0 {
        0int
    } else {
        1int
    });
}

/// The days of whole eras of four hundred years and of the years after them.
proof fn lemma_eras(era: int, year: int)
    requires
        0 <= year < 400,
    ensures
        days_before_march(400 * era + year) == 146097 * era + 365 * year + year / 4 - year / 100,
{
    assert((400 * era + year) / 4 == 100 * era + year / 4);
    assert((400 * era + year) / 100 == 4 * era + year / 100);
    assert((400 * era + year) / 400 == era);
}

/// Leap years come again after an era.
proof fn lemma_leap_again(era: int, year: int)
    ensures
        leap(400 * era + year) == leap(year),
{
    vstd::arithmetic::div_mod::lemma_mod_multiples_vanish(100 * era, year, 4);
    vstd::arithmetic::div_mod::lemma_mod_multiples_vanish(4 * era, year, 100);
    vstd::arithmetic::div_mod::lemma_mod_multiples_vanish(era, year, 400);
}

/// The day of a year that is counted from March on has the number of its date.
proof fn lemma_date(year: int, day_of_year: int, month: int, day: int, days: int)
    requires
        days_before_march(year) + day_of_year == days + 719468,
        1 <= month <= 12,
        month >= 3 ==> days_before_month(year, month) - days_before_month(year, 3) + day - 1
            == day_of_year,
        month < 3 ==> days_before_month(year + 1, month) + 306 + day - 1 == day_of_year,
    ensures
        month >= 3 ==> day_number(year, month, day) == days,
        month < 3 ==> day_number(year + 1, month, day) == days,
{
    lemma_march(year);
}

/// The whole part of a quotient and what is left, which is never negative.
fn divide(n: i64, by: i64) -> (parts: (i64, i64))
    requires
        0 < by <= 1_000_000,
    ensures
        n == parts.0 * by + parts.1,
        0 <= parts.1 < by,
        n >= 0 ==> 0 <= parts.0 <= n,
        n < 0 ==> n <= parts.0 <= -1,
{
    if n >= 0 {
        let quotient: i64 = n / by;
        let rest: i64 = n % by;
        proof {
            vstd::arithmetic::div_mod::lemma_fundamental_div_mod(n as int, by as int);
            vstd::arithmetic::mul::lemma_mul_is_commutative(by as int, quotient as int);
            vstd::arithmetic::div_mod::lemma_div_is_ordered_by_denominator(
                n as int,
                1,
                by as int,
            );
        }
        (quotient, rest)
    } else {
        let above: i64 = -(n + 1);
        let quotient: i64 = above / by;
        let rest: i64 = above % by;
        proof {
            vstd::arithmetic::div_mod::lemma_fundamental_div_mod(above as int, by as int);
            vstd::arithmetic::mul::lemma_mul_is_commutative(by as int, quotient as int);
            vstd::arithmetic::mul::lemma_mul_is_distributive_sub_other_way(
                by as int,
                -1,
                quotient as int,
            );
            vstd::arithmetic::div_mod::lemma_div_is_ordered_by_denominator(
                above as int,
                1,
                by as int,
            );
        }
        (-1 - quotient, by - 1 - rest)
    }
}

/// The year of an era in which a day of the era lies, counted from March on, and the day of the
/// year.
fn year_of_era(day_of_era: i64) -> (found: (i64, i64))
    requires
        0 <= day_of_era < 146097,
    ensures
        0 <= found.0 < 400,
        0 <= found.1 <= 365,
        day_of_era == 365 * found.0 + found.0 as int / 4 - found.0 as int / 100 + found.1,
        found.1 == 365 ==> (found.0 + 1) % 4 == 0 && ((found.0 + 1) % 100 != 0 || found.0 == 399),
{
    let mut century: i64 = day_of_era / 36524;
    if century > 3 {
        century = 3;
    }
    let day_of_century: i64 = day_of_era - century * 36524;
    let cycle: i64 = day_of_century / 1461;
    let day_of_cycle: i64 = day_of_century - cycle * 1461;
    let mut rest: i64 = day_of_cycle / 365;
    if rest > 3 {
        rest = 3;
    }
    let day_of_year: i64 = day_of_cycle - rest * 365;
    let year: i64 = century * 100 + cycle * 4 + rest;
    assert(0 <= cycle <= 24);
    assert(year as int / 4 == 25 * century + cycle);
    assert(year as int / 100 == century);
    assert(day_of_year == 365 ==> rest == 3);
    assert(day_of_year == 365 && cycle == 24 ==> century == 3);
    (year, day_of_year)
}

/// The month and the day of a day of a year that is counted from March on.
fn month_and_day(day_of_year: i64, Ghost(year): Ghost<int>) -> (found: (i64, i64))
    requires
        0 <= day_of_year <= 365,
        day_of_year == 365 ==> leap(year + 1),
    ensures
        1 <= found.0 <= 12,
        found.0 >= 3 ==> valid_date(year, found.0 as int, found.1 as int) && days_before_month(
            year,
            found.0 as int,
        ) - days_before_month(year, 3) + found.1 - 1 == day_of_year,
        found.0 < 3 ==> valid_date(year + 1, found.0 as int, found.1 as int)
            && days_before_month(year + 1, found.0 as int) + 306 + found.1 - 1 == day_of_year,
{
    proof {
        lemma_months(year);
        lemma_months(year + 1);
    }
    let month: i64 = (5 * day_of_year + 2) / 153;
    let day: i64 = day_of_year - (153 * month + 2) / 5 + 1;
    assert(0 <= month <= 11);
    assert(month == 0 || month == 1 || month == 2 || month == 3 || month == 4 || month == 5 || month
        == 6 || month == 7 || month == 8 || month == 9 || month == 10 || month == 11);
    if month < 10 {
        (month + 3, day)
    } else {
        (month - 9, day)
    }
}

/// The date of the day with a number.
pub fn civil_date(days: i64) -> (date: Date)
    requires
        -200_000_000_000_000 <= days <= 200_000_000_000_000,
    ensures
        valid_date(date.year as int, date.month as int, date.day as int),
        day_number(date.year as int, date.month as int, date.day as int) == days,
{
    let z: i64 = days + 719468;
    let (era, day_of_era) = divide(z, 146097);
    let (in_era, day_of_year) = year_of_era(day_of_era);
    let year: i64 = in_era + era * 400;
    proof {
        lemma_eras(era as int, in_era as int);
        lemma_leap_again(era as int, in_era as int + 1);
    }
    let (month, day) = month_and_day(day_of_year, Ghost(year as int));
    proof {
        lemma_date(year as int, day_of_year as int, month as int, day as int, days as int);
    }
    if month >= 3 {
        Date { year, month, day }
    } else {
        Date { year: year + 1, month, day }
    }
}

// ------------------------------------------------------------- time stamps
/// How a moment is written.
pub open spec fn stamp(
    year: int,
    month: int,
    day: int,
    hour: int,
    minute: int,
    second: int,
) -> Seq<char> {
    number::padded_int(year, 4) + "-"@ + number::padded_int(month, 2) + "-"@ + number::padded_int(
        day,
        2,
    ) + "T"@ + number::padded_int(hour, 2) + ":"@ + number::padded_int(minute, 2) + ":"@
        + number::padded_int(second, 2) + "Z"@
}

/// Whether a text writes the moment a number of seconds after 1970 began.
pub open spec fn writes_moment(seconds: int, form: Seq<char>) -> bool {
    exists|year: int, month: int, day: int| #[trigger]
        valid_date(year, month, day) && day_number(year, month, day) == seconds / 86400 && form
            == stamp(
            year,
            month,
            day,
            seconds % 86400 / 3600,
            seconds % 3600 / 60,
            seconds % 60,
        )
}

/// Writes the moment a number of seconds after 1970 began.
pub fn rfc3339(seconds: i64) -> (form: String)
    ensures
        writes_moment(seconds as int, form@),
{
    let (days, day_seconds) = divide(seconds, 86400);
    let date: Date = civil_date(days);
    let hour: i64 = day_seconds / 3600;
    let minute: i64 = (day_seconds % 3600) / 60;
    let second: i64 = day_seconds % 60;
    let mut form: String = String::new();
    number::push_padded(&mut form, date.year, 4);
    form.append("-");
    number::push_padded(&mut form, date.month, 2);
    form.append("-");
    number::push_padded(&mut form, date.day, 2);
    form.append("T");
    number::push_padded(&mut form, hour, 2);
    form.append(":");
    number::push_padded(&mut form, minute, 2);
    form.append(":");
    number::push_padded(&mut form, second, 2);
    form.append("Z");
    proof {
        assert(days == seconds as int / 86400);
        assert(day_seconds == seconds as int % 86400);
        vstd::arithmetic::div_mod::lemma_mod_mod(seconds as int, 3600, 24);
        vstd::arithmetic::div_mod::lemma_mod_mod(seconds as int, 60, 1440);
        assert(valid_date(date.year as int, date.month as int, date.day as int));
        assert(form@ =~= stamp(
            date.year as int,
            date.month as int,
            date.day as int,
            hour as int,
            minute as int,
            second as int,
        ));
    }
    form
}

/// A time of the clock of the system.
#[verifier::external_type_specification]
#[verifier::external_body]
pub struct ExSystemTime(SystemTime);

/// What is said of a time that is before another.
#[verifier::external_type_specification]
#[verifier::external_body]
pub struct ExSystemTimeError(SystemTimeError);

/// The present time: `SystemTime::now`. What it returns is up to the clock.
#[verifier::external_body]
fn present() -> (time: SystemTime) {
    SystemTime::now()
}

/// How long after the beginning of 1970 a time is, or that it is before: what
/// `SystemTime::duration_since` returns for `UNIX_EPOCH`. Times are opaque, and nothing is claimed
/// of the length.
#[verifier::external_body]
fn since_epoch(time: SystemTime) -> (elapsed: Result<Duration, SystemTimeError>) {
    time.duration_since(UNIX_EPOCH)
}

/// The whole seconds of a length of time: `Duration::as_secs`. Lengths are opaque, and nothing is
/// claimed of the count.
#[verifier::external_body]
fn whole_seconds(elapsed: &Duration) -> (seconds: u64) {
    elapsed.as_secs()
}

/// The seconds that the clock of the system counts since 1970 began, where it is not set to an
/// earlier time. What they are, the clock says.
fn seconds_since_epoch() -> (elapsed: Option<u64>) {
    match since_epoch(present()) {
        Ok(elapsed) => Some(whole_seconds(&elapsed)),
        Err(_) => None,
    }
}

/// A count of seconds as a time; without a count it is 1970.
pub open spec fn time_of(elapsed: Option<u64>) -> i64 {
    match elapsed {
        Some(elapsed) => elapsed as i64,
        None => 0,
    }
}

/// A count of seconds as a time; without a count it is 1970.
pub fn unix_seconds(elapsed: Option<u64>) -> (seconds: i64)
    ensures
        seconds == time_of(elapsed),
        elapsed matches Some(count) ==> (count <= i64::MAX ==> seconds == count),
{
    match elapsed {
        Some(elapsed) => elapsed as i64,
        None => 0,
    }
}

/// The present time. What it is, the clock says.
pub fn current_unix_seconds() -> (seconds: i64)
    ensures
        exists|elapsed: Option<u64>| seconds == #[trigger] time_of(elapsed),
{
    let elapsed: Option<u64> = seconds_since_epoch();
    unix_seconds(elapsed)
}

/// Writes the present moment. What it is, the clock says.
pub fn current_rfc3339() -> (form: String)
    ensures
        exists|seconds: i64| #[trigger] writes_moment(seconds as int, form@),
{
    let seconds: i64 = current_unix_seconds();
    rfc3339(seconds)
}

// ------------------------------------------------------------------- laws
/// A moment is written in one way.
pub proof fn moment_is_written_in_one_way(seconds: int, form: Seq<char>, other: Seq<char>)
    requires
        writes_moment(seconds, form),
        writes_moment(seconds, other),
    ensures
        form == other,
{
    let (y1, m1, d1) = choose|year: int, month: int, day: int| #[trigger]
        valid_date(year, month, day) && day_number(year, month, day) == seconds / 86400 && form
            == stamp(
            year,
            month,
            day,
            seconds % 86400 / 3600,
            seconds % 3600 / 60,
            seconds % 60,
        );
    let (y2, m2, d2) = choose|year: int, month: int, day: int| #[trigger]
        valid_date(year, month, day) && day_number(year, month, day) == seconds / 86400 && other
            == stamp(
            year,
            month,
            day,
            seconds % 86400 / 3600,
            seconds % 3600 / 60,
            seconds % 60,
        );
    day_numbers_are_unique(y1, m1, d1, y2, m2, d2);
}

proof fn lemma_two_digits(n: int)
    requires
        0 <= n < 100,
    ensures
        number::padded_int(n, 2).len() == 2,
{
    reveal_with_fuel(number::decimal, 3);
}

proof fn lemma_four_digits(n: int)
    requires
        0 <= n < 10000,
    ensures
        number::padded_int(n, 4).len() == 4,
{
    reveal_with_fuel(number::decimal, 5);
}

/// Up to the year 9999 a moment takes twenty characters: the date, a `T`, the time and a `Z`.
pub proof fn moment_takes_twenty_characters(seconds: int, form: Seq<char>)
    requires
        writes_moment(seconds, form),
        0 <= seconds,
        seconds < 253402300800,
    ensures
        form.len() == 20,
        form[10] == 'T',
        form[19] == 'Z',
{
    let (year, month, day) = choose|year: int, month: int, day: int| #[trigger]
        valid_date(year, month, day) && day_number(year, month, day) == seconds / 86400 && form
            == stamp(
            year,
            month,
            day,
            seconds % 86400 / 3600,
            seconds % 3600 / 60,
            seconds % 60,
        );
    lemma_within_year(year, month, day);
    if year < 1970 {
        lemma_years_in_order(year, 1970);
    }
    if year > 9999 {
        if year > 10000 {
            lemma_years_in_order(10000, year);
        }
        assert(days_before_year(10000) - 719528 == 2932897);
    }
    lemma_four_digits(year);
    lemma_two_digits(month);
    lemma_two_digits(day);
    lemma_two_digits(seconds % 86400 / 3600);
    lemma_two_digits(seconds % 3600 / 60);
    lemma_two_digits(seconds % 60);
    reveal_strlit("-");
    reveal_strlit("T");
    reveal_strlit(":");
    reveal_strlit("Z");
}

} // verus!
