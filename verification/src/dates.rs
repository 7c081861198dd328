//! Calendar arithmetic for due dates.

use vstd::prelude::*;

use crate::text::{all_digits, chars_of, digits_to_i64, digits_value, is_digit, parse_digits};

verus! {

/// A calendar date. `days_from_epoch` gives a total ordering and day counts.
#[derive(Debug, Clone, Copy, PartialEq, Eq, Structural)]
pub struct Date {
    pub year: i64,
    pub month: u32,
    pub day: u32,
}

pub open spec fn march_year(y: int, m: int) -> int {
    if m <= 2 { y - 1 } else { y }
}

pub open spec fn march_month(m: int) -> int {
    if m > 2 { m - 3 } else { m + 9 }
}

pub open spec fn day_number(y: int, m: int, d: int) -> int {
    let yy = march_year(y, m);
    365 * yy + yy / 4 - yy / 100 + yy / 400 + (153 * march_month(m) + 2) / 5 + d - 1 - 719468
}

/// The day count of `d` fits in an `i64`: the dates whose count
/// `days_from_epoch` can return.
pub open spec fn days_fit(d: Date) -> bool {
    i64::MIN <= d.spec_days() <= i64::MAX
}

/// The day count of `d` is far enough inside the `i64` range that its
/// distance from any day the clock can name (at most 2^47 days from the
/// epoch either way) fits in an `i64`.
pub open spec fn countable_from_today(d: Date) -> bool {
    i64::MIN + 0x8000_0000_0000 <= d.spec_days() <= i64::MAX - 0x8000_0000_0000
}

impl Date {
    pub open spec fn spec_days(self) -> int {
        day_number(self.year as int, self.month as int, self.day as int)
    }

    /// The day count, computed wide enough for every date.
    #[verifier::rlimit(40)]
    #[verifier::spinoff_prover]
    fn days_wide(self) -> (r: i128)
        ensures
            r == self.spec_days(),
    {
        let m = self.month as i128;
        let d = self.day as i128;
        let y = if m <= 2 { self.year as i128 - 1 } else { self.year as i128 };
        let era = if y >= 0 { y / 400 } else { -((399 - y) / 400) };
        let yoe = y - era * 400;
        assert(era == y as int / 400 && 0 <= yoe < 400) by (nonlinear_arith)
            requires
                era == (if y >= 0 { y as int / 400 } else { -((399 - y) as int / 400) }),
                yoe == y - era * 400;
        assert(y as int / 4 == 100 * era + yoe / 4 && y as int / 100 == 4 * era + yoe / 100) by (nonlinear_arith)
            requires
                y == yoe + era * 400,
                0 <= yoe < 400;
        let mp = if m > 2 { m - 3 } else { m + 9 };
        let doy = (153 * mp + 2) / 5 + d - 1;
        let doe = yoe * 365 + yoe / 4 - yoe / 100 + doy;
        era * 146097 + doe - 719468
    }

    /// Days since 1970-01-01 (negative before). Proleptic Gregorian.
    pub fn days_from_epoch(self) -> (r: i64)
        requires
            days_fit(self),
        ensures
            r == self.spec_days(),
    {
        self.days_wide() as i64
    }

    /// Whether the day count of this date fits in an `i64`.
    pub fn day_count_fits(self) -> (r: bool)
        ensures
            r == days_fit(self),
    {
        let n = self.days_wide();
        i64::MIN as i128 <= n && n <= i64::MAX as i128
    }

    /// Whether this date can be counted from today.
    pub fn is_countable_from_today(self) -> (r: bool)
        ensures
            r == countable_from_today(self),
    {
        let n = self.days_wide();
        i64::MIN as i128 + 0x8000_0000_0000 <= n && n <= i64::MAX as i128 - 0x8000_0000_0000
    }
}


pub open spec fn is_leap(y: int) -> bool {
    y % 4 == 0 && (y % 100 != 0 || y % 400 == 0)
}

pub open spec fn days_in_month(y: int, m: int) -> int {
    if m == 2 {
        if is_leap(y) { 29 } else { 28 }
    } else if m == 4 || m == 6 || m == 9 || m == 11 {
        30
    } else {
        31
    }
}

pub open spec fn valid_date(y: int, m: int, d: int) -> bool {
    1 <= m <= 12 && 1 <= d <= days_in_month(y, m)
}

pub open spec fn days_before_year_of_era(yoe: int) -> int {
    365 * yoe + yoe / 4 - yoe / 100
}

/// Splits a day index inside a 400-year era into the (March-based) year of
/// the era and the day of that year.
proof fn lemma_era_day_split(q: int)
    requires
        0 <= q <= 146096,
    ensures
        ({
            let yoe = (q - q / 1460 + q / 36524 - q / 146096) / 365;
            let doy = q - days_before_year_of_era(yoe);
            &&& 0 <= yoe <= 399
            &&& 0 <= doy <= 365
            &&& doy == 365 ==> (yoe + 1) % 4 == 0 && ((yoe + 1) % 100 != 0 || yoe == 399)
        }),
{
    let c: int = if q == 146096 { 3 } else { q / 36524 };
    assert(0 <= c <= 3 && 0 <= q - 36524 * c <= 36524 && (q - 36524 * c == 36524 ==> q == 146096)) by (nonlinear_arith)
        requires c == (if q == 146096 { 3 } else { q / 36524 }), 0 <= q <= 146096;
    let r1 = q - 36524 * c;
    let k = r1 / 1461;
    assert(0 <= k <= 24 && 0 <= r1 - 1461 * k <= 1460) by (nonlinear_arith)
        requires k == r1 / 1461, 0 <= r1 <= 36524;
    let r2 = r1 - 1461 * k;
    let j: int = if r2 == 1460 { 3 } else { r2 / 365 };
    assert(0 <= j <= 3 && 0 <= r2 - 365 * j <= 365 && (r2 - 365 * j == 365 ==> j == 3 && r2 == 1460)) by (nonlinear_arith)
        requires j == (if r2 == 1460 { 3 } else { r2 / 365 }), 0 <= r2 <= 1460;
    let r3 = r2 - 365 * j;
    let y = 100 * c + 4 * k + j;
    assert(q == 36524 * c + 1461 * k + 365 * j + r3);
    // q / 1460, q / 36524 and q / 146096 in terms of the split.
    assert(q / 146096 == (if q == 146096 { 1int } else { 0 }));
    assert(q / 36524 == c + (if q == 146096 { 1int } else { 0 })) by (nonlinear_arith)
        requires q == 36524 * c + r1, 0 <= c <= 3, 0 <= r1 <= 36524, r1 == 36524 ==> q == 146096,
            q == 146096 ==> c == 3;
    let delta: int = if 24 * c + k + 365 * j + r3 >= 1460 { 1 } else { 0 };
    assert(q / 1460 == 25 * c + k + delta) by (nonlinear_arith)
        requires q == 1460 * (25 * c + k) + (24 * c + k + 365 * j + r3),
            0 <= 24 * c + k + 365 * j + r3 < 2920,
            delta == (if 24 * c + k + 365 * j + r3 >= 1460 { 1int } else { 0 });
    assert(q - q / 1460 + q / 36524 - q / 146096 == 365 * y + r3 - delta);
    assert(r3 == 365 ==> delta == 1);
    assert(delta == 1 ==> r3 >= 1);
    assert((365 * y + r3 - delta) / 365 == y) by (nonlinear_arith)
        requires 0 <= r3 - delta <= 364;
    assert(y / 4 == 25 * c + k && y / 100 == c) by (nonlinear_arith)
        requires y == 100 * c + 4 * k + j, 0 <= j <= 3, 0 <= k <= 24, 0 <= 4 * k + j <= 99, 0 <= c;
    assert(days_before_year_of_era(y) == q - r3);
    if r3 == 365 {
        assert(j == 3 && r2 == 1460);
        assert((y + 1) % 4 == 0) by (nonlinear_arith) requires y == 100 * c + 4 * k + 3;
        if k == 24 {
            assert(c == 3);
            assert(y == 399);
        } else {
            assert((y + 1) % 100 != 0) by (nonlinear_arith)
                requires y == 100 * c + 4 * k + 3, 0 <= k < 24;
        }
    }
}

/// Converts a day of the (March-based) year into its month and day of month.
proof fn lemma_month_of_day(doy: int, leap: bool)
    requires
        0 <= doy <= 365,
        doy == 365 ==> leap,
    ensures
        ({
            let mp = (5 * doy + 2) / 153;
            let d = doy - (153 * mp + 2) / 5 + 1;
            let m = if mp < 10 { mp + 3 } else { mp - 9 };
            &&& 0 <= mp <= 11
            &&& 1 <= d
            &&& d <= (if m == 2 { if leap { 29int } else { 28 } } else if m == 4 || m == 6 || m == 9 || m == 11 { 30 } else { 31 })
        }),
{
    let mp = (5 * doy + 2) / 153;
    assert(0 <= mp <= 11 && 153 * mp <= 5 * doy + 2 && 5 * doy + 2 < 153 * mp + 153) by (nonlinear_arith)
        requires mp == (5 * doy + 2) / 153, 0 <= doy <= 365;
    let s = (153 * mp + 2) / 5;
    assert(s <= doy) by (nonlinear_arith) requires s == (153 * mp + 2) / 5, 153 * mp <= 5 * doy + 2;
    let s1 = (153 * (mp + 1) + 2) / 5;
    assert(doy < s1) by (nonlinear_arith) requires s1 == (153 * (mp + 1) + 2) / 5, 5 * doy + 2 < 153 * mp + 153;
    if mp == 0 { assert(s == 0 && s1 == 31); }
    else if mp == 1 { assert(s == 31 && s1 == 61); }
    else if mp == 2 { assert(s == 61 && s1 == 92); }
    else if mp == 3 { assert(s == 92 && s1 == 122); }
    else if mp == 4 { assert(s == 122 && s1 == 153); }
    else if mp == 5 { assert(s == 153 && s1 == 184); }
    else if mp == 6 { assert(s == 184 && s1 == 214); }
    else if mp == 7 { assert(s == 214 && s1 == 245); }
    else if mp == 8 { assert(s == 245 && s1 == 275); }
    else if mp == 9 { assert(s == 275 && s1 == 306); }
    else if mp == 10 { assert(s == 306 && s1 == 337); }
    else { assert(s == 337); }
}

/// The calendar day after `(y, m, d)`.
pub open spec fn next_date(y: int, m: int, d: int) -> (int, int, int) {
    if d < days_in_month(y, m) {
        (y, m, d + 1)
    } else if m < 12 {
        (y, m + 1, 1)
    } else {
        (y + 1, 1, 1)
    }
}

/// Consecutive calendar days have consecutive day numbers: the day number is
/// a plain count of days along the proleptic Gregorian calendar.
pub proof fn lemma_next_day(y: int, m: int, d: int)
    requires
        valid_date(y, m, d),
    ensures
        valid_date(next_date(y, m, d).0, next_date(y, m, d).1, next_date(y, m, d).2),
        day_number(next_date(y, m, d).0, next_date(y, m, d).1, next_date(y, m, d).2)
            == day_number(y, m, d) + 1,
{
    if d < days_in_month(y, m) {
    } else if m < 12 {
        if m == 2 {
            // February to March crosses the March-based year boundary.
            let p = y - 1;
            assert(y / 4 - p / 4 == (if y % 4 == 0 { 1int } else { 0 })) by (nonlinear_arith)
                requires p == y - 1;
            assert(y / 100 - p / 100 == (if y % 100 == 0 { 1int } else { 0 })) by (nonlinear_arith)
                requires p == y - 1;
            assert(y / 400 - p / 400 == (if y % 400 == 0 { 1int } else { 0 })) by (nonlinear_arith)
                requires p == y - 1;
            assert(y % 400 == 0 ==> y % 100 == 0 && y % 4 == 0) by (nonlinear_arith);
            assert(y % 100 == 0 ==> y % 4 == 0) by (nonlinear_arith);
        }
    } else {
    }
}

/// Inverse of `days_from_epoch`: the civil date of a day count.
pub fn from_days_since_epoch(z: i64) -> (r: Date)
    requires
        -0x4000_0000_0000_0000 <= z <= 0x4000_0000_0000_0000,
    ensures
        valid_date(r.year as int, r.month as int, r.day as int),
        r.spec_days() == z,
{
    let z = z + 719_468;
    let era = if z >= 0 { z / 146_097 } else { -((146_096 - z) / 146_097) };
    let doe = z - era * 146_097;
    assert(0 <= doe <= 146096);
    let yoe = (doe - doe / 1460 + doe / 36524 - doe / 146_096) / 365;
    let y = yoe + era * 400;
    let doy = doe - (365 * yoe + yoe / 4 - yoe / 100);
    proof {
        lemma_era_day_split(doe as int);
    }
    let mp = (5 * doy + 2) / 153;
    let day = (doy - (153 * mp + 2) / 5 + 1) as u32;
    let month = (if mp < 10 { mp + 3 } else { mp - 9 }) as u32;
    let year = if month <= 2 { y + 1 } else { y };
    proof {
        let leap = is_leap(y + 1);
        assert(doy == 365 ==> leap) by {
            if doy == 365 {
                assert((y + 1) % 4 == 0 && ((y + 1) % 100 != 0 || (y + 1) % 400 == 0)) by (nonlinear_arith)
                    requires y == yoe + era * 400, (yoe + 1) % 4 == 0, ((yoe + 1) % 100 != 0 || yoe == 399);
            }
        }
        lemma_month_of_day(doy as int, leap);
        assert(y / 4 == 100 * era + yoe / 4 && y / 100 == 4 * era + yoe / 100 && y / 400 == era) by (nonlinear_arith)
            requires y == yoe + era * 400, 0 <= yoe <= 399;
    }
    Date { year, month, day }
}


/// Days before the first of month `m` in a year (leap day included after
/// February when `leap`).
pub open spec fn days_before_month(m: int, leap: bool) -> int {
    let base: int = if m == 1 { 0 } else if m == 2 { 31 } else if m == 3 { 59 } else if m == 4 { 90 }
        else if m == 5 { 120 } else if m == 6 { 151 } else if m == 7 { 181 } else if m == 8 { 212 }
        else if m == 9 { 243 } else if m == 10 { 273 } else if m == 11 { 304 } else { 334 };
    if leap && m > 2 { base + 1 } else { base }
}

proof fn lemma_leap_step(y: int)
    ensures
        y / 4 - (y - 1) / 4 - (y / 100 - (y - 1) / 100) + (y / 400 - (y - 1) / 400)
            == (if is_leap(y) { 1int } else { 0 }),
{
    let p = y - 1;
    assert(y / 4 - p / 4 == (if y % 4 == 0 { 1int } else { 0 })) by (nonlinear_arith)
        requires p == y - 1;
    assert(y / 100 - p / 100 == (if y % 100 == 0 { 1int } else { 0 })) by (nonlinear_arith)
        requires p == y - 1;
    assert(y / 400 - p / 400 == (if y % 400 == 0 { 1int } else { 0 })) by (nonlinear_arith)
        requires p == y - 1;
    assert(y % 400 == 0 ==> y % 100 == 0 && y % 4 == 0) by (nonlinear_arith);
    assert(y % 100 == 0 ==> y % 4 == 0) by (nonlinear_arith);
}

/// A valid date's day number is its year's first day number plus its day of
/// the year.
proof fn lemma_day_of_year(y: int, m: int, d: int)
    requires
        valid_date(y, m, d),
    ensures
        day_number(y, m, d) == day_number(y, 1, 1) + days_before_month(m, is_leap(y)) + d - 1,
{
    lemma_leap_step(y);
}

/// A year has 365 days, 366 in a leap year.
proof fn lemma_year_length(y: int)
    ensures
        day_number(y + 1, 1, 1) - day_number(y, 1, 1) == (if is_leap(y) { 366int } else { 365 }),
{
    lemma_leap_step(y);
    lemma_leap_step(y + 1);
    assert(is_leap(y) <==> ((y + 1) - 1) % 4 == 0 && (((y + 1) - 1) % 100 != 0 || ((y + 1) - 1) % 400 == 0));
}

proof fn lemma_new_year_increasing(a: int, b: int)
    requires
        a < b,
    ensures
        day_number(a + 1, 1, 1) <= day_number(b, 1, 1),
    decreases b - a,
{
    if a + 1 < b {
        lemma_new_year_increasing(a, b - 1);
        lemma_year_length(b - 1);
    }
}

/// Distinct valid dates have distinct day numbers, so a day count names at
/// most one date: `from_days_since_epoch` undoes `days_from_epoch`.
pub proof fn lemma_day_number_injective(y1: int, m1: int, d1: int, y2: int, m2: int, d2: int)
    requires
        valid_date(y1, m1, d1),
        valid_date(y2, m2, d2),
        day_number(y1, m1, d1) == day_number(y2, m2, d2),
    ensures
        y1 == y2 && m1 == m2 && d1 == d2,
{
    lemma_day_of_year(y1, m1, d1);
    lemma_day_of_year(y2, m2, d2);
    lemma_year_length(y1);
    lemma_year_length(y2);
    if y1 < y2 {
        lemma_new_year_increasing(y1, y2);
    } else if y2 < y1 {
        lemma_new_year_increasing(y2, y1);
    } else {
        let leap = is_leap(y1);
        if m1 < m2 {
            assert(days_before_month(m1, leap) + d1 <= days_before_month(m1 + 1, leap));
            assert(days_before_month(m1 + 1, leap) <= days_before_month(m2, leap));
        } else if m2 < m1 {
            assert(days_before_month(m2, leap) + d2 <= days_before_month(m2 + 1, leap));
            assert(days_before_month(m2 + 1, leap) <= days_before_month(m1, leap));
        }
    }
}

/// `(y1, m1, d1)` comes before `(y2, m2, d2)` on the calendar: by year,
/// then month, then day.
pub open spec fn date_before(y1: int, m1: int, d1: int, y2: int, m2: int, d2: int) -> bool {
    y1 < y2 || (y1 == y2 && (m1 < m2 || (m1 == m2 && d1 < d2)))
}

/// A valid date's day number lies within its year's days.
proof fn lemma_within_year(y: int, m: int, d: int)
    requires
        valid_date(y, m, d),
    ensures
        day_number(y, 1, 1) <= day_number(y, m, d) < day_number(y + 1, 1, 1),
{
    lemma_day_of_year(y, m, d);
    lemma_year_length(y);
}

proof fn lemma_before_smaller(y1: int, m1: int, d1: int, y2: int, m2: int, d2: int)
    requires
        valid_date(y1, m1, d1),
        valid_date(y2, m2, d2),
        date_before(y1, m1, d1, y2, m2, d2),
    ensures
        day_number(y1, m1, d1) < day_number(y2, m2, d2),
{
    lemma_within_year(y1, m1, d1);
    lemma_within_year(y2, m2, d2);
    if y1 < y2 {
        lemma_new_year_increasing(y1, y2);
    } else {
        lemma_day_of_year(y1, m1, d1);
        lemma_day_of_year(y2, m2, d2);
        let leap = is_leap(y1);
        if m1 < m2 {
            assert(days_before_month(m1, leap) + d1 <= days_before_month(m1 + 1, leap));
            assert(days_before_month(m1 + 1, leap) <= days_before_month(m2, leap));
        }
    }
}

/// Day numbers order valid dates as the calendar does: one date comes
/// before another exactly when its day number is smaller, and two dates are
/// the same exactly when their day numbers are.
pub proof fn lemma_day_number_order(y1: int, m1: int, d1: int, y2: int, m2: int, d2: int)
    requires
        valid_date(y1, m1, d1),
        valid_date(y2, m2, d2),
    ensures
        date_before(y1, m1, d1, y2, m2, d2) <==> day_number(y1, m1, d1) < day_number(y2, m2, d2),
        (y1 == y2 && m1 == m2 && d1 == d2) <==> day_number(y1, m1, d1) == day_number(y2, m2, d2),
{
    if date_before(y1, m1, d1, y2, m2, d2) {
        lemma_before_smaller(y1, m1, d1, y2, m2, d2);
    } else if date_before(y2, m2, d2, y1, m1, d1) {
        lemma_before_smaller(y2, m2, d2, y1, m1, d1);
    }
    if day_number(y1, m1, d1) == day_number(y2, m2, d2) {
        lemma_day_number_injective(y1, m1, d1, y2, m2, d2);
    }
}

/// `UNIX_EPOCH.elapsed()`: the current time as whole seconds since the
/// Unix epoch (0 if the clock reads earlier than the epoch). Nothing is
/// promised of the value: it is the clock's.
#[verifier::external_body]
pub(crate) fn unix_time_secs() -> (secs: u64) {
    match std::time::UNIX_EPOCH.elapsed() {
        Ok(d) => d.as_secs(),
        Err(_) => 0,
    }
}

/// The UTC calendar date of a Unix timestamp.
pub fn from_unix(ts: i64) -> (r: Date)
    ensures
        valid_date(r.year as int, r.month as int, r.day as int),
        r.spec_days() == ts as int / 86400,
        -0x8000_0000_0000 <= r.spec_days() <= 0x8000_0000_0000,
{
    let days = if ts >= 0 {
        ts / 86_400
    } else {
        -(((-(ts + 1)) as u64 / 86_400) as i64) - 1
    };
    assert(days == ts as int / 86400);
    from_days_since_epoch(days)
}

/// Today's date, derived from the system clock's UTC day; good enough for
/// "due in N days" at day granularity.
pub fn today() -> (r: Date)
    ensures
        valid_date(r.year as int, r.month as int, r.day as int),
        -0x8000_0000_0000 <= r.spec_days() <= 0x8000_0000_0000,
{
    from_unix(unix_time_secs() as i64)
}

impl Date {
    /// Whole days from `origin` to this date (negative when this date is
    /// earlier).
    pub fn days_from(self, origin: Date) -> (r: i64)
        requires
            days_fit(self),
            days_fit(origin),
            i64::MIN <= self.spec_days() - origin.spec_days() <= i64::MAX,
        ensures
            r == self.spec_days() - origin.spec_days(),
    {
        self.days_from_epoch() - origin.days_from_epoch()
    }

    /// Whole days from today (negative = already past).
    pub fn days_from_today(self) -> (r: i64)
        requires
            countable_from_today(self),
        ensures
            exists|t: Date| {
                &&& valid_date(t.year as int, t.month as int, t.day as int)
                &&& r == self.spec_days() - t.spec_days()
            },
    {
        let t = today();
        self.days_from(t)
    }
}

// ---------- due-date parsing ----------

/// Characters that can be part of a numeric date token: digits and `sep`.
pub open spec fn is_token_char(c: char, sep: char) -> bool {
    c == sep || is_digit(c)
}

/// `s[a..b]` is a maximal non-empty run of token characters.
pub open spec fn is_token(s: Seq<char>, a: int, b: int, sep: char) -> bool {
    &&& 0 <= a < b <= s.len()
    &&& (a == 0 || !is_token_char(s[a - 1], sep))
    &&& (b == s.len() || !is_token_char(s[b], sep))
    &&& forall|k: int| a <= k < b ==> is_token_char(#[trigger] s[k], sep)
}

/// `t` holds `sep` exactly at `p` and `q` (and nowhere else), `p < q`.
pub open spec fn seps_at(t: Seq<char>, sep: char, p: int, q: int) -> bool {
    &&& 0 <= p < q < t.len()
    &&& t[p] == sep
    &&& t[q] == sep
    &&& forall|k: int| 0 <= k < t.len() && k != p && k != q ==> #[trigger] t[k] != sep
}

/// Builds the candidate date from the three numbers of a token: ISO order
/// (year, month, day) or US order (month, day, year). Month and day are
/// narrowed to `u32` the way an `as` cast does.
pub open spec fn candidate(a: i64, b: i64, c: i64, iso: bool) -> Date {
    if iso {
        Date { year: a, month: b as u32, day: c as u32 }
    } else {
        Date { year: c, month: a as u32, day: b as u32 }
    }
}

pub open spec fn plausible(d: Date) -> bool {
    1 <= d.month <= 12 && 1 <= d.day <= 31 && d.year >= 1970
}

/// The date a single token denotes: exactly three `sep`-separated numbers
/// that each fit an `i64`, forming a plausible date.
pub open spec fn token_date(t: Seq<char>, sep: char, iso: bool) -> Option<Date> {
    if exists|p: int, q: int| seps_at(t, sep, p, q) {
        let (p, q) = choose|p: int, q: int| seps_at(t, sep, p, q);
        match (
            digits_to_i64(t.subrange(0, p)),
            digits_to_i64(t.subrange(p + 1, q)),
            digits_to_i64(t.subrange(q + 1, t.len() as int)),
        ) {
            (Some(a), Some(b), Some(c)) => {
                let d = candidate(a, b, c, iso);
                if plausible(d) { Some(d) } else { None }
            },
            _ => None,
        }
    } else {
        None
    }
}

pub open spec fn good_token(s: Seq<char>, a: int, b: int, sep: char, iso: bool) -> bool {
    is_token(s, a, b, sep) && token_date(s.subrange(a, b), sep, iso) is Some
}

pub open spec fn first_good_token(s: Seq<char>, a: int, b: int, sep: char, iso: bool) -> bool {
    &&& good_token(s, a, b, sep, iso)
    &&& forall|a2: int, b2: int| #[trigger] good_token(s, a2, b2, sep, iso) ==> a <= a2
}

/// The date of the leftmost token that denotes one, if any.
pub open spec fn first_token_date(s: Seq<char>, sep: char, iso: bool) -> Option<Date> {
    if exists|a: int, b: int| first_good_token(s, a, b, sep, iso) {
        let (a, b) = choose|a: int, b: int| first_good_token(s, a, b, sep, iso);
        token_date(s.subrange(a, b), sep, iso)
    } else {
        None
    }
}

/// A due date in free text: the first ISO `YYYY-MM-DD` token, else the first
/// US `M/D/YYYY` token.
pub open spec fn due_date_of(s: Seq<char>) -> Option<Date> {
    match first_token_date(s, '-', true) {
        Some(d) => Some(d),
        None => first_token_date(s, '/', false),
    }
}

fn is_token_char_exec(c: char, sep: char) -> (r: bool)
    ensures
        r == is_token_char(c, sep),
{
    c == sep || ('0' <= c && c <= '9')
}

/// The date denoted by the token `v[a..b]`.
fn token_date_exec(v: &Vec<char>, a: usize, b: usize, sep: char, iso: bool) -> (r: Option<Date>)
    requires
        a < b <= v@.len(),
        forall|k: int| a <= k < b ==> is_token_char(#[trigger] v@[k], sep),
    ensures
        r == token_date(v@.subrange(a as int, b as int), sep, iso),
{
    let ghost t = v@.subrange(a as int, b as int);
    let mut count: usize = 0;
    let mut p: usize = a;
    let mut q: usize = a;
    let mut i: usize = a;
    while i < b
        invariant
            a <= i <= b <= v@.len(),
            t == v@.subrange(a as int, b as int),
            count <= 3,
            count == 0 ==> forall|k: int| a <= k < i ==> v@[k] != sep,
            count >= 1 ==> a <= p < i && v@[p as int] == sep && forall|k: int| a <= k < p ==> v@[k] != sep,
            count == 1 ==> forall|k: int| p < k < i ==> v@[k] != sep,
            count >= 2 ==> p < q < i && v@[q as int] == sep && forall|k: int| p < k < q ==> v@[k] != sep,
            count == 2 ==> forall|k: int| q < k < i ==> v@[k] != sep,
            count == 3 ==> exists|k: int| q < k < i && v@[k] == sep,
        decreases b - i,
    {
        if v[i] == sep {
            if count == 0 {
                p = i;
                count = 1;
            } else if count == 1 {
                q = i;
                count = 2;
            } else if count == 2 {
                count = 3;
            }
        }
        i = i + 1;
    }
    if count != 2 {
        proof {
            assert forall|pp: int, qq: int| !seps_at(t, sep, pp, qq) by {
                if seps_at(t, sep, pp, qq) {
                    if count == 0 {
                        assert(t[pp] == v@[a + pp]);
                    } else if count == 1 {
                        assert(t[pp] == v@[a + pp]);
                        assert(t[qq] == v@[a + qq]);
                        assert(t[p - a] == sep);
                    } else {
                        let k = choose|k: int| q < k < i && v@[k] == sep;
                        assert(t[p - a] == sep);
                        assert(t[q - a] == sep);
                        assert(t[k - a] == sep);
                    }
                }
            }
        }
        return None;
    }
    let ghost pp = p - a;
    let ghost qq = q - a;
    proof {
        assert(seps_at(t, sep, pp, qq)) by {
            assert forall|k: int| 0 <= k < t.len() && k != pp && k != qq implies #[trigger] t[k] != sep by {
                assert(t[k] == v@[a + k]);
            }
        }
        assert forall|p2: int, q2: int| seps_at(t, sep, p2, q2) implies p2 == pp && q2 == qq by {
            assert(t[pp] == sep && t[qq] == sep);
        }
        assert forall|k: int| 0 <= k < pp implies is_digit(#[trigger] t.subrange(0, pp)[k]) by {
            assert(t[k] == v@[a + k]);
        }
        assert forall|k: int| 0 <= k < qq - pp - 1 implies is_digit(#[trigger] t.subrange(pp + 1, qq)[k]) by {
            assert(t[pp + 1 + k] == v@[a + pp + 1 + k]);
        }
        assert forall|k: int| 0 <= k < t.len() - qq - 1 implies is_digit(#[trigger] t.subrange(qq + 1, t.len() as int)[k]) by {
            assert(t[qq + 1 + k] == v@[a + qq + 1 + k]);
        }
        assert(t.subrange(0, pp) =~= v@.subrange(a as int, p as int));
        assert(t.subrange(pp + 1, qq) =~= v@.subrange(p + 1, q as int));
        assert(t.subrange(qq + 1, t.len() as int) =~= v@.subrange(q + 1, b as int));
    }
    let x = parse_digits(v, a, p);
    let y = parse_digits(v, p + 1, q);
    let z = parse_digits(v, q + 1, b);
    match (x, y, z) {
        (Some(x), Some(y), Some(z)) => {
            let d = if iso {
                Date { year: x, month: y as u32, day: z as u32 }
            } else {
                Date { year: z, month: x as u32, day: y as u32 }
            };
            if 1 <= d.month && d.month <= 12 && 1 <= d.day && d.day <= 31 && d.year >= 1970 {
                Some(d)
            } else {
                None
            }
        },
        _ => None,
    }
}

/// Scans `v` for the first token that denotes a plausible date.
fn first_match(v: &Vec<char>, sep: char, iso: bool) -> (r: Option<Date>)
    ensures
        r == first_token_date(v@, sep, iso),
{
    let n = v.len();
    let mut start: usize = 0;
    let mut i: usize = 0;
    while i < n
        invariant
            n == v@.len(),
            start <= i <= n,
            start == 0 || !is_token_char(v@[start - 1], sep),
            forall|k: int| start <= k < i ==> is_token_char(#[trigger] v@[k], sep),
            forall|a2: int, b2: int| #[trigger] good_token(v@, a2, b2, sep, iso) ==> a2 >= start,
        decreases n - i,
    {
        if is_token_char_exec(v[i], sep) {
            i = i + 1;
        } else {
            if start < i {
                if let Some(d) = token_date_exec(v, start, i, sep, iso) {
                    proof {
                        lemma_first_token(v@, start as int, i as int, sep, iso);
                    }
                    return Some(d);
                }
            }
            proof {
                assert forall|a2: int, b2: int| #[trigger] good_token(v@, a2, b2, sep, iso) implies a2 >= i + 1 by {
                    if a2 < i + 1 {
                        if start < a2 && a2 < i {
                            assert(is_token_char(v@[a2 - 1], sep));
                        } else if a2 == start && start < i {
                            if b2 < i {
                                assert(is_token_char(v@[b2], sep));
                            }
                            if b2 > i {
                                assert(is_token_char(v@[i as int], sep));
                            }
                        } else if a2 == i {
                            assert(is_token_char(v@[a2], sep));
                        }
                    }
                }
            }
            i = i + 1;
            start = i;
        }
    }
    if start < n {
        if let Some(d) = token_date_exec(v, start, n, sep, iso) {
            proof {
                lemma_first_token(v@, start as int, n as int, sep, iso);
            }
            return Some(d);
        }
    }
    proof {
        assert forall|a: int, b: int| !first_good_token(v@, a, b, sep, iso) by {
            if first_good_token(v@, a, b, sep, iso) {
                assert(good_token(v@, a, b, sep, iso));
                if start < a && a < n {
                    assert(is_token_char(v@[a - 1], sep));
                } else if a == start && start < n {
                    if b < n {
                        assert(is_token_char(v@[b], sep));
                    }
                }
            }
        }
    }
    None
}

/// A good token that no good token starts before is the one
/// `first_token_date` picks.
proof fn lemma_first_token(s: Seq<char>, a: int, b: int, sep: char, iso: bool)
    requires
        good_token(s, a, b, sep, iso),
        forall|a2: int, b2: int| #[trigger] good_token(s, a2, b2, sep, iso) ==> a2 >= a,
    ensures
        first_token_date(s, sep, iso) == token_date(s.subrange(a, b), sep, iso),
{
    assert(first_good_token(s, a, b, sep, iso));
    let (a1, b1) = choose|a1: int, b1: int| first_good_token(s, a1, b1, sep, iso);
    assert(a1 == a);
    if b1 < b {
        assert(is_token_char(s[b1], sep));
    }
    if b1 > b {
        assert(is_token_char(s[b], sep));
    }
}

/// Text with no character of a `sep` token around one run of token
/// characters: that run is the text's only token.
proof fn lemma_single_token(pre: Seq<char>, t: Seq<char>, post: Seq<char>, sep: char)
    requires
        t.len() > 0,
        forall|k: int| 0 <= k < t.len() ==> is_token_char(#[trigger] t[k], sep),
        forall|k: int| 0 <= k < pre.len() ==> !is_token_char(#[trigger] pre[k], sep),
        forall|k: int| 0 <= k < post.len() ==> !is_token_char(#[trigger] post[k], sep),
    ensures
        is_token(pre + t + post, pre.len() as int, (pre.len() + t.len()) as int, sep),
        (pre + t + post).subrange(pre.len() as int, (pre.len() + t.len()) as int) == t,
        forall|a: int, b: int| #[trigger] is_token(pre + t + post, a, b, sep)
            ==> a == pre.len() && b == pre.len() + t.len(),
{
    let s = pre + t + post;
    let lo = pre.len() as int;
    let hi = (pre.len() + t.len()) as int;
    assert forall|k: int| 0 <= k < s.len() implies (is_token_char(#[trigger] s[k], sep) <==> lo <= k < hi) by {
        if k < lo {
            assert(s[k] == pre[k]);
        } else if k < hi {
            assert(s[k] == t[k - lo]);
        } else {
            assert(s[k] == post[k - hi]);
        }
    }
    assert(s.subrange(lo, hi) =~= t);
    assert forall|a: int, b: int| #[trigger] is_token(s, a, b, sep) implies a == lo && b == hi by {
        assert(is_token_char(s[a], sep));
        assert(is_token_char(s[b - 1], sep));
        if a > lo {
            assert(is_token_char(s[a - 1], sep));
        }
        if b < hi {
            assert(is_token_char(s[b], sep));
        }
    }
}

/// Three runs of digits joined by two `sep`s read as the candidate date of
/// their values, when it is plausible.
proof fn lemma_three_numbers(xs: Seq<char>, ys: Seq<char>, zs: Seq<char>, sep: char, iso: bool)
    requires
        !is_digit(sep),
        xs.len() > 0 && all_digits(xs) && digits_value(xs) <= i64::MAX,
        ys.len() > 0 && all_digits(ys) && digits_value(ys) <= i64::MAX,
        zs.len() > 0 && all_digits(zs) && digits_value(zs) <= i64::MAX,
    ensures
        ({
            let d = candidate(digits_value(xs) as i64, digits_value(ys) as i64, digits_value(zs) as i64, iso);
            token_date(xs + seq![sep] + ys + seq![sep] + zs, sep, iso) == if plausible(d) { Some(d) } else { None }
        }),
        forall|k: int| 0 <= k < (xs + seq![sep] + ys + seq![sep] + zs).len()
            ==> is_token_char(#[trigger] (xs + seq![sep] + ys + seq![sep] + zs)[k], sep),
{
    let t = xs + seq![sep] + ys + seq![sep] + zs;
    let p = xs.len() as int;
    let q = p + 1 + ys.len();
    assert forall|k: int| 0 <= k < t.len() implies (#[trigger] t[k] == sep <==> k == p || k == q)
        && is_token_char(t[k], sep) by {
        if k < p {
            assert(t[k] == xs[k]);
        } else if k == p {
        } else if k < q {
            assert(t[k] == ys[k - p - 1]);
        } else if k == q {
        } else {
            assert(t[k] == zs[k - q - 1]);
        }
    }
    assert(seps_at(t, sep, p, q));
    let (p1, q1) = choose|p1: int, q1: int| seps_at(t, sep, p1, q1);
    assert(t[p1] == sep && t[q1] == sep);
    assert(p1 == p && q1 == q);
    assert(t.subrange(0, p) =~= xs);
    assert(t.subrange(p + 1, q) =~= ys);
    assert(t.subrange(q + 1, t.len() as int) =~= zs);
}

/// With no `sep` anywhere, no token denotes a date.
proof fn lemma_no_sep(s: Seq<char>, sep: char, iso: bool)
    requires
        forall|k: int| 0 <= k < s.len() ==> #[trigger] s[k] != sep,
    ensures
        first_token_date(s, sep, iso) is None,
{
    assert forall|a: int, b: int| !first_good_token(s, a, b, sep, iso) by {
        if first_good_token(s, a, b, sep, iso) {
            let t = s.subrange(a, b);
            let (p, q) = choose|p: int, q: int| seps_at(t, sep, p, q);
            assert(t[p] == s[a + p]);
        }
    }
}

/// An ISO date written `Y-M-D` in text (digits, with or without leading
/// zeros), set apart from any other digit or `-`, is read as exactly that
/// date whenever the year is 1970 or later, the month 1 to 12 and the day
/// 1 to 31 — the 31st included.
pub proof fn iso_date_parses(pre: Seq<char>, ys: Seq<char>, ms: Seq<char>, ds: Seq<char>, post: Seq<char>)
    requires
        ys.len() > 0 && all_digits(ys) && 1970 <= digits_value(ys) <= i64::MAX,
        ms.len() > 0 && all_digits(ms) && 1 <= digits_value(ms) <= 12,
        ds.len() > 0 && all_digits(ds) && 1 <= digits_value(ds) <= 31,
        forall|k: int| 0 <= k < pre.len() ==> !is_digit(#[trigger] pre[k]) && pre[k] != '-',
        forall|k: int| 0 <= k < post.len() ==> !is_digit(#[trigger] post[k]) && post[k] != '-',
    ensures
        due_date_of(pre + (ys + seq!['-'] + ms + seq!['-'] + ds) + post) == Some(Date {
            year: digits_value(ys) as i64,
            month: digits_value(ms) as u32,
            day: digits_value(ds) as u32,
        }),
{
    let t = ys + seq!['-'] + ms + seq!['-'] + ds;
    let s = pre + t + post;
    lemma_three_numbers(ys, ms, ds, '-', true);
    lemma_single_token(pre, t, post, '-');
    let lo = pre.len() as int;
    let hi = (pre.len() + t.len()) as int;
    assert forall|a2: int, b2: int| #[trigger] good_token(s, a2, b2, '-', true) implies a2 >= lo by {}
    lemma_first_token(s, lo, hi, '-', true);
}

/// A US date written `M/D/Y` in text, set apart from any other digit, `-`
/// or `/`, is read as exactly that date whenever the year is 1970 or
/// later, the month 1 to 12 and the day 1 to 31 — the 31st included.
pub proof fn us_date_parses(pre: Seq<char>, ms: Seq<char>, ds: Seq<char>, ys: Seq<char>, post: Seq<char>)
    requires
        ys.len() > 0 && all_digits(ys) && 1970 <= digits_value(ys) <= i64::MAX,
        ms.len() > 0 && all_digits(ms) && 1 <= digits_value(ms) <= 12,
        ds.len() > 0 && all_digits(ds) && 1 <= digits_value(ds) <= 31,
        forall|k: int| 0 <= k < pre.len() ==> !is_digit(#[trigger] pre[k]) && pre[k] != '-' && pre[k] != '/',
        forall|k: int| 0 <= k < post.len() ==> !is_digit(#[trigger] post[k]) && post[k] != '-' && post[k] != '/',
    ensures
        due_date_of(pre + (ms + seq!['/'] + ds + seq!['/'] + ys) + post) == Some(Date {
            year: digits_value(ys) as i64,
            month: digits_value(ms) as u32,
            day: digits_value(ds) as u32,
        }),
{
    let t = ms + seq!['/'] + ds + seq!['/'] + ys;
    let s = pre + t + post;
    lemma_three_numbers(ms, ds, ys, '/', false);
    lemma_single_token(pre, t, post, '/');
    let lo = pre.len() as int;
    let hi = (pre.len() + t.len()) as int;
    assert forall|a2: int, b2: int| #[trigger] good_token(s, a2, b2, '/', false) implies a2 >= lo by {}
    lemma_first_token(s, lo, hi, '/', false);
    assert forall|k: int| 0 <= k < s.len() implies #[trigger] s[k] != '-' by {
        if k < lo {
            assert(s[k] == pre[k]);
        } else if k < hi {
            assert(s[k] == t[k - lo]);
            assert(is_token_char(t[k - lo], '/'));
        } else {
            assert(s[k] == post[k - hi]);
        }
    }
    lemma_no_sep(s, '-', true);
}

/// Parse a due date out of CLI output. Accepts a bare `YYYY-MM-DD` or
/// `M/D/YYYY`, or those embedded in free text; only numeric forms are
/// recognized.
pub fn parse_due(s: &str) -> (r: Option<Date>)
    ensures
        r == due_date_of(s@),
{
    let v = chars_of(s);
    parse_due_chars(&v)
}

fn parse_due_chars(v: &Vec<char>) -> (r: Option<Date>)
    ensures
        r == due_date_of(v@),
{
    if let Some(d) = first_match(v, '-', true) {
        return Some(d);
    }
    first_match(v, '/', false)
}


// ---------- period labels ----------

/// Lowercase three-letter month prefixes, index 0 = January.
pub open spec fn month_prefix(i: int) -> Seq<char> {
    if i == 0 { seq!['j', 'a', 'n'] }
    else if i == 1 { seq!['f', 'e', 'b'] }
    else if i == 2 { seq!['m', 'a', 'r'] }
    else if i == 3 { seq!['a', 'p', 'r'] }
    else if i == 4 { seq!['m', 'a', 'y'] }
    else if i == 5 { seq!['j', 'u', 'n'] }
    else if i == 6 { seq!['j', 'u', 'l'] }
    else if i == 7 { seq!['a', 'u', 'g'] }
    else if i == 8 { seq!['s', 'e', 'p'] }
    else if i == 9 { seq!['o', 'c', 't'] }
    else if i == 10 { seq!['n', 'o', 'v'] }
    else { seq!['d', 'e', 'c'] }
}

/// `c` is the lowercase ASCII letter `l`, or its uppercase form.
pub open spec fn letter_matches(c: char, l: char) -> bool {
    c == l || c as int == l as int - 32
}

pub open spec fn prefix_at(s: Seq<char>, i: int, name: Seq<char>) -> bool {
    &&& 0 <= i
    &&& i + 3 <= s.len()
    &&& letter_matches(s[i], name[0])
    &&& letter_matches(s[i + 1], name[1])
    &&& letter_matches(s[i + 2], name[2])
}

/// `s` mentions the month `m`, ignoring ASCII case. (No non-ASCII character
/// lowercases to one of the letters month prefixes use, so this agrees with
/// full Unicode lowercasing.)
pub open spec fn mentions_month(s: Seq<char>, m: int) -> bool {
    exists|i: int| prefix_at(s, i, month_prefix(m))
}

/// The first month (in calendar order, from `m` on) that `s` mentions.
pub open spec fn first_month_from(s: Seq<char>, m: int) -> Option<int>
    decreases 12 - m,
{
    if m >= 12 || m < 0 {
        None
    } else if mentions_month(s, m) {
        Some(m)
    } else {
        first_month_from(s, m + 1)
    }
}

/// Four consecutive ASCII digits at `i` spelling a year in 1970..=3000.
pub open spec fn year_window(s: Seq<char>, i: int) -> bool {
    &&& 0 <= i
    &&& i + 4 <= s.len()
    &&& all_digits(s.subrange(i, i + 4))
    &&& 1970 <= digits_value(s.subrange(i, i + 4)) <= 3000
}

/// The first four-digit year in `s` at or after `i`.
pub open spec fn first_year_from(s: Seq<char>, i: int) -> Option<int>
    decreases s.len() - i,
{
    if i < 0 || i + 4 > s.len() {
        None
    } else if year_window(s, i) {
        Some(digits_value(s.subrange(i, i + 4)))
    } else {
        first_year_from(s, i + 1)
    }
}

/// `s[a..b]` is a maximal non-empty run of digits whose value fits an `i64`.
pub open spec fn number_run(s: Seq<char>, a: int, b: int) -> bool {
    &&& 0 <= a < b <= s.len()
    &&& (a == 0 || !is_digit(s[a - 1]))
    &&& (b == s.len() || !is_digit(s[b]))
    &&& all_digits(s.subrange(a, b))
    &&& digits_value(s.subrange(a, b)) <= i64::MAX
}

/// `s` holds exactly two numbers (digit runs that fit an `i64`), at `a1` and
/// `a2`.
pub open spec fn exactly_two_numbers(s: Seq<char>, a1: int, b1: int, a2: int, b2: int) -> bool {
    &&& number_run(s, a1, b1)
    &&& number_run(s, a2, b2)
    &&& a1 < a2
    &&& forall|a: int, b: int| #[trigger] number_run(s, a, b) ==> a == a1 || a == a2
}

/// A year-month label such as `2026-06`: exactly two numbers, a plausible
/// year then a month.
pub open spec fn year_month_of(s: Seq<char>) -> Option<Date> {
    if exists|a1: int, b1: int, a2: int, b2: int| exactly_two_numbers(s, a1, b1, a2, b2) {
        let (a1, b1, a2, b2) = choose|a1: int, b1: int, a2: int, b2: int|
            exactly_two_numbers(s, a1, b1, a2, b2);
        let y = digits_value(s.subrange(a1, b1));
        let m = digits_value(s.subrange(a2, b2));
        if 1970 <= y <= 3000 && 1 <= m <= 12 {
            Some(Date { year: y as i64, month: m as u32, day: 1 })
        } else {
            None
        }
    } else {
        None
    }
}

/// The date a series period label denotes.
pub open spec fn label_date_of(s: Seq<char>) -> Option<Date> {
    match due_date_of(s) {
        Some(d) => Some(d),
        None => match (first_month_from(s, 0), first_year_from(s, 0)) {
            (Some(m), Some(y)) => Some(Date { year: y as i64, month: (m + 1) as u32, day: 1 }),
            _ => year_month_of(s),
        },
    }
}

fn month_prefix_exec(i: usize) -> (r: (char, char, char))
    requires
        i < 12,
    ensures
        r.0 == month_prefix(i as int)[0],
        r.1 == month_prefix(i as int)[1],
        r.2 == month_prefix(i as int)[2],
{
    if i == 0 { ('j', 'a', 'n') }
    else if i == 1 { ('f', 'e', 'b') }
    else if i == 2 { ('m', 'a', 'r') }
    else if i == 3 { ('a', 'p', 'r') }
    else if i == 4 { ('m', 'a', 'y') }
    else if i == 5 { ('j', 'u', 'n') }
    else if i == 6 { ('j', 'u', 'l') }
    else if i == 7 { ('a', 'u', 'g') }
    else if i == 8 { ('s', 'e', 'p') }
    else if i == 9 { ('o', 'c', 't') }
    else if i == 10 { ('n', 'o', 'v') }
    else { ('d', 'e', 'c') }
}

fn letter_matches_exec(c: char, l: char) -> (r: bool)
    requires
        'a' <= l <= 'z',
    ensures
        r == letter_matches(c, l),
{
    c == l || (c as u32) + 32 == (l as u32)
}

fn mentions_month_exec(v: &Vec<char>, m: usize) -> (r: bool)
    requires
        m < 12,
    ensures
        r == mentions_month(v@, m as int),
{
    let (l0, l1, l2) = month_prefix_exec(m);
    let ghost name = month_prefix(m as int);
    let n = v.len();
    if n < 3 {
        return false;
    }
    let mut i: usize = 0;
    while i <= n - 3
        invariant
            n == v@.len(),
            n >= 3,
            i <= n - 2,
            name == month_prefix(m as int),
            l0 == name[0] && l1 == name[1] && l2 == name[2],
            'a' <= l0 <= 'z' && 'a' <= l1 <= 'z' && 'a' <= l2 <= 'z',
            forall|k: int| 0 <= k < i ==> !prefix_at(v@, k, name),
        decreases n - i,
    {
        if letter_matches_exec(v[i], l0) && letter_matches_exec(v[i + 1], l1) && letter_matches_exec(v[i + 2], l2) {
            assert(prefix_at(v@, i as int, name));
            return true;
        }
        i = i + 1;
    }
    false
}

fn first_month(v: &Vec<char>) -> (r: Option<usize>)
    ensures
        match first_month_from(v@, 0) {
            Some(m) => r == Some(m as usize),
            None => r is None,
        },
        r matches Some(m) ==> m < 12,
        first_month_from(v@, 0) matches Some(k) ==> 0 <= k < 12,
{
    let mut m: usize = 0;
    while m < 12
        invariant
            m <= 12,
            first_month_from(v@, 0) == first_month_from(v@, m as int),
        decreases 12 - m,
    {
        proof { lemma_first_month_bound(v@, 0); }
        if mentions_month_exec(v, m) {
            proof { lemma_first_month_bound(v@, 0); }
            return Some(m);
        }
        m = m + 1;
    }
    None
}

proof fn lemma_first_month_bound(s: Seq<char>, m: int)
    ensures
        first_month_from(s, m) matches Some(k) ==> 0 <= k < 12,
    decreases 12 - m,
{
    if 0 <= m < 12 && !mentions_month(s, m) {
        lemma_first_month_bound(s, m + 1);
    }
}

proof fn lemma_first_year_bound(s: Seq<char>, i: int)
    ensures
        first_year_from(s, i) matches Some(y) ==> 1970 <= y <= 3000,
    decreases s.len() - i,
{
    if 0 <= i && i + 4 <= s.len() && !year_window(s, i) {
        lemma_first_year_bound(s, i + 1);
    }
}

fn four_digit_year(v: &Vec<char>) -> (r: Option<i64>)
    ensures
        match first_year_from(v@, 0) {
            Some(y) => r == Some(y as i64),
            None => r is None,
        },
        first_year_from(v@, 0) matches Some(y) ==> 1970 <= y <= 3000,
{
    proof { lemma_first_year_bound(v@, 0); }
    let n = v.len();
    if n < 4 {
        return None;
    }
    let mut i: usize = 0;
    while i <= n - 4
        invariant
            n == v@.len(),
            n >= 4,
            i <= n - 3,
            first_year_from(v@, 0) == first_year_from(v@, i as int),
        decreases n - i,
    {
        let c0 = v[i];
        let c1 = v[i + 1];
        let c2 = v[i + 2];
        let c3 = v[i + 3];
        let ghost w = v@.subrange(i as int, i + 4);
        assert(w =~= seq![c0, c1, c2, c3]);
        if '0' <= c0 && c0 <= '9' && '0' <= c1 && c1 <= '9' && '0' <= c2 && c2 <= '9' && '0' <= c3 && c3 <= '9' {
            let y = ((c0 as u32 - '0' as u32) * 1000 + (c1 as u32 - '0' as u32) * 100
                + (c2 as u32 - '0' as u32) * 10 + (c3 as u32 - '0' as u32)) as i64;
            proof {
                assert(w.drop_last() =~= seq![c0, c1, c2]);
                assert(w.drop_last().drop_last() =~= seq![c0, c1]);
                assert(w.drop_last().drop_last().drop_last() =~= seq![c0]);
                assert(seq![c0].drop_last() =~= Seq::<char>::empty());
                reveal_with_fuel(digits_value, 5);
                assert(digits_value(w) == y);
                assert(all_digits(w));
            }
            if 1970 <= y && y <= 3000 {
                return Some(y);
            }
        } else {
            assert(!all_digits(w)) by {
                if all_digits(w) {
                    assert(is_digit(w[0]) && is_digit(w[1]) && is_digit(w[2]) && is_digit(w[3]));
                }
            }
        }
        i = i + 1;
    }
    None
}

/// Bookkeeping for the number scan: `runs` lists, left to right, exactly the
/// numbers of `s` that start before `start`.
pub open spec fn runs_ok(s: Seq<char>, runs: Seq<(usize, usize, i64)>, start: int) -> bool {
    &&& forall|j: int| 0 <= j < runs.len() ==> {
        &&& number_run(s, #[trigger] runs[j].0 as int, runs[j].1 as int)
        &&& runs[j].2 == digits_value(s.subrange(runs[j].0 as int, runs[j].1 as int))
        &&& runs[j].0 < start
    }
    &&& forall|j: int, l: int| 0 <= j < l < runs.len() ==> #[trigger] runs[j].0 < #[trigger] runs[l].0
    &&& forall|a: int, b: int| #[trigger] number_run(s, a, b) && a < start ==>
        exists|j: int| 0 <= j < runs.len() && #[trigger] runs[j].0 == a
}

/// Closing the digit run `s[start..i]` (possibly empty) keeps `runs_ok`.
proof fn lemma_runs_step(s: Seq<char>, runs: Seq<(usize, usize, i64)>, runs2: Seq<(usize, usize, i64)>, start: int, i: int)
    requires
        runs_ok(s, runs, start),
        0 <= start <= i <= s.len(),
        i == s.len() || !is_digit(s[i]),
        start == 0 || !is_digit(s[start - 1]),
        forall|k: int| start <= k < i ==> is_digit(#[trigger] s[k]),
        i <= usize::MAX,
        runs2 == (if start < i && digits_value(s.subrange(start, i)) <= i64::MAX {
            runs.push((start as usize, i as usize, digits_value(s.subrange(start, i)) as i64))
        } else {
            runs
        }),
    ensures
        runs_ok(s, runs2, i + 1),
{
    assert(all_digits(s.subrange(start, i))) by {
        assert forall|k: int| 0 <= k < i - start implies is_digit(#[trigger] s.subrange(start, i)[k]) by {
            assert(s.subrange(start, i)[k] == s[start + k]);
        }
    }
    if start < i && digits_value(s.subrange(start, i)) <= i64::MAX {
        assert(number_run(s, start, i));
        crate::text::lemma_digits_value_nonneg(s.subrange(start, i));
        let e = (start as usize, i as usize, digits_value(s.subrange(start, i)) as i64);
        assert(runs2 == runs.push(e));
        assert forall|j: int| 0 <= j < runs2.len() implies {
            &&& number_run(s, #[trigger] runs2[j].0 as int, runs2[j].1 as int)
            &&& runs2[j].2 == digits_value(s.subrange(runs2[j].0 as int, runs2[j].1 as int))
            &&& runs2[j].0 < i + 1
        } by {
            if j < runs.len() {
                assert(runs2[j] == runs[j]);
            } else {
                assert(runs2[j] == e);
            }
        }
    }
    assert forall|j: int, l: int| 0 <= j < l < runs2.len() implies #[trigger] runs2[j].0 < #[trigger] runs2[l].0 by {
        if l < runs.len() {
            assert(runs2[j] == runs[j] && runs2[l] == runs[l]);
        } else {
            assert(runs2[j] == runs[j]);
        }
    }
    assert forall|a: int, b: int| #[trigger] number_run(s, a, b) && a < i + 1 implies
        exists|j: int| 0 <= j < runs2.len() && #[trigger] runs2[j].0 == a by {
        if a < start {
            let j = choose|j: int| 0 <= j < runs.len() && #[trigger] runs[j].0 == a;
            assert(runs2[j] == runs[j]);
        } else if start < a && a < i {
            assert(is_digit(s[a - 1]));
        } else if a == i {
            assert(s.subrange(a, b)[0] == s[a]);
        } else {
            if b < i {
                assert(is_digit(s[b]));
            }
            if b > i {
                assert(s.subrange(a, b)[i - a] == s[i]);
            }
            assert(runs2[runs.len() as int].0 == a);
        }
    }
}

/// A year-month label: exactly two numbers, a plausible year then a month.
fn year_month_chars(v: &Vec<char>) -> (r: Option<Date>)
    ensures
        r == year_month_of(v@),
{
    let n = v.len();
    // (start, end, value) of each number seen so far, left to right.
    let mut runs: Vec<(usize, usize, i64)> = Vec::new();
    let mut start: usize = 0;
    let mut i: usize = 0;
    while i < n
        invariant
            n == v@.len(),
            start <= i <= n,
            start == 0 || !is_digit(v@[start - 1]),
            forall|k: int| start <= k < i ==> is_digit(#[trigger] v@[k]),
            runs_ok(v@, runs@, start as int),
        decreases n - i,
    {
        if '0' <= v[i] && v[i] <= '9' {
            i = i + 1;
        } else {
            let ghost old_runs = runs@;
            self::close_run(v, start, i, &mut runs);
            proof {
                lemma_runs_step(v@, old_runs, runs@, start as int, i as int);
            }
            i = i + 1;
            start = i;
        }
    }
    let ghost old_runs = runs@;
    self::close_run(v, start, n, &mut runs);
    proof {
        lemma_runs_step(v@, old_runs, runs@, start as int, n as int);
    }
    if runs.len() == 2 {
        let (a1, b1, y) = runs[0];
        let (a2, b2, m) = runs[1];
        proof {
            assert(number_run(v@, runs@[0].0 as int, runs@[0].1 as int));
            assert(number_run(v@, runs@[1].0 as int, runs@[1].1 as int));
            assert(runs@[0].0 < runs@[1].0);
            assert(exactly_two_numbers(v@, a1 as int, b1 as int, a2 as int, b2 as int)) by {
                assert forall|a: int, b: int| #[trigger] number_run(v@, a, b) implies a == a1 || a == a2 by {
                    let j = choose|j: int| 0 <= j < runs@.len() && #[trigger] runs@[j].0 == a;
                }
            }
            let (c1, d1, c2, d2) = choose|c1: int, d1: int, c2: int, d2: int| exactly_two_numbers(v@, c1, d1, c2, d2);
            assert(c1 == a1 as int || c1 == a2 as int);
            assert(c2 == a1 as int || c2 == a2 as int);
            assert(c1 == a1 as int && c2 == a2 as int);
            lemma_run_end(v@, a1 as int, b1 as int, d1);
            lemma_run_end(v@, a2 as int, b2 as int, d2);
        }
        if 1970 <= y && y <= 3000 && 1 <= m && m <= 12 {
            return Some(Date { year: y, month: m as u32, day: 1 });
        }
        return None;
    }
    proof {
        assert forall|a1: int, b1: int, a2: int, b2: int| !exactly_two_numbers(v@, a1, b1, a2, b2) by {
            if exactly_two_numbers(v@, a1, b1, a2, b2) {
                assert(number_run(v@, a1, b1) && number_run(v@, a2, b2));
                let j1 = choose|j: int| 0 <= j < runs@.len() && #[trigger] runs@[j].0 == a1;
                let j2 = choose|j: int| 0 <= j < runs@.len() && #[trigger] runs@[j].0 == a2;
                assert(j1 != j2);
                assert(runs@.len() >= 3);
                assert(number_run(v@, runs@[0].0 as int, runs@[0].1 as int));
                assert(number_run(v@, runs@[1].0 as int, runs@[1].1 as int));
                assert(number_run(v@, runs@[2].0 as int, runs@[2].1 as int));
                assert(runs@[0].0 < runs@[1].0);
                assert(runs@[1].0 < runs@[2].0);
            }
        }
    }
    None
}

/// Appends the number spelled by the digit run `v[start..end]`, if it is
/// non-empty and fits an `i64`.
fn close_run(v: &Vec<char>, start: usize, end: usize, runs: &mut Vec<(usize, usize, i64)>)
    requires
        start <= end <= v@.len(),
        forall|k: int| start <= k < end ==> is_digit(#[trigger] v@[k]),
    ensures
        final(runs)@ == (if start < end && digits_value(v@.subrange(start as int, end as int)) <= i64::MAX {
            old(runs)@.push((start, end, digits_value(v@.subrange(start as int, end as int)) as i64))
        } else {
            old(runs)@
        }),
{
    if start < end {
        proof {
            assert forall|k: int| 0 <= k < end - start implies is_digit(#[trigger] v@.subrange(start as int, end as int)[k]) by {
                assert(v@.subrange(start as int, end as int)[k] == v@[start + k]);
            }
        }
        if let Some(val) = parse_digits(v, start, end) {
            runs.push((start, end, val));
        }
    }
}

/// Two number runs that start together end together.
proof fn lemma_run_end(s: Seq<char>, a: int, b: int, b2: int)
    requires
        number_run(s, a, b),
        number_run(s, a, b2),
    ensures
        b == b2,
{
    if b < b2 {
        assert(s.subrange(a, b2)[b - a] == s[b]);
    }
    if b2 < b {
        assert(s.subrange(a, b)[b2 - a] == s[b2]);
    }
}

/// Parse a series period *label* into a date for ordering and seasonal
/// comparison. Handles the numeric forms `parse_due` does (ISO `2026-06-26`,
/// US `6/16/2026`) plus the month forms CLIs use for cycles: `Jun 2026`,
/// `June 2026`, and `2026-06` (day defaults to 1). Returns None if no date is
/// recognizable.
pub fn parse_label(s: &str) -> (r: Option<Date>)
    ensures
        r == label_date_of(s@),
{
    let v = chars_of(s);
    if let Some(d) = parse_due_chars(&v) {
        return Some(d);
    }
    proof {
        lemma_first_month_bound(v@, 0);
    }
    if let Some(m) = first_month(&v) {
        if let Some(year) = four_digit_year(&v) {
            assert(first_month_from(v@, 0) == Some(m as int));
            assert(first_year_from(v@, 0) == Some(year as int));
            return Some(Date { year, month: (m + 1) as u32, day: 1 });
        }
    }
    year_month_chars(&v)
}

} // verus!
