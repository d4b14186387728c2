use vstd::prelude::*;
use vstd::arithmetic::div_mod::{
    lemma_fundamental_div_mod, lemma_fundamental_div_mod_converse, lemma_mod_mod,
};
use chrono::Datelike;
use chrono::Timelike;

verus! {

/// A point in local civil time, at second granularity, in the proleptic
/// Gregorian calendar. The supported range is year 1 through 9999.
///
/// The mathematical meaning of a well-formed value is `total_secs`, the
/// count of seconds since the start of year 1; two values compare as their
/// `total_secs` do.
#[derive(Clone, Copy, Debug, PartialEq, Eq, Structural)]
pub struct Timestamp {
    pub year: u16,
    pub month: u8,
    pub day: u8,
    pub hour: u8,
    pub minute: u8,
    pub second: u8,
}

/// Leap years of the Gregorian calendar.
pub open spec fn is_leap_year(y: int) -> bool {
    y % 4 == 0 && (y % 100 != 0 || y % 400 == 0)
}

/// Number of days in month `m` of year `y`.
pub open spec fn days_in_month_s(y: int, m: int) -> int {
    if m == 2 {
        if is_leap_year(y) {
            29
        } else {
            28
        }
    } else if m == 4 || m == 6 || m == 9 || m == 11 {
        30
    } else {
        31
    }
}

/// Days from the first of January of year `y` to the first of month `m`;
/// `m == 13` gives the length of the whole year.
pub open spec fn days_before_month_s(y: int, m: int) -> int {
    let flat: int = if m == 1 {
        0
    } else if m == 2 {
        31
    } else if m == 3 {
        59
    } else if m == 4 {
        90
    } else if m == 5 {
        120
    } else if m == 6 {
        151
    } else if m == 7 {
        181
    } else if m == 8 {
        212
    } else if m == 9 {
        243
    } else if m == 10 {
        273
    } else if m == 11 {
        304
    } else if m == 12 {
        334
    } else {
        365
    };
    flat + if m > 2 && is_leap_year(y) {
        1int
    } else {
        0int
    }
}

/// Days from the first of January of year 1 to the first of January of
/// year `y`.
pub open spec fn days_before_year_s(y: int) -> int {
    365 * (y - 1) + (y - 1) / 4 - (y - 1) / 100 + (y - 1) / 400
}

/// One past the largest `total_secs` of any well-formed timestamp.
pub open spec fn secs_end() -> int {
    days_before_year_s(10000) * 86400
}

/// `secs_end()` as a machine constant.
pub const SECS_END: u64 = 315537897600;

impl Timestamp {
    /// A well-formed timestamp: a valid calendar date of year 1 through
    /// 9999 and a valid time of day.
    pub open spec fn wf(self) -> bool {
        &&& 1 <= self.year <= 9999
        &&& 1 <= self.month <= 12
        &&& 1 <= self.day <= days_in_month_s(self.year as int, self.month as int)
        &&& self.hour <= 23
        &&& self.minute <= 59
        &&& self.second <= 59
    }

    /// Days since the first of January of year 1.
    pub open spec fn day_index(self) -> int {
        days_before_year_s(self.year as int) + days_before_month_s(
            self.year as int,
            self.month as int,
        ) + self.day - 1
    }

    /// Seconds since the start of year 1: the value a timestamp denotes.
    pub open spec fn total_secs(self) -> int {
        self.day_index() * 86400 + self.hour * 3600 + self.minute * 60 + self.second
    }

    /// Seconds into the day, ignoring the date.
    pub open spec fn secs_of_day(self) -> int {
        self.hour * 3600 + self.minute * 60 + self.second
    }
}

/// Number of days in month `month` of year `year`.
pub fn days_in_month(year: u16, month: u8) -> (r: u8)
    requires
        1 <= month <= 12,
    ensures
        r == days_in_month_s(year as int, month as int),
{
    if month == 2 {
        if year % 4 == 0 && (year % 100 != 0 || year % 400 == 0) {
            29
        } else {
            28
        }
    } else if month == 4 || month == 6 || month == 9 || month == 11 {
        30
    } else {
        31
    }
}

fn days_before_month(year: u16, month: u8) -> (r: u16)
    requires
        1 <= month <= 13,
    ensures
        r == days_before_month_s(year as int, month as int),
{
    let flat: u16 = if month == 1 {
        0
    } else if month == 2 {
        31
    } else if month == 3 {
        59
    } else if month == 4 {
        90
    } else if month == 5 {
        120
    } else if month == 6 {
        151
    } else if month == 7 {
        181
    } else if month == 8 {
        212
    } else if month == 9 {
        243
    } else if month == 10 {
        273
    } else if month == 11 {
        304
    } else if month == 12 {
        334
    } else {
        365
    };
    if month > 2 && year % 4 == 0 && (year % 100 != 0 || year % 400 == 0) {
        flat + 1
    } else {
        flat
    }
}

fn days_before_year(year: u32) -> (r: u32)
    requires
        1 <= year <= 10000,
    ensures
        r == days_before_year_s(year as int),
        r <= 3652059,
{
    let y = year - 1;
    let r = 365 * y + y / 4 - y / 100 + y / 400;
    proof {
        assert(days_before_year_s(10000) == 3652059);
        assert(365 * y + y / 4 >= y / 100) by {
            assert(y / 100 <= y);
        }
        assert(r <= 3652059) by {
            assert(365 * y <= 365 * 9999);
            assert(y / 4 <= 9999int / 4);
            assert(y / 400 <= 9999int / 400);
        }
    }
    r
}

/// Every well-formed timestamp denotes a second in `[0, secs_end())`.
pub proof fn lemma_total_secs_bounds(t: Timestamp)
    requires
        t.wf(),
    ensures
        0 <= t.total_secs() < secs_end(),
{
    assert(days_before_year_s(t.year as int) >= 0) by {
        let y = t.year as int - 1;
        assert(y / 100 <= y) by {
            lemma_fundamental_div_mod(y, 100);
            assert(100 * (y / 100) >= y / 100) by (nonlinear_arith)
                requires
                    y / 100 >= 0,
            ;
        }
        assert(y / 4 >= 0 && y / 400 >= 0);
        assert(365 * y >= y);
    }
    assert(t.day_index() < days_before_year_s(10000)) by {
        let y = t.year as int;
        let m = t.month as int;
        lemma_year_step(y);
        lemma_month_step(y, m);
        assert(days_before_month_s(y, m + 1) <= days_before_month_s(y, 13));
        assert(t.day_index() < days_before_year_s(y + 1));
        lemma_days_before_year_monotone(y + 1, 10000);
    }
}

/// `days_before_year_s` does not decrease as the year grows.
proof fn lemma_days_before_year_monotone(a: int, b: int)
    requires
        1 <= a <= b,
    ensures
        days_before_year_s(a) <= days_before_year_s(b),
    decreases b - a,
{
    if a < b {
        lemma_days_before_year_monotone(a, b - 1);
        lemma_year_step(b - 1);
    }
}

/// Step of integer division: dividing `y` rather than `y - 1` by `d` adds
/// one exactly when `d` divides `y`.
proof fn lemma_div_step(y: int, d: int)
    requires
        y >= 1,
        d >= 1,
    ensures
        y / d == (y - 1) / d + if y % d == 0 {
            1int
        } else {
            0int
        },
        (y % d == 0) <==> ((y - 1) % d == d - 1),
{
    let q = (y - 1) / d;
    let r = (y - 1) % d;
    lemma_fundamental_div_mod(y - 1, d);
    assert(0 <= r < d);
    if r == d - 1 {
        assert(y == (q + 1) * d + 0) by (nonlinear_arith)
            requires
                y - 1 == d * q + r,
                r == d - 1,
        ;
        lemma_fundamental_div_mod_converse(y, d, q + 1, 0);
    } else {
        assert(y == q * d + (r + 1)) by (nonlinear_arith)
            requires
                y - 1 == d * q + r,
        ;
        lemma_fundamental_div_mod_converse(y, d, q, r + 1);
    }
}

/// Divisibility by 400 implies divisibility by 100, and by 100 implies by 4.
proof fn lemma_divisibility_chain(y: int)
    requires
        y >= 0,
    ensures
        y % 400 == 0 ==> y % 100 == 0,
        y % 100 == 0 ==> y % 4 == 0,
        y % 400 == 0 ==> y % 4 == 0,
{
    lemma_mod_mod(y, 100, 4);
    lemma_mod_mod(y, 4, 25);
}

/// A year is 365 days long, or 366 in a leap year.
pub proof fn lemma_year_step(y: int)
    requires
        1 <= y,
    ensures
        days_before_year_s(y + 1) == days_before_year_s(y) + if is_leap_year(y) {
            366int
        } else {
            365int
        },
{
    lemma_div_step(y, 4);
    lemma_div_step(y, 100);
    lemma_div_step(y, 400);
    lemma_divisibility_chain(y);
}

/// The days before month `m + 1` are the days before `m` plus the length
/// of `m` itself.
pub proof fn lemma_month_step(y: int, m: int)
    requires
        1 <= m <= 12,
    ensures
        days_before_month_s(y, m + 1) == days_before_month_s(y, m) + days_in_month_s(y, m),
{
}

/// A well-formed timestamp is determined by the second it denotes: equal
/// `total_secs` means equal fields. A contract that fixes a result only
/// through its `total_secs` therefore fixes the whole value.
pub proof fn lemma_total_secs_injective(a: Timestamp, b: Timestamp)
    requires
        a.wf(),
        b.wf(),
        a.total_secs() == b.total_secs(),
    ensures
        a == b,
{
    assert(0 <= a.secs_of_day() < 86400 && 0 <= b.secs_of_day() < 86400);
    assert(a.day_index() == b.day_index()) by {
        assert(a.day_index() * 86400 + a.secs_of_day() == b.day_index() * 86400
            + b.secs_of_day());
        assert((a.day_index() - b.day_index()) * 86400 == b.secs_of_day() - a.secs_of_day())
            by (nonlinear_arith)
            requires
                a.day_index() * 86400 + a.secs_of_day() == b.day_index() * 86400
                    + b.secs_of_day(),
        ;
        assert(a.day_index() == b.day_index()) by (nonlinear_arith)
            requires
                (a.day_index() - b.day_index()) * 86400 == b.secs_of_day() - a.secs_of_day(),
                -86400 < b.secs_of_day() - a.secs_of_day() < 86400,
        ;
    }
    assert(a.hour == b.hour && a.minute == b.minute && a.second == b.second) by {
        assert(a.secs_of_day() == b.secs_of_day());
    }
    assert(a.year == b.year) by {
        lemma_day_index_in_year(a);
        lemma_day_index_in_year(b);
        if a.year < b.year {
            lemma_days_before_year_monotone(a.year as int + 1, b.year as int);
            assert(false);
        }
        if b.year < a.year {
            lemma_days_before_year_monotone(b.year as int + 1, a.year as int);
            assert(false);
        }
    }
    assert(a.month == b.month) by {
        lemma_month_step(a.year as int, a.month as int);
        lemma_month_step(b.year as int, b.month as int);
        assert(days_before_month_s(a.year as int, a.month as int) <= a.day_index()
            - days_before_year_s(a.year as int) < days_before_month_s(
            a.year as int,
            a.month as int + 1,
        ));
        if a.month < b.month {
            lemma_days_before_month_monotone(a.year as int, a.month as int + 1, b.month as int);
            assert(false);
        }
        if b.month < a.month {
            lemma_days_before_month_monotone(a.year as int, b.month as int + 1, a.month as int);
            assert(false);
        }
    }
}

/// The day index of a well-formed timestamp falls within its own year.
proof fn lemma_day_index_in_year(t: Timestamp)
    requires
        t.wf(),
    ensures
        days_before_year_s(t.year as int) <= t.day_index() < days_before_year_s(t.year as int + 1),
{
    lemma_year_step(t.year as int);
    lemma_month_step(t.year as int, t.month as int);
    assert(days_before_month_s(t.year as int, t.month as int + 1) <= days_before_month_s(
        t.year as int,
        13,
    ));
}

/// `days_before_month_s` does not decrease as the month grows.
proof fn lemma_days_before_month_monotone(y: int, a: int, b: int)
    requires
        1 <= a <= b <= 13,
    ensures
        days_before_month_s(y, a) <= days_before_month_s(y, b),
{
}

impl Timestamp {
    /// Seconds since the start of year 1, as a machine integer.
    pub fn total_seconds(&self) -> (r: u64)
        requires
            self.wf(),
        ensures
            r == self.total_secs(),
            r < SECS_END,
    {
        proof {
            lemma_total_secs_bounds(*self);
            assert(secs_end() == SECS_END);
        }
        let di: u64 = days_before_year(self.year as u32) as u64 + days_before_month(
            self.year,
            self.month,
        ) as u64 + (self.day - 1) as u64;
        di * 86400 + (self.hour as u64) * 3600 + (self.minute as u64) * 60 + (self.second as u64)
    }

    /// Whether `self` denotes a second no later than `other`.
    pub fn le(&self, other: &Timestamp) -> (r: bool)
        requires
            self.wf(),
            other.wf(),
        ensures
            r == (self.total_secs() <= other.total_secs()),
    {
        self.total_seconds() <= other.total_seconds()
    }

    /// Whether `self` denotes a second strictly earlier than `other`.
    pub fn lt(&self, other: &Timestamp) -> (r: bool)
        requires
            self.wf(),
            other.wf(),
        ensures
            r == (self.total_secs() < other.total_secs()),
    {
        self.total_seconds() < other.total_seconds()
    }
}

impl Timestamp {
    /// Executable check of `wf`.
    pub fn well_formed(&self) -> (r: bool)
        ensures
            r == self.wf(),
    {
        1 <= self.year && self.year <= 9999 && 1 <= self.month && self.month <= 12 && 1
            <= self.day && self.day <= days_in_month(self.year, self.month) && self.hour <= 23
            && self.minute <= 59 && self.second <= 59
    }
}

/// The minute-aligned timestamp with the given fields: `Some` exactly when
/// they name a supported, well-formed date and time, and then that
/// timestamp, with no second part.
pub fn timestamp_from_fields(year: i64, month: u8, day: u8, hour: u8, minute: u8) -> (r: Option<
    Timestamp,
>)
    ensures
        r is Some <==> (1 <= year <= 9999 && (Timestamp {
            year: year as u16,
            month,
            day,
            hour,
            minute,
            second: 0,
        }).wf()),
        r is Some ==> r->Some_0 == (Timestamp {
            year: year as u16,
            month,
            day,
            hour,
            minute,
            second: 0,
        }),
{
    if year < 1 || year > 9999 {
        return None;
    }
    let t = Timestamp { year: year as u16, month, day, hour, minute, second: 0 };
    if t.well_formed() {
        Some(t)
    } else {
        None
    }
}

/// Relies on `chrono::Local::now` for the current local date and time, and
/// on the `Datelike` / `Timelike` accessors to take its civil fields apart.
/// Nothing is assumed of the values: the caller validates them.
#[verifier::external_body]
fn local_now_fields() -> (r: (i64, u8, u8, u8, u8)) {
    let t = chrono::Local::now().naive_local();
    (t.year() as i64, t.month() as u8, t.day() as u8, t.hour() as u8, t.minute() as u8)
}

/// The current local time, rounded down to the start of the current minute,
/// or `None` when the system clock stands outside the supported years. The
/// clock's reading itself cannot be promised; how the read fields become a
/// timestamp is fixed by `timestamp_from_fields`.
pub fn now() -> (r: Option<Timestamp>)
    ensures
        r is Some ==> r->Some_0.wf() && r->Some_0.second == 0,
{
    let (year, month, day, hour, minute) = local_now_fields();
    timestamp_from_fields(year, month, day, hour, minute)
}

/// The well-formed timestamp denoting second `n` since the start of year 1.
pub fn from_total_seconds(n: u64) -> (r: Timestamp)
    requires
        n < SECS_END,
    ensures
        r.wf(),
        r.total_secs() == n,
{
    proof {
        assert(secs_end() == SECS_END);
    }
    let days: u32 = (n / 86400) as u32;
    let rem: u64 = n % 86400;
    let hour: u8 = (rem / 3600) as u8;
    let minute: u8 = ((rem % 3600) / 60) as u8;
    let second: u8 = (rem % 60) as u8;
    proof {
        assert(days < 3652059 && rem < 86400) by {
            lemma_fundamental_div_mod(n as int, 86400);
        }
        assert(hour <= 23 && minute <= 59 && second <= 59);
        assert(days * 86400 + hour * 3600 + minute * 60 + second == n) by {
            lemma_fundamental_div_mod(n as int, 86400);
            lemma_fundamental_div_mod(rem as int, 3600);
            lemma_fundamental_div_mod((rem as int) % 3600, 60);
            lemma_mod_mod(rem as int, 60, 60);
        }
    }
    let mut y: u32 = 1;
    while y < 9999 && days_before_year(y + 1) <= days
        invariant
            1 <= y <= 9999,
            days_before_year_s(y as int) <= days,
            days < 3652059,
        decreases 9999 - y,
    {
        y = y + 1;
    }
    proof {
        lemma_year_step(y as int);
        if y == 9999 {
            assert(days_before_year_s(10000) == 3652059);
        }
        assert(days < days_before_year_s(y as int + 1));
    }
    let doy: u32 = days - days_before_year(y);
    let mut m: u8 = 1;
    while m < 12 && (days_before_month(y as u16, m + 1) as u32) <= doy
        invariant
            1 <= m <= 12,
            1 <= y <= 9999,
            days_before_month_s(y as int, m as int) <= doy,
            doy < days_before_month_s(y as int, 13),
        decreases 12 - m,
    {
        m = m + 1;
    }
    proof {
        lemma_month_step(y as int, m as int);
        assert(doy < days_before_month_s(y as int, m as int + 1));
    }
    let day: u8 = (doy - days_before_month(y as u16, m) as u32 + 1) as u8;
    Timestamp { year: y as u16, month: m, day, hour, minute, second }
}

impl Timestamp {
    /// The timestamp `delta` minutes away from `self`, or `None` when that
    /// would leave the supported range of years.
    pub fn checked_shift_minutes(&self, delta: i64) -> (r: Option<Timestamp>)
        requires
            self.wf(),
        ensures
            match r {
                Some(t) => {
                    &&& t.wf()
                    &&& t.total_secs() == self.total_secs() + delta * 60
                    &&& 0 <= self.total_secs() + delta * 60 < secs_end()
                },
                None => !(0 <= self.total_secs() + delta * 60 < secs_end()),
            },
    {
        proof {
            assert(secs_end() == SECS_END);
        }
        let s = self.total_seconds();
        if delta > 6000000000 || delta < -6000000000 {
            proof {
                if delta > 6000000000 {
                    assert(delta * 60 > 315537897600) by (nonlinear_arith)
                        requires
                            delta > 6000000000,
                    ;
                }
                if delta < -6000000000 {
                    assert(delta * 60 < -315537897600) by (nonlinear_arith)
                        requires
                            delta < -6000000000,
                    ;
                }
            }
            return None;
        }
        let target: i64 = s as i64 + delta * 60;
        if target < 0 || target >= SECS_END as i64 {
            None
        } else {
            Some(from_total_seconds(target as u64))
        }
    }
}

} // verus!
