use vstd::prelude::*;
use vstd::string::StrSliceExecFns;
use crate::digits::is_digit_char;
use crate::error::ClockError;
use crate::timestamp::{days_in_month, days_in_month_s, Timestamp};

verus! {

/// Value of a decimal digit character; `-1` for any other character.
pub open spec fn digit_val(c: char) -> int {
    if c == '0' {
        0
    } else if c == '1' {
        1
    } else if c == '2' {
        2
    } else if c == '3' {
        3
    } else if c == '4' {
        4
    } else if c == '5' {
        5
    } else if c == '6' {
        6
    } else if c == '7' {
        7
    } else if c == '8' {
        8
    } else if c == '9' {
        9
    } else {
        -1
    }
}

/// The `n` characters of `s` starting at `i` are decimal digits.
pub open spec fn digits_at(s: Seq<char>, i: int, n: int) -> bool {
    forall|k: int| i <= k < i + n ==> is_digit_char(#[trigger] s[k])
}

/// The two-digit number written at position `i`.
pub open spec fn num2(s: Seq<char>, i: int) -> int {
    digit_val(s[i]) * 10 + digit_val(s[i + 1])
}

/// The four-digit number written at position `i`.
pub open spec fn num4(s: Seq<char>, i: int) -> int {
    num2(s, i) * 100 + num2(s, i + 2)
}

/// The written fields name a well-formed timestamp.
pub open spec fn valid_ymdhms(y: int, mo: int, d: int, h: int, mi: int, sec: int) -> bool {
    &&& 1 <= y <= 9999
    &&& 1 <= mo <= 12
    &&& 1 <= d <= days_in_month_s(y, mo)
    &&& h <= 23
    &&& mi <= 59
    &&& sec <= 59
}

/// A full date and time, `YYYY-MM-DDTHH:MM:SS`, naming a well-formed
/// timestamp.
pub open spec fn is_full_datetime(s: Seq<char>) -> bool {
    &&& s.len() == 19
    &&& digits_at(s, 0, 4)
    &&& s[4] == '-'
    &&& digits_at(s, 5, 2)
    &&& s[7] == '-'
    &&& digits_at(s, 8, 2)
    &&& s[10] == 'T'
    &&& digits_at(s, 11, 2)
    &&& s[13] == ':'
    &&& digits_at(s, 14, 2)
    &&& s[16] == ':'
    &&& digits_at(s, 17, 2)
    &&& valid_ymdhms(num4(s, 0), num2(s, 5), num2(s, 8), num2(s, 11), num2(s, 14), num2(s, 17))
}

/// The timestamp a full date and time names.
pub open spec fn full_datetime_of(s: Seq<char>) -> Timestamp {
    Timestamp {
        year: num4(s, 0) as u16,
        month: num2(s, 5) as u8,
        day: num2(s, 8) as u8,
        hour: num2(s, 11) as u8,
        minute: num2(s, 14) as u8,
        second: num2(s, 17) as u8,
    }
}

/// A day-first date and time, `DD.MM.YYYY<sep>HH:MM` with `sep` a dash or a
/// space, naming a well-formed timestamp at second zero.
pub open spec fn is_dotted_datetime(s: Seq<char>, sep: char) -> bool {
    &&& s.len() == 16
    &&& digits_at(s, 0, 2)
    &&& s[2] == '.'
    &&& digits_at(s, 3, 2)
    &&& s[5] == '.'
    &&& digits_at(s, 6, 4)
    &&& s[10] == sep
    &&& digits_at(s, 11, 2)
    &&& s[13] == ':'
    &&& digits_at(s, 14, 2)
    &&& valid_ymdhms(num4(s, 6), num2(s, 3), num2(s, 0), num2(s, 11), num2(s, 14), 0)
}

/// The timestamp a day-first date and time names.
pub open spec fn dotted_datetime_of(s: Seq<char>) -> Timestamp {
    Timestamp {
        year: num4(s, 6) as u16,
        month: num2(s, 3) as u8,
        day: num2(s, 0) as u8,
        hour: num2(s, 11) as u8,
        minute: num2(s, 14) as u8,
        second: 0,
    }
}

/// A time of day without a trailing `h` marker.
pub open spec fn time_body(s: Seq<char>) -> Seq<char> {
    if s.len() > 0 && s.last() == 'h' {
        s.drop_last()
    } else {
        s
    }
}

/// A time of day: `H:MM`, `HH:MM` or `HHMM`, each with an optional
/// trailing `h`, the hour below 24 and the minute below 60.
pub open spec fn is_time_only(s: Seq<char>) -> bool {
    let b = time_body(s);
    ||| (b.len() == 4 && is_digit_char(b[0]) && b[1] == ':' && digits_at(b, 2, 2) && num2(b, 2)
        <= 59)
    ||| (b.len() == 5 && digits_at(b, 0, 2) && b[2] == ':' && digits_at(b, 3, 2) && num2(b, 0)
        <= 23 && num2(b, 3) <= 59)
    ||| (b.len() == 4 && digits_at(b, 0, 4) && num2(b, 0) <= 23 && num2(b, 2) <= 59)
}

/// The hour a time of day names.
pub open spec fn time_only_hour(s: Seq<char>) -> int {
    let b = time_body(s);
    if b.len() == 4 && b[1] == ':' {
        digit_val(b[0])
    } else if b.len() == 5 {
        num2(b, 0)
    } else {
        num2(b, 0)
    }
}

/// The minute a time of day names.
pub open spec fn time_only_minute(s: Seq<char>) -> int {
    let b = time_body(s);
    if b.len() == 5 {
        num2(b, 3)
    } else {
        num2(b, 2)
    }
}

/// The value of one decimal digit character.
fn digit_of(c: char) -> (r: Option<u8>)
    ensures
        match r {
            Some(d) => is_digit_char(c) && d == digit_val(c),
            None => !is_digit_char(c),
        },
{
    match c {
        '0' => Some(0),
        '1' => Some(1),
        '2' => Some(2),
        '3' => Some(3),
        '4' => Some(4),
        '5' => Some(5),
        '6' => Some(6),
        '7' => Some(7),
        '8' => Some(8),
        '9' => Some(9),
        _ => None,
    }
}

/// The two-digit number at position `i` of `s`.
fn parse_num2(s: &str, i: usize) -> (r: Option<u8>)
    requires
        i + 2 <= s@.len() <= usize::MAX,
    ensures
        match r {
            Some(v) => digits_at(s@, i as int, 2) && v == num2(s@, i as int),
            None => !digits_at(s@, i as int, 2),
        },
{
    let c0 = digit_of(s.get_char(i));
    let c1 = digit_of(s.get_char(i + 1));
    match (c0, c1) {
        (Some(a), Some(b)) => Some(10 * a + b),
        _ => None,
    }
}

/// The four-digit number at position `i` of `s`.
fn parse_num4(s: &str, i: usize) -> (r: Option<u16>)
    requires
        i + 4 <= s@.len() <= usize::MAX,
    ensures
        match r {
            Some(v) => digits_at(s@, i as int, 4) && v == num4(s@, i as int),
            None => !digits_at(s@, i as int, 4),
        },
{
    let hi = parse_num2(s, i);
    let lo = parse_num2(s, i + 2);
    match (hi, lo) {
        (Some(a), Some(b)) => Some(100 * (a as u16) + (b as u16)),
        _ => None,
    }
}

/// Builds the timestamp for parsed fields, rejecting any combination that
/// is not a well-formed date and time.
fn build_timestamp(y: u16, mo: u8, d: u8, h: u8, mi: u8, sec: u8) -> (r: Option<Timestamp>)
    ensures
        match r {
            Some(t) => valid_ymdhms(y as int, mo as int, d as int, h as int, mi as int, sec as int)
                && t == (Timestamp {
                year: y,
                month: mo,
                day: d,
                hour: h,
                minute: mi,
                second: sec,
            }),
            None => !valid_ymdhms(y as int, mo as int, d as int, h as int, mi as int, sec as int),
        },
{
    if 1 <= y && y <= 9999 && 1 <= mo && mo <= 12 && 1 <= d && d <= days_in_month(y, mo) && h <= 23
        && mi <= 59 && sec <= 59 {
        Some(Timestamp { year: y, month: mo, day: d, hour: h, minute: mi, second: sec })
    } else {
        None
    }
}

/// Parses the full date-time format.
fn parse_full_datetime(s: &str) -> (r: Option<Timestamp>)
    ensures
        match r {
            Some(t) => is_full_datetime(s@) && t == full_datetime_of(s@),
            None => !is_full_datetime(s@),
        },
{
    if s.unicode_len() != 19 {
        return None;
    }
    if !(s.get_char(4) == '-' && s.get_char(7) == '-' && s.get_char(10) == 'T' && s.get_char(13)
        == ':' && s.get_char(16) == ':') {
        return None;
    }
    let y = parse_num4(s, 0);
    let mo = parse_num2(s, 5);
    let d = parse_num2(s, 8);
    let h = parse_num2(s, 11);
    let mi = parse_num2(s, 14);
    let sec = parse_num2(s, 17);
    match (y, mo, d, h, mi, sec) {
        (Some(y), Some(mo), Some(d), Some(h), Some(mi), Some(sec)) => build_timestamp(
            y,
            mo,
            d,
            h,
            mi,
            sec,
        ),
        _ => None,
    }
}

/// Parses the day-first date-time format with the given separator.
fn parse_dotted_datetime(s: &str, sep: char) -> (r: Option<Timestamp>)
    ensures
        match r {
            Some(t) => is_dotted_datetime(s@, sep) && t == dotted_datetime_of(s@),
            None => !is_dotted_datetime(s@, sep),
        },
{
    if s.unicode_len() != 16 {
        return None;
    }
    if !(s.get_char(2) == '.' && s.get_char(5) == '.' && s.get_char(10) == sep && s.get_char(13)
        == ':') {
        return None;
    }
    let d = parse_num2(s, 0);
    let mo = parse_num2(s, 3);
    let y = parse_num4(s, 6);
    let h = parse_num2(s, 11);
    let mi = parse_num2(s, 14);
    match (y, mo, d, h, mi) {
        (Some(y), Some(mo), Some(d), Some(h), Some(mi)) => build_timestamp(y, mo, d, h, mi, 0),
        _ => None,
    }
}

/// Parses a bare time of day, returning its hour and minute.
fn parse_time_of_day(s: &str) -> (r: Option<(u8, u8)>)
    ensures
        match r {
            Some(hm) => is_time_only(s@) && hm.0 == time_only_hour(s@) && hm.1 == time_only_minute(
                s@,
            ) && hm.0 <= 23 && hm.1 <= 59,
            None => !is_time_only(s@),
        },
{
    let n = s.unicode_len();
    if n < 4 || n > 6 {
        return None;
    }
    let has_marker = s.get_char(n - 1) == 'h';
    let blen = if has_marker {
        n - 1
    } else {
        n
    };
    proof {
        if has_marker {
            assert(time_body(s@) =~= s@.drop_last());
        } else {
            assert(time_body(s@) =~= s@);
        }
    }
    if blen == 4 {
        if s.get_char(1) == ':' {
            let h = digit_of(s.get_char(0));
            let mi = parse_num2(s, 2);
            match (h, mi) {
                (Some(h), Some(mi)) => {
                    if mi <= 59 {
                        Some((h, mi))
                    } else {
                        None
                    }
                },
                _ => None,
            }
        } else {
            let h = parse_num2(s, 0);
            let mi = parse_num2(s, 2);
            match (h, mi) {
                (Some(h), Some(mi)) => {
                    if h <= 23 && mi <= 59 {
                        Some((h, mi))
                    } else {
                        None
                    }
                },
                _ => None,
            }
        }
    } else if blen == 5 {
        if s.get_char(2) != ':' {
            return None;
        }
        let h = parse_num2(s, 0);
        let mi = parse_num2(s, 3);
        match (h, mi) {
            (Some(h), Some(mi)) => {
                if h <= 23 && mi <= 59 {
                    Some((h, mi))
                } else {
                    None
                }
            },
            _ => None,
        }
    } else {
        None
    }
}

/// Parses a starting time given as a time of day alone: it names today at
/// that time when the time lies strictly before the current one, else
/// yesterday at that time, so a bare time never refers to the future.
/// Fails with `Parse`, carrying the input, on anything but a valid time of
/// day.
pub fn parse_starting_value_time(s: &str, current: Timestamp) -> (r: Result<Timestamp, ClockError>)
    requires
        current.wf(),
        current.day_index() >= 1,
    ensures
        match r {
            Ok(t) => {
                &&& is_time_only(s@)
                &&& t.wf()
                &&& t.second == 0
                &&& t.hour == time_only_hour(s@)
                &&& t.minute == time_only_minute(s@)
                &&& (current.secs_of_day() > time_only_hour(s@) * 3600 + time_only_minute(s@) * 60
                    ==> t.year == current.year && t.month == current.month && t.day == current.day)
                &&& (current.secs_of_day() <= time_only_hour(s@) * 3600 + time_only_minute(s@) * 60
                    ==> t.day_index() == current.day_index() - 1)
            },
            Err(err) => {
                &&& !is_time_only(s@)
                &&& err == ClockError::Parse(err->Parse_0)
                &&& err->Parse_0@ == s@
            },
        },
{
    match parse_time_of_day(s) {
        None => Err(ClockError::Parse(s.to_owned())),
        Some((h, mi)) => {
            let today = Timestamp {
                year: current.year,
                month: current.month,
                day: current.day,
                hour: h,
                minute: mi,
                second: 0,
            };
            let current_sod: u32 = (current.hour as u32) * 3600 + (current.minute as u32) * 60 + (
            current.second as u32);
            let given_sod: u32 = (h as u32) * 3600 + (mi as u32) * 60;
            if current_sod > given_sod {
                Ok(today)
            } else {
                proof {
                    crate::timestamp::lemma_total_secs_bounds(today);
                }
                match today.checked_shift_minutes(-1440) {
                    Some(t) => {
                        proof {
                            lemma_shift_back_one_day(today, t);
                        }
                        Ok(t)
                    },
                    None => {
                        proof {
                            assert(false);
                        }
                        Err(ClockError::Parse(s.to_owned()))
                    },
                }
            }
        },
    }
}

/// Moving a well-formed timestamp back by one whole day keeps its time of
/// day and lowers its day index by one.
proof fn lemma_shift_back_one_day(a: Timestamp, b: Timestamp)
    requires
        a.wf(),
        b.wf(),
        b.total_secs() == a.total_secs() - 86400,
    ensures
        b.hour == a.hour,
        b.minute == a.minute,
        b.second == a.second,
        b.day_index() == a.day_index() - 1,
{
    assert(0 <= a.secs_of_day() < 86400 && 0 <= b.secs_of_day() < 86400);
    assert(b.day_index() == a.day_index() - 1 && b.secs_of_day() == a.secs_of_day()) by {
        assert((b.day_index() - (a.day_index() - 1)) * 86400 == a.secs_of_day()
            - b.secs_of_day()) by (nonlinear_arith)
            requires
                b.day_index() * 86400 + b.secs_of_day() == (a.day_index() - 1) * 86400
                    + a.secs_of_day(),
        ;
        assert(b.day_index() == a.day_index() - 1) by (nonlinear_arith)
            requires
                (b.day_index() - (a.day_index() - 1)) * 86400 == a.secs_of_day()
                    - b.secs_of_day(),
                -86400 < a.secs_of_day() - b.secs_of_day() < 86400,
        ;
    }
    assert(b.hour == a.hour && b.minute == a.minute && b.second == a.second) by {
        assert(b.hour * 3600 + b.minute * 60 + b.second == a.hour * 3600 + a.minute * 60
            + a.second);
        lemma_time_of_day_unique(
            a.hour as int,
            a.minute as int,
            a.second as int,
            b.hour as int,
            b.minute as int,
            b.second as int,
        );
    }
}

/// A second of the day below 86400 decomposes into hour, minute and second
/// in exactly one way.
proof fn lemma_time_of_day_unique(h1: int, m1: int, s1: int, h2: int, m2: int, s2: int)
    requires
        0 <= h1 <= 23,
        0 <= m1 <= 59,
        0 <= s1 <= 59,
        0 <= h2 <= 23,
        0 <= m2 <= 59,
        0 <= s2 <= 59,
        h1 * 3600 + m1 * 60 + s1 == h2 * 3600 + m2 * 60 + s2,
    ensures
        h1 == h2,
        m1 == m2,
        s1 == s2,
{
    assert(h1 == h2) by (nonlinear_arith)
        requires
            h1 * 3600 + m1 * 60 + s1 == h2 * 3600 + m2 * 60 + s2,
            0 <= m1 <= 59 && 0 <= s1 <= 59 && 0 <= m2 <= 59 && 0 <= s2 <= 59,
    ;
    assert(m1 == m2) by (nonlinear_arith)
        requires
            m1 * 60 + s1 == m2 * 60 + s2,
            0 <= s1 <= 59 && 0 <= s2 <= 59,
    ;
}

/// Parses a user-supplied starting time, trying in order: the full
/// date-time, the day-first forms with a dash and with a space, and a bare
/// time of day resolved against the current time. Fails with `Parse`,
/// carrying the input, exactly when no format matches.
pub fn parse_starting_value(s: &str, current: Timestamp) -> (r: Result<Timestamp, ClockError>)
    requires
        current.wf(),
        current.day_index() >= 1,
    ensures
        match r {
            Ok(t) => {
                &&& t.wf()
                &&& (is_full_datetime(s@) || is_dotted_datetime(s@, '-') || is_dotted_datetime(
                    s@,
                    ' ',
                ) || is_time_only(s@))
                &&& (is_full_datetime(s@) ==> t == full_datetime_of(s@))
                &&& (is_dotted_datetime(s@, '-') ==> t == dotted_datetime_of(s@))
                &&& (is_dotted_datetime(s@, ' ') ==> t == dotted_datetime_of(s@))
                &&& (is_time_only(s@) ==> {
                    &&& t.second == 0
                    &&& t.hour == time_only_hour(s@)
                    &&& t.minute == time_only_minute(s@)
                    &&& (current.secs_of_day() > time_only_hour(s@) * 3600 + time_only_minute(s@)
                        * 60 ==> t.year == current.year && t.month == current.month && t.day
                        == current.day)
                    &&& (current.secs_of_day() <= time_only_hour(s@) * 3600 + time_only_minute(s@)
                        * 60 ==> t.day_index() == current.day_index() - 1)
                })
            },
            Err(err) => {
                &&& !is_full_datetime(s@)
                &&& !is_dotted_datetime(s@, '-')
                &&& !is_dotted_datetime(s@, ' ')
                &&& !is_time_only(s@)
                &&& err == ClockError::Parse(err->Parse_0)
                &&& err->Parse_0@ == s@
            },
        },
{
    proof {
        lemma_formats_disjoint(s@);
    }
    if let Some(t) = parse_full_datetime(s) {
        return Ok(t);
    }
    if let Some(t) = parse_dotted_datetime(s, '-') {
        return Ok(t);
    }
    if let Some(t) = parse_dotted_datetime(s, ' ') {
        return Ok(t);
    }
    parse_starting_value_time(s, current)
}

/// The accepted formats have pairwise different shapes, so at most one can
/// match a given input.
proof fn lemma_formats_disjoint(s: Seq<char>)
    ensures
        is_full_datetime(s) ==> !is_dotted_datetime(s, '-') && !is_dotted_datetime(s, ' ')
            && !is_time_only(s),
        is_dotted_datetime(s, '-') ==> !is_dotted_datetime(s, ' ') && !is_time_only(s),
        is_dotted_datetime(s, ' ') ==> !is_time_only(s),
{
    if s.len() == 16 {
        assert(!is_time_only(s)) by {
            assert(time_body(s).len() >= 15);
        }
    }
    if s.len() == 19 {
        assert(!is_time_only(s)) by {
            assert(time_body(s).len() >= 18);
        }
    }
    if is_dotted_datetime(s, '-') && is_dotted_datetime(s, ' ') {
        assert(s[10] == '-' && s[10] == ' ');
        assert(false);
    }
}

} // verus!
