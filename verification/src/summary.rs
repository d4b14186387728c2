use vstd::prelude::*;
use vstd::string::StringExecFns;
use crate::digits::{four_digits, push_four_digits, push_two_digits, two_digits};
use crate::duration::{span_minutes, HumanDuration};
use crate::entry::{entries_wf, Entry};
use crate::timestamp::{days_in_month, days_in_month_s};

verus! {

/// One derived aggregate row per calendar month, never persisted. The
/// hours-per-week figure of the display is a floating-point quotient and is
/// computed by the caller from `total_hours` and `days_in_month`.
#[derive(Clone, Debug, PartialEq, Eq)]
pub struct SummaryItem {
    /// Year of the month summarized.
    pub year: u16,
    /// Month summarized, 1 through 12.
    pub month: u8,
    /// Display key, `YYYY/MM MonthName`: its zero-padded prefix makes
    /// lexicographic order chronological across years.
    pub month_key: String,
    /// Sum of the durations of the month's entries.
    pub total_hours: HumanDuration,
    /// Count of distinct calendar days carrying at least one entry.
    pub days: usize,
    /// Count of entries in the month.
    pub nitems: usize,
    /// Length of the calendar month in days.
    pub days_in_month: u8,
}

/// The entry's start falls in month `m` of year `y`.
pub open spec fn in_month(e: Entry, y: int, m: int) -> bool {
    e.start_time.year == y && e.start_time.month == m
}

/// The entry's span in minutes.
pub open spec fn entry_minutes(e: Entry) -> int {
    span_minutes(e.start_time, e.end_time)
}

/// Number of entries of the given month.
pub open spec fn month_count(s: Seq<Entry>, y: int, m: int) -> int
    decreases s.len(),
{
    if s.len() == 0 {
        0
    } else {
        month_count(s.drop_last(), y, m) + if in_month(s.last(), y, m) {
            1int
        } else {
            0int
        }
    }
}

/// Sum of the spans, in minutes, of the given month's entries.
pub open spec fn month_total_minutes(s: Seq<Entry>, y: int, m: int) -> int
    decreases s.len(),
{
    if s.len() == 0 {
        0
    } else {
        month_total_minutes(s.drop_last(), y, m) + if in_month(s.last(), y, m) {
            entry_minutes(s.last())
        } else {
            0int
        }
    }
}

/// The distinct days of the month on which an entry starts.
pub open spec fn month_days(s: Seq<Entry>, y: int, m: int) -> Set<int> {
    Set::new(
        |d: int|
            exists|i: int|
                0 <= i < s.len() && in_month(#[trigger] s[i], y, m) && s[i].start_time.day == d,
    )
}

/// The months, as year-month pairs, in which some entry starts.
pub open spec fn months_of(s: Seq<Entry>) -> Set<(int, int)> {
    Set::new(
        |ym: (int, int)|
            exists|i: int| 0 <= i < s.len() && in_month(#[trigger] s[i], ym.0, ym.1),
    )
}

/// English name of month `m`.
pub open spec fn month_name(m: int) -> Seq<char> {
    if m == 1 {
        "January"@
    } else if m == 2 {
        "February"@
    } else if m == 3 {
        "March"@
    } else if m == 4 {
        "April"@
    } else if m == 5 {
        "May"@
    } else if m == 6 {
        "June"@
    } else if m == 7 {
        "July"@
    } else if m == 8 {
        "August"@
    } else if m == 9 {
        "September"@
    } else if m == 10 {
        "October"@
    } else if m == 11 {
        "November"@
    } else {
        "December"@
    }
}

/// The display key of a month: zero-padded year, a slash, the zero-padded
/// month number, a space, and the month's name.
pub open spec fn month_key_spec(y: int, m: int) -> Seq<char> {
    four_digits(y) + seq!['/'] + two_digits(m) + seq![' '] + month_name(m)
}

/// English name of month `m`.
fn month_name_str(m: u8) -> (r: &'static str)
    requires
        1 <= m <= 12,
    ensures
        r@ == month_name(m as int),
{
    match m {
        1 => "January",
        2 => "February",
        3 => "March",
        4 => "April",
        5 => "May",
        6 => "June",
        7 => "July",
        8 => "August",
        9 => "September",
        10 => "October",
        11 => "November",
        _ => "December",
    }
}

/// The display key of a month, as in `2024/01 January`.
pub fn month_key(year: u16, month: u8) -> (r: String)
    requires
        1 <= month <= 12,
    ensures
        r@ == month_key_spec(year as int, month as int),
{
    let mut s = String::new();
    push_four_digits(&mut s, year as u64);
    s.append("/");
    push_two_digits(&mut s, month as u64);
    s.append(" ");
    s.append(month_name_str(month));
    proof {
        reveal_strlit("/");
        reveal_strlit(" ");
        assert(s@ =~= month_key_spec(year as int, month as int));
    }
    s
}

/// Strict chronological order on year-month pairs.
pub open spec fn ym_lt(a: (u16, u8), b: (u16, u8)) -> bool {
    a.0 < b.0 || (a.0 == b.0 && a.1 < b.1)
}

/// Some row of `r` is for the month the entry falls in.
pub open spec fn month_listed(r: Seq<SummaryItem>, e: Entry) -> bool {
    exists|i: int|
        0 <= i < r.len() && in_month(e, (#[trigger] r[i]).year as int, r[i].month as int)
}

/// Every entry of `s` has its month summarized by some row of `r`.
pub open spec fn covers(s: Seq<Entry>, r: Seq<SummaryItem>) -> bool {
    forall|k: int| 0 <= k < s.len() ==> month_listed(r, #[trigger] s[k])
}

/// The item correctly summarizes the given month of the entries `s`.
pub open spec fn summary_ok(s: Seq<Entry>, item: SummaryItem) -> bool {
    &&& months_of(s).contains((item.year as int, item.month as int))
    &&& item.month_key@ == month_key_spec(item.year as int, item.month as int)
    &&& item.total_hours.total_minutes() == month_total_minutes(
        s,
        item.year as int,
        item.month as int,
    )
    &&& (month_total_minutes(s, item.year as int, item.month as int) >= 0
        ==> item.total_hours.wf())
    &&& item.nitems == month_count(s, item.year as int, item.month as int)
    &&& item.days == month_days(s, item.year as int, item.month as int).len()
    &&& item.days_in_month == days_in_month_s(item.year as int, item.month as int)
}

/// The span of a well-formed entry is below 5258964960 minutes either way.
proof fn lemma_entry_minutes_bound(e: Entry)
    requires
        e.wf(),
    ensures
        -5258964960 < entry_minutes(e) < 5258964960,
{
    crate::timestamp::lemma_total_secs_bounds(e.start_time);
    crate::timestamp::lemma_total_secs_bounds(e.end_time);
    assert(crate::timestamp::secs_end() == 315537897600);
    let a = e.start_time.total_secs();
    let b = e.end_time.total_secs();
    if b >= a {
        vstd::arithmetic::div_mod::lemma_div_is_ordered(b - a, 315537897599, 60);
        assert(315537897599int / 60 == 5258964959);
    } else {
        vstd::arithmetic::div_mod::lemma_div_is_ordered(a - b, 315537897599, 60);
        assert(315537897599int / 60 == 5258964959);
    }
}

/// A month's total stays within `len * 5258964960` minutes either way.
proof fn lemma_month_total_bound(s: Seq<Entry>, y: int, m: int)
    requires
        entries_wf(s),
    ensures
        -(s.len() * 5258964960) <= month_total_minutes(s, y, m) <= s.len() * 5258964960,
    decreases s.len(),
{
    if s.len() > 0 {
        assert(entries_wf(s.drop_last())) by {
            assert(forall|i: int|
                0 <= i < s.len() - 1 ==> s.drop_last()[i] == (#[trigger] s[i]));
        }
        lemma_month_total_bound(s.drop_last(), y, m);
        if in_month(s.last(), y, m) {
            assert(s.last().wf());
            lemma_entry_minutes_bound(s.last());
        }
    }
}

/// Taking one more entry extends a month's day set by that entry's start
/// day when the entry belongs to the month, and not otherwise.
proof fn lemma_month_days_step(s: Seq<Entry>, k: int, y: int, m: int)
    requires
        0 <= k < s.len(),
    ensures
        in_month(s[k], y, m) ==> month_days(s.take(k + 1), y, m) == month_days(
            s.take(k),
            y,
            m,
        ).insert(s[k].start_time.day as int),
        !in_month(s[k], y, m) ==> month_days(s.take(k + 1), y, m) == month_days(s.take(k), y, m),
{
    let a = month_days(s.take(k), y, m);
    let b = month_days(s.take(k + 1), y, m);
    assert(forall|i: int| 0 <= i < k + 1 ==> s.take(k + 1)[i] == #[trigger] s[i]);
    assert(forall|i: int| 0 <= i < k ==> s.take(k)[i] == #[trigger] s[i]);
    let day0 = s[k].start_time.day as int;
    assert forall|d: int| b.contains(d) implies (a.contains(d) || (in_month(s[k], y, m) && d
        == day0)) by {
        let i = choose|i: int|
            0 <= i < s.take(k + 1).len() && in_month(#[trigger] s.take(k + 1)[i], y, m) && s.take(
                k + 1,
            )[i].start_time.day == d;
        if i < k {
            assert(in_month(s.take(k)[i], y, m) && s.take(k)[i].start_time.day == d);
        }
    }
    assert forall|d: int| a.contains(d) implies b.contains(d) by {
        let i = choose|i: int|
            0 <= i < s.take(k).len() && in_month(#[trigger] s.take(k)[i], y, m) && s.take(
                k,
            )[i].start_time.day == d;
        assert(in_month(s.take(k + 1)[i], y, m) && s.take(k + 1)[i].start_time.day == d);
    }
    if in_month(s[k], y, m) {
        assert(b.contains(s[k].start_time.day as int)) by {
            assert(in_month(s.take(k + 1)[k], y, m));
        }
        assert(b =~= a.insert(s[k].start_time.day as int));
    } else {
        assert(b =~= a);
    }
}

/// Taking one more entry adds its span and its count to a month's totals
/// when the entry belongs to the month, and nothing otherwise.
proof fn lemma_month_scalar_step(s: Seq<Entry>, k: int, y: int, m: int)
    requires
        0 <= k < s.len(),
    ensures
        month_total_minutes(s.take(k + 1), y, m) == month_total_minutes(s.take(k), y, m)
            + if in_month(s[k], y, m) {
            entry_minutes(s[k])
        } else {
            0int
        },
        month_count(s.take(k + 1), y, m) == month_count(s.take(k), y, m) + if in_month(
            s[k],
            y,
            m,
        ) {
            1int
        } else {
            0int
        },
{
    assert(s.take(k + 1).drop_last() =~= s.take(k));
    assert(s.take(k + 1).last() == s[k]);
}

/// A prefix of well-formed entries is made of well-formed entries.
proof fn lemma_entries_wf_take(s: Seq<Entry>, k: int)
    requires
        entries_wf(s),
        0 <= k <= s.len(),
    ensures
        entries_wf(s.take(k)),
{
    assert(forall|i: int| 0 <= i < k ==> s.take(k)[i] == (#[trigger] s[i]));
}

/// Whether the day already stands in the list.
fn day_listed(seen: &Vec<u8>, d: u8) -> (r: bool)
    ensures
        r == seen@.contains(d),
{
    let mut k: usize = 0;
    while k < seen.len()
        invariant
            k <= seen@.len(),
            forall|i: int| 0 <= i < k ==> seen@[i] != d,
        decreases seen@.len() - k,
    {
        if seen[k] == d {
            return true;
        }
        k = k + 1;
    }
    false
}

/// The aggregate row of one month of the entries: the total duration, the
/// count of distinct active days, the entry count, and the month's length.
#[verifier::rlimit(100)]
fn summarize_month(entries: &Vec<Entry>, y: u16, m: u8) -> (item: SummaryItem)
    requires
        entries_wf(entries@),
        entries@.len() <= 1000000000,
        1 <= m <= 12,
    ensures
        item.year == y,
        item.month == m,
        item.month_key@ == month_key_spec(y as int, m as int),
        item.total_hours.total_minutes() == month_total_minutes(entries@, y as int, m as int),
        month_total_minutes(entries@, y as int, m as int) >= 0 ==> item.total_hours.wf(),
        item.nitems == month_count(entries@, y as int, m as int),
        item.days == month_days(entries@, y as int, m as int).len(),
        item.days_in_month == days_in_month_s(y as int, m as int),
{
    let ghost s = entries@;
    let ghost yi = y as int;
    let ghost mi = m as int;
    let mut total: i64 = 0;
    let mut nitems: usize = 0;
    let mut seen: Vec<u8> = Vec::new();
    let mut k: usize = 0;
    while k < entries.len()
        invariant
            k <= s.len() <= 1000000000,
            s == entries@,
            yi == y as int,
            mi == m as int,
            entries_wf(s),
            total == month_total_minutes(s.take(k as int), yi, mi),
            -(k * 5258964960) <= total <= k * 5258964960,
            nitems == month_count(s.take(k as int), yi, mi),
            nitems <= k,
            seen@.no_duplicates(),
            seen@.map_values(|dd: u8| dd as int).to_set() == month_days(s.take(k as int), yi, mi),
        decreases s.len() - k,
    {
        let e = &entries[k];
        proof {
            assert(*e == s[k as int]);
            assert(s[k as int].wf());
            lemma_entry_minutes_bound(s[k as int]);
            lemma_entries_wf_take(s, k as int + 1);
            lemma_month_total_bound(s.take(k as int + 1), yi, mi);
            lemma_month_scalar_step(s, k as int, yi, mi);
            lemma_month_days_step(s, k as int, yi, mi);
        }
        if e.start_time.year == y && e.start_time.month == m {
            let d = e.duration();
            proof {
                assert(in_month(s[k as int], yi, mi));
                assert(d.hours * 60 + d.minutes == entry_minutes(s[k as int]));
                assert(-60 < d.minutes < 60);
                assert(-5258965020 <= d.hours * 60 <= 5258965020);
                assert(-87649417 <= d.hours <= 87649417) by (nonlinear_arith)
                    requires
                        -5258965020 <= d.hours * 60 <= 5258965020,
                ;
            }
            total = total + d.hours * 60 + d.minutes;
            nitems = nitems + 1;
            let day = e.start_time.day;
            if !day_listed(&seen, day) {
                let ghost old_seen = seen@;
                seen.push(day);
                proof {
                    let f = |dd: u8| dd as int;
                    assert(seen@.map_values(f) =~= old_seen.map_values(f) + seq![day as int]);
                    Seq::<int>::lemma_to_set_insert_commutes(old_seen.map_values(f), day as int);
                    assert(seen@.no_duplicates()) by {
                        assert forall|i: int, j: int|
                            #![trigger seen@[i], seen@[j]]
                            0 <= i < j < seen@.len() implies seen@[i] != seen@[j] by {
                            if j == seen@.len() - 1 {
                                assert(old_seen[i] != day);
                            } else {
                                assert(old_seen[i] != old_seen[j]);
                            }
                        }
                    }
                }
            } else {
                proof {
                    let f = |dd: u8| dd as int;
                    assert(seen@.map_values(f).to_set().contains(day as int)) by {
                        let i = choose|i: int| 0 <= i < seen@.len() && seen@[i] == day;
                        assert(seen@.map_values(f)[i] == day as int);
                        assert(seen@.map_values(f).contains(day as int));
                    }
                    assert(seen@.map_values(f).to_set().insert(day as int) =~= seen@.map_values(
                        f,
                    ).to_set());
                }
            }
        } else {
            proof {
                assert(!in_month(s[k as int], yi, mi));
            }
        }
        k = k + 1;
    }
    proof {
        assert(s.take(s.len() as int) =~= s);
        let ms = seen@.map_values(|dd: u8| dd as int);
        assert(ms.no_duplicates()) by {
            assert forall|i: int, j: int|
                #![trigger ms[i], ms[j]]
                0 <= i < j < ms.len() implies ms[i] != ms[j] by {
                assert(seen@[i] != seen@[j]);
            }
        }
        ms.unique_seq_to_set();
    }
    SummaryItem {
        year: y,
        month: m,
        month_key: month_key(y, m),
        total_hours: HumanDuration::from_minutes(total),
        days: seen.len(),
        nitems,
        days_in_month: days_in_month(y, m),
    }
}

/// The distinct months of the entries, in chronological order.
fn collect_months(entries: &Vec<Entry>) -> (r: Vec<(u16, u8)>)
    ensures
        forall|i: int, j: int| 0 <= i < j < r@.len() ==> ym_lt(#[trigger] r@[i], #[trigger] r@[j]),
        forall|i: int|
            0 <= i < r@.len() ==> months_of(entries@).contains(
                ((#[trigger] r@[i]).0 as int, r@[i].1 as int),
            ),
        forall|k: int|
            0 <= k < entries@.len() ==> r@.contains(
                ((#[trigger] entries@[k]).start_time.year, entries@[k].start_time.month),
            ),
{
    let ghost s = entries@;
    let mut r: Vec<(u16, u8)> = Vec::new();
    let mut k: usize = 0;
    while k < entries.len()
        invariant
            k <= s.len(),
            s == entries@,
            forall|i: int, j: int|
                0 <= i < j < r@.len() ==> ym_lt(#[trigger] r@[i], #[trigger] r@[j]),
            forall|i: int|
                0 <= i < r@.len() ==> months_of(s).contains(
                    ((#[trigger] r@[i]).0 as int, r@[i].1 as int),
                ),
            forall|q: int|
                0 <= q < k ==> r@.contains(
                    ((#[trigger] s[q]).start_time.year, s[q].start_time.month),
                ),
        decreases s.len() - k,
    {
        let ym: (u16, u8) = (entries[k].start_time.year, entries[k].start_time.month);
        let mut pos: usize = 0;
        while pos < r.len() && (r[pos].0 < ym.0 || (r[pos].0 == ym.0 && r[pos].1 < ym.1))
            invariant
                pos <= r@.len(),
                forall|q: int| 0 <= q < pos ==> ym_lt(#[trigger] r@[q], ym),
            decreases r@.len() - pos,
        {
            pos = pos + 1;
        }
        if pos == r.len() || !(r[pos].0 == ym.0 && r[pos].1 == ym.1) {
            let ghost before = r@;
            r.insert(pos, ym);
            proof {
                let after = r@;
                assert(after[pos as int] == ym);
                assert(forall|q: int| 0 <= q < pos ==> after[q] == before[q]);
                assert(forall|q: int|
                    pos < q < after.len() ==> after[q] == before[q - 1]);
                assert(forall|i: int, j: int|
                    0 <= i < j < after.len() ==> ym_lt(#[trigger] after[i], #[trigger] after[j]))
                    by {
                    assert(pos < before.len() ==> !ym_lt(before[pos as int], ym) && !(
                    before[pos as int].0 == ym.0 && before[pos as int].1 == ym.1));
                }
                assert(months_of(s).contains((ym.0 as int, ym.1 as int))) by {
                    assert(in_month(s[k as int], ym.0 as int, ym.1 as int));
                }
                assert(forall|q: int|
                    0 <= q < k ==> after.contains(
                        ((#[trigger] s[q]).start_time.year, s[q].start_time.month),
                    )) by {
                    assert forall|q: int|
                        0 <= q < k implies after.contains(
                        ((#[trigger] s[q]).start_time.year, s[q].start_time.month),
                    ) by {
                        let x = (s[q].start_time.year, s[q].start_time.month);
                        assert(before.contains(x));
                        let i = choose|i: int| 0 <= i < before.len() && before[i] == x;
                        if i < pos {
                            assert(after[i] == x);
                        } else {
                            assert(after[i + 1] == x);
                        }
                    }
                }
                assert(r@.contains((s[k as int].start_time.year, s[k as int].start_time.month)))
                    by {
                    assert(after[pos as int] == ym);
                }
            }
        } else {
            proof {
                assert(r@[pos as int] == ym);
                assert(r@.contains((s[k as int].start_time.year, s[k as int].start_time.month)));
            }
        }
        k = k + 1;
    }
    r
}

/// The per-month summary of a namespace's entries: one aggregate row per
/// calendar month that holds an entry, in chronological order of months.
/// Each row carries the month's key, the summed duration, the count of
/// distinct active days, the entry count, and the days of the month, from
/// which the caller derives its hours-per-week figure.
pub fn summarize(entries: &Vec<Entry>) -> (r: Vec<SummaryItem>)
    requires
        entries_wf(entries@),
        entries@.len() <= 1000000000,
    ensures
        forall|i: int, j: int|
            0 <= i < j < r@.len() ==> ym_lt(
                ((#[trigger] r@[i]).year, r@[i].month),
                ((#[trigger] r@[j]).year, r@[j].month),
            ),
        forall|i: int| 0 <= i < r@.len() ==> summary_ok(entries@, #[trigger] r@[i]),
        covers(entries@, r@),
{
    let ghost s = entries@;
    let months = collect_months(entries);
    let mut r: Vec<SummaryItem> = Vec::new();
    let mut k: usize = 0;
    while k < months.len()
        invariant
            k <= months@.len(),
            s == entries@,
            entries_wf(s),
            s.len() <= 1000000000,
            forall|i: int, j: int|
                0 <= i < j < months@.len() ==> ym_lt(
                    #[trigger] months@[i],
                    #[trigger] months@[j],
                ),
            forall|i: int|
                0 <= i < months@.len() ==> months_of(s).contains(
                    ((#[trigger] months@[i]).0 as int, months@[i].1 as int),
                ),
            r@.len() == k,
            forall|i: int|
                0 <= i < k ==> ((#[trigger] r@[i]).year, r@[i].month) == months@[i],
            forall|i: int| 0 <= i < k ==> summary_ok(s, #[trigger] r@[i]),
        decreases months@.len() - k,
    {
        let (y, m) = months[k];
        proof {
            assert(months_of(s).contains((y as int, m as int)));
            let i = choose|i: int| 0 <= i < s.len() && in_month(s[i], y as int, m as int);
            assert(s[i].wf());
        }
        let item = summarize_month(entries, y, m);
        r.push(item);
        k = k + 1;
    }
    proof {
        assert forall|k0: int| 0 <= k0 < entries@.len() implies month_listed(
            r@,
            #[trigger] entries@[k0],
        ) by {
            let ym = (entries@[k0].start_time.year, entries@[k0].start_time.month);
            assert(months@.contains(ym));
            let i = choose|i: int| 0 <= i < months@.len() && months@[i] == ym;
            assert(((r@[i]).year, r@[i].month) == ym);
            assert(r@[i].year == ym.0 && r@[i].month == ym.1);
            assert(0 <= i < r@.len() && in_month(
                entries@[k0],
                r@[i].year as int,
                r@[i].month as int,
            ));
        }
    }
    r
}

} // verus!
