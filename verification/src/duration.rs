use vstd::prelude::*;
use vstd::arithmetic::div_mod::lemma_fundamental_div_mod;
use vstd::string::StringExecFns;
use crate::digits::{
    dec_digits, is_digit_char, lemma_two_digits_shape, push_two_digits, two_digits,
};
use crate::timestamp::Timestamp;

verus! {

/// Minutes from `start` to `end`: the seconds between the two, divided by
/// sixty and truncated toward zero, so the sign follows the span.
pub open spec fn span_minutes(start: Timestamp, end: Timestamp) -> int {
    if end.total_secs() >= start.total_secs() {
        (end.total_secs() - start.total_secs()) / 60
    } else {
        -((start.total_secs() - end.total_secs()) / 60)
    }
}

/// Human readable elapsed time, no more precise than a minute.
///
/// A value is normalized when `minutes` lies in `[0, 60)`; `hours` is
/// unbounded. The mathematical meaning of a value is its total count of
/// minutes, `hours * 60 + minutes`.
#[derive(Clone, Copy, Debug, PartialEq, Eq, Structural)]
pub struct HumanDuration {
    pub hours: i64,
    pub minutes: i64,
}

impl HumanDuration {
    /// Total number of minutes this duration stands for.
    pub open spec fn total_minutes(self) -> int {
        self.hours * 60 + self.minutes
    }

    /// Normalized form: the minute part carries no whole hour.
    pub open spec fn wf(self) -> bool {
        0 <= self.minutes < 60
    }

    /// The additive identity.
    pub fn zero() -> (r: HumanDuration)
        ensures
            r.wf(),
            r.total_minutes() == 0,
            r == (HumanDuration { hours: 0, minutes: 0 }),
    {
        HumanDuration { hours: 0, minutes: 0 }
    }

    /// Sum of two durations: minutes are added, whole hours carried over,
    /// so the result is normalized again.
    pub fn add(self, other: HumanDuration) -> (r: HumanDuration)
        requires
            self.wf(),
            other.wf(),
            i64::MIN <= self.hours + other.hours,
            self.hours + other.hours + 1 <= i64::MAX,
        ensures
            r.wf(),
            r.total_minutes() == self.total_minutes() + other.total_minutes(),
    {
        let added_minutes = self.minutes + other.minutes;
        HumanDuration {
            hours: self.hours + other.hours + added_minutes / 60,
            minutes: added_minutes % 60,
        }
    }

    /// The duration standing for a total count of minutes: normalized for a
    /// non-negative total, with the sign on both fields otherwise.
    pub fn from_minutes(total: i64) -> (r: HumanDuration)
        ensures
            r.total_minutes() == total,
            total >= 0 ==> r.wf(),
            total < 0 ==> -60 < r.minutes <= 0 && r.hours <= 0,
    {
        if total >= 0 {
            let t = total as u64;
            proof {
                lemma_fundamental_div_mod(t as int, 60);
            }
            HumanDuration { hours: (t / 60) as i64, minutes: (t % 60) as i64 }
        } else {
            let t = if total == i64::MIN {
                proof {
                    lemma_fundamental_div_mod(0x8000000000000000, 60);
                }
                0x8000000000000000u64
            } else {
                proof {
                    lemma_fundamental_div_mod(-total as int, 60);
                }
                (-total) as u64
            };
            HumanDuration { hours: -((t / 60) as i64), minutes: -((t % 60) as i64) }
        }
    }

    /// Elapsed time between two instants, at minute granularity. For a
    /// backwards span the value is negative and not normalized; the rest of
    /// the system prevents such spans in normal use.
    pub fn from_span(start: &Timestamp, end: &Timestamp) -> (r: HumanDuration)
        requires
            start.wf(),
            end.wf(),
        ensures
            r.total_minutes() == span_minutes(*start, *end),
            start.total_secs() <= end.total_secs() ==> r.wf() && r.hours >= 0,
            start.total_secs() > end.total_secs() ==> -60 < r.minutes <= 0 && r.hours <= 0,
    {
        let ss = start.total_seconds();
        let es = end.total_seconds();
        if es >= ss {
            let mins = (es - ss) / 60;
            proof {
                lemma_fundamental_div_mod(mins as int, 60);
            }
            HumanDuration { hours: (mins / 60) as i64, minutes: (mins % 60) as i64 }
        } else {
            let mins = (ss - es) / 60;
            proof {
                lemma_fundamental_div_mod(mins as int, 60);
            }
            HumanDuration { hours: -((mins / 60) as i64), minutes: -((mins % 60) as i64) }
        }
    }

    /// Display form of a normalized duration: the hours zero-padded to at
    /// least two digits, a colon, the minutes as exactly two digits, and a
    /// literal `h`, as in `08:05h`. Hours above 99 keep all their digits.
    pub fn format(&self) -> (r: String)
        requires
            self.wf(),
            self.total_minutes() >= 0,
        ensures
            r@ == duration_display(*self),
    {
        proof {
            assert(self.hours >= 0) by {
                assert(self.hours * 60 + self.minutes >= 0 && self.minutes < 60);
                assert(self.hours * 60 >= -59);
                assert(self.hours >= 0) by (nonlinear_arith)
                    requires
                        self.hours * 60 >= -59,
                ;
            }
        }
        let mut s = String::new();
        push_two_digits(&mut s, self.hours as u64);
        s.append(":");
        push_two_digits(&mut s, self.minutes as u64);
        s.append("h");
        proof {
            reveal_strlit(":");
            reveal_strlit("h");
            assert(s@ =~= duration_display(*self));
        }
        s
    }
}

/// The character sequence `format` produces for a normalized duration.
pub open spec fn duration_display(d: HumanDuration) -> Seq<char> {
    two_digits(d.hours as int) + seq![':'] + two_digits(d.minutes as int) + seq!['h']
}

/// The display of any normalized, non-negative duration — in particular of
/// the duration of any entry whose end is not before its start — is two or
/// more digits, a colon, exactly two digits, and a final `h`.
pub proof fn lemma_duration_display_shape(d: HumanDuration)
    requires
        d.wf(),
        d.total_minutes() >= 0,
    ensures
        is_clock_display(duration_display(d)),
{
    assert(d.hours >= 0) by {
        assert(d.hours * 60 >= -59);
        assert(d.hours >= 0) by (nonlinear_arith)
            requires
                d.hours * 60 >= -59,
        ;
    }
    lemma_two_digits_shape(d.hours as int);
    lemma_two_digits_shape(d.minutes as int);
    let s = duration_display(d);
    let k = two_digits(d.hours as int).len() as int;
    assert(0 <= d.minutes < 10 ==> two_digits(d.minutes as int).len() == 2);
    assert(10 <= d.minutes < 60 ==> two_digits(d.minutes as int).len() == 2) by {
        assert(10 <= d.minutes < 60 ==> dec_digits(d.minutes as int) == dec_digits(
            d.minutes as int / 10,
        ).push(crate::digits::digit_char(d.minutes as int % 10)));
    }
    assert(s.len() == k + 4);
    assert(forall|i: int| 0 <= i < k ==> is_digit_char(#[trigger] s[i]));
    assert(s[k] == ':' && is_digit_char(s[k + 1]) && is_digit_char(s[k + 2]) && s[k + 3] == 'h');
}

/// A sequence of the shape `\d{2,}:\d\dh`: two or more digits, a colon, two
/// digits, and a final `h`.
pub open spec fn is_clock_display(s: Seq<char>) -> bool {
    exists|k: int|
        {
            &&& 2 <= k
            &&& s.len() == k + 4
            &&& (forall|i: int| 0 <= i < k ==> is_digit_char(#[trigger] s[i]))
            &&& #[trigger] s[k] == ':'
            &&& is_digit_char(s[k + 1])
            &&& is_digit_char(s[k + 2])
            &&& s[k + 3] == 'h'
        }
}

/// A normalized duration is determined by its total: two normalized
/// durations standing for the same number of minutes are equal.
pub proof fn lemma_total_determines_duration(a: HumanDuration, b: HumanDuration)
    requires
        a.wf(),
        b.wf(),
        a.total_minutes() == b.total_minutes(),
    ensures
        a == b,
{
    assert((a.hours - b.hours) * 60 == b.minutes - a.minutes) by {
        assert(a.hours * 60 + a.minutes == b.hours * 60 + b.minutes);
        assert(a.hours * 60 - b.hours * 60 == (a.hours - b.hours) * 60) by (nonlinear_arith);
    }
    assert(a.hours == b.hours) by (nonlinear_arith)
        requires
            (a.hours - b.hours) * 60 == b.minutes - a.minutes,
            0 <= a.minutes < 60,
            0 <= b.minutes < 60,
    ;
}

/// Addition of durations is commutative: adding `a` to `b` and `b` to `a`
/// yields the same normalized duration. The premises on `ab` and `ba` are
/// exactly what `add` ensures of its results.
pub proof fn lemma_add_commutative(
    a: HumanDuration,
    b: HumanDuration,
    ab: HumanDuration,
    ba: HumanDuration,
)
    requires
        a.wf(),
        b.wf(),
        ab.wf(),
        ba.wf(),
        ab.total_minutes() == a.total_minutes() + b.total_minutes(),
        ba.total_minutes() == b.total_minutes() + a.total_minutes(),
    ensures
        ab == ba,
{
    lemma_total_determines_duration(ab, ba);
}

/// Addition of durations is associative: summing `a`, `b`, `c` to the right
/// or to the left yields the same normalized duration. The premises on the
/// intermediate and final sums are exactly what `add` ensures of its results.
pub proof fn lemma_add_associative(
    a: HumanDuration,
    b: HumanDuration,
    c: HumanDuration,
    bc: HumanDuration,
    a_bc: HumanDuration,
    ab: HumanDuration,
    ab_c: HumanDuration,
)
    requires
        a.wf(),
        b.wf(),
        c.wf(),
        bc.wf(),
        a_bc.wf(),
        ab.wf(),
        ab_c.wf(),
        bc.total_minutes() == b.total_minutes() + c.total_minutes(),
        a_bc.total_minutes() == a.total_minutes() + bc.total_minutes(),
        ab.total_minutes() == a.total_minutes() + b.total_minutes(),
        ab_c.total_minutes() == ab.total_minutes() + c.total_minutes(),
    ensures
        a_bc == ab_c,
{
    lemma_total_determines_duration(a_bc, ab_c);
}

} // verus!
