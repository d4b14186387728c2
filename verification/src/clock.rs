use vstd::prelude::*;
use vstd::seq_lib::to_multiset_contains;
use crate::entry::{
    entries_overlap, entries_wf, overlaps_spec, sort_by_start, stable_sorted_by_start,
    ClockinTimestamp, Entry,
};
use crate::error::ClockError;
use crate::timestamp::{secs_end, Timestamp};

verus! {

/// The candidate collides with no entry of the sequence.
pub open spec fn no_overlap_spec(s: Seq<Entry>, e: Entry) -> bool {
    forall|i: int| 0 <= i < s.len() ==> !overlaps_spec(e, #[trigger] s[i])
}

/// The sequence `v` is the store after accepting `e` into `s`: exactly the
/// old entries, stably sorted by their starts, with `e` at the end.
pub open spec fn is_store_with(v: Seq<Entry>, s: Seq<Entry>, e: Entry) -> bool {
    v == stable_sorted_by_start(s).push(e)
}

/// Whether the candidate may enter the store: it overlaps none of the
/// existing entries. The scan is linear and assumes no order.
pub fn can_insert(entries: &Vec<Entry>, candidate: &Entry) -> (r: bool)
    requires
        entries_wf(entries@),
        candidate.wf(),
    ensures
        r == no_overlap_spec(entries@, *candidate),
{
    let mut k: usize = 0;
    while k < entries.len()
        invariant
            k <= entries@.len(),
            entries_wf(entries@),
            candidate.wf(),
            forall|m: int| 0 <= m < k ==> !overlaps_spec(*candidate, #[trigger] entries@[m]),
        decreases entries@.len() - k,
    {
        if entries_overlap(candidate, &entries[k]) {
            return false;
        }
        k = k + 1;
    }
    true
}

/// Sequences holding the same records hold the same members.
proof fn lemma_same_multiset_same_members(a: Seq<Entry>, b: Seq<Entry>)
    requires
        a.to_multiset() == b.to_multiset(),
    ensures
        forall|x: Entry| a.contains(x) <==> b.contains(x),
{
    assert forall|x: Entry| a.contains(x) <==> b.contains(x) by {
        to_multiset_contains(a, x);
        to_multiset_contains(b, x);
    }
}

/// Colliding with none of one arrangement of the records means colliding
/// with none of any other arrangement of the same records.
proof fn lemma_no_overlap_transfers(a: Seq<Entry>, b: Seq<Entry>, e: Entry)
    requires
        a.to_multiset() == b.to_multiset(),
    ensures
        no_overlap_spec(a, e) == no_overlap_spec(b, e),
{
    lemma_same_multiset_same_members(a, b);
    if no_overlap_spec(a, e) {
        assert forall|i: int| 0 <= i < b.len() implies !overlaps_spec(e, #[trigger] b[i]) by {
            assert(b.contains(b[i]));
            assert(a.contains(b[i]));
            let j = choose|j: int| 0 <= j < a.len() && a[j] == b[i];
            assert(!overlaps_spec(e, a[j]));
        }
    }
    if no_overlap_spec(b, e) {
        assert forall|i: int| 0 <= i < a.len() implies !overlaps_spec(e, #[trigger] a[i]) by {
            assert(a.contains(a[i]));
            assert(b.contains(a[i]));
            let j = choose|j: int| 0 <= j < b.len() && b[j] == a[i];
            assert(!overlaps_spec(e, b[j]));
        }
    }
}

/// The single write path of a namespace's history: sorts the store, checks
/// the candidate interval against every existing entry, and appends it.
/// Fails with `Overlap` — and leaves no trace — exactly when the candidate
/// collides with an existing entry.
pub fn add_entry(
    entries: Vec<Entry>,
    start: Timestamp,
    end: Timestamp,
    comment: Option<String>,
) -> (r: Result<Vec<Entry>, ClockError>)
    requires
        entries_wf(entries@),
        start.wf(),
        end.wf(),
    ensures
        match r {
            Ok(v) => {
                &&& no_overlap_spec(entries@, Entry { start_time: start, end_time: end, comment })
                &&& is_store_with(
                    v@,
                    entries@,
                    Entry { start_time: start, end_time: end, comment },
                )
                &&& entries_wf(v@)
            },
            Err(err) => {
                &&& err == ClockError::Overlap
                &&& !no_overlap_spec(
                    entries@,
                    Entry { start_time: start, end_time: end, comment },
                )
            },
        },
{
    let ghost orig = entries@;
    let mut entries = entries;
    sort_by_start(&mut entries);
    let candidate = Entry::create(start, end, comment);
    proof {
        lemma_no_overlap_transfers(orig, entries@, candidate);
    }
    if !can_insert(&entries, &candidate) {
        return Err(ClockError::Overlap);
    }
    let ghost sorted = entries@;
    entries.push(candidate);
    proof {
        assert(entries@.drop_last() =~= sorted);
    }
    Ok(entries)
}

/// A store already holding an entry of the same non-zero span admits no
/// duplicate: together with `add_entry`'s contract, inserting the same
/// entry a second time fails with `Overlap`.
pub proof fn lemma_duplicate_is_rejected(s: Seq<Entry>, e: Entry, i: int)
    requires
        0 <= i < s.len(),
        s[i].start_time.total_secs() == e.start_time.total_secs(),
        s[i].end_time.total_secs() == e.end_time.total_secs(),
        e.start_time.total_secs() < e.end_time.total_secs(),
    ensures
        !no_overlap_spec(s, e),
{
    assert(overlaps_spec(e, s[i]));
}

/// Starting the clock: refused with `AlreadyRunning` exactly when a marker
/// already exists; otherwise the new marker records the given start time.
/// An existing marker is never touched.
pub fn clock_in(marker: &Option<ClockinTimestamp>, start: Timestamp) -> (r: Result<
    ClockinTimestamp,
    ClockError,
>)
    ensures
        match r {
            Ok(m) => marker is None && m.start_time == start,
            Err(err) => err == ClockError::AlreadyRunning && marker is Some,
        },
{
    match marker {
        Some(_) => Err(ClockError::AlreadyRunning),
        None => Ok(ClockinTimestamp::starting(&start)),
    }
}

/// Stopping the clock: refused with `NotRunning` exactly when no marker
/// exists; otherwise the marker's start and the given end make the new
/// entry, which enters the store through the overlap check. On success the
/// caller deletes the marker; on an `Overlap` failure the marker is to be
/// kept, so the running clock survives for correction.
pub fn clock_out(
    marker: &Option<ClockinTimestamp>,
    entries: Vec<Entry>,
    end: Timestamp,
    comment: Option<String>,
) -> (r: Result<Vec<Entry>, ClockError>)
    requires
        entries_wf(entries@),
        end.wf(),
        marker is Some ==> marker->0.start_time.wf(),
    ensures
        match r {
            Ok(v) => {
                &&& marker is Some
                &&& is_store_with(
                    v@,
                    entries@,
                    Entry { start_time: marker->0.start_time, end_time: end, comment },
                )
                &&& no_overlap_spec(
                    entries@,
                    Entry { start_time: marker->0.start_time, end_time: end, comment },
                )
                &&& entries_wf(v@)
            },
            Err(err) => {
                &&& (err == ClockError::NotRunning <==> marker is None)
                &&& (marker is Some ==> err == ClockError::Overlap && !no_overlap_spec(
                    entries@,
                    Entry { start_time: marker->0.start_time, end_time: end, comment },
                ))
            },
        },
{
    match marker {
        None => Err(ClockError::NotRunning),
        Some(m) => add_entry(entries, m.start_time, end, comment),
    }
}

/// Aborting the clock: refused with `NotRunning` exactly when no marker
/// exists. On success the caller deletes the marker unconditionally; no
/// entry is produced and no overlap check runs.
pub fn abort_clock(marker: &Option<ClockinTimestamp>) -> (r: Result<(), ClockError>)
    ensures
        match r {
            Ok(u) => marker is Some,
            Err(err) => err == ClockError::NotRunning && marker is None,
        },
{
    match marker {
        None => Err(ClockError::NotRunning),
        Some(_) => Ok(()),
    }
}

/// Logging an arbitrary span directly, independent of any marker: the span
/// runs from the explicit start forward, or else backward from the current
/// time, and enters the store through the same overlap check as clock-out.
/// The shift must stay inside the supported years; `shift_in_range` tests
/// that beforehand.
pub fn clock_duration(
    entries: Vec<Entry>,
    minutes: i64,
    starting: Option<Timestamp>,
    current: Timestamp,
    comment: Option<String>,
) -> (r: Result<Vec<Entry>, ClockError>)
    requires
        entries_wf(entries@),
        current.wf(),
        starting is Some ==> starting->0.wf(),
        match starting {
            Some(s) => 0 <= s.total_secs() + minutes * 60 < secs_end(),
            None => 0 <= current.total_secs() - minutes * 60 < secs_end(),
        },
    ensures
        match r {
            Ok(v) => exists|s: Timestamp, e: Timestamp|
                {
                    &&& #[trigger] is_store_with(
                        v@,
                        entries@,
                        Entry { start_time: s, end_time: e, comment },
                    )
                    &&& s.wf() && e.wf()
                    &&& match starting {
                        Some(st) => s == st && e.total_secs() == st.total_secs() + minutes * 60,
                        None => e == current && s.total_secs() == current.total_secs() - minutes
                            * 60,
                    }
                    &&& no_overlap_spec(
                        entries@,
                        Entry { start_time: s, end_time: e, comment },
                    )
                    &&& entries_wf(v@)
                },
            Err(err) => {
                &&& err == ClockError::Overlap
                &&& exists|s: Timestamp, e: Timestamp|
                    {
                        &&& s.wf() && e.wf()
                        &&& match starting {
                            Some(st) => s == st && e.total_secs() == st.total_secs() + minutes
                                * 60,
                            None => e == current && s.total_secs() == current.total_secs()
                                - minutes * 60,
                        }
                        &&& !#[trigger] no_overlap_spec(
                            entries@,
                            Entry { start_time: s, end_time: e, comment },
                        )
                    }
            },
        },
{
    let (start, end) = match starting {
        Some(st) => {
            let end = match st.checked_shift_minutes(minutes) {
                Some(t) => t,
                None => {
                    proof {
                        assert(false);
                    }
                    st
                },
            };
            (st, end)
        },
        None => {
            let start = match current.checked_shift_minutes(-minutes) {
                Some(t) => t,
                None => {
                    proof {
                        assert(false);
                    }
                    current
                },
            };
            (start, current)
        },
    };
    add_entry(entries, start, end, comment)
}

/// Whether shifting `t` by `minutes` stays inside the supported years:
/// the executable test of `clock_duration`'s range premise.
pub fn shift_in_range(t: &Timestamp, minutes: i64) -> (r: bool)
    requires
        t.wf(),
    ensures
        r == (0 <= t.total_secs() + minutes * 60 < secs_end()),
{
    match t.checked_shift_minutes(minutes) {
        Some(_) => true,
        None => false,
    }
}

} // verus!
