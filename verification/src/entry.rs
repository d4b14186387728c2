use vstd::prelude::*;
use crate::duration::{span_minutes, HumanDuration};
use crate::timestamp::Timestamp;

verus! {

/// A finalized record of one completed tracked interval `[start_time,
/// end_time)`, with an optional comment. Entries are immutable once
/// created; nothing here enforces `end_time > start_time` (a degenerate
/// entry is tolerated, as a bookkeeping no-op).
#[derive(Clone, Debug, PartialEq, Eq)]
pub struct Entry {
    /// Time the clock was started.
    pub start_time: Timestamp,
    /// Time the clock ended.
    pub end_time: Timestamp,
    /// Optional comment.
    pub comment: Option<String>,
}

/// The record of a started, not yet finalized clock. At most one exists
/// per namespace at any time.
#[derive(Clone, Copy, Debug, PartialEq, Eq, Structural)]
pub struct ClockinTimestamp {
    /// Time the clock was started.
    pub start_time: Timestamp,
}

impl Entry {
    /// Both bounds are well-formed timestamps.
    pub open spec fn wf(self) -> bool {
        self.start_time.wf() && self.end_time.wf()
    }

    /// A new clock entry with the given bounds and comment.
    pub fn create(start_time: Timestamp, end_time: Timestamp, comment: Option<String>) -> (r:
        Entry)
        ensures
            r == (Entry { start_time, end_time, comment }),
    {
        Entry { start_time, end_time, comment }
    }

    /// Entry construction with the data model's validation toggle: with
    /// `require_positive` set, a span whose end does not lie strictly after
    /// its start is refused; without it, construction is as permissive as
    /// `create`, tolerating zero-length and backwards spans.
    pub fn create_checked(
        start_time: Timestamp,
        end_time: Timestamp,
        comment: Option<String>,
        require_positive: bool,
    ) -> (r: Option<Entry>)
        requires
            start_time.wf(),
            end_time.wf(),
        ensures
            r is Some <==> (!require_positive || start_time.total_secs()
                < end_time.total_secs()),
            r is Some ==> r->Some_0 == (Entry { start_time, end_time, comment }),
    {
        if require_positive && !start_time.lt(&end_time) {
            None
        } else {
            Some(Entry::create(start_time, end_time, comment))
        }
    }

    /// Total duration of the entry, at minute granularity.
    pub fn duration(&self) -> (r: HumanDuration)
        requires
            self.wf(),
        ensures
            r.total_minutes() == span_minutes(self.start_time, self.end_time),
            self.start_time.total_secs() <= self.end_time.total_secs() ==> r.wf() && r.hours >= 0,
            self.start_time.total_secs() > self.end_time.total_secs() ==> -60 < r.minutes <= 0
                && r.hours <= 0,
    {
        HumanDuration::from_span(&self.start_time, &self.end_time)
    }
}

impl ClockinTimestamp {
    /// A marker for a clock started at the given time.
    pub fn starting(time: &Timestamp) -> (r: ClockinTimestamp)
        ensures
            r.start_time == *time,
    {
        ClockinTimestamp { start_time: *time }
    }

    /// A marker for a clock started at the current minute, or `None` when
    /// the system clock stands outside the supported years.
    pub fn now() -> (r: Option<ClockinTimestamp>)
        ensures
            r is Some ==> r->Some_0.start_time.wf() && r->Some_0.start_time.second == 0,
    {
        match crate::timestamp::now() {
            Some(t) => Some(ClockinTimestamp { start_time: t }),
            None => None,
        }
    }
}

/// Whether the spans of two entries overlap: an endpoint of one lies
/// strictly inside the other's span, or the two spans are identical and of
/// non-zero length. Exact boundary touches are not overlaps: back-to-back
/// entries are legal.
pub open spec fn overlaps_spec(a: Entry, b: Entry) -> bool {
    let a1 = a.start_time.total_secs();
    let a2 = a.end_time.total_secs();
    let b1 = b.start_time.total_secs();
    let b2 = b.end_time.total_secs();
    ||| (b1 < a1 && a1 < b2)
    ||| (b1 < a2 && a2 < b2)
    ||| (a1 < b1 && b1 < a2)
    ||| (a1 < b2 && b2 < a2)
    ||| (a1 == b1 && a2 == b2 && a1 < a2)
}

/// Whether the timespans of two entries overlap.
pub fn entries_overlap(e1: &Entry, e2: &Entry) -> (r: bool)
    requires
        e1.wf(),
        e2.wf(),
    ensures
        r == overlaps_spec(*e1, *e2),
{
    (e2.start_time.lt(&e1.start_time) && e1.start_time.lt(&e2.end_time)) || (e2.start_time.lt(
        &e1.end_time,
    ) && e1.end_time.lt(&e2.end_time)) || (e1.start_time.lt(&e2.start_time) && e2.start_time.lt(
        &e1.end_time,
    )) || (e1.start_time.lt(&e2.end_time) && e2.end_time.lt(&e1.end_time)) || (
    e1.start_time.total_seconds() == e2.start_time.total_seconds()
        && e1.end_time.total_seconds() == e2.end_time.total_seconds() && e1.start_time.lt(
        &e1.end_time,
    ))
}

/// Overlapping is symmetric.
pub proof fn lemma_overlaps_symmetric(a: Entry, b: Entry)
    ensures
        overlaps_spec(a, b) == overlaps_spec(b, a),
{
}

/// An entry of non-zero duration overlaps itself: inserting the very same
/// entry a second time collides.
pub proof fn lemma_overlaps_self(e: Entry)
    requires
        e.start_time.total_secs() < e.end_time.total_secs(),
    ensures
        overlaps_spec(e, e),
{
}

/// For entries of non-zero, forward duration, overlapping is exactly a
/// shared inner instant: the later start falls strictly before the earlier
/// end. Boundary touches are excluded. (A zero-length entry has no inner
/// instant; its placement strictly inside another span still counts as an
/// overlap, so this characterization is stated for non-degenerate entries
/// only.)
pub proof fn lemma_overlaps_is_shared_interior(a: Entry, b: Entry)
    requires
        a.start_time.total_secs() < a.end_time.total_secs(),
        b.start_time.total_secs() < b.end_time.total_secs(),
    ensures
        overlaps_spec(a, b) <==> {
            let lo = if a.start_time.total_secs() >= b.start_time.total_secs() {
                a.start_time.total_secs()
            } else {
                b.start_time.total_secs()
            };
            let hi = if a.end_time.total_secs() <= b.end_time.total_secs() {
                a.end_time.total_secs()
            } else {
                b.end_time.total_secs()
            };
            lo < hi
        },
{
}

/// Two back-to-back entries — one ending exactly when the other starts —
/// do not overlap.
pub proof fn lemma_back_to_back_entries_do_not_overlap(a: Entry, b: Entry)
    requires
        a.start_time.total_secs() <= a.end_time.total_secs(),
        b.start_time.total_secs() <= b.end_time.total_secs(),
        a.end_time.total_secs() == b.start_time.total_secs(),
    ensures
        !overlaps_spec(a, b),
        !overlaps_spec(b, a),
{
}

/// Every entry of the sequence is well-formed.
pub open spec fn entries_wf(s: Seq<Entry>) -> bool {
    forall|i: int| 0 <= i < s.len() ==> (#[trigger] s[i]).wf()
}

/// The entries stand in chronological order of their start times.
pub open spec fn sorted_by_start(s: Seq<Entry>) -> bool {
    forall|i: int, j: int|
        0 <= i < j < s.len() ==> #[trigger] s[i].start_time.total_secs()
            <= #[trigger] s[j].start_time.total_secs()
}

/// Where `e` enters an already ordered sequence: after every entry whose
/// start is not later than its own, so entries with equal starts keep
/// their order.
pub open spec fn insert_by_start(sorted: Seq<Entry>, e: Entry) -> Seq<Entry>
    decreases sorted.len(),
{
    if sorted.len() == 0 {
        seq![e]
    } else if sorted.last().start_time.total_secs() <= e.start_time.total_secs() {
        sorted.push(e)
    } else {
        insert_by_start(sorted.drop_last(), e).push(sorted.last())
    }
}

/// The stable sort of the entries by start time: each entry in turn enters
/// the ordered prefix after all entries that do not start later, so equal
/// starts keep their relative order.
pub open spec fn stable_sorted_by_start(s: Seq<Entry>) -> Seq<Entry>
    decreases s.len(),
{
    if s.len() == 0 {
        Seq::empty()
    } else {
        insert_by_start(stable_sorted_by_start(s.drop_last()), s.last())
    }
}

/// Inserting into an ordered sequence keeps it ordered, adds exactly the
/// new entry to the records, and introduces no other entry.
pub proof fn lemma_insert_by_start_ensures(sorted: Seq<Entry>, e: Entry)
    requires
        sorted_by_start(sorted),
    ensures
        insert_by_start(sorted, e).len() == sorted.len() + 1,
        insert_by_start(sorted, e).to_multiset() == sorted.to_multiset().insert(e),
        sorted_by_start(insert_by_start(sorted, e)),
        forall|i: int|
            0 <= i < insert_by_start(sorted, e).len() ==> (#[trigger] insert_by_start(sorted, e)[i]
                == e || sorted.contains(insert_by_start(sorted, e)[i])),
    decreases sorted.len(),
{
    broadcast use vstd::seq_lib::group_to_multiset_ensures;

    let r = insert_by_start(sorted, e);
    if sorted.len() == 0 {
        assert(r =~= Seq::empty().push(e));
        assert(r.to_multiset() =~= sorted.to_multiset().insert(e));
    } else if sorted.last().start_time.total_secs() <= e.start_time.total_secs() {
        assert(forall|i: int|
            0 <= i < sorted.len() ==> (#[trigger] sorted[i]).start_time.total_secs()
                <= sorted.last().start_time.total_secs());
    } else {
        let head = sorted.drop_last();
        assert(sorted_by_start(head)) by {
            assert(forall|i: int| 0 <= i < head.len() ==> head[i] == (#[trigger] sorted[i]));
        }
        lemma_insert_by_start_ensures(head, e);
        let inner = insert_by_start(head, e);
        assert(r == inner.push(sorted.last()));
        assert(r.to_multiset() == sorted.to_multiset().insert(e)) by {
            assert(sorted =~= head.push(sorted.last()));
            assert(sorted.to_multiset() == head.to_multiset().insert(sorted.last()));
            assert(head.to_multiset().insert(e).insert(sorted.last()) =~= head.to_multiset()
                .insert(sorted.last()).insert(e));
        }
        assert(sorted_by_start(r)) by {
            assert(forall|i: int|
                0 <= i < head.len() ==> (#[trigger] head[i]).start_time.total_secs()
                    <= sorted.last().start_time.total_secs()) by {
                assert(forall|i: int| 0 <= i < head.len() ==> head[i] == (#[trigger] sorted[i]));
            }
            assert forall|i: int| 0 <= i < inner.len() implies (#[trigger] inner[i]).start_time
                .total_secs() <= sorted.last().start_time.total_secs() by {
                if inner[i] == e {
                } else {
                    assert(head.contains(inner[i]));
                }
            }
        }
        assert forall|i: int|
            0 <= i < r.len() implies (#[trigger] r[i] == e || sorted.contains(r[i])) by {
            if i < inner.len() {
                assert(r[i] == inner[i]);
                if inner[i] != e {
                    assert(head.contains(inner[i]));
                    let k = choose|k: int| 0 <= k < head.len() && head[k] == inner[i];
                    assert(sorted[k] == inner[i]);
                }
            } else {
                assert(r[i] == sorted.last());
            }
        }
    }
}

/// The stable sort holds exactly the records of its input, in order of
/// their start times, and only entries the input holds.
pub proof fn lemma_stable_sorted_ensures(s: Seq<Entry>)
    ensures
        stable_sorted_by_start(s).len() == s.len(),
        stable_sorted_by_start(s).to_multiset() == s.to_multiset(),
        sorted_by_start(stable_sorted_by_start(s)),
        forall|i: int|
            0 <= i < s.len() ==> s.contains(#[trigger] stable_sorted_by_start(s)[i]),
    decreases s.len(),
{
    broadcast use vstd::seq_lib::group_to_multiset_ensures;

    let r = stable_sorted_by_start(s);
    if s.len() == 0 {
        assert(r.to_multiset() =~= s.to_multiset());
    } else {
        let head = s.drop_last();
        lemma_stable_sorted_ensures(head);
        lemma_insert_by_start_ensures(stable_sorted_by_start(head), s.last());
        assert(s =~= head.push(s.last()));
        assert(s.to_multiset() == head.to_multiset().insert(s.last()));
        assert forall|i: int| 0 <= i < s.len() implies s.contains(#[trigger] r[i]) by {
            if r[i] == s.last() {
                assert(s[s.len() - 1] == r[i]);
            } else {
                assert(stable_sorted_by_start(head).contains(r[i]));
                let k = choose|k: int|
                    0 <= k < stable_sorted_by_start(head).len() && stable_sorted_by_start(
                        head,
                    )[k] == r[i];
                assert(head.contains(stable_sorted_by_start(head)[k]));
                let m = choose|m: int| 0 <= m < head.len() && head[m] == r[i];
                assert(s[m] == r[i]);
            }
        }
    }
}

/// Entries that are well-formed stay well-formed through the stable sort.
pub proof fn lemma_stable_sorted_wf(s: Seq<Entry>)
    requires
        entries_wf(s),
    ensures
        entries_wf(stable_sorted_by_start(s)),
{
    lemma_stable_sorted_ensures(s);
    assert forall|i: int|
        0 <= i < stable_sorted_by_start(s).len() implies (#[trigger] stable_sorted_by_start(
        s,
    )[i]).wf() by {
        assert(s.contains(stable_sorted_by_start(s)[i]));
        let k = choose|k: int| 0 <= k < s.len() && s[k] == stable_sorted_by_start(s)[i];
        assert(s[k].wf());
    }
}

/// The insertion point below which every start is not later and from which
/// every start is strictly later splits the ordered sequence there.
proof fn lemma_insert_by_start_at(sorted: Seq<Entry>, e: Entry, j: int)
    requires
        sorted_by_start(sorted),
        0 <= j <= sorted.len(),
        forall|k: int|
            j <= k < sorted.len() ==> e.start_time.total_secs() < (#[trigger] sorted[k]).start_time
                .total_secs(),
        j > 0 ==> sorted[j - 1].start_time.total_secs() <= e.start_time.total_secs(),
    ensures
        insert_by_start(sorted, e) == sorted.take(j) + seq![e] + sorted.skip(j),
    decreases sorted.len(),
{
    if sorted.len() == 0 {
        assert(insert_by_start(sorted, e) =~= sorted.take(j) + seq![e] + sorted.skip(j));
    } else if j == sorted.len() {
        assert(insert_by_start(sorted, e) == sorted.push(e));
        assert(sorted.push(e) =~= sorted.take(j) + seq![e] + sorted.skip(j));
    } else {
        assert(e.start_time.total_secs() < sorted.last().start_time.total_secs());
        let head = sorted.drop_last();
        assert(sorted_by_start(head)) by {
            assert(forall|i: int| 0 <= i < head.len() ==> head[i] == (#[trigger] sorted[i]));
        }
        assert(forall|k: int|
            j <= k < head.len() ==> e.start_time.total_secs() < (#[trigger] head[k]).start_time
                .total_secs()) by {
            assert(forall|i: int| 0 <= i < head.len() ==> head[i] == (#[trigger] sorted[i]));
        }
        lemma_insert_by_start_at(head, e, j);
        assert(insert_by_start(sorted, e) == insert_by_start(head, e).push(sorted.last()));
        assert((head.take(j) + seq![e] + head.skip(j)).push(sorted.last()) =~= sorted.take(j)
            + seq![e] + sorted.skip(j));
    }
}

/// Stable in-place insertion sort by start time: afterwards the entries
/// are exactly `stable_sorted_by_start` of what they were — the same
/// records, in chronological order of their starts, entries with equal
/// starts in their old relative order — which keeps display deterministic.
#[verifier::rlimit(50)]
pub fn sort_by_start(entries: &mut Vec<Entry>)
    requires
        entries_wf(old(entries)@),
    ensures
        final (entries)@ == stable_sorted_by_start(old(entries)@),
        final (entries)@.to_multiset() == old(entries)@.to_multiset(),
        final (entries)@.len() == old(entries)@.len(),
        sorted_by_start(final (entries)@),
        entries_wf(final (entries)@),
{
    let ghost orig = entries@;
    proof {
        lemma_stable_sorted_ensures(orig);
        lemma_stable_sorted_wf(orig);
    }
    if entries.len() <= 1 {
        proof {
            if orig.len() == 0 {
                assert(entries@ =~= stable_sorted_by_start(orig));
            } else {
                assert(orig.drop_last().len() == 0);
                assert(stable_sorted_by_start(orig) == insert_by_start(
                    stable_sorted_by_start(orig.drop_last()),
                    orig.last(),
                ));
                assert(entries@ =~= stable_sorted_by_start(orig));
            }
        }
        return ;
    }
    let mut i: usize = 1;
    proof {
        assert(orig.take(0) =~= Seq::<Entry>::empty());
        assert(orig.take(1).drop_last() =~= Seq::<Entry>::empty());
        assert(orig.take(1).len() == 1 && orig.take(1).last() == orig[0]);
        assert(stable_sorted_by_start(Seq::<Entry>::empty()) =~= Seq::<Entry>::empty());
        assert(insert_by_start(Seq::<Entry>::empty(), orig[0]) =~= seq![orig[0]]);
        assert(stable_sorted_by_start(orig.take(1)) == insert_by_start(
            stable_sorted_by_start(orig.take(1).drop_last()),
            orig[0],
        ));
        assert(stable_sorted_by_start(orig.take(1)) =~= seq![orig[0]]);
        assert(entries@ =~= stable_sorted_by_start(orig.take(1)) + orig.skip(1));
    }
    while i < entries.len()
        invariant
            1 <= i <= orig.len(),
            entries@.len() == orig.len(),
            entries@ == stable_sorted_by_start(orig.take(i as int)) + orig.skip(i as int),
            entries_wf(entries@),
        decreases orig.len() - i,
    {
        let ghost prefix = stable_sorted_by_start(orig.take(i as int));
        proof {
            lemma_stable_sorted_ensures(orig.take(i as int));
            assert(prefix.len() == i);
            assert(entries@[i as int] == orig.skip(i as int)[0] && orig.skip(i as int)[0]
                == orig[i as int]);
        }
        let moved_start: Timestamp = entries[i].start_time;
        proof {
            assert(entries@[i as int].wf());
        }
        let mut j: usize = i;
        while j > 0 && moved_start.lt(&entries[j - 1].start_time)
            invariant
                0 <= j <= i < entries@.len(),
                entries_wf(entries@),
                moved_start.wf(),
                moved_start == entries@[i as int].start_time,
                forall|k: int|
                    j <= k < i ==> moved_start.total_secs() < #[trigger] entries@[k].start_time.total_secs(),
            decreases j,
        {
            j = j - 1;
        }
        let ghost before = entries@;
        let e = entries.remove(i);
        entries.insert(j, e);
        proof {
            let after = entries@;
            assert(after =~= before.remove(i as int).insert(j as int, before[i as int]));
            assert(forall|k: int| 0 <= k < j ==> after[k] == before[k]);
            assert(after[j as int] == before[i as int]);
            assert(forall|k: int| j < k <= i ==> after[k] == before[k - 1]);
            assert(forall|k: int| i < k < after.len() ==> after[k] == before[k]);
            assert(entries_wf(after)) by {
                assert forall|k: int| 0 <= k < after.len() implies #[trigger] after[k].wf() by {
                    if k < j {
                        assert(after[k] == before[k]);
                    } else if k == j {
                        assert(after[k] == before[i as int]);
                    } else if k <= i {
                        assert(after[k] == before[k - 1]);
                    } else {
                        assert(after[k] == before[k]);
                    }
                }
            }
            assert(forall|k: int| 0 <= k < i ==> before[k] == (#[trigger] prefix[k]));
            let moved = before[i as int];
            assert(moved == orig[i as int] && moved.start_time == moved_start);
            lemma_insert_by_start_at(prefix, moved, j as int);
            assert(orig.take(i as int + 1).drop_last() =~= orig.take(i as int));
            assert(orig.take(i as int + 1).last() == orig[i as int]);
            assert(stable_sorted_by_start(orig.take(i as int + 1)) == insert_by_start(
                prefix,
                moved,
            ));
            assert(after =~= (prefix.take(j as int) + seq![moved] + prefix.skip(j as int))
                + orig.skip(i as int + 1));
        }
        i = i + 1;
    }
    proof {
        assert(orig.take(orig.len() as int) =~= orig);
        assert(entries@ =~= stable_sorted_by_start(orig));
    }
}

/// The subsequence of `s` kept by the decisions `keep`, in order.
pub open spec fn masked(s: Seq<Entry>, keep: Seq<bool>, n: int) -> Seq<Entry>
    decreases n,
{
    if n <= 0 {
        Seq::empty()
    } else {
        masked(s, keep, n - 1) + if keep[n - 1] {
            seq![s[n - 1]]
        } else {
            Seq::empty()
        }
    }
}

/// The first `n` decisions are unchanged by recording one more.
proof fn lemma_masked_push(s: Seq<Entry>, keep: Seq<bool>, b: bool, n: int)
    requires
        n <= keep.len(),
    ensures
        masked(s, keep.push(b), n) == masked(s, keep, n),
    decreases n,
{
    if n > 0 {
        lemma_masked_push(s, keep, b, n - 1);
    }
}

/// Keeps the entries the caller's predicate accepts, in their order. The
/// predicate is opaque to this crate — the caller interprets any filter
/// syntax — so the result is pinned only through the predicate's own
/// contract: some sequence of decisions, one per entry and each a possible
/// outcome of the predicate on that entry, selects the result.
pub fn filter_entries<F: Fn(&Entry) -> bool>(entries: Vec<Entry>, pred: &F) -> (r: Vec<Entry>)
    requires
        forall|e: &Entry| #[trigger] call_requires(*pred, (e,)),
    ensures
        exists|keep: Seq<bool>|
            {
                &&& keep.len() == entries@.len()
                &&& r@ == #[trigger] masked(entries@, keep, entries@.len() as int)
                &&& forall|i: int|
                    0 <= i < keep.len() ==> call_ensures(*pred, (&entries@[i],), #[trigger] keep[i])
            },
{
    let ghost orig = entries@;
    let mut entries = entries;
    let total = entries.len();
    let mut r: Vec<Entry> = Vec::new();
    let ghost mut keep: Seq<bool> = Seq::empty();
    let mut k: usize = 0;
    while entries.len() > 0
        invariant
            forall|e: &Entry| #[trigger] call_requires(*pred, (e,)),
            orig.len() == total,
            k + entries@.len() == orig.len(),
            entries@ == orig.skip(k as int),
            keep.len() == k,
            r@ == masked(orig, keep, k as int),
            forall|i: int|
                0 <= i < keep.len() ==> call_ensures(*pred, (&orig[i],), #[trigger] keep[i]),
        decreases entries@.len(),
    {
        let e = entries.remove(0);
        proof {
            assert(e == orig[k as int]);
            assert(orig.skip(k as int).remove(0) =~= orig.skip(k as int + 1));
        }
        let b = pred(&e);
        proof {
            lemma_masked_push(orig, keep, b, k as int);
            keep = keep.push(b);
        }
        if b {
            r.push(e);
            proof {
                assert(r@ =~= masked(orig, keep, k as int + 1));
            }
        } else {
            proof {
                assert(r@ =~= masked(orig, keep, k as int + 1));
            }
        }
        k = k + 1;
    }
    r
}

/// The last `tail` rows of an already ordered result; `tail == 0` means no
/// truncation.
pub fn tail_slice<T>(entries: Vec<T>, tail: usize) -> (r: Vec<T>)
    ensures
        tail == 0 ==> r@ == entries@,
        tail != 0 ==> r@ == entries@.skip(
            if entries@.len() >= tail {
                entries@.len() - tail
            } else {
                0
            },
        ),
{
    if tail == 0 {
        return entries;
    }
    let ghost orig = entries@;
    let mut entries = entries;
    let len = entries.len();
    let idx = if len > tail {
        len - tail
    } else {
        0
    };
    let mut k: usize = 0;
    while k < idx
        invariant
            k <= idx <= orig.len(),
            entries@ == orig.skip(k as int),
        decreases idx - k,
    {
        entries.remove(0);
        proof {
            assert(orig.skip(k as int).remove(0) =~= orig.skip(k as int + 1));
        }
        k = k + 1;
    }
    entries
}

} // verus!
