//! Bounds on what the slots hold where the counter readings are in order:
//! no reading is lower than an earlier one.

use crate::cpu::lemma_wrap_small;
use crate::nesting::{
    exclusive_cycles, exclusive_cycles_of, fits, inclusive_cycles, inclusive_cycles_of,
    lemma_run_calls, own_cycles, run_calls, span, spans, Call,
};
use crate::profiler::{empty_slot, end_session, ProfilerView};
use crate::report::{lemma_share_of, report_of, share_of};
use vstd::prelude::*;

verus! {

/// The entries of `cs` were made one after the other between the readings
/// `low` and `high`: none was opened before `low` or closed after `high`,
/// and each was closed before the next was opened.
pub open spec fn in_sequence(cs: Seq<Call>, low: u64, high: u64) -> bool {
    &&& forall|i: int|
        0 <= i < cs.len() ==> low <= (#[trigger] cs[i]).enter && cs[i].leave <= high
    &&& forall|i: int, j: int|
        0 <= i < j < cs.len() ==> (#[trigger] cs[i]).leave <= (#[trigger] cs[j]).enter
}

/// The readings of `c` are in order at every depth: it was opened before it
/// was closed, and the entries inside it were made one after the other in
/// between.
pub open spec fn well_timed(c: Call) -> bool
    decreases c,
{
    &&& c.enter <= c.leave
    &&& in_sequence(c.inner, c.enter, c.leave)
    &&& forall|i: int| 0 <= i < c.inner.len() ==> well_timed(#[trigger] c.inner[i])
}

/// The span of a well-timed entry is the difference of its two readings.
pub proof fn lemma_span(c: Call)
    requires
        c.enter <= c.leave,
    ensures
        span(c) == c.leave - c.enter,
{
    lemma_wrap_small(c.leave - c.enter);
}

/// The spans of entries made one after the other fit between the first
/// one's opening and the last one's close.
pub proof fn lemma_spans_in_sequence(cs: Seq<Call>, n: nat, low: u64, high: u64)
    requires
        n <= cs.len(),
        low <= high,
        in_sequence(cs, low, high),
        forall|i: int| 0 <= i < cs.len() ==> (#[trigger] cs[i]).enter <= cs[i].leave,
    ensures
        0 <= spans(cs, n) <= high - low,
        n > 0 ==> spans(cs, n) <= cs[n - 1].leave - low,
    decreases n,
{
    if n > 0 {
        lemma_spans_in_sequence(cs, (n - 1) as nat, low, high);
        lemma_span(cs[n - 1]);
        if n > 1 {
            assert(cs[n - 2].leave <= cs[n - 1].enter);
        }
    }
}

/// A well-timed entry spent no more cycles in the entries made directly in
/// it than it spans.
pub proof fn lemma_own_cycles(c: Call)
    requires
        well_timed(c),
    ensures
        0 <= own_cycles(c) <= span(c),
{
    assert forall|i: int| 0 <= i < c.inner.len() implies (#[trigger] c.inner[i]).enter
        <= c.inner[i].leave by {
        assert(well_timed(c.inner[i]));
    }
    lemma_spans_in_sequence(c.inner, c.inner.len(), c.enter, c.leave);
    lemma_span(c);
}

/// Of a well-timed entry no slot gets more exclusive or inclusive cycles
/// than the entry spans, and none gets fewer than zero.
pub proof fn lemma_cycles_within_span(c: Call, slot: nat)
    requires
        well_timed(c),
    ensures
        0 <= exclusive_cycles(c, slot) <= span(c),
        0 <= inclusive_cycles(c, slot) <= span(c),
    decreases c, 0nat,
{
    assert forall|i: int| 0 <= i < c.inner.len() implies well_timed(#[trigger] c.inner[i]) by {}
    lemma_cycles_within_spans(c.inner, c.inner.len(), slot);
    lemma_own_cycles(c);
}

/// Of well-timed entries no slot gets more exclusive or inclusive cycles
/// than the entries span together, and none gets fewer than zero.
pub proof fn lemma_cycles_within_spans(cs: Seq<Call>, n: nat, slot: nat)
    requires
        n <= cs.len(),
        forall|i: int| 0 <= i < n ==> well_timed(#[trigger] cs[i]),
    ensures
        0 <= exclusive_cycles_of(cs, n, slot) <= spans(cs, n),
        0 <= inclusive_cycles_of(cs, n, slot) <= spans(cs, n),
    decreases cs, n,
{
    if n > 0 {
        lemma_cycles_within_spans(cs, (n - 1) as nat, slot);
        lemma_cycles_within_span(cs[n - 1], slot);
    }
}

/// In a session whose entries were well-timed and made one after the other
/// between the session's start and its end, a slot that was empty at the
/// start and is not the cursor's holds at the end exactly the exclusive and
/// inclusive cycles of its region, and neither exceeds the session's total:
/// each share of the total lies between nothing and the whole.
pub proof fn lemma_session_shares(p: ProfilerView, cs: Seq<Call>, end: u64, freq: u64, slot: nat)
    requires
        p.parent < p.slots.len(),
        slot < p.slots.len(),
        slot != p.parent,
        p.slots[slot as int] == empty_slot(),
        p.tsc_start <= end,
        in_sequence(cs, p.tsc_start, end),
        forall|i: int| 0 <= i < cs.len() ==> well_timed(#[trigger] cs[i]),
        forall|i: int| 0 <= i < cs.len() ==> fits(#[trigger] cs[i], p.slots.len()),
    ensures
        ({
            let closed = end_session(run_calls(p, cs, cs.len()), end);
            let total = report_of(closed, freq).total;
            &&& total == end - p.tsc_start
            &&& closed.slots[slot as int].exclusive == exclusive_cycles_of(cs, cs.len(), slot)
            &&& closed.slots[slot as int].inclusive == inclusive_cycles_of(cs, cs.len(), slot)
            &&& closed.slots[slot as int].exclusive <= total
            &&& closed.slots[slot as int].inclusive <= total
            &&& total != 0 ==> 0 <= share_of(closed.slots[slot as int].exclusive, total) <= 10000
            &&& total != 0 ==> 0 <= share_of(closed.slots[slot as int].inclusive, total) <= 10000
        }),
{
    let n = cs.len();
    lemma_run_calls(p, cs, n);
    assert forall|i: int| 0 <= i < cs.len() implies (#[trigger] cs[i]).enter <= cs[i].leave by {
        assert(well_timed(cs[i]));
    }
    lemma_spans_in_sequence(cs, n, p.tsc_start, end);
    lemma_cycles_within_spans(cs, n, slot);
    lemma_wrap_small(end - p.tsc_start);
    lemma_wrap_small(exclusive_cycles_of(cs, n, slot));
    lemma_wrap_small(inclusive_cycles_of(cs, n, slot));
    let after = run_calls(p, cs, n).slots[slot as int];
    assert(after.exclusive == exclusive_cycles_of(cs, n, slot));
    if end != p.tsc_start {
        lemma_share_of(after.exclusive, (end - p.tsc_start) as u64);
        lemma_share_of(after.inclusive, (end - p.tsc_start) as u64);
    }
}

} // verus!
