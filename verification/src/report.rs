//! What a closed session reports: the session's span and one line for each
//! region that was entered.

use crate::cpu::cycles_between;
use crate::profiler::{ProfilerView, SlotView};
use vstd::prelude::*;

verus! {

/// Why a profiler gives no report.
#[derive(Clone, Copy, Debug, PartialEq, Eq, Structural)]
pub enum ProfilerError {
    /// The session is still open, so it has no end to measure up to.
    SessionRunning,
}

impl ProfilerError {
    /// The error in words.
    pub fn message(&self) -> (text: &'static str)
        ensures
            text@ == "The session is still running"@,
    {
        match self {
            ProfilerError::SessionRunning => "The session is still running",
        }
    }
}

/// One line of a report: a slot's number and what the slot recorded.
#[derive(Clone, Copy, Debug)]
pub struct ReportLine {
    pub slot: usize,
    pub name: &'static str,
    pub exclusive: u64,
    pub inclusive: u64,
    pub hits: usize,
}

/// A report line, as mathematical values.
pub struct LineView {
    pub slot: nat,
    pub stats: SlotView,
}

impl View for ReportLine {
    type V = LineView;

    open spec fn view(&self) -> LineView {
        LineView {
            slot: self.slot as nat,
            stats: SlotView {
                name: self.name@,
                exclusive: self.exclusive,
                inclusive: self.inclusive,
                hits: self.hits as nat,
            },
        }
    }
}

/// The report of a closed session.
#[derive(Debug)]
pub struct Report {
    /// The cycles between the session's start and its end.
    pub total: u64,
    /// The cycles that the calibration counted in its window.
    pub freq: u64,
    /// The regions that were entered, by ascending slot number.
    pub lines: Vec<ReportLine>,
}

/// A report, as mathematical values.
pub struct ReportView {
    pub total: u64,
    pub freq: u64,
    pub lines: Seq<LineView>,
}

impl View for Report {
    type V = ReportView;

    open spec fn view(&self) -> ReportView {
        ReportView {
            total: self.total,
            freq: self.freq,
            lines: self.lines@.map_values(|line: ReportLine| line@),
        }
    }
}

/// The lines for the slots below `upto`: slot 0 has none, and of the others
/// each slot that was hit has one, in the order of the slots.
pub open spec fn listing(slots: Seq<SlotView>, upto: nat) -> Seq<LineView>
    decreases upto,
{
    if upto <= 1 {
        Seq::empty()
    } else {
        let last = (upto - 1) as nat;
        let before = listing(slots, last);
        if slots[last as int].hits > 0 {
            before.push(LineView { slot: last, stats: slots[last as int] })
        } else {
            before
        }
    }
}

/// The report on the state `p` of a profiler, with `freq` as the
/// calibration's count.
pub open spec fn report_of(p: ProfilerView, freq: u64) -> ReportView {
    ReportView {
        total: cycles_between(p.tsc_start, p.tsc_end),
        freq,
        lines: listing(p.slots, p.slots.len()),
    }
}

/// The lines `lines` list the slots below `upto`: no line is for slot 0
/// or for a slot that was never hit, each line copies what its slot
/// recorded, the lines run by strictly ascending slot number, and every
/// slot below `upto` but slot 0 that was hit has its line.
pub open spec fn is_listing(lines: Seq<LineView>, slots: Seq<SlotView>, upto: nat) -> bool {
    &&& forall|k: int|
        0 <= k < lines.len() ==> {
            let line = #[trigger] lines[k];
            &&& 1 <= line.slot < upto
            &&& line.stats == slots[line.slot as int]
            &&& line.stats.hits > 0
        }
    &&& forall|j: int, k: int|
        0 <= j < k < lines.len() ==> (#[trigger] lines[j]).slot < (#[trigger] lines[k]).slot
    &&& forall|i: int|
        1 <= i < upto && (#[trigger] slots[i]).hits > 0 ==> exists|k: int|
            0 <= k < lines.len() && (#[trigger] lines[k]).slot == i
}

/// A listing leaves out slot 0 and every slot that was never hit, copies
/// what each listed slot recorded, runs by strictly ascending slot number,
/// and has a line for every other slot below `upto` that was hit.
pub proof fn lemma_listing(slots: Seq<SlotView>, upto: nat)
    requires
        upto <= slots.len(),
    ensures
        is_listing(listing(slots, upto), slots, upto),
        listing(slots, upto).len() <= upto,
    decreases upto,
{
    if upto > 1 {
        let last = (upto - 1) as nat;
        let before = listing(slots, last);
        let all = listing(slots, upto);
        lemma_listing(slots, last);
        assert forall|i: int| 1 <= i < upto && (#[trigger] slots[i]).hits > 0 implies exists|
            k: int,
        |
            0 <= k < all.len() && (#[trigger] all[k]).slot == i by {
            if i < last {
                let k = choose|k: int| 0 <= k < before.len() && (#[trigger] before[k]).slot == i;
                assert(all[k].slot == i);
            } else {
                assert(all[all.len() - 1].slot == i);
            }
        }
    }
}

/// The share of `part` in `total`, in hundredths of a percent and rounded
/// down.
pub open spec fn share_of(part: u64, total: u64) -> int
    recommends
        total != 0,
{
    (part * 10000) / (total as int)
}

/// A part that is no more than the total has a share between nothing and
/// a hundred percent.
pub proof fn lemma_share_of(part: u64, total: u64)
    requires
        total != 0,
    ensures
        0 <= share_of(part, total) <= u128::MAX,
        part <= total ==> share_of(part, total) <= 10000,
{
    assert(0 <= (part * 10000) / (total as int) <= part * 10000) by (nonlinear_arith)
        requires
            0 <= part,
            total > 0,
    ;
    if part <= total {
        assert((part * 10000) / (total as int) <= 10000) by (nonlinear_arith)
            requires
                0 <= part <= total,
                total > 0,
        ;
    }
}

/// The share of `part` in `total`, in hundredths of a percent and rounded
/// down. A total of zero has no shares.
pub fn percent_hundredths(part: u64, total: u64) -> (share: Option<u128>)
    ensures
        total == 0 <==> share is None,
        total != 0 ==> share == Some(share_of(part, total) as u128) && share->0 == share_of(
            part,
            total,
        ),
        total != 0 && part <= total ==> share->0 <= 10000,
{
    if total == 0 {
        None
    } else {
        let scaled: u128 = (part as u128) * 10000;
        let share: u128 = scaled / (total as u128);
        proof {
            lemma_share_of(part, total);
        }
        Some(share)
    }
}

/// The time that `cycles` cycles take, in milliseconds and rounded down,
/// where the counter ran through `window_cycles` cycles in a calibration
/// window of `window_millis` milliseconds. A calibration that counted no
/// cycle converts nothing.
pub fn cycles_to_millis(cycles: u64, window_cycles: u64, window_millis: u64) -> (millis: Option<
    u128,
>)
    ensures
        window_cycles == 0 <==> millis is None,
        window_cycles != 0 ==> millis == Some(
            ((cycles * window_millis) / (window_cycles as int)) as u128,
        ),
{
    if window_cycles == 0 {
        None
    } else {
        assert(cycles * window_millis <= 0xffff_ffff_ffff_ffff * 0xffff_ffff_ffff_ffff)
            by (nonlinear_arith)
            requires
                0 <= cycles <= 0xffff_ffff_ffff_ffff,
                0 <= window_millis <= 0xffff_ffff_ffff_ffff,
        ;
        let scaled: u128 = (cycles as u128) * (window_millis as u128);
        Some(scaled / (window_cycles as u128))
    }
}

} // verus!
