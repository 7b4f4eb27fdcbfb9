//! The slot table, the measurement session and the region scopes.

use crate::cpu::{credit, cycles_between, debit, wrap};
use crate::report::{
    is_listing, lemma_listing, listing, report_of, ProfilerError, Report, ReportLine,
};
use vstd::prelude::*;

verus! {

/// The number of slots in a profiler's table.
pub const SLOT_COUNT: usize = 512;

/// The aggregate record of one region.
#[derive(Clone, Copy)]
pub struct ProfilerSlot {
    name: &'static str,
    tsc_elapsed_exclusive: u64,
    tsc_elapsed_inclusive: u64,
    hits: usize,
}

/// What a slot records, as mathematical values.
pub struct SlotView {
    pub name: Seq<char>,
    pub exclusive: u64,
    pub inclusive: u64,
    pub hits: nat,
}

impl View for ProfilerSlot {
    type V = SlotView;

    closed spec fn view(&self) -> SlotView {
        SlotView {
            name: self.name@,
            exclusive: self.tsc_elapsed_exclusive,
            inclusive: self.tsc_elapsed_inclusive,
            hits: self.hits as nat,
        }
    }
}

/// The record of a region that was never entered.
pub open spec fn empty_slot() -> SlotView {
    SlotView { name: Seq::empty(), exclusive: 0, inclusive: 0, hits: 0 }
}

impl ProfilerSlot {
    /// A slot without a name and with all counts at zero.
    pub fn empty() -> (slot: Self)
        ensures
            slot@ == empty_slot(),
    {
        proof {
            reveal_strlit("");
        }
        let slot = Self { name: "", tsc_elapsed_exclusive: 0, tsc_elapsed_inclusive: 0, hits: 0 };
        assert(slot@.name =~= Seq::empty());
        slot
    }

    /// The name under which the region was closed last; empty before the
    /// first close.
    pub fn name(&self) -> (name: &'static str)
        ensures
            name@ == self@.name,
    {
        self.name
    }

    /// The cycles spent in the region and in nothing that it called.
    pub fn exclusive(&self) -> (cycles: u64)
        ensures
            cycles == self@.exclusive,
    {
        self.tsc_elapsed_exclusive
    }

    /// The cycles spent in the region and in all that it called.
    pub fn inclusive(&self) -> (cycles: u64)
        ensures
            cycles == self@.inclusive,
    {
        self.tsc_elapsed_inclusive
    }

    /// The number of scopes of the region that were closed.
    pub fn hits(&self) -> (hits: usize)
        ensures
            hits == self@.hits,
    {
        self.hits
    }
}

/// The slot table of a measurement session, its two bracketing counter
/// readings, and the cursor that names the region in which execution
/// currently is. Slot 0 stands for the code outside every region.
pub struct Profiler<T: Into<usize> + 'static> {
    pub slots: [ProfilerSlot; SLOT_COUNT],
    tsc_start: u64,
    tsc_end: u64,
    running: bool,
    global_parent_slot: usize,
    __marker: std::marker::PhantomData<T>,
}

/// The state of a profiler, as mathematical values.
pub struct ProfilerView {
    pub slots: Seq<SlotView>,
    pub tsc_start: u64,
    pub tsc_end: u64,
    pub running: bool,
    pub parent: nat,
}

impl<T: Into<usize> + 'static> View for Profiler<T> {
    type V = ProfilerView;

    closed spec fn view(&self) -> ProfilerView {
        ProfilerView {
            slots: Seq::new(SLOT_COUNT as nat, |i: int| self.slots[i]@),
            tsc_start: self.tsc_start,
            tsc_end: self.tsc_end,
            running: self.running,
            parent: self.global_parent_slot as nat,
        }
    }
}

/// The state of a profiler on which nothing was measured yet.
pub open spec fn fresh_profiler() -> ProfilerView {
    ProfilerView {
        slots: Seq::new(SLOT_COUNT as nat, |i: int| empty_slot()),
        tsc_start: 0,
        tsc_end: 0,
        running: false,
        parent: 0,
    }
}

/// The state after a session was opened at the counter reading `now`.
pub open spec fn start_session(p: ProfilerView, now: u64) -> ProfilerView {
    ProfilerView { running: true, tsc_start: now, ..p }
}

/// The state after the session was closed at the counter reading `now`.
pub open spec fn end_session(p: ProfilerView, now: u64) -> ProfilerView {
    ProfilerView { running: false, tsc_end: now, ..p }
}

/// What a scope remembers of the moment at which its region was entered.
pub struct ScopeView {
    pub name: Seq<char>,
    pub slot: nat,
    pub parent: nat,
    pub start: u64,
    pub baseline: u64,
}

/// The scope that entering the region of `slot` at the reading `now` yields:
/// it keeps the cursor's slot as its parent and the inclusive cycles that the
/// region's slot held so far as its baseline.
pub open spec fn open_scope(p: ProfilerView, name: Seq<char>, slot: nat, now: u64) -> ScopeView {
    ScopeView { name, slot, parent: p.parent, start: now, baseline: p.slots[slot as int].inclusive }
}

/// The state after the region of `slot` was entered: the cursor is on it.
pub open spec fn enter_region(p: ProfilerView, slot: nat) -> ProfilerView {
    ProfilerView { parent: slot, ..p }
}

/// The slot of a scope's parent once the scope's `elapsed` cycles are taken
/// out of its exclusive cycles.
pub open spec fn debit_slot(slot: SlotView, elapsed: u64) -> SlotView {
    SlotView { exclusive: wrap(slot.exclusive - elapsed), ..slot }
}

/// The slot of a scope's own region once the scope is counted in it: one
/// more hit, `elapsed` more exclusive cycles, and as inclusive cycles the
/// scope's baseline plus `elapsed`.
pub open spec fn credit_slot(slot: SlotView, scope: ScopeView, elapsed: u64) -> SlotView {
    SlotView {
        name: scope.name,
        exclusive: wrap(slot.exclusive + elapsed),
        inclusive: wrap(scope.baseline + elapsed),
        hits: slot.hits + 1,
    }
}

/// The state after `scope` was closed at the reading `now`: first its parent
/// is debited, then its own slot credited, and the cursor goes back to the
/// parent.
pub open spec fn leave_region(p: ProfilerView, scope: ScopeView, now: u64) -> ProfilerView {
    let elapsed = cycles_between(scope.start, now);
    let parent = scope.parent as int;
    let own = scope.slot as int;
    let debited = p.slots.update(parent, debit_slot(p.slots[parent], elapsed));
    let credited = debited.update(own, credit_slot(debited[own], scope, elapsed));
    ProfilerView { slots: credited, parent: scope.parent, ..p }
}

impl<T: Into<usize> + 'static> Profiler<T> {
    /// The table has its full number of slots, and the cursor names one of
    /// them.
    pub open spec fn wf(&self) -> bool {
        self@.slots.len() == SLOT_COUNT && self@.parent < SLOT_COUNT
    }

    /// Whether a session is open.
    pub fn is_running(&self) -> (running: bool)
        ensures
            running == self@.running,
    {
        self.running
    }

    /// The slot on which the cursor is: that of the innermost region whose
    /// scope is open, or 0.
    pub fn parent_slot(&self) -> (slot: usize)
        ensures
            slot == self@.parent,
    {
        self.global_parent_slot
    }

    /// What the slot `index` holds.
    pub fn slot(&self, index: usize) -> (slot: ProfilerSlot)
        requires
            index < SLOT_COUNT,
        ensures
            slot@ == self@.slots[index as int],
    {
        self.slots[index]
    }

    /// A profiler with every slot empty, no session, and the cursor on
    /// slot 0.
    pub fn new() -> (profiler: Self)
        ensures
            profiler.wf(),
            profiler@ == fresh_profiler(),
    {
        let profiler = Self {
            slots: vstd::array::array_fill_for_copy_types(ProfilerSlot::empty()),
            tsc_start: 0,
            tsc_end: 0,
            global_parent_slot: 0,
            running: false,
            __marker: std::marker::PhantomData,
        };
        assert(profiler@.slots =~= fresh_profiler().slots);
        profiler
    }

    /// Opens a measurement session at the counter reading `now`. A second
    /// call moves the session's start to the later reading.
    pub fn start(&mut self, now: u64)
        requires
            old(self).wf(),
        ensures
            final(self).wf(),
            final(self)@ == start_session(old(self)@, now),
    {
        self.running = true;
        self.tsc_start = now;
        assert(self@.slots =~= old(self)@.slots);
    }

    /// Closes the measurement session at the counter reading `now`.
    pub fn end(&mut self, now: u64)
        requires
            old(self).wf(),
        ensures
            final(self).wf(),
            final(self)@ == end_session(old(self)@, now),
    {
        self.running = false;
        self.tsc_end = now;
        assert(self@.slots =~= old(self)@.slots);
    }

    /// The report of the session: its span in cycles, the calibration's
    /// count `freq` as handed in, and a line for every slot but slot 0 that
    /// was hit, by ascending slot number. While the session is open there
    /// is no report.
    pub fn get_output(&self, freq: u64) -> (output: Result<Report, ProfilerError>)
        ensures
            self@.running ==> output == Err::<Report, ProfilerError>(
                ProfilerError::SessionRunning,
            ),
            !self@.running ==> output is Ok && output->Ok_0@ == report_of(self@, freq),
            output is Ok ==> is_listing(output->Ok_0@.lines, self@.slots, SLOT_COUNT as nat),
    {
        proof {
            lemma_listing(self@.slots, SLOT_COUNT as nat);
        }
        if self.running {
            return Err(ProfilerError::SessionRunning);
        }
        let total: u64 = debit(self.tsc_end, self.tsc_start);
        let mut lines: Vec<ReportLine> = Vec::new();
        let mut i: usize = 1;
        while i < SLOT_COUNT
            invariant
                1 <= i <= SLOT_COUNT,
                lines@.map_values(|line: ReportLine| line@) == listing(self@.slots, i as nat),
            decreases SLOT_COUNT - i,
        {
            let slot = self.slots[i];
            if slot.hits != 0 {
                let line = ReportLine {
                    slot: i,
                    name: slot.name,
                    exclusive: slot.tsc_elapsed_exclusive,
                    inclusive: slot.tsc_elapsed_inclusive,
                    hits: slot.hits,
                };
                let ghost before = lines@;
                lines.push(line);
                assert(lines@.map_values(|line: ReportLine| line@) =~= before.map_values(
                    |line: ReportLine| line@,
                ).push(line@));
            }
            i = i + 1;
        }
        Ok(Report { total, freq, lines })
    }
}

/// The mark of one entry into a region. It is made when execution enters
/// the region and is given back, exactly once, when execution leaves it.
pub struct ProfileScope {
    name: &'static str,
    slot_index: usize,
    parent_slot_index: usize,
    tsc_start: u64,
    tsc_elapsed_root: u64,
}

impl View for ProfileScope {
    type V = ScopeView;

    closed spec fn view(&self) -> ScopeView {
        ScopeView {
            name: self.name@,
            slot: self.slot_index as nat,
            parent: self.parent_slot_index as nat,
            start: self.tsc_start,
            baseline: self.tsc_elapsed_root,
        }
    }
}

impl ProfileScope {
    #[verifier::type_invariant]
    spec fn in_table(&self) -> bool {
        self.slot_index < SLOT_COUNT && self.parent_slot_index < SLOT_COUNT
    }

    /// Enters the region of `slot` at the counter reading `now`: the cursor
    /// moves to `slot`, and the scope keeps where it was.
    pub fn new<T: Into<usize> + 'static>(
        name: &'static str,
        slot: usize,
        profiler: &mut Profiler<T>,
        now: u64,
    ) -> (scope: Self)
        requires
            old(profiler).wf(),
            slot < SLOT_COUNT,
        ensures
            final(profiler).wf(),
            final(profiler)@ == enter_region(old(profiler)@, slot as nat),
            scope@ == open_scope(old(profiler)@, name@, slot as nat, now),
    {
        let parent_slot = profiler.global_parent_slot;
        profiler.global_parent_slot = slot;
        let tsc_elapsed_root = profiler.slots[slot].tsc_elapsed_inclusive;
        assert(profiler@.slots =~= old(profiler)@.slots);
        Self {
            name,
            slot_index: slot,
            parent_slot_index: parent_slot,
            tsc_elapsed_root,
            tsc_start: now,
        }
    }

    /// The slot of the scope's region.
    pub fn slot(&self) -> (slot: usize)
        ensures
            slot == self@.slot,
            slot < SLOT_COUNT,
    {
        proof {
            use_type_invariant(self);
        }
        self.slot_index
    }

    /// The slot on which the cursor was when the region was entered.
    pub fn parent_slot(&self) -> (slot: usize)
        ensures
            slot == self@.parent,
            slot < SLOT_COUNT,
    {
        proof {
            use_type_invariant(self);
        }
        self.parent_slot_index
    }

    /// Leaves the region at the counter reading `now` and books the cycles
    /// since the entry: they are taken from the exclusive cycles of the
    /// parent's slot and added to those of the region's own slot, which also
    /// counts one more hit, takes the scope's name, and gets as inclusive
    /// cycles the scope's baseline plus the cycles since the entry. The
    /// cursor goes back to the parent.
    pub fn close<T: Into<usize> + 'static>(self, profiler: &mut Profiler<T>, now: u64)
        requires
            old(profiler)@.slots[self@.slot as int].hits < usize::MAX,
        ensures
            final(profiler).wf(),
            final(profiler)@ == leave_region(old(profiler)@, self@, now),
    {
        proof {
            use_type_invariant(&self);
        }
        let scope_elapsed: u64 = debit(now, self.tsc_start);

        let mut parent_slot = profiler.slots[self.parent_slot_index];
        parent_slot.tsc_elapsed_exclusive = debit(parent_slot.tsc_elapsed_exclusive, scope_elapsed);
        profiler.slots[self.parent_slot_index] = parent_slot;

        let mut current_slot = profiler.slots[self.slot_index];
        current_slot.tsc_elapsed_exclusive = credit(
            current_slot.tsc_elapsed_exclusive,
            scope_elapsed,
        );
        current_slot.hits = current_slot.hits + 1;
        current_slot.name = self.name;
        current_slot.tsc_elapsed_inclusive = credit(self.tsc_elapsed_root, scope_elapsed);
        profiler.slots[self.slot_index] = current_slot;

        profiler.global_parent_slot = self.parent_slot_index;
        assert(profiler@.slots =~= leave_region(old(profiler)@, self@, now).slots);
    }
}

} // verus!
