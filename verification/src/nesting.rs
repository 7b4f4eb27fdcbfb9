//! What the slots hold after properly nested entries: every scope is closed
//! before the scope around it, so the entries form trees.

use crate::cpu::{cycles_between, lemma_wrap_add, lemma_wrap_small, lemma_wrap_sub, wrap};
use crate::profiler::{enter_region, leave_region, open_scope, ProfilerView, SlotView};
use vstd::prelude::*;

verus! {

/// One entry into a region that was closed again: the region's name and
/// slot, the counter readings at which its scope was made and closed, and
/// the entries made in between, in their order.
pub struct Call {
    pub name: Seq<char>,
    pub slot: nat,
    pub enter: u64,
    pub leave: u64,
    pub inner: Seq<Call>,
}

/// The state after the entry `c` ran from its opening to its close.
pub open spec fn run_call(p: ProfilerView, c: Call) -> ProfilerView
    decreases c, 0nat,
{
    let scope = open_scope(p, c.name, c.slot, c.enter);
    let inside = run_calls(enter_region(p, c.slot), c.inner, c.inner.len());
    leave_region(inside, scope, c.leave)
}

/// The state after the first `n` entries of `cs` ran one after the other.
pub open spec fn run_calls(p: ProfilerView, cs: Seq<Call>, n: nat) -> ProfilerView
    decreases cs, n,
{
    if n == 0 || n > cs.len() {
        p
    } else {
        run_call(run_calls(p, cs, (n - 1) as nat), cs[n - 1])
    }
}

/// Every slot that `c` names, at any depth, is below `len`.
pub open spec fn fits(c: Call, len: nat) -> bool
    decreases c,
{
    &&& c.slot < len
    &&& forall|i: int| 0 <= i < c.inner.len() ==> fits(#[trigger] c.inner[i], len)
}

/// The cycles between the opening and the close of `c`.
pub open spec fn span(c: Call) -> int {
    cycles_between(c.enter, c.leave) as int
}

/// The spans of the first `n` entries of `cs`, added up.
pub open spec fn spans(cs: Seq<Call>, n: nat) -> int
    decreases n,
{
    if n == 0 || n > cs.len() {
        0
    } else {
        spans(cs, (n - 1) as nat) + span(cs[n - 1])
    }
}

/// The cycles that `c` spent outside the entries made directly in it.
pub open spec fn own_cycles(c: Call) -> int {
    span(c) - spans(c.inner, c.inner.len())
}

/// The cycles that `c` adds to the exclusive cycles of `slot`: the own
/// cycles of every entry into the region of `slot` in the tree of `c`.
pub open spec fn exclusive_cycles(c: Call, slot: nat) -> int
    decreases c, 0nat,
{
    (if c.slot == slot {
        own_cycles(c)
    } else {
        0
    }) + exclusive_cycles_of(c.inner, c.inner.len(), slot)
}

/// The exclusive cycles of `slot` in the first `n` entries of `cs`.
pub open spec fn exclusive_cycles_of(cs: Seq<Call>, n: nat, slot: nat) -> int
    decreases cs, n,
{
    if n == 0 || n > cs.len() {
        0
    } else {
        exclusive_cycles_of(cs, (n - 1) as nat, slot) + exclusive_cycles(cs[n - 1], slot)
    }
}

/// The cycles that `c` adds to the inclusive cycles of `slot`: the spans of
/// the outermost entries into the region of `slot` in the tree of `c`. What
/// such an entry holds inside, entries into the same region too, adds
/// nothing more.
pub open spec fn inclusive_cycles(c: Call, slot: nat) -> int
    decreases c, 0nat,
{
    if c.slot == slot {
        span(c)
    } else {
        inclusive_cycles_of(c.inner, c.inner.len(), slot)
    }
}

/// The inclusive cycles of `slot` in the first `n` entries of `cs`.
pub open spec fn inclusive_cycles_of(cs: Seq<Call>, n: nat, slot: nat) -> int
    decreases cs, n,
{
    if n == 0 || n > cs.len() {
        0
    } else {
        inclusive_cycles_of(cs, (n - 1) as nat, slot) + inclusive_cycles(cs[n - 1], slot)
    }
}

/// The number of entries into the region of `slot` in the tree of `c`.
pub open spec fn entries(c: Call, slot: nat) -> nat
    decreases c, 0nat,
{
    (if c.slot == slot {
        1nat
    } else {
        0nat
    }) + entries_of(c.inner, c.inner.len(), slot)
}

/// The number of entries into the region of `slot` in the first `n` entries
/// of `cs` and in what they hold.
pub open spec fn entries_of(cs: Seq<Call>, n: nat, slot: nat) -> nat
    decreases cs, n,
{
    if n == 0 || n > cs.len() {
        0
    } else {
        entries_of(cs, (n - 1) as nat, slot) + entries(cs[n - 1], slot)
    }
}

/// The name that the slot `slot` bears after `c`, where it bore `before`:
/// that of the entry into its region that was closed last.
pub open spec fn name_after(c: Call, slot: nat, before: Seq<char>) -> Seq<char>
    decreases c, 0nat,
{
    if c.slot == slot {
        c.name
    } else {
        name_after_all(c.inner, c.inner.len(), slot, before)
    }
}

/// The name that the slot `slot` bears after the first `n` entries of `cs`,
/// where it bore `before`.
pub open spec fn name_after_all(cs: Seq<Call>, n: nat, slot: nat, before: Seq<char>) -> Seq<char>
    decreases cs, n,
{
    if n == 0 || n > cs.len() {
        before
    } else {
        name_after(cs[n - 1], slot, name_after_all(cs, (n - 1) as nat, slot, before))
    }
}

/// What the slot `slot` holds after an entry or a row of entries that ran
/// with the cursor's slot `cursor` as parent: `exclusive` and `inclusive`
/// more cycles, less the `charged` cycles if it is the parent's slot, `hits`
/// more hits, and the name `name`.
pub open spec fn booked(
    before: SlotView,
    slot: nat,
    cursor: nat,
    exclusive: int,
    inclusive: int,
    charged: int,
    hits: nat,
    name: Seq<char>,
) -> SlotView {
    SlotView {
        name,
        exclusive: wrap(
            before.exclusive + exclusive - (if slot == cursor {
                charged
            } else {
                0
            }),
        ),
        inclusive: wrap(before.inclusive + inclusive),
        hits: before.hits + hits,
    }
}

/// The slot `slot` after the entry `c` ran on a table in which it held
/// `before`, with the cursor on `cursor`.
pub open spec fn slot_after_call(before: SlotView, c: Call, slot: nat, cursor: nat) -> SlotView {
    booked(
        before,
        slot,
        cursor,
        exclusive_cycles(c, slot),
        inclusive_cycles(c, slot),
        span(c),
        entries(c, slot),
        name_after(c, slot, before.name),
    )
}

/// The slot `slot` after the first `n` entries of `cs` ran on a table in
/// which it held `before`, with the cursor on `cursor`.
pub open spec fn slot_after_calls(
    before: SlotView,
    cs: Seq<Call>,
    n: nat,
    slot: nat,
    cursor: nat,
) -> SlotView {
    booked(
        before,
        slot,
        cursor,
        exclusive_cycles_of(cs, n, slot),
        inclusive_cycles_of(cs, n, slot),
        spans(cs, n),
        entries_of(cs, n, slot),
        name_after_all(cs, n, slot, before.name),
    )
}

/// A row of no entries adds nothing and keeps every name.
pub proof fn lemma_no_entries(cs: Seq<Call>, slot: nat, before: Seq<char>)
    ensures
        spans(cs, 0) == 0,
        exclusive_cycles_of(cs, 0, slot) == 0,
        inclusive_cycles_of(cs, 0, slot) == 0,
        entries_of(cs, 0, slot) == 0,
        name_after_all(cs, 0, slot, before) == before,
{
}

/// A row of one entry adds what that entry adds.
pub proof fn lemma_one_entry(cs: Seq<Call>, slot: nat, before: Seq<char>)
    requires
        cs.len() >= 1,
    ensures
        spans(cs, 1) == span(cs[0]),
        exclusive_cycles_of(cs, 1, slot) == exclusive_cycles(cs[0], slot),
        inclusive_cycles_of(cs, 1, slot) == inclusive_cycles(cs[0], slot),
        entries_of(cs, 1, slot) == entries(cs[0], slot),
        name_after_all(cs, 1, slot, before) == name_after(cs[0], slot, before),
{
    lemma_no_entries(cs, slot, before);
    assert(spans(cs, 1) == spans(cs, 0) + span(cs[0]));
    assert(exclusive_cycles_of(cs, 1, slot) == exclusive_cycles_of(cs, 0, slot) + exclusive_cycles(
        cs[0],
        slot,
    ));
    assert(inclusive_cycles_of(cs, 1, slot) == inclusive_cycles_of(cs, 0, slot) + inclusive_cycles(
        cs[0],
        slot,
    ));
    assert(entries_of(cs, 1, slot) == entries_of(cs, 0, slot) + entries(cs[0], slot));
    assert(name_after_all(cs, 1, slot, before) == name_after(
        cs[0],
        slot,
        name_after_all(cs, 0, slot, before),
    ));
}

/// An entry that ran to its close leaves the cursor and the session as
/// they were, and in every slot the sums over its tree: the own cycles of
/// the entries into the slot's region as exclusive cycles, the spans of the
/// outermost of them as inclusive cycles, one hit for each of them; the
/// slot of the cursor pays the entry's span.
pub proof fn lemma_run_call(p: ProfilerView, c: Call)
    requires
        p.parent < p.slots.len(),
        fits(c, p.slots.len()),
    ensures
        run_call(p, c).parent == p.parent,
        run_call(p, c).running == p.running,
        run_call(p, c).tsc_start == p.tsc_start,
        run_call(p, c).tsc_end == p.tsc_end,
        run_call(p, c).slots.len() == p.slots.len(),
        forall|s: int|
            0 <= s < p.slots.len() ==> #[trigger] run_call(p, c).slots[s] == slot_after_call(
                p.slots[s],
                c,
                s as nat,
                p.parent,
            ),
    decreases c, 0nat,
{
    let scope = open_scope(p, c.name, c.slot, c.enter);
    let entered = enter_region(p, c.slot);
    let inside = run_calls(entered, c.inner, c.inner.len());
    let after = leave_region(inside, scope, c.leave);
    lemma_run_calls(entered, c.inner, c.inner.len());
    assert forall|s: int| 0 <= s < p.slots.len() implies #[trigger] after.slots[s]
        == slot_after_call(p.slots[s], c, s as nat, p.parent) by {
        let before = p.slots[s];
        let mid = inside.slots[s];
        let inner_ex = exclusive_cycles_of(c.inner, c.inner.len(), s as nat);
        let inner_span = spans(c.inner, c.inner.len());
        assert(mid == slot_after_calls(before, c.inner, c.inner.len(), s as nat, c.slot));
        let paid = if s == c.slot {
            inner_span
        } else {
            0
        };
        lemma_wrap_sub(before.exclusive + inner_ex - paid, span(c));
        lemma_wrap_add(before.exclusive + inner_ex - paid, span(c));
    }
}

/// A row of entries that ran one after the other leaves the cursor and the
/// session as they were, and in every slot the sums over their trees.
pub proof fn lemma_run_calls(p: ProfilerView, cs: Seq<Call>, n: nat)
    requires
        p.parent < p.slots.len(),
        n <= cs.len(),
        forall|i: int| 0 <= i < n ==> fits(#[trigger] cs[i], p.slots.len()),
    ensures
        run_calls(p, cs, n).parent == p.parent,
        run_calls(p, cs, n).running == p.running,
        run_calls(p, cs, n).tsc_start == p.tsc_start,
        run_calls(p, cs, n).tsc_end == p.tsc_end,
        run_calls(p, cs, n).slots.len() == p.slots.len(),
        forall|s: int|
            0 <= s < p.slots.len() ==> #[trigger] run_calls(p, cs, n).slots[s]
                == slot_after_calls(p.slots[s], cs, n, s as nat, p.parent),
    decreases cs, n,
{
    if n == 0 {
        assert forall|s: int| 0 <= s < p.slots.len() implies #[trigger] p.slots[s]
            == slot_after_calls(p.slots[s], cs, n, s as nat, p.parent) by {
            lemma_wrap_small(p.slots[s].exclusive as int);
            lemma_wrap_small(p.slots[s].inclusive as int);
        }
    } else {
        let m = (n - 1) as nat;
        let mid = run_calls(p, cs, m);
        let last = cs[n - 1];
        lemma_run_calls(p, cs, m);
        lemma_run_call(mid, last);
        assert forall|s: int| 0 <= s < p.slots.len() implies #[trigger] run_calls(
            p,
            cs,
            n,
        ).slots[s] == slot_after_calls(p.slots[s], cs, n, s as nat, p.parent) by {
            let before = p.slots[s];
            assert(mid.slots[s] == slot_after_calls(before, cs, m, s as nat, p.parent));
            assert(run_call(mid, last).slots[s] == slot_after_call(
                mid.slots[s],
                last,
                s as nat,
                p.parent,
            ));
            let paid = if s == p.parent {
                spans(cs, m)
            } else {
                0
            };
            let charge = if s == p.parent {
                span(last)
            } else {
                0
            };
            lemma_wrap_add(
                before.exclusive + exclusive_cycles_of(cs, m, s as nat) - paid,
                exclusive_cycles(last, s as nat) - charge,
            );
            lemma_wrap_add(
                before.inclusive + inclusive_cycles_of(cs, m, s as nat),
                inclusive_cycles(last, s as nat),
            );
        }
    }
}

} // verus!
