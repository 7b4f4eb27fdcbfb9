//! What the slots hold after the common shapes of nesting: one entry, a row
//! of entries, an entry around another, and a region that enters itself.

use crate::cpu::{lemma_wrap_add, lemma_wrap_small, wrap};
use crate::nesting::{
    entries, entries_of, exclusive_cycles, exclusive_cycles_of, fits, inclusive_cycles,
    inclusive_cycles_of, lemma_no_entries, lemma_one_entry, lemma_run_call, lemma_run_calls,
    own_cycles, run_call, run_calls, span, spans, Call,
};
use crate::profiler::{
    empty_slot, enter_region, leave_region, open_scope, ProfilerView, SlotView,
};
use crate::timing::lemma_span;
use vstd::prelude::*;

verus! {

/// A region that is entered once, from another region's scope or from none,
/// and whose slot was empty, holds afterwards one hit and, as exclusive and
/// as inclusive cycles alike, the cycles between its two readings.
pub proof fn lemma_single_entry(
    p: ProfilerView,
    name: Seq<char>,
    slot: nat,
    enter: u64,
    leave: u64,
)
    requires
        p.parent < p.slots.len(),
        slot < p.slots.len(),
        slot != p.parent,
        p.slots[slot as int] == empty_slot(),
        enter <= leave,
    ensures
        ({
            let scope = open_scope(p, name, slot, enter);
            let after = leave_region(enter_region(p, slot), scope, leave);
            &&& after.parent == p.parent
            &&& after.slots[slot as int] == SlotView {
                name,
                exclusive: (leave - enter) as u64,
                inclusive: (leave - enter) as u64,
                hits: 1,
            }
        }),
{
    lemma_wrap_small(leave - enter);
}

/// Every entry of `cs` is into the region of `slot` and has no entry inside.
pub open spec fn flat_entries(cs: Seq<Call>, slot: nat) -> bool {
    forall|i: int| 0 <= i < cs.len() ==> (#[trigger] cs[i]).slot == slot && cs[i].inner.len() == 0
}

/// Entries into one region without anything inside count one hit each and
/// their spans as exclusive and as inclusive cycles.
pub proof fn lemma_flat_entries(cs: Seq<Call>, n: nat, slot: nat)
    requires
        n <= cs.len(),
        flat_entries(cs, slot),
    ensures
        entries_of(cs, n, slot) == n,
        exclusive_cycles_of(cs, n, slot) == spans(cs, n),
        inclusive_cycles_of(cs, n, slot) == spans(cs, n),
    decreases n,
{
    if n > 0 {
        lemma_flat_entries(cs, (n - 1) as nat, slot);
        let last = cs[n - 1];
        assert(last.slot == slot && last.inner.len() == 0);
        lemma_no_entries(last.inner, slot, Seq::empty());
        assert(entries(last, slot) == 1);
        assert(own_cycles(last) == span(last));
        assert(exclusive_cycles(last, slot) == span(last));
        assert(inclusive_cycles(last, slot) == span(last));
    }
}

/// A region whose scope is made and closed `n` times in a row, with nothing
/// inside, gains `n` hits, and its exclusive and its inclusive cycles both
/// gain the sum of the spans: each entry takes the inclusive cycles that the
/// one before left as its baseline and adds its own span. On a slot that was
/// empty the two are equal to that sum.
pub proof fn lemma_sequential_entries(p: ProfilerView, cs: Seq<Call>, n: nat, slot: nat)
    requires
        p.parent < p.slots.len(),
        slot < p.slots.len(),
        slot != p.parent,
        n <= cs.len(),
        flat_entries(cs, slot),
    ensures
        ({
            let before = p.slots[slot as int];
            let after = run_calls(p, cs, n).slots[slot as int];
            &&& after.hits == before.hits + n
            &&& after.exclusive == wrap(before.exclusive + spans(cs, n))
            &&& after.inclusive == wrap(before.inclusive + spans(cs, n))
            &&& n > 0 ==> after.inclusive == wrap(
                run_calls(p, cs, (n - 1) as nat).slots[slot as int].inclusive + span(cs[n - 1]),
            )
            &&& before == empty_slot() && spans(cs, n) <= u64::MAX ==> after.exclusive == spans(
                cs,
                n,
            ) && after.inclusive == spans(cs, n)
        }),
{
    assert forall|i: int| 0 <= i < n implies fits(#[trigger] cs[i], p.slots.len()) by {
        assert(cs[i].slot == slot && cs[i].inner.len() == 0);
    }
    lemma_run_calls(p, cs, n);
    lemma_flat_entries(cs, n, slot);
    if n > 0 {
        let m = (n - 1) as nat;
        lemma_run_calls(p, cs, m);
        lemma_flat_entries(cs, m, slot);
        lemma_wrap_add(p.slots[slot as int].inclusive + spans(cs, m), span(cs[n - 1]));
    }
    if spans(cs, n) >= 0 && spans(cs, n) <= u64::MAX {
        lemma_wrap_small(spans(cs, n));
    }
    lemma_spans_not_negative(cs, n);
}

/// A sum of spans is not negative.
pub proof fn lemma_spans_not_negative(cs: Seq<Call>, n: nat)
    ensures
        0 <= spans(cs, n),
    decreases n,
{
    if n > 0 && n <= cs.len() {
        lemma_spans_not_negative(cs, (n - 1) as nat);
    }
}

/// An entry with nothing inside.
pub open spec fn leaf(name: Seq<char>, slot: nat, enter: u64, leave: u64) -> Call {
    Call { name, slot, enter, leave, inner: Seq::empty() }
}

/// An entry with the one entry `child` inside.
pub open spec fn around(name: Seq<char>, slot: nat, enter: u64, leave: u64, child: Call) -> Call {
    Call { name, slot, enter, leave, inner: seq![child] }
}

/// A region that wraps one entry into another region, both slots empty
/// before and the readings in order: the child holds its span as exclusive
/// and as inclusive cycles, the parent holds its whole span as inclusive
/// cycles and, as exclusive cycles, only the cycles before the child was
/// opened and after it was closed. So the parent's inclusive cycles are its
/// exclusive cycles plus the child's.
pub proof fn lemma_parent_and_child(
    p: ProfilerView,
    parent: Call,
    child: Call,
)
    requires
        p.parent < p.slots.len(),
        parent.slot < p.slots.len(),
        child.slot < p.slots.len(),
        parent.slot != child.slot,
        parent.slot != p.parent,
        child.slot != p.parent,
        p.slots[parent.slot as int] == empty_slot(),
        p.slots[child.slot as int] == empty_slot(),
        parent.inner == seq![child],
        child.inner.len() == 0,
        parent.enter <= child.enter <= child.leave <= parent.leave,
    ensures
        ({
            let after = run_call(p, parent);
            let outer = after.slots[parent.slot as int];
            let inner = after.slots[child.slot as int];
            &&& outer.hits == 1
            &&& inner.hits == 1
            &&& inner.exclusive == child.leave - child.enter
            &&& inner.inclusive == inner.exclusive
            &&& outer.inclusive == parent.leave - parent.enter
            &&& outer.exclusive == (child.enter - parent.enter) + (parent.leave - child.leave)
            &&& outer.inclusive == outer.exclusive + inner.exclusive
        }),
{
    assert(parent.inner[0] == child);
    assert(fits(child, p.slots.len()));
    assert(fits(parent, p.slots.len()));
    lemma_run_call(p, parent);
    lemma_span(parent);
    lemma_span(child);
    lemma_no_entries(child.inner, child.slot, Seq::empty());
    lemma_no_entries(child.inner, parent.slot, Seq::empty());
    lemma_one_entry(parent.inner, child.slot, Seq::empty());
    lemma_one_entry(parent.inner, parent.slot, Seq::empty());
    assert(exclusive_cycles(child, child.slot) == span(child));
    assert(exclusive_cycles(child, parent.slot) == 0);
    assert(own_cycles(parent) == span(parent) - span(child));
    lemma_wrap_small(span(parent) - span(child));
    lemma_wrap_small(span(parent));
    lemma_wrap_small(span(child));
}

/// The region of `slot` enters itself and nothing else: `c` is an entry
/// into it that holds nothing, or one more such entry.
pub open spec fn self_nested(c: Call, slot: nat) -> bool
    decreases c,
{
    &&& c.slot == slot
    &&& c.inner.len() <= 1
    &&& c.inner.len() == 1 ==> self_nested(c.inner[0], slot)
}

/// The number of entries in a chain of entries that hold one another.
pub open spec fn depth(c: Call) -> nat
    decreases c,
{
    if c.inner.len() == 1 {
        1 + depth(c.inner[0])
    } else {
        1
    }
}

/// The own cycles of all the entries of a chain, added up.
pub open spec fn chain_own_cycles(c: Call) -> int
    decreases c,
{
    if c.inner.len() == 1 {
        own_cycles(c) + chain_own_cycles(c.inner[0])
    } else {
        own_cycles(c)
    }
}

/// Every entry of the chain spent `cost` cycles of its own.
pub open spec fn level_cost(c: Call, cost: int) -> bool
    decreases c,
{
    &&& own_cycles(c) == cost
    &&& c.inner.len() == 1 ==> level_cost(c.inner[0], cost)
}

/// In a chain of self-entries every level counts one hit, the levels' own
/// cycles add up to the span of the outermost entry, and that span is all
/// that the slot gets, as exclusive and as inclusive cycles alike.
pub proof fn lemma_chain(c: Call, slot: nat)
    requires
        self_nested(c, slot),
    ensures
        entries(c, slot) == depth(c),
        exclusive_cycles(c, slot) == span(c),
        inclusive_cycles(c, slot) == span(c),
        chain_own_cycles(c) == span(c),
        fits(c, slot + 1),
    decreases c,
{
    if c.inner.len() == 1 {
        lemma_chain(c.inner[0], slot);
        lemma_one_entry(c.inner, slot, Seq::empty());
    } else {
        lemma_no_entries(c.inner, slot, Seq::empty());
    }
}

/// Raising the bound keeps every slot of `c` below it.
pub proof fn lemma_fits_wider(c: Call, len: nat, wider: nat)
    requires
        fits(c, len),
        len <= wider,
    ensures
        fits(c, wider),
    decreases c,
{
    assert forall|i: int| 0 <= i < c.inner.len() implies fits(#[trigger] c.inner[i], wider) by {
        lemma_fits_wider(c.inner[i], len, wider);
    }
}

/// A chain in which every level spent `cost` cycles of its own spans
/// `cost` times its depth.
pub proof fn lemma_level_cost(c: Call, slot: nat, cost: int)
    requires
        self_nested(c, slot),
        level_cost(c, cost),
    ensures
        span(c) == depth(c) * cost,
    decreases c,
{
    lemma_chain(c, slot);
    if c.inner.len() == 1 {
        let below = c.inner[0];
        lemma_level_cost(below, slot, cost);
        lemma_chain(below, slot);
        assert((1 + depth(below)) * cost == cost + depth(below) * cost) by (nonlinear_arith);
    } else {
        assert(1 * cost == cost) by (nonlinear_arith);
    }
}

/// A region that enters itself to some depth and nothing else gains one hit
/// for each level, and its inclusive cycles gain the span of the outermost
/// entry: the time of the whole chain, which is the sum of the levels' own
/// cycles, and no level is counted twice. Its exclusive cycles gain the
/// same.
pub proof fn lemma_recursion(p: ProfilerView, c: Call, slot: nat)
    requires
        p.parent < p.slots.len(),
        slot < p.slots.len(),
        slot != p.parent,
        self_nested(c, slot),
    ensures
        ({
            let before = p.slots[slot as int];
            let after = run_call(p, c).slots[slot as int];
            &&& after.hits == before.hits + depth(c)
            &&& after.inclusive == wrap(before.inclusive + span(c))
            &&& after.exclusive == wrap(before.exclusive + span(c))
            &&& span(c) == chain_own_cycles(c)
            &&& before == empty_slot() ==> after.inclusive == span(c) && after.exclusive == span(c)
        }),
{
    lemma_chain(c, slot);
    lemma_fits_wider(c, slot + 1, p.slots.len());
    lemma_run_call(p, c);
    lemma_wrap_small(span(c));
}

} // verus!
