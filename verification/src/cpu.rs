//! Arithmetic on readings of a free-running 64-bit cycle counter.

use vstd::prelude::*;

verus! {

/// The number of distinct values of the cycle counter.
pub open spec fn counter_range() -> int {
    0x1_0000_0000_0000_0000
}

/// The counter value that stands for the integer `x`: its residue modulo
/// the counter's range.
pub open spec fn wrap(x: int) -> u64 {
    (x % counter_range()) as u64
}

/// The cycles that pass between the reading `start` and the later reading
/// `end` of a counter that rolls over at its range.
pub open spec fn cycles_between(start: u64, end: u64) -> u64 {
    wrap(end - start)
}

/// A value that is already a counter reading stands for itself.
pub proof fn lemma_wrap_small(x: int)
    requires
        0 <= x < counter_range(),
    ensures
        wrap(x) == x,
{
    vstd::arithmetic::div_mod::lemma_small_mod(x as nat, counter_range() as nat);
}

/// Wrapping an operand first does not change a wrapped sum.
pub proof fn lemma_wrap_add(x: int, y: int)
    ensures
        wrap(wrap(x) + y) == wrap(x + y),
        wrap(x + wrap(y)) == wrap(x + y),
{
    vstd::arithmetic::div_mod::lemma_add_mod_noop(x, y, counter_range());
    vstd::arithmetic::div_mod::lemma_add_mod_noop(x % counter_range(), y, counter_range());
    vstd::arithmetic::div_mod::lemma_add_mod_noop(x, y % counter_range(), counter_range());
    vstd::arithmetic::div_mod::lemma_mod_twice(x, counter_range());
    vstd::arithmetic::div_mod::lemma_mod_twice(y, counter_range());
}

/// Wrapping an operand first does not change a wrapped difference.
pub proof fn lemma_wrap_sub(x: int, y: int)
    ensures
        wrap(wrap(x) - y) == wrap(x - y),
        wrap(x - wrap(y)) == wrap(x - y),
{
    vstd::arithmetic::div_mod::lemma_sub_mod_noop(x, y, counter_range());
    vstd::arithmetic::div_mod::lemma_sub_mod_noop(x % counter_range(), y, counter_range());
    vstd::arithmetic::div_mod::lemma_sub_mod_noop(x, y % counter_range(), counter_range());
    vstd::arithmetic::div_mod::lemma_mod_twice(x, counter_range());
    vstd::arithmetic::div_mod::lemma_mod_twice(y, counter_range());
}

/// Adds `delta` cycles to the accumulator `acc`, rolling over at the
/// counter's range.
pub fn credit(acc: u64, delta: u64) -> (sum: u64)
    ensures
        sum == wrap(acc + delta),
        acc + delta <= u64::MAX ==> sum == acc + delta,
{
    proof {
        if acc + delta <= u64::MAX {
            lemma_wrap_small(acc + delta);
        } else {
            lemma_wrap_small(acc + delta - counter_range());
            vstd::arithmetic::div_mod::lemma_mod_sub_multiples_vanish(
                acc + delta,
                counter_range(),
            );
        }
    }
    acc.wrapping_add(delta)
}

/// Takes `delta` cycles from the accumulator `acc`, rolling under at zero.
pub fn debit(acc: u64, delta: u64) -> (rest: u64)
    ensures
        rest == wrap(acc - delta),
        delta <= acc ==> rest == acc - delta,
{
    proof {
        if delta <= acc {
            lemma_wrap_small(acc - delta);
        } else {
            lemma_wrap_small(acc - delta + counter_range());
            vstd::arithmetic::div_mod::lemma_mod_add_multiples_vanish(
                acc - delta,
                counter_range(),
            );
        }
    }
    acc.wrapping_sub(delta)
}

/// The estimate of the counter's frequency that a calibration run yields:
/// the cycles counted between the reading `start_ts`, taken when the
/// calibration window opened, and the reading `end_ts`, taken when it
/// closed. Divided by the window's length it approximates the cycles per
/// unit of time.
pub fn get_cpu_freq(start_ts: u64, end_ts: u64) -> (cycles: u64)
    ensures
        cycles == cycles_between(start_ts, end_ts),
        start_ts <= end_ts ==> cycles == end_ts - start_ts,
{
    debit(end_ts, start_ts)
}

} // verus!
