use region_profiler::{ProfileScope, Profiler, ProfilerSlot, SLOT_COUNT};

fn fresh() -> Profiler<u8> {
    Profiler::new()
}

#[test]
fn new_profiler_is_empty() {
    let profiler = fresh();
    assert!(!profiler.is_running());
    assert_eq!(profiler.parent_slot(), 0);
    assert_eq!(profiler.slots.len(), SLOT_COUNT);
    for slot in profiler.slots.iter() {
        assert_eq!(slot.name(), "");
        assert_eq!(slot.exclusive(), 0);
        assert_eq!(slot.inclusive(), 0);
        assert_eq!(slot.hits(), 0);
    }
}

#[test]
fn empty_slot_holds_nothing() {
    let slot = ProfilerSlot::empty();
    assert_eq!(slot.name(), "");
    assert_eq!(slot.exclusive(), 0);
    assert_eq!(slot.inclusive(), 0);
    assert_eq!(slot.hits(), 0);
}

#[test]
fn start_and_end_bracket_the_session() {
    let mut profiler = fresh();
    profiler.start(100);
    assert!(profiler.is_running());
    profiler.end(250);
    assert!(!profiler.is_running());
    assert_eq!(profiler.get_output(0).unwrap().total, 150);
}

#[test]
fn second_start_moves_the_session_start() {
    let mut profiler = fresh();
    profiler.start(100);
    profiler.start(180);
    profiler.end(250);
    assert_eq!(profiler.get_output(0).unwrap().total, 70);
}

#[test]
fn entering_moves_the_cursor_and_closing_restores_it() {
    let mut profiler = fresh();
    let outer = ProfileScope::new("outer", 3, &mut profiler, 10);
    assert_eq!(profiler.parent_slot(), 3);
    assert_eq!(outer.slot(), 3);
    assert_eq!(outer.parent_slot(), 0);
    let inner = ProfileScope::new("inner", 7, &mut profiler, 20);
    assert_eq!(profiler.parent_slot(), 7);
    assert_eq!(inner.slot(), 7);
    assert_eq!(inner.parent_slot(), 3);
    inner.close(&mut profiler, 30);
    assert_eq!(profiler.parent_slot(), 3);
    outer.close(&mut profiler, 40);
    assert_eq!(profiler.parent_slot(), 0);
}

#[test]
fn entering_changes_no_slot() {
    let mut profiler = fresh();
    let scope = ProfileScope::new("a", 1, &mut profiler, 10);
    assert_eq!(profiler.slot(1).hits(), 0);
    assert_eq!(profiler.slot(1).name(), "");
    assert_eq!(profiler.slot(1).exclusive(), 0);
    assert_eq!(profiler.slot(0).exclusive(), 0);
    scope.close(&mut profiler, 10);
}

#[test]
fn single_entry_counts_its_cycles_once() {
    let mut profiler = fresh();
    profiler.start(100);
    let scope = ProfileScope::new("load", 1, &mut profiler, 110);
    scope.close(&mut profiler, 150);
    profiler.end(200);
    let slot = profiler.slot(1);
    assert_eq!(slot.name(), "load");
    assert_eq!(slot.exclusive(), 40);
    assert_eq!(slot.inclusive(), 40);
    assert_eq!(slot.hits(), 1);
}

#[test]
fn closing_charges_the_slot_of_the_cursor() {
    let mut profiler = fresh();
    let scope = ProfileScope::new("load", 1, &mut profiler, 110);
    scope.close(&mut profiler, 150);
    assert_eq!(profiler.slot(0).exclusive(), 0u64.wrapping_sub(40));
    assert_eq!(profiler.slot(0).exclusive(), 18_446_744_073_709_551_576);
    assert_eq!(profiler.slot(0).inclusive(), 0);
    assert_eq!(profiler.slot(0).hits(), 0);
}

#[test]
fn sequential_entries_add_up() {
    let mut profiler = fresh();
    let spans: [(u64, u64); 4] = [(10, 15), (20, 27), (30, 30), (41, 52)];
    let mut sum = 0;
    for (count, (enter, leave)) in spans.iter().enumerate() {
        let baseline = profiler.slot(5).inclusive();
        let scope = ProfileScope::new("step", 5, &mut profiler, *enter);
        scope.close(&mut profiler, *leave);
        sum += leave - enter;
        assert_eq!(profiler.slot(5).hits(), count + 1);
        assert_eq!(profiler.slot(5).inclusive(), baseline + (leave - enter));
    }
    assert_eq!(sum, 23);
    assert_eq!(profiler.slot(5).exclusive(), 23);
    assert_eq!(profiler.slot(5).inclusive(), 23);
    assert_eq!(profiler.slot(5).hits(), 4);
}

#[test]
fn parent_keeps_only_the_cycles_outside_its_child() {
    let mut profiler = fresh();
    profiler.start(0);
    let a = ProfileScope::new("A", 1, &mut profiler, 100);
    let b = ProfileScope::new("B", 2, &mut profiler, 130);
    b.close(&mut profiler, 170);
    a.close(&mut profiler, 200);
    profiler.end(300);
    let a = profiler.slot(1);
    let b = profiler.slot(2);
    assert_eq!(a.hits(), 1);
    assert_eq!(b.hits(), 1);
    assert_eq!(b.exclusive(), 40);
    assert_eq!(b.inclusive(), 40);
    assert_eq!(a.inclusive(), 100);
    assert_eq!(a.exclusive(), 60);
    assert_eq!(a.inclusive(), a.exclusive() + b.exclusive());
}

#[test]
fn parent_with_two_children_and_a_grandchild() {
    let mut profiler = fresh();
    let a = ProfileScope::new("A", 1, &mut profiler, 0);
    let b = ProfileScope::new("B", 2, &mut profiler, 10);
    let c = ProfileScope::new("C", 3, &mut profiler, 12);
    c.close(&mut profiler, 17);
    b.close(&mut profiler, 30);
    let b = ProfileScope::new("B", 2, &mut profiler, 40);
    b.close(&mut profiler, 45);
    a.close(&mut profiler, 100);
    assert_eq!(profiler.slot(3).exclusive(), 5);
    assert_eq!(profiler.slot(3).inclusive(), 5);
    assert_eq!(profiler.slot(3).hits(), 1);
    assert_eq!(profiler.slot(2).exclusive(), 15 + 5);
    assert_eq!(profiler.slot(2).inclusive(), 20 + 5);
    assert_eq!(profiler.slot(2).hits(), 2);
    assert_eq!(profiler.slot(1).exclusive(), 100 - 20 - 5);
    assert_eq!(profiler.slot(1).inclusive(), 100);
    assert_eq!(profiler.slot(1).hits(), 1);
    assert_eq!(profiler.slot(0).exclusive(), 0u64.wrapping_sub(100));
}

#[test]
fn recursion_counts_the_chain_once() {
    let depth: u64 = 5;
    let work: u64 = 7;
    let mut profiler = fresh();
    let mut now: u64 = 1_000;
    let mut open = Vec::new();
    for _ in 0..depth {
        open.push(ProfileScope::new("fib", 9, &mut profiler, now));
        now += 3;
    }
    while let Some(scope) = open.pop() {
        now += 4;
        scope.close(&mut profiler, now);
    }
    let slot = profiler.slot(9);
    assert_eq!(slot.hits(), 5);
    assert_eq!(slot.inclusive(), depth * work);
    assert_eq!(slot.inclusive(), 35);
    assert_eq!(slot.exclusive(), 35);
    assert_eq!(profiler.parent_slot(), 0);
}

#[test]
fn recursion_after_earlier_entries_builds_on_the_baseline() {
    let mut profiler = fresh();
    let first = ProfileScope::new("r", 4, &mut profiler, 0);
    first.close(&mut profiler, 10);
    let outer = ProfileScope::new("r", 4, &mut profiler, 20);
    let inner = ProfileScope::new("r", 4, &mut profiler, 22);
    inner.close(&mut profiler, 28);
    assert_eq!(profiler.slot(4).inclusive(), 16);
    outer.close(&mut profiler, 50);
    assert_eq!(profiler.slot(4).inclusive(), 40);
    assert_eq!(profiler.slot(4).exclusive(), 40);
    assert_eq!(profiler.slot(4).hits(), 3);
}

#[test]
fn closing_takes_the_name_of_the_scope() {
    let mut profiler = fresh();
    let scope = ProfileScope::new("first", 6, &mut profiler, 0);
    scope.close(&mut profiler, 1);
    assert_eq!(profiler.slot(6).name(), "first");
    let scope = ProfileScope::new("second", 6, &mut profiler, 2);
    assert_eq!(profiler.slot(6).name(), "first");
    scope.close(&mut profiler, 3);
    assert_eq!(profiler.slot(6).name(), "second");
}

#[test]
fn counter_that_rolls_over_still_measures_the_span() {
    let mut profiler = fresh();
    let scope = ProfileScope::new("late", 2, &mut profiler, u64::MAX - 4);
    scope.close(&mut profiler, 5);
    assert_eq!(profiler.slot(2).exclusive(), 10);
    assert_eq!(profiler.slot(2).inclusive(), 10);
}

#[test]
fn highest_slot_can_be_entered() {
    let mut profiler = fresh();
    let scope = ProfileScope::new("last", SLOT_COUNT - 1, &mut profiler, 1);
    scope.close(&mut profiler, 4);
    assert_eq!(profiler.slot(SLOT_COUNT - 1).hits(), 1);
    assert_eq!(profiler.slots[SLOT_COUNT - 1].exclusive(), 3);
}

#[test]
fn session_brackets_do_not_touch_the_slots() {
    let mut profiler = fresh();
    let scope = ProfileScope::new("a", 1, &mut profiler, 5);
    profiler.start(6);
    profiler.end(7);
    assert_eq!(profiler.parent_slot(), 1);
    scope.close(&mut profiler, 9);
    assert_eq!(profiler.slot(1).exclusive(), 4);
    assert_eq!(profiler.get_output(0).unwrap().total, 1);
}
