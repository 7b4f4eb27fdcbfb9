use region_profiler::cpu::{credit, debit};
use region_profiler::report::{cycles_to_millis, percent_hundredths};
use region_profiler::{get_cpu_freq, ProfileScope, Profiler, ProfilerError};

#[test]
fn report_is_refused_while_the_session_runs() {
    let mut profiler = Profiler::<u8>::new();
    profiler.start(10);
    assert_eq!(profiler.get_output(1).err(), Some(ProfilerError::SessionRunning));
    profiler.end(20);
    assert!(profiler.get_output(1).is_ok());
    profiler.start(30);
    assert_eq!(profiler.get_output(1).err(), Some(ProfilerError::SessionRunning));
}

#[test]
fn report_of_a_session_without_entries_has_no_lines() {
    let mut profiler = Profiler::<u8>::new();
    profiler.start(10);
    profiler.end(25);
    let report = profiler.get_output(77).unwrap();
    assert_eq!(report.total, 15);
    assert_eq!(report.freq, 77);
    assert!(report.lines.is_empty());
}

#[test]
fn report_lists_hit_slots_by_ascending_number() {
    let mut profiler = Profiler::<u8>::new();
    profiler.start(0);
    let late = ProfileScope::new("late", 300, &mut profiler, 10);
    late.close(&mut profiler, 20);
    let early = ProfileScope::new("early", 2, &mut profiler, 30);
    early.close(&mut profiler, 45);
    let middle = ProfileScope::new("middle", 17, &mut profiler, 50);
    let again = ProfileScope::new("early", 2, &mut profiler, 60);
    again.close(&mut profiler, 65);
    middle.close(&mut profiler, 90);
    profiler.end(100);
    let report = profiler.get_output(5).unwrap();
    assert_eq!(report.total, 100);
    let slots: Vec<usize> = report.lines.iter().map(|line| line.slot).collect();
    assert_eq!(slots, vec![2, 17, 300]);
    let names: Vec<&str> = report.lines.iter().map(|line| line.name).collect();
    assert_eq!(names, vec!["early", "middle", "late"]);
    assert_eq!(report.lines[0].exclusive, 20);
    assert_eq!(report.lines[0].inclusive, 20);
    assert_eq!(report.lines[0].hits, 2);
    assert_eq!(report.lines[1].exclusive, 35);
    assert_eq!(report.lines[1].inclusive, 40);
    assert_eq!(report.lines[1].hits, 1);
    assert_eq!(report.lines[2].exclusive, 10);
    assert_eq!(report.lines[2].inclusive, 10);
    assert_eq!(report.lines[2].hits, 1);
}

#[test]
fn report_leaves_out_slot_zero() {
    let mut profiler = Profiler::<u8>::new();
    profiler.start(0);
    let root = ProfileScope::new("root", 0, &mut profiler, 1);
    root.close(&mut profiler, 2);
    let first = ProfileScope::new("first", 1, &mut profiler, 3);
    first.close(&mut profiler, 4);
    profiler.end(5);
    assert_eq!(profiler.slot(0).hits(), 1);
    let report = profiler.get_output(0).unwrap();
    assert_eq!(report.lines.len(), 1);
    assert_eq!(report.lines[0].slot, 1);
}

#[test]
fn report_can_be_read_more_than_once() {
    let mut profiler = Profiler::<u8>::new();
    profiler.start(0);
    let scope = ProfileScope::new("a", 1, &mut profiler, 1);
    scope.close(&mut profiler, 2);
    profiler.end(5);
    let first = profiler.get_output(9).unwrap();
    let second = profiler.get_output(9).unwrap();
    assert_eq!(first.total, second.total);
    assert_eq!(first.lines.len(), second.lines.len());
    assert_eq!(first.lines[0].exclusive, second.lines[0].exclusive);
}

#[test]
fn shares_of_a_nested_session_stay_within_the_whole() {
    let mut profiler = Profiler::<u8>::new();
    profiler.start(1_000);
    let a = ProfileScope::new("A", 1, &mut profiler, 1_100);
    let b = ProfileScope::new("B", 2, &mut profiler, 1_200);
    b.close(&mut profiler, 1_450);
    a.close(&mut profiler, 1_900);
    profiler.end(2_000);
    let report = profiler.get_output(1).unwrap();
    assert_eq!(report.total, 1_000);
    assert_eq!(percent_hundredths(report.lines[0].exclusive, report.total), Some(5_500));
    assert_eq!(percent_hundredths(report.lines[0].inclusive, report.total), Some(8_000));
    assert_eq!(percent_hundredths(report.lines[1].exclusive, report.total), Some(2_500));
    assert_eq!(percent_hundredths(report.lines[1].inclusive, report.total), Some(2_500));
    for line in report.lines.iter() {
        assert!(percent_hundredths(line.exclusive, report.total).unwrap() <= 10_000);
        assert!(percent_hundredths(line.inclusive, report.total).unwrap() <= 10_000);
    }
}

#[test]
fn percent_is_in_hundredths_and_rounded_down() {
    assert_eq!(percent_hundredths(0, 7), Some(0));
    assert_eq!(percent_hundredths(7, 7), Some(10_000));
    assert_eq!(percent_hundredths(1, 3), Some(3_333));
    assert_eq!(percent_hundredths(2, 3), Some(6_666));
    assert_eq!(percent_hundredths(1, 8), Some(1_250));
    assert_eq!(percent_hundredths(3, 2), Some(15_000));
    assert_eq!(
        percent_hundredths(u64::MAX, 1),
        Some(184_467_440_737_095_516_150_000)
    );
    assert_eq!(percent_hundredths(u64::MAX, u64::MAX), Some(10_000));
}

#[test]
fn percent_of_an_empty_total_is_none() {
    assert_eq!(percent_hundredths(0, 0), None);
    assert_eq!(percent_hundredths(5, 0), None);
}

#[test]
fn cycles_convert_to_milliseconds_by_the_calibration() {
    assert_eq!(cycles_to_millis(3_000_000, 300_000, 100), Some(1_000));
    assert_eq!(cycles_to_millis(1, 3, 100), Some(33));
    assert_eq!(cycles_to_millis(0, 3, 100), Some(0));
    assert_eq!(cycles_to_millis(5, 0, 100), None);
    assert_eq!(
        cycles_to_millis(u64::MAX, 1, u64::MAX),
        Some(340_282_366_920_938_463_426_481_119_284_349_108_225)
    );
}

#[test]
fn calibration_counts_the_cycles_of_its_window() {
    assert_eq!(get_cpu_freq(1_000, 301_000), 300_000);
    assert_eq!(get_cpu_freq(7, 7), 0);
    assert_eq!(get_cpu_freq(u64::MAX, 1), 2);
}

#[test]
fn accumulators_roll_over() {
    assert_eq!(credit(5, 6), 11);
    assert_eq!(credit(u64::MAX, 1), 0);
    assert_eq!(credit(u64::MAX - 1, 5), 3);
    assert_eq!(debit(11, 6), 5);
    assert_eq!(debit(0, 1), u64::MAX);
    assert_eq!(debit(3, 5), u64::MAX - 1);
}

#[test]
fn running_session_error_says_so() {
    assert_eq!(ProfilerError::SessionRunning.message(), "The session is still running");
}
