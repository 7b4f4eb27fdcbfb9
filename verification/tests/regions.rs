use region_profiler::regions::{ordinal_of, same_text};
use region_profiler::{Profiler, RegionError, RegionTable, SLOT_COUNT};

fn table() -> RegionTable {
    RegionTable::new(vec!["A", "B"]).ok().unwrap()
}

#[test]
fn identifier_zero_is_no_region() {
    let regions = table();
    assert_eq!(regions.name(0), Err(RegionError::NoRegion));
    let mut profiler = Profiler::<u8>::new();
    assert_eq!(regions.enter(0, &mut profiler, 5).err(), Some(RegionError::NoRegion));
    assert_eq!(profiler.parent_slot(), 0);
}

#[test]
fn identifiers_count_from_one() {
    let regions = table();
    assert_eq!(regions.len(), 2);
    assert_eq!(regions.name(1), Ok("A"));
    assert_eq!(regions.name(2), Ok("B"));
    assert_eq!(regions.identifier("A"), Ok(1));
    assert_eq!(regions.identifier("B"), Ok(2));
}

#[test]
fn identifier_above_the_last_is_no_region() {
    let regions = table();
    assert_eq!(regions.name(3), Err(RegionError::NoRegion));
    assert_eq!(regions.name(usize::MAX), Err(RegionError::NoRegion));
}

#[test]
fn unknown_name_is_no_region() {
    let regions = table();
    assert_eq!(regions.identifier("C"), Err(RegionError::NoRegion));
    assert_eq!(regions.identifier(""), Err(RegionError::NoRegion));
    assert_eq!(regions.identifier("a"), Err(RegionError::NoRegion));
}

#[test]
fn names_and_identifiers_lead_back_to_each_other() {
    let names = vec!["parse", "plan", "run", "emit"];
    let regions = RegionTable::new(names.clone()).ok().unwrap();
    for id in 1..=names.len() {
        let name = regions.name(id).unwrap();
        assert_eq!(name, names[id - 1]);
        assert_eq!(regions.identifier(name), Ok(id));
    }
}

#[test]
fn empty_table_has_no_region() {
    let regions = RegionTable::new(Vec::new()).ok().unwrap();
    assert_eq!(regions.len(), 0);
    assert_eq!(regions.name(0), Err(RegionError::NoRegion));
    assert_eq!(regions.name(1), Err(RegionError::NoRegion));
}

#[test]
fn duplicate_name_is_refused() {
    assert_eq!(
        RegionTable::new(vec!["A", "B", "A"]).err(),
        Some(RegionError::DuplicateName)
    );
    assert_eq!(RegionTable::new(vec!["A", "A"]).err(), Some(RegionError::DuplicateName));
}

#[test]
fn table_larger_than_the_slot_table_is_refused() {
    let names: Vec<&'static str> = vec!["same"; SLOT_COUNT];
    assert_eq!(RegionTable::new(names).err(), Some(RegionError::TooManyRegions));
}

#[test]
fn entering_by_identifier_uses_the_region_name() {
    let regions = table();
    let mut profiler = Profiler::<u8>::new();
    profiler.start(0);
    let a = regions.enter(1, &mut profiler, 10).ok().unwrap();
    assert_eq!(profiler.parent_slot(), 1);
    let b = regions.enter(2, &mut profiler, 12).ok().unwrap();
    b.close(&mut profiler, 15);
    a.close(&mut profiler, 20);
    profiler.end(30);
    assert_eq!(profiler.slot(1).name(), "A");
    assert_eq!(profiler.slot(2).name(), "B");
    assert_eq!(profiler.slot(1).hits(), 1);
    assert_eq!(profiler.slot(2).hits(), 1);
    assert_eq!(profiler.slot(2).inclusive(), profiler.slot(2).exclusive());
    assert_eq!(
        profiler.slot(1).inclusive(),
        profiler.slot(1).exclusive() + profiler.slot(2).exclusive()
    );
}

#[test]
fn same_text_compares_characters() {
    assert!(same_text("", ""));
    assert!(same_text("region", "region"));
    assert!(!same_text("region", "regio"));
    assert!(!same_text("region", "regioN"));
    assert!(!same_text("", "x"));
    assert!(same_text("zeit\u{fc}", "zeit\u{fc}"));
    assert!(!same_text("zeit\u{fc}", "zeit\u{f6}"));
}

#[test]
fn region_errors_say_what_went_wrong() {
    assert_eq!(RegionError::NoRegion.message(), "No variant for this value");
    assert_eq!(RegionError::DuplicateName.message(), "A region name occurs twice");
    assert_eq!(RegionError::TooManyRegions.message(), "More regions than slots");
}

#[test]
fn place_of_an_identifier_counts_from_zero() {
    assert_eq!(ordinal_of(1, 2), Ok(0));
    assert_eq!(ordinal_of(2, 2), Ok(1));
    assert_eq!(ordinal_of(0, 2), Err(RegionError::NoRegion));
    assert_eq!(ordinal_of(3, 2), Err(RegionError::NoRegion));
    assert_eq!(ordinal_of(1, 0), Err(RegionError::NoRegion));
    assert_eq!(ordinal_of(usize::MAX, usize::MAX), Ok(usize::MAX - 1));
}
