use seqstamp::entries::FileEntry;
use seqstamp::schedule::{plan_schedule, PlanError};

fn entry(name: &str, handle: usize) -> FileEntry {
    FileEntry { name: name.as_bytes().to_vec(), handle }
}

#[test]
fn instants_step_by_offset() {
    let entries = vec![entry("a", 0), entry("b", 1), entry("c", 2)];
    let planned = plan_schedule(entries, 1000, 60).unwrap();
    let instants: Vec<i64> = planned.iter().map(|p| p.instant).collect();
    assert_eq!(instants, vec![1000, 1060, 1120]);
    let handles: Vec<usize> = planned.iter().map(|p| p.entry.handle).collect();
    assert_eq!(handles, vec![0, 1, 2]);
}

#[test]
fn empty_plan() {
    let planned = plan_schedule(Vec::new(), 12345, 60).unwrap();
    assert_eq!(planned.len(), 0);
}

#[test]
fn single_entry_gets_the_start() {
    let planned = plan_schedule(vec![entry("a", 0)], -777, 60).unwrap();
    assert_eq!(planned.len(), 1);
    assert_eq!(planned[0].instant, -777);
}

#[test]
fn zero_offset_repeats_the_start() {
    let planned = plan_schedule(vec![entry("a", 0), entry("b", 1)], 5, 0).unwrap();
    let instants: Vec<i64> = planned.iter().map(|p| p.instant).collect();
    assert_eq!(instants, vec![5, 5]);
}

#[test]
fn overflow_is_reported() {
    let r = plan_schedule(vec![entry("a", 0), entry("b", 1)], i64::MAX, 1);
    assert_eq!(r.unwrap_err(), PlanError::InstantOverflow);
    // A single entry never advances past the start, so it still fits.
    let r = plan_schedule(vec![entry("a", 0)], i64::MAX, 1);
    assert!(r.is_ok());
}
