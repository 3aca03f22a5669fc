use hexdiff::diff::IHex16Diff;
use hexdiff::filter::{filter_records, IgnoreRange};

fn single(address: u32, value_1: u32, value_2: u32) -> IHex16Diff {
    IHex16Diff::Single { address, value_1, value_2 }
}

fn range(start: u32, end: u32, value_1: u32, value_2: u32) -> IHex16Diff {
    IHex16Diff::Range { start, end, value_1, value_2 }
}

#[test]
fn ignored_record_dropped_regardless_of_show_all() {
    let records = vec![single(0x10, 1, 2)];
    let ignores = vec![IgnoreRange { start: 0x00, end: 0x20 }];
    assert!(filter_records(&records, false, &ignores).is_empty());
    assert!(filter_records(&records, true, &ignores).is_empty());
}

#[test]
fn diffs_only_by_default() {
    let records = vec![single(0, 1, 1), single(2, 1, 2), range(4, 8, 3, 3)];
    let ignores: Vec<IgnoreRange> = vec![];
    let out = filter_records(&records, false, &ignores);
    assert_eq!(out, vec![single(2, 1, 2)]);
}

#[test]
fn show_all_keeps_sames() {
    let records = vec![single(0, 1, 1), single(2, 1, 2)];
    let ignores: Vec<IgnoreRange> = vec![];
    let out = filter_records(&records, true, &ignores);
    assert_eq!(out, records);
}

#[test]
fn range_overlap_is_inclusive() {
    let rec = range(4, 8, 1, 2);
    assert!(rec.in_range(&IgnoreRange { start: 8, end: 20 }));
    assert!(rec.in_range(&IgnoreRange { start: 0, end: 4 }));
    assert!(rec.in_range(&IgnoreRange { start: 5, end: 6 }));
    assert!(!rec.in_range(&IgnoreRange { start: 9, end: 20 }));
    assert!(!rec.in_range(&IgnoreRange { start: 0, end: 3 }));
}

#[test]
fn single_overlap_is_membership() {
    let rec = single(5, 1, 2);
    assert!(rec.in_range(&IgnoreRange { start: 5, end: 5 }));
    assert!(rec.in_range(&IgnoreRange { start: 0, end: u32::MAX }));
    assert!(!rec.in_range(&IgnoreRange { start: 6, end: 9 }));
    assert!(!rec.in_range(&IgnoreRange { start: 0, end: 4 }));
}

#[test]
fn partial_overlap_still_drops() {
    let records = vec![range(4, 8, 1, 2), single(20, 1, 2)];
    let ignores = vec![IgnoreRange { start: 8, end: 10 }];
    let out = filter_records(&records, false, &ignores);
    assert_eq!(out, vec![single(20, 1, 2)]);
}
