use hexdiff::diff::{IHex16Diff, IHex16DiffEngine, SENTINEL};
use hexdiff::ihex16::{IHex16File, IHex16Word};

fn word(address: u32, value: u32) -> IHex16Word {
    IHex16Word { address, value }
}

fn file(words: Vec<IHex16Word>) -> IHex16File {
    let f = IHex16File(words);
    assert!(f.check_wf());
    f
}

#[test]
fn scenario_single_same() {
    let a = file(vec![word(0, 0x10)]);
    let b = file(vec![word(0, 0x10)]);
    let out = IHex16DiffEngine::diff_all(a, b);
    assert_eq!(out, vec![IHex16Diff::Single { address: 0, value_1: 0x10, value_2: 0x10 }]);
    assert!(out[0].is_same());
    assert!(!out[0].is_diff());
}

#[test]
fn scenario_one_sided_tail() {
    let a = file(vec![word(0, 0x10), word(4, 0x20)]);
    let b = file(vec![word(0, 0x10)]);
    let out = IHex16DiffEngine::diff_all(a, b);
    assert_eq!(
        out,
        vec![
            IHex16Diff::Single { address: 0, value_1: 0x10, value_2: 0x10 },
            IHex16Diff::Single { address: 2, value_1: 0x20, value_2: SENTINEL },
        ]
    );
    assert!(out[0].is_same());
    assert!(out[1].is_diff());
}

#[test]
fn scenario_coalesced_range() {
    let a = file(vec![word(0, 0x01), word(4, 0x01), word(8, 0x01)]);
    let b = file(vec![word(0, 0x02), word(4, 0x02), word(8, 0x02)]);
    let out = IHex16DiffEngine::diff_all(a, b);
    assert_eq!(
        out,
        vec![IHex16Diff::Range { start: 0, end: 4, value_1: 0x01, value_2: 0x02 }]
    );
    assert!(out[0].is_diff());
}

#[test]
fn scenario_leading_gap() {
    let a = file(vec![word(8, 0x01)]);
    let b = file(vec![word(8, 0x01)]);
    let out = IHex16DiffEngine::diff_all(a, b);
    assert_eq!(
        out,
        vec![
            IHex16Diff::Range { start: 0, end: 3, value_1: SENTINEL, value_2: SENTINEL },
            IHex16Diff::Single { address: 4, value_1: 0x01, value_2: 0x01 },
        ]
    );
    assert!(out[0].is_same());
}

#[test]
fn gap_in_the_middle() {
    let a = file(vec![word(0, 0x10), word(12, 0x30)]);
    let b = file(vec![word(0, 0x11), word(12, 0x30)]);
    let out = IHex16DiffEngine::diff_all(a, b);
    assert_eq!(
        out,
        vec![
            IHex16Diff::Single { address: 0, value_1: 0x10, value_2: 0x11 },
            IHex16Diff::Range { start: 2, end: 5, value_1: SENTINEL, value_2: SENTINEL },
            IHex16Diff::Single { address: 6, value_1: 0x30, value_2: 0x30 },
        ]
    );
}

#[test]
fn one_sided_values_use_sentinel() {
    let a = file(vec![word(0, 0x10)]);
    let b = file(vec![word(4, 0x20)]);
    let out = IHex16DiffEngine::diff_all(a, b);
    assert_eq!(
        out,
        vec![
            IHex16Diff::Single { address: 0, value_1: 0x10, value_2: SENTINEL },
            IHex16Diff::Single { address: 2, value_1: SENTINEL, value_2: 0x20 },
        ]
    );
}

#[test]
fn identical_inputs_all_same() {
    let words = vec![word(0, 1), word(4, 7), word(16, 9)];
    let a = file(words.clone());
    let b = file(words);
    let out = IHex16DiffEngine::diff_all(a, b);
    assert!(!out.is_empty());
    for rec in &out {
        assert!(rec.is_same());
        assert!(!rec.is_diff());
    }
}

#[test]
fn empty_inputs_empty_stream() {
    let a = file(vec![]);
    let b = file(vec![]);
    let out = IHex16DiffEngine::diff_all(a, b);
    assert!(out.is_empty());
}

#[test]
fn engine_stays_exhausted() {
    let a = file(vec![word(0, 1)]);
    let b = file(vec![word(0, 1)]);
    let mut engine = IHex16DiffEngine::diff(a, b);
    assert!(engine.next().is_some());
    assert!(engine.next().is_none());
    assert!(engine.next().is_none());
}

#[test]
fn addresses_are_halved_in_output() {
    let a = file(vec![word(0x1000, 5)]);
    let b = file(vec![word(0x1000, 6)]);
    let out = IHex16DiffEngine::diff_all(a, b);
    assert_eq!(out.len(), 2);
    assert_eq!(
        out[1],
        IHex16Diff::Single { address: 0x800, value_1: 5, value_2: 6 }
    );
}

#[test]
fn consecutive_records_never_share_values() {
    let a = file(vec![word(0, 1), word(4, 1), word(8, 2), word(20, 2)]);
    let b = file(vec![word(0, 1), word(4, 3), word(8, 2)]);
    let out = IHex16DiffEngine::diff_all(a, b);
    let values = |r: &IHex16Diff| match *r {
        IHex16Diff::Single { value_1, value_2, .. } => (value_1, value_2),
        IHex16Diff::Range { value_1, value_2, .. } => (value_1, value_2),
    };
    for pair in out.windows(2) {
        assert_ne!(values(&pair[0]), values(&pair[1]));
    }
}

#[test]
fn records_partition_the_covered_span() {
    let a = file(vec![word(0, 1), word(4, 1), word(16, 2), word(24, 9)]);
    let b = file(vec![word(4, 1), word(16, 3)]);
    let out = IHex16DiffEngine::diff_all(a, b);
    // Internal byte bounds of each record: a Single covers one word; a Range
    // with an even end runs to 2*end + 4, with an odd end (a gap) to 2*end + 2.
    let bounds = |r: &IHex16Diff| match *r {
        IHex16Diff::Single { address, .. } => (2 * address as u64, 2 * address as u64 + 4),
        IHex16Diff::Range { start, end, .. } => (
            2 * start as u64,
            if end % 2 == 0 { 2 * end as u64 + 4 } else { 2 * end as u64 + 2 },
        ),
    };
    assert!(!out.is_empty());
    assert_eq!(bounds(&out[0]).0, 0);
    for pair in out.windows(2) {
        assert_eq!(bounds(&pair[0]).1, bounds(&pair[1]).0);
    }
    assert_eq!(bounds(out.last().unwrap()).1, 24 + 4);
}

#[test]
fn check_wf_rejects_bad_sequences() {
    let unsorted = IHex16File(vec![word(4, 1), word(0, 2)]);
    assert!(!unsorted.check_wf());
    let duplicate = IHex16File(vec![word(0, 1), word(0, 2)]);
    assert!(!duplicate.check_wf());
    let misaligned = IHex16File(vec![word(2, 1)]);
    assert!(!misaligned.check_wf());
    let sorted = IHex16File(vec![word(0, 1), word(8, 2)]);
    assert!(sorted.check_wf());
}
