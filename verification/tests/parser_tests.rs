use hexdiff::diff::{IHex16Diff, IHex16DiffEngine};
use hexdiff::ihex16::{IHex16File, IHex16Word};

fn words(f: &IHex16File) -> Vec<(u32, u32)> {
    f.0.iter().map(|w| (w.address, w.value)).collect()
}

#[test]
fn parses_one_data_record() {
    let f = IHex16File::from_hex(":0400000010000000EC\n:00000001FF\n");
    assert_eq!(words(&f), vec![(0, 0x10)]);
    assert!(f.check_wf());
}

#[test]
fn parses_little_endian_words() {
    // Payload 01 02 03 04: little-endian word value 0x04030201.
    let f = IHex16File::from_hex(":0400000001020304F2\n:00000001FF\n");
    assert_eq!(words(&f), vec![(0, 0x04030201)]);
}

#[test]
fn splits_payload_into_words_and_sorts() {
    // Two records out of address order; each an aligned 4-byte word.
    let text = ":0400040020000000D8\n:0400000010000000EC\n:00000001FF\n";
    let f = IHex16File::from_hex(text);
    assert_eq!(words(&f), vec![(0, 0x10), (4, 0x20)]);
}

#[test]
fn extended_address_rebases_offsets() {
    // ELA 0x0001 shifts subsequent offsets by 0x10000.
    let text = ":020000040001F9\n:0400000010000000EC\n:00000001FF\n";
    let f = IHex16File::from_hex(text);
    assert_eq!(words(&f), vec![(0x10000, 0x10)]);
}

#[test]
fn malformed_lines_are_skipped() {
    // A line with a bad checksum and a non-record line are ignored.
    let text = "garbage\n:0400000010000000EE\n:0400040020000000D8\n:00000001FF\n";
    let f = IHex16File::from_hex(text);
    assert_eq!(words(&f), vec![(4, 0x20)]);
}

#[test]
fn stops_at_end_of_file_record() {
    let text = ":0400000010000000EC\n:00000001FF\n:0400040020000000D8\n";
    let f = IHex16File::from_hex(text);
    assert_eq!(words(&f), vec![(0, 0x10)]);
}

#[test]
fn duplicate_addresses_keep_first() {
    let text = ":0400000010000000EC\n:0400000011000000EB\n:00000001FF\n";
    let f = IHex16File::from_hex(text);
    assert_eq!(words(&f), vec![(0, 0x10)]);
}

#[test]
fn zero_pads_trailing_partial_word() {
    // Payload of two bytes AB CD: padded to word 0x0000CDAB.
    let f = IHex16File::from_hex(":02000000ABCD86\n:00000001FF\n");
    assert_eq!(words(&f), vec![(0, 0x0000CDAB)]);
}

#[test]
fn parsed_files_diff_end_to_end() {
    let f1 = IHex16File::from_hex(":0400000010000000EC\n:00000001FF\n");
    let f2 = IHex16File::from_hex(":0400000011000000EB\n:00000001FF\n");
    let out = IHex16DiffEngine::diff_all(f1, f2);
    assert_eq!(
        out,
        vec![IHex16Diff::Single { address: 0, value_1: 0x10, value_2: 0x11 }]
    );
}

#[test]
fn empty_text_gives_empty_image() {
    let f = IHex16File::from_hex("");
    assert!(f.0.is_empty());
    let _ = IHex16Word { address: 0, value: 0 };
}
