use std::collections::HashSet;
use umdh_analyzer::classify::MissingKey;
use umdh_analyzer::common::{common_addresses_of, copy_set, intersect};
use umdh_analyzer::hex::hex_digit_value;
use umdh_analyzer::parser::locate_record;
use umdh_analyzer::rank::{may_precede, sort_ranked, Ranked};
use umdh_analyzer::report::{format_missing_key, frequent_signatures, rows_for};
use umdh_analyzer::snapshot::AllocationMap;
use umdh_analyzer::text::{append_bytes, find, matches_at, scan_to};

fn set_of(addresses: &[i64]) -> HashSet<i64> {
    addresses.iter().copied().collect()
}

fn ranked(count: Option<usize>, signature: &[u8]) -> Ranked {
    Ranked { count, signature: signature.to_vec() }
}

#[test]
fn searching_bytes() {
    assert_eq!(find(b"a cat at bat", b"at"), Some(3));
    assert_eq!(find(b"a cat at bat", b"at "), Some(3));
    assert_eq!(find(b"what", b"at "), None);
    assert_eq!(find(b"abc", b""), Some(0));
    assert_eq!(find(b"", b""), Some(0));
    assert_eq!(find(b"", b"a"), None);
    assert_eq!(find(b"aaab", b"aab"), Some(1));
    assert!(matches_at(b"BackTrace", b"Trace", 4));
    assert!(!matches_at(b"BackTrace", b"Trace", 3));
    assert!(!matches_at(b"BackTrace", b"Trace", 5));
    assert!(matches_at(b"abc", b"", 3));
    assert!(!matches_at(b"abc", b"", 4));
    assert_eq!(scan_to(b"1A2B by", 0, b' '), 4);
    assert_eq!(scan_to(b"1A2B by", 4, b' '), 4);
    assert_eq!(scan_to(b"1A2B by", 5, b' '), 7);
    assert_eq!(scan_to(b"1A2B", 4, b' '), 4);
}

#[test]
fn hexadecimal_digits() {
    assert_eq!(hex_digit_value(b'0'), Some(0));
    assert_eq!(hex_digit_value(b'9'), Some(9));
    assert_eq!(hex_digit_value(b'a'), Some(10));
    assert_eq!(hex_digit_value(b'F'), Some(15));
    assert_eq!(hex_digit_value(b'g'), None);
    assert_eq!(hex_digit_value(b'/'), None);
    assert_eq!(hex_digit_value(b':'), None);
    assert_eq!(hex_digit_value(b'@'), None);
    assert_eq!(hex_digit_value(b'`'), None);
    assert_eq!(hex_digit_value(b' '), None);
}

#[test]
fn record_position_in_a_line() {
    assert_eq!(locate_record(b"10 bytes + 10 at 1A2B by BackTraceX"), Some((25, 0x1A2B)));
    assert_eq!(locate_record(b"BackTrace at 7 by"), None);
    assert_eq!(locate_record(b"BackTrace at 7 by "), None);
    assert_eq!(locate_record(b"BackTrace at 7 by k"), Some((18, 7)));
    assert_eq!(locate_record(b"BackTraceat 7"), None);
    assert_eq!(locate_record(b"Backtrace at 7 by k"), None);
}

#[test]
fn sets_intersect_and_copy() {
    let a = set_of(&[1, 2, 3, 4]);
    let b = set_of(&[3, 4, 5]);
    assert_eq!(intersect(&a, &b), set_of(&[3, 4]));
    assert_eq!(intersect(&b, &a), set_of(&[3, 4]));
    assert_eq!(intersect(&a, &set_of(&[])), set_of(&[]));
    assert_eq!(copy_set(&a), a);
}

#[test]
fn common_addresses_of_one_signature() {
    let mut first = AllocationMap::new();
    let mut second = AllocationMap::new();
    for address in [1, 2, 3] {
        first.insert(b"S", address);
    }
    for address in [2, 3, 4] {
        second.insert(b"S", address);
    }
    second.insert(b"T", 9);
    assert_eq!(common_addresses_of(b"S", &[&first, &second]), Some(set_of(&[2, 3])));
    assert_eq!(common_addresses_of(b"T", &[&first, &second]), None);
    assert_eq!(common_addresses_of(b"T", &[&second]), Some(set_of(&[9])));
    assert_eq!(common_addresses_of(b"U", &[&first, &second]), None);
}

#[test]
fn order_of_ranked_items() {
    assert!(may_precede(&ranked(Some(5), b"A"), &ranked(Some(2), b"B")));
    assert!(!may_precede(&ranked(Some(2), b"B"), &ranked(Some(5), b"A")));
    assert!(may_precede(&ranked(Some(2), b"B"), &ranked(Some(2), b"A")));
    assert!(may_precede(&ranked(Some(1), b"A"), &ranked(None, b"B")));
    assert!(!may_precede(&ranked(None, b"B"), &ranked(Some(1), b"A")));
    assert!(may_precede(&ranked(None, b"B"), &ranked(None, b"A")));
    assert!(!may_precede(&ranked(None, b"A"), &ranked(None, b"B")));
    let sorted = sort_ranked(vec![
        ranked(None, b"b"),
        ranked(Some(1), b"x"),
        ranked(None, b"c"),
        ranked(Some(9), b"y"),
        ranked(Some(4), b"z"),
    ]);
    assert_eq!(sorted, vec![
        ranked(Some(9), b"y"),
        ranked(Some(4), b"z"),
        ranked(Some(1), b"x"),
        ranked(None, b"c"),
        ranked(None, b"b"),
    ]);
    let many: Vec<Ranked> = (0..1000usize).map(|i| ranked(Some((i * 7919) % 1009), b"k")).collect();
    let sorted = sort_ranked(many);
    assert_eq!(sorted.len(), 1000);
    for pair in sorted.windows(2) {
        assert!(pair[0].count >= pair[1].count);
    }
}

#[test]
fn rows_of_chosen_signatures() {
    let mut map = AllocationMap::new();
    for (signature, address) in [(b"A", 3), (b"B", 1), (b"A", 2), (b"C", 8), (b"C", 7), (b"C", 6)] {
        map.insert(signature, address);
    }
    let rows = rows_for(&[b"C".to_vec(), b"X".to_vec(), b"A".to_vec()], &map);
    assert_eq!(rows.len(), 3);
    assert_eq!(rows[0].addresses, vec![6, 7, 8]);
    assert_eq!(rows[1].signature, b"X".to_vec());
    assert!(rows[1].addresses.is_empty());
    assert_eq!(rows[2].addresses, vec![2, 3]);
    assert_eq!(frequent_signatures(&map), vec![b"C".to_vec(), b"A".to_vec()]);
}

#[test]
fn missing_key_row_and_appended_bytes() {
    let key = MissingKey { signature: b"BackTraceGone".to_vec(), last_count: 12 };
    assert_eq!(format_missing_key(&key), b"BackTraceGone,12".to_vec());
    let mut out = b"ab".to_vec();
    append_bytes(&mut out, b"cd");
    append_bytes(&mut out, b"");
    assert_eq!(out, b"abcd".to_vec());
}
