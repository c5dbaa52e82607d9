use umdh_analyzer::addresses::{address_list, sort_addresses};
use umdh_analyzer::report::{
    address_rows, allocation_rows, always_present_rows, format_address_row,
    format_row, sort_backtraces, AddressRow,
};
use umdh_analyzer::snapshot::AllocationMap;
use umdh_analyzer::text::{append_integer, append_natural, lex_le_bytes};

fn diff_of(entries: &[(&[u8], usize)]) -> AllocationMap {
    let mut map = AllocationMap::new();
    for (signature, count) in entries {
        for address in 0..*count {
            map.insert(signature, 0x2000 + address as i64);
        }
    }
    map
}

fn keys(list: &[&[u8]]) -> Vec<Vec<u8>> {
    list.iter().map(|k| k.to_vec()).collect()
}

#[test]
fn larger_count_is_listed_first() {
    let final_diff = diff_of(&[(b"A", 5), (b"B", 2)]);
    assert_eq!(sort_backtraces(&keys(&[b"B", b"A"]), &final_diff), keys(&[b"A", b"B"]));
    assert_eq!(sort_backtraces(&keys(&[b"A", b"B"]), &final_diff), keys(&[b"A", b"B"]));
}

#[test]
fn present_before_absent_and_absent_by_descending_text() {
    let final_diff = diff_of(&[(b"m", 1), (b"k", 3)]);
    let sorted = sort_backtraces(&keys(&[b"a", b"m", b"zz", b"k", b"z", b"ab"]), &final_diff);
    assert_eq!(sorted, keys(&[b"k", b"m", b"zz", b"z", b"ab", b"a"]));
}

#[test]
fn sorting_keeps_every_signature() {
    let final_diff = diff_of(&[(b"x", 2), (b"y", 2), (b"w", 7)]);
    let input = keys(&[b"y", b"q", b"x", b"w", b"q", b"r"]);
    let sorted = sort_backtraces(&input, &final_diff);
    assert_eq!(sorted.len(), 6);
    assert_eq!(sorted[0], b"w".to_vec());
    let mut first_two = vec![sorted[1].clone(), sorted[2].clone()];
    first_two.sort();
    assert_eq!(first_two, keys(&[b"x", b"y"]));
    assert_eq!(sorted[3..].to_vec(), keys(&[b"r", b"q", b"q"]));
    assert!(sort_backtraces(&[], &final_diff).is_empty());
}

#[test]
fn dictionary_order_of_bytes() {
    assert!(lex_le_bytes(b"", b""));
    assert!(lex_le_bytes(b"", b"a"));
    assert!(!lex_le_bytes(b"a", b""));
    assert!(lex_le_bytes(b"abc", b"abd"));
    assert!(!lex_le_bytes(b"abd", b"abc"));
    assert!(lex_le_bytes(b"ab", b"abc"));
    assert!(!lex_le_bytes(b"abc", b"ab"));
    assert!(lex_le_bytes(b"abc", b"abc"));
    assert!(lex_le_bytes(b"Z", b"a"));
}

#[test]
fn decimal_numbers() {
    let mut out = b"n=".to_vec();
    append_natural(&mut out, 0);
    out.push(b' ');
    append_natural(&mut out, 7);
    out.push(b' ');
    append_natural(&mut out, 1203);
    out.push(b' ');
    append_natural(&mut out, u64::MAX);
    assert_eq!(out, b"n=0 7 1203 18446744073709551615".to_vec());
    let mut signed = Vec::new();
    append_integer(&mut signed, -45);
    signed.push(b' ');
    append_integer(&mut signed, i64::MIN);
    signed.push(b' ');
    append_integer(&mut signed, i64::MAX);
    assert_eq!(signed, b"-45 -9223372036854775808 9223372036854775807".to_vec());
}

#[test]
fn row_has_one_column_per_diff() {
    assert_eq!(format_row(b"BackTraceX", &[Some(1), None, Some(12)]), b"1,,12,BackTraceX".to_vec());
    assert_eq!(format_row(b"BackTraceX", &[]), b"BackTraceX".to_vec());
    assert_eq!(format_row(b"", &[None]), b",".to_vec());
    let diffs = vec![diff_of(&[(b"A", 1)]), diff_of(&[(b"A", 3), (b"B", 2)])];
    let rows = allocation_rows(&keys(&[b"A", b"B", b"C"]), &diffs);
    assert_eq!(rows, vec![b"1,3,A".to_vec(), b",2,B".to_vec(), b",,C".to_vec()]);
}

#[test]
fn address_rows_list_each_address_once() {
    let mut map = AllocationMap::new();
    map.insert(b"A", 10);
    map.insert(b"B", -3);
    map.insert(b"A", 11);
    map.insert(b"A", 10);
    let rows = address_rows(&map);
    assert_eq!(rows.len(), 2);
    assert_eq!(rows[0].signature, b"A".to_vec());
    assert_eq!(rows[0].addresses, vec![10, 11]);
    assert_eq!(rows[1].signature, b"B".to_vec());
    assert_eq!(rows[1].addresses, vec![-3]);
    assert_eq!(address_list(map.get(b"A").unwrap()), vec![10, 11]);
}

#[test]
fn addresses_come_smallest_first() {
    assert_eq!(sort_addresses(vec![5, -2, 9, 0, 5, i64::MIN, i64::MAX]), vec![
        i64::MIN,
        -2,
        0,
        5,
        5,
        9,
        i64::MAX
    ]);
    assert_eq!(sort_addresses(Vec::new()), Vec::<i64>::new());
    let mut map = AllocationMap::new();
    for address in [700, 3, 41, -8, 3, 12, 650, 1] {
        map.insert(b"K", address);
    }
    assert_eq!(address_list(map.get(b"K").unwrap()), vec![-8, 1, 3, 12, 41, 650, 700]);
}

#[test]
fn address_row_text() {
    let row = AddressRow { signature: b"BackTrace1".to_vec(), addresses: vec![26, -1, 4096] };
    assert_eq!(format_address_row(&row), b"BackTrace1,3 => {26, -1, 4096}".to_vec());
    let single = AddressRow { signature: b"S".to_vec(), addresses: vec![7] };
    assert_eq!(format_address_row(&single), b"S,1 => {7}".to_vec());
    let none = AddressRow { signature: b"S".to_vec(), addresses: vec![] };
    assert_eq!(format_address_row(&none), b"S,0 => {}".to_vec());
}

#[test]
fn always_present_keeps_counts_above_one() {
    let map = diff_of(&[(b"one", 1), (b"three", 3), (b"two", 2), (b"five", 5)]);
    let rows = always_present_rows(&map);
    let names: Vec<Vec<u8>> = rows.iter().map(|r| r.signature.clone()).collect();
    assert_eq!(names, keys(&[b"five", b"three", b"two"]));
    assert_eq!(rows[0].addresses.len(), 5);
    assert_eq!(rows[2].addresses.len(), 2);
}
