use std::collections::HashSet;
use umdh_analyzer::hex::parse_hex;
use umdh_analyzer::parser::{parse_line, parse_umdh_file};

fn set_of(addresses: &[i64]) -> HashSet<i64> {
    addresses.iter().copied().collect()
}

#[test]
fn parse_round_trip() {
    let map = parse_umdh_file(b"10 bytes + 10 at 1A2B by BackTraceX\nignored line\n");
    assert_eq!(map.len(), 1);
    assert_eq!(map.get(b"BackTraceX"), Some(&set_of(&[0x1A2B])));
    assert!(!map.contains_key(b"ignored line"));
}

#[test]
fn hex_tokens() {
    assert_eq!(parse_hex(b"1A2B"), Some(0x1A2B));
    assert_eq!(parse_hex(b"1e30f1b0770"), Some(0x1E30F1B0770));
    assert_eq!(parse_hex(b""), None);
    assert_eq!(parse_hex(b"+"), None);
    assert_eq!(parse_hex(b"-"), None);
    assert_eq!(parse_hex(b"+ff"), Some(255));
    assert_eq!(parse_hex(b"-ff"), Some(-255));
    assert_eq!(parse_hex(b"7fffffffffffffff"), Some(i64::MAX));
    assert_eq!(parse_hex(b"8000000000000000"), None);
    assert_eq!(parse_hex(b"-8000000000000000"), Some(i64::MIN));
    assert_eq!(parse_hex(b"-8000000000000001"), None);
    assert_eq!(parse_hex(b"12G4"), None);
    assert_eq!(parse_hex(b"0x10"), None);
}

#[test]
fn line_with_carriage_return() {
    let map = parse_umdh_file(b"30 bytes + 30 at 1E30F1B0770 by BackTraceF076263\r\n");
    assert_eq!(map.get(b"BackTraceF076263"), Some(&set_of(&[0x1E30F1B0770])));
    assert_eq!(parse_line(b"30 bytes + 30 at 10 by BackTraceA"), Some((b"BackTraceA".to_vec(), 16)));
}
