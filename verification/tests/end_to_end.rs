use std::collections::HashSet;
use umdh_analyzer::analysis::analyze;
use umdh_analyzer::parser::{parse_line, parse_umdh_file, parse_umdh_files};
use umdh_analyzer::render::render_report;
use umdh_analyzer::report::{allocation_rows, always_present_rows, format_address_row};

fn set_of(addresses: &[i64]) -> HashSet<i64> {
    addresses.iter().copied().collect()
}

#[test]
fn malformed_lines_are_skipped() {
    let text = b"header BackTrace without the keyword\n\
        10 bytes + 10 at XYZ1 by BackTraceBad\n\
        10 bytes + 10 at 1A2B by BackTraceGood\n\
        10 bytes + 10 at 1A2C by\n\
        10 bytes + 10 at 1A2D by \n\
        BackTrace at 1A2E\n";
    let map = parse_umdh_file(text);
    assert_eq!(map.len(), 1);
    assert_eq!(map.get(b"BackTraceGood"), Some(&set_of(&[0x1A2B])));
    assert_eq!(parse_line(b"header BackTrace without the keyword"), None);
    assert_eq!(parse_line(b"10 bytes + 10 at XYZ1 by BackTraceBad"), None);
    assert_eq!(parse_line(b"no marker at 1A2B by Nothing"), None);
    assert_eq!(parse_line(b""), None);
}

#[test]
fn duplicate_addresses_are_kept_once() {
    let text = b"8 bytes + 8 at 10 by BackTraceA\n8 bytes + 8 at 10 by BackTraceA\n\
        8 bytes + 8 at 20 by BackTraceA\n8 bytes + 8 at 10 by BackTraceB";
    let map = parse_umdh_file(text);
    assert_eq!(map.signatures(), vec![b"BackTraceA".to_vec(), b"BackTraceB".to_vec()]);
    assert_eq!(map.get(b"BackTraceA"), Some(&set_of(&[0x10, 0x20])));
    assert_eq!(map.count(b"BackTraceA"), Some(2));
    assert_eq!(map.get(b"BackTraceB"), Some(&set_of(&[0x10])));
    assert_eq!(map.count(b"BackTraceC"), None);
}

#[test]
fn line_shapes() {
    assert_eq!(
        parse_line(b"30 bytes + 30 at 1E30F1B0770 by BackTraceF076263"),
        Some((b"BackTraceF076263".to_vec(), 0x1E30F1B0770))
    );
    assert_eq!(
        parse_line(b"BackTrace7 seen at 1f by the second at 2f by x"),
        Some((b"the second at 2f by x".to_vec(), 0x1f))
    );
    assert_eq!(parse_line(b"BackTrace at 1A by X"), Some((b"X".to_vec(), 0x1A)));
    assert_eq!(parse_line(b"BackTrace at 1A by "), None);
    assert_eq!(parse_line(b"BackTrace at  by BackTrace"), None);
    assert_eq!(parse_line(b"BackTrace at -1A ++ BackTrace9"), Some((b"BackTrace9".to_vec(), -26)));
    let map = parse_umdh_file(b"\n\r\n1 at 5 by BackTraceZ\r\n\n1 at 6 by BackTraceZ\r");
    assert_eq!(map.get(b"BackTraceZ"), Some(&set_of(&[5])));
    assert_eq!(map.get(b"BackTraceZ\r"), Some(&set_of(&[6])));
    assert_eq!(parse_umdh_file(b"").len(), 0);
}

#[test]
fn three_snapshots_end_to_end() {
    let files = vec![
        b"1 at A0 by BackTraceLeak\n1 at B0 by BackTraceGone\n1 at C0 by BackTraceSame\n\
          1 at C1 by BackTraceSame\n"
            .to_vec(),
        b"1 at A0 by BackTraceLeak\n1 at A1 by BackTraceLeak\n1 at B0 by BackTraceGone\n\
          1 at C0 by BackTraceSame\n1 at C1 by BackTraceSame\n"
            .to_vec(),
        b"1 at A0 by BackTraceLeak\n1 at A1 by BackTraceLeak\n1 at A2 by BackTraceLeak\n\
          1 at A3 by BackTraceLeak\n1 at C0 by BackTraceSame\n1 at C1 by BackTraceSame\n"
            .to_vec(),
    ];
    let maps = parse_umdh_files(&files);
    assert_eq!(maps.len(), 3);
    let analysis = analyze(&maps).unwrap();
    assert_eq!(analysis.allocation_diffs.len(), 2);
    assert_eq!(analysis.leaked, vec![b"BackTraceLeak".to_vec()]);
    assert!(analysis.variable.is_empty());
    assert_eq!(analysis.stable, vec![b"BackTraceSame".to_vec()]);
    assert_eq!(analysis.missing.len(), 1);
    assert_eq!(analysis.missing[0].signature, b"BackTraceGone".to_vec());
    assert_eq!(analysis.missing[0].last_count, 0);
    for diff in analysis.allocation_diffs.iter() {
        assert!(!diff.contains_key(b"BackTraceGone"));
    }
    assert!(!analysis.always_present.contains_key(b"BackTraceGone"));
    assert_eq!(analysis.always_present.get(b"BackTraceLeak"), Some(&set_of(&[0xA0])));
    assert_eq!(
        allocation_rows(&analysis.leaked, &analysis.allocation_diffs),
        vec![b"1,2,BackTraceLeak".to_vec()]
    );
    assert_eq!(
        allocation_rows(&analysis.stable, &analysis.allocation_diffs),
        vec![b"2,2,BackTraceSame".to_vec()]
    );
    let rows = always_present_rows(&analysis.always_present);
    assert_eq!(rows.len(), 1);
    assert_eq!(format_address_row(&rows[0]), b"BackTraceSame,2 => {192, 193}".to_vec());
}

#[test]
fn fewer_than_two_snapshots_are_not_compared() {
    assert!(analyze(&[]).is_none());
    let one = parse_umdh_files(&[b"1 at A0 by BackTraceLeak\n".to_vec()]);
    assert!(analyze(&one).is_none());
    let two = parse_umdh_files(&[b"1 at A0 by BackTraceLeak\n".to_vec(), Vec::new()]);
    let analysis = analyze(&two).unwrap();
    assert_eq!(analysis.allocation_diffs.len(), 1);
    assert_eq!(analysis.missing.len(), 1);
}

#[test]
fn report_has_every_part_in_order() {
    let files = vec![
        b"1 at A0 by BackTraceLeak\n1 at B0 by BackTraceGone\n1 at C0 by BackTraceSame\n\
          1 at C1 by BackTraceSame\n1 at D0 by BackTraceVary\n1 at D1 by BackTraceVary\n\
          1 at D2 by BackTraceVary\n"
            .to_vec(),
        b"1 at A0 by BackTraceLeak\n1 at A1 by BackTraceLeak\n1 at B0 by BackTraceGone\n\
          1 at C0 by BackTraceSame\n1 at C1 by BackTraceSame\n1 at D0 by BackTraceVary\n"
            .to_vec(),
        b"1 at A0 by BackTraceLeak\n1 at A1 by BackTraceLeak\n1 at A2 by BackTraceLeak\n\
          1 at C0 by BackTraceSame\n1 at C1 by BackTraceSame\n1 at D0 by BackTraceVary\n\
          1 at D1 by BackTraceVary\n1 at D2 by BackTraceVary\n"
            .to_vec(),
    ];
    let maps = parse_umdh_files(&files);
    let analysis = analyze(&maps).unwrap();
    let lines: Vec<String> = render_report(&analysis)
        .into_iter()
        .map(|line| String::from_utf8(line).unwrap())
        .collect();
    let expected = vec![
        "Potential Leaked allocations as these allocations always kept increasing:",
        "Common allocations: [1st..Last],[2nd..Last],[3rd..Last],..,BackTrace*",
        "1,2,BackTraceLeak",
        "Variable allocations: [Count increased and decreased with time] / Can be waiting on some workflow like GC to deallocate these",
        "Common allocations: [1st..Last],[2nd..Last],[3rd..Last],..,BackTrace*",
        "3,1,BackTraceVary",
        "Allocations that never changed address: Sorted by count: [These can be global or leaked allocations]",
        "BackTraceSame,2 => {192, 193}",
        "Static allocations: [Count never changed]",
        "Common allocations: [1st..Last],[2nd..Last],[3rd..Last],..,BackTrace*",
        "2,2,BackTraceSame",
        "BackTraces which are definitely not leaking as they were not present in some umdh file",
        "BackTraceGone,0",
        "Allocations of last diff",
        "BackTraceLeak,2 => {160, 161}",
        "BackTraceSame,2 => {192, 193}",
        "BackTraceVary,1 => {208}",
    ];
    assert_eq!(lines, expected);
}

#[test]
fn report_without_any_signature_has_only_headers() {
    let analysis = analyze(&parse_umdh_files(&[Vec::new(), Vec::new()])).unwrap();
    assert!(analysis.all_backtraces.is_empty());
    assert_eq!(analysis.allocation_diffs.len(), 1);
    let lines = render_report(&analysis);
    assert_eq!(lines.len(), 9);
    assert_eq!(lines[0], b"Potential Leaked allocations as these allocations always kept increasing:".to_vec());
    assert_eq!(lines[7], b"BackTraces which are definitely not leaking as they were not present in some umdh file".to_vec());
    assert_eq!(lines[8], b"Allocations of last diff".to_vec());
}

#[test]
fn count_that_falls_and_rises_is_variable() {
    let files = vec![
        b"1 at 1 by BackTraceV\n1 at 2 by BackTraceV\n".to_vec(),
        b"1 at 1 by BackTraceV\n".to_vec(),
        b"1 at 1 by BackTraceV\n1 at 2 by BackTraceV\n1 at 3 by BackTraceV\n".to_vec(),
        b"1 at 1 by BackTraceV\n1 at 2 by BackTraceV\n1 at 3 by BackTraceV\n".to_vec(),
    ];
    let analysis = analyze(&parse_umdh_files(&files)).unwrap();
    assert_eq!(analysis.allocation_diffs.len(), 3);
    assert_eq!(analysis.variable, vec![b"BackTraceV".to_vec()]);
    assert!(analysis.leaked.is_empty());
    assert!(analysis.stable.is_empty());
    assert!(analysis.missing.is_empty());
    assert_eq!(analysis.always_present_order, Vec::<Vec<u8>>::new());
    assert_eq!(
        allocation_rows(&analysis.variable, &analysis.allocation_diffs),
        vec![b"2,1,3,BackTraceV".to_vec()]
    );
}
