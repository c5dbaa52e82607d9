use umdh_analyzer::classify::{classify, classify_backtraces, trend_of, Bucket};
use umdh_analyzer::snapshot::AllocationMap;

fn diff_with(entries: &[(&[u8], usize)]) -> AllocationMap {
    let mut map = AllocationMap::new();
    for (signature, count) in entries {
        for address in 0..*count {
            map.insert(signature, 0x1000 + address as i64);
        }
    }
    map
}

#[test]
fn growing_counts_are_leaked() {
    assert_eq!(classify(&[Some(1), Some(2), Some(3)]), (Bucket::Leaked, 3));
}

#[test]
fn constant_counts_are_static() {
    assert_eq!(classify(&[Some(2), Some(2), Some(2)]), (Bucket::Static, 2));
}

#[test]
fn falling_counts_are_variable() {
    assert_eq!(classify(&[Some(2), Some(5), Some(1)]), (Bucket::Variable, 5));
}

#[test]
fn absent_anywhere_is_not_comparable() {
    assert_eq!(classify(&[Some(1), None, Some(3)]), (Bucket::NotComparable, 3));
    assert_eq!(classify(&[None, Some(2), Some(2)]), (Bucket::NotComparable, 2));
    assert_eq!(classify(&[Some(2), Some(5), None, Some(1)]), (Bucket::NotComparable, 5));
    assert_eq!(classify(&[None]), (Bucket::NotComparable, 0));
}

#[test]
fn edge_cases_of_the_trend() {
    assert_eq!(classify(&[]), (Bucket::Static, 0));
    assert_eq!(classify(&[Some(4)]), (Bucket::Static, 4));
    assert_eq!(classify(&[Some(0), Some(2), Some(2)]), (Bucket::Static, 2));
    assert_eq!(classify(&[Some(0), Some(2), Some(3)]), (Bucket::Leaked, 3));
    assert_eq!(classify(&[Some(5), Some(1), Some(3)]), (Bucket::Variable, 5));
    assert_eq!(classify(&[Some(1), Some(3), Some(2)]), (Bucket::Variable, 3));
}

#[test]
fn trend_reads_each_diff() {
    let diffs = vec![diff_with(&[(b"A", 1)]), diff_with(&[(b"B", 2)]), diff_with(&[(b"A", 3)])];
    assert_eq!(trend_of(b"A", &diffs), vec![Some(1), None, Some(3)]);
    assert_eq!(trend_of(b"C", &diffs), vec![None, None, None]);
}

#[test]
fn every_signature_lands_in_one_bucket() {
    let diffs = vec![
        diff_with(&[(b"L", 1), (b"S", 2), (b"V", 5), (b"M", 4)]),
        diff_with(&[(b"L", 2), (b"S", 2), (b"V", 1)]),
    ];
    let all = vec![b"V".to_vec(), b"L".to_vec(), b"M".to_vec(), b"S".to_vec(), b"X".to_vec()];
    let buckets = classify_backtraces(&all, &diffs);
    assert_eq!(buckets.leaked, vec![b"L".to_vec()]);
    assert_eq!(buckets.variable, vec![b"V".to_vec()]);
    assert_eq!(buckets.stable, vec![b"S".to_vec()]);
    assert_eq!(buckets.missing.len(), 2);
    assert_eq!(buckets.missing[0].signature, b"M".to_vec());
    assert_eq!(buckets.missing[0].last_count, 4);
    assert_eq!(buckets.missing[1].signature, b"X".to_vec());
    assert_eq!(buckets.missing[1].last_count, 0);
}
