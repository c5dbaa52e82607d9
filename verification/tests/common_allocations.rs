use std::collections::HashSet;
use umdh_analyzer::common::{find_common_allocations, get_all_backtraces, pairwise_diffs};
use umdh_analyzer::snapshot::AllocationMap;

fn addresses(list: &[i64]) -> HashSet<i64> {
    list.iter().copied().collect()
}

fn snapshot(entries: &[(&[u8], &[i64])]) -> AllocationMap {
    let mut map = AllocationMap::new();
    for (signature, list) in entries {
        for address in list.iter() {
            map.insert(signature, *address);
        }
    }
    map
}

#[test]
fn intersection_over_three_maps() {
    let a = snapshot(&[(b"S", &[1, 2, 3])]);
    let b = snapshot(&[(b"S", &[2, 3, 4])]);
    let c = snapshot(&[(b"S", &[3, 4, 5])]);
    let keys = vec![b"S".to_vec()];
    let common = find_common_allocations(&keys, &[&a, &b, &c]);
    assert_eq!(common.len(), 1);
    assert_eq!(common.get(b"S"), Some(&addresses(&[3])));
}

#[test]
fn signature_missing_from_one_map_is_omitted() {
    let a = snapshot(&[(b"S", &[1, 2, 3])]);
    let b = snapshot(&[(b"T", &[2, 3, 4])]);
    let c = snapshot(&[(b"S", &[3, 4, 5])]);
    let keys = vec![b"S".to_vec(), b"T".to_vec()];
    let common = find_common_allocations(&keys, &[&a, &b, &c]);
    assert_eq!(common.len(), 0);
    assert!(!common.contains_key(b"S"));
    assert!(!common.contains_key(b"T"));
}

#[test]
fn empty_intersection_is_omitted() {
    let a = snapshot(&[(b"S", &[1, 2]), (b"T", &[7])]);
    let b = snapshot(&[(b"S", &[3, 4]), (b"T", &[7, 8])]);
    let keys = vec![b"S".to_vec(), b"T".to_vec()];
    let common = find_common_allocations(&keys, &[&a, &b]);
    assert!(!common.contains_key(b"S"));
    assert_eq!(common.get(b"T"), Some(&addresses(&[7])));
    assert_eq!(common.len(), 1);
}

#[test]
fn empty_intersection_found_late_is_omitted() {
    let a = snapshot(&[(b"S", &[1, 2])]);
    let b = snapshot(&[(b"S", &[2, 3])]);
    let c = snapshot(&[(b"S", &[3, 4])]);
    let keys = vec![b"S".to_vec()];
    let common = find_common_allocations(&keys, &[&a, &b, &c]);
    assert_eq!(common.len(), 0);
}

#[test]
fn single_map_is_its_own_intersection() {
    let a = snapshot(&[(b"S", &[1, 2]), (b"T", &[5])]);
    let keys = vec![b"S".to_vec()];
    let common = find_common_allocations(&keys, &[&a]);
    assert_eq!(common.get(b"S"), Some(&addresses(&[1, 2])));
    assert!(!common.contains_key(b"T"));
}

#[test]
fn only_listed_signatures_are_compared() {
    let a = snapshot(&[(b"S", &[1]), (b"T", &[2])]);
    let b = snapshot(&[(b"S", &[1]), (b"T", &[2])]);
    let keys = vec![b"T".to_vec(), b"T".to_vec(), b"U".to_vec()];
    let common = find_common_allocations(&keys, &[&a, &b]);
    assert_eq!(common.len(), 1);
    assert_eq!(common.count(b"T"), Some(1));
}

#[test]
fn universe_is_the_union_of_keys() {
    let maps = vec![
        snapshot(&[(b"A", &[1]), (b"B", &[2])]),
        snapshot(&[(b"B", &[2]), (b"C", &[3])]),
        snapshot(&[(b"A", &[9])]),
    ];
    let all = get_all_backtraces(&maps);
    assert_eq!(all, vec![b"A".to_vec(), b"B".to_vec(), b"C".to_vec()]);
    assert!(get_all_backtraces(&[]).is_empty());
}

#[test]
fn one_diff_per_earlier_snapshot() {
    let maps = vec![
        snapshot(&[(b"A", &[1]), (b"B", &[2])]),
        snapshot(&[(b"A", &[1, 5]), (b"B", &[3])]),
        snapshot(&[(b"A", &[1, 5, 6]), (b"B", &[3])]),
    ];
    let all = get_all_backtraces(&maps);
    let diffs = pairwise_diffs(&all, &maps);
    assert_eq!(diffs.len(), 2);
    assert_eq!(diffs[0].get(b"A"), Some(&addresses(&[1])));
    assert!(!diffs[0].contains_key(b"B"));
    assert_eq!(diffs[1].get(b"A"), Some(&addresses(&[1, 5])));
    assert_eq!(diffs[1].get(b"B"), Some(&addresses(&[3])));
    assert!(pairwise_diffs(&all, &maps[..1]).is_empty());
    assert!(pairwise_diffs(&all, &[]).is_empty());
}
