use umdh_analyzer::signatures::{copy_bytes, hash_bytes, same_bytes, SignatureSet};
use umdh_analyzer::snapshot::AllocationMap;

#[test]
fn set_keeps_first_insertion_order() {
    let mut set = SignatureSet::new();
    assert_eq!(set.len(), 0);
    assert_eq!(set.position(b"a"), None);
    assert_eq!(set.insert(b"b"), (0, true));
    assert_eq!(set.insert(b"a"), (1, true));
    assert_eq!(set.insert(b"b"), (0, false));
    assert_eq!(set.insert(b""), (2, true));
    assert_eq!(set.len(), 3);
    assert_eq!(set.position(b"a"), Some(1));
    assert_eq!(set.position(b""), Some(2));
    assert_eq!(set.position(b"c"), None);
    assert_eq!(set.signature_at(1), &b"a".to_vec());
    assert_eq!(set.into_vec(), vec![b"b".to_vec(), b"a".to_vec(), Vec::new()]);
}

#[test]
fn set_finds_every_key_after_growing() {
    let mut set = SignatureSet::new();
    let count: usize = 20000;
    for i in 0..count {
        let key = format!("BackTrace{:X}", i * 7919);
        assert_eq!(set.insert(key.as_bytes()), (i, true));
    }
    assert_eq!(set.len(), count);
    for i in 0..count {
        let key = format!("BackTrace{:X}", i * 7919);
        assert_eq!(set.position(key.as_bytes()), Some(i));
        assert_eq!(set.insert(key.as_bytes()), (i, false));
    }
    assert_eq!(set.position(b"BackTrace"), None);
    assert_eq!(set.len(), count);
}

#[test]
fn hash_is_the_same_for_the_same_bytes() {
    assert_eq!(hash_bytes(b""), 0xcbf29ce484222325);
    assert_eq!(hash_bytes(b"a"), 0xaf63dc4c8601ec8c);
    assert_eq!(hash_bytes(b"foobar"), 0x85944171f73967e8);
    assert_eq!(hash_bytes(b"BackTraceX"), hash_bytes(&copy_bytes(b"BackTraceX")));
}

#[test]
fn bytes_compare_and_copy() {
    assert!(same_bytes(b"", b""));
    assert!(same_bytes(b"abc", b"abc"));
    assert!(!same_bytes(b"abc", b"abd"));
    assert!(!same_bytes(b"abc", b"ab"));
    assert_eq!(copy_bytes(b"BackTrace"), b"BackTrace".to_vec());
}

#[test]
fn map_with_many_signatures() {
    let mut map = AllocationMap::new();
    let count: usize = 5000;
    for round in 0..3 {
        for i in 0..count {
            let key = format!("BackTrace{}", i);
            map.insert(key.as_bytes(), (i * 16 + round) as i64);
        }
    }
    assert_eq!(map.len(), count);
    assert_eq!(map.count(b"BackTrace4999"), Some(3));
    assert_eq!(map.position(b"BackTrace17"), Some(17));
    assert_eq!(map.signature_at(17), &b"BackTrace17".to_vec());
    assert_eq!(map.addresses_at(17).len(), 3);
    assert!(map.addresses_at(17).contains(&(17 * 16 + 2)));
    assert_eq!(map.get(b"BackTrace5000"), None);
}
