//! What snapshots share: the signatures of all of them, and the addresses
//! that stay allocated under a signature from one snapshot to another.

use crate::signatures::{byte_views, SignatureSet};
use crate::snapshot::AllocationMap;
use std::collections::HashSet;
use vstd::prelude::*;

verus! {

broadcast use vstd::std_specs::hash::group_hash_axioms;

/// The contents of a list of snapshots.
pub open spec fn map_views(maps: Seq<AllocationMap>) -> Seq<Map<Seq<u8>, Set<i64>>> {
    Seq::new(maps.len(), |i: int| maps[i]@)
}

/// The contents of a list of borrowed snapshots.
pub open spec fn ref_views(maps: Seq<&AllocationMap>) -> Seq<Map<Seq<u8>, Set<i64>>> {
    Seq::new(maps.len(), |i: int| maps[i]@)
}

/// Every signature that occurs in at least one of the snapshots.
pub open spec fn universe(maps: Seq<Map<Seq<u8>, Set<i64>>>) -> Set<Seq<u8>> {
    Set::new(|k: Seq<u8>| exists|i: int| 0 <= i < maps.len() && (#[trigger] maps[i]).contains_key(k))
}

/// `signature` occurs in every one of the snapshots.
pub open spec fn present_in_all(maps: Seq<Map<Seq<u8>, Set<i64>>>, signature: Seq<u8>) -> bool {
    forall|i: int| 0 <= i < maps.len() ==> (#[trigger] maps[i]).contains_key(signature)
}

/// The addresses that every one of the snapshots holds under `signature`.
pub open spec fn common_addresses(maps: Seq<Map<Seq<u8>, Set<i64>>>, signature: Seq<u8>) -> Set<
    i64,
> {
    Set::new(|a: i64| forall|i: int| 0 <= i < maps.len() ==> (#[trigger] maps[i])[signature].contains(a))
}

/// `signature` occurs in every snapshot, with at least one address that all
/// of them hold under it.
pub open spec fn has_common(maps: Seq<Map<Seq<u8>, Set<i64>>>, signature: Seq<u8>) -> bool {
    present_in_all(maps, signature) && exists|a: i64| common_addresses(maps, signature).contains(a)
}

/// The common allocations of a list of snapshots, for the given signatures:
/// each signature that has any mapped to the addresses that all the
/// snapshots hold under it.
pub open spec fn common_allocations(
    signatures: Set<Seq<u8>>,
    maps: Seq<Map<Seq<u8>, Set<i64>>>,
) -> Map<Seq<u8>, Set<i64>> {
    Map::new(
        |k: Seq<u8>| signatures.contains(k) && has_common(maps, k),
        |k: Seq<u8>| common_addresses(maps, k),
    )
}

/// The signatures of all the snapshots, each once.
pub fn get_all_backtraces(backtrace_maps: &[AllocationMap]) -> (r: Vec<Vec<u8>>)
    ensures
        byte_views(r@).no_duplicates(),
        byte_views(r@).to_set() == universe(map_views(backtrace_maps@)),
{
    let mut all = SignatureSet::new();
    let ghost views = map_views(backtrace_maps@);
    let mut m: usize = 0;
    proof {
        assert(all.keys().to_set() =~= universe(views.take(0)));
    }
    while m < backtrace_maps.len()
        invariant
            m <= backtrace_maps@.len(),
            views == map_views(backtrace_maps@),
            all.keys().to_set() == universe(views.take(m as int)),
        decreases backtrace_maps@.len() - m,
    {
        let map = &backtrace_maps[m];
        let count = map.len();
        let ghost start = all.keys().to_set();
        let mut j: usize = 0;
        while j < count
            invariant
                j <= count,
                count == map.keys().len(),
                map.well_formed(),
                all.keys().to_set() == start.union(map.keys().take(j as int).to_set()),
            decreases count - j,
        {
            let signature = map.signature_at(j);
            let ghost before = all.keys();
            all.insert(signature.as_slice());
            proof {
                let keys = map.keys();
                assert(keys.take(j + 1) =~= keys.take(j as int).push(keys[j as int]));
                keys.take(j as int).lemma_push_to_set_commute(keys[j as int]);
                before.lemma_push_to_set_commute(signature@);
                assert(all.keys().to_set() =~= start.union(keys.take(j + 1).to_set()));
            }
            j += 1;
        }
        proof {
            let keys = map.keys();
            assert(keys.take(count as int) =~= keys);
            assert(views[m as int] == map@);
            assert(universe(views.take(m + 1)) =~= universe(views.take(m as int)).union(
                map@.dom(),
            )) by {
                let bigger = views.take(m + 1);
                let smaller = views.take(m as int);
                assert forall|k: Seq<u8>| universe(bigger).contains(k) <==> (universe(
                    smaller,
                ).contains(k) || map@.dom().contains(k)) by {
                    if universe(bigger).contains(k) {
                        let i = choose|i: int|
                            0 <= i < bigger.len() && (#[trigger] bigger[i]).contains_key(k);
                        if i < m {
                            assert(smaller[i].contains_key(k));
                        }
                    }
                    if universe(smaller).contains(k) {
                        let i = choose|i: int|
                            0 <= i < smaller.len() && (#[trigger] smaller[i]).contains_key(k);
                        assert(bigger[i].contains_key(k));
                    }
                    if map@.dom().contains(k) {
                        assert(bigger[m as int].contains_key(k));
                    }
                }
            }
        }
        m += 1;
    }
    proof {
        assert(views.take(m as int) =~= views);
    }
    all.into_vec()
}

/// The addresses that are in both `a` and `b`.
pub fn intersect(a: &HashSet<i64>, b: &HashSet<i64>) -> (r: HashSet<i64>)
    ensures
        r@ == a@.intersect(b@),
        r@.finite(),
{
    let mut r: HashSet<i64> = HashSet::new();
    let ghost mut done: Seq<i64> = Seq::empty();
    for x in it: a.iter()
        invariant
            it.seq().unref().to_set() == a@,
            done == it.seq().unref().take(it.index()),
            r@ == done.to_set().intersect(b@),
            r@.finite(),
            it.index() == it.seq().len() ==> done.to_set() == a@,
    {
        if b.contains(x) {
            r.insert(*x);
        }
        proof {
            let all = it.seq().unref();
            let i = it.index();
            assert(all.take(i + 1) =~= all.take(i).push(*x));
            all.take(i).lemma_push_to_set_commute(*x);
            if i + 1 == all.len() {
                assert(all.take(i + 1) =~= all);
            }
            done = done.push(*x);
        }
    }
    r
}

/// A copy of an address set.
pub fn copy_set(a: &HashSet<i64>) -> (r: HashSet<i64>)
    ensures
        r@ == a@,
        r@.finite(),
{
    let r = intersect(a, a);
    assert(a@.intersect(a@) =~= a@);
    r
}

/// With one more snapshot, the common addresses are those of the others that
/// the new snapshot holds too.
pub proof fn lemma_common_addresses_push(
    maps: Seq<Map<Seq<u8>, Set<i64>>>,
    next: Map<Seq<u8>, Set<i64>>,
    signature: Seq<u8>,
)
    ensures
        common_addresses(maps.push(next), signature) == common_addresses(maps, signature).intersect(
            next[signature],
        ),
{
    let more = maps.push(next);
    let n = maps.len() as int;
    assert forall|a: i64|
        common_addresses(more, signature).contains(a) <==> (common_addresses(
            maps,
            signature,
        ).contains(a) && next[signature].contains(a)) by {
        if common_addresses(more, signature).contains(a) {
            assert(more[n][signature].contains(a));
            assert forall|i: int| 0 <= i < maps.len() implies (#[trigger] maps[i])[signature].contains(
                a,
            ) by {
                assert(more[i][signature].contains(a));
            }
        }
        if common_addresses(maps, signature).contains(a) && next[signature].contains(a) {
            assert forall|i: int| 0 <= i < more.len() implies (#[trigger] more[i])[signature].contains(
                a,
            ) by {
                if i < n {
                    assert(maps[i][signature].contains(a));
                }
            }
        }
    }
    assert(common_addresses(more, signature) =~= common_addresses(maps, signature).intersect(
        next[signature],
    ));
}

/// The common addresses of all the snapshots are among those of the first few.
pub proof fn lemma_common_addresses_prefix(
    maps: Seq<Map<Seq<u8>, Set<i64>>>,
    n: int,
    signature: Seq<u8>,
)
    requires
        0 <= n <= maps.len(),
    ensures
        common_addresses(maps, signature).subset_of(common_addresses(maps.take(n), signature)),
{
    assert forall|a: i64| common_addresses(maps, signature).contains(a) implies common_addresses(
        maps.take(n),
        signature,
    ).contains(a) by {
        assert forall|i: int| 0 <= i < maps.take(n).len() implies (#[trigger] maps.take(
            n,
        )[i])[signature].contains(a) by {
            assert(maps[i][signature].contains(a));
        }
    }
}

/// What one more signature adds to the common allocations.
pub proof fn lemma_common_allocations_insert(
    signatures: Set<Seq<u8>>,
    maps: Seq<Map<Seq<u8>, Set<i64>>>,
    signature: Seq<u8>,
)
    ensures
        common_allocations(signatures.insert(signature), maps) == if has_common(maps, signature) {
            common_allocations(signatures, maps).insert(
                signature,
                common_addresses(maps, signature),
            )
        } else {
            common_allocations(signatures, maps)
        },
{
    let before = common_allocations(signatures, maps);
    let after = common_allocations(signatures.insert(signature), maps);
    if has_common(maps, signature) {
        assert(after =~= before.insert(signature, common_addresses(maps, signature)));
    } else {
        assert(after =~= before);
    }
}

/// No signature of the common allocations has an empty address set, and
/// each has the addresses that every snapshot holds under it.
pub proof fn lemma_common_allocations_not_empty(
    signatures: Set<Seq<u8>>,
    maps: Seq<Map<Seq<u8>, Set<i64>>>,
    signature: Seq<u8>,
)
    requires
        common_allocations(signatures, maps).contains_key(signature),
    ensures
        !common_allocations(signatures, maps)[signature].is_empty(),
        present_in_all(maps, signature),
        forall|i: int, a: i64|
            0 <= i < maps.len() && common_allocations(signatures, maps)[signature].contains(a)
                ==> #[trigger] maps[i][signature].contains(a),
{
    let a = choose|a: i64| common_addresses(maps, signature).contains(a);
    assert(common_allocations(signatures, maps)[signature].contains(a));
}

/// A signature that one of the snapshots does not have is not among the
/// common allocations.
pub proof fn lemma_missing_is_omitted(
    signatures: Set<Seq<u8>>,
    maps: Seq<Map<Seq<u8>, Set<i64>>>,
    signature: Seq<u8>,
    i: int,
)
    requires
        0 <= i < maps.len(),
        !maps[i].contains_key(signature),
    ensures
        !common_allocations(signatures, maps).contains_key(signature),
{
}

/// A signature whose address sets in two snapshots share nothing is not
/// among the common allocations of the two.
pub proof fn lemma_disjoint_is_omitted(
    signatures: Set<Seq<u8>>,
    first: Map<Seq<u8>, Set<i64>>,
    second: Map<Seq<u8>, Set<i64>>,
    signature: Seq<u8>,
)
    requires
        first[signature].disjoint(second[signature]),
    ensures
        !common_allocations(signatures, seq![first, second]).contains_key(signature),
{
    let maps = seq![first, second];
    assert forall|a: i64| !common_addresses(maps, signature).contains(a) by {
        if common_addresses(maps, signature).contains(a) {
            assert(maps[0][signature].contains(a));
            assert(maps[1][signature].contains(a));
        }
    }
}

/// The addresses that all the snapshots hold under `signature`, if it occurs
/// in each of them and they share at least one.
pub fn common_addresses_of(signature: &[u8], backtrace_maps: &[&AllocationMap]) -> (r: Option<
    HashSet<i64>,
>)
    requires
        backtrace_maps@.len() >= 1,
    ensures
        match r {
            Some(set) => has_common(ref_views(backtrace_maps@), signature@) && set@
                == common_addresses(ref_views(backtrace_maps@), signature@) && set@.finite()
                && set@.len() > 0,
            None => !has_common(ref_views(backtrace_maps@), signature@),
        },
{
    let ghost views = ref_views(backtrace_maps@);
    let mut i: usize = 0;
    while i < backtrace_maps.len()
        invariant
            i <= backtrace_maps@.len(),
            views == ref_views(backtrace_maps@),
            forall|j: int| 0 <= j < i ==> (#[trigger] views[j]).contains_key(signature@),
        decreases backtrace_maps@.len() - i,
    {
        if !backtrace_maps[i].contains_key(signature) {
            assert(!views[i as int].contains_key(signature@));
            return None;
        }
        i += 1;
    }
    let first = match backtrace_maps[0].get(signature) {
        Some(set) => set,
        None => {
            assert(views[0].contains_key(signature@));
            return None;
        },
    };
    let mut current: HashSet<i64> = if backtrace_maps.len() == 1 {
        copy_set(first)
    } else {
        match backtrace_maps[1].get(signature) {
            Some(second) => intersect(first, second),
            None => {
                assert(views[1].contains_key(signature@));
                return None;
            },
        }
    };
    let mut n: usize = if backtrace_maps.len() == 1 {
        1
    } else {
        2
    };
    proof {
        let empty = Seq::<Map<Seq<u8>, Set<i64>>>::empty();
        let one = empty.push(views[0]);
        assert forall|a: i64|
            common_addresses(one, signature@).contains(a) <==> views[0][signature@].contains(
                a,
            ) by {
            if common_addresses(one, signature@).contains(a) {
                assert(one[0][signature@].contains(a));
            }
            if views[0][signature@].contains(a) {
                assert forall|i: int| 0 <= i < one.len() implies (#[trigger] one[i])[signature@].contains(
                    a,
                ) by {}
            }
        }
        assert(common_addresses(one, signature@) =~= views[0][signature@]);
        assert(views.take(1) =~= empty.push(views[0]));
        if n == 2 {
            lemma_common_addresses_push(views.take(1), views[1], signature@);
            assert(views.take(2) =~= views.take(1).push(views[1]));
        }
    }
    while n < backtrace_maps.len() && !current.is_empty()
        invariant
            1 <= n <= backtrace_maps@.len(),
            views == ref_views(backtrace_maps@),
            present_in_all(views, signature@),
            current@ == common_addresses(views.take(n as int), signature@),
            current@.finite(),
        decreases backtrace_maps@.len() - n,
    {
        match backtrace_maps[n].get(signature) {
            Some(next) => {
                proof {
                    lemma_common_addresses_push(views.take(n as int), views[n as int], signature@);
                    assert(views.take(n + 1) =~= views.take(n as int).push(views[n as int]));
                }
                current = intersect(&current, next);
            },
            None => {
                assert(views[n as int].contains_key(signature@));
                return None;
            },
        }
        n += 1;
    }
    proof {
        lemma_common_addresses_prefix(views, n as int, signature@);
        if n == backtrace_maps@.len() {
            assert(views.take(n as int) =~= views);
        }
    }
    if current.is_empty() {
        assert forall|a: i64| !common_addresses(views, signature@).contains(a) by {
            if common_addresses(views, signature@).contains(a) {
                assert(current@.contains(a));
            }
        }
        None
    } else {
        proof {
            let a = choose|a: i64| current@.contains(a);
            assert(current@.contains(a));
            if current@.len() == 0 {
                current@.lemma_len0_is_empty();
            }
        }
        Some(current)
    }
}

/// The allocations that all the snapshots share: for each of the given
/// signatures that occurs in every snapshot, the addresses that every
/// snapshot holds under it. A signature with no such address is left out.
pub fn find_common_allocations(
    all_backtraces: &[Vec<u8>],
    backtrace_maps: &[&AllocationMap],
) -> (r: AllocationMap)
    requires
        backtrace_maps@.len() >= 1,
    ensures
        r@ == common_allocations(
            byte_views(all_backtraces@).to_set(),
            ref_views(backtrace_maps@),
        ),
        forall|k: Seq<u8>| r@.contains_key(k) ==> (#[trigger] r@[k]).finite() && r@[k].len() > 0,
        r.well_formed(),
{
    let mut common = AllocationMap::new();
    let ghost views = ref_views(backtrace_maps@);
    let ghost keys = byte_views(all_backtraces@);
    let mut i: usize = 0;
    proof {
        assert(keys.take(0).to_set() =~= Set::<Seq<u8>>::empty());
        assert(common@ =~= common_allocations(Set::<Seq<u8>>::empty(), views));
    }
    while i < all_backtraces.len()
        invariant
            i <= all_backtraces@.len(),
            backtrace_maps@.len() >= 1,
            views == ref_views(backtrace_maps@),
            keys == byte_views(all_backtraces@),
            common@ == common_allocations(keys.take(i as int).to_set(), views),
            common.well_formed(),
        decreases all_backtraces@.len() - i,
    {
        let signature = all_backtraces[i].as_slice();
        proof {
            assert(keys[i as int] == signature@);
            assert(keys.take(i + 1) =~= keys.take(i as int).push(signature@));
            keys.take(i as int).lemma_push_to_set_commute(signature@);
            lemma_common_allocations_insert(keys.take(i as int).to_set(), views, signature@);
        }
        match common_addresses_of(signature, backtrace_maps) {
            Some(set) => {
                common.put(signature, set);
            },
            None => {},
        }
        i += 1;
    }
    proof {
        assert(keys.take(i as int) =~= keys);
        assert forall|k: Seq<u8>| common@.contains_key(k) implies (#[trigger] common@[k]).finite()
            && common@[k].len() > 0 by {
            let j = common.keys().index_of(k);
            assert(common.keys().to_set().contains(k));
            assert(0 <= j < common.keys().len() && common.keys()[j] == k);
            assert(common@[common.keys()[j]] == common.sets()[j]);
        }
    }
    common
}

/// What an earlier snapshot and the latest one share, for each earlier
/// snapshot in turn: one comparison less than there are snapshots.
pub fn pairwise_diffs(all_backtraces: &[Vec<u8>], backtrace_maps: &[AllocationMap]) -> (r: Vec<
    AllocationMap,
>)
    ensures
        r@.len() == if backtrace_maps@.len() == 0 {
            0
        } else {
            backtrace_maps@.len() - 1
        },
        forall|i: int|
            0 <= i < r@.len() ==> (#[trigger] r@[i])@ == common_allocations(
                byte_views(all_backtraces@).to_set(),
                seq![backtrace_maps@[i]@, backtrace_maps@.last()@],
            ) && r@[i].well_formed(),
{
    let mut diffs: Vec<AllocationMap> = Vec::new();
    if backtrace_maps.len() == 0 {
        return diffs;
    }
    let last: usize = backtrace_maps.len() - 1;
    let latest = &backtrace_maps[last];
    let mut i: usize = 0;
    while i < last
        invariant
            i <= last,
            last == backtrace_maps@.len() - 1,
            *latest == backtrace_maps@.last(),
            diffs@.len() == i,
            forall|j: int|
                0 <= j < i ==> (#[trigger] diffs@[j])@ == common_allocations(
                    byte_views(all_backtraces@).to_set(),
                    seq![backtrace_maps@[j]@, backtrace_maps@.last()@],
                ) && diffs@[j].well_formed(),
        decreases last - i,
    {
        let pair: [&AllocationMap; 2] = [&backtrace_maps[i], latest];
        assert(ref_views(pair@) =~= seq![backtrace_maps@[i as int]@, backtrace_maps@.last()@]);
        let diff = find_common_allocations(all_backtraces, pair.as_slice());
        diffs.push(diff);
        i += 1;
    }
    diffs
}

} // verus!
