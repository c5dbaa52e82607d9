//! The allocations of a snapshot: a map from signatures to address sets.

use crate::signatures::{copy_bytes, SignatureSet};
use std::collections::HashSet;
use vstd::prelude::*;

verus! {

broadcast use vstd::std_specs::hash::group_hash_axioms;

/// The map that a list of distinct signatures and the list of their address
/// sets stand for.
pub open spec fn map_of(keys: Seq<Seq<u8>>, sets: Seq<Set<i64>>) -> Map<Seq<u8>, Set<i64>> {
    Map::new(|k: Seq<u8>| keys.contains(k), |k: Seq<u8>| sets[keys.index_of(k)])
}

/// With distinct keys, `map_of` maps the key at each position to the set at
/// that position, and has exactly the listed keys.
pub proof fn lemma_map_of(keys: Seq<Seq<u8>>, sets: Seq<Set<i64>>)
    requires
        keys.no_duplicates(),
        keys.len() == sets.len(),
    ensures
        map_of(keys, sets).dom() == keys.to_set(),
        map_of(keys, sets).dom().finite(),
        forall|i: int|
            0 <= i < keys.len() ==> map_of(keys, sets).contains_key(#[trigger] keys[i])
                && map_of(keys, sets)[keys[i]] == sets[i],
{
    assert(map_of(keys, sets).dom() =~= keys.to_set());
    vstd::seq_lib::seq_to_set_is_finite(keys);
    assert forall|i: int| 0 <= i < keys.len() implies map_of(keys, sets).contains_key(
        #[trigger] keys[i],
    ) && map_of(keys, sets)[keys[i]] == sets[i] by {
        let j = keys.index_of(keys[i]);
        assert(0 <= j < keys.len() && keys[j] == keys[i]);
    }
}

/// A new set at one position changes the map at that position's key.
pub proof fn lemma_map_of_update(keys: Seq<Seq<u8>>, sets: Seq<Set<i64>>, i: int, set: Set<i64>)
    requires
        keys.no_duplicates(),
        keys.len() == sets.len(),
        0 <= i < keys.len(),
    ensures
        map_of(keys, sets.update(i, set)) == map_of(keys, sets).insert(keys[i], set),
{
    let before = map_of(keys, sets);
    let after = map_of(keys, sets.update(i, set));
    let target = before.insert(keys[i], set);
    lemma_map_of(keys, sets);
    lemma_map_of(keys, sets.update(i, set));
    assert(after.dom() =~= target.dom());
    assert forall|k: Seq<u8>| after.contains_key(k) implies #[trigger] after[k] == target[k] by {
        let a = keys.index_of(k);
        assert(0 <= a < keys.len() && keys[a] == k);
        assert(after[keys[a]] == sets.update(i, set)[a]);
        assert(before[keys[a]] == sets[a]);
    }
    assert(after =~= target);
}

/// A new key with its set at the end adds that key to the map.
pub proof fn lemma_map_of_push(keys: Seq<Seq<u8>>, sets: Seq<Set<i64>>, key: Seq<u8>, set: Set<i64>)
    requires
        keys.no_duplicates(),
        keys.len() == sets.len(),
        !keys.contains(key),
    ensures
        keys.push(key).no_duplicates(),
        !map_of(keys, sets).contains_key(key),
        map_of(keys.push(key), sets.push(set)) == map_of(keys, sets).insert(key, set),
{
    let n = keys.len() as int;
    let keys1 = keys.push(key);
    let sets1 = sets.push(set);
    assert forall|i: int, j: int|
        0 <= i < keys1.len() && 0 <= j < keys1.len() && i != j implies keys1[i] != keys1[j] by {
        if i < n && j < n {
            assert(keys[i] != keys[j]);
        } else if i < n {
            assert(keys[i] != key);
        } else {
            assert(keys[j] != key);
        }
    }
    lemma_map_of(keys, sets);
    lemma_map_of(keys1, sets1);
    let before = map_of(keys, sets);
    let after = map_of(keys1, sets1);
    let target = before.insert(key, set);
    assert forall|k: Seq<u8>| after.dom().contains(k) <==> target.dom().contains(k) by {
        if after.dom().contains(k) {
            let a = keys1.index_of(k);
            assert(0 <= a < keys1.len() && keys1[a] == k);
            if a < n {
                assert(keys[a] == k);
            }
        }
        if target.dom().contains(k) {
            if k == key {
                assert(keys1[n] == k);
            } else {
                let a = keys.index_of(k);
                assert(0 <= a < n && keys[a] == k);
                assert(keys1[a] == k);
            }
        }
    }
    assert(after.dom() =~= target.dom());
    assert forall|k: Seq<u8>| after.contains_key(k) implies #[trigger] after[k] == target[k] by {
        let a = keys1.index_of(k);
        assert(0 <= a < keys1.len() && keys1[a] == k);
        assert(after[keys1[a]] == sets1[a]);
        if a < n {
            assert(keys[a] == k);
            assert(before[keys[a]] == sets[a]);
        }
    }
    assert(after =~= target);
}

/// The contents of a list of address sets.
pub open spec fn set_views(sets: Seq<HashSet<i64>>) -> Seq<Set<i64>> {
    Seq::new(sets.len(), |i: int| sets[i]@)
}

/// The allocations of one heap snapshot, grouped by backtrace signature.
///
/// Signatures are kept in the order in which they were first inserted. No
/// signature occurs twice, and no signature has an empty address set.
pub struct AllocationMap {
    table: SignatureSet,
    sets: Vec<HashSet<i64>>,
}

impl View for AllocationMap {
    type V = Map<Seq<u8>, Set<i64>>;

    /// The addresses recorded under each signature.
    open spec fn view(&self) -> Map<Seq<u8>, Set<i64>> {
        map_of(self.keys(), self.sets())
    }
}

impl AllocationMap {
    #[verifier::type_invariant]
    spec fn inv(self) -> bool {
        &&& self.table.keys().len() == self.sets@.len()
        &&& self.table.keys().no_duplicates()
        &&& forall|i: int|
            0 <= i < self.sets@.len() ==> (#[trigger] self.sets@[i])@.finite() && self.sets@[i]@.len()
                > 0
    }

    /// The signatures of the map, in the order of their first insertion.
    pub closed spec fn keys(&self) -> Seq<Seq<u8>> {
        self.table.keys()
    }

    /// The address sets of the map, in the order of `keys`.
    pub closed spec fn sets(&self) -> Seq<Set<i64>> {
        set_views(self.sets@)
    }

    /// What holds of every map: the signatures are distinct, and each has a
    /// finite address set that is not empty.
    pub open spec fn well_formed(&self) -> bool {
        &&& self.keys().len() == self.sets().len()
        &&& self.keys().no_duplicates()
        &&& forall|i: int|
            0 <= i < self.sets().len() ==> (#[trigger] self.sets()[i]).finite() && self.sets()[i].len()
                > 0
        &&& self@.dom().finite()
        &&& self@.dom() == self.keys().to_set()
        &&& forall|i: int|
            0 <= i < self.keys().len() ==> self@.contains_key(#[trigger] self.keys()[i])
                && self@[self.keys()[i]] == self.sets()[i]
    }

    /// An empty map.
    pub fn new() -> (r: Self)
        ensures
            r.keys() == Seq::<Seq<u8>>::empty(),
            r.sets() == Seq::<Set<i64>>::empty(),
            r@ == Map::<Seq<u8>, Set<i64>>::empty(),
            r.well_formed(),
    {
        let r = AllocationMap { table: SignatureSet::new(), sets: Vec::new() };
        proof {
            assert(r.sets() =~= Seq::<Set<i64>>::empty());
            assert(r@ =~= Map::<Seq<u8>, Set<i64>>::empty());
            lemma_map_of(r.keys(), r.sets());
        }
        r
    }

    /// The number of signatures.
    pub fn len(&self) -> (r: usize)
        ensures
            r == self.keys().len(),
            r == self@.dom().len(),
            self.well_formed(),
    {
        proof {
            use_type_invariant(self);
        }
        let n = self.table.len();
        proof {
            lemma_map_of(self.keys(), self.sets());
            self.keys().unique_seq_to_set();
        }
        n
    }

    /// The signature at position `i` in the order of first insertion.
    pub fn signature_at(&self, i: usize) -> (r: &Vec<u8>)
        requires
            i < self.keys().len(),
        ensures
            r@ == self.keys()[i as int],
            self@.contains_key(r@),
            self.well_formed(),
    {
        proof {
            use_type_invariant(self);
        }
        let r = self.table.signature_at(i);
        proof {
            lemma_map_of(self.keys(), self.sets());
            assert(self@.contains_key(self.keys()[i as int]));
        }
        r
    }

    /// The addresses recorded under the signature at position `i`.
    pub fn addresses_at(&self, i: usize) -> (r: &HashSet<i64>)
        requires
            i < self.keys().len(),
        ensures
            r@ == self.sets()[i as int],
            r@ == self@[self.keys()[i as int]],
            r@.finite(),
            r@.len() > 0,
            self.well_formed(),
    {
        proof {
            use_type_invariant(self);
            lemma_map_of(self.keys(), self.sets());
        }
        &self.sets[i]
    }

    /// The position of `signature` in the order of first insertion.
    pub fn position(&self, signature: &[u8]) -> (r: Option<usize>)
        ensures
            match r {
                Some(i) => i < self.keys().len() && self.keys()[i as int] == signature@,
                None => !self.keys().contains(signature@),
            },
            r.is_some() == self@.contains_key(signature@),
            self.well_formed(),
    {
        proof {
            use_type_invariant(self);
        }
        let r = self.table.position(signature);
        proof {
            lemma_map_of(self.keys(), self.sets());
        }
        r
    }

    /// Whether any address is recorded under `signature`.
    pub fn contains_key(&self, signature: &[u8]) -> (r: bool)
        ensures
            r == self@.contains_key(signature@),
    {
        self.position(signature).is_some()
    }

    /// The addresses recorded under `signature`.
    pub fn get(&self, signature: &[u8]) -> (r: Option<&HashSet<i64>>)
        ensures
            match r {
                Some(set) => self@.contains_key(signature@) && set@ == self@[signature@]
                    && set@.finite() && set@.len() > 0,
                None => !self@.contains_key(signature@),
            },
    {
        match self.position(signature) {
            Some(i) => Some(self.addresses_at(i)),
            None => None,
        }
    }

    /// How many addresses are recorded under `signature`.
    pub fn count(&self, signature: &[u8]) -> (r: Option<usize>)
        ensures
            match r {
                Some(n) => self@.contains_key(signature@) && n == self@[signature@].len() && n > 0,
                None => !self@.contains_key(signature@),
            },
    {
        match self.get(signature) {
            Some(set) => Some(set.len()),
            None => None,
        }
    }

    /// The signatures of the map, in the order of their first insertion.
    pub fn signatures(&self) -> (r: Vec<Vec<u8>>)
        ensures
            r@.len() == self.keys().len(),
            forall|i: int| 0 <= i < r@.len() ==> (#[trigger] r@[i])@ == self.keys()[i],
            self.well_formed(),
    {
        let count = self.len();
        let mut list: Vec<Vec<u8>> = Vec::new();
        let mut i: usize = 0;
        while i < count
            invariant
                i <= count,
                count == self.keys().len(),
                list@.len() == i,
                forall|j: int| 0 <= j < i ==> (#[trigger] list@[j])@ == self.keys()[j],
            decreases count - i,
        {
            list.push(copy_bytes(self.signature_at(i).as_slice()));
            i += 1;
        }
        list
    }

    /// Records `address` under `signature`. A signature that the map has not
    /// seen yet goes to the end of the order.
    pub fn insert(&mut self, signature: &[u8], address: i64)
        ensures
            final(self)@ == old(self)@.insert(
                signature@,
                (if old(self)@.contains_key(signature@) {
                    old(self)@[signature@]
                } else {
                    Set::<i64>::empty()
                }).insert(address),
            ),
            final(self).keys() == if old(self)@.contains_key(signature@) {
                old(self).keys()
            } else {
                old(self).keys().push(signature@)
            },
            final(self).well_formed(),
    {
        let mut taken = AllocationMap::new();
        std::mem::swap(self, &mut taken);
        proof {
            use_type_invariant(&taken);
        }
        let AllocationMap { table, sets } = taken;
        let mut table = table;
        let mut sets = sets;
        let ghost keys0 = table.keys();
        let ghost sets0 = set_views(sets@);
        let (p, fresh) = table.insert(signature);
        proof {
            lemma_map_of(keys0, sets0);
        }
        if fresh {
            let mut set: HashSet<i64> = HashSet::new();
            set.insert(address);
            sets.push(set);
            proof {
                let added = Set::<i64>::empty().insert(address);
                vstd::set::axiom_set_insert_finite(Set::<i64>::empty(), address);
                vstd::set::axiom_set_insert_len(Set::<i64>::empty(), address);
                assert(set_views(sets@) =~= sets0.push(added));
                lemma_map_of_push(keys0, sets0, signature@, added);
            }
        } else {
            sets[p].insert(address);
            proof {
                let grown = sets0[p as int].insert(address);
                vstd::set::axiom_set_insert_finite(sets0[p as int], address);
                vstd::set::axiom_set_insert_len(sets0[p as int], address);
                assert(set_views(sets@) =~= sets0.update(p as int, grown));
                lemma_map_of_update(keys0, sets0, p as int, grown);
                assert(keys0.contains(signature@));
                assert(map_of(keys0, sets0)[keys0[p as int]] == sets0[p as int]);
            }
        }
        *self = AllocationMap { table, sets };
        proof {
            lemma_map_of(self.keys(), self.sets());
        }
    }

    /// Records the whole address set of `signature`, in place of what the map
    /// held under it. A signature that the map has not seen yet goes to the
    /// end of the order.
    pub(crate) fn put(&mut self, signature: &[u8], addresses: HashSet<i64>)
        requires
            addresses@.finite(),
            addresses@.len() > 0,
        ensures
            final(self)@ == old(self)@.insert(signature@, addresses@),
            final(self).keys() == if old(self)@.contains_key(signature@) {
                old(self).keys()
            } else {
                old(self).keys().push(signature@)
            },
            final(self).well_formed(),
    {
        let mut taken = AllocationMap::new();
        std::mem::swap(self, &mut taken);
        proof {
            use_type_invariant(&taken);
        }
        let AllocationMap { table, sets } = taken;
        let mut table = table;
        let mut sets = sets;
        let ghost keys0 = table.keys();
        let ghost sets0 = set_views(sets@);
        let ghost added = addresses@;
        let (p, fresh) = table.insert(signature);
        proof {
            lemma_map_of(keys0, sets0);
        }
        if fresh {
            sets.push(addresses);
            proof {
                assert(set_views(sets@) =~= sets0.push(added));
                lemma_map_of_push(keys0, sets0, signature@, added);
            }
        } else {
            sets[p] = addresses;
            proof {
                assert(set_views(sets@) =~= sets0.update(p as int, added));
                lemma_map_of_update(keys0, sets0, p as int, added);
                assert(keys0.contains(signature@));
            }
        }
        *self = AllocationMap { table, sets };
        proof {
            lemma_map_of(self.keys(), self.sets());
        }
    }
}

} // verus!
