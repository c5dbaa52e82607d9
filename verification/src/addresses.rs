//! Address lists: the addresses of a set in ascending order.

use std::collections::HashSet;
use vstd::prelude::*;

verus! {

broadcast use vstd::std_specs::hash::group_hash_axioms;

/// Each address is smaller than all that follow it.
pub open spec fn is_ascending(s: Seq<i64>) -> bool {
    forall|i: int, j: int| 0 <= i < j < s.len() ==> s[i] < s[j]
}

/// No address is larger than any that follows it.
pub open spec fn is_ordered(s: Seq<i64>) -> bool {
    forall|i: int, j: int| 0 <= i < j < s.len() ==> s[i] <= s[j]
}

/// The addresses of a finite set, smallest first.
pub open spec fn ascending(set: Set<i64>) -> Seq<i64> {
    choose|s: Seq<i64>| is_ascending(s) && s.to_set() == set
}

/// Two ascending lists of the same addresses are the same list.
pub proof fn lemma_ascending_unique(a: Seq<i64>, b: Seq<i64>)
    requires
        is_ascending(a),
        is_ascending(b),
        a.to_set() == b.to_set(),
    ensures
        a == b,
    decreases a.len(),
{
    if a.len() == 0 || b.len() == 0 {
        if a.len() > 0 {
            assert(a.to_set().contains(a[0]));
            assert(b.contains(a[0]));
        }
        if b.len() > 0 {
            assert(b.to_set().contains(b[0]));
            assert(a.contains(b[0]));
        }
        assert(a =~= b);
    } else {
        let x = a.last();
        let y = b.last();
        assert(a.to_set().contains(x)) by {
            assert(a[a.len() - 1] == x);
        }
        assert(b.to_set().contains(y)) by {
            assert(b[b.len() - 1] == y);
        }
        let i = choose|i: int| 0 <= i < b.len() && b[i] == x;
        assert(0 <= i < b.len() && b[i] == x);
        let j = choose|j: int| 0 <= j < a.len() && a[j] == y;
        assert(0 <= j < a.len() && a[j] == y);
        assert(x == y);
        let a1 = a.drop_last();
        let b1 = b.drop_last();
        assert forall|v: i64| a1.to_set().contains(v) <==> b1.to_set().contains(v) by {
            if a1.contains(v) {
                let k = choose|k: int| 0 <= k < a1.len() && a1[k] == v;
                assert(a[k] == v);
                assert(a.to_set().contains(v));
                let m = choose|m: int| 0 <= m < b.len() && b[m] == v;
                assert(0 <= m < b.len() && b[m] == v);
                assert(b1[m] == v);
            }
            if b1.contains(v) {
                let k = choose|k: int| 0 <= k < b1.len() && b1[k] == v;
                assert(b[k] == v);
                assert(b.to_set().contains(v));
                let m = choose|m: int| 0 <= m < a.len() && a[m] == v;
                assert(0 <= m < a.len() && a[m] == v);
                assert(a1[m] == v);
            }
        }
        assert(a1.to_set() =~= b1.to_set());
        lemma_ascending_unique(a1, b1);
        assert(a =~= a1.push(x));
        assert(b =~= b1.push(y));
    }
}

/// An ascending list is the ascending list of its addresses.
pub proof fn lemma_ascending(s: Seq<i64>)
    requires
        is_ascending(s),
    ensures
        ascending(s.to_set()) == s,
{
    let c = ascending(s.to_set());
    assert(is_ascending(c) && c.to_set() == s.to_set());
    lemma_ascending_unique(c, s);
}

/// Merges two ordered lists into one.
fn merge_addresses(a: &Vec<i64>, b: &Vec<i64>) -> (r: Vec<i64>)
    requires
        is_ordered(a@),
        is_ordered(b@),
    ensures
        is_ordered(r@),
        r@.to_multiset() == a@.to_multiset().add(b@.to_multiset()),
{
    let mut out: Vec<i64> = Vec::new();
    let mut i: usize = 0;
    let mut j: usize = 0;
    proof {
        broadcast use vstd::multiset::group_multiset_axioms;

        assert(a@.take(0) =~= Seq::<i64>::empty());
        assert(b@.take(0) =~= Seq::<i64>::empty());
        out@.to_multiset_ensures();
        assert(out@.to_multiset() =~= a@.take(0).to_multiset().add(b@.take(0).to_multiset()));
    }
    while i < a.len() || j < b.len()
        invariant
            i <= a@.len(),
            j <= b@.len(),
            is_ordered(a@),
            is_ordered(b@),
            is_ordered(out@),
            out@.to_multiset() == a@.take(i as int).to_multiset().add(b@.take(j as int).to_multiset()),
            forall|k: int| 0 <= k < out@.len() && i < a@.len() ==> out@[k] <= a@[i as int],
            forall|k: int| 0 <= k < out@.len() && j < b@.len() ==> out@[k] <= b@[j as int],
        decreases a@.len() - i + b@.len() - j,
    {
        let ghost before = out@;
        let from_a: bool = if j == b.len() {
            true
        } else if i == a.len() {
            false
        } else {
            a[i] <= b[j]
        };
        if from_a {
            out.push(a[i]);
            proof {
                broadcast use vstd::multiset::group_multiset_axioms;

                assert(a@.take(i + 1) =~= a@.take(i as int).push(a@[i as int]));
                vstd::seq_lib::to_multiset_build(a@.take(i as int), a@[i as int]);
                vstd::seq_lib::to_multiset_build(before, a@[i as int]);
                assert(out@.to_multiset() =~= a@.take(i + 1).to_multiset().add(
                    b@.take(j as int).to_multiset(),
                ));
            }
            i += 1;
        } else {
            out.push(b[j]);
            proof {
                broadcast use vstd::multiset::group_multiset_axioms;

                assert(b@.take(j + 1) =~= b@.take(j as int).push(b@[j as int]));
                vstd::seq_lib::to_multiset_build(b@.take(j as int), b@[j as int]);
                vstd::seq_lib::to_multiset_build(before, b@[j as int]);
                assert(out@.to_multiset() =~= a@.take(i as int).to_multiset().add(
                    b@.take(j + 1).to_multiset(),
                ));
            }
            j += 1;
        }
    }
    proof {
        assert(a@.take(i as int) =~= a@);
        assert(b@.take(j as int) =~= b@);
    }
    out
}

/// Sorts a list of addresses, smallest first.
pub fn sort_addresses(list: Vec<i64>) -> (r: Vec<i64>)
    ensures
        is_ordered(r@),
        r@.to_multiset() == list@.to_multiset(),
    decreases list@.len(),
{
    if list.len() <= 1 {
        return list;
    }
    let mut left = list;
    let mid: usize = left.len() / 2;
    let right = left.split_off(mid);
    proof {
        assert(list@ =~= left@ + right@);
        vstd::seq_lib::lemma_multiset_commutative(left@, right@);
    }
    let left = sort_addresses(left);
    let right = sort_addresses(right);
    merge_addresses(&left, &right)
}

/// The addresses of a set, each once, smallest first.
pub fn address_list(set: &HashSet<i64>) -> (r: Vec<i64>)
    ensures
        is_ascending(r@),
        r@.to_set() == set@,
        r@ == ascending(set@),
{
    let mut list: Vec<i64> = Vec::new();
    for x in it: set.iter()
        invariant
            it.seq().unref().to_set() == set@,
            it.seq().no_duplicates(),
            list@ == it.seq().unref().take(it.index()),
            it.index() == it.seq().len() ==> list@ == it.seq().unref(),
    {
        assert(it.seq().unref().take(it.index() + 1) =~= it.seq().unref().take(it.index()).push(
            *x,
        ));
        assert(it.index() + 1 == it.seq().len() ==> it.seq().unref().take(it.index() + 1)
            =~= it.seq().unref());
        list.push(*x);
    }
    proof {
        assert forall|i: int, j: int|
            0 <= i < list@.len() && 0 <= j < list@.len() && i != j implies list@[i] != list@[j] by {
            let refs = choose|refs: Seq<&i64>| refs.no_duplicates() && list@ == refs.unref();
            assert(refs[i] != refs[j]);
        }
    }
    let ghost unsorted = list@;
    let sorted = sort_addresses(list);
    proof {
        unsorted.lemma_multiset_has_no_duplicates();
        sorted@.lemma_multiset_has_no_duplicates_conv();
        assert forall|v: i64| sorted@.to_set().contains(v) <==> unsorted.to_set().contains(v) by {
            vstd::seq_lib::to_multiset_contains(sorted@, v);
            vstd::seq_lib::to_multiset_contains(unsorted, v);
        }
        assert(sorted@.to_set() =~= set@);
        lemma_ascending(sorted@);
    }
    sorted
}

} // verus!
