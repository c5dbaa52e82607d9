//! The order in which a report lists signatures, and the sort that
//! establishes it.

use crate::text::{lemma_lex_le_total, lemma_lex_le_transitive, lex_le, lex_le_bytes};
use vstd::prelude::*;

verus! {

/// A signature with its count in the comparison that a report is ordered by,
/// `None` where that comparison does not have it.
#[derive(Clone, Debug, PartialEq, Eq)]
pub struct Ranked {
    pub count: Option<usize>,
    pub signature: Vec<u8>,
}

/// Whether `a` may stand before `b` in a report: signatures with a count come
/// first, the larger count first; those without one follow, in descending
/// order of their text.
pub open spec fn stands_before(a: Ranked, b: Ranked) -> bool {
    match (a.count, b.count) {
        (Some(x), Some(y)) => x >= y,
        (Some(_), None) => true,
        (None, Some(_)) => false,
        (None, None) => lex_le(b.signature@, a.signature@),
    }
}

/// Every item may stand before all that follow it.
pub open spec fn sorted(s: Seq<Ranked>) -> bool {
    forall|i: int, j: int| 0 <= i < j < s.len() ==> stands_before(#[trigger] s[i], #[trigger] s[j])
}

/// Of two items one may stand before the other.
pub proof fn lemma_stands_before_total(a: Ranked, b: Ranked)
    ensures
        stands_before(a, b) || stands_before(b, a),
{
    lemma_lex_le_total(a.signature@, b.signature@);
}

/// The order of a report is transitive.
pub proof fn lemma_stands_before_transitive(a: Ranked, b: Ranked, c: Ranked)
    requires
        stands_before(a, b),
        stands_before(b, c),
    ensures
        stands_before(a, c),
{
    if a.count is None && b.count is None && c.count is None {
        lemma_lex_le_transitive(c.signature@, b.signature@, a.signature@);
    }
}

/// Whether `a` may stand before `b` in a report.
pub fn may_precede(a: &Ranked, b: &Ranked) -> (r: bool)
    ensures
        r == stands_before(*a, *b),
{
    match a.count {
        Some(x) => match b.count {
            Some(y) => x >= y,
            None => true,
        },
        None => match b.count {
            Some(_) => false,
            None => lex_le_bytes(b.signature.as_slice(), a.signature.as_slice()),
        },
    }
}

/// Every item of `low` may stand before every item of `high`.
spec fn all_before(low: Seq<Ranked>, high: Seq<Ranked>) -> bool {
    forall|i: int, j: int|
        0 <= i < low.len() && 0 <= j < high.len() ==> stands_before(
            #[trigger] low[i],
            #[trigger] high[j],
        )
}

/// Moves the last item of `from` to the end of `to`.
fn move_last(from: &mut Vec<Ranked>, to: &mut Vec<Ranked>)
    requires
        old(from)@.len() > 0,
    ensures
        final(from)@ == old(from)@.drop_last(),
        final(to)@ == old(to)@.push(old(from)@.last()),
{
    match from.pop() {
        Some(item) => {
            to.push(item);
        },
        None => {},
    }
}

/// The items of `v` in the opposite order.
fn reversed(v: Vec<Ranked>) -> (r: Vec<Ranked>)
    ensures
        r@ == v@.reverse(),
{
    let mut rest = v;
    let mut r: Vec<Ranked> = Vec::new();
    while rest.len() > 0
        invariant
            rest@.len() <= v@.len(),
            rest@ == v@.take(rest@.len() as int),
            r@ == v@.reverse().take(v@.len() - rest@.len()),
        decreases rest@.len(),
    {
        proof {
            let n = rest@.len() as int;
            let done = v@.len() - n;
            assert(rest@.drop_last() =~= v@.take(n - 1));
            assert(v@.reverse()[done] == rest@.last());
            assert(v@.reverse().take(done + 1) =~= v@.reverse().take(done).push(rest@.last()));
        }
        move_last(&mut rest, &mut r);
    }
    assert(v@.reverse().take(v@.len() as int) =~= v@.reverse());
    r
}

/// Merges two sorted lists into one.
fn merge(left: Vec<Ranked>, right: Vec<Ranked>) -> (r: Vec<Ranked>)
    requires
        sorted(left@),
        sorted(right@),
    ensures
        sorted(r@),
        r@.to_multiset() == left@.to_multiset().add(right@.to_multiset()),
{
    let mut a = left;
    let mut b = right;
    let mut high: Vec<Ranked> = Vec::new();
    let ghost total = left@.to_multiset().add(right@.to_multiset());
    proof {
        assert(high@.to_multiset() =~= vstd::multiset::Multiset::<Ranked>::empty()) by {
            high@.to_multiset_ensures();
        }
        assert(a@.to_multiset().add(b@.to_multiset()).add(high@.to_multiset()) =~= total);
    }
    while a.len() > 0 || b.len() > 0
        invariant
            sorted(a@),
            sorted(b@),
            sorted(high@.reverse()),
            all_before(a@, high@),
            all_before(b@, high@),
            a@.to_multiset().add(b@.to_multiset()).add(high@.to_multiset()) == total,
        decreases a@.len() + b@.len(),
    {
        let from_b: bool = if a.len() == 0 {
            true
        } else if b.len() == 0 {
            false
        } else {
            may_precede(&a[a.len() - 1], &b[b.len() - 1])
        };
        let ghost a0 = a@;
        let ghost b0 = b@;
        let ghost high0 = high@;
        if from_b {
            move_last(&mut b, &mut high);
        } else {
            move_last(&mut a, &mut high);
        }
        proof {
            let item = high@.last();
            if from_b {
                lemma_step(b0, a0, high0);
                lemma_moved(b0, a0, high0);
            } else {
                if b0.len() > 0 {
                    lemma_stands_before_total(a0.last(), b0.last());
                }
                lemma_step(a0, b0, high0);
                lemma_moved(a0, b0, high0);
            }
        }
    }
    let r = reversed(high);
    proof {
        high@.lemma_reverse_to_multiset();
        assert(a@.to_multiset() =~= vstd::multiset::Multiset::<Ranked>::empty()) by {
            a@.to_multiset_ensures();
        }
        assert(b@.to_multiset() =~= vstd::multiset::Multiset::<Ranked>::empty()) by {
            b@.to_multiset_ensures();
        }
        assert(r@.to_multiset() =~= total);
    }
    r
}

/// Moving the last item of a list to another keeps the items of all the
/// lists together.
proof fn lemma_moved(from: Seq<Ranked>, other: Seq<Ranked>, to: Seq<Ranked>)
    requires
        from.len() > 0,
    ensures
        from.drop_last().to_multiset().add(other.to_multiset()).add(
            to.push(from.last()).to_multiset(),
        ) == from.to_multiset().add(other.to_multiset()).add(to.to_multiset()),
        other.to_multiset().add(from.drop_last().to_multiset()).add(
            to.push(from.last()).to_multiset(),
        ) == other.to_multiset().add(from.to_multiset()).add(to.to_multiset()),
{
    broadcast use vstd::multiset::group_multiset_axioms;

    let item = from.last();
    assert(from =~= from.drop_last().push(item));
    vstd::seq_lib::to_multiset_build(from.drop_last(), item);
    vstd::seq_lib::to_multiset_build(to, item);
    assert(from.drop_last().to_multiset().add(other.to_multiset()).add(
        to.push(from.last()).to_multiset(),
    ) =~= from.to_multiset().add(other.to_multiset()).add(to.to_multiset()));
    assert(other.to_multiset().add(from.drop_last().to_multiset()).add(
        to.push(from.last()).to_multiset(),
    ) =~= other.to_multiset().add(from.to_multiset()).add(to.to_multiset()));
}

/// The last item of `from` may follow all that is left of `from` and of
/// `other`, and may stand before all of `high`: moving it keeps the order.
proof fn lemma_step(from: Seq<Ranked>, other: Seq<Ranked>, high: Seq<Ranked>)
    requires
        from.len() > 0,
        sorted(from),
        sorted(other),
        sorted(high.reverse()),
        all_before(from, high),
        all_before(other, high),
        other.len() > 0 ==> stands_before(other.last(), from.last()),
    ensures
        sorted(from.drop_last()),
        sorted(high.push(from.last()).reverse()),
        all_before(from.drop_last(), high.push(from.last())),
        all_before(other, high.push(from.last())),
{
    let item = from.last();
    let rest = from.drop_last();
    let more = high.push(item);
    assert forall|i: int, j: int| 0 <= i < j < rest.len() implies stands_before(
        #[trigger] rest[i],
        #[trigger] rest[j],
    ) by {
        assert(stands_before(from[i], from[j]));
    }
    assert forall|i: int, j: int| 0 <= i < j < more.reverse().len() implies stands_before(
        #[trigger] more.reverse()[i],
        #[trigger] more.reverse()[j],
    ) by {
        let n = more.len() as int;
        if i == 0 {
            assert(more.reverse()[i] == item);
            assert(more.reverse()[j] == high[n - 1 - j]);
            assert(stands_before(from[from.len() - 1], high[n - 1 - j]));
        } else {
            assert(more.reverse()[i] == high.reverse()[i - 1]);
            assert(more.reverse()[j] == high.reverse()[j - 1]);
            assert(stands_before(high.reverse()[i - 1], high.reverse()[j - 1]));
        }
    }
    assert forall|i: int, j: int| 0 <= i < rest.len() && 0 <= j < more.len() implies stands_before(
        #[trigger] rest[i],
        #[trigger] more[j],
    ) by {
        if j < high.len() {
            assert(stands_before(from[i], high[j]));
        } else {
            assert(stands_before(from[i], from[from.len() - 1]));
        }
    }
    assert forall|i: int, j: int| 0 <= i < other.len() && 0 <= j < more.len() implies stands_before(
        #[trigger] other[i],
        #[trigger] more[j],
    ) by {
        if j < high.len() {
            assert(stands_before(other[i], high[j]));
        } else {
            if i < other.len() - 1 {
                assert(stands_before(other[i], other[other.len() - 1]));
                lemma_stands_before_transitive(other[i], other.last(), item);
            }
        }
    }
}

/// Sorts the items into the order of a report.
pub fn sort_ranked(items: Vec<Ranked>) -> (r: Vec<Ranked>)
    ensures
        sorted(r@),
        r@.to_multiset() == items@.to_multiset(),
    decreases items@.len(),
{
    if items.len() <= 1 {
        return items;
    }
    let mut left = items;
    let mid: usize = left.len() / 2;
    let right = left.split_off(mid);
    proof {
        assert(items@ =~= left@ + right@);
        vstd::seq_lib::lemma_multiset_commutative(left@, right@);
    }
    let left = sort_ranked(left);
    let right = sort_ranked(right);
    merge(left, right)
}

/// The signatures of a list of items.
pub open spec fn signatures_of(items: Seq<Ranked>) -> Seq<Seq<u8>> {
    Seq::new(items.len(), |i: int| items[i].signature@)
}

/// Two lists with the same items have the same signatures.
pub proof fn lemma_same_signatures(a: Seq<Ranked>, b: Seq<Ranked>)
    requires
        a.to_multiset() == b.to_multiset(),
    ensures
        signatures_of(a).to_multiset() == signatures_of(b).to_multiset(),
    decreases a.len(),
{
    vstd::seq_lib::to_multiset_len(a);
    vstd::seq_lib::to_multiset_len(b);
    if a.len() == 0 {
        assert(signatures_of(a) =~= signatures_of(b));
    } else {
        let item = a.last();
        assert(a.contains(item)) by {
            assert(a[a.len() - 1] == item);
        }
        vstd::seq_lib::to_multiset_contains(a, item);
        vstd::seq_lib::to_multiset_contains(b, item);
        let k = b.index_of(item);
        assert(0 <= k < b.len() && b[k] == item);
        let a1 = a.drop_last();
        let b1 = b.remove(k);
        assert(a1 =~= a.remove(a.len() - 1));
        vstd::seq_lib::to_multiset_remove(a, a.len() - 1);
        vstd::seq_lib::to_multiset_remove(b, k);
        lemma_same_signatures(a1, b1);
        assert(signatures_of(a) =~= signatures_of(a1).push(item.signature@));
        assert(signatures_of(b) =~= signatures_of(b1).insert(k, item.signature@));
        vstd::seq_lib::to_multiset_build(signatures_of(a1), item.signature@);
        vstd::seq_lib::to_multiset_insert(signatures_of(b1), k, item.signature@);
    }
}

} // verus!
