//! The buckets of signatures: how the counts of a signature in the
//! successive comparisons decide whether it leaks.

use crate::common::map_views;
use crate::signatures::{byte_views, copy_bytes};
use crate::snapshot::AllocationMap;
use vstd::prelude::*;

verus! {

/// What the counts of a signature say about it.
#[derive(Clone, Copy, Debug, PartialEq, Eq, Structural)]
pub enum Bucket {
    /// The count never fell and rose at least once after being positive.
    Leaked,
    /// The count never changed once it was positive.
    Static,
    /// The count fell at least once.
    Variable,
    /// The signature is missing from at least one comparison.
    NotComparable,
}

/// The signature is missing from some comparison.
pub open spec fn some_absent(counts: Seq<Option<usize>>) -> bool {
    exists|i: int| 0 <= i < counts.len() && #[trigger] counts[i] is None
}

/// Some count is followed, at once or later, by a smaller one.
pub open spec fn some_decrease(counts: Seq<Option<usize>>) -> bool {
    exists|i: int, j: int|
        0 <= i < j < counts.len() && #[trigger] counts[i] is Some && #[trigger] counts[j] is Some
            && counts[i].unwrap() > counts[j].unwrap()
}

/// Some positive count is followed, at once or later, by a larger one.
pub open spec fn some_growth(counts: Seq<Option<usize>>) -> bool {
    exists|i: int, j: int|
        0 <= i < j < counts.len() && #[trigger] counts[i] is Some && #[trigger] counts[j] is Some
            && 0 < counts[i].unwrap() < counts[j].unwrap()
}

/// The bucket of a signature, from its counts in the successive comparisons
/// (`None` where it is missing).
pub open spec fn bucket_of(counts: Seq<Option<usize>>) -> Bucket {
    if some_absent(counts) {
        Bucket::NotComparable
    } else if some_decrease(counts) {
        Bucket::Variable
    } else if some_growth(counts) {
        Bucket::Leaked
    } else {
        Bucket::Static
    }
}

/// The largest count of the signature, 0 where it has none.
pub open spec fn peak(counts: Seq<Option<usize>>) -> usize
    decreases counts.len(),
{
    if counts.len() == 0 {
        0
    } else {
        let earlier = peak(counts.drop_last());
        match counts.last() {
            Some(c) => if c >= earlier {
                c
            } else {
                earlier
            },
            None => earlier,
        }
    }
}

/// Some count is larger than all the counts before it, of which one is
/// positive.
pub open spec fn some_jump(counts: Seq<Option<usize>>) -> bool {
    exists|j: int|
        0 <= j < counts.len() && #[trigger] counts[j] is Some && 0 < peak(counts.take(j))
            < counts[j].unwrap()
}

/// No count is above the peak, and a positive peak is one of the counts.
pub proof fn lemma_peak(counts: Seq<Option<usize>>)
    ensures
        forall|i: int|
            0 <= i < counts.len() && #[trigger] counts[i] is Some ==> counts[i].unwrap() <= peak(
                counts,
            ),
        peak(counts) > 0 ==> exists|i: int|
            0 <= i < counts.len() && #[trigger] counts[i] == Some(peak(counts)),
    decreases counts.len(),
{
    if counts.len() > 0 {
        let earlier = counts.drop_last();
        lemma_peak(earlier);
        assert forall|i: int| 0 <= i < counts.len() && #[trigger] counts[i] is Some implies counts[i].unwrap()
            <= peak(counts) by {
            if i < earlier.len() {
                assert(earlier[i] == counts[i]);
            }
        }
        if peak(counts) > 0 {
            if counts.last() == Some(peak(counts)) {
                assert(counts[counts.len() - 1] == Some(peak(counts)));
            } else {
                let i = choose|i: int|
                    0 <= i < earlier.len() && #[trigger] earlier[i] == Some(peak(earlier));
                assert(counts[i] == Some(peak(counts)));
            }
        }
    }
}

/// Where no count falls, a jump and a growth are the same thing.
pub proof fn lemma_jump_is_growth(counts: Seq<Option<usize>>)
    ensures
        some_jump(counts) ==> some_growth(counts),
        some_growth(counts) && !some_decrease(counts) ==> some_jump(counts),
{
    if some_jump(counts) {
        let j = choose|j: int|
            0 <= j < counts.len() && #[trigger] counts[j] is Some && 0 < peak(counts.take(j))
                < counts[j].unwrap();
        lemma_peak(counts.take(j));
        let i = choose|i: int|
            0 <= i < counts.take(j).len() && #[trigger] counts.take(j)[i] == Some(
                peak(counts.take(j)),
            );
        assert(counts[i] == counts.take(j)[i]);
        assert(counts[i] is Some && counts[j] is Some);
    }
    if some_growth(counts) && !some_decrease(counts) {
        let (i, j) = choose|i: int, j: int|
            0 <= i < j < counts.len() && #[trigger] counts[i] is Some && #[trigger] counts[j] is Some
                && 0 < counts[i].unwrap() < counts[j].unwrap();
        lemma_growth_has_jump(counts, i, j);
    }
}

proof fn lemma_growth_has_jump(counts: Seq<Option<usize>>, i: int, j: int)
    requires
        0 <= i < j < counts.len(),
        counts[i] is Some,
        counts[j] is Some,
        0 < counts[i].unwrap() < counts[j].unwrap(),
        !some_decrease(counts),
    ensures
        some_jump(counts),
    decreases j,
{
    let before = counts.take(j);
    lemma_peak(before);
    assert(before[i] == counts[i]);
    if counts[j].unwrap() > peak(before) {
        assert(0 < peak(before));
    } else {
        let t = choose|t: int| 0 <= t < before.len() && #[trigger] before[t] == Some(peak(before));
        assert(counts[t] == before[t]);
        assert(counts[t] is Some);
        if counts[t].unwrap() > counts[j].unwrap() {
            assert(counts[t] is Some && counts[j] is Some);
            assert(some_decrease(counts));
        }
        if t < i {
            assert(counts[t] is Some && counts[i] is Some);
            assert(some_decrease(counts));
        }
        lemma_growth_has_jump(counts, i, t);
    }
}

/// The bucket of a signature and its largest count, from its counts in the
/// successive comparisons.
///
/// It keeps the last count that was not below the ones before it, and notes
/// whether any count fell below that, whether any rose above it once it was
/// positive, and whether the signature was missing anywhere.
pub fn classify(counts: &[Option<usize>]) -> (r: (Bucket, usize))
    ensures
        r.0 == bucket_of(counts@),
        r.1 == peak(counts@),
{
    let mut last_count: usize = 0;
    let mut is_variable = false;
    let mut is_static = true;
    let mut not_present = false;
    let mut n: usize = 0;
    while n < counts.len()
        invariant
            n <= counts@.len(),
            last_count == peak(counts@.take(n as int)),
            is_variable == some_decrease(counts@.take(n as int)),
            is_static == !some_jump(counts@.take(n as int)),
            not_present == some_absent(counts@.take(n as int)),
        decreases counts@.len() - n,
    {
        let ghost before = counts@.take(n as int);
        let ghost after = counts@.take(n + 1);
        proof {
            assert(after.drop_last() =~= before);
            assert(after.last() == counts@[n as int]);
            lemma_peak(before);
            lemma_step(before, after);
        }
        match counts[n] {
            Some(count) => {
                if count >= last_count {
                    if last_count != 0 && count != last_count {
                        is_static = false;
                    }
                    last_count = count;
                } else {
                    is_variable = true;
                }
            },
            None => {
                not_present = true;
            },
        }
        n += 1;
    }
    proof {
        assert(counts@.take(n as int) =~= counts@);
        lemma_jump_is_growth(counts@);
    }
    if not_present {
        (Bucket::NotComparable, last_count)
    } else if is_variable {
        (Bucket::Variable, last_count)
    } else if is_static {
        (Bucket::Static, last_count)
    } else {
        (Bucket::Leaked, last_count)
    }
}

/// How one more count changes what has been noted of the counts before it.
proof fn lemma_step(before: Seq<Option<usize>>, after: Seq<Option<usize>>)
    requires
        after.len() == before.len() + 1,
        after.drop_last() == before,
    ensures
        some_absent(after) == (some_absent(before) || after.last() is None),
        some_decrease(after) == (some_decrease(before) || (after.last() is Some
            && after.last().unwrap() < peak(before))),
        some_jump(after) == (some_jump(before) || (after.last() is Some && 0 < peak(before)
            < after.last().unwrap())),
{
    lemma_step_absent(before, after);
    lemma_step_decrease(before, after);
    lemma_step_jump(before, after);
}

proof fn lemma_step_absent(before: Seq<Option<usize>>, after: Seq<Option<usize>>)
    requires
        after.len() == before.len() + 1,
        after.drop_last() == before,
    ensures
        some_absent(after) == (some_absent(before) || after.last() is None),
{
    let n = before.len() as int;
    if some_absent(after) {
        let i = choose|i: int| 0 <= i < after.len() && #[trigger] after[i] is None;
        if i < n {
            assert(before[i] == after[i]);
            assert(before[i] is None);
        }
    }
    if some_absent(before) {
        let i = choose|i: int| 0 <= i < before.len() && #[trigger] before[i] is None;
        assert(before[i] == after[i]);
        assert(after[i] is None);
    }
    if after.last() is None {
        assert(after[n] is None);
    }
}

proof fn lemma_step_decrease(before: Seq<Option<usize>>, after: Seq<Option<usize>>)
    requires
        after.len() == before.len() + 1,
        after.drop_last() == before,
    ensures
        some_decrease(after) == (some_decrease(before) || (after.last() is Some
            && after.last().unwrap() < peak(before))),
{
    let n = before.len() as int;
    lemma_peak(before);
    if some_decrease(after) {
        let (i, j) = choose|i: int, j: int|
            0 <= i < j < after.len() && #[trigger] after[i] is Some && #[trigger] after[j] is Some
                && after[i].unwrap() > after[j].unwrap();
        assert(before[i] == after[i]);
        if j < n {
            assert(before[j] == after[j]);
            assert(before[i] is Some && before[j] is Some);
        } else {
            assert(before[i] is Some);
            assert(before[i].unwrap() <= peak(before));
        }
    }
    if some_decrease(before) {
        let (i, j) = choose|i: int, j: int|
            0 <= i < j < before.len() && #[trigger] before[i] is Some && #[trigger] before[j] is Some
                && before[i].unwrap() > before[j].unwrap();
        assert(before[i] == after[i]);
        assert(before[j] == after[j]);
        assert(after[i] is Some && after[j] is Some);
    }
    if after.last() is Some && after.last().unwrap() < peak(before) {
        let i = choose|i: int| 0 <= i < before.len() && #[trigger] before[i] == Some(peak(before));
        assert(before[i] == after[i]);
        assert(after[i] is Some && after[n] is Some);
    }
}

proof fn lemma_step_jump(before: Seq<Option<usize>>, after: Seq<Option<usize>>)
    requires
        after.len() == before.len() + 1,
        after.drop_last() == before,
    ensures
        some_jump(after) == (some_jump(before) || (after.last() is Some && 0 < peak(before)
            < after.last().unwrap())),
{
    let n = before.len() as int;
    assert(after.take(n) =~= before);
    if some_jump(after) {
        let j = choose|j: int|
            0 <= j < after.len() && #[trigger] after[j] is Some && 0 < peak(after.take(j))
                < after[j].unwrap();
        if j < n {
            assert(after.take(j) =~= before.take(j));
            assert(before[j] == after[j]);
            assert(before[j] is Some);
        }
    }
    if some_jump(before) {
        let j = choose|j: int|
            0 <= j < before.len() && #[trigger] before[j] is Some && 0 < peak(before.take(j))
                < before[j].unwrap();
        assert(after.take(j) =~= before.take(j));
        assert(before[j] == after[j]);
        assert(after[j] is Some);
    }
    if after.last() is Some && 0 < peak(before) < after.last().unwrap() {
        assert(after[n] is Some);
    }
}

/// The counts of `signature` in the successive comparisons: the size of its
/// address set in each comparison that has it.
pub open spec fn trend(diffs: Seq<Map<Seq<u8>, Set<i64>>>, signature: Seq<u8>) -> Seq<
    Option<usize>,
> {
    Seq::new(
        diffs.len(),
        |i: int|
            if diffs[i].contains_key(signature) {
                Some(diffs[i][signature].len() as usize)
            } else {
                None
            },
    )
}

/// The counts of `signature` in the successive comparisons.
pub fn trend_of(signature: &[u8], allocation_diffs: &[AllocationMap]) -> (r: Vec<Option<usize>>)
    ensures
        r@ == trend(map_views(allocation_diffs@), signature@),
{
    let mut counts: Vec<Option<usize>> = Vec::new();
    let ghost diffs = map_views(allocation_diffs@);
    let mut i: usize = 0;
    while i < allocation_diffs.len()
        invariant
            i <= allocation_diffs@.len(),
            diffs == map_views(allocation_diffs@),
            counts@ == trend(diffs, signature@).take(i as int),
        decreases allocation_diffs@.len() - i,
    {
        let count = allocation_diffs[i].count(signature);
        counts.push(count);
        proof {
            let full = trend(diffs, signature@);
            assert(diffs[i as int] == allocation_diffs@[i as int]@);
            assert(full.take(i + 1) =~= full.take(i as int).push(full[i as int]));
        }
        i += 1;
    }
    proof {
        let full = trend(diffs, signature@);
        assert(full.take(i as int) =~= full);
    }
    counts
}

/// The signatures among `signatures` that fall into `bucket`, in their order.
pub open spec fn bucket_members(
    signatures: Seq<Seq<u8>>,
    diffs: Seq<Map<Seq<u8>, Set<i64>>>,
    bucket: Bucket,
) -> Seq<Seq<u8>>
    decreases signatures.len(),
{
    if signatures.len() == 0 {
        Seq::empty()
    } else {
        let earlier = bucket_members(signatures.drop_last(), diffs, bucket);
        if bucket_of(trend(diffs, signatures.last())) == bucket {
            earlier.push(signatures.last())
        } else {
            earlier
        }
    }
}

/// A signature that is missing from some comparison is not comparable,
/// whatever its counts in the others.
pub proof fn lemma_absent_is_not_comparable(counts: Seq<Option<usize>>, i: int)
    requires
        0 <= i < counts.len(),
        counts[i] is None,
    ensures
        bucket_of(counts) == Bucket::NotComparable,
{
}

/// A signature is in a bucket's list exactly if it is among the signatures
/// and its counts put it into that bucket.
pub proof fn lemma_bucket_members(
    signatures: Seq<Seq<u8>>,
    diffs: Seq<Map<Seq<u8>, Set<i64>>>,
    bucket: Bucket,
    signature: Seq<u8>,
)
    ensures
        bucket_members(signatures, diffs, bucket).contains(signature) <==> (signatures.contains(
            signature,
        ) && bucket_of(trend(diffs, signature)) == bucket),
    decreases signatures.len(),
{
    if signatures.len() > 0 {
        let earlier = signatures.drop_last();
        let last = signatures.last();
        lemma_bucket_members(earlier, diffs, bucket, signature);
        let members = bucket_members(earlier, diffs, bucket);
        if signatures.contains(signature) {
            let i = choose|i: int| 0 <= i < signatures.len() && signatures[i] == signature;
            if i < earlier.len() {
                assert(earlier[i] == signature);
            }
        }
        if earlier.contains(signature) {
            let i = choose|i: int| 0 <= i < earlier.len() && earlier[i] == signature;
            assert(signatures[i] == signature);
        }
        assert(signatures[signatures.len() - 1] == last);
        if bucket_of(trend(diffs, last)) == bucket {
            let more = members.push(last);
            assert(more[more.len() - 1] == last);
            if members.contains(signature) {
                let i = choose|i: int| 0 <= i < members.len() && members[i] == signature;
                assert(more[i] == signature);
            }
            if more.contains(signature) {
                let i = choose|i: int| 0 <= i < more.len() && more[i] == signature;
                if i < members.len() {
                    assert(members[i] == signature);
                }
            }
        }
    }
}

/// Every signature falls into exactly one bucket.
pub proof fn lemma_buckets_partition(
    signatures: Seq<Seq<u8>>,
    diffs: Seq<Map<Seq<u8>, Set<i64>>>,
    signature: Seq<u8>,
)
    requires
        signatures.contains(signature),
    ensures
        bucket_members(signatures, diffs, bucket_of(trend(diffs, signature))).contains(signature),
        forall|bucket: Bucket|
            bucket != bucket_of(trend(diffs, signature)) ==> !(#[trigger] bucket_members(
                signatures,
                diffs,
                bucket,
            )).contains(signature),
{
    lemma_bucket_members(signatures, diffs, bucket_of(trend(diffs, signature)), signature);
    assert forall|bucket: Bucket| bucket != bucket_of(trend(diffs, signature)) implies !(
    #[trigger] bucket_members(signatures, diffs, bucket)).contains(signature) by {
        lemma_bucket_members(signatures, diffs, bucket, signature);
    }
}

/// A signature that is missing from some comparison, with the largest
/// count that it has in the others.
#[derive(Clone, Debug, PartialEq, Eq)]
pub struct MissingKey {
    pub signature: Vec<u8>,
    pub last_count: usize,
}

/// The signatures of a run, by bucket.
pub struct Buckets {
    pub leaked: Vec<Vec<u8>>,
    pub variable: Vec<Vec<u8>>,
    pub stable: Vec<Vec<u8>>,
    pub missing: Vec<MissingKey>,
}

/// The signatures of a list of missing keys.
pub open spec fn missing_signatures(missing: Seq<MissingKey>) -> Seq<Seq<u8>> {
    Seq::new(missing.len(), |i: int| missing[i].signature@)
}

/// Sorts the signatures into buckets by their counts in the successive
/// comparisons. Each bucket keeps the order of `all_backtraces`.
pub fn classify_backtraces(all_backtraces: &[Vec<u8>], allocation_diffs: &[AllocationMap]) -> (r:
    Buckets)
    ensures
        byte_views(r.leaked@) == bucket_members(
            byte_views(all_backtraces@),
            map_views(allocation_diffs@),
            Bucket::Leaked,
        ),
        byte_views(r.variable@) == bucket_members(
            byte_views(all_backtraces@),
            map_views(allocation_diffs@),
            Bucket::Variable,
        ),
        byte_views(r.stable@) == bucket_members(
            byte_views(all_backtraces@),
            map_views(allocation_diffs@),
            Bucket::Static,
        ),
        missing_signatures(r.missing@) == bucket_members(
            byte_views(all_backtraces@),
            map_views(allocation_diffs@),
            Bucket::NotComparable,
        ),
        forall|i: int|
            0 <= i < r.missing@.len() ==> (#[trigger] r.missing@[i]).last_count == peak(
                trend(map_views(allocation_diffs@), r.missing@[i].signature@),
            ),
{
    let mut leaked: Vec<Vec<u8>> = Vec::new();
    let mut variable: Vec<Vec<u8>> = Vec::new();
    let mut stable: Vec<Vec<u8>> = Vec::new();
    let mut missing: Vec<MissingKey> = Vec::new();
    let ghost keys = byte_views(all_backtraces@);
    let ghost diffs = map_views(allocation_diffs@);
    let mut i: usize = 0;
    proof {
        assert(byte_views(leaked@) =~= bucket_members(keys.take(0), diffs, Bucket::Leaked));
        assert(byte_views(variable@) =~= bucket_members(keys.take(0), diffs, Bucket::Variable));
        assert(byte_views(stable@) =~= bucket_members(keys.take(0), diffs, Bucket::Static));
        assert(missing_signatures(missing@) =~= bucket_members(
            keys.take(0),
            diffs,
            Bucket::NotComparable,
        ));
    }
    while i < all_backtraces.len()
        invariant
            i <= all_backtraces@.len(),
            keys == byte_views(all_backtraces@),
            diffs == map_views(allocation_diffs@),
            byte_views(leaked@) == bucket_members(keys.take(i as int), diffs, Bucket::Leaked),
            byte_views(variable@) == bucket_members(keys.take(i as int), diffs, Bucket::Variable),
            byte_views(stable@) == bucket_members(keys.take(i as int), diffs, Bucket::Static),
            missing_signatures(missing@) == bucket_members(
                keys.take(i as int),
                diffs,
                Bucket::NotComparable,
            ),
            forall|j: int|
                0 <= j < missing@.len() ==> (#[trigger] missing@[j]).last_count == peak(
                    trend(diffs, missing@[j].signature@),
                ),
        decreases all_backtraces@.len() - i,
    {
        let signature = all_backtraces[i].as_slice();
        let counts = trend_of(signature, allocation_diffs);
        let (bucket, last_count) = classify(counts.as_slice());
        let ghost old_leaked = byte_views(leaked@);
        let ghost old_variable = byte_views(variable@);
        let ghost old_stable = byte_views(stable@);
        let ghost old_missing = missing_signatures(missing@);
        proof {
            assert(keys[i as int] == signature@);
            assert(keys.take(i + 1).drop_last() =~= keys.take(i as int));
            assert(keys.take(i + 1).last() == signature@);
        }
        match bucket {
            Bucket::Leaked => {
                leaked.push(copy_bytes(signature));
                assert(byte_views(leaked@) =~= old_leaked.push(signature@));
            },
            Bucket::Variable => {
                variable.push(copy_bytes(signature));
                assert(byte_views(variable@) =~= old_variable.push(signature@));
            },
            Bucket::Static => {
                stable.push(copy_bytes(signature));
                assert(byte_views(stable@) =~= old_stable.push(signature@));
            },
            Bucket::NotComparable => {
                missing.push(MissingKey { signature: copy_bytes(signature), last_count });
                assert(missing_signatures(missing@) =~= old_missing.push(signature@));
            },
        }
        i += 1;
    }
    proof {
        assert(keys.take(i as int) =~= keys);
    }
    Buckets { leaked, variable, stable, missing }
}

} // verus!
