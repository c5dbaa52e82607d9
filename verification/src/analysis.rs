//! The comparison of the snapshots of a run, from the snapshots to the
//! buckets of their signatures.

use crate::classify::{
    bucket_members, classify_backtraces, missing_signatures, peak, trend, Bucket, MissingKey,
};
use crate::common::{
    common_allocations, find_common_allocations, get_all_backtraces, map_views, pairwise_diffs,
    ref_views, universe,
};
use crate::signatures::byte_views;
use crate::report::{frequent_keys, frequent_signatures, in_report_order, sort_backtraces};
use crate::snapshot::AllocationMap;
use vstd::prelude::*;

verus! {

/// What a run finds out about its snapshots.
pub struct Analysis {
    /// Every signature of the snapshots, each once.
    pub all_backtraces: Vec<Vec<u8>>,
    /// What each earlier snapshot shares with the latest, oldest first.
    pub allocation_diffs: Vec<AllocationMap>,
    /// What all the snapshots share.
    pub always_present: AllocationMap,
    /// The signatures under which all the snapshots share more than one
    /// address, the one with more addresses first.
    pub always_present_order: Vec<Vec<u8>>,
    /// The signatures whose count kept growing, in the order of a report.
    pub leaked: Vec<Vec<u8>>,
    /// The signatures whose count fell at some point, in the order of a report.
    pub variable: Vec<Vec<u8>>,
    /// The signatures whose count never changed, in the order of a report.
    pub stable: Vec<Vec<u8>>,
    /// The signatures that some comparison does not have.
    pub missing: Vec<MissingKey>,
}

/// `list` holds the signatures of `bucket`, in the order of a report that
/// goes by the last of the comparisons.
pub open spec fn is_bucket_report(
    list: Seq<Seq<u8>>,
    all: Seq<Seq<u8>>,
    diffs: Seq<Map<Seq<u8>, Set<i64>>>,
    bucket: Bucket,
) -> bool {
    &&& list.to_multiset() == bucket_members(all, diffs, bucket).to_multiset()
    &&& in_report_order(list, diffs.last())
}

/// What `analysis` must hold for the snapshots `maps`.
pub open spec fn is_analysis_of(analysis: Analysis, maps: Seq<Map<Seq<u8>, Set<i64>>>) -> bool {
    let all = byte_views(analysis.all_backtraces@);
    let diffs = map_views(analysis.allocation_diffs@);
    &&& all.no_duplicates()
    &&& all.to_set() == universe(maps)
    &&& diffs.len() == maps.len() - 1
    &&& forall|i: int|
        0 <= i < diffs.len() ==> #[trigger] diffs[i] == common_allocations(
            universe(maps),
            seq![maps[i], maps.last()],
        )
    &&& analysis.always_present@ == common_allocations(universe(maps), maps)
    &&& byte_views(analysis.always_present_order@).to_multiset() == frequent_keys(
        analysis.always_present.keys(),
        analysis.always_present@,
    ).to_multiset()
    &&& in_report_order(byte_views(analysis.always_present_order@), analysis.always_present@)
    &&& is_bucket_report(byte_views(analysis.leaked@), all, diffs, Bucket::Leaked)
    &&& is_bucket_report(byte_views(analysis.variable@), all, diffs, Bucket::Variable)
    &&& is_bucket_report(byte_views(analysis.stable@), all, diffs, Bucket::Static)
    &&& missing_signatures(analysis.missing@) == bucket_members(all, diffs, Bucket::NotComparable)
    &&& forall|i: int|
        0 <= i < analysis.missing@.len() ==> (#[trigger] analysis.missing@[i]).last_count == peak(
            trend(diffs, analysis.missing@[i].signature@),
        )
}

/// Compares the snapshots of a run, which are given oldest first, and sorts
/// their signatures into buckets. Fewer than two snapshots cannot be
/// compared.
pub fn analyze(backtrace_maps: &[AllocationMap]) -> (r: Option<Analysis>)
    ensures
        r is Some == (backtrace_maps@.len() >= 2),
        r matches Some(analysis) ==> is_analysis_of(analysis, map_views(backtrace_maps@)),
{
    if backtrace_maps.len() < 2 {
        return None;
    }
    let ghost maps = map_views(backtrace_maps@);
    let all_backtraces = get_all_backtraces(backtrace_maps);
    let allocation_diffs = pairwise_diffs(all_backtraces.as_slice(), backtrace_maps);
    let buckets = classify_backtraces(all_backtraces.as_slice(), allocation_diffs.as_slice());
    let final_diff = &allocation_diffs[allocation_diffs.len() - 1];
    let leaked = sort_backtraces(buckets.leaked.as_slice(), final_diff);
    let variable = sort_backtraces(buckets.variable.as_slice(), final_diff);
    let stable = sort_backtraces(buckets.stable.as_slice(), final_diff);
    let mut every: Vec<&AllocationMap> = Vec::new();
    let mut i: usize = 0;
    while i < backtrace_maps.len()
        invariant
            i <= backtrace_maps@.len(),
            every@.len() == i,
            forall|j: int| 0 <= j < i ==> *(#[trigger] every@[j]) == backtrace_maps@[j],
        decreases backtrace_maps@.len() - i,
    {
        every.push(&backtrace_maps[i]);
        i += 1;
    }
    assert(ref_views(every@) =~= maps);
    let always_present = find_common_allocations(all_backtraces.as_slice(), every.as_slice());
    let always_present_order = frequent_signatures(&always_present);
    let analysis = Analysis {
        all_backtraces,
        allocation_diffs,
        always_present,
        always_present_order,
        leaked,
        variable,
        stable,
        missing: buckets.missing,
    };
    proof {
        let diffs = map_views(analysis.allocation_diffs@);
        assert(diffs.last() == final_diff@);
        assert forall|i: int| 0 <= i < diffs.len() implies #[trigger] diffs[i] == common_allocations(
            universe(maps),
            seq![maps[i], maps.last()],
        ) by {
            assert(diffs[i] == analysis.allocation_diffs@[i]@);
            assert(maps[i] == backtrace_maps@[i]@);
            assert(maps.last() == backtrace_maps@.last()@);
        }
    }
    Some(analysis)
}

} // verus!
