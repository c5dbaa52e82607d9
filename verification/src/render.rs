//! The report of a run as lines of text.

use crate::analysis::Analysis;
use crate::classify::{trend, MissingKey};
use crate::common::map_views;
use crate::report::{
    address_row_text, addresses_under, allocation_rows, format_address_row, format_missing_key,
    missing_row_text, row_text, rows_for,
};
use crate::signatures::{byte_views, copy_bytes};
use crate::snapshot::AllocationMap;
use vstd::prelude::*;
use vstd::string::StringSliceAdditionalSpecFns;

verus! {

/// The line above the signatures whose count kept growing.
pub open spec fn leaked_header() -> Seq<u8> {
    "Potential Leaked allocations as these allocations always kept increasing:".spec_bytes()
}

/// The line above the signatures whose count fell at some point.
pub open spec fn variable_header() -> Seq<u8> {
    "Variable allocations: [Count increased and decreased with time] / Can be waiting on some workflow like GC to deallocate these".spec_bytes()
}

/// The line above the allocations that all the snapshots share.
pub open spec fn always_present_header() -> Seq<u8> {
    "Allocations that never changed address: Sorted by count: [These can be global or leaked allocations]".spec_bytes()
}

/// The line above the signatures whose count never changed.
pub open spec fn static_header() -> Seq<u8> {
    "Static allocations: [Count never changed]".spec_bytes()
}

/// The line above the signatures that some comparison does not have.
pub open spec fn missing_header() -> Seq<u8> {
    "BackTraces which are definitely not leaking as they were not present in some umdh file".spec_bytes()
}

/// The line above the contents of the last comparison.
pub open spec fn last_diff_header() -> Seq<u8> {
    "Allocations of last diff".spec_bytes()
}

/// The line that names the columns of the rows below it.
pub open spec fn columns_header() -> Seq<u8> {
    "Common allocations: [1st..Last],[2nd..Last],[3rd..Last],..,BackTrace*".spec_bytes()
}

/// The rows of the signatures, one for each in the order given.
pub open spec fn count_lines(
    signatures: Seq<Seq<u8>>,
    diffs: Seq<Map<Seq<u8>, Set<i64>>>,
) -> Seq<Seq<u8>> {
    Seq::new(signatures.len(), |i: int| row_text(trend(diffs, signatures[i]), signatures[i]))
}

/// The rows that list the addresses of the signatures, one for each in the
/// order given.
pub open spec fn address_lines(signatures: Seq<Seq<u8>>, map: Map<Seq<u8>, Set<i64>>) -> Seq<
    Seq<u8>,
> {
    Seq::new(
        signatures.len(),
        |i: int| address_row_text(signatures[i], addresses_under(map, signatures[i])),
    )
}

/// The rows of the signatures that some comparison does not have.
pub open spec fn missing_lines(missing: Seq<MissingKey>) -> Seq<Seq<u8>> {
    Seq::new(
        missing.len(),
        |i: int| missing_row_text(missing[i].signature@, missing[i].last_count),
    )
}

/// The contents of the last comparison, one row for each of its signatures.
pub open spec fn last_diff_lines(allocation_diffs: Seq<AllocationMap>) -> Seq<Seq<u8>> {
    if allocation_diffs.len() > 0 {
        address_lines(allocation_diffs.last().keys(), allocation_diffs.last()@)
    } else {
        Seq::empty()
    }
}

/// The lines of the report of a run: the signatures whose count kept
/// growing, those whose count fell, the allocations that all the snapshots
/// share, the signatures whose count never changed, those that some
/// comparison does not have, and the contents of the last comparison, each
/// part under its header.
pub open spec fn report_text(analysis: Analysis) -> Seq<Seq<u8>> {
    let diffs = map_views(analysis.allocation_diffs@);
    seq![leaked_header(), columns_header()] + count_lines(byte_views(analysis.leaked@), diffs)
        + seq![variable_header(), columns_header()] + count_lines(
        byte_views(analysis.variable@),
        diffs,
    ) + seq![always_present_header()] + address_lines(
        byte_views(analysis.always_present_order@),
        analysis.always_present@,
    ) + seq![static_header(), columns_header()] + count_lines(
        byte_views(analysis.stable@),
        diffs,
    ) + seq![missing_header()] + missing_lines(analysis.missing@) + seq![last_diff_header()]
        + last_diff_lines(analysis.allocation_diffs@)
}

/// Puts a header at the end of the lines.
fn push_header(lines: &mut Vec<Vec<u8>>, header: &str)
    ensures
        byte_views(final(lines)@) == byte_views(old(lines)@).push(header.spec_bytes()),
{
    let ghost before = byte_views(lines@);
    lines.push(copy_bytes(header.as_bytes()));
    assert(byte_views(lines@) =~= before.push(header.spec_bytes()));
}

/// Puts the rows of the signatures at the end of the lines.
fn push_count_lines(
    lines: &mut Vec<Vec<u8>>,
    signatures: &[Vec<u8>],
    allocation_diffs: &[AllocationMap],
)
    ensures
        byte_views(final(lines)@) == byte_views(old(lines)@) + count_lines(
            byte_views(signatures@),
            map_views(allocation_diffs@),
        ),
{
    let ghost before = byte_views(lines@);
    let mut rows = allocation_rows(signatures, allocation_diffs);
    let ghost added = byte_views(rows@);
    lines.append(&mut rows);
    assert(added =~= count_lines(byte_views(signatures@), map_views(allocation_diffs@)));
    assert(byte_views(lines@) =~= before + added);
}

/// Puts the rows that list the addresses of the signatures at the end of the
/// lines.
fn push_address_lines(lines: &mut Vec<Vec<u8>>, signatures: &[Vec<u8>], map: &AllocationMap)
    ensures
        byte_views(final(lines)@) == byte_views(old(lines)@) + address_lines(
            byte_views(signatures@),
            map@,
        ),
{
    let ghost before = byte_views(lines@);
    let ghost target = address_lines(byte_views(signatures@), map@);
    let rows = rows_for(signatures, map);
    let mut i: usize = 0;
    assert(byte_views(lines@) =~= before + target.take(0));
    while i < rows.len()
        invariant
            i <= rows@.len(),
            rows@.len() == signatures@.len(),
            target == address_lines(byte_views(signatures@), map@),
            crate::report::row_signatures(rows@) == byte_views(signatures@),
            forall|j: int|
                0 <= j < rows@.len() ==> crate::report::lists_addresses(#[trigger] rows@[j], map@),
            byte_views(lines@) == before + target.take(i as int),
        decreases rows@.len() - i,
    {
        let ghost so_far = byte_views(lines@);
        lines.push(format_address_row(&rows[i]));
        proof {
            assert(crate::report::row_signatures(rows@)[i as int] == rows@[i as int].signature@);
            assert(crate::report::lists_addresses(rows@[i as int], map@));
            assert(byte_views(lines@) =~= so_far.push(target[i as int]));
            assert(target.take(i + 1) =~= target.take(i as int).push(target[i as int]));
            assert(byte_views(lines@) =~= before + target.take(i + 1));
        }
        i += 1;
    }
    assert(target.take(i as int) =~= target);
}

/// Puts the rows of the signatures that some comparison does not have at the
/// end of the lines.
fn push_missing_lines(lines: &mut Vec<Vec<u8>>, missing: &[MissingKey])
    ensures
        byte_views(final(lines)@) == byte_views(old(lines)@) + missing_lines(missing@),
{
    let ghost before = byte_views(lines@);
    let ghost target = missing_lines(missing@);
    let mut i: usize = 0;
    assert(byte_views(lines@) =~= before + target.take(0));
    while i < missing.len()
        invariant
            i <= missing@.len(),
            target == missing_lines(missing@),
            byte_views(lines@) == before + target.take(i as int),
        decreases missing@.len() - i,
    {
        let ghost so_far = byte_views(lines@);
        lines.push(format_missing_key(&missing[i]));
        proof {
            assert(byte_views(lines@) =~= so_far.push(target[i as int]));
            assert(target.take(i + 1) =~= target.take(i as int).push(target[i as int]));
            assert(byte_views(lines@) =~= before + target.take(i + 1));
        }
        i += 1;
    }
    assert(target.take(i as int) =~= target);
}

/// Writes the report of a run, line by line.
pub fn render_report(analysis: &Analysis) -> (r: Vec<Vec<u8>>)
    ensures
        byte_views(r@) == report_text(*analysis),
{
    let mut lines: Vec<Vec<u8>> = Vec::new();
    let diffs = analysis.allocation_diffs.as_slice();
    assert(byte_views(lines@) =~= Seq::<Seq<u8>>::empty());
    push_header(
        &mut lines,
        "Potential Leaked allocations as these allocations always kept increasing:",
    );
    push_header(
        &mut lines,
        "Common allocations: [1st..Last],[2nd..Last],[3rd..Last],..,BackTrace*",
    );
    assert(byte_views(lines@) =~= seq![leaked_header(), columns_header()]);
    push_count_lines(&mut lines, analysis.leaked.as_slice(), diffs);
    push_header(
        &mut lines,
        "Variable allocations: [Count increased and decreased with time] / Can be waiting on some workflow like GC to deallocate these",
    );
    push_header(
        &mut lines,
        "Common allocations: [1st..Last],[2nd..Last],[3rd..Last],..,BackTrace*",
    );
    let ghost part1 = seq![leaked_header(), columns_header()] + count_lines(
        byte_views(analysis.leaked@),
        map_views(analysis.allocation_diffs@),
    );
    assert(byte_views(lines@) =~= part1 + seq![variable_header(), columns_header()]);
    push_count_lines(&mut lines, analysis.variable.as_slice(), diffs);
    push_header(
        &mut lines,
        "Allocations that never changed address: Sorted by count: [These can be global or leaked allocations]",
    );
    let ghost part2 = part1 + seq![variable_header(), columns_header()] + count_lines(
        byte_views(analysis.variable@),
        map_views(analysis.allocation_diffs@),
    );
    assert(byte_views(lines@) =~= part2 + seq![always_present_header()]);
    push_address_lines(
        &mut lines,
        analysis.always_present_order.as_slice(),
        &analysis.always_present,
    );
    push_header(&mut lines, "Static allocations: [Count never changed]");
    push_header(
        &mut lines,
        "Common allocations: [1st..Last],[2nd..Last],[3rd..Last],..,BackTrace*",
    );
    let ghost part3 = part2 + seq![always_present_header()] + address_lines(
        byte_views(analysis.always_present_order@),
        analysis.always_present@,
    );
    assert(byte_views(lines@) =~= part3 + seq![static_header(), columns_header()]);
    push_count_lines(&mut lines, analysis.stable.as_slice(), diffs);
    push_header(
        &mut lines,
        "BackTraces which are definitely not leaking as they were not present in some umdh file",
    );
    let ghost part4 = part3 + seq![static_header(), columns_header()] + count_lines(
        byte_views(analysis.stable@),
        map_views(analysis.allocation_diffs@),
    );
    assert(byte_views(lines@) =~= part4 + seq![missing_header()]);
    push_missing_lines(&mut lines, analysis.missing.as_slice());
    push_header(&mut lines, "Allocations of last diff");
    let ghost part5 = part4 + seq![missing_header()] + missing_lines(analysis.missing@);
    assert(byte_views(lines@) =~= part5 + seq![last_diff_header()]);
    if analysis.allocation_diffs.len() > 0 {
        let last_diff = &analysis.allocation_diffs[analysis.allocation_diffs.len() - 1];
        let signatures = last_diff.signatures();
        assert(byte_views(signatures@) =~= last_diff.keys());
        push_address_lines(&mut lines, signatures.as_slice(), last_diff);
    } else {
        assert(byte_views(lines@) =~= part5 + seq![last_diff_header()] + Seq::<Seq<u8>>::empty());
    }
    lines
}

} // verus!
