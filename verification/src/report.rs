//! The rows of a report: a signature with its counts, or with its
//! addresses.

use crate::addresses::{address_list, ascending};
use crate::classify::{trend, trend_of, MissingKey};
use crate::common::map_views;
use crate::signatures::{byte_views, copy_bytes};
use crate::rank::{
    lemma_same_signatures, signatures_of, sort_ranked, stands_before, Ranked,
};
use crate::snapshot::AllocationMap;
use crate::text::{
    append_bytes, append_integer, append_natural, decimal, decimal_digits, lex_le, CLOSING_BRACE,
    COMMA, SPACE,
};
use vstd::prelude::*;
use vstd::string::StringSliceAdditionalSpecFns;

verus! {

/// The count of `signature` in a comparison: the size of its address set,
/// `None` where the comparison does not have it.
pub open spec fn rank_of(diff: Map<Seq<u8>, Set<i64>>, signature: Seq<u8>) -> Option<usize> {
    if diff.contains_key(signature) {
        Some(diff[signature].len() as usize)
    } else {
        None
    }
}

/// Whether `a` may stand before `b` in a report that is ordered by `diff`.
///
/// Where `diff` has both, the one with more addresses comes first. Where it
/// has neither, the one that is later in the order of a dictionary comes
/// first. Where it has one of them, that one comes first.
pub open spec fn ranks_before(diff: Map<Seq<u8>, Set<i64>>, a: Seq<u8>, b: Seq<u8>) -> bool {
    match (rank_of(diff, a), rank_of(diff, b)) {
        (Some(x), Some(y)) => x >= y,
        (Some(_), None) => true,
        (None, Some(_)) => false,
        (None, None) => lex_le(b, a),
    }
}

/// Every signature of the list may stand before all that follow it.
pub open spec fn in_report_order(list: Seq<Seq<u8>>, diff: Map<Seq<u8>, Set<i64>>) -> bool {
    forall|i: int, j: int|
        0 <= i < j < list.len() ==> ranks_before(diff, #[trigger] list[i], #[trigger] list[j])
}

/// Each signature with its count in `final_diff`.
fn rank_backtraces(backtraces: &[Vec<u8>], final_diff: &AllocationMap) -> (r: Vec<Ranked>)
    ensures
        signatures_of(r@) == byte_views(backtraces@),
        forall|i: int|
            0 <= i < r@.len() ==> (#[trigger] r@[i]).count == rank_of(
                final_diff@,
                r@[i].signature@,
            ),
{
    let mut items: Vec<Ranked> = Vec::new();
    let mut i: usize = 0;
    while i < backtraces.len()
        invariant
            i <= backtraces@.len(),
            items@.len() == i,
            forall|j: int| 0 <= j < i ==> (#[trigger] items@[j]).signature@ == backtraces@[j]@,
            forall|j: int|
                0 <= j < i ==> (#[trigger] items@[j]).count == rank_of(
                    final_diff@,
                    items@[j].signature@,
                ),
        decreases backtraces@.len() - i,
    {
        let signature = backtraces[i].as_slice();
        let count = final_diff.count(signature);
        items.push(Ranked { count, signature: copy_bytes(signature) });
        i += 1;
    }
    assert(signatures_of(items@) =~= byte_views(backtraces@));
    items
}

/// The signatures in the order of a report: those that `final_diff` has come
/// first, the one with more addresses first, and the others follow in
/// descending order of their text. Signatures that tie keep no particular
/// order.
pub fn sort_backtraces(backtraces: &[Vec<u8>], final_diff: &AllocationMap) -> (r: Vec<Vec<u8>>)
    ensures
        byte_views(r@).to_multiset() == byte_views(backtraces@).to_multiset(),
        in_report_order(byte_views(r@), final_diff@),
{
    let items = rank_backtraces(backtraces, final_diff);
    let ordered = sort_ranked(items);
    proof {
        lemma_same_signatures(ordered@, items@);
        assert forall|i: int| 0 <= i < ordered@.len() implies (#[trigger] ordered@[i]).count
            == rank_of(final_diff@, ordered@[i].signature@) by {
            let item = ordered@[i];
            vstd::seq_lib::to_multiset_contains(ordered@, item);
            vstd::seq_lib::to_multiset_contains(items@, item);
            assert(ordered@.contains(item));
            let k = items@.index_of(item);
            assert(0 <= k < items@.len() && items@[k] == item);
        }
    }
    let mut out: Vec<Vec<u8>> = Vec::new();
    let mut i: usize = 0;
    while i < ordered.len()
        invariant
            i <= ordered@.len(),
            out@.len() == i,
            forall|j: int| 0 <= j < i ==> (#[trigger] out@[j])@ == ordered@[j].signature@,
        decreases ordered@.len() - i,
    {
        out.push(copy_bytes(ordered[i].signature.as_slice()));
        i += 1;
    }
    proof {
        assert(byte_views(out@) =~= signatures_of(ordered@));
        assert forall|i: int, j: int| 0 <= i < j < out@.len() implies ranks_before(
            final_diff@,
            #[trigger] byte_views(out@)[i],
            #[trigger] byte_views(out@)[j],
        ) by {
            assert(stands_before(ordered@[i], ordered@[j]));
        }
    }
    out
}

/// One column of a row: the count, if there is one, and a comma.
pub open spec fn cell_text(count: Option<usize>) -> Seq<u8> {
    match count {
        Some(n) => decimal_digits(n as nat).push(COMMA),
        None => seq![COMMA],
    }
}

/// The columns of a row, one for each comparison.
pub open spec fn cells_text(counts: Seq<Option<usize>>) -> Seq<u8>
    decreases counts.len(),
{
    if counts.len() == 0 {
        Seq::empty()
    } else {
        cells_text(counts.drop_last()) + cell_text(counts.last())
    }
}

/// A row of a report: for each comparison the count of the signature in it,
/// or nothing where the comparison does not have it, each followed by a
/// comma, and then the signature.
pub open spec fn row_text(counts: Seq<Option<usize>>, signature: Seq<u8>) -> Seq<u8> {
    cells_text(counts) + signature
}

/// Writes the row of a signature.
pub fn format_row(signature: &[u8], counts: &[Option<usize>]) -> (r: Vec<u8>)
    ensures
        r@ == row_text(counts@, signature@),
{
    let mut line: Vec<u8> = Vec::new();
    let mut i: usize = 0;
    assert(line@ =~= cells_text(counts@.take(0)));
    while i < counts.len()
        invariant
            i <= counts@.len(),
            line@ == cells_text(counts@.take(i as int)),
        decreases counts@.len() - i,
    {
        let ghost before = line@;
        match counts[i] {
            Some(n) => {
                append_natural(&mut line, n as u64);
            },
            None => {},
        }
        line.push(COMMA);
        proof {
            assert(counts@.take(i + 1).drop_last() =~= counts@.take(i as int));
            assert(counts@.take(i + 1).last() == counts@[i as int]);
            assert(line@ =~= before + cell_text(counts@[i as int]));
        }
        i += 1;
    }
    assert(counts@.take(i as int) =~= counts@);
    append_bytes(&mut line, signature);
    line
}

/// The rows of a report, one for each signature in the order given.
pub fn allocation_rows(backtraces: &[Vec<u8>], allocation_diffs: &[AllocationMap]) -> (r: Vec<
    Vec<u8>,
>)
    ensures
        r@.len() == backtraces@.len(),
        forall|i: int|
            0 <= i < r@.len() ==> (#[trigger] r@[i])@ == row_text(
                trend(map_views(allocation_diffs@), backtraces@[i]@),
                backtraces@[i]@,
            ),
{
    let mut rows: Vec<Vec<u8>> = Vec::new();
    let mut i: usize = 0;
    while i < backtraces.len()
        invariant
            i <= backtraces@.len(),
            rows@.len() == i,
            forall|j: int|
                0 <= j < i ==> (#[trigger] rows@[j])@ == row_text(
                    trend(map_views(allocation_diffs@), backtraces@[j]@),
                    backtraces@[j]@,
                ),
        decreases backtraces@.len() - i,
    {
        let signature = backtraces[i].as_slice();
        let counts = trend_of(signature, allocation_diffs);
        rows.push(format_row(signature, counts.as_slice()));
        i += 1;
    }
    rows
}

/// A signature with the addresses recorded under it.
#[derive(Clone, Debug, PartialEq, Eq)]
pub struct AddressRow {
    pub signature: Vec<u8>,
    pub addresses: Vec<i64>,
}

/// The signatures of a list of rows.
pub open spec fn row_signatures(rows: Seq<AddressRow>) -> Seq<Seq<u8>> {
    Seq::new(rows.len(), |i: int| rows[i].signature@)
}

/// The addresses that `map` holds under `signature`, smallest first: none
/// where `map` does not have the signature.
pub open spec fn addresses_under(map: Map<Seq<u8>, Set<i64>>, signature: Seq<u8>) -> Seq<i64> {
    if map.contains_key(signature) {
        ascending(map[signature])
    } else {
        Seq::empty()
    }
}

/// The row lists the addresses that `map` holds under the row's signature.
pub open spec fn lists_addresses(row: AddressRow, map: Map<Seq<u8>, Set<i64>>) -> bool {
    row.addresses@ == addresses_under(map, row.signature@)
}

/// For each of the signatures, in the order given, the addresses that `map`
/// holds under it.
pub fn rows_for(signatures: &[Vec<u8>], map: &AllocationMap) -> (r: Vec<AddressRow>)
    ensures
        row_signatures(r@) == byte_views(signatures@),
        forall|i: int| 0 <= i < r@.len() ==> lists_addresses(#[trigger] r@[i], map@),
{
    let mut rows: Vec<AddressRow> = Vec::new();
    let mut i: usize = 0;
    while i < signatures.len()
        invariant
            i <= signatures@.len(),
            rows@.len() == i,
            forall|j: int| 0 <= j < i ==> (#[trigger] rows@[j]).signature@ == signatures@[j]@,
            forall|j: int| 0 <= j < i ==> lists_addresses(#[trigger] rows@[j], map@),
        decreases signatures@.len() - i,
    {
        let signature = signatures[i].as_slice();
        let addresses = match map.get(signature) {
            Some(set) => address_list(set),
            None => Vec::new(),
        };
        rows.push(AddressRow { signature: copy_bytes(signature), addresses });
        i += 1;
    }
    assert(row_signatures(rows@) =~= byte_views(signatures@));
    rows
}

/// The contents of a map, one row for each signature in the order of its
/// first insertion.
pub fn address_rows(map: &AllocationMap) -> (r: Vec<AddressRow>)
    ensures
        row_signatures(r@) == map.keys(),
        forall|i: int| 0 <= i < r@.len() ==> lists_addresses(#[trigger] r@[i], map@),
{
    let signatures = map.signatures();
    assert(byte_views(signatures@) =~= map.keys());
    rows_for(signatures.as_slice(), map)
}

/// The signatures among `keys` under which `map` holds more than one address,
/// in their order.
pub open spec fn frequent_keys(keys: Seq<Seq<u8>>, map: Map<Seq<u8>, Set<i64>>) -> Seq<Seq<u8>>
    decreases keys.len(),
{
    if keys.len() == 0 {
        Seq::empty()
    } else {
        let earlier = frequent_keys(keys.drop_last(), map);
        if map.contains_key(keys.last()) && map[keys.last()].len() > 1 {
            earlier.push(keys.last())
        } else {
            earlier
        }
    }
}

/// The signatures under which `map` holds more than one address, the one
/// with more addresses first.
pub fn frequent_signatures(map: &AllocationMap) -> (r: Vec<Vec<u8>>)
    ensures
        byte_views(r@).to_multiset() == frequent_keys(map.keys(), map@).to_multiset(),
        in_report_order(byte_views(r@), map@),
{
    let count = map.len();
    let mut frequent: Vec<Vec<u8>> = Vec::new();
    let mut i: usize = 0;
    assert(byte_views(frequent@) =~= frequent_keys(map.keys().take(0), map@));
    while i < count
        invariant
            i <= count,
            count == map.keys().len(),
            map.well_formed(),
            byte_views(frequent@) == frequent_keys(map.keys().take(i as int), map@),
        decreases count - i,
    {
        let signature = map.signature_at(i);
        let ghost before = byte_views(frequent@);
        proof {
            assert(map.keys().take(i + 1).drop_last() =~= map.keys().take(i as int));
            assert(map.keys().take(i + 1).last() == signature@);
        }
        if map.addresses_at(i).len() > 1 {
            frequent.push(copy_bytes(signature.as_slice()));
            assert(byte_views(frequent@) =~= before.push(signature@));
        }
        i += 1;
    }
    assert(map.keys().take(i as int) =~= map.keys());
    sort_backtraces(frequent.as_slice(), map)
}

/// The allocations that never went away: the signatures under which `map`
/// holds more than one address, the one with more addresses first, each with
/// its addresses.
pub fn always_present_rows(map: &AllocationMap) -> (r: Vec<AddressRow>)
    ensures
        row_signatures(r@).to_multiset() == frequent_keys(map.keys(), map@).to_multiset(),
        in_report_order(row_signatures(r@), map@),
        forall|i: int| 0 <= i < r@.len() ==> lists_addresses(#[trigger] r@[i], map@),
{
    let ordered = frequent_signatures(map);
    rows_for(ordered.as_slice(), map)
}

/// The bytes of ` => {`, which stand between the count and the addresses.
pub open spec fn arrow() -> Seq<u8> {
    " => {".spec_bytes()
}

/// A list of addresses in decimal, with a comma and a blank between two.
pub open spec fn addresses_text(addresses: Seq<i64>) -> Seq<u8>
    decreases addresses.len(),
{
    if addresses.len() == 0 {
        Seq::empty()
    } else if addresses.len() == 1 {
        decimal(addresses[0] as int)
    } else {
        addresses_text(addresses.drop_last()) + seq![COMMA, SPACE] + decimal(
            addresses.last() as int,
        )
    }
}

/// A row that lists addresses: the signature, a comma, the number of
/// addresses, ` => ` and the addresses in braces.
pub open spec fn address_row_text(signature: Seq<u8>, addresses: Seq<i64>) -> Seq<u8> {
    signature + seq![COMMA] + decimal_digits(addresses.len()) + arrow() + addresses_text(addresses)
        + seq![CLOSING_BRACE]
}

/// Writes a row that lists addresses.
pub fn format_address_row(row: &AddressRow) -> (r: Vec<u8>)
    ensures
        r@ == address_row_text(row.signature@, row.addresses@),
{
    let mut line: Vec<u8> = Vec::new();
    append_bytes(&mut line, row.signature.as_slice());
    line.push(COMMA);
    append_natural(&mut line, row.addresses.len() as u64);
    append_bytes(&mut line, " => {".as_bytes());
    let ghost head = line@;
    assert(head =~= row.signature@ + seq![COMMA] + decimal_digits(row.addresses@.len()) + arrow());
    let mut i: usize = 0;
    assert(line@ =~= head + addresses_text(row.addresses@.take(0)));
    while i < row.addresses.len()
        invariant
            i <= row.addresses@.len(),
            line@ == head + addresses_text(row.addresses@.take(i as int)),
        decreases row.addresses@.len() - i,
    {
        let ghost before = line@;
        if i > 0 {
            line.push(COMMA);
            line.push(SPACE);
        }
        append_integer(&mut line, row.addresses[i]);
        proof {
            let list = row.addresses@;
            assert(list.take(i + 1).drop_last() =~= list.take(i as int));
            assert(list.take(i + 1).last() == list[i as int]);
            if i == 0 {
                assert(list.take(1)[0] == list[0]);
                assert(addresses_text(list.take(0)) =~= Seq::<u8>::empty());
                assert(line@ =~= head + addresses_text(list.take(1)));
            } else {
                assert(line@ =~= head + (addresses_text(list.take(i as int)) + seq![COMMA, SPACE]
                    + decimal(list[i as int] as int)));
            }
        }
        i += 1;
    }
    assert(row.addresses@.take(i as int) =~= row.addresses@);
    line.push(CLOSING_BRACE);
    assert(line@ =~= address_row_text(row.signature@, row.addresses@));
    line
}

/// The row of a signature that some comparison does not have: the
/// signature, a comma, and the largest count that the signature has in the
/// comparisons.
pub open spec fn missing_row_text(signature: Seq<u8>, last_count: usize) -> Seq<u8> {
    signature + seq![COMMA] + decimal_digits(last_count as nat)
}

/// Writes the row of a signature that some comparison does not have.
pub fn format_missing_key(key: &MissingKey) -> (r: Vec<u8>)
    ensures
        r@ == missing_row_text(key.signature@, key.last_count),
{
    let mut line: Vec<u8> = Vec::new();
    append_bytes(&mut line, key.signature.as_slice());
    line.push(COMMA);
    append_natural(&mut line, key.last_count as u64);
    assert(line@ =~= missing_row_text(key.signature@, key.last_count));
    line
}

} // verus!
