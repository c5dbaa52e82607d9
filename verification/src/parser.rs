//! The text of a snapshot: its lines, and the allocation that a line
//! records.

use crate::hex::{hex_value, parse_hex};
use crate::signatures::copy_bytes;
use crate::snapshot::AllocationMap;
use crate::text::{
    contains_seq, find, first_index_of, lemma_first_index_of, lemma_run_end, run_end, scan_to,
    CARRIAGE_RETURN, NEWLINE, SPACE,
};
use vstd::prelude::*;
use vstd::string::StringSliceAdditionalSpecFns;

verus! {

/// The number of bytes between the address and the signature: `" by "`.
pub const SEPARATOR_LEN: usize = 4;

/// The bytes of `BackTrace`, which every allocation record holds.
pub open spec fn backtrace_marker() -> Seq<u8> {
    "BackTrace".spec_bytes()
}

/// The bytes of `at` and a space, which stand in front of the address.
pub open spec fn at_keyword() -> Seq<u8> {
    "at ".spec_bytes()
}

/// The keyword in front of the address has three bytes.
pub proof fn lemma_at_keyword()
    ensures
        at_keyword().len() == 3,
{
    reveal_strlit("at ");
    vstd::string::is_ascii_spec_bytes("at ");
    assert(vstd::string::is_ascii("at ")) by {
        assert forall|i: int| 0 <= i < "at "@.len() implies #[trigger] "at "@[i] as u32 <= 127 by {}
    }
}

/// The signature and the address that one line of a snapshot records, if it
/// records any.
///
/// A record holds `BackTrace` somewhere. Its address is the token that
/// follows the first `at `, up to the next space or the end of the line, and
/// is written in base 16. The four bytes after the address are the
/// separator, whatever they hold, and what follows them, which may not be
/// empty, is the signature.
pub open spec fn line_record(line: Seq<u8>) -> Option<(Seq<u8>, i64)> {
    if !contains_seq(line, backtrace_marker()) || !contains_seq(line, at_keyword()) {
        None
    } else {
        let start = first_index_of(line, at_keyword()) + 3;
        let end = run_end(line, start, SPACE);
        if line.len() - end <= SEPARATOR_LEN {
            None
        } else {
            match hex_value(line.subrange(start, end)) {
                None => None,
                Some(address) => Some((line.skip(end + SEPARATOR_LEN), address)),
            }
        }
    }
}

/// Where the signature of a record starts in its line, with the record's
/// address.
pub fn locate_record(line: &[u8]) -> (r: Option<(usize, i64)>)
    ensures
        match r {
            Some((at, address)) => at < line@.len() && line_record(line@) == Some(
                (line@.skip(at as int), address),
            ),
            None => line_record(line@) is None,
        },
{
    if find(line, "BackTrace".as_bytes()).is_none() {
        return None;
    }
    let at_pos = match find(line, "at ".as_bytes()) {
        None => {
            return None;
        },
        Some(p) => p,
    };
    proof {
        lemma_at_keyword();
        assert(at_pos + 3 <= line@.len());
        lemma_first_index_of(line@, at_keyword(), at_pos as int);
        lemma_run_end(line@, at_pos + 3, SPACE);
    }
    let len: usize = line.len();
    let start: usize = at_pos + 3;
    let end: usize = scan_to(line, start, SPACE);
    if len - end <= SEPARATOR_LEN {
        return None;
    }
    match parse_hex(&line[start..end]) {
        None => None,
        Some(address) => Some((end + SEPARATOR_LEN, address)),
    }
}

/// Reads one line of a snapshot.
pub fn parse_line(line: &[u8]) -> (r: Option<(Vec<u8>, i64)>)
    ensures
        match r {
            Some((signature, address)) => line_record(line@) == Some((signature@, address)),
            None => line_record(line@) is None,
        },
{
    match locate_record(line) {
        None => None,
        Some((at, address)) => {
            let signature = copy_bytes(&line[at..line.len()]);
            assert(line@.subrange(at as int, line@.len() as int) =~= line@.skip(at as int));
            Some((signature, address))
        },
    }
}

/// A line without the carriage return that may end it.
pub open spec fn strip_cr(line: Seq<u8>) -> Seq<u8> {
    if line.len() > 0 && line.last() == CARRIAGE_RETURN {
        line.drop_last()
    } else {
        line
    }
}

/// The lines of `content` from position `pos` on. A line ends at a newline,
/// which is not part of it; a carriage return in front of that newline is
/// dropped too. What follows the last newline is a line if it is not empty.
pub open spec fn lines_from(content: Seq<u8>, pos: int) -> Seq<Seq<u8>>
    decreases content.len() - pos,
    via lines_from_decreases
{
    if pos < 0 || pos >= content.len() {
        Seq::empty()
    } else {
        let end = run_end(content, pos, NEWLINE);
        if end >= content.len() {
            seq![content.skip(pos)]
        } else {
            seq![strip_cr(content.subrange(pos, end))] + lines_from(content, end + 1)
        }
    }
}

#[via_fn]
proof fn lines_from_decreases(content: Seq<u8>, pos: int) {
    if 0 <= pos < content.len() {
        lemma_run_end(content, pos, NEWLINE);
    }
}

/// The lines of a snapshot file.
pub open spec fn split_lines(content: Seq<u8>) -> Seq<Seq<u8>> {
    lines_from(content, 0)
}

/// Some line among `lines` records `address` under `signature`.
pub open spec fn records(lines: Seq<Seq<u8>>, signature: Seq<u8>, address: i64) -> bool {
    exists|i: int|
        0 <= i < lines.len() && line_record(#[trigger] lines[i]) == Some((signature, address))
}

/// The snapshot that a list of lines describes: under each signature that
/// some line records, the addresses recorded under it.
pub open spec fn snapshot_of(lines: Seq<Seq<u8>>) -> Map<Seq<u8>, Set<i64>> {
    Map::new(
        |k: Seq<u8>| exists|a: i64| records(lines, k, a),
        |k: Seq<u8>| Set::new(|a: i64| records(lines, k, a)),
    )
}

/// The signatures that a list of lines records, each once, in the order in
/// which the lines first name them.
pub open spec fn signature_order(lines: Seq<Seq<u8>>) -> Seq<Seq<u8>>
    decreases lines.len(),
{
    if lines.len() == 0 {
        Seq::empty()
    } else {
        let earlier = signature_order(lines.drop_last());
        match line_record(lines.last()) {
            Some((k, _)) => if earlier.contains(k) {
                earlier
            } else {
                earlier.push(k)
            },
            None => earlier,
        }
    }
}

/// What one more line adds to a snapshot.
pub proof fn lemma_snapshot_push(lines: Seq<Seq<u8>>, line: Seq<u8>)
    ensures
        snapshot_of(lines.push(line)) == match line_record(line) {
            None => snapshot_of(lines),
            Some((k, a)) => snapshot_of(lines).insert(
                k,
                (if snapshot_of(lines).contains_key(k) {
                    snapshot_of(lines)[k]
                } else {
                    Set::<i64>::empty()
                }).insert(a),
            ),
        },
{
    let more = lines.push(line);
    let n = lines.len() as int;
    assert forall|k: Seq<u8>, a: i64| records(more, k, a) <==> (records(lines, k, a) || line_record(
        line,
    ) == Some((k, a))) by {
        if records(more, k, a) {
            let i = choose|i: int|
                0 <= i < more.len() && line_record(#[trigger] more[i]) == Some((k, a));
            if i < n {
                assert(lines[i] == more[i]);
            }
        }
        if records(lines, k, a) {
            let i = choose|i: int|
                0 <= i < lines.len() && line_record(#[trigger] lines[i]) == Some((k, a));
            assert(more[i] == lines[i]);
        }
        if line_record(line) == Some((k, a)) {
            assert(more[n] == line);
        }
    }
    let before = snapshot_of(lines);
    let after = snapshot_of(more);
    match line_record(line) {
        None => {
            assert forall|k: Seq<u8>| after.contains_key(k) implies #[trigger] after[k]
                =~= before[k] by {}
            assert(after =~= before);
        },
        Some((k0, a0)) => {
            let old_set = if before.contains_key(k0) {
                before[k0]
            } else {
                Set::<i64>::empty()
            };
            let target = before.insert(k0, old_set.insert(a0));
            assert(records(more, k0, a0));
            assert forall|k: Seq<u8>| after.contains_key(k) <==> target.contains_key(k) by {
                if after.contains_key(k) {
                    let a = choose|a: i64| records(more, k, a);
                    assert(records(more, k, a));
                    if k != k0 {
                        assert(records(lines, k, a));
                    }
                }
                if target.contains_key(k) && k != k0 {
                    let a = choose|a: i64| records(lines, k, a);
                    assert(records(more, k, a));
                }
            }
            assert(after.dom() =~= target.dom());
            assert forall|k: Seq<u8>| after.contains_key(k) implies #[trigger] after[k]
                =~= target[k] by {
                if k == k0 {
                    assert forall|a: i64| after[k].contains(a) <==> target[k].contains(a) by {
                        if !before.contains_key(k0) {
                            assert(!records(lines, k0, a));
                        }
                    }
                }
            }
            assert(after =~= target);
        },
    }
}

/// A line that holds no `at ` records nothing.
pub proof fn lemma_line_without_keyword(line: Seq<u8>)
    requires
        !contains_seq(line, at_keyword()),
    ensures
        line_record(line) is None,
{
}

/// A line whose address is not a number in base 16 records nothing.
pub proof fn lemma_line_with_bad_address(line: Seq<u8>)
    requires
        contains_seq(line, at_keyword()),
        hex_value(
            line.subrange(
                first_index_of(line, at_keyword()) + 3,
                run_end(line, first_index_of(line, at_keyword()) + 3, SPACE),
            ),
        ) is None,
    ensures
        line_record(line) is None,
{
}

/// A line that records nothing changes nothing, wherever it stands among
/// the other lines.
pub proof fn lemma_skipped_line(before: Seq<Seq<u8>>, line: Seq<u8>, after: Seq<Seq<u8>>)
    requires
        line_record(line) is None,
    ensures
        snapshot_of(before.push(line) + after) == snapshot_of(before + after),
{
    let with = before.push(line) + after;
    let without = before + after;
    let n = before.len() as int;
    assert forall|k: Seq<u8>, a: i64| records(with, k, a) <==> records(without, k, a) by {
        if records(with, k, a) {
            let i = choose|i: int|
                0 <= i < with.len() && line_record(#[trigger] with[i]) == Some((k, a));
            if i < n {
                assert(without[i] == with[i]);
            } else {
                assert(i != n);
                assert(without[i - 1] == with[i]);
            }
        }
        if records(without, k, a) {
            let i = choose|i: int|
                0 <= i < without.len() && line_record(#[trigger] without[i]) == Some((k, a));
            if i < n {
                assert(with[i] == without[i]);
            } else {
                assert(with[i + 1] == without[i]);
            }
        }
    }
    assert forall|k: Seq<u8>| snapshot_of(with).contains_key(k) <==> snapshot_of(
        without,
    ).contains_key(k) by {
        if snapshot_of(with).contains_key(k) {
            let a = choose|a: i64| records(with, k, a);
            assert(records(without, k, a));
        }
        if snapshot_of(without).contains_key(k) {
            let a = choose|a: i64| records(without, k, a);
            assert(records(with, k, a));
        }
    }
    assert(snapshot_of(with).dom() =~= snapshot_of(without).dom());
    assert forall|k: Seq<u8>| snapshot_of(with).contains_key(k) implies #[trigger] snapshot_of(
        with,
    )[k] =~= snapshot_of(without)[k] by {}
    assert(snapshot_of(with) =~= snapshot_of(without));
}

/// The signatures in `signature_order` are those that `snapshot_of` has.
pub proof fn lemma_signature_order(lines: Seq<Seq<u8>>)
    ensures
        signature_order(lines).no_duplicates(),
        signature_order(lines).to_set() == snapshot_of(lines).dom(),
    decreases lines.len(),
{
    if lines.len() == 0 {
        assert(snapshot_of(lines).dom() =~= Set::<Seq<u8>>::empty());
        assert(signature_order(lines).to_set() =~= Set::<Seq<u8>>::empty());
    } else {
        let earlier = lines.drop_last();
        lemma_signature_order(earlier);
        lemma_snapshot_push(earlier, lines.last());
        assert(earlier.push(lines.last()) =~= lines);
        let order = signature_order(earlier);
        match line_record(lines.last()) {
            Some((k, _)) => {
                if !order.contains(k) {
                    assert(order.push(k).to_set() =~= order.to_set().insert(k)) by {
                        order.lemma_push_to_set_commute(k);
                    }
                    assert(snapshot_of(lines).dom() =~= snapshot_of(earlier).dom().insert(k));
                } else {
                    assert(order.to_set().contains(k));
                    assert(snapshot_of(lines).dom() =~= snapshot_of(earlier).dom());
                }
            },
            None => {},
        }
    }
}

/// Reads a snapshot from the text of its file.
///
/// Lines that record no allocation are passed over.
pub fn parse_umdh_file(content: &[u8]) -> (r: AllocationMap)
    ensures
        r@ == snapshot_of(split_lines(content@)),
        r.keys() == signature_order(split_lines(content@)),
        r.well_formed(),
{
    let mut map = AllocationMap::new();
    let len: usize = content.len();
    let mut pos: usize = 0;
    let ghost mut done: Seq<Seq<u8>> = Seq::empty();
    proof {
        assert(snapshot_of(done) =~= Map::<Seq<u8>, Set<i64>>::empty());
        assert(done + lines_from(content@, 0) =~= lines_from(content@, 0));
    }
    while pos < len
        invariant
            len == content@.len(),
            pos <= len,
            split_lines(content@) == done + lines_from(content@, pos as int),
            map@ == snapshot_of(done),
            map.keys() == signature_order(done),
            map.well_formed(),
        decreases len - pos,
    {
        let end: usize = scan_to(content, pos, NEWLINE);
        let line_end: usize = if end < len && pos < end && content[end - 1] == CARRIAGE_RETURN {
            end - 1
        } else {
            end
        };
        let line = &content[pos..line_end];
        let ghost rest = if end < len {
            lines_from(content@, end + 1)
        } else {
            Seq::<Seq<u8>>::empty()
        };
        proof {
            lemma_run_end(content@, pos as int, NEWLINE);
            if end < len {
                let full = content@.subrange(pos as int, end as int);
                if pos < end && content@[end - 1] == CARRIAGE_RETURN {
                    assert(full.last() == content@[end - 1]);
                    assert(full.drop_last() =~= line@);
                } else {
                    assert(full =~= line@);
                    if full.len() > 0 {
                        assert(full.last() == content@[end - 1]);
                    }
                }
                assert(strip_cr(full) == line@);
            } else {
                assert(line@ =~= content@.skip(pos as int));
            }
            assert(lines_from(content@, pos as int) =~= seq![line@] + rest);
            assert(done + (seq![line@] + rest) =~= done.push(line@) + rest);
            lemma_snapshot_push(done, line@);
            assert(done.push(line@).drop_last() =~= done);
        }
        match locate_record(line) {
            Some((at, address)) => {
                proof {
                    lemma_signature_order(done);
                    assert(line@.subrange(at as int, line@.len() as int) =~= line@.skip(
                        at as int,
                    ));
                    assert(map@.dom().contains(line@.skip(at as int)) <==> map.keys().to_set().contains(
                        line@.skip(at as int),
                    ));
                }
                map.insert(&line[at..line.len()], address);
            },
            None => {},
        }
        proof {
            done = done.push(line@);
        }
        pos = if end < len {
            end + 1
        } else {
            end
        };
        proof {
            if end >= len {
                assert(lines_from(content@, pos as int) =~= Seq::<Seq<u8>>::empty());
            }
        }
    }
    proof {
        assert(lines_from(content@, pos as int) =~= Seq::<Seq<u8>>::empty());
        assert(done + Seq::<Seq<u8>>::empty() =~= done);
    }
    map
}

/// Reads each snapshot of a run, in the order given.
pub fn parse_umdh_files(contents: &[Vec<u8>]) -> (r: Vec<AllocationMap>)
    ensures
        r@.len() == contents@.len(),
        forall|i: int|
            0 <= i < r@.len() ==> (#[trigger] r@[i])@ == snapshot_of(split_lines(contents@[i]@))
                && r@[i].keys() == signature_order(split_lines(contents@[i]@))
                && r@[i].well_formed(),
{
    let mut maps: Vec<AllocationMap> = Vec::new();
    let mut i: usize = 0;
    while i < contents.len()
        invariant
            i <= contents@.len(),
            maps@.len() == i,
            forall|j: int|
                0 <= j < i ==> (#[trigger] maps@[j])@ == snapshot_of(split_lines(contents@[j]@))
                    && maps@[j].keys() == signature_order(split_lines(contents@[j]@))
                    && maps@[j].well_formed(),
        decreases contents@.len() - i,
    {
        let map = parse_umdh_file(contents[i].as_slice());
        maps.push(map);
        i += 1;
    }
    maps
}

} // verus!
