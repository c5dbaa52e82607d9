//! Byte strings: searching, ordering, and writing numbers.

use vstd::prelude::*;

verus! {

/// The line feed that ends a line.
pub const NEWLINE: u8 = 0x0a;

/// The carriage return that may stand in front of a line feed.
pub const CARRIAGE_RETURN: u8 = 0x0d;

/// A blank.
pub const SPACE: u8 = 0x20;

/// The plus sign.
pub const PLUS: u8 = 0x2b;

/// A comma.
pub const COMMA: u8 = 0x2c;

/// The minus sign.
pub const MINUS: u8 = 0x2d;

/// The digit 0.
pub const DIGIT_0: u8 = 0x30;

/// The digit 9.
pub const DIGIT_9: u8 = 0x39;

/// The letter A.
pub const UPPER_A: u8 = 0x41;

/// The letter F.
pub const UPPER_F: u8 = 0x46;

/// The letter a.
pub const LOWER_A: u8 = 0x61;

/// The letter f.
pub const LOWER_F: u8 = 0x66;

/// A closing brace.
pub const CLOSING_BRACE: u8 = 0x7d;

/// `needle` occurs in `hay` starting at index `i`.
pub open spec fn occurs_at(hay: Seq<u8>, needle: Seq<u8>, i: int) -> bool {
    &&& 0 <= i
    &&& i + needle.len() <= hay.len()
    &&& hay.subrange(i, i + needle.len()) == needle
}

/// `needle` occurs somewhere in `hay`.
pub open spec fn contains_seq(hay: Seq<u8>, needle: Seq<u8>) -> bool {
    exists|i: int| occurs_at(hay, needle, i)
}

/// `i` is the leftmost position at which `needle` occurs in `hay`.
pub open spec fn is_first_occurrence(hay: Seq<u8>, needle: Seq<u8>, i: int) -> bool {
    &&& occurs_at(hay, needle, i)
    &&& forall|j: int| 0 <= j < i ==> !occurs_at(hay, needle, j)
}

/// Whether `needle` occurs in `hay` at position `at`, compared byte by byte.
pub fn matches_at(hay: &[u8], needle: &[u8], at: usize) -> (r: bool)
    ensures
        r == occurs_at(hay@, needle@, at as int),
{
    if needle.len() > hay.len() || at > hay.len() - needle.len() {
        return false;
    }
    let mut k: usize = 0;
    while k < needle.len()
        invariant
            k <= needle.len(),
            at + needle.len() <= hay.len(),
            forall|j: int| 0 <= j < k ==> hay@[at + j] == needle@[j],
        decreases needle.len() - k,
    {
        if hay[at + k] != needle[k] {
            proof {
                let sub = hay@.subrange(at as int, at + needle@.len());
                assert(sub[k as int] == hay@[at + k]);
            }
            return false;
        }
        k += 1;
    }
    assert(hay@.subrange(at as int, at + needle@.len()) =~= needle@);
    true
}

/// Position of the leftmost occurrence of `needle` in `hay`, if there is one.
pub fn find(hay: &[u8], needle: &[u8]) -> (r: Option<usize>)
    ensures
        match r {
            Some(i) => is_first_occurrence(hay@, needle@, i as int),
            None => !contains_seq(hay@, needle@),
        },
{
    if needle.len() > hay.len() {
        return None;
    }
    let last: usize = hay.len() - needle.len();
    let mut i: usize = 0;
    loop
        invariant
            last == hay.len() - needle.len(),
            i <= last,
            forall|j: int| 0 <= j < i ==> !occurs_at(hay@, needle@, j),
        decreases last - i,
    {
        if matches_at(hay, needle, i) {
            return Some(i);
        }
        if i == last {
            return None;
        }
        i += 1;
    }
}

/// The position of the leftmost occurrence of `needle` in `hay`. It means
/// nothing where `needle` does not occur.
pub open spec fn first_index_of(hay: Seq<u8>, needle: Seq<u8>) -> int {
    choose|i: int| is_first_occurrence(hay, needle, i)
}

/// There is only one leftmost occurrence.
pub proof fn lemma_first_index_of(hay: Seq<u8>, needle: Seq<u8>, i: int)
    requires
        is_first_occurrence(hay, needle, i),
    ensures
        first_index_of(hay, needle) == i,
        contains_seq(hay, needle),
{
    let c = first_index_of(hay, needle);
    assert(is_first_occurrence(hay, needle, c));
    if c < i {
        assert(!occurs_at(hay, needle, c));
    } else if i < c {
        assert(!occurs_at(hay, needle, i));
    }
}

/// The first position at or after `start` that holds the byte `stop`, or the
/// length of `s` where no such position exists.
pub open spec fn run_end(s: Seq<u8>, start: int, stop: u8) -> int
    decreases s.len() - start,
{
    if start >= s.len() || s[start] == stop {
        start
    } else {
        run_end(s, start + 1, stop)
    }
}

/// `run_end` is the least position from `start` on that ends the run.
pub proof fn lemma_run_end(s: Seq<u8>, start: int, stop: u8)
    requires
        0 <= start <= s.len(),
    ensures
        start <= run_end(s, start, stop) <= s.len(),
        forall|j: int| start <= j < run_end(s, start, stop) ==> s[j] != stop,
        run_end(s, start, stop) < s.len() ==> s[run_end(s, start, stop)] == stop,
    decreases s.len() - start,
{
    if start < s.len() && s[start] != stop {
        lemma_run_end(s, start + 1, stop);
    }
}

/// Scans `s` from `start` for the byte `stop`.
pub fn scan_to(s: &[u8], start: usize, stop: u8) -> (r: usize)
    requires
        start <= s.len(),
    ensures
        r == run_end(s@, start as int, stop),
        start <= r <= s.len(),
{
    let mut end: usize = start;
    while end < s.len() && s[end] != stop
        invariant
            start <= end <= s.len(),
            run_end(s@, start as int, stop) == run_end(s@, end as int, stop),
        decreases s.len() - end,
    {
        end += 1;
    }
    end
}

/// Whether `a` stands at or before `b` in the order of a dictionary, byte by
/// byte: at the first position where they differ `a` has the smaller byte,
/// or `a` ends there.
pub open spec fn lex_le(a: Seq<u8>, b: Seq<u8>) -> bool
    decreases a.len(),
{
    if a.len() == 0 {
        true
    } else if b.len() == 0 {
        false
    } else if a[0] != b[0] {
        a[0] < b[0]
    } else {
        lex_le(a.skip(1), b.skip(1))
    }
}

/// Of two byte strings one stands at or before the other.
pub proof fn lemma_lex_le_total(a: Seq<u8>, b: Seq<u8>)
    ensures
        lex_le(a, b) || lex_le(b, a),
    decreases a.len(),
{
    if a.len() > 0 && b.len() > 0 && a[0] == b[0] {
        lemma_lex_le_total(a.skip(1), b.skip(1));
    }
}

/// The order of `lex_le` is transitive.
pub proof fn lemma_lex_le_transitive(a: Seq<u8>, b: Seq<u8>, c: Seq<u8>)
    requires
        lex_le(a, b),
        lex_le(b, c),
    ensures
        lex_le(a, c),
    decreases a.len(),
{
    if a.len() > 0 && b.len() > 0 && c.len() > 0 && a[0] == b[0] && b[0] == c[0] {
        lemma_lex_le_transitive(a.skip(1), b.skip(1), c.skip(1));
    }
}

/// Whether `a` stands at or before `b` in the order of a dictionary.
pub fn lex_le_bytes(a: &[u8], b: &[u8]) -> (r: bool)
    ensures
        r == lex_le(a@, b@),
{
    let mut i: usize = 0;
    proof {
        assert(a@.skip(0) =~= a@);
        assert(b@.skip(0) =~= b@);
    }
    while i < a.len() && i < b.len()
        invariant
            i <= a@.len(),
            i <= b@.len(),
            lex_le(a@, b@) == lex_le(a@.skip(i as int), b@.skip(i as int)),
        decreases a@.len() - i,
    {
        proof {
            assert(a@.skip(i as int)[0] == a@[i as int]);
            assert(b@.skip(i as int)[0] == b@[i as int]);
            assert(a@.skip(i as int).skip(1) =~= a@.skip(i + 1));
            assert(b@.skip(i as int).skip(1) =~= b@.skip(i + 1));
        }
        if a[i] != b[i] {
            return a[i] < b[i];
        }
        i += 1;
    }
    i == a.len()
}

/// The decimal digits of a natural number, without leading zeros.
pub open spec fn decimal_digits(n: nat) -> Seq<u8>
    decreases n,
{
    if n < 10 {
        seq![(DIGIT_0 + n) as u8]
    } else {
        decimal_digits(n / 10).push((DIGIT_0 + n % 10) as u8)
    }
}

/// An integer written in decimal, with a minus sign where it is negative.
pub open spec fn decimal(n: int) -> Seq<u8> {
    if n < 0 {
        seq![MINUS] + decimal_digits((-n) as nat)
    } else {
        decimal_digits(n as nat)
    }
}

/// Writes a natural number in decimal at the end of `out`.
pub fn append_natural(out: &mut Vec<u8>, n: u64)
    ensures
        final(out)@ == old(out)@ + decimal_digits(n as nat),
{
    let mut low: Vec<u8> = Vec::new();
    let mut m: u64 = n;
    assert(decimal_digits(m as nat) + low@.reverse() =~= decimal_digits(n as nat));
    while m >= 10
        invariant
            decimal_digits(n as nat) == decimal_digits(m as nat) + low@.reverse(),
        decreases m,
    {
        let digit: u8 = DIGIT_0 + (m % 10) as u8;
        proof {
            let longer = low@.push(digit);
            assert(longer.reverse() =~= seq![digit] + low@.reverse());
            assert(decimal_digits((m / 10) as nat) + longer.reverse() =~= decimal_digits(
                (m / 10) as nat,
            ).push(digit) + low@.reverse());
        }
        low.push(digit);
        m = m / 10;
    }
    let ghost start = out@;
    out.push(DIGIT_0 + m as u8);
    let mut k: usize = low.len();
    while k > 0
        invariant
            k <= low@.len(),
            out@ == start + decimal_digits(m as nat) + low@.reverse().take(low@.len() - k),
        decreases k,
    {
        k -= 1;
        out.push(low[k]);
        proof {
            let r = low@.reverse();
            let done = low@.len() - k - 1;
            assert(r[done] == low@[k as int]);
            assert(r.take(done + 1) =~= r.take(done).push(r[done]));
        }
    }
    proof {
        assert(low@.reverse().take(low@.len() as int) =~= low@.reverse());
        assert(out@ =~= start + decimal_digits(n as nat));
    }
}

/// Writes an integer in decimal at the end of `out`.
pub fn append_integer(out: &mut Vec<u8>, n: i64)
    ensures
        final(out)@ == old(out)@ + decimal(n as int),
{
    if n < 0 {
        let ghost start = out@;
        out.push(MINUS);
        let magnitude: u64 = if n == i64::MIN {
            0x8000_0000_0000_0000
        } else {
            (-n) as u64
        };
        append_natural(out, magnitude);
        assert(out@ =~= start + decimal(n as int));
    } else {
        append_natural(out, n as u64);
    }
}

/// Writes the bytes of `tail` at the end of `out`.
pub fn append_bytes(out: &mut Vec<u8>, tail: &[u8])
    ensures
        final(out)@ == old(out)@ + tail@,
{
    let ghost start = out@;
    let mut i: usize = 0;
    while i < tail.len()
        invariant
            i <= tail@.len(),
            out@ == start + tail@.take(i as int),
        decreases tail@.len() - i,
    {
        out.push(tail[i]);
        assert(tail@.take(i + 1) =~= tail@.take(i as int).push(tail@[i as int]));
        i += 1;
    }
    assert(tail@.take(tail@.len() as int) =~= tail@);
}

} // verus!
