//! Byte strings as signatures, and a set of them that keeps their order.

use vstd::prelude::*;

verus! {

/// Whether two byte strings hold the same bytes.
pub fn same_bytes(a: &[u8], b: &[u8]) -> (r: bool)
    ensures
        r == (a@ == b@),
{
    if a.len() != b.len() {
        return false;
    }
    let mut i: usize = 0;
    while i < a.len()
        invariant
            a.len() == b.len(),
            i <= a.len(),
            forall|j: int| 0 <= j < i ==> a@[j] == b@[j],
        decreases a.len() - i,
    {
        if a[i] != b[i] {
            return false;
        }
        i += 1;
    }
    assert(a@ =~= b@);
    true
}

/// An owned copy of a byte string.
pub fn copy_bytes(a: &[u8]) -> (r: Vec<u8>)
    ensures
        r@ == a@,
{
    let mut r: Vec<u8> = Vec::new();
    let mut i: usize = 0;
    while i < a.len()
        invariant
            i <= a.len(),
            r@ == a@.take(i as int),
        decreases a.len() - i,
    {
        r.push(a[i]);
        assert(a@.take(i + 1) =~= a@.take(i as int).push(a@[i as int]));
        i += 1;
    }
    assert(a@.take(a@.len() as int) =~= a@);
    r
}

/// The byte strings that a list of vectors holds.
pub open spec fn byte_views(list: Seq<Vec<u8>>) -> Seq<Seq<u8>> {
    Seq::new(list.len(), |i: int| list[i]@)
}

/// The number that filing starts from.
pub const HASH_SEED: u64 = 0xcbf2_9ce4_8422_2325;

/// The number by which filing multiplies.
pub const HASH_FACTOR: u64 = 0x0000_0100_0000_01b3;

/// The number by which a signature is filed: each byte in turn is mixed
/// into the number, which is then multiplied, modulo 2^64.
pub open spec fn hash_of(s: Seq<u8>) -> u64
    decreases s.len(),
{
    if s.len() == 0 {
        HASH_SEED
    } else {
        (hash_of(s.drop_last()) ^ (s.last() as u64)).wrapping_mul(HASH_FACTOR)
    }
}

/// Computes the number by which a signature is filed.
pub fn hash_bytes(s: &[u8]) -> (r: u64)
    ensures
        r == hash_of(s@),
{
    let mut h: u64 = HASH_SEED;
    let mut i: usize = 0;
    assert(s@.take(0) =~= Seq::<u8>::empty());
    while i < s.len()
        invariant
            i <= s@.len(),
            h == hash_of(s@.take(i as int)),
        decreases s@.len() - i,
    {
        proof {
            assert(s@.take(i + 1).drop_last() =~= s@.take(i as int));
            assert(s@.take(i + 1).last() == s@[i as int]);
        }
        h = (h ^ (s[i] as u64)).wrapping_mul(HASH_FACTOR);
        i += 1;
    }
    assert(s@.take(i as int) =~= s@);
    h
}

/// The shelf on which a signature is filed, of `shelves` shelves.
pub open spec fn shelf_of(s: Seq<u8>, shelves: int) -> int {
    hash_of(s) as int % shelves
}

/// The position `p` is on the shelf.
spec fn filed_on(shelf: Seq<usize>, p: int) -> bool {
    exists|j: int| 0 <= j < shelf.len() && #[trigger] shelf[j] == p
}

/// The shelves hold positions of `keys` only, each on the shelf of its key,
/// and hold every position below `filed`.
spec fn shelves_valid(keys: Seq<Seq<u8>>, shelves: Seq<Vec<usize>>, filed: int) -> bool {
    &&& forall|b: int, j: int|
        0 <= b < shelves.len() && 0 <= j < shelves[b]@.len() ==> (#[trigger] shelves[b]@[j])
            < keys.len() && shelf_of(keys[shelves[b]@[j] as int], shelves.len() as int) == b
    &&& forall|p: int|
        0 <= p < filed ==> filed_on(
            (#[trigger] shelves[shelf_of(keys[p], shelves.len() as int)])@,
            p,
        )
}

/// The shelf of a signature, of `shelves` shelves.
fn shelf(signature: &[u8], shelves: usize) -> (r: usize)
    requires
        shelves > 0,
    ensures
        r == shelf_of(signature@, shelves as int),
        r < shelves,
{
    (hash_bytes(signature) % (shelves as u64)) as usize
}

/// `count` empty shelves.
fn empty_shelves(count: usize) -> (r: Vec<Vec<usize>>)
    ensures
        r@.len() == count,
        forall|b: int| 0 <= b < count ==> (#[trigger] r@[b])@.len() == 0,
{
    let mut shelves: Vec<Vec<usize>> = Vec::new();
    let mut i: usize = 0;
    while i < count
        invariant
            i <= count,
            shelves@.len() == i,
            forall|b: int| 0 <= b < i ==> (#[trigger] shelves@[b])@.len() == 0,
        decreases count - i,
    {
        shelves.push(Vec::new());
        i += 1;
    }
    shelves
}

/// Files the position `p` on the shelf of its key.
fn file_position(keys: &Vec<Vec<u8>>, shelves: &mut Vec<Vec<usize>>, p: usize)
    requires
        p < keys@.len(),
        old(shelves)@.len() > 0,
        shelves_valid(byte_views(keys@), old(shelves)@, p as int),
    ensures
        final(shelves)@.len() == old(shelves)@.len(),
        shelves_valid(byte_views(keys@), final(shelves)@, p + 1),
{
    let ghost before = shelves@;
    let ghost views = byte_views(keys@);
    let count = shelves.len();
    let b = shelf(keys[p].as_slice(), count);
    assert(views[p as int] == keys@[p as int]@);
    shelves[b].push(p);
    proof {
        let after = shelves@;
        assert forall|c: int, j: int| 0 <= c < after.len() && 0 <= j < after[c]@.len() implies (
        #[trigger] after[c]@[j]) < views.len() && shelf_of(
            views[after[c]@[j] as int],
            after.len() as int,
        ) == c by {
            if c == b && j == before[c]@.len() {
            } else {
                assert(after[c]@[j] == before[c]@[j]);
            }
        }
        assert forall|q: int| 0 <= q < p + 1 implies filed_on(
            (#[trigger] after[shelf_of(views[q], after.len() as int)])@,
            q,
        ) by {
            let c = shelf_of(views[q], after.len() as int);
            if q == p {
                assert(after[c]@[before[c]@.len() as int] == p);
            } else {
                assert(filed_on(before[c]@, q));
                let j = choose|j: int| 0 <= j < before[c]@.len() && #[trigger] before[c]@[j] == q;
                assert(after[c]@[j] == q);
            }
        }
    }
}

/// Files all the positions of `keys` on `count` shelves.
fn file_all(keys: &Vec<Vec<u8>>, count: usize) -> (r: Vec<Vec<usize>>)
    requires
        count > 0,
    ensures
        r@.len() == count,
        shelves_valid(byte_views(keys@), r@, keys@.len() as int),
{
    let mut shelves = empty_shelves(count);
    let mut p: usize = 0;
    while p < keys.len()
        invariant
            p <= keys@.len(),
            shelves@.len() == count,
            count > 0,
            shelves_valid(byte_views(keys@), shelves@, p as int),
        decreases keys@.len() - p,
    {
        file_position(keys, &mut shelves, p);
        p += 1;
    }
    shelves
}

/// The position of `signature` among `keys`, looked up on its shelf.
fn look_up(keys: &Vec<Vec<u8>>, shelves: &Vec<Vec<usize>>, signature: &[u8]) -> (r: Option<usize>)
    requires
        shelves_valid(byte_views(keys@), shelves@, keys@.len() as int),
        shelves@.len() > 0 || keys@.len() == 0,
    ensures
        match r {
            Some(p) => p < keys@.len() && byte_views(keys@)[p as int] == signature@,
            None => !byte_views(keys@).contains(signature@),
        },
{
    if shelves.len() == 0 {
        return None;
    }
    let ghost views = byte_views(keys@);
    let b = shelf(signature, shelves.len());
    let found = &shelves[b];
    let mut j: usize = 0;
    while j < found.len()
        invariant
            j <= found@.len(),
            views == byte_views(keys@),
            b < shelves@.len(),
            *found == shelves@[b as int],
            b == shelf_of(signature@, shelves@.len() as int),
            shelves_valid(views, shelves@, keys@.len() as int),
            forall|i: int| 0 <= i < j ==> views[found@[i] as int] != signature@,
        decreases found@.len() - j,
    {
        let p = found[j];
        assert(shelves@[b as int]@[j as int] < views.len());
        if same_bytes(keys[p].as_slice(), signature) {
            assert(views[p as int] == keys@[p as int]@);
            return Some(p);
        }
        assert(views[p as int] == keys@[p as int]@);
        j += 1;
    }
    proof {
        if views.contains(signature@) {
            let p = choose|p: int| 0 <= p < views.len() && views[p] == signature@;
            assert(filed_on(shelves@[shelf_of(views[p], shelves@.len() as int)]@, p));
            let i = choose|i: int| 0 <= i < found@.len() && #[trigger] found@[i] == p;
            assert(views[found@[i] as int] != signature@);
        }
    }
    None
}

/// A set of signatures that keeps the order in which they were added and
/// finds the position of each without going through all of them.
pub struct SignatureSet {
    keys: Vec<Vec<u8>>,
    shelves: Vec<Vec<usize>>,
}

/// The number of shelves of a set that holds its first signature.
pub const FIRST_SHELVES: usize = 16;

impl SignatureSet {
    #[verifier::type_invariant]
    spec fn inv(self) -> bool {
        &&& byte_views(self.keys@).no_duplicates()
        &&& shelves_valid(byte_views(self.keys@), self.shelves@, self.keys@.len() as int)
        &&& self.shelves@.len() > 0 || self.keys@.len() == 0
    }

    /// The signatures of the set, in the order in which they were added.
    pub closed spec fn keys(&self) -> Seq<Seq<u8>> {
        byte_views(self.keys@)
    }

    /// An empty set.
    pub fn new() -> (r: Self)
        ensures
            r.keys() == Seq::<Seq<u8>>::empty(),
    {
        let r = SignatureSet { keys: Vec::new(), shelves: Vec::new() };
        assert(r.keys() =~= Seq::<Seq<u8>>::empty());
        r
    }

    /// The number of signatures.
    pub fn len(&self) -> (r: usize)
        ensures
            r == self.keys().len(),
            self.keys().no_duplicates(),
    {
        proof {
            use_type_invariant(self);
        }
        self.keys.len()
    }

    /// The signature at position `i`.
    pub fn signature_at(&self, i: usize) -> (r: &Vec<u8>)
        requires
            i < self.keys().len(),
        ensures
            r@ == self.keys()[i as int],
            self.keys().no_duplicates(),
    {
        proof {
            use_type_invariant(self);
        }
        &self.keys[i]
    }

    /// The position of `signature`, if the set has it.
    pub fn position(&self, signature: &[u8]) -> (r: Option<usize>)
        ensures
            match r {
                Some(p) => p < self.keys().len() && self.keys()[p as int] == signature@,
                None => !self.keys().contains(signature@),
            },
            self.keys().no_duplicates(),
    {
        proof {
            use_type_invariant(self);
        }
        look_up(&self.keys, &self.shelves, signature)
    }

    /// Adds `signature` at the end, unless the set has it, and gives its
    /// position and whether it was added.
    pub fn insert(&mut self, signature: &[u8]) -> (r: (usize, bool))
        ensures
            r.1 == !old(self).keys().contains(signature@),
            final(self).keys() == if r.1 {
                old(self).keys().push(signature@)
            } else {
                old(self).keys()
            },
            r.0 < final(self).keys().len(),
            final(self).keys()[r.0 as int] == signature@,
            r.1 ==> r.0 == old(self).keys().len(),
            final(self).keys().no_duplicates(),
    {
        proof {
            use_type_invariant(&*self);
        }
        match look_up(&self.keys, &self.shelves, signature) {
            Some(p) => {
                return (p, false);
            },
            None => {},
        }
        let mut taken = SignatureSet { keys: Vec::new(), shelves: Vec::new() };
        std::mem::swap(self, &mut taken);
        let SignatureSet { keys, shelves } = taken;
        let mut keys = keys;
        let mut shelves = shelves;
        let ghost before = byte_views(keys@);
        let p: usize = keys.len();
        keys.push(copy_bytes(signature));
        proof {
            assert(byte_views(keys@) =~= before.push(signature@));
            lemma_more_keys(before, signature@, shelves@);
        }
        if shelves.len() == 0 {
            shelves = file_all(&keys, FIRST_SHELVES);
        } else if p / 2 >= shelves.len() && shelves.len() <= usize::MAX / 2 {
            shelves = file_all(&keys, shelves.len() * 2);
        } else {
            file_position(&keys, &mut shelves, p);
        }
        *self = SignatureSet { keys, shelves };
        (p, true)
    }

    /// The signatures of the set, in the order in which they were added.
    pub fn into_vec(self) -> (r: Vec<Vec<u8>>)
        ensures
            byte_views(r@) == self.keys(),
            byte_views(r@).no_duplicates(),
    {
        proof {
            use_type_invariant(&self);
        }
        let SignatureSet { keys, shelves } = self;
        keys
    }
}

/// A key that is added at the end leaves what is filed as it was.
proof fn lemma_more_keys(keys: Seq<Seq<u8>>, added: Seq<u8>, shelves: Seq<Vec<usize>>)
    requires
        keys.no_duplicates(),
        !keys.contains(added),
        shelves_valid(keys, shelves, keys.len() as int),
    ensures
        keys.push(added).no_duplicates(),
        shelves_valid(keys.push(added), shelves, keys.len() as int),
{
    let more = keys.push(added);
    assert forall|i: int, j: int| 0 <= i < more.len() && 0 <= j < more.len() && i != j implies more[i]
        != more[j] by {
        if i < keys.len() && j < keys.len() {
            assert(keys[i] != keys[j]);
        } else if i < keys.len() {
            assert(keys[i] != added);
        } else {
            assert(keys[j] != added);
        }
    }
    assert forall|b: int, j: int|
        0 <= b < shelves.len() && 0 <= j < shelves[b]@.len() implies (#[trigger] shelves[b]@[j])
        < more.len() && shelf_of(more[shelves[b]@[j] as int], shelves.len() as int) == b by {
        assert(more[shelves[b]@[j] as int] == keys[shelves[b]@[j] as int]);
    }
    assert forall|p: int| 0 <= p < keys.len() implies filed_on(
        (#[trigger] shelves[shelf_of(more[p], shelves.len() as int)])@,
        p,
    ) by {
        assert(more[p] == keys[p]);
        assert(filed_on(shelves[shelf_of(keys[p], shelves.len() as int)]@, p));
    }
}

} // verus!
