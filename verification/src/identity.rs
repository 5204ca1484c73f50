//! Identities of depositors, managers and holdings: 32 bytes, ordered
//! lexicographically.

use vstd::prelude::*;

verus! {

/// A 32-byte identifier of an account.
#[derive(Clone, Copy, Debug, PartialEq, Eq)]
pub struct Identity {
    pub bytes: [u8; 32],
}

/// How one identity stands to another in the lexicographic order.
#[derive(Clone, Copy, Debug, PartialEq, Eq)]
pub enum Placement {
    Before,
    Same,
    After,
}

impl View for Identity {
    type V = Seq<u8>;

    open spec fn view(&self) -> Seq<u8> {
        self.bytes@
    }
}

/// `a` and `b` agree on their first `i` bytes and `a` has the smaller byte at
/// position `i`.
pub open spec fn splits_below(a: Seq<u8>, b: Seq<u8>, i: int) -> bool {
    &&& 0 <= i < a.len()
    &&& i < b.len()
    &&& a[i] < b[i]
    &&& forall|j: int| 0 <= j < i ==> a[j] == b[j]
}

/// The strict lexicographic order on byte sequences of equal length.
pub open spec fn lex_less(a: Seq<u8>, b: Seq<u8>) -> bool {
    exists|i: int| splits_below(a, b, i)
}

impl Identity {
    /// `self` comes strictly before `other`.
    pub open spec fn precedes(self, other: Identity) -> bool {
        lex_less(self@, other@)
    }

    /// The placement of `self` relative to `other`.
    pub open spec fn placement(self, other: Identity) -> Placement {
        if self@ == other@ {
            Placement::Same
        } else if self.precedes(other) {
            Placement::Before
        } else {
            Placement::After
        }
    }

    /// Makes an identity from its bytes.
    pub fn new(bytes: [u8; 32]) -> (id: Identity)
        ensures
            id.bytes == bytes,
            id@ == bytes@,
    {
        Identity { bytes }
    }

    /// The bytes of the identity.
    pub fn to_bytes(&self) -> (bytes: [u8; 32])
        ensures
            bytes == self.bytes,
            bytes@ == self@,
    {
        self.bytes
    }

    /// The key of the identity: the numbers that its two halves write.
    pub fn key(&self) -> (k: (u128, u128))
        ensures
            k == key_of(self@),
    {
        let mut high: u128 = 0;
        let mut low: u128 = 0;
        let mut i: usize = 0;
        while i < 16
            invariant
                0 <= i <= 16,
                high == number_of(self@.subrange(0, i as int)),
                low == number_of(self@.subrange(16, 16 + i)),
            decreases 16 - i,
        {
            proof {
                let (h, l) = (self@.subrange(0, i + 1), self@.subrange(16, 17 + i));
                assert(h.drop_last() =~= self@.subrange(0, i as int));
                assert(l.drop_last() =~= self@.subrange(16, 16 + i));
                lemma_number_below_limit(h);
                lemma_number_below_limit(l);
                lemma_limit_grows((i + 1) as nat, 16);
            }
            high = high * 256 + self.bytes[i] as u128;
            low = low * 256 + self.bytes[i + 16] as u128;
            i = i + 1;
        }
        (high, low)
    }

    /// Compares two identities byte by byte, from the first byte on.
    pub fn compare(&self, other: &Identity) -> (p: Placement)
        ensures
            p == self.placement(*other),
            p == Placement::Same <==> *self == *other,
            p == Placement::Before <==> self.precedes(*other),
            p == Placement::After <==> other.precedes(*self),
    {
        let mut i: usize = 0;
        while i < 32
            invariant
                0 <= i <= 32,
                forall|j: int| 0 <= j < i ==> self@[j] == other@[j],
            decreases 32 - i,
        {
            let x: u8 = self.bytes[i];
            let y: u8 = other.bytes[i];
            if x < y {
                proof {
                    assert(splits_below(self@, other@, i as int));
                    lemma_less_is_strict(self@, other@);
                }
                return Placement::Before;
            }
            if x > y {
                proof {
                    assert(splits_below(other@, self@, i as int));
                    lemma_less_is_strict(other@, self@);
                }
                return Placement::After;
            }
            i = i + 1;
        }
        proof {
            assert(self@ =~= other@);
            lemma_same_bytes(*self, *other);
            if lex_less(self@, other@) {
                lemma_less_is_strict(self@, other@);
            }
        }
        Placement::Same
    }
}

/// Identities with the same bytes are the same identity.
pub proof fn lemma_same_bytes(a: Identity, b: Identity)
    ensures
        a@ == b@ <==> a == b,
{
    if a@ == b@ {
        assert(a.bytes =~= b.bytes);
    }
}

/// The order is strict: a sequence that comes before another differs from it
/// and does not come after it.
pub proof fn lemma_less_is_strict(a: Seq<u8>, b: Seq<u8>)
    requires
        lex_less(a, b),
    ensures
        a != b,
        !lex_less(b, a),
{
    let i = choose|i: int| splits_below(a, b, i);
    assert(a[i] != b[i]);
    if lex_less(b, a) {
        let k = choose|k: int| splits_below(b, a, k);
        if k < i {
            assert(a[k] == b[k]);
        } else if i < k {
            assert(b[i] == a[i]);
        }
    }
}

/// The order is transitive.
pub proof fn lemma_less_is_transitive(a: Seq<u8>, b: Seq<u8>, c: Seq<u8>)
    requires
        lex_less(a, b),
        lex_less(b, c),
    ensures
        lex_less(a, c),
{
    let i = choose|i: int| splits_below(a, b, i);
    let k = choose|k: int| splits_below(b, c, k);
    if i <= k {
        assert(splits_below(a, c, i));
    } else {
        assert(splits_below(a, c, k));
    }
}

/// The number that a byte sequence writes, its first byte weighing most.
pub open spec fn number_of(s: Seq<u8>) -> nat
    decreases s.len(),
{
    if s.len() == 0 {
        0
    } else {
        number_of(s.drop_last()) * 256 + s.last() as nat
    }
}

/// The number of byte sequences of length `n`: 256 to the power of `n`.
pub open spec fn limit(n: nat) -> nat
    decreases n,
{
    if n == 0 {
        1
    } else {
        256 * limit((n - 1) as nat)
    }
}

/// The pair of numbers that the two halves of 32 bytes write. It orders the
/// identities as their bytes do, and no two identities share it.
pub open spec fn key_of(s: Seq<u8>) -> (u128, u128) {
    (number_of(s.subrange(0, 16)) as u128, number_of(s.subrange(16, 32)) as u128)
}

/// The order of the pairs: by the first number, then by the second.
pub open spec fn key_less(a: (u128, u128), b: (u128, u128)) -> bool {
    a.0 < b.0 || (a.0 == b.0 && a.1 < b.1)
}

/// A byte sequence writes a number below the limit of its length.
pub proof fn lemma_number_below_limit(s: Seq<u8>)
    ensures
        number_of(s) < limit(s.len()),
    decreases s.len(),
{
    if s.len() > 0 {
        lemma_number_below_limit(s.drop_last());
    }
}

/// The limit grows with the length, and sixteen bytes stay within 128 bits.
pub proof fn lemma_limit_grows(a: nat, b: nat)
    requires
        a <= b,
    ensures
        0 < limit(a) <= limit(b),
        limit(16) == 0x1_0000_0000_0000_0000_0000_0000_0000_0000,
    decreases b,
{
    if a < b {
        lemma_limit_grows(a, (b - 1) as nat);
    } else if a > 0 {
        lemma_limit_grows((a - 1) as nat, (a - 1) as nat);
    }
    reveal_with_fuel(limit, 17);
}

/// Of two byte sequences of one length, the one that comes first writes the
/// smaller number.
pub proof fn lemma_less_means_smaller(a: Seq<u8>, b: Seq<u8>)
    requires
        a.len() == b.len(),
        lex_less(a, b),
    ensures
        number_of(a) < number_of(b),
    decreases a.len(),
{
    let i = choose|i: int| splits_below(a, b, i);
    if i == a.len() - 1 {
        assert(a.drop_last() =~= b.drop_last());
    } else {
        assert(splits_below(a.drop_last(), b.drop_last(), i));
        lemma_less_means_smaller(a.drop_last(), b.drop_last());
    }
}

/// Byte sequences of one length that write the same number are the same.
pub proof fn lemma_same_number(a: Seq<u8>, b: Seq<u8>)
    requires
        a.len() == b.len(),
        number_of(a) == number_of(b),
    ensures
        a == b,
    decreases a.len(),
{
    if a.len() > 0 {
        lemma_same_number(a.drop_last(), b.drop_last());
        assert(a =~= a.drop_last().push(a.last()));
        assert(b =~= b.drop_last().push(b.last()));
    } else {
        assert(a =~= b);
    }
}

/// Of two different byte sequences of one length, one comes before the other.
pub proof fn lemma_less_is_total(a: Seq<u8>, b: Seq<u8>)
    requires
        a.len() == b.len(),
        a != b,
    ensures
        lex_less(a, b) || lex_less(b, a),
    decreases a.len(),
{
    if a.len() == 0 {
        assert(a =~= b);
    } else if a.drop_last() == b.drop_last() {
        assert(a =~= a.drop_last().push(a.last()));
        assert(b =~= b.drop_last().push(b.last()));
        let i = a.len() - 1;
        assert forall|j: int| 0 <= j < i implies a[j] == b[j] by {
            assert(a[j] == a.drop_last()[j]);
            assert(b[j] == b.drop_last()[j]);
        }
        if a[i] < b[i] {
            assert(splits_below(a, b, i));
        } else {
            assert(splits_below(b, a, i));
        }
    } else {
        lemma_less_is_total(a.drop_last(), b.drop_last());
        let (front_a, front_b) = (a.drop_last(), b.drop_last());
        assert forall|j: int| 0 <= j < a.len() - 1 implies a[j] == front_a[j] && b[j]
            == front_b[j] by {}
        if lex_less(front_a, front_b) {
            let i = choose|i: int| splits_below(front_a, front_b, i);
            assert(splits_below(a, b, i));
        } else {
            let i = choose|i: int| splits_below(front_b, front_a, i);
            assert(splits_below(b, a, i));
        }
    }
}

/// The keys of two identities stand to each other as the identities do: they
/// are equal for the same identity only, and the smaller key belongs to the
/// identity that comes first.
pub proof fn lemma_key_order(a: Seq<u8>, b: Seq<u8>)
    requires
        a.len() == 32,
        b.len() == 32,
    ensures
        key_of(a) == key_of(b) <==> a == b,
        key_less(key_of(a), key_of(b)) <==> lex_less(a, b),
{
    let (a1, a2) = (a.subrange(0, 16), a.subrange(16, 32));
    let (b1, b2) = (b.subrange(0, 16), b.subrange(16, 32));
    lemma_number_below_limit(a1);
    lemma_number_below_limit(a2);
    lemma_number_below_limit(b1);
    lemma_number_below_limit(b2);
    lemma_limit_grows(16, 16);
    if key_of(a) == key_of(b) {
        lemma_same_number(a1, b1);
        lemma_same_number(a2, b2);
        assert forall|j: int| 0 <= j < 32 implies a[j] == b[j] by {
            if j < 16 {
                assert(a[j] == a1[j] && b[j] == b1[j]);
            } else {
                assert(a[j] == a2[j - 16] && b[j] == b2[j - 16]);
            }
        }
        assert(a =~= b);
    }
    if lex_less(a, b) {
        lemma_keys_follow(a, b);
    }
    if key_less(key_of(a), key_of(b)) {
        if a != b {
            lemma_less_is_total(a, b);
            if lex_less(b, a) {
                lemma_keys_follow(b, a);
            }
        }
    }
    if a == b && lex_less(a, b) {
        lemma_less_is_strict(a, b);
    }
}

/// The identity that comes first has the smaller key.
proof fn lemma_keys_follow(a: Seq<u8>, b: Seq<u8>)
    requires
        a.len() == 32,
        b.len() == 32,
        lex_less(a, b),
    ensures
        key_less(key_of(a), key_of(b)),
{
    let (a1, a2) = (a.subrange(0, 16), a.subrange(16, 32));
    let (b1, b2) = (b.subrange(0, 16), b.subrange(16, 32));
    lemma_number_below_limit(a1);
    lemma_number_below_limit(a2);
    lemma_number_below_limit(b1);
    lemma_number_below_limit(b2);
    lemma_limit_grows(16, 16);
    let i = choose|i: int| splits_below(a, b, i);
    if i < 16 {
        assert(splits_below(a1, b1, i));
        lemma_less_means_smaller(a1, b1);
    } else {
        assert(a1 =~= b1);
        assert(splits_below(a2, b2, i - 16));
        lemma_less_means_smaller(a2, b2);
    }
}

} // verus!
