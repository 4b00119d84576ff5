//! Hash digests: five elements of the prime field with
//! `2^64 - 2^32 + 1` elements.

use std::cmp::Ordering;
use vstd::bytes::{
    lemma_auto_spec_u64_to_from_le_bytes, spec_u64_from_le_bytes, spec_u64_to_le_bytes,
    u64_from_le_bytes, u64_to_le_bytes,
};
use vstd::prelude::*;

verus! {

/// The number of field elements in a digest.
pub const DIGEST_LEN: usize = 5;

/// The prime `2^64 - 2^32 + 1`: the number of elements of the field.
pub const BFIELD_MODULUS: u64 = 0xffff_ffff_0000_0001;

/// Whether `s` holds five canonical field elements.
pub open spec fn is_canonical(s: Seq<u64>) -> bool {
    &&& s.len() == 5
    &&& forall|i: int| 0 <= i < 5 ==> s[i] < BFIELD_MODULUS
}

/// The result of hashing: five field elements, each held as its canonical
/// representative below the modulus.
#[derive(Clone, Copy, Debug, Hash)]
pub struct Digest {
    values: [u64; 5],
}

impl View for Digest {
    type V = Seq<u64>;

    closed spec fn view(&self) -> Seq<u64> {
        self.values@
    }
}

impl Digest {
    #[verifier::type_invariant]
    spec fn well_formed(self) -> bool {
        is_canonical(self.values@)
    }

    /// The digest of the field elements that `values` stand for: each is
    /// reduced to its canonical representative.
    pub fn new(values: [u64; 5]) -> (d: Self)
        ensures
            is_canonical(d@),
            forall|i: int| 0 <= i < 5 ==> d@[i] == values[i] % BFIELD_MODULUS,
    {
        Digest {
            values: [
                values[0] % BFIELD_MODULUS,
                values[1] % BFIELD_MODULUS,
                values[2] % BFIELD_MODULUS,
                values[3] % BFIELD_MODULUS,
                values[4] % BFIELD_MODULUS,
            ],
        }
    }

    /// The all-zero digest.
    pub fn default() -> (d: Self)
        ensures
            d@ == seq![0u64, 0u64, 0u64, 0u64, 0u64],
    {
        let d = Digest { values: [0, 0, 0, 0, 0] };
        assert(d.values@ =~= seq![0u64, 0u64, 0u64, 0u64, 0u64]);
        d
    }

    /// The canonical representatives of the five elements.
    pub fn values(&self) -> (v: [u64; 5])
        ensures
            v@ == self@,
            is_canonical(self@),
    {
        proof {
            use_type_invariant(self);
        }
        self.values
    }
}

impl PartialEq for Digest {
    fn eq(&self, other: &Self) -> (b: bool) {
        let b = self.values[0] == other.values[0] && self.values[1] == other.values[1]
            && self.values[2] == other.values[2] && self.values[3] == other.values[3]
            && self.values[4] == other.values[4];
        proof {
            if b {
                assert(self.values =~= other.values);
            }
        }
        b
    }
}

impl Eq for Digest {

}

impl vstd::std_specs::cmp::PartialEqSpecImpl for Digest {
    open spec fn obeys_eq_spec() -> bool {
        true
    }

    open spec fn eq_spec(&self, other: &Self) -> bool {
        *self == *other
    }
}

/// Whether the digest with the elements `a` comes before the one with the
/// elements `b`: digests are ordered by their last element first.
pub open spec fn digest_less(a: Seq<u64>, b: Seq<u64>) -> bool {
    exists|k: int|
        0 <= k < 5 && #[trigger] a[k] < b[k] && forall|j: int| k < j < 5 ==> a[j] == b[j]
}

/// How two digests compare.
pub open spec fn digest_order(a: Seq<u64>, b: Seq<u64>) -> Ordering {
    if digest_less(a, b) {
        Ordering::Less
    } else if digest_less(b, a) {
        Ordering::Greater
    } else {
        Ordering::Equal
    }
}

impl Digest {
    /// Whether this digest comes before `other`.
    pub fn less_than(&self, other: &Digest) -> (less: bool)
        ensures
            less == digest_less(self@, other@),
            is_canonical(self@),
            is_canonical(other@),
    {
        proof {
            use_type_invariant(self);
            use_type_invariant(other);
        }
        let mut i: usize = 5;
        while i > 0
            invariant
                0 <= i <= 5,
                is_canonical(self@),
                is_canonical(other@),
                forall|j: int| i <= j < 5 ==> self.values@[j] == other.values@[j],
            decreases i,
        {
            i -= 1;
            if self.values[i] < other.values[i] {
                return true;
            }
            if self.values[i] > other.values[i] {
                proof {
                    let a = self@;
                    let b = other@;
                    let at = i;
                    assert(!digest_less(a, b)) by {
                        if digest_less(a, b) {
                            let k = choose|k: int|
                                0 <= k < 5 && #[trigger] a[k] < b[k] && forall|j: int|
                                    k < j < 5 ==> a[j] == b[j];
                            if k < at {
                                assert(a[at as int] == b[at as int]);
                            }
                        }
                    }
                }
                return false;
            }
        }
        false
    }
}

impl PartialOrd for Digest {
    fn partial_cmp(&self, other: &Self) -> (o: Option<Ordering>) {
        if self.less_than(other) {
            Some(Ordering::Less)
        } else if other.less_than(self) {
            Some(Ordering::Greater)
        } else {
            Some(Ordering::Equal)
        }
    }
}

impl vstd::std_specs::cmp::PartialOrdSpecImpl for Digest {
    open spec fn obeys_partial_cmp_spec() -> bool {
        true
    }

    open spec fn partial_cmp_spec(&self, other: &Self) -> Option<Ordering> {
        Some(digest_order(self@, other@))
    }
}

/// The number of bytes of a digest.
pub const DIGEST_BYTES: usize = 40;

/// The bytes of the elements `s`, each in eight bytes, least significant
/// first, one element after the other.
pub open spec fn digest_bytes(s: Seq<u64>) -> Seq<u8> {
    spec_u64_to_le_bytes(s[0]) + spec_u64_to_le_bytes(s[1]) + spec_u64_to_le_bytes(s[2])
        + spec_u64_to_le_bytes(s[3]) + spec_u64_to_le_bytes(s[4])
}

/// The five numbers that forty bytes stand for, eight bytes each, least
/// significant first.
pub open spec fn elements_of_bytes(b: Seq<u8>) -> Seq<u64> {
    seq![
        spec_u64_from_le_bytes(b.subrange(0, 8)),
        spec_u64_from_le_bytes(b.subrange(8, 16)),
        spec_u64_from_le_bytes(b.subrange(16, 24)),
        spec_u64_from_le_bytes(b.subrange(24, 32)),
        spec_u64_from_le_bytes(b.subrange(32, 40)),
    ]
}

impl Digest {
    /// The elements as a vector.
    pub fn to_vec(&self) -> (v: Vec<u64>)
        ensures
            v@ == self@,
    {
        let mut v: Vec<u64> = Vec::new();
        let mut i: usize = 0;
        while i < 5
            invariant
                0 <= i <= 5,
                v@ == self.values@.take(i as int),
            decreases 5 - i,
        {
            v.push(self.values[i]);
            i += 1;
        }
        proof {
            assert(self.values@.take(5) =~= self.values@);
        }
        v
    }

    /// The digest with the given elements, where there are five of them.
    /// Each is reduced to its canonical representative.
    pub fn from_vec(vals: &Vec<u64>) -> (d: Option<Self>)
        ensures
            d is Some <==> vals@.len() == 5,
            d matches Some(digest) ==> forall|i: int|
                0 <= i < 5 ==> digest@[i] == vals@[i] % BFIELD_MODULUS,
    {
        if vals.len() != 5 {
            return None;
        }
        Some(Digest::new([vals[0], vals[1], vals[2], vals[3], vals[4]]))
    }

    /// The forty bytes of the digest: each element in eight bytes, least
    /// significant first.
    pub fn to_bytes(&self) -> (bytes: Vec<u8>)
        ensures
            bytes@ == digest_bytes(self@),
            bytes@.len() == DIGEST_BYTES,
    {
        proof {
            lemma_auto_spec_u64_to_from_le_bytes();
        }
        let mut bytes: Vec<u8> = u64_to_le_bytes(self.values[0]);
        let mut b1 = u64_to_le_bytes(self.values[1]);
        let mut b2 = u64_to_le_bytes(self.values[2]);
        let mut b3 = u64_to_le_bytes(self.values[3]);
        let mut b4 = u64_to_le_bytes(self.values[4]);
        bytes.append(&mut b1);
        bytes.append(&mut b2);
        bytes.append(&mut b3);
        bytes.append(&mut b4);
        bytes
    }

    /// The digest that forty bytes stand for. There is none where the bytes
    /// are not forty, or where eight of them stand for a number that is not
    /// below the modulus.
    pub fn from_bytes(bytes: &[u8]) -> (d: Option<Self>)
        ensures
            d is Some <==> bytes@.len() == DIGEST_BYTES && is_canonical(
                elements_of_bytes(bytes@),
            ),
            d matches Some(digest) ==> digest@ == elements_of_bytes(bytes@),
    {
        if bytes.len() != 40 {
            return None;
        }
        let mut values: [u64; 5] = [0u64; 5];
        let mut i: usize = 0;
        while i < 5
            invariant
                0 <= i <= 5,
                bytes@.len() == 40,
                forall|j: int|
                    0 <= j < i ==> values@[j] == spec_u64_from_le_bytes(
                        bytes@.subrange(8 * j, 8 * j + 8),
                    ) && values@[j] < BFIELD_MODULUS,
            decreases 5 - i,
        {
            let part = vstd::slice::slice_subrange(bytes, 8 * i, 8 * i + 8);
            let value = u64_from_le_bytes(part);
            if value >= BFIELD_MODULUS {
                proof {
                    assert(elements_of_bytes(bytes@)[i as int] == value);
                }
                return None;
            }
            values[i] = value;
            i += 1;
        }
        let d = Digest { values };
        proof {
            assert(d.values@ =~= elements_of_bytes(bytes@));
        }
        Some(d)
    }

    /// The first 32 bytes of the digest, for signing.
    pub fn to_devnet_msg_bytes(&self) -> (bytes: Vec<u8>)
        ensures
            bytes@ == digest_bytes(self@).subrange(0, 32),
    {
        let mut whole = self.to_bytes();
        whole.truncate(32);
        whole
    }
}

/// A digest that is written in bytes and read back is the same digest.
pub proof fn law_digest_bytes_round_trip(s: Seq<u64>)
    requires
        is_canonical(s),
    ensures
        digest_bytes(s).len() == DIGEST_BYTES,
        elements_of_bytes(digest_bytes(s)) == s,
{
    lemma_auto_spec_u64_to_from_le_bytes();
    let b = digest_bytes(s);
    assert(b.subrange(0, 8) =~= spec_u64_to_le_bytes(s[0]));
    assert(b.subrange(8, 16) =~= spec_u64_to_le_bytes(s[1]));
    assert(b.subrange(16, 24) =~= spec_u64_to_le_bytes(s[2]));
    assert(b.subrange(24, 32) =~= spec_u64_to_le_bytes(s[3]));
    assert(b.subrange(32, 40) =~= spec_u64_to_le_bytes(s[4]));
    assert(elements_of_bytes(b) =~= s);
}

/// Two digests with the same elements are the same digest.
pub proof fn lemma_digest_ext(a: Digest, b: Digest)
    requires
        a@ == b@,
    ensures
        a == b,
{
    assert(a.values =~= b.values);
}

/// What has a hash: a value that commits to itself by a digest.
pub trait Hashable {
    /// The hash of the value.
    spec fn hashed(&self) -> Seq<u64>;

    /// The hash of the value.
    fn hash(&self) -> (d: Digest)
        ensures
            d@ == self.hashed(),
    ;
}

} // verus!
