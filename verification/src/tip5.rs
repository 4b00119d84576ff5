//! The Tip5 hash function, as the library sees it.
//!
//! The permutation is the work of the `twenty-first` crate. The library gives
//! each of the two hash functions it uses a name, and proves its own results
//! over those names.

use crate::digest::Digest;
use twenty_first::prelude::{BFieldElement, Tip5};
use vstd::prelude::*;

verus! {

/// What Tip5 makes of two digests. It is a function of the ten field
/// elements alone.
pub uninterp spec fn spec_hash_pair(left: Seq<u64>, right: Seq<u64>) -> Seq<u64>;

/// What Tip5 makes of a sequence of field elements of any length, each given
/// by a representative. It is a function of the elements alone.
pub uninterp spec fn spec_hash_varlen(input: Seq<u64>) -> Seq<u64>;

/// Calls `Tip5::hash_pair` of `twenty-first` on the two digests, each built
/// from its field elements with `BFieldElement::new`. Nothing is proved of
/// it: the contract names the result after the arguments.
#[verifier::external_body]
pub(crate) fn hash_pair(left: &Digest, right: &Digest) -> (d: Digest)
    ensures
        d@ == spec_hash_pair(left@, right@),
{
    let l = twenty_first::prelude::Digest(left.values().map(BFieldElement::new));
    let r = twenty_first::prelude::Digest(right.values().map(BFieldElement::new));
    Digest::new(Tip5::hash_pair(l, r).values().map(|e| e.value()))
}

/// Calls `Tip5::hash_varlen` of `twenty-first` on the field elements that
/// `input` stands for, each built with `BFieldElement::new`. Nothing is
/// proved of it: the contract names the result after the argument.
#[verifier::external_body]
pub(crate) fn hash_varlen(input: &Vec<u64>) -> (d: Digest)
    ensures
        d@ == spec_hash_varlen(input@),
{
    let elements: Vec<BFieldElement> = input.iter().map(|v| BFieldElement::new(*v)).collect();
    Digest::new(Tip5::hash_varlen(&elements).values().map(|e| e.value()))
}

} // verus!
