//! Addition records: commitments to items that join the mutator set.

use crate::digest::Digest;
use vstd::prelude::*;

verus! {

/// A commitment to an item and the randomness it was committed with. It is
/// appended to the commitment list when the item joins the set.
#[derive(Clone, Copy, Debug)]
pub struct AdditionRecord {
    pub canonical_commitment: Digest,
}

impl AdditionRecord {
    pub fn new(canonical_commitment: Digest) -> (r: Self)
        ensures
            r.canonical_commitment == canonical_commitment,
    {
        AdditionRecord { canonical_commitment }
    }
}

impl PartialEq for AdditionRecord {
    fn eq(&self, other: &Self) -> (b: bool) {
        self.canonical_commitment == other.canonical_commitment
    }
}

impl Eq for AdditionRecord {

}

impl vstd::std_specs::cmp::PartialEqSpecImpl for AdditionRecord {
    open spec fn obeys_eq_spec() -> bool {
        true
    }

    open spec fn eq_spec(&self, other: &Self) -> bool {
        *self == *other
    }
}

} // verus!
