//! What every mutator set offers.

use crate::digest::Digest;
use crate::mutator_set::addition_record::AdditionRecord;
use crate::mutator_set::ms_membership_proof::MsMembershipProof;
use crate::mutator_set::removal_record::RemovalRecord;
use crate::tip5::spec_hash_pair;
use vstd::prelude::*;

verus! {

/// A set of items to which items are added by addition records and from
/// which they are removed by removal records, neither of which tells which
/// item it is about.
pub trait MutatorSet: Sized {
    /// The invariant of the set.
    spec fn valid(&self) -> bool;

    /// Whether the commitment list can take one more leaf.
    spec fn has_room(&self) -> bool;

    /// Returns an empty mutator set.
    fn default() -> (s: Self)
        ensures
            s.valid(),
            s.has_room(),
    ;

    /// Generates a membership proof that will be valid when the item is added
    /// to the mutator set.
    fn prove(&self, item: &Digest, randomness: &Digest, store_bits: bool) -> (mp: MsMembershipProof)
        requires
            self.valid(),
            self.has_room(),
        ensures
            mp.randomness == *randomness,
    ;

    /// Whether the membership proof shows the item to be in the set.
    fn verify(&self, item: &Digest, membership_proof: &MsMembershipProof) -> (b: bool)
        requires
            self.valid(),
    ;

    /// Generates an addition record from an item and explicit randomness.
    fn commit(&self, item: &Digest, randomness: &Digest) -> (r: AdditionRecord)
        ensures
            r.canonical_commitment@ == spec_hash_pair(item@, randomness@),
    ;

    /// Generates a removal record with which to update the set commitment.
    fn drop(&self, item: &Digest, membership_proof: &MsMembershipProof) -> (r: Option<
        RemovalRecord,
    >);

    /// Updates the set with an addition record.
    fn add(&mut self, addition_record: &AdditionRecord)
        requires
            old(self).valid(),
            old(self).has_room(),
        ensures
            final(self).valid(),
    ;

    /// Updates the set so as to remove the item determined by its removal
    /// record. A record that does not fit the set leaves it as it is; the
    /// result tells whether the record was applied.
    fn remove(&mut self, removal_record: &RemovalRecord) -> (applied: bool)
        requires
            old(self).valid(),
        ensures
            final(self).valid(),
    ;
}

} // verus!
