//! The mutator set as light nodes hold it: the set commitment alone.

use crate::digest::Digest;
use crate::mmr::spec_mmr_bag_peaks;
use crate::mutator_set::addition_record::AdditionRecord;
use crate::mutator_set::chunk::{chunk_hash, Chunk};
use crate::mutator_set::ms_membership_proof::MsMembershipProof;
use crate::mutator_set::mutator_set_trait::MutatorSet;
use crate::mutator_set::removal_record::RemovalRecord;
use crate::mutator_set::set_commitment::{
    batch_index_of, flip_all, indices_of_proof, window_start, SetCommitment,
};
use crate::tip5::{hash_pair, spec_hash_pair};
use vstd::prelude::*;

verus! {

/// The digest that commits to a whole mutator set, from the digests of its
/// three parts.
pub open spec fn commitment_of(aocl: Seq<u64>, inactive: Seq<u64>, active: Seq<u64>) -> Seq<u64> {
    spec_hash_pair(spec_hash_pair(aocl, inactive), active)
}

impl SetCommitment {
    /// The digest that commits to the set.
    pub open spec fn commitment(&self) -> Seq<u64> {
        commitment_of(
            spec_mmr_bag_peaks(self.aocl.peaks_view(), self.aocl.leaf_count()),
            spec_mmr_bag_peaks(self.swbf_inactive.peaks_view(), self.swbf_inactive.leaf_count()),
            chunk_hash(self.swbf_active@),
        )
    }

    /// The digest that commits to the set: the hash of the commitment list,
    /// the inactive part of the filter and the active window.
    pub fn get_commitment(&self) -> (d: Digest)
        ensures
            d@ == self.commitment(),
    {
        let aocl = self.aocl.bag_peaks();
        let inactive = self.swbf_inactive.bag_peaks();
        let window = Chunk { relative_indices: self.swbf_active.to_vec_u32() };
        let active = window.hash();
        hash_pair(&hash_pair(&aocl, &inactive), &active)
    }

    /// Whether adding to this set can go on: the commitment list can take
    /// one more leaf.
    pub open spec fn has_room(&self) -> bool {
        self.aocl.leaf_count() < u64::MAX
    }
}

/// The mutator set as an accumulator.
#[derive(Debug)]
pub struct MutatorSetAccumulator {
    pub set_commitment: SetCommitment,
}

impl View for SetCommitment {
    type V = (u64, Seq<Digest>, u64, Seq<Digest>, Seq<u32>);

    /// The set as plain values: the number of leafs and the peaks of the
    /// commitment list, those of the inactive part of the filter, and the
    /// positions of the active window.
    open spec fn view(&self) -> (u64, Seq<Digest>, u64, Seq<Digest>, Seq<u32>) {
        (
            self.aocl.leaf_count(),
            self.aocl.peak_digests(),
            self.swbf_inactive.leaf_count(),
            self.swbf_inactive.peak_digests(),
            self.swbf_active@,
        )
    }
}

impl View for MutatorSetAccumulator {
    type V = (u64, Seq<Digest>, u64, Seq<Digest>, Seq<u32>);

    open spec fn view(&self) -> (u64, Seq<Digest>, u64, Seq<Digest>, Seq<u32>) {
        self.set_commitment@
    }
}

impl SetCommitment {
    /// A copy of the set.
    pub fn copy(&self) -> (s: Self)
        ensures
            s@ == self@,
            s.commitment() == self.commitment(),
    {
        SetCommitment {
            aocl: self.aocl.copy(),
            swbf_inactive: self.swbf_inactive.copy(),
            swbf_active: self.swbf_active.clone(),
        }
    }
}

impl MutatorSetAccumulator {
    /// A copy of the set.
    pub fn copy(&self) -> (s: Self)
        ensures
            s@ == self@,
            s.set_commitment.commitment() == self.set_commitment.commitment(),
    {
        MutatorSetAccumulator { set_commitment: self.set_commitment.copy() }
    }

    /// The digest that commits to the set.
    pub fn get_commitment(&self) -> (d: Digest)
        ensures
            d@ == self.set_commitment.commitment(),
    {
        self.set_commitment.get_commitment()
    }

    /// Remove all the records at once, and keep the membership proofs
    /// `preserved_membership_proofs` valid. Where a record or a proof does
    /// not fit the set, nothing happens and there is no result; else the
    /// result holds the indices of the bits that were flipped.
    pub fn batch_remove(
        &mut self,
        removal_records: &Vec<RemovalRecord>,
        preserved_membership_proofs: &mut Vec<MsMembershipProof>,
    ) -> (r: Option<Vec<u128>>)
        requires
            old(self).set_commitment.wf(),
        ensures
            final(self).set_commitment.wf(),
            r is Some <==> old(self).set_commitment.batch_fits_set(
                removal_records@,
                old(preserved_membership_proofs)@,
            ),
            r is None ==> *final(self) == *old(self) && *final(preserved_membership_proofs) == *old(
                preserved_membership_proofs,
            ),
            r matches Some(flipped) ==> old(self).set_commitment.batch_removed(
                removal_records@,
                old(preserved_membership_proofs)@,
                final(self).set_commitment,
                final(preserved_membership_proofs)@,
                flipped@,
            ),
    {
        if !self.set_commitment.can_batch_remove(removal_records, preserved_membership_proofs) {
            return None;
        }
        let (_, flipped) = self.set_commitment.batch_remove(
            removal_records,
            preserved_membership_proofs,
        );
        Some(flipped)
    }
}

impl MutatorSet for MutatorSetAccumulator {
    open spec fn valid(&self) -> bool {
        self.set_commitment.wf()
    }

    open spec fn has_room(&self) -> bool {
        self.set_commitment.has_room()
    }

    fn default() -> (s: Self)
        ensures
            s@ == (
                0u64,
                Seq::<Digest>::empty(),
                0u64,
                Seq::<Digest>::empty(),
                Seq::<u32>::empty(),
            ),
    {
        MutatorSetAccumulator { set_commitment: SetCommitment::new() }
    }

    fn prove(&self, item: &Digest, randomness: &Digest, store_bits: bool) -> (mp: MsMembershipProof)
        ensures
            self.set_commitment.is_proof_for(item@, randomness@, store_bits, mp),
    {
        self.set_commitment.prove(item, randomness, store_bits)
    }

    fn verify(&self, item: &Digest, membership_proof: &MsMembershipProof) -> (b: bool)
        ensures
            b == self.set_commitment.verifies(item@, *membership_proof),
    {
        self.set_commitment.verify(item, membership_proof)
    }

    fn commit(&self, item: &Digest, randomness: &Digest) -> (r: AdditionRecord) {
        self.set_commitment.commit(item, randomness)
    }

    fn drop(&self, item: &Digest, membership_proof: &MsMembershipProof) -> (r: Option<
        RemovalRecord,
    >)
        ensures
            match r {
                Some(rr) => Some(rr.bit_indices@) == indices_of_proof(item@, *membership_proof)
                    && rr.target_chunks@ == membership_proof.target_chunks@,
                None => indices_of_proof(item@, *membership_proof) is None,
            },
    {
        self.set_commitment.drop(item, membership_proof)
    }

    fn add(&mut self, addition_record: &AdditionRecord)
        ensures
            old(self).set_commitment.is_added(*addition_record, final(self).set_commitment),
    {
        self.set_commitment.add_helper(addition_record);
    }

    fn remove(&mut self, removal_record: &RemovalRecord) -> (applied: bool)
        ensures
            applied == old(self).set_commitment.record_fits(*removal_record),
            !applied ==> *final(self) == *old(self),
            applied ==> final(self).set_commitment.swbf_active@ == flip_all(
                (
                    old(self).set_commitment.swbf_active@,
                    removal_record.target_chunks@,
                    Seq::<u128>::empty(),
                ),
                window_start(batch_index_of(old(self).set_commitment.aocl.leaf_count())),
                removal_record.bit_indices@,
            ).0,
    {
        if !self.set_commitment.can_remove(removal_record) {
            return false;
        }
        self.set_commitment.remove_helper(removal_record);
        true
    }
}

} // verus!
