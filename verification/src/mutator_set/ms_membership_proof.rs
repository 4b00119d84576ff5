//! Membership proofs of the mutator set.

use crate::digest::Digest;
use crate::mmr::{clone_proof, proof_path};
use crate::mutator_set::chunk_dictionary::ChunkDictionary;
use crate::mutator_set::removal_record::copy_bit_indices;
use twenty_first::prelude::MmrMembershipProof;
use vstd::prelude::*;

verus! {

/// Evidence that an item is in the mutator set: the randomness it was
/// committed with, the place of its commitment in the commitment list with
/// the proof that it stands there, and the inactive chunks that hold bits of
/// the item. The bit indices of the item may be kept along, as they are
/// costly to compute.
#[derive(Debug)]
pub struct MsMembershipProof {
    pub randomness: Digest,
    pub auth_path_aocl: MmrMembershipProof,
    pub aocl_leaf_index: u64,
    pub target_chunks: ChunkDictionary,
    pub cached_bits: Option<Vec<u128>>,
}

impl MsMembershipProof {
    /// The bit indices that the proof keeps along, if it does.
    pub open spec fn cached(&self) -> Option<Seq<u128>> {
        match self.cached_bits {
            Some(v) => Some(v@),
            None => None,
        }
    }

    /// A copy of the proof.
    pub fn copy(&self) -> (p: Self)
        ensures
            p.randomness == self.randomness,
            proof_path(p.auth_path_aocl) == proof_path(self.auth_path_aocl),
            p.aocl_leaf_index == self.aocl_leaf_index,
            p.target_chunks@ == self.target_chunks@,
            p.cached() == self.cached(),
    {
        MsMembershipProof {
            randomness: self.randomness,
            auth_path_aocl: clone_proof(&self.auth_path_aocl),
            aocl_leaf_index: self.aocl_leaf_index,
            target_chunks: self.target_chunks.copy(),
            cached_bits: match &self.cached_bits {
                Some(v) => Some(copy_bit_indices(v)),
                None => None,
            },
        }
    }
}

} // verus!
