//! Removal records: what it takes to remove an item from the mutator set.

use crate::mutator_set::chunk_dictionary::ChunkDictionary;
use crate::mutator_set::set_commitment::SetCommitment;
use vstd::prelude::*;

verus! {

/// A copy of the bit indices `v`.
pub fn copy_bit_indices(v: &Vec<u128>) -> (w: Vec<u128>)
    ensures
        w@ == v@,
{
    let mut w: Vec<u128> = Vec::new();
    let mut i: usize = 0;
    while i < v.len()
        invariant
            0 <= i <= v.len(),
            w@ == v@.take(i as int),
        decreases v.len() - i,
    {
        w.push(v[i]);
        i += 1;
    }
    w
}

/// The bits of the Bloom filter that the removal of an item sets, together
/// with the inactive chunks among them and the proofs that these are leafs
/// of the inactive part of the filter.
#[derive(Debug)]
pub struct RemovalRecord {
    pub bit_indices: Vec<u128>,
    pub target_chunks: ChunkDictionary,
}

impl View for RemovalRecord {
    type V = (Seq<u128>, Seq<(u64, Seq<Seq<u64>>, Seq<u32>)>);

    open spec fn view(&self) -> (Seq<u128>, Seq<(u64, Seq<Seq<u64>>, Seq<u32>)>) {
        (self.bit_indices@, self.target_chunks@)
    }
}

/// The removal records as plain values.
pub open spec fn records_view(v: Seq<RemovalRecord>) -> Seq<
    (Seq<u128>, Seq<(u64, Seq<Seq<u64>>, Seq<u32>)>),
> {
    Seq::new(v.len(), |i: int| v[i]@)
}

impl RemovalRecord {
    /// Validates that a removal record is synchronised against the inactive
    /// part of the filter: its chunks are well-formed leafs of it, and each
    /// of its bits lies in the active window or in one of its chunks.
    pub fn validate(&self, mutator_set: &SetCommitment) -> (b: bool)
        ensures
            b == mutator_set.record_fits(*self),
    {
        mutator_set.can_remove(self)
    }

    /// A copy of the record.
    pub fn copy(&self) -> (r: Self)
        ensures
            r@ == self@,
    {
        RemovalRecord {
            bit_indices: copy_bit_indices(&self.bit_indices),
            target_chunks: self.target_chunks.copy(),
        }
    }
}

} // verus!
