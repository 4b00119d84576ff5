//! The mutator set as archival nodes hold it: every leaf of the commitment
//! list and every inactive chunk of the Bloom filter, so that additions and
//! removals can be taken back when the chain is reorganised.
//!
//! The commitment list shrinks logically: a leaf that is taken back stays
//! in store and no longer counts, and the next addition takes its place.

use crate::digest::Digest;
use crate::error::NodeError;
use crate::mmr::{digests_view, spec_mmr_bag_peaks, spec_mmr_peaks_from_leafs, MmrAccumulator};
use crate::mutator_set::chunk::chunk_hash;
use crate::mutator_set::mutator_set_accumulator::commitment_of;
use crate::mutator_set::ms_membership_proof::MsMembershipProof;
use crate::mutator_set::mutator_set_trait::MutatorSet;
use crate::mutator_set::removal_record::RemovalRecord;
use crate::mutator_set::set_commitment::{indices_of_proof, is_proof_in, verifies_in, SetValues};
use crate::mutator_set::active_window::{
    below, law_slide_and_back_is_identity, raised, slid, some_in_range, ActiveWindow,
};
use crate::mutator_set::addition_record::AdditionRecord;
use crate::mutator_set::chunk::Chunk;
use crate::mutator_set::set_commitment::{
    batch_index_of, chunk_wf, lemma_with_bit, lemma_with_bit_exists, lemma_with_index, slides_at,
    with_bit, with_index, SetCommitment,
};
use crate::mutator_set::shared::{BATCH_SIZE, CHUNK_SIZE, WINDOW_SIZE};
use crate::mutator_set::sorted::{
    ascending, ascending_below, insert_unique_u128, lemma_ascending_unique, lemma_strictly_ascending_unique_u128,
    remove_one, strictly_ascending_u128,
};
use vstd::prelude::*;

verus! {

/// The positions of each chunk of `v`.
pub open spec fn chunks_view(v: Seq<Chunk>) -> Seq<Seq<u32>> {
    Seq::new(v.len(), |i: int| v[i]@)
}

/// The first bit of the active window of a filter with the inactive chunks
/// `chunks`.
pub open spec fn filter_start(chunks: Seq<Seq<u32>>) -> int {
    chunks.len() * CHUNK_SIZE
}

/// Whether a filter is well-formed: the active window and every chunk are
/// in ascending order and within their bounds.
pub open spec fn filter_wf(active: Seq<u32>, chunks: Seq<Seq<u32>>) -> bool {
    &&& ascending(active)
    &&& forall|i: int| 0 <= i < active.len() ==> active[i] < WINDOW_SIZE
    &&& forall|i: int| 0 <= i < chunks.len() ==> chunk_wf(#[trigger] chunks[i])
}

/// Whether the bit with index `bit_index` is a bit of the filter: it lies in
/// an inactive chunk or in the active window.
pub open spec fn bit_in_filter(chunks: Seq<Seq<u32>>, bit_index: int) -> bool {
    0 <= bit_index < filter_start(chunks) + WINDOW_SIZE
}

/// How often the bit with index `bit_index` is set in the filter.
pub open spec fn count_at(active: Seq<u32>, chunks: Seq<Seq<u32>>, bit_index: int) -> nat {
    if !bit_in_filter(chunks, bit_index) {
        0
    } else if bit_index >= filter_start(chunks) {
        active.to_multiset().count((bit_index - filter_start(chunks)) as u32)
    } else {
        chunks[bit_index / (CHUNK_SIZE as int)].to_multiset().count(
            (bit_index % (CHUNK_SIZE as int)) as u32,
        )
    }
}

/// The ascending sequence with the members of `s` less one `x`.
pub open spec fn less_bit(s: Seq<u32>, x: u32) -> Seq<u32> {
    choose|t: Seq<u32>| ascending(t) && t.to_multiset() == s.to_multiset().remove(x)
}

/// An ascending sequence with the members of `s` less one `x` is
/// `less_bit(s, x)`.
pub proof fn lemma_less_bit(s: Seq<u32>, x: u32, t: Seq<u32>)
    requires
        ascending(t),
        t.to_multiset() == s.to_multiset().remove(x),
    ensures
        less_bit(s, x) == t,
{
    let c = less_bit(s, x);
    assert(ascending(c) && c.to_multiset() == s.to_multiset().remove(x));
    lemma_ascending_unique(c, t);
}

/// To set one bit of the filter: the active window, the inactive chunks and
/// the list of the bits flipped so far, after the bit with index `bit_index`
/// has been set. A bit that was set leaves all three as they are.
pub open spec fn set_step(state: (Seq<u32>, Seq<Seq<u32>>, Seq<u128>), bit_index: u128) -> (
    Seq<u32>,
    Seq<Seq<u32>>,
    Seq<u128>,
) {
    let (active, chunks, flipped) = state;
    if bit_index >= filter_start(chunks) {
        let relative = (bit_index - filter_start(chunks)) as u32;
        if active.contains(relative) {
            state
        } else {
            (with_bit(active, relative), chunks, with_index(flipped, bit_index))
        }
    } else {
        let c = bit_index as int / (CHUNK_SIZE as int);
        let bit = (bit_index as int % (CHUNK_SIZE as int)) as u32;
        if chunks[c].contains(bit) {
            state
        } else {
            (active, chunks.update(c, with_bit(chunks[c], bit)), with_index(flipped, bit_index))
        }
    }
}

/// To set the bits `bits` one after the other.
pub open spec fn set_all(state: (Seq<u32>, Seq<Seq<u32>>, Seq<u128>), bits: Seq<u128>) -> (
    Seq<u32>,
    Seq<Seq<u32>>,
    Seq<u128>,
)
    decreases bits.len(),
{
    if bits.len() == 0 {
        state
    } else {
        set_step(set_all(state, bits.drop_last()), bits.last())
    }
}

/// Whether the bit with index `bit_index` is set in the filter.
pub open spec fn is_set(active: Seq<u32>, chunks: Seq<Seq<u32>>, bit_index: u128) -> bool {
    if !bit_in_filter(chunks, bit_index as int) {
        false
    } else if bit_index >= filter_start(chunks) {
        active.contains((bit_index - filter_start(chunks)) as u32)
    } else {
        chunks[bit_index as int / (CHUNK_SIZE as int)].contains(
            (bit_index as int % (CHUNK_SIZE as int)) as u32,
        )
    }
}

/// To clear one bit of the filter, which is set.
pub open spec fn clear_step(state: (Seq<u32>, Seq<Seq<u32>>), bit_index: u128) -> (
    Seq<u32>,
    Seq<Seq<u32>>,
) {
    let (active, chunks) = state;
    if bit_index >= filter_start(chunks) {
        (less_bit(active, (bit_index - filter_start(chunks)) as u32), chunks)
    } else {
        let c = bit_index as int / (CHUNK_SIZE as int);
        let bit = (bit_index as int % (CHUNK_SIZE as int)) as u32;
        (active, chunks.update(c, less_bit(chunks[c], bit)))
    }
}

/// To clear the bits `bits` one after the other. There is no result where
/// one of them is not set when its turn comes.
pub open spec fn clear_all(state: (Seq<u32>, Seq<Seq<u32>>), bits: Seq<u128>) -> Option<
    (Seq<u32>, Seq<Seq<u32>>),
>
    decreases bits.len(),
{
    if bits.len() == 0 {
        Some(state)
    } else {
        match clear_all(state, bits.drop_last()) {
            Some(mid) => if is_set(mid.0, mid.1, bits.last()) {
                Some(clear_step(mid, bits.last()))
            } else {
                None
            },
            None => None,
        }
    }
}

/// Whether every one of the bits `bits` is a bit of the filter.
pub open spec fn all_in_filter(chunks: Seq<Seq<u32>>, bits: Seq<u128>) -> bool {
    forall|i: int| 0 <= i < bits.len() ==> bit_in_filter(chunks, #[trigger] bits[i] as int)
}

/// What an addition makes of the leafs, the chunks and the window.
pub open spec fn added_state(state: (Seq<Digest>, Seq<Seq<u32>>, Seq<u32>), leaf: Digest) -> (
    Seq<Digest>,
    Seq<Seq<u32>>,
    Seq<u32>,
) {
    let (leafs, chunks, active) = state;
    if slides_at(leafs.len() as u64) {
        (leafs.push(leaf), chunks.push(below(active, CHUNK_SIZE)), slid(active, CHUNK_SIZE))
    } else {
        (leafs.push(leaf), chunks, active)
    }
}

/// Whether the last addition can be taken back: there is a leaf, it is the
/// one that the addition record commits to, and where the window has to
/// slide back, there is a chunk to put back and the last chunk of the window
/// is empty.
pub open spec fn can_revert_add(state: (Seq<Digest>, Seq<Seq<u32>>, Seq<u32>), leaf: Digest) -> bool {
    let (leafs, chunks, active) = state;
    &&& leafs.len() > 0
    &&& leafs.last() == leaf
    &&& slides_at((leafs.len() - 1) as u64) ==> chunks.len() > 0 && !some_in_range(
        active,
        (WINDOW_SIZE - CHUNK_SIZE) as u32,
        WINDOW_SIZE,
    )
}

/// What taking the last addition back makes of the leafs, the chunks and the
/// window.
pub open spec fn reverted_state(state: (Seq<Digest>, Seq<Seq<u32>>, Seq<u32>)) -> (
    Seq<Digest>,
    Seq<Seq<u32>>,
    Seq<u32>,
) {
    let (leafs, chunks, active) = state;
    if slides_at((leafs.len() - 1) as u64) {
        (leafs.drop_last(), chunks.drop_last(), chunks.last() + raised(active, CHUNK_SIZE))
    } else {
        (leafs.drop_last(), chunks, active)
    }
}

/// The archival mutator set.
#[derive(Debug)]
pub struct ArchivalMutatorSet {
    /// The leafs of the commitment list that were ever stored; the first
    /// `live_leaf_count` of them count.
    pub aocl_leaves: Vec<Digest>,
    /// The number of leafs that count.
    pub live_leaf_count: u64,
    /// The inactive chunks of the Bloom filter, in their order.
    pub chunks: Vec<Chunk>,
    /// The active window of the Bloom filter.
    pub swbf_active: ActiveWindow,
}

impl ArchivalMutatorSet {
    /// The leafs of the commitment list that count.
    pub open spec fn leafs(&self) -> Seq<Digest> {
        self.aocl_leaves@.take(self.live_leaf_count as int)
    }

    /// The set as plain values: the leafs that count, the positions of the
    /// inactive chunks, and the positions of the active window.
    pub open spec fn state(&self) -> (Seq<Digest>, Seq<Seq<u32>>, Seq<u32>) {
        (self.leafs(), chunks_view(self.chunks@), self.swbf_active@)
    }

    /// The invariant of the set: the leafs that count are in store, there is
    /// one inactive chunk for each time the window slid, and the filter is
    /// well-formed.
    pub open spec fn wf(&self) -> bool {
        &&& self.live_leaf_count <= self.aocl_leaves@.len()
        &&& self.chunks@.len() == batch_index_of(self.live_leaf_count)
        &&& filter_wf(self.swbf_active@, chunks_view(self.chunks@))
    }

    /// The empty set: no leaf in store, no inactive chunk, no bit in the
    /// window.
    pub fn new() -> (s: Self)
        ensures
            s.wf(),
            s.live_leaf_count == 0,
            s.aocl_leaves@ == Seq::<Digest>::empty(),
            s.state() == (Seq::<Digest>::empty(), Seq::<Seq<u32>>::empty(), Seq::<u32>::empty()),
    {
        let s = ArchivalMutatorSet {
            aocl_leaves: Vec::new(),
            live_leaf_count: 0,
            chunks: Vec::new(),
            swbf_active: ActiveWindow::new(),
        };
        proof {
            assert(s.leafs() =~= Seq::<Digest>::empty());
            assert(chunks_view(s.chunks@) =~= Seq::<Seq<u32>>::empty());
        }
        s
    }

    /// The set that holds the given leafs, all of which count, the given
    /// inactive chunks and the given window, as they were stored. There is
    /// none where these are not a set: where there is not one chunk for
    /// each time the window slid, or the window or a chunk is not in
    /// ascending order within its bounds.
    pub fn restore(aocl_leaves: Vec<Digest>, chunks: Vec<Chunk>, swbf_active: ActiveWindow) -> (r:
        Option<Self>)
        ensures
            r is Some <==> chunks@.len() == batch_index_of(aocl_leaves@.len() as u64) && filter_wf(
                swbf_active@,
                chunks_view(chunks@),
            ),
            r matches Some(s) ==> s.wf() && s.aocl_leaves@ == aocl_leaves@ && s.live_leaf_count
                == aocl_leaves@.len() && s.chunks@ == chunks@ && s.swbf_active@ == swbf_active@,
    {
        let live_leaf_count = aocl_leaves.len() as u64;
        let batch: u64 = if live_leaf_count == 0 {
            0
        } else {
            (live_leaf_count - 1) / (BATCH_SIZE as u64)
        };
        if chunks.len() as u64 != batch {
            return None;
        }
        if !ascending_below(&swbf_active.sbf, WINDOW_SIZE) {
            return None;
        }
        let mut i: usize = 0;
        while i < chunks.len()
            invariant
                0 <= i <= chunks.len(),
                forall|j: int| 0 <= j < i ==> chunk_wf(#[trigger] chunks_view(chunks@)[j]),
            decreases chunks.len() - i,
        {
            assert(chunks_view(chunks@)[i as int] == chunks@[i as int]@);
            if !ascending_below(&chunks[i].relative_indices, CHUNK_SIZE) {
                assert(!chunk_wf(chunks_view(chunks@)[i as int]));
                return None;
            }
            i += 1;
        }
        Some(ArchivalMutatorSet { aocl_leaves, live_leaf_count, chunks, swbf_active })
    }

    /// The number of items that were added and not taken back.
    pub fn count_leaves(&self) -> (n: u64)
        ensures
            n == self.live_leaf_count,
    {
        self.live_leaf_count
    }

    /// Add the item that `addition_record` commits to. Where the window
    /// slides, the chunk that leaves it joins the inactive chunks.
    pub fn add(&mut self, addition_record: &AdditionRecord)
        requires
            old(self).wf(),
            old(self).live_leaf_count < u64::MAX,
        ensures
            final(self).wf(),
            final(self).state() == added_state(
                old(self).state(),
                addition_record.canonical_commitment,
            ),
            final(self).live_leaf_count == old(self).live_leaf_count + 1,
    {
        let item_index = self.live_leaf_count;
        let ghost before = self.leafs();
        self.aocl_leaves.truncate(item_index as usize);
        self.aocl_leaves.push(addition_record.canonical_commitment);
        self.live_leaf_count = item_index + 1;
        proof {
            assert(self.leafs() =~= before.push(addition_record.canonical_commitment));
            assert(before.len() == item_index);
        }
        if SetCommitment::window_slides(item_index) {
            let chunk = self.swbf_active.slid_chunk();
            let ghost chunks_before = chunks_view(self.chunks@);
            self.chunks.push(chunk);
            self.swbf_active.slide_window();
            proof {
                assert(chunks_view(self.chunks@) =~= chunks_before.push(
                    below(old(self).swbf_active@, CHUNK_SIZE),
                ));
                assert forall|i: int| 0 <= i < self.chunks@.len() implies chunk_wf(
                    #[trigger] chunks_view(self.chunks@)[i],
                ) by {
                    if i < chunks_before.len() {
                        assert(chunks_view(self.chunks@)[i] == chunks_before[i]);
                    }
                }
            }
        }
    }

    /// Take back the last addition, which `addition_record` made. Where the
    /// addition made the window slide, the chunk that left it is put back.
    /// Where the addition cannot be taken back the set stays as it is.
    pub fn revert_add(&mut self, addition_record: &AdditionRecord) -> (r: Result<(), NodeError>)
        requires
            old(self).wf(),
        ensures
            final(self).wf(),
            r is Ok <==> can_revert_add(old(self).state(), addition_record.canonical_commitment),
            r is Ok ==> final(self).state() == reverted_state(old(self).state())
                && final(self).live_leaf_count == old(self).live_leaf_count - 1,
            r matches Err(e) ==> e == NodeError::MutatorSetInvariantViolated && *final(self)
                == *old(self),
    {
        if self.live_leaf_count == 0 {
            return Err(NodeError::MutatorSetInvariantViolated);
        }
        let removed_add_index = self.live_leaf_count - 1;
        let stored: usize = self.aocl_leaves.len();
        let ghost before = self.leafs();
        proof {
            assert(removed_add_index < stored);
            assert(before.len() == self.live_leaf_count);
            assert(before.last() == self.aocl_leaves@[removed_add_index as int]);
        }
        let last_leaf = self.aocl_leaves[removed_add_index as usize];
        if last_leaf != addition_record.canonical_commitment {
            return Err(NodeError::MutatorSetInvariantViolated);
        }
        if !SetCommitment::window_slides_back(removed_add_index) {
            self.live_leaf_count = removed_add_index;
            proof {
                assert(self.leafs() =~= before.drop_last());
            }
            return Ok(());
        }
        if self.chunks.len() == 0 || self.swbf_active.hasset(WINDOW_SIZE - CHUNK_SIZE, WINDOW_SIZE) {
            return Err(NodeError::MutatorSetInvariantViolated);
        }
        let ghost chunks_before = chunks_view(self.chunks@);
        let last_inactive_chunk = self.chunks.pop().unwrap();
        assert(chunk_wf(chunks_before[chunks_before.len() - 1]));
        self.swbf_active.slide_window_back(&last_inactive_chunk);
        self.live_leaf_count = removed_add_index;
        proof {
            assert(self.leafs() =~= before.drop_last());
            assert(chunks_view(self.chunks@) =~= chunks_before.drop_last());
            assert forall|i: int| 0 <= i < self.chunks@.len() implies chunk_wf(
                #[trigger] chunks_view(self.chunks@)[i],
            ) by {
                assert(chunks_view(self.chunks@)[i] == chunks_before[i]);
            }
        }
        Ok(())
    }

    /// Whether every one of the bits is a bit of the filter.
    pub fn bits_in_filter(&self, bits: &Vec<u128>) -> (b: bool)
        ensures
            b == all_in_filter(chunks_view(self.chunks@), bits@),
    {
        let bound: u128 = (self.chunks.len() as u128) * (CHUNK_SIZE as u128) + (WINDOW_SIZE as u128);
        let mut k: usize = 0;
        while k < bits.len()
            invariant
                0 <= k <= bits.len(),
                bound == filter_start(chunks_view(self.chunks@)) + WINDOW_SIZE,
                forall|i: int|
                    0 <= i < k ==> bit_in_filter(chunks_view(self.chunks@), #[trigger] bits@[i] as int),
            decreases bits.len() - k,
        {
            if bits[k] >= bound {
                assert(!bit_in_filter(chunks_view(self.chunks@), bits@[k as int] as int));
                return false;
            }
            k += 1;
        }
        true
    }

    /// Set the bits `bits` of the filter, and put the indices of those that
    /// were not set before into `flipped`, which stays in ascending order.
    pub fn set_bits(&mut self, bits: &Vec<u128>, flipped: &mut Vec<u128>)
        requires
            old(self).wf(),
            all_in_filter(chunks_view(old(self).chunks@), bits@),
            strictly_ascending_u128(old(flipped)@),
        ensures
            final(self).wf(),
            final(self).leafs() == old(self).leafs(),
            final(self).live_leaf_count == old(self).live_leaf_count,
            strictly_ascending_u128(final(flipped)@),
            (final(self).swbf_active@, chunks_view(final(self).chunks@), final(flipped)@)
                == set_all(
                (old(self).swbf_active@, chunks_view(old(self).chunks@), old(flipped)@),
                bits@,
            ),
    {
        let start: u128 = (self.chunks.len() as u128) * (CHUNK_SIZE as u128);
        let ghost initial = (self.swbf_active@, chunks_view(self.chunks@), flipped@);
        let mut k: usize = 0;
        while k < bits.len()
            invariant
                0 <= k <= bits.len(),
                self.wf(),
                self.aocl_leaves == old(self).aocl_leaves,
                self.live_leaf_count == old(self).live_leaf_count,
                self.chunks@.len() == old(self).chunks@.len(),
                start == filter_start(chunks_view(self.chunks@)),
                all_in_filter(chunks_view(old(self).chunks@), bits@),
                strictly_ascending_u128(flipped@),
                initial == (old(self).swbf_active@, chunks_view(old(self).chunks@), old(flipped)@),
                (self.swbf_active@, chunks_view(self.chunks@), flipped@) == set_all(
                    initial,
                    bits@.take(k as int),
                ),
            decreases bits.len() - k,
        {
            let bit_index = bits[k];
            let ghost before = (self.swbf_active@, chunks_view(self.chunks@), flipped@);
            proof {
                assert(bits@.take(k + 1).drop_last() =~= bits@.take(k as int));
                assert(bits@.take(k + 1).last() == bit_index);
                assert(bit_in_filter(chunks_view(old(self).chunks@), bits@[k as int] as int));
            }
            if bit_index >= start {
                let relative: u32 = (bit_index - start) as u32;
                if !self.swbf_active.contains(relative) {
                    self.swbf_active.insert(relative);
                    insert_unique_u128(flipped, bit_index);
                    proof {
                        lemma_with_bit(before.0, relative, self.swbf_active@);
                        lemma_with_index(before.2, bit_index);
                        lemma_strictly_ascending_unique_u128(
                            flipped@,
                            with_index(before.2, bit_index),
                        );
                    }
                }
            } else {
                let stored: usize = self.chunks.len();
                assert(bit_index / (CHUNK_SIZE as u128) < stored);
                let c: usize = (bit_index / (CHUNK_SIZE as u128)) as usize;
                let bit: u32 = (bit_index % (CHUNK_SIZE as u128)) as u32;
                assert(c as int == bit_index as int / (CHUNK_SIZE as int));
                assert(bit == (bit_index as int % (CHUNK_SIZE as int)) as u32);
                assert(chunks_view(self.chunks@)[c as int] == self.chunks@[c as int]@);
                assert(chunk_wf(chunks_view(self.chunks@)[c as int]));
                if !self.chunks[c].get_bit(bit) {
                    let mut chunk = self.chunks[c].clone();
                    chunk.set_bit(bit);
                    self.chunks[c] = chunk;
                    insert_unique_u128(flipped, bit_index);
                    proof {
                        lemma_with_bit(before.1[c as int], bit, chunk@);
                        lemma_with_index(before.2, bit_index);
                        lemma_strictly_ascending_unique_u128(
                            flipped@,
                            with_index(before.2, bit_index),
                        );
                        assert(chunks_view(self.chunks@) =~= before.1.update(c as int, chunk@));
                        assert forall|i: int| 0 <= i < self.chunks@.len() implies chunk_wf(
                            #[trigger] chunks_view(self.chunks@)[i],
                        ) by {
                            if i != c {
                                assert(chunks_view(self.chunks@)[i] == before.1[i]);
                            }
                        }
                    }
                }
            }
            k += 1;
        }
        proof {
            assert(bits@.take(k as int) =~= bits@);
        }
    }

    /// Whether the bit with index `bit_index` is set in the filter.
    pub fn bit_is_set(&self, bit_index: u128) -> (b: bool)
        requires
            self.wf(),
        ensures
            b == is_set(self.swbf_active@, chunks_view(self.chunks@), bit_index),
    {
        let start: u128 = (self.chunks.len() as u128) * (CHUNK_SIZE as u128);
        if bit_index >= start + (WINDOW_SIZE as u128) {
            false
        } else if bit_index >= start {
            self.swbf_active.contains((bit_index - start) as u32)
        } else {
            let stored: usize = self.chunks.len();
            assert(bit_index / (CHUNK_SIZE as u128) < stored);
            let c: usize = (bit_index / (CHUNK_SIZE as u128)) as usize;
            assert(c as int == bit_index as int / (CHUNK_SIZE as int));
            assert(chunks_view(self.chunks@)[c as int] == self.chunks@[c as int]@);
            self.chunks[c].get_bit((bit_index % (CHUNK_SIZE as u128)) as u32)
        }
    }

    /// Clear the bit with index `bit_index`, which is set.
    pub fn clear_bit(&mut self, bit_index: u128)
        requires
            old(self).wf(),
            is_set(old(self).swbf_active@, chunks_view(old(self).chunks@), bit_index),
        ensures
            final(self).wf(),
            final(self).aocl_leaves == old(self).aocl_leaves,
            final(self).live_leaf_count == old(self).live_leaf_count,
            (final(self).swbf_active@, chunks_view(final(self).chunks@)) == clear_step(
                (old(self).swbf_active@, chunks_view(old(self).chunks@)),
                bit_index,
            ),
    {
        let start: u128 = (self.chunks.len() as u128) * (CHUNK_SIZE as u128);
        let ghost before = (self.swbf_active@, chunks_view(self.chunks@));
        if bit_index >= start {
            let relative: u32 = (bit_index - start) as u32;
            self.swbf_active.remove(relative);
            proof {
                lemma_less_bit(before.0, relative, self.swbf_active@);
            }
        } else {
            let stored: usize = self.chunks.len();
            assert(bit_index / (CHUNK_SIZE as u128) < stored);
            let c: usize = (bit_index / (CHUNK_SIZE as u128)) as usize;
            let bit: u32 = (bit_index % (CHUNK_SIZE as u128)) as u32;
            assert(c as int == bit_index as int / (CHUNK_SIZE as int));
            assert(bit == (bit_index as int % (CHUNK_SIZE as int)) as u32);
            assert(chunks_view(self.chunks@)[c as int] == self.chunks@[c as int]@);
            assert(chunk_wf(chunks_view(self.chunks@)[c as int]));
            let mut positions = self.chunks[c].to_indices();
            remove_one(&mut positions, bit);
            let chunk = Chunk { relative_indices: positions };
            self.chunks[c] = chunk;
            proof {
                lemma_less_bit(before.1[c as int], bit, chunk@);
                assert(chunks_view(self.chunks@) =~= before.1.update(c as int, chunk@));
                assert forall|i: int| 0 <= i < self.chunks@.len() implies chunk_wf(
                    #[trigger] chunks_view(self.chunks@)[i],
                ) by {
                    if i != c {
                        assert(chunks_view(self.chunks@)[i] == before.1[i]);
                    } else {
                        assert forall|j: int| 0 <= j < chunk@.len() implies chunk@[j]
                            < CHUNK_SIZE by {
                            assert(before.1[c as int].contains(chunk@[j]));
                            let m = choose|m: int|
                                0 <= m < before.1[c as int].len() && before.1[c as int][m]
                                    == chunk@[j];
                            assert(before.1[c as int][m] < CHUNK_SIZE);
                        }
                    }
                }
            }
        }
    }

    /// Take back removals: clear the bits `diff_indices`, which the removals
    /// flipped. Every one of them has to be set when its turn comes; else
    /// the set stays as it is.
    pub fn revert_remove(&mut self, diff_indices: &Vec<u128>) -> (r: Result<(), NodeError>)
        requires
            old(self).wf(),
        ensures
            final(self).wf(),
            final(self).leafs() == old(self).leafs(),
            final(self).live_leaf_count == old(self).live_leaf_count,
            match r {
                Ok(()) => Some((final(self).swbf_active@, chunks_view(final(self).chunks@)))
                    == clear_all(
                    (old(self).swbf_active@, chunks_view(old(self).chunks@)),
                    diff_indices@,
                ),
                Err(e) => e == NodeError::MutatorSetInvariantViolated && clear_all(
                    (old(self).swbf_active@, chunks_view(old(self).chunks@)),
                    diff_indices@,
                ) is None && final(self).state() == old(self).state(),
            },
    {
        let mut work = self.copy();
        let ghost initial = (self.swbf_active@, chunks_view(self.chunks@));
        let mut k: usize = 0;
        while k < diff_indices.len()
            invariant
                0 <= k <= diff_indices.len(),
                *self == *old(self),
                self.wf(),
                work.wf(),
                work.aocl_leaves@ == self.aocl_leaves@,
                work.live_leaf_count == self.live_leaf_count,
                initial == (self.swbf_active@, chunks_view(self.chunks@)),
                Some((work.swbf_active@, chunks_view(work.chunks@))) == clear_all(
                    initial,
                    diff_indices@.take(k as int),
                ),
            decreases diff_indices.len() - k,
        {
            proof {
                assert(diff_indices@.take(k + 1).drop_last() =~= diff_indices@.take(k as int));
                assert(diff_indices@.take(k + 1).last() == diff_indices@[k as int]);
            }
            if !work.bit_is_set(diff_indices[k]) {
                proof {
                    lemma_clear_fails(initial, diff_indices@, k + 1);
                }
                return Err(NodeError::MutatorSetInvariantViolated);
            }
            work.clear_bit(diff_indices[k]);
            k += 1;
        }
        proof {
            assert(diff_indices@.take(k as int) =~= diff_indices@);
        }
        *self = work;
        Ok(())
    }

    /// A copy of the set.
    pub fn copy(&self) -> (s: Self)
        ensures
            s.aocl_leaves@ == self.aocl_leaves@,
            s.live_leaf_count == self.live_leaf_count,
            chunks_view(s.chunks@) == chunks_view(self.chunks@),
            s.swbf_active@ == self.swbf_active@,
            self.wf() ==> s.wf(),
    {
        let mut chunks: Vec<Chunk> = Vec::new();
        let mut i: usize = 0;
        while i < self.chunks.len()
            invariant
                0 <= i <= self.chunks.len(),
                chunks@.len() == i,
                forall|j: int| 0 <= j < i ==> chunks@[j]@ == self.chunks@[j]@,
            decreases self.chunks.len() - i,
        {
            chunks.push(self.chunks[i].clone());
            i += 1;
        }
        let s = ArchivalMutatorSet {
            aocl_leaves: crate::mmr::copy_digests(&self.aocl_leaves),
            live_leaf_count: self.live_leaf_count,
            chunks,
            swbf_active: self.swbf_active.clone(),
        };
        proof {
            assert(chunks_view(s.chunks@) =~= chunks_view(self.chunks@));
        }
        s
    }
}

/// What additions make of the leafs, the chunks and the window, one after
/// the other.
pub open spec fn added_all(state: (Seq<Digest>, Seq<Seq<u32>>, Seq<u32>), additions: Seq<
    AdditionRecord,
>) -> (Seq<Digest>, Seq<Seq<u32>>, Seq<u32>)
    decreases additions.len(),
{
    if additions.len() == 0 {
        state
    } else {
        added_state(added_all(state, additions.drop_last()), additions.last().canonical_commitment)
    }
}

/// What removals make of the window, the chunks and the list of flipped
/// bits, one record after the other.
pub open spec fn removed_all(state: (Seq<u32>, Seq<Seq<u32>>, Seq<u128>), removals: Seq<
    RemovalRecord,
>) -> (Seq<u32>, Seq<Seq<u32>>, Seq<u128>)
    decreases removals.len(),
{
    if removals.len() == 0 {
        state
    } else {
        set_all(removed_all(state, removals.drop_last()), removals.last().bit_indices@)
    }
}

/// Whether the removals can be applied: every bit of every record is a bit
/// of the filter.
pub open spec fn removals_in_filter(chunks: Seq<Seq<u32>>, removals: Seq<RemovalRecord>) -> bool {
    forall|i: int|
        0 <= i < removals.len() ==> all_in_filter(chunks, (#[trigger] removals[i]).bit_indices@)
}

/// What a block makes of the set: first its additions, then its removals.
/// The last part of the result lists the bits that the block flipped.
pub open spec fn block_applied(
    state: (Seq<Digest>, Seq<Seq<u32>>, Seq<u32>),
    additions: Seq<AdditionRecord>,
    removals: Seq<RemovalRecord>,
) -> ((Seq<Digest>, Seq<Seq<u32>>, Seq<u32>), Seq<u128>) {
    let added = added_all(state, additions);
    let removed = removed_all((added.2, added.1, Seq::<u128>::empty()), removals);
    ((added.0, removed.1, removed.0), removed.2)
}

/// Whether a block can be applied: the commitment list has room for its
/// additions, and after them every bit of its removals is a bit of the
/// filter.
pub open spec fn block_applies(
    state: (Seq<Digest>, Seq<Seq<u32>>, Seq<u32>),
    additions: Seq<AdditionRecord>,
    removals: Seq<RemovalRecord>,
) -> bool {
    &&& state.0.len() + additions.len() <= u64::MAX
    &&& removals_in_filter(added_all(state, additions).1, removals)
}

/// What taking back the additions, the last one first, makes of the set.
/// There is no result where one of them cannot be taken back.
pub open spec fn reverted_all(state: (Seq<Digest>, Seq<Seq<u32>>, Seq<u32>), additions: Seq<
    AdditionRecord,
>) -> Option<(Seq<Digest>, Seq<Seq<u32>>, Seq<u32>)>
    decreases additions.len(),
{
    if additions.len() == 0 {
        Some(state)
    } else if can_revert_add(state, additions.last().canonical_commitment) {
        reverted_all(reverted_state(state), additions.drop_last())
    } else {
        None
    }
}

/// What rolling a block back makes of the set: first its additions are
/// taken back, the last one first, then the bits that it flipped are
/// cleared. There is no result where an addition cannot be taken back or a
/// bit is not set.
pub open spec fn block_reverted(
    state: (Seq<Digest>, Seq<Seq<u32>>, Seq<u32>),
    additions: Seq<AdditionRecord>,
    diff: Seq<u128>,
) -> Option<(Seq<Digest>, Seq<Seq<u32>>, Seq<u32>)> {
    match reverted_all(state, additions) {
        Some(reverted) => match clear_all((reverted.2, reverted.1), diff) {
            Some(cleared) => Some((reverted.0, cleared.1, cleared.0)),
            None => None,
        },
        None => None,
    }
}

/// The hashes of the chunks.
pub open spec fn hashes_of(chunks: Seq<Seq<u32>>) -> Seq<Seq<u64>> {
    Seq::new(chunks.len(), |i: int| chunk_hash(chunks[i]))
}

/// The digest that commits to the set with the given leafs, chunks and
/// window.
pub open spec fn commitment_of_state(state: (Seq<Digest>, Seq<Seq<u32>>, Seq<u32>)) -> Seq<u64> {
    commitment_of(
        spec_mmr_bag_peaks(spec_mmr_peaks_from_leafs(digests_view(state.0)), state.0.len() as u64),
        spec_mmr_bag_peaks(spec_mmr_peaks_from_leafs(hashes_of(state.1)), state.1.len() as u64),
        chunk_hash(state.2),
    )
}

impl ArchivalMutatorSet {
    /// The hashes of the inactive chunks.
    pub open spec fn chunk_hashes(&self) -> Seq<Seq<u64>> {
        hashes_of(chunks_view(self.chunks@))
    }

    /// The digest that commits to the set.
    pub open spec fn commitment(&self) -> Seq<u64> {
        commitment_of_state(self.state())
    }

    /// What the operations of a mutator set read of the set: the peaks are
    /// those of the ranges that hold the leafs that count and the hashes of
    /// the inactive chunks.
    pub open spec fn values(&self) -> SetValues {
        SetValues {
            aocl_leaf_count: self.live_leaf_count,
            aocl_peaks: spec_mmr_peaks_from_leafs(digests_view(self.leafs())),
            swbf_inactive_leaf_count: self.chunks@.len() as u64,
            swbf_inactive_peaks: spec_mmr_peaks_from_leafs(self.chunk_hashes()),
            swbf_active: self.swbf_active@,
        }
    }

    /// The set as a commitment: the accumulators of the commitment list and
    /// of the inactive chunks, and the active window.
    pub fn accumulator(&self) -> (s: SetCommitment)
        requires
            self.wf(),
        ensures
            s.wf(),
            s.values() == self.values(),
            s.aocl.leaf_count() == self.live_leaf_count,
            s.aocl.peaks_view() == spec_mmr_peaks_from_leafs(digests_view(self.leafs())),
            s.swbf_inactive.leaf_count() == self.chunks@.len(),
            s.swbf_inactive.peaks_view() == spec_mmr_peaks_from_leafs(self.chunk_hashes()),
            s.swbf_active@ == self.swbf_active@,
            s.commitment() == self.commitment(),
    {
        let mut leafs: Vec<Digest> = Vec::new();
        let mut i: usize = 0;
        let stored: usize = self.aocl_leaves.len();
        while i < self.live_leaf_count as usize
            invariant
                0 <= i <= self.live_leaf_count <= stored,
                stored == self.aocl_leaves@.len(),
                leafs@ == self.aocl_leaves@.take(i as int),
            decreases self.live_leaf_count - i,
        {
            leafs.push(self.aocl_leaves[i]);
            proof {
                assert(leafs@ =~= self.aocl_leaves@.take(i + 1));
            }
            i += 1;
        }
        let mut hashes: Vec<Digest> = Vec::new();
        let mut j: usize = 0;
        while j < self.chunks.len()
            invariant
                0 <= j <= self.chunks.len(),
                hashes@.len() == j,
                forall|k: int| 0 <= k < j ==> hashes@[k]@ == chunk_hash(self.chunks@[k]@),
            decreases self.chunks.len() - j,
        {
            hashes.push(self.chunks[j].hash());
            j += 1;
        }
        proof {
            assert(digests_view(hashes@) =~= self.chunk_hashes());
            assert(leafs@ =~= self.leafs());
        }
        SetCommitment {
            aocl: MmrAccumulator::new_from_leafs(&leafs),
            swbf_inactive: MmrAccumulator::new_from_leafs(&hashes),
            swbf_active: self.swbf_active.clone(),
        }
    }

    /// The digest that commits to the set.
    pub fn get_commitment(&self) -> (d: Digest)
        requires
            self.wf(),
        ensures
            d@ == self.commitment(),
    {
        self.accumulator().get_commitment()
    }

    /// Apply a block: add its additions, then set the bits of its removals.
    /// Returns the indices of the bits that the block flipped, in ascending
    /// order. Where the block cannot be applied the set stays as it is.
    ///
    /// The set holds every chunk of the filter itself, so it reads the bit
    /// indices of a removal record and not the chunks that the record
    /// brings along: the records of a block need not be kept up to date
    /// while the block is applied. A holder of an accumulator keeps them up
    /// to date with the batch updates of
    /// [`RemovalRecord`](crate::mutator_set::removal_record::RemovalRecord).
    pub fn apply_block(&mut self, additions: &Vec<AdditionRecord>, removals: &Vec<RemovalRecord>) -> (r:
        Result<Vec<u128>, NodeError>)
        requires
            old(self).wf(),
        ensures
            final(self).wf(),
            r is Ok <==> block_applies(old(self).state(), additions@, removals@),
            match r {
                Ok(flipped) => (final(self).state(), flipped@) == block_applied(
                    old(self).state(),
                    additions@,
                    removals@,
                ) && strictly_ascending_u128(flipped@),
                Err(e) => final(self).state() == old(self).state() && (e
                    == NodeError::CapacityExceeded || e == NodeError::MutatorSetInvariantViolated),
            },
    {
        let mut work = self.copy();
        let mut i: usize = 0;
        while i < additions.len()
            invariant
                0 <= i <= additions.len(),
                *self == *old(self),
                self.wf(),
                work.wf(),
                work.state() == added_all(self.state(), additions@.take(i as int)),
                work.live_leaf_count == self.live_leaf_count + i,
            decreases additions.len() - i,
        {
            proof {
                assert(additions@.take(i + 1).drop_last() =~= additions@.take(i as int));
            }
            if work.live_leaf_count == u64::MAX {
                proof {
                    assert(self.state().0.len() == self.live_leaf_count);
                }
                return Err(NodeError::CapacityExceeded);
            }
            work.add(&additions[i]);
            i += 1;
        }
        proof {
            assert(additions@.take(i as int) =~= additions@);
            assert(self.state().0.len() == self.live_leaf_count);
        }
        let ghost added = work.state();
        let mut flipped: Vec<u128> = Vec::new();
        let mut j: usize = 0;
        while j < removals.len()
            invariant
                0 <= j <= removals.len(),
                *self == *old(self),
                self.wf(),
                work.wf(),
                work.leafs() == added.0,
                added == added_all(self.state(), additions@),
                self.state().0.len() + additions@.len() <= u64::MAX,
                chunks_view(work.chunks@).len() == added.1.len(),
                strictly_ascending_u128(flipped@),
                removals_in_filter(added.1, removals@.take(j as int)),
                (work.swbf_active@, chunks_view(work.chunks@), flipped@) == removed_all(
                    (added.2, added.1, Seq::<u128>::empty()),
                    removals@.take(j as int),
                ),
            decreases removals.len() - j,
        {
            proof {
                assert(removals@.take(j + 1).drop_last() =~= removals@.take(j as int));
            }
            if !work.bits_in_filter(&removals[j].bit_indices) {
                proof {
                    assert(!removals_in_filter(added.1, removals@)) by {
                        assert(removals@[j as int] == removals[j as int]);
                        assert(!all_in_filter(added.1, removals@[j as int].bit_indices@)) by {
                            lemma_in_filter_by_len(
                                chunks_view(work.chunks@),
                                added.1,
                                removals@[j as int].bit_indices@,
                            );
                        }
                    }
                }
                return Err(NodeError::MutatorSetInvariantViolated);
            }
            let ghost before_chunks = chunks_view(work.chunks@);
            let ghost before_active = work.swbf_active@;
            let ghost before_flipped = flipped@;
            work.set_bits(&removals[j].bit_indices, &mut flipped);
            proof {
                lemma_in_filter_by_len(before_chunks, added.1, removals@[j as int].bit_indices@);
                let t = removals@.take(j + 1);
                assert forall|k: int| 0 <= k < t.len() implies all_in_filter(
                    added.1,
                    (#[trigger] t[k]).bit_indices@,
                ) by {
                    if k < j {
                        assert(removals@.take(j as int)[k] == t[k]);
                    }
                }
                lemma_set_all_len(
                    (before_active, before_chunks, before_flipped),
                    removals@[j as int].bit_indices@,
                );
            }
            j += 1;
        }
        proof {
            assert(removals@.take(j as int) =~= removals@);
        }
        *self = work;
        Ok(flipped)
    }

    /// Roll a block back: take back its additions, the last one first, then
    /// clear the bits `diff` that it flipped. Where the block cannot be
    /// rolled back the set stays as it is.
    pub fn revert_block(&mut self, additions: &Vec<AdditionRecord>, diff: &Vec<u128>) -> (r: Result<
        (),
        NodeError,
    >)
        requires
            old(self).wf(),
        ensures
            final(self).wf(),
            match r {
                Ok(()) => Some(final(self).state()) == block_reverted(
                    old(self).state(),
                    additions@,
                    diff@,
                ),
                Err(e) => e == NodeError::MutatorSetInvariantViolated && block_reverted(
                    old(self).state(),
                    additions@,
                    diff@,
                ) is None && final(self).state() == old(self).state(),
            },
    {
        let mut work = self.copy();
        let mut i: usize = additions.len();
        proof {
            assert(additions@.take(i as int) =~= additions@);
        }
        while i > 0
            invariant
                0 <= i <= additions.len(),
                *self == *old(self),
                self.wf(),
                work.wf(),
                reverted_all(work.state(), additions@.take(i as int)) == reverted_all(
                    self.state(),
                    additions@,
                ),
            decreases i,
        {
            proof {
                assert(additions@.take(i as int).drop_last() =~= additions@.take(i - 1));
                assert(additions@.take(i as int).last() == additions@[i - 1]);
            }
            i -= 1;
            match work.revert_add(&additions[i]) {
                Ok(()) => {},
                Err(e) => {
                    return Err(e);
                },
            }
        }
        let ghost reverted = work.state();
        match work.revert_remove(diff) {
            Ok(()) => {},
            Err(e) => {
                return Err(e);
            },
        }
        *self = work;
        Ok(())
    }
}

impl MutatorSet for ArchivalMutatorSet {
    open spec fn valid(&self) -> bool {
        self.wf()
    }

    open spec fn has_room(&self) -> bool {
        self.live_leaf_count < u64::MAX
    }

    fn default() -> (s: Self)
        ensures
            s.live_leaf_count == 0,
            s.aocl_leaves@ == Seq::<Digest>::empty(),
            s.state() == (Seq::<Digest>::empty(), Seq::<Seq<u32>>::empty(), Seq::<u32>::empty()),
    {
        ArchivalMutatorSet::new()
    }

    fn prove(&self, item: &Digest, randomness: &Digest, store_bits: bool) -> (mp: MsMembershipProof)
        ensures
            is_proof_in(self.values(), item@, randomness@, store_bits, mp),
    {
        self.accumulator().prove(item, randomness, store_bits)
    }

    fn verify(&self, item: &Digest, membership_proof: &MsMembershipProof) -> (b: bool)
        ensures
            b == verifies_in(self.values(), item@, *membership_proof),
    {
        self.accumulator().verify(item, membership_proof)
    }

    fn commit(&self, item: &Digest, randomness: &Digest) -> (r: AdditionRecord) {
        AdditionRecord::new(crate::tip5::hash_pair(item, randomness))
    }

    fn drop(&self, item: &Digest, membership_proof: &MsMembershipProof) -> (r: Option<
        RemovalRecord,
    >)
        ensures
            match r {
                Some(rr) => Some(rr.bit_indices@) == indices_of_proof(item@, *membership_proof)
                    && rr.target_chunks@ == membership_proof.target_chunks@,
                None => indices_of_proof(item@, *membership_proof) is None,
            },
    {
        let bit_indices = match &membership_proof.cached_bits {
            Some(bits) => Some(crate::mutator_set::removal_record::copy_bit_indices(bits)),
            None => crate::mutator_set::set_commitment::get_swbf_indices(
                item,
                &membership_proof.randomness,
                membership_proof.aocl_leaf_index,
            ),
        };
        match bit_indices {
            Some(bit_indices) => Some(
                RemovalRecord { bit_indices, target_chunks: membership_proof.target_chunks.copy() },
            ),
            None => None,
        }
    }

    fn add(&mut self, addition_record: &AdditionRecord)
        ensures
            final(self).state() == added_state(
                old(self).state(),
                addition_record.canonical_commitment,
            ),
    {
        ArchivalMutatorSet::add(self, addition_record);
    }

    fn remove(&mut self, removal_record: &RemovalRecord) -> (applied: bool)
        ensures
            applied == all_in_filter(chunks_view(old(self).chunks@), removal_record.bit_indices@),
            !applied ==> *final(self) == *old(self),
            applied ==> final(self).leafs() == old(self).leafs() && (
            final(self).swbf_active@,
            chunks_view(final(self).chunks@),
        ) == ({
                let out = set_all(
                    (
                        old(self).swbf_active@,
                        chunks_view(old(self).chunks@),
                        Seq::<u128>::empty(),
                    ),
                    removal_record.bit_indices@,
                );
                (out.0, out.1)
            }),
    {
        if !self.bits_in_filter(&removal_record.bit_indices) {
            return false;
        }
        let mut flipped: Vec<u128> = Vec::new();
        self.set_bits(&removal_record.bit_indices, &mut flipped);
        true
    }
}

/// Filters with as many chunks have the same bits.
pub proof fn lemma_in_filter_by_len(a: Seq<Seq<u32>>, b: Seq<Seq<u32>>, bits: Seq<u128>)
    requires
        a.len() == b.len(),
    ensures
        all_in_filter(a, bits) == all_in_filter(b, bits),
{
    if all_in_filter(a, bits) {
        assert forall|i: int| 0 <= i < bits.len() implies bit_in_filter(
            b,
            #[trigger] bits[i] as int,
        ) by {
            assert(bit_in_filter(a, bits[i] as int));
        }
    }
    if all_in_filter(b, bits) {
        assert forall|i: int| 0 <= i < bits.len() implies bit_in_filter(
            a,
            #[trigger] bits[i] as int,
        ) by {
            assert(bit_in_filter(b, bits[i] as int));
        }
    }
}

/// To set bits of the filter leaves the number of chunks as it is.
pub proof fn lemma_set_all_len(state: (Seq<u32>, Seq<Seq<u32>>, Seq<u128>), bits: Seq<u128>)
    requires
        all_in_filter(state.1, bits),
    ensures
        set_all(state, bits).1.len() == state.1.len(),
    decreases bits.len(),
{
    if bits.len() > 0 {
        let rest = bits.drop_last();
        assert forall|i: int| 0 <= i < rest.len() implies bit_in_filter(
            state.1,
            #[trigger] rest[i] as int,
        ) by {
            assert(rest[i] == bits[i]);
        }
        lemma_set_all_len(state, rest);
        assert(bit_in_filter(state.1, bits[bits.len() - 1] as int));
    }
}

/// A bit is set where it is counted once at least.
pub proof fn lemma_is_set_counts(active: Seq<u32>, chunks: Seq<Seq<u32>>, bit_index: u128)
    ensures
        is_set(active, chunks, bit_index) <==> count_at(active, chunks, bit_index as int) > 0,
{
    if bit_in_filter(chunks, bit_index as int) {
        if bit_index >= filter_start(chunks) {
            vstd::seq_lib::to_multiset_contains(
                active,
                (bit_index - filter_start(chunks)) as u32,
            );
        } else {
            vstd::seq_lib::to_multiset_contains(
                chunks[bit_index as int / (CHUNK_SIZE as int)],
                (bit_index as int % (CHUNK_SIZE as int)) as u32,
            );
        }
    }
}

/// What setting one bit does to a well-formed filter: the filter stays
/// well-formed, and the bit is counted once more where it was not set, while
/// every other bit is counted as before.
pub proof fn lemma_set_step(state: (Seq<u32>, Seq<Seq<u32>>, Seq<u128>), bit_index: u128)
    requires
        filter_wf(state.0, state.1),
        bit_in_filter(state.1, bit_index as int),
        strictly_ascending_u128(state.2),
    ensures
        filter_wf(set_step(state, bit_index).0, set_step(state, bit_index).1),
        set_step(state, bit_index).1.len() == state.1.len(),
        strictly_ascending_u128(set_step(state, bit_index).2),
        is_set(state.0, state.1, bit_index) ==> set_step(state, bit_index) == state,
        !is_set(state.0, state.1, bit_index) ==> set_step(state, bit_index).2.to_set()
            == state.2.to_set().insert(bit_index),
        forall|c: int|
            count_at(set_step(state, bit_index).0, set_step(state, bit_index).1, c) == count_at(
                state.0,
                state.1,
                c,
            ) + if c == bit_index && !is_set(state.0, state.1, bit_index) {
                1nat
            } else {
                0nat
            },
{
    let (active, chunks, flipped) = state;
    let out = set_step(state, bit_index);
    let start = filter_start(chunks);
    if !is_set(active, chunks, bit_index) {
        lemma_with_index(flipped, bit_index);
        if bit_index >= start {
            let relative = (bit_index - start) as u32;
            lemma_with_bit_exists(active, relative);
            let t = with_bit(active, relative);
            assert(out.0 == t);
            assert forall|i: int| 0 <= i < t.len() implies t[i] < WINDOW_SIZE by {
                assert(t.contains(t[i]));
                assert(t[i] == relative || active.contains(t[i]));
                if t[i] != relative {
                    let k = choose|k: int| 0 <= k < active.len() && active[k] == t[i];
                    assert(active[k] < WINDOW_SIZE);
                }
            }
            assert forall|c: int| count_at(out.0, out.1, c) == count_at(active, chunks, c) + if c
                == bit_index {
                1nat
            } else {
                0nat
            } by {
                if bit_in_filter(chunks, c) && c >= start {
                    if c != bit_index {
                        assert((c - start) as u32 != relative);
                    }
                }
            }
        } else {
            let ci = bit_index as int / (CHUNK_SIZE as int);
            let bit = (bit_index as int % (CHUNK_SIZE as int)) as u32;
            assert(chunk_wf(chunks[ci]));
            lemma_with_bit_exists(chunks[ci], bit);
            let updated = with_bit(chunks[ci], bit);
            let old_chunk = chunks[ci];
            assert forall|i: int| 0 <= i < updated.len() implies updated[i] < CHUNK_SIZE by {
                assert(updated.contains(updated[i]));
                assert(updated[i] == bit || old_chunk.contains(updated[i]));
                if updated[i] != bit {
                    let k = choose|k: int| 0 <= k < old_chunk.len() && old_chunk[k] == updated[i];
                    assert(old_chunk[k] < CHUNK_SIZE);
                }
            }
            assert forall|i: int| 0 <= i < out.1.len() implies chunk_wf(#[trigger] out.1[i]) by {
                if i != ci {
                    assert(out.1[i] == chunks[i]);
                }
            }
            assert forall|c: int| count_at(out.0, out.1, c) == count_at(active, chunks, c) + if c
                == bit_index {
                1nat
            } else {
                0nat
            } by {
                if bit_in_filter(chunks, c) && c < start {
                    let cj = c / (CHUNK_SIZE as int);
                    if cj == ci {
                        if c != bit_index {
                            assert((c % (CHUNK_SIZE as int)) as u32 != bit);
                        }
                    } else {
                        assert(out.1[cj] == chunks[cj]);
                    }
                }
            }
        }
    }
}

/// What setting bits does to a well-formed filter: the filter stays
/// well-formed, the bits that are flipped were counted nowhere before, and
/// every bit is counted once more where it is flipped and as before where it
/// is not.
pub proof fn lemma_set_all(active: Seq<u32>, chunks: Seq<Seq<u32>>, bits: Seq<u128>)
    requires
        filter_wf(active, chunks),
        all_in_filter(chunks, bits),
    ensures
        ({
            let out = set_all((active, chunks, Seq::<u128>::empty()), bits);
            &&& filter_wf(out.0, out.1)
            &&& out.1.len() == chunks.len()
            &&& strictly_ascending_u128(out.2)
            &&& forall|c: int|
                count_at(out.0, out.1, c) == count_at(active, chunks, c) + if 0 <= c
                    <= u128::MAX && out.2.contains(c as u128) {
                    1nat
                } else {
                    0nat
                }
            &&& forall|i: int|
                0 <= i < out.2.len() ==> bit_in_filter(chunks, #[trigger] out.2[i] as int)
        }),
    decreases bits.len(),
{
    let init = (active, chunks, Seq::<u128>::empty());
    if bits.len() > 0 {
        let rest = bits.drop_last();
        let b = bits.last();
        assert forall|i: int| 0 <= i < rest.len() implies bit_in_filter(
            chunks,
            #[trigger] rest[i] as int,
        ) by {
            assert(rest[i] == bits[i]);
        }
        lemma_set_all(active, chunks, rest);
        let mid = set_all(init, rest);
        let out = set_all(init, bits);
        assert(bit_in_filter(chunks, bits[bits.len() - 1] as int));
        lemma_set_step(mid, b);
        lemma_is_set_counts(mid.0, mid.1, b);
        if !is_set(mid.0, mid.1, b) {
            assert(!mid.2.contains(b));
            assert forall|c: int| count_at(out.0, out.1, c) == count_at(active, chunks, c) + if 0
                <= c <= u128::MAX && out.2.contains(c as u128) {
                1nat
            } else {
                0nat
            } by {
                if 0 <= c <= u128::MAX {
                    assert(out.2.contains(c as u128) <==> out.2.to_set().contains(c as u128));
                    assert(mid.2.contains(c as u128) <==> mid.2.to_set().contains(c as u128));
                }
            }
            assert forall|i: int| 0 <= i < out.2.len() implies bit_in_filter(
                chunks,
                #[trigger] out.2[i] as int,
            ) by {
                assert(out.2.to_set().contains(out.2[i]));
                if out.2[i] != b {
                    assert(mid.2.to_set().contains(out.2[i]));
                    let k = choose|k: int| 0 <= k < mid.2.len() && mid.2[k] == out.2[i];
                    assert(bit_in_filter(chunks, mid.2[k] as int));
                }
            }
        }
    }
}

/// What clearing a bit that is set does to a well-formed filter: the filter
/// stays well-formed, the bit is counted once less, and every other bit is
/// counted as before.
pub proof fn lemma_clear_step(state: (Seq<u32>, Seq<Seq<u32>>), bit_index: u128)
    requires
        filter_wf(state.0, state.1),
        is_set(state.0, state.1, bit_index),
    ensures
        filter_wf(clear_step(state, bit_index).0, clear_step(state, bit_index).1),
        clear_step(state, bit_index).1.len() == state.1.len(),
        forall|c: int|
            count_at(clear_step(state, bit_index).0, clear_step(state, bit_index).1, c)
                == count_at(state.0, state.1, c) - if c == bit_index {
                1int
            } else {
                0int
            },
{
    broadcast use vstd::multiset::group_multiset_axioms;

    let (active, chunks) = state;
    let out = clear_step(state, bit_index);
    let start = filter_start(chunks);
    lemma_is_set_counts(active, chunks, bit_index);
    if bit_index >= start {
        let relative = (bit_index - start) as u32;
        lemma_less_bit_exists(active, relative);
        let t = less_bit(active, relative);
        assert(out.0 == t);
        assert forall|i: int| 0 <= i < t.len() implies t[i] < WINDOW_SIZE by {
            assert(t.contains(t[i]));
            assert(active.contains(t[i]));
            let k = choose|k: int| 0 <= k < active.len() && active[k] == t[i];
            assert(active[k] < WINDOW_SIZE);
        }
        assert forall|c: int| count_at(out.0, out.1, c) == count_at(active, chunks, c) - if c
            == bit_index {
            1int
        } else {
            0int
        } by {
            if bit_in_filter(chunks, c) && c >= start {
                if c != bit_index {
                    assert((c - start) as u32 != relative);
                }
            }
        }
    } else {
        let ci = bit_index as int / (CHUNK_SIZE as int);
        let bit = (bit_index as int % (CHUNK_SIZE as int)) as u32;
        assert(chunk_wf(chunks[ci]));
        lemma_less_bit_exists(chunks[ci], bit);
        let updated = less_bit(chunks[ci], bit);
        let old_chunk = chunks[ci];
        assert forall|i: int| 0 <= i < updated.len() implies updated[i] < CHUNK_SIZE by {
            assert(updated.contains(updated[i]));
            assert(old_chunk.contains(updated[i]));
            let k = choose|k: int| 0 <= k < old_chunk.len() && old_chunk[k] == updated[i];
            assert(old_chunk[k] < CHUNK_SIZE);
        }
        assert forall|i: int| 0 <= i < out.1.len() implies chunk_wf(#[trigger] out.1[i]) by {
            if i != ci {
                assert(out.1[i] == chunks[i]);
            }
        }
        assert forall|c: int| count_at(out.0, out.1, c) == count_at(active, chunks, c) - if c
            == bit_index {
            1int
        } else {
            0int
        } by {
            if bit_in_filter(chunks, c) && c < start {
                let cj = c / (CHUNK_SIZE as int);
                if cj == ci {
                    if c != bit_index {
                        assert((c % (CHUNK_SIZE as int)) as u32 != bit);
                    }
                } else {
                    assert(out.1[cj] == chunks[cj]);
                }
            }
        }
    }
}

/// There is an ascending sequence with the members of an ascending sequence
/// less one of them, so `less_bit` is that sequence.
pub proof fn lemma_less_bit_exists(s: Seq<u32>, x: u32)
    requires
        ascending(s),
        s.contains(x),
    ensures
        ascending(less_bit(s, x)),
        less_bit(s, x).to_multiset() == s.to_multiset().remove(x),
        forall|y: u32| less_bit(s, x).contains(y) ==> s.contains(y),
{
    let i = choose|i: int| 0 <= i < s.len() && s[i] == x;
    let t = s.remove(i);
    vstd::seq_lib::to_multiset_remove(s, i);
    assert forall|a: int, b: int| 0 <= a <= b < t.len() implies t[a] <= t[b] by {
        let a0 = if a < i {
            a
        } else {
            a + 1
        };
        let b0 = if b < i {
            b
        } else {
            b + 1
        };
        assert(s[a0] <= s[b0]);
    }
    lemma_less_bit(s, x, t);
    assert forall|y: u32| t.contains(y) implies s.contains(y) by {
        let k = choose|k: int| 0 <= k < t.len() && t[k] == y;
        if k < i {
            assert(s[k] == y);
        } else {
            assert(s[k + 1] == y);
        }
    }
}

/// Two well-formed filters with as many chunks in which every bit is counted
/// alike are the same filter.
pub proof fn lemma_counts_decide(
    active: Seq<u32>,
    chunks: Seq<Seq<u32>>,
    other_active: Seq<u32>,
    other_chunks: Seq<Seq<u32>>,
)
    requires
        filter_wf(active, chunks),
        filter_wf(other_active, other_chunks),
        chunks.len() == other_chunks.len(),
        forall|c: int| count_at(active, chunks, c) == count_at(other_active, other_chunks, c),
    ensures
        active == other_active,
        chunks == other_chunks,
{
    let start = filter_start(chunks);
    assert forall|x: u32| active.to_multiset().count(x) == other_active.to_multiset().count(x) by {
        if x < WINDOW_SIZE {
            let c = start + x;
            assert(count_at(active, chunks, c) == count_at(other_active, other_chunks, c));
        } else {
            vstd::seq_lib::to_multiset_contains(active, x);
            vstd::seq_lib::to_multiset_contains(other_active, x);
            if active.contains(x) {
                let k = choose|k: int| 0 <= k < active.len() && active[k] == x;
                assert(active[k] < WINDOW_SIZE);
            }
            if other_active.contains(x) {
                let k = choose|k: int| 0 <= k < other_active.len() && other_active[k] == x;
                assert(other_active[k] < WINDOW_SIZE);
            }
        }
    }
    assert(active.to_multiset() =~= other_active.to_multiset());
    lemma_ascending_unique(active, other_active);
    assert forall|i: int| 0 <= i < chunks.len() implies chunks[i] == other_chunks[i] by {
        let a = chunks[i];
        let b = other_chunks[i];
        assert(chunk_wf(a));
        assert(chunk_wf(b));
        assert forall|y: u32| a.to_multiset().count(y) == b.to_multiset().count(y) by {
            if y < CHUNK_SIZE {
                let c = i * (CHUNK_SIZE as int) + y;
                assert(c / (CHUNK_SIZE as int) == i && c % (CHUNK_SIZE as int) == y);
                assert(c < start);
                assert(count_at(active, chunks, c) == count_at(other_active, other_chunks, c));
            } else {
                vstd::seq_lib::to_multiset_contains(a, y);
                vstd::seq_lib::to_multiset_contains(b, y);
                if a.contains(y) {
                    let k = choose|k: int| 0 <= k < a.len() && a[k] == y;
                    assert(a[k] < CHUNK_SIZE);
                }
                if b.contains(y) {
                    let k = choose|k: int| 0 <= k < b.len() && b[k] == y;
                    assert(b[k] < CHUNK_SIZE);
                }
            }
        }
        assert(a.to_multiset() =~= b.to_multiset());
        lemma_ascending_unique(a, b);
    }
    assert(chunks =~= other_chunks);
}

/// Clearing bits that are counted in the filter, no bit twice, succeeds, and
/// each of them is counted once less afterwards.
pub proof fn lemma_clear_all(active: Seq<u32>, chunks: Seq<Seq<u32>>, bits: Seq<u128>)
    requires
        filter_wf(active, chunks),
        forall|i: int, j: int| 0 <= i < j < bits.len() ==> bits[i] != bits[j],
        forall|i: int| 0 <= i < bits.len() ==> count_at(active, chunks, #[trigger] bits[i] as int) > 0,
    ensures
        clear_all((active, chunks), bits) matches Some(out) && {
            &&& filter_wf(out.0, out.1)
            &&& out.1.len() == chunks.len()
            &&& forall|c: int|
                count_at(out.0, out.1, c) == count_at(active, chunks, c) - if 0 <= c <= u128::MAX
                    && bits.contains(c as u128) {
                    1int
                } else {
                    0int
                }
        },
    decreases bits.len(),
{
    if bits.len() > 0 {
        let rest = bits.drop_last();
        let b = bits.last();
        assert forall|i: int| 0 <= i < rest.len() implies count_at(
            active,
            chunks,
            #[trigger] rest[i] as int,
        ) > 0 by {
            assert(rest[i] == bits[i]);
        }
        lemma_clear_all(active, chunks, rest);
        let mid = clear_all((active, chunks), rest)->0;
        assert(!rest.contains(b)) by {
            if rest.contains(b) {
                let k = choose|k: int| 0 <= k < rest.len() && rest[k] == b;
                assert(bits[k] != bits[bits.len() - 1]);
            }
        }
        assert(count_at(active, chunks, bits[bits.len() - 1] as int) > 0);
        lemma_is_set_counts(mid.0, mid.1, b);
        lemma_clear_step(mid, b);
        let out = clear_step(mid, b);
        assert forall|c: int| count_at(out.0, out.1, c) == count_at(active, chunks, c) - if 0 <= c
            <= u128::MAX && bits.contains(c as u128) {
            1int
        } else {
            0int
        } by {
            if 0 <= c <= u128::MAX {
                if rest.contains(c as u128) {
                    let k = choose|k: int| 0 <= k < rest.len() && rest[k] == c as u128;
                    assert(bits[k] == c as u128);
                }
                if bits.contains(c as u128) && c != b {
                    let k = choose|k: int| 0 <= k < bits.len() && bits[k] == c as u128;
                    assert(rest[k] == c as u128);
                }
                if c == b {
                    assert(bits[bits.len() - 1] == b);
                }
            }
        }
    }
}

/// To add an item and then to take the addition back gives the set as it
/// was.
pub proof fn law_revert_add_undoes_add(state: (Seq<Digest>, Seq<Seq<u32>>, Seq<u32>), leaf: Digest)
    requires
        filter_wf(state.2, state.1),
        state.0.len() < u64::MAX,
    ensures
        can_revert_add(added_state(state, leaf), leaf),
        reverted_state(added_state(state, leaf)) == state,
{
    let (leafs, chunks, active) = state;
    let added = added_state(state, leaf);
    assert(added.0.drop_last() =~= leafs);
    if slides_at(leafs.len() as u64) {
        crate::mutator_set::active_window::lemma_slid_ascending(active, CHUNK_SIZE);
        assert(!some_in_range(added.2, (WINDOW_SIZE - CHUNK_SIZE) as u32, WINDOW_SIZE)) by {
            if some_in_range(added.2, (WINDOW_SIZE - CHUNK_SIZE) as u32, WINDOW_SIZE) {
                let i = choose|i: int|
                    0 <= i < added.2.len() && (WINDOW_SIZE - CHUNK_SIZE) as u32
                        <= #[trigger] added.2[i] && added.2[i] < WINDOW_SIZE;
                assert(slid(active, CHUNK_SIZE)[i] + CHUNK_SIZE < WINDOW_SIZE);
            }
        }
        law_slide_and_back_is_identity(active);
        assert(added.1.drop_last() =~= chunks);
    }
}

/// To remove items and then to take the removals back gives the filter as it
/// was: where bits are set and the bits that this flipped are cleared again,
/// in whatever order and each once, every bit is as it was before.
pub proof fn law_revert_remove_undoes_remove(
    active: Seq<u32>,
    chunks: Seq<Seq<u32>>,
    bits: Seq<u128>,
    diff: Seq<u128>,
)
    requires
        filter_wf(active, chunks),
        all_in_filter(chunks, bits),
        forall|i: int, j: int| 0 <= i < j < diff.len() ==> diff[i] != diff[j],
        diff.to_set() == set_all((active, chunks, Seq::<u128>::empty()), bits).2.to_set(),
    ensures
        ({
            let removed = set_all((active, chunks, Seq::<u128>::empty()), bits);
            clear_all((removed.0, removed.1), diff) == Some((active, chunks))
        }),
{
    let removed = set_all((active, chunks, Seq::<u128>::empty()), bits);
    lemma_set_all(active, chunks, bits);
    assert forall|i: int| 0 <= i < diff.len() implies count_at(
        removed.0,
        removed.1,
        #[trigger] diff[i] as int,
    ) > 0 by {
        assert(diff.to_set().contains(diff[i]));
        assert(removed.2.to_set().contains(diff[i]));
        assert(removed.2.contains(diff[i]));
    }
    lemma_clear_all(removed.0, removed.1, diff);
    let out = clear_all((removed.0, removed.1), diff)->0;
    assert forall|c: int| count_at(out.0, out.1, c) == count_at(active, chunks, c) by {
        if 0 <= c <= u128::MAX {
            assert(diff.contains(c as u128) <==> diff.to_set().contains(c as u128));
            assert(removed.2.contains(c as u128) <==> removed.2.to_set().contains(c as u128));
        }
    }
    lemma_counts_decide(out.0, out.1, active, chunks);
}

/// How often a position occurs among the members below a bound.
pub proof fn lemma_below_count(s: Seq<u32>, bound: u32, x: u32)
    ensures
        below(s, bound).to_multiset().count(x) == if x < bound {
            s.to_multiset().count(x)
        } else {
            0
        },
    decreases s.len(),
{
    broadcast use vstd::multiset::group_multiset_axioms;

    if s.len() == 0 {
        s.to_multiset_ensures();
        below(s, bound).to_multiset_ensures();
    } else {
        let t = s.drop_last();
        lemma_below_count(t, bound, x);
        assert(s =~= t.push(s.last()));
        vstd::seq_lib::to_multiset_build(t, s.last());
        if s.last() < bound {
            vstd::seq_lib::to_multiset_build(below(t, bound), s.last());
        }
    }
}

/// How often a position occurs among the slid members.
pub proof fn lemma_slid_count(s: Seq<u32>, by: u32, x: u32)
    ensures
        slid(s, by).to_multiset().count(x) == if x + by <= u32::MAX {
            s.to_multiset().count((x + by) as u32)
        } else {
            0
        },
    decreases s.len(),
{
    broadcast use vstd::multiset::group_multiset_axioms;

    if s.len() == 0 {
        s.to_multiset_ensures();
        slid(s, by).to_multiset_ensures();
    } else {
        let t = s.drop_last();
        lemma_slid_count(t, by, x);
        assert(s =~= t.push(s.last()));
        vstd::seq_lib::to_multiset_build(t, s.last());
        if s.last() >= by {
            vstd::seq_lib::to_multiset_build(slid(t, by), (s.last() - by) as u32);
        }
    }
}

/// How often a position occurs among the raised members.
pub proof fn lemma_raised_count(s: Seq<u32>, by: u32, x: u32)
    requires
        forall|i: int| 0 <= i < s.len() ==> s[i] + by <= u32::MAX,
    ensures
        raised(s, by).to_multiset().count(x) == if x >= by {
            s.to_multiset().count((x - by) as u32)
        } else {
            0
        },
    decreases s.len(),
{
    broadcast use vstd::multiset::group_multiset_axioms;

    if s.len() == 0 {
        s.to_multiset_ensures();
        raised(s, by).to_multiset_ensures();
        assert(raised(s, by) =~= Seq::<u32>::empty());
    } else {
        let t = s.drop_last();
        assert forall|i: int| 0 <= i < t.len() implies t[i] + by <= u32::MAX by {
            assert(t[i] == s[i]);
        }
        lemma_raised_count(t, by, x);
        assert(s =~= t.push(s.last()));
        assert(raised(s, by) =~= raised(t, by).push((s.last() + by) as u32));
        vstd::seq_lib::to_multiset_build(t, s.last());
        vstd::seq_lib::to_multiset_build(raised(t, by), (s.last() + by) as u32);
    }
}

/// When the window slides, every bit is counted as before.
pub proof fn lemma_slide_counts(active: Seq<u32>, chunks: Seq<Seq<u32>>)
    requires
        filter_wf(active, chunks),
    ensures
        filter_wf(slid(active, CHUNK_SIZE), chunks.push(below(active, CHUNK_SIZE))),
        forall|c: int|
            count_at(slid(active, CHUNK_SIZE), chunks.push(below(active, CHUNK_SIZE)), c)
                == count_at(active, chunks, c),
{
    let new_active = slid(active, CHUNK_SIZE);
    let chunk = below(active, CHUNK_SIZE);
    let new_chunks = chunks.push(chunk);
    crate::mutator_set::active_window::lemma_slid_ascending(active, CHUNK_SIZE);
    crate::mutator_set::active_window::lemma_below_ascending(active, CHUNK_SIZE);
    assert forall|i: int| 0 <= i < new_active.len() implies new_active[i] < WINDOW_SIZE by {
        assert(slid(active, CHUNK_SIZE)[i] + CHUNK_SIZE < WINDOW_SIZE);
    }
    assert forall|i: int| 0 <= i < new_chunks.len() implies chunk_wf(#[trigger] new_chunks[i]) by {
        if i < chunks.len() {
            assert(new_chunks[i] == chunks[i]);
        }
    }
    let start = filter_start(chunks);
    assert forall|c: int| count_at(new_active, new_chunks, c) == count_at(active, chunks, c) by {
        if bit_in_filter(new_chunks, c) {
            if c >= start + CHUNK_SIZE {
                let x = (c - start - CHUNK_SIZE) as u32;
                lemma_slid_count(active, CHUNK_SIZE, x);
                if !bit_in_filter(chunks, c) {
                    vstd::seq_lib::to_multiset_contains(active, (x + CHUNK_SIZE) as u32);
                    if active.contains((x + CHUNK_SIZE) as u32) {
                        let k = choose|k: int|
                            0 <= k < active.len() && active[k] == (x + CHUNK_SIZE) as u32;
                        assert(active[k] < WINDOW_SIZE);
                    }
                }
            } else if c >= start {
                let x = (c - start) as u32;
                assert(c / (CHUNK_SIZE as int) == chunks.len() && c % (CHUNK_SIZE as int) == x);
                lemma_below_count(active, CHUNK_SIZE, x);
            } else {
                assert(new_chunks[c / (CHUNK_SIZE as int)] == chunks[c / (CHUNK_SIZE as int)]);
            }
        }
    }
}

/// When the window slides back, every bit is counted as before.
pub proof fn lemma_slide_back_counts(active: Seq<u32>, chunks: Seq<Seq<u32>>)
    requires
        filter_wf(active, chunks),
        chunks.len() > 0,
        !some_in_range(active, (WINDOW_SIZE - CHUNK_SIZE) as u32, WINDOW_SIZE),
    ensures
        filter_wf(chunks.last() + raised(active, CHUNK_SIZE), chunks.drop_last()),
        forall|c: int|
            count_at(chunks.last() + raised(active, CHUNK_SIZE), chunks.drop_last(), c)
                == count_at(active, chunks, c),
{
    broadcast use vstd::multiset::group_multiset_axioms;

    let chunk = chunks.last();
    let up = raised(active, CHUNK_SIZE);
    let new_active = chunk + up;
    let new_chunks = chunks.drop_last();
    assert(chunk_wf(chunks[chunks.len() - 1]));
    assert forall|i: int| 0 <= i < active.len() implies active[i] < WINDOW_SIZE - CHUNK_SIZE by {
        if active[i] >= WINDOW_SIZE - CHUNK_SIZE {
            assert(some_in_range(active, (WINDOW_SIZE - CHUNK_SIZE) as u32, WINDOW_SIZE));
        }
    }
    assert forall|a: int, b: int| 0 <= a <= b < new_active.len() implies new_active[a]
        <= new_active[b] by {
        if b < chunk.len() {
        } else if a >= chunk.len() {
            assert(active[a - chunk.len()] <= active[b - chunk.len()]);
        } else {
            assert(new_active[a] < CHUNK_SIZE);
        }
    }
    assert forall|i: int| 0 <= i < new_chunks.len() implies chunk_wf(#[trigger] new_chunks[i]) by {
        assert(new_chunks[i] == chunks[i]);
    }
    let start = filter_start(chunks);
    let new_start = filter_start(new_chunks);
    vstd::seq_lib::lemma_multiset_commutative(chunk, up);
    assert forall|c: int| count_at(new_active, new_chunks, c) == count_at(active, chunks, c) by {
        if bit_in_filter(new_chunks, c) {
            if c >= new_start {
                let x = (c - new_start) as u32;
                lemma_raised_count(active, CHUNK_SIZE, x);
                if x < CHUNK_SIZE {
                    assert(c / (CHUNK_SIZE as int) == chunks.len() - 1 && c % (CHUNK_SIZE as int)
                        == x);
                } else {
                    vstd::seq_lib::to_multiset_contains(chunk, x);
                    if chunk.contains(x) {
                        let k = choose|k: int| 0 <= k < chunk.len() && chunk[k] == x;
                        assert(chunk[k] < CHUNK_SIZE);
                    }
                }
            } else {
                assert(new_chunks[c / (CHUNK_SIZE as int)] == chunks[c / (CHUNK_SIZE as int)]);
            }
        } else if bit_in_filter(chunks, c) {
            let x = (c - start) as u32;
            vstd::seq_lib::to_multiset_contains(active, x);
            if active.contains(x) {
                let k = choose|k: int| 0 <= k < active.len() && active[k] == x;
                assert(active[k] < WINDOW_SIZE - CHUNK_SIZE);
            }
        }
    }
}

/// Whether a set is well-formed: its filter is well-formed, and there is
/// one inactive chunk for each time the window slid.
pub open spec fn state_wf(state: (Seq<Digest>, Seq<Seq<u32>>, Seq<u32>)) -> bool {
    &&& filter_wf(state.2, state.1)
    &&& state.0.len() <= u64::MAX
    &&& state.1.len() == batch_index_of(state.0.len() as u64)
}

/// Additions keep a set well-formed and count every bit as before.
pub proof fn lemma_added_all(state: (Seq<Digest>, Seq<Seq<u32>>, Seq<u32>), additions: Seq<
    AdditionRecord,
>)
    requires
        state_wf(state),
        state.0.len() + additions.len() <= u64::MAX,
    ensures
        state_wf(added_all(state, additions)),
        added_all(state, additions).0.len() == state.0.len() + additions.len(),
        forall|c: int|
            count_at(added_all(state, additions).2, added_all(state, additions).1, c) == count_at(
                state.2,
                state.1,
                c,
            ),
    decreases additions.len(),
{
    if additions.len() > 0 {
        lemma_added_all(state, additions.drop_last());
        let mid = added_all(state, additions.drop_last());
        if slides_at(mid.0.len() as u64) {
            lemma_slide_counts(mid.2, mid.1);
        }
    }
}

/// Taking additions back keeps a set well-formed and counts every bit as
/// before.
pub proof fn lemma_reverted_all(state: (Seq<Digest>, Seq<Seq<u32>>, Seq<u32>), additions: Seq<
    AdditionRecord,
>)
    requires
        state_wf(state),
        reverted_all(state, additions) is Some,
    ensures
        state_wf(reverted_all(state, additions)->0),
        (reverted_all(state, additions)->0).0.len() + additions.len() == state.0.len(),
        forall|c: int|
            count_at(
                (reverted_all(state, additions)->0).2,
                (reverted_all(state, additions)->0).1,
                c,
            )
                == count_at(state.2, state.1, c),
    decreases additions.len(),
{
    if additions.len() > 0 {
        let next = reverted_state(state);
        if slides_at((state.0.len() - 1) as u64) {
            lemma_slide_back_counts(state.2, state.1);
        }
        lemma_reverted_all(next, additions.drop_last());
    }
}

/// Taking back the additions that were made gives the leafs as they were.
pub proof fn lemma_reverted_leafs(
    state: (Seq<Digest>, Seq<Seq<u32>>, Seq<u32>),
    additions: Seq<AdditionRecord>,
    after: (Seq<Digest>, Seq<Seq<u32>>, Seq<u32>),
)
    requires
        after.0 == added_all(state, additions).0,
        reverted_all(after, additions) is Some,
    ensures
        (reverted_all(after, additions)->0).0 == state.0,
    decreases additions.len(),
{
    if additions.len() > 0 {
        let mid = added_all(state, additions.drop_last());
        let next = reverted_state(after);
        assert(next.0 =~= mid.0);
        lemma_reverted_leafs(state, additions.drop_last(), next);
    }
}

/// The bits of all the records, one record after the other.
pub open spec fn bits_of_all(removals: Seq<RemovalRecord>) -> Seq<u128>
    decreases removals.len(),
{
    if removals.len() == 0 {
        Seq::empty()
    } else {
        bits_of_all(removals.drop_last()) + removals.last().bit_indices@
    }
}

/// To set two lists of bits one after the other is to set the list that
/// holds the one and then the other.
pub proof fn lemma_set_all_concat(state: (Seq<u32>, Seq<Seq<u32>>, Seq<u128>), a: Seq<u128>, b: Seq<
    u128,
>)
    ensures
        set_all(set_all(state, a), b) == set_all(state, a + b),
    decreases b.len(),
{
    if b.len() == 0 {
        assert(a + b =~= a);
    } else {
        lemma_set_all_concat(state, a, b.drop_last());
        assert((a + b).drop_last() =~= a + b.drop_last());
        assert((a + b).last() == b.last());
    }
}

/// To apply the removals one after the other is to set the bits of all of
/// them.
pub proof fn lemma_removed_all(state: (Seq<u32>, Seq<Seq<u32>>, Seq<u128>), removals: Seq<
    RemovalRecord,
>)
    ensures
        removed_all(state, removals) == set_all(state, bits_of_all(removals)),
    decreases removals.len(),
{
    if removals.len() > 0 {
        lemma_removed_all(state, removals.drop_last());
        lemma_set_all_concat(
            state,
            bits_of_all(removals.drop_last()),
            removals.last().bit_indices@,
        );
    }
}

/// The bits of records that lie in the filter lie in the filter.
pub proof fn lemma_bits_of_all_in_filter(chunks: Seq<Seq<u32>>, removals: Seq<RemovalRecord>)
    requires
        removals_in_filter(chunks, removals),
    ensures
        all_in_filter(chunks, bits_of_all(removals)),
    decreases removals.len(),
{
    if removals.len() > 0 {
        let rest = removals.drop_last();
        assert forall|i: int| 0 <= i < rest.len() implies all_in_filter(
            chunks,
            (#[trigger] rest[i]).bit_indices@,
        ) by {
            assert(rest[i] == removals[i]);
        }
        lemma_bits_of_all_in_filter(chunks, rest);
        let head = bits_of_all(rest);
        let tail = removals.last().bit_indices@;
        assert(all_in_filter(chunks, removals[removals.len() - 1].bit_indices@));
        let all = bits_of_all(removals);
        assert forall|i: int| 0 <= i < all.len() implies bit_in_filter(
            chunks,
            #[trigger] all[i] as int,
        ) by {
            if i < head.len() {
                assert(bit_in_filter(chunks, head[i] as int));
            } else {
                assert(bit_in_filter(chunks, tail[i - head.len()] as int));
            }
        }
    }
}

/// A block that was applied and is rolled back leaves the set as it was
/// before the block: where the additions of the block can be taken back,
/// the bits that the block flipped can be cleared, and what is left are the
/// leafs, the chunks and the window from before the block.
pub proof fn law_rollback_undoes_block(
    state: (Seq<Digest>, Seq<Seq<u32>>, Seq<u32>),
    additions: Seq<AdditionRecord>,
    removals: Seq<RemovalRecord>,
)
    requires
        state_wf(state),
        block_applies(state, additions, removals),
        reverted_all(block_applied(state, additions, removals).0, additions) is Some,
    ensures
        block_reverted(
            block_applied(state, additions, removals).0,
            additions,
            block_applied(state, additions, removals).1,
        ) == Some(state),
{
    let added = added_all(state, additions);
    lemma_added_all(state, additions);
    let bits = bits_of_all(removals);
    lemma_removed_all((added.2, added.1, Seq::<u128>::empty()), removals);
    lemma_bits_of_all_in_filter(added.1, removals);
    let removed = set_all((added.2, added.1, Seq::<u128>::empty()), bits);
    lemma_set_all(added.2, added.1, bits);
    let applied = block_applied(state, additions, removals);
    assert(applied.0 == (added.0, removed.1, removed.0));
    let flipped = applied.1;
    assert(state_wf(applied.0));
    lemma_reverted_all(applied.0, additions);
    lemma_reverted_leafs(state, additions, applied.0);
    let reverted = reverted_all(applied.0, additions)->0;
    assert(reverted.0 == state.0);
    assert(reverted.1.len() == state.1.len());
    assert(flipped == removed.2);
    assert forall|c: int| count_at(reverted.2, reverted.1, c) == count_at(state.2, state.1, c)
        + if 0 <= c <= u128::MAX && flipped.contains(c as u128) {
        1nat
    } else {
        0nat
    } by {
        assert(count_at(reverted.2, reverted.1, c) == count_at(removed.0, removed.1, c));
        assert(count_at(added.2, added.1, c) == count_at(state.2, state.1, c));
    }
    assert forall|i: int| 0 <= i < flipped.len() implies count_at(
        reverted.2,
        reverted.1,
        #[trigger] flipped[i] as int,
    ) > 0 by {
        assert(flipped.contains(flipped[i]));
    }
    lemma_clear_all(reverted.2, reverted.1, flipped);
    let cleared = clear_all((reverted.2, reverted.1), flipped)->0;
    assert forall|c: int| count_at(cleared.0, cleared.1, c) == count_at(state.2, state.1, c) by {
        assert(count_at(reverted.2, reverted.1, c) == count_at(state.2, state.1, c) + if 0 <= c
            <= u128::MAX && flipped.contains(c as u128) {
            1nat
        } else {
            0nat
        });
    }
    lemma_counts_decide(cleared.0, cleared.1, state.2, state.1);
}

/// Where clearing the first `n` bits fails, clearing all of them fails.
pub proof fn lemma_clear_fails(state: (Seq<u32>, Seq<Seq<u32>>), bits: Seq<u128>, n: int)
    requires
        0 <= n <= bits.len(),
        clear_all(state, bits.take(n)) is None,
    ensures
        clear_all(state, bits) is None,
    decreases bits.len() - n,
{
    if n < bits.len() {
        assert(bits.take(n + 1).drop_last() =~= bits.take(n));
        lemma_clear_fails(state, bits, n + 1);
    } else {
        assert(bits.take(n) =~= bits);
    }
}

/// What a sequence of blocks makes of the set, each block given by its
/// additions and its removals.
pub open spec fn blocks_applied(
    state: (Seq<Digest>, Seq<Seq<u32>>, Seq<u32>),
    blocks: Seq<(Seq<AdditionRecord>, Seq<RemovalRecord>)>,
) -> (Seq<Digest>, Seq<Seq<u32>>, Seq<u32>)
    decreases blocks.len(),
{
    if blocks.len() == 0 {
        state
    } else {
        block_applied(blocks_applied(state, blocks.drop_last()), blocks.last().0, blocks.last().1).0
    }
}

/// The bits that each block of a sequence flipped when it was applied.
pub open spec fn diffs_of_blocks(
    state: (Seq<Digest>, Seq<Seq<u32>>, Seq<u32>),
    blocks: Seq<(Seq<AdditionRecord>, Seq<RemovalRecord>)>,
) -> Seq<Seq<u128>>
    decreases blocks.len(),
{
    if blocks.len() == 0 {
        Seq::empty()
    } else {
        diffs_of_blocks(state, blocks.drop_last()).push(
            block_applied(
                blocks_applied(state, blocks.drop_last()),
                blocks.last().0,
                blocks.last().1,
            ).1,
        )
    }
}

/// Whether each block of a sequence can be applied when its turn comes, and
/// its additions can be taken back from the set as the block leaves it.
pub open spec fn blocks_apply(
    state: (Seq<Digest>, Seq<Seq<u32>>, Seq<u32>),
    blocks: Seq<(Seq<AdditionRecord>, Seq<RemovalRecord>)>,
) -> bool
    decreases blocks.len(),
{
    blocks.len() == 0 || {
        let before = blocks_applied(state, blocks.drop_last());
        &&& blocks_apply(state, blocks.drop_last())
        &&& block_applies(before, blocks.last().0, blocks.last().1)
        &&& reverted_all(block_applied(before, blocks.last().0, blocks.last().1).0, blocks.last().0)
            is Some
    }
}

/// What rolling a sequence of blocks back makes of the set, the last block
/// first, each with the bits that it flipped. There is no result where a
/// block cannot be rolled back, or where the bits of a block are missing.
pub open spec fn blocks_reverted(
    state: (Seq<Digest>, Seq<Seq<u32>>, Seq<u32>),
    blocks: Seq<(Seq<AdditionRecord>, Seq<RemovalRecord>)>,
    diffs: Seq<Seq<u128>>,
) -> Option<(Seq<Digest>, Seq<Seq<u32>>, Seq<u32>)>
    decreases blocks.len(),
{
    if blocks.len() == 0 {
        Some(state)
    } else if diffs.len() != blocks.len() {
        None
    } else {
        match block_reverted(state, blocks.last().0, diffs.last()) {
            Some(before) => blocks_reverted(before, blocks.drop_last(), diffs.drop_last()),
            None => None,
        }
    }
}

/// A block that can be applied keeps the set well-formed.
pub proof fn lemma_block_applied_wf(
    state: (Seq<Digest>, Seq<Seq<u32>>, Seq<u32>),
    additions: Seq<AdditionRecord>,
    removals: Seq<RemovalRecord>,
)
    requires
        state_wf(state),
        block_applies(state, additions, removals),
    ensures
        state_wf(block_applied(state, additions, removals).0),
{
    let added = added_all(state, additions);
    lemma_added_all(state, additions);
    lemma_removed_all((added.2, added.1, Seq::<u128>::empty()), removals);
    lemma_bits_of_all_in_filter(added.1, removals);
    lemma_set_all(added.2, added.1, bits_of_all(removals));
}

/// Blocks that were applied one after the other and are rolled back, the
/// last one first, leave the set as it was before the first of them.
pub proof fn law_rollback_undoes_blocks(
    state: (Seq<Digest>, Seq<Seq<u32>>, Seq<u32>),
    blocks: Seq<(Seq<AdditionRecord>, Seq<RemovalRecord>)>,
)
    requires
        state_wf(state),
        blocks_apply(state, blocks),
    ensures
        state_wf(blocks_applied(state, blocks)),
        diffs_of_blocks(state, blocks).len() == blocks.len(),
        blocks_reverted(blocks_applied(state, blocks), blocks, diffs_of_blocks(state, blocks))
            == Some(state),
    decreases blocks.len(),
{
    if blocks.len() > 0 {
        let earlier = blocks.drop_last();
        law_rollback_undoes_blocks(state, earlier);
        let before = blocks_applied(state, earlier);
        let last = blocks.last();
        lemma_block_applied_wf(before, last.0, last.1);
        law_rollback_undoes_block(before, last.0, last.1);
        assert(diffs_of_blocks(state, blocks).drop_last() =~= diffs_of_blocks(state, earlier));
    }
}

} // verus!
