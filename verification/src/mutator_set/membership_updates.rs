//! Keeping membership proofs and removal records valid while the mutator
//! set changes.
//!
//! An addition changes the commitment list, so the path of every proof into
//! that list has to follow; and where it makes the window slide, the chunk
//! that leaves the window joins the inactive part of the filter, so that
//! the paths of the chunks that a proof or a record holds have to follow
//! too, and the new chunk joins those if it holds one of their bits.

use crate::digest::Digest;
use crate::mmr::{
    clone_proof, empty_proof, proof_path, spec_mmr_append, spec_mmr_update_from_append, spec_mmr_verify,
    MAX_LEAFS,
};
use crate::mutator_set::active_window::below;
use crate::mutator_set::addition_record::AdditionRecord;
use crate::mutator_set::chunk::chunk_hash;
use crate::mutator_set::chunk_dictionary::{has_key, ChunkDictionary, ChunkEntry};
use crate::mutator_set::ms_membership_proof::MsMembershipProof;
use crate::mutator_set::removal_record::{copy_bit_indices, RemovalRecord};
use crate::mutator_set::set_commitment::{
    all_bits, batch_index_of, bits_in_reach, flat_entries, flip_all, get_swbf_indices, indices_of_proof, keys_of,
    merged_chunks, mutations_of, paths_of, slides_at, updated_entries,
    window_start, SetCommitment, SetCommitmentError,
};
use crate::mmr::spec_mmr_batch_mutate;
use crate::mutator_set::shared::CHUNK_SIZE;
use crate::tip5::{hash_pair, spec_hash_pair};
use vstd::prelude::*;

verus! {

/// The chunk in which the bit with index `bit_index` lies.
pub open spec fn chunk_of(bit_index: u128) -> u128 {
    bit_index / (CHUNK_SIZE as u128)
}

/// Whether one of the bits lies in the chunk with index `chunk_index`.
pub open spec fn touches(bits: Seq<u128>, chunk_index: u64) -> bool {
    exists|k: int| 0 <= k < bits.len() && chunk_of(#[trigger] bits[k]) == chunk_index
}

/// Whether every one of the bits that lies in an inactive chunk has its
/// chunk among the entries.
pub open spec fn inactive_bits_covered(
    entries: Seq<(u64, Seq<Seq<u64>>, Seq<u32>)>,
    bits: Seq<u128>,
    inactive_chunks: u64,
) -> bool {
    forall|k: int|
        0 <= k < bits.len() && chunk_of(#[trigger] bits[k]) < inactive_chunks ==> has_key(
            entries,
            chunk_of(bits[k]) as u64,
        )
}

/// The entries of a chunk dictionary after the window slid: the path of
/// each chunk that holds one of the bits follows the inactive part of the
/// filter, and the chunk that left the window joins the entries where it
/// holds one of the bits.
pub open spec fn chunks_after_slide(
    entries: Seq<(u64, Seq<Seq<u64>>, Seq<u32>)>,
    bits: Seq<u128>,
    set: &SetCommitment,
) -> Seq<(u64, Seq<Seq<u64>>, Seq<u32>)> {
    let count = set.swbf_inactive.leaf_count();
    let peaks = set.swbf_inactive.peaks_view();
    let new_chunk = below(set.swbf_active@, CHUNK_SIZE);
    let followed = Seq::new(
        entries.len(),
        |i: int|
            if touches(bits, entries[i].0) {
                (
                    entries[i].0,
                    spec_mmr_update_from_append(
                        entries[i].1,
                        entries[i].0,
                        count,
                        chunk_hash(new_chunk),
                        peaks,
                    ).0,
                    entries[i].2,
                )
            } else {
                entries[i]
            },
    );
    if touches(bits, count) {
        followed.push((count, spec_mmr_append(count, peaks, chunk_hash(new_chunk)).1, new_chunk))
    } else {
        followed
    }
}

/// Whether the slide changes the entries: the chunk that left the window
/// joins them, or the path of one of them changes.
pub open spec fn slide_changes_chunks(
    entries: Seq<(u64, Seq<Seq<u64>>, Seq<u32>)>,
    bits: Seq<u128>,
    set: &SetCommitment,
) -> bool {
    let count = set.swbf_inactive.leaf_count();
    let peaks = set.swbf_inactive.peaks_view();
    let leaf = chunk_hash(below(set.swbf_active@, CHUNK_SIZE));
    touches(bits, count) || exists|i: int|
        0 <= i < entries.len() && touches(bits, (#[trigger] entries[i]).0)
            && spec_mmr_update_from_append(entries[i].1, entries[i].0, count, leaf, peaks).1
}

/// Why the entries cannot follow a slide of the window, if they cannot: a
/// chunk among them is not a leaf of the inactive part of the filter, or a
/// bit lies in an inactive chunk that is not among them.
pub open spec fn slide_error(
    entries: Seq<(u64, Seq<Seq<u64>>, Seq<u32>)>,
    bits: Seq<u128>,
    set: &SetCommitment,
) -> Option<SetCommitmentError> {
    if !set.chunks_fit(entries) {
        Some(
            SetCommitmentError::RequestedSwbfAuthPathOutOfBounds(
                (entries.len() as u128, set.swbf_inactive.leaf_count() as u128),
            ),
        )
    } else if !inactive_bits_covered(entries, bits, set.swbf_inactive.leaf_count()) {
        Some(SetCommitmentError::RestoreMembershipProofDidNotFindChunkForChunkIndex)
    } else {
        None
    }
}

/// Whether one of the bits lies in the chunk with index `chunk_index`.
pub fn bits_touch(bits: &Vec<u128>, chunk_index: u64) -> (b: bool)
    ensures
        b == touches(bits@, chunk_index),
{
    let mut k: usize = 0;
    while k < bits.len()
        invariant
            0 <= k <= bits.len(),
            forall|j: int| 0 <= j < k ==> chunk_of(#[trigger] bits@[j]) != chunk_index,
        decreases bits.len() - k,
    {
        if bits[k] / (CHUNK_SIZE as u128) == chunk_index as u128 {
            assert(chunk_of(bits@[k as int]) == chunk_index);
            return true;
        }
        k += 1;
    }
    false
}

/// Let the chunks of a dictionary follow a slide of the window: `set` is
/// the mutator set before the addition that makes the window slide, and
/// `bits` are the bits that the dictionary serves. Returns whether the
/// dictionary changed. Where the dictionary cannot follow it stays as it
/// is.
pub fn update_chunks_from_slide(chunks: &mut ChunkDictionary, bits: &Vec<u128>, set: &SetCommitment) -> (r:
    Result<bool, SetCommitmentError>)
    requires
        set.wf(),
    ensures
        match r {
            Ok(changed) => slide_error(old(chunks)@, bits@, set) is None && final(chunks)@
                == chunks_after_slide(old(chunks)@, bits@, set) && changed
                == slide_changes_chunks(old(chunks)@, bits@, set),
            Err(e) => slide_error(old(chunks)@, bits@, set) == Some(e) && final(chunks)@ == old(
                chunks,
            )@,
        },
{
    let count = set.swbf_inactive.num_leafs();
    if !set.validate_chunks(chunks) {
        return Err(
            SetCommitmentError::RequestedSwbfAuthPathOutOfBounds(
                (chunks.len() as u128, count as u128),
            ),
        );
    }
    let mut k: usize = 0;
    while k < bits.len()
        invariant
            0 <= k <= bits.len(),
            count == set.swbf_inactive.leaf_count(),
            chunks@ == old(chunks)@,
            set.chunks_fit(chunks@),
            inactive_bits_covered(chunks@, bits@.take(k as int), count),
        decreases bits.len() - k,
    {
        let chunk_index: u128 = bits[k] / (CHUNK_SIZE as u128);
        if chunk_index < count as u128 && !chunks.contains_key(chunk_index as u64) {
            proof {
                assert(chunk_of(bits@[k as int]) == chunk_index);
            }
            return Err(SetCommitmentError::RestoreMembershipProofDidNotFindChunkForChunkIndex);
        }
        proof {
            let t = bits@.take(k + 1);
            assert forall|j: int| 0 <= j < t.len() && chunk_of(#[trigger] t[j]) < count implies has_key(
                chunks@,
                chunk_of(t[j]) as u64,
            ) by {
                if j < k {
                    assert(bits@.take(k as int)[j] == t[j]);
                }
            }
        }
        k += 1;
    }
    proof {
        assert(bits@.take(k as int) =~= bits@);
    }
    // the chunk that leaves the window, and its path once it has joined the inactive part
    let new_chunk = set.swbf_active.slid_chunk();
    let new_chunk_digest = new_chunk.hash();
    let mut simulated = set.swbf_inactive.copy();
    let new_swbf_auth_path = simulated.append(new_chunk_digest);
    let ghost peaks = set.swbf_inactive.peaks_view();
    let ghost before = chunks@;
    assert(count + 1 < MAX_LEAFS);
    let mut followed: Vec<ChunkEntry> = Vec::new();
    let mut changed = false;
    let mut i: usize = 0;
    while i < chunks.dictionary.len()
        invariant
            0 <= i <= chunks.dictionary.len(),
            chunks@ == before,
            before == old(chunks)@,
            set.wf(),
            set.chunks_fit(before),
            count == set.swbf_inactive.leaf_count(),
            count + 1 < MAX_LEAFS,
            peaks == set.swbf_inactive.peaks_view(),
            new_chunk_digest@ == chunk_hash(below(set.swbf_active@, CHUNK_SIZE)),
            followed@.len() == i,
            forall|j: int|
                0 <= j < i ==> (#[trigger] followed@[j]).plain() == if touches(bits@, before[j].0) {
                    (
                        before[j].0,
                        spec_mmr_update_from_append(
                            before[j].1,
                            before[j].0,
                            count,
                            new_chunk_digest@,
                            peaks,
                        ).0,
                        before[j].2,
                    )
                } else {
                    before[j]
                },
            changed == exists|j: int|
                0 <= j < i && touches(bits@, (#[trigger] before[j]).0)
                    && spec_mmr_update_from_append(
                    before[j].1,
                    before[j].0,
                    count,
                    new_chunk_digest@,
                    peaks,
                ).1,
        decreases chunks.dictionary.len() - i,
    {
        let entry = &chunks.dictionary[i];
        proof {
            assert(chunks@[i as int] == entry.plain());
            assert(spec_mmr_verify(
                before[i as int].1,
                before[i as int].0,
                chunk_hash(before[i as int].2),
                peaks,
                count,
            ));
        }
        let mut path = clone_proof(&entry.membership_proof);
        if bits_touch(bits, entry.chunk_index) {
            let path_changed = set.swbf_inactive.update_from_append(
                &mut path,
                entry.chunk_index,
                &new_chunk_digest,
            );
            changed = changed || path_changed;
        }
        followed.push(
            ChunkEntry {
                chunk_index: entry.chunk_index,
                membership_proof: path,
                chunk: entry.chunk.clone(),
            },
        );
        i += 1;
    }
    if bits_touch(bits, count) {
        followed.push(
            ChunkEntry {
                chunk_index: count,
                membership_proof: new_swbf_auth_path,
                chunk: new_chunk,
            },
        );
        changed = true;
    }
    let updated = ChunkDictionary { dictionary: followed };
    proof {
        assert(updated@ =~= chunks_after_slide(before, bits@, set));
    }
    *chunks = updated;
    Ok(changed)
}

/// Why a membership proof cannot follow an addition, if it cannot: the set
/// is empty, the proof does not show the item to be in the commitment
/// list, the item has no bit indices, or the chunks of the proof cannot
/// follow the slide of the window.
pub open spec fn addition_error(mp: MsMembershipProof, item: Seq<u64>, set: &SetCommitment) -> Option<
    SetCommitmentError,
> {
    if set.aocl.leaf_count() == 0 {
        Some(SetCommitmentError::MutatorSetIsEmpty)
    } else if !spec_mmr_verify(
        proof_path(mp.auth_path_aocl),
        mp.aocl_leaf_index,
        spec_hash_pair(item, mp.randomness@),
        set.aocl.peaks_view(),
        set.aocl.leaf_count(),
    ) {
        Some(
            SetCommitmentError::RequestedAoclAuthPathOutOfBounds(
                (mp.aocl_leaf_index as u128, set.aocl.leaf_count() as u128),
            ),
        )
    } else if !slides_at(set.aocl.leaf_count()) {
        None
    } else {
        match indices_of_proof(item, mp) {
            None => Some(SetCommitmentError::RestoreMembershipProofDidNotFindChunkForChunkIndex),
            Some(bits) => slide_error(mp.target_chunks@, bits, set),
        }
    }
}

/// Whether `after` is what the membership proof `before` of `item` becomes
/// when it follows the addition of the commitment `leaf` to the set, and
/// `changed` tells whether that changed it: the path into the commitment
/// list follows the new leaf, and where the addition makes the window slide
/// the chunks follow the slide.
pub open spec fn follows_addition(
    before: MsMembershipProof,
    item: Seq<u64>,
    set: &SetCommitment,
    leaf: Seq<u64>,
    after: MsMembershipProof,
    changed: bool,
) -> bool {
    let followed = spec_mmr_update_from_append(
        proof_path(before.auth_path_aocl),
        before.aocl_leaf_index,
        set.aocl.leaf_count(),
        leaf,
        set.aocl.peaks_view(),
    );
    &&& after.randomness == before.randomness
    &&& after.aocl_leaf_index == before.aocl_leaf_index
    &&& after.cached() == before.cached()
    &&& proof_path(after.auth_path_aocl) == followed.0
    &&& if slides_at(set.aocl.leaf_count()) {
        let bits = indices_of_proof(item, before)->0;
        after.target_chunks@ == chunks_after_slide(before.target_chunks@, bits, set) && changed
            == (followed.1 || slide_changes_chunks(before.target_chunks@, bits, set))
    } else {
        after.target_chunks@ == before.target_chunks@ && changed == followed.1
    }
}

/// Whether `after` is what the membership proof `before` of `item` becomes
/// when it follows the addition of the commitment `leaf` to the set.
pub open spec fn has_followed_addition(
    before: MsMembershipProof,
    item: Seq<u64>,
    set: &SetCommitment,
    leaf: Seq<u64>,
    after: MsMembershipProof,
) -> bool {
    follows_addition(before, item, set, leaf, after, true) || follows_addition(
        before,
        item,
        set,
        leaf,
        after,
        false,
    )
}

/// Whether two membership proofs hold the same.
pub open spec fn same_proof(a: MsMembershipProof, b: MsMembershipProof) -> bool {
    &&& a.randomness == b.randomness
    &&& a.aocl_leaf_index == b.aocl_leaf_index
    &&& a.cached() == b.cached()
    &&& proof_path(a.auth_path_aocl) == proof_path(b.auth_path_aocl)
    &&& a.target_chunks@ == b.target_chunks@
}

impl MsMembershipProof {
    /// Update the membership proof of `own_item` so that it holds of the
    /// mutator set once the item that `addition_record` commits to is
    /// added. `mutator_set` is the set before the addition. Returns whether
    /// the proof changed. Where the proof cannot follow it stays as it is.
    pub fn update_from_addition(
        &mut self,
        own_item: &Digest,
        mutator_set: &SetCommitment,
        addition_record: &AdditionRecord,
    ) -> (r: Result<bool, SetCommitmentError>)
        requires
            mutator_set.wf(),
            mutator_set.aocl.leaf_count() + 1 < MAX_LEAFS,
        ensures
            match r {
                Ok(changed) => addition_error(*old(self), own_item@, mutator_set) is None
                    && follows_addition(
                    *old(self),
                    own_item@,
                    mutator_set,
                    addition_record.canonical_commitment@,
                    *final(self),
                    changed,
                ),
                Err(e) => addition_error(*old(self), own_item@, mutator_set) == Some(e)
                    && same_proof(*final(self), *old(self)),
            },
    {
        let count = mutator_set.aocl.num_leafs();
        if count == 0 {
            return Err(SetCommitmentError::MutatorSetIsEmpty);
        }
        let leaf = hash_pair(own_item, &self.randomness);
        if !mutator_set.aocl.verify(&self.auth_path_aocl, self.aocl_leaf_index, &leaf) {
            return Err(
                SetCommitmentError::RequestedAoclAuthPathOutOfBounds(
                    (self.aocl_leaf_index as u128, count as u128),
                ),
            );
        }
        let mut chunks_changed = false;
        if SetCommitment::window_slides(count) {
            let computed: Option<Vec<u128>> = match &self.cached_bits {
                Some(_) => None,
                None => get_swbf_indices(own_item, &self.randomness, self.aocl_leaf_index),
            };
            let all_bit_indices: &Vec<u128> = match &self.cached_bits {
                Some(bits) => bits,
                None => match &computed {
                    Some(bits) => bits,
                    None => {
                        return Err(
                            SetCommitmentError::RestoreMembershipProofDidNotFindChunkForChunkIndex,
                        );
                    },
                },
            };
            assert(indices_of_proof(own_item@, *self) == Some(all_bit_indices@));
            match update_chunks_from_slide(&mut self.target_chunks, all_bit_indices, mutator_set) {
                Ok(changed) => {
                    chunks_changed = changed;
                },
                Err(e) => {
                    return Err(e);
                },
            }
        }
        let aocl_mp_updated = mutator_set.aocl.update_from_append(
            &mut self.auth_path_aocl,
            self.aocl_leaf_index,
            &addition_record.canonical_commitment,
        );
        Ok(chunks_changed || aocl_mp_updated)
    }

    /// Update all the membership proofs, each of the item with the same
    /// position in `own_items`, so that they hold of the mutator set once
    /// the item that `addition_record` commits to is added. Returns the
    /// positions of the proofs that changed, in ascending order. Where a
    /// proof cannot follow, the proofs before it have followed and the
    /// others have not.
    pub fn batch_update_from_addition(
        membership_proofs: &mut Vec<MsMembershipProof>,
        own_items: &Vec<Digest>,
        mutator_set: &SetCommitment,
        addition_record: &AdditionRecord,
    ) -> (r: Result<Vec<usize>, SetCommitmentError>)
        requires
            mutator_set.wf(),
            mutator_set.aocl.leaf_count() + 1 < MAX_LEAFS,
            old(membership_proofs)@.len() == own_items@.len(),
        ensures
            final(membership_proofs)@.len() == old(membership_proofs)@.len(),
            r matches Ok(changed) ==> {
                &&& forall|i: int|
                    0 <= i < own_items@.len() ==> addition_error(
                        (#[trigger] old(membership_proofs)@[i]),
                        own_items@[i]@,
                        mutator_set,
                    ) is None && follows_addition(
                        old(membership_proofs)@[i],
                        own_items@[i]@,
                        mutator_set,
                        addition_record.canonical_commitment@,
                        final(membership_proofs)@[i],
                        changed@.contains(i as usize),
                    )
                &&& forall|k: int, m: int|
                    0 <= k < m < changed@.len() ==> changed@[k] < changed@[m]
            },
            r matches Err(e) ==> exists|k: int|
                {
                    &&& 0 <= k < own_items@.len()
                    &&& addition_error(
                        (#[trigger] old(membership_proofs)@[k]),
                        own_items@[k]@,
                        mutator_set,
                    ) == Some(e)
                    &&& forall|j: int|
                        0 <= j < k ==> addition_error(
                            (#[trigger] old(membership_proofs)@[j]),
                            own_items@[j]@,
                            mutator_set,
                        ) is None && has_followed_addition(
                            old(membership_proofs)@[j],
                            own_items@[j]@,
                            mutator_set,
                            addition_record.canonical_commitment@,
                            final(membership_proofs)@[j],
                        )
                    &&& forall|j: int|
                        k <= j < own_items@.len() ==> same_proof(
                            #[trigger] final(membership_proofs)@[j],
                            old(membership_proofs)@[j],
                        )
                },
    {
        let mut followed: Vec<MsMembershipProof> = Vec::new();
        let mut changed: Vec<usize> = Vec::new();
        let mut i: usize = 0;
        while i < membership_proofs.len()
            invariant
                0 <= i <= membership_proofs.len(),
                membership_proofs@ == old(membership_proofs)@,
                membership_proofs@.len() == own_items@.len(),
                mutator_set.wf(),
                mutator_set.aocl.leaf_count() + 1 < MAX_LEAFS,
                followed@.len() == i,
                forall|j: int|
                    0 <= j < i ==> addition_error(
                        (#[trigger] membership_proofs@[j]),
                        own_items@[j]@,
                        mutator_set,
                    ) is None && follows_addition(
                        membership_proofs@[j],
                        own_items@[j]@,
                        mutator_set,
                        addition_record.canonical_commitment@,
                        followed@[j],
                        changed@.contains(j as usize),
                    ),
                forall|k: int| 0 <= k < changed@.len() ==> #[trigger] changed@[k] < i,
                forall|k: int, m: int| 0 <= k < m < changed@.len() ==> changed@[k] < changed@[m],
            decreases membership_proofs.len() - i,
        {
            let mut mp = membership_proofs[i].copy();
            proof {
                assert(addition_error(mp, own_items@[i as int]@, mutator_set) == addition_error(
                    membership_proofs@[i as int],
                    own_items@[i as int]@,
                    mutator_set,
                ));
                assert(indices_of_proof(own_items@[i as int]@, mp) == indices_of_proof(
                    own_items@[i as int]@,
                    membership_proofs@[i as int],
                ));
            }
            match mp.update_from_addition(&own_items[i], mutator_set, addition_record) {
                Ok(did_change) => {
                    let ghost earlier = changed@;
                    if did_change {
                        changed.push(i);
                    }
                    proof {
                        assert(follows_addition(
                            membership_proofs@[i as int],
                            own_items@[i as int]@,
                            mutator_set,
                            addition_record.canonical_commitment@,
                            mp,
                            did_change,
                        ));
                        if did_change {
                            assert(changed@[earlier.len() as int] == i);
                            assert(changed@.contains(i));
                        } else if changed@.contains(i) {
                            let k = choose|k: int| 0 <= k < changed@.len() && changed@[k] == i;
                            assert(changed@[k] < i);
                        }
                        assert forall|x: usize| x < i implies #[trigger] changed@.contains(x)
                            == earlier.contains(x) by {
                            if earlier.contains(x) {
                                let k = choose|k: int| 0 <= k < earlier.len() && earlier[k] == x;
                                assert(changed@[k] == x);
                            }
                            if changed@.contains(x) {
                                let k = choose|k: int| 0 <= k < changed@.len() && changed@[k] == x;
                                assert(k < earlier.len());
                                assert(earlier[k] == x);
                            }
                        }
                        assert forall|j: int| 0 <= j < i implies follows_addition(
                            (#[trigger] membership_proofs@[j]),
                            own_items@[j]@,
                            mutator_set,
                            addition_record.canonical_commitment@,
                            followed@[j],
                            changed@.contains(j as usize),
                        ) by {
                            assert(changed@.contains(j as usize) == earlier.contains(j as usize));
                        }
                    }
                },
                Err(e) => {
                    // the proofs that followed so far stay as they are now
                    let mut k: usize = i;
                    while k < membership_proofs.len()
                        invariant
                            i <= k <= membership_proofs.len(),
                            followed@.len() == k,
                            membership_proofs@ == old(membership_proofs)@,
                            membership_proofs@.len() == own_items@.len(),
                            addition_error(
                                membership_proofs@[i as int],
                                own_items@[i as int]@,
                                mutator_set,
                            ) == Some(e),
                            forall|j: int|
                                0 <= j < i ==> addition_error(
                                    (#[trigger] membership_proofs@[j]),
                                    own_items@[j]@,
                                    mutator_set,
                                ) is None && has_followed_addition(
                                    membership_proofs@[j],
                                    own_items@[j]@,
                                    mutator_set,
                                    addition_record.canonical_commitment@,
                                    followed@[j],
                                ),
                            forall|j: int|
                                i <= j < k ==> same_proof(
                                    #[trigger] followed@[j],
                                    membership_proofs@[j],
                                ),
                        decreases membership_proofs.len() - k,
                    {
                        followed.push(membership_proofs[k].copy());
                        k += 1;
                    }
                    *membership_proofs = followed;
                    return Err(e);
                },
            }
            followed.push(mp);
            i += 1;
        }
        *membership_proofs = followed;
        Ok(changed)
    }
}

/// The bits and the chunks of removal records depend on what the records
/// hold alone.
pub proof fn lemma_records_by_view(a: Seq<RemovalRecord>, b: Seq<RemovalRecord>)
    requires
        a.len() == b.len(),
        forall|i: int|
            0 <= i < a.len() ==> (#[trigger] a[i]).bit_indices@ == b[i].bit_indices@
                && a[i].target_chunks@ == b[i].target_chunks@,
    ensures
        all_bits(a) == all_bits(b),
        merged_chunks(a) == merged_chunks(b),
    decreases a.len(),
{
    if a.len() > 0 {
        let ra = a.drop_last();
        let rb = b.drop_last();
        assert forall|i: int| 0 <= i < ra.len() implies (#[trigger] ra[i]).bit_indices@
            == rb[i].bit_indices@ && ra[i].target_chunks@ == rb[i].target_chunks@ by {
            assert(ra[i] == a[i]);
            assert(rb[i] == b[i]);
        }
        lemma_records_by_view(ra, rb);
        assert(a[a.len() - 1].bit_indices@ == b[b.len() - 1].bit_indices@);
    }
}

impl MsMembershipProof {
    /// Update all the membership proofs so that they hold of the mutator
    /// set once `removal_record` is applied to it: the bits of the record
    /// are set in the chunks that the proofs hold, and the paths of these
    /// chunks follow the inactive part of the filter. `mutator_set` is the
    /// set before the removal. Returns the positions of the proofs that
    /// changed. Where the record or a proof does not fit the set, the
    /// proofs stay as they are.
    pub fn batch_update_from_remove(
        membership_proofs: &mut Vec<MsMembershipProof>,
        removal_record: &RemovalRecord,
        mutator_set: &SetCommitment,
    ) -> (r: Result<Vec<usize>, SetCommitmentError>)
        requires
            mutator_set.wf(),
        ensures
            final(membership_proofs)@.len() == old(membership_proofs)@.len(),
            r is Ok <==> mutator_set.batch_fits_set(
                seq![*removal_record],
                old(membership_proofs)@,
            ),
            r is Err ==> *final(membership_proofs) == *old(membership_proofs),
            r matches Ok(changed) ==> {
                let out = flip_all(
                    (
                        mutator_set.swbf_active@,
                        merged_chunks(seq![*removal_record]),
                        Seq::<u128>::empty(),
                    ),
                    window_start(batch_index_of(mutator_set.aocl.leaf_count())),
                    all_bits(seq![*removal_record]),
                );
                let entries = flat_entries(old(membership_proofs)@);
                let mutated = spec_mmr_batch_mutate(
                    mutator_set.swbf_inactive.peaks_view(),
                    mutator_set.swbf_inactive.leaf_count(),
                    paths_of(entries),
                    keys_of(entries),
                    mutations_of(out.1),
                );
                &&& forall|j: int|
                    0 <= j < old(membership_proofs)@.len() ==> {
                        let before = old(membership_proofs)@[j];
                        let after = #[trigger] final(membership_proofs)@[j];
                        &&& after.randomness == before.randomness
                        &&& proof_path(after.auth_path_aocl) == proof_path(before.auth_path_aocl)
                        &&& after.aocl_leaf_index == before.aocl_leaf_index
                        &&& after.cached() == before.cached()
                        &&& after.target_chunks@ == updated_entries(
                            before.target_chunks@,
                            out.1,
                            mutated.1,
                            flat_entries(old(membership_proofs)@.take(j)).len() as int,
                        )
                    }
                &&& forall|k: int|
                    0 <= k < changed@.len() ==> 0 <= #[trigger] changed@[k] < old(
                        membership_proofs,
                    )@.len() && final(membership_proofs)@[changed@[k] as int].target_chunks@
                        != old(membership_proofs)@[changed@[k] as int].target_chunks@
                &&& forall|j: int|
                    0 <= j < old(membership_proofs)@.len() && (
                    #[trigger] final(membership_proofs)@[j]).target_chunks@ != old(
                        membership_proofs,
                    )@[j].target_chunks@ ==> changed@.contains(j as usize)
            },
    {
        let mut records: Vec<RemovalRecord> = Vec::new();
        records.push(removal_record.copy());
        proof {
            lemma_records_by_view(records@, seq![*removal_record]);
            assert(mutator_set.batch_fits_set(records@, membership_proofs@)
                == mutator_set.batch_fits_set(seq![*removal_record], membership_proofs@)) by {
                assert(records@[0].target_chunks@ == removal_record.target_chunks@);
                assert(seq![*removal_record][0] == *removal_record);
                if mutator_set.batch_fits_set(records@, membership_proofs@) {
                    assert forall|i: int| 0 <= i < 1 implies mutator_set.chunks_fit(
                        (#[trigger] seq![*removal_record][i]).target_chunks@,
                    ) by {
                        assert(mutator_set.chunks_fit(records@[0].target_chunks@));
                    }
                }
                if mutator_set.batch_fits_set(seq![*removal_record], membership_proofs@) {
                    assert forall|i: int| 0 <= i < records@.len() implies mutator_set.chunks_fit(
                        (#[trigger] records@[i]).target_chunks@,
                    ) by {
                        assert(mutator_set.chunks_fit(seq![*removal_record][0].target_chunks@));
                    }
                }
            }
        }
        if !mutator_set.can_batch_remove(&records, membership_proofs) {
            return Err(
                SetCommitmentError::RequestedSwbfAuthPathOutOfBounds(
                    (
                        removal_record.target_chunks.len() as u128,
                        mutator_set.swbf_inactive.num_leafs() as u128,
                    ),
                ),
            );
        }
        let mut before: Vec<ChunkDictionary> = Vec::new();
        let mut i: usize = 0;
        while i < membership_proofs.len()
            invariant
                0 <= i <= membership_proofs.len(),
                before@.len() == i,
                forall|j: int|
                    0 <= j < i ==> (#[trigger] before@[j])@ == membership_proofs@[j].target_chunks@,
            decreases membership_proofs.len() - i,
        {
            before.push(membership_proofs[i].target_chunks.copy());
            i += 1;
        }
        let mut simulated = mutator_set.copy();
        simulated.batch_remove(&records, membership_proofs);
        let mut changed: Vec<usize> = Vec::new();
        let mut j: usize = 0;
        while j < membership_proofs.len()
            invariant
                0 <= j <= membership_proofs.len(),
                before@.len() == membership_proofs@.len(),
                forall|k: int|
                    0 <= k < changed@.len() ==> 0 <= #[trigger] changed@[k] < j
                        && membership_proofs@[changed@[k] as int].target_chunks@
                        != before@[changed@[k] as int]@,
                forall|m: int|
                    0 <= m < j && (#[trigger] membership_proofs@[m]).target_chunks@ != before@[m]@
                        ==> changed@.contains(m as usize),
            decreases membership_proofs.len() - j,
        {
            if !membership_proofs[j].target_chunks.same_as(&before[j]) {
                let ghost earlier = changed@;
                changed.push(j);
                proof {
                    assert(changed@[earlier.len() as int] == j);
                    assert forall|m: int|
                        0 <= m < j + 1 && (#[trigger] membership_proofs@[m]).target_chunks@
                            != before@[m]@ implies changed@.contains(m as usize) by {
                        if m < j {
                            assert(earlier.contains(m as usize));
                            let k = choose|k: int| 0 <= k < earlier.len() && earlier[k] == m as usize;
                            assert(changed@[k] == m as usize);
                        }
                    }
                }
            }
            j += 1;
        }
        Ok(changed)
    }

    /// Update the membership proof so that it holds of the mutator set once
    /// `removal_record` is applied to it: the bits of the record are set in
    /// the chunks that the proof holds, and the paths of these chunks
    /// follow the inactive part of the filter. `mutator_set` is the set
    /// before the removal. Returns whether the proof changed. Where the
    /// record or the proof does not fit the set, the proof stays as it is.
    pub fn update_from_remove(&mut self, removal_record: &RemovalRecord, mutator_set: &SetCommitment) -> (r:
        Result<bool, SetCommitmentError>)
        requires
            mutator_set.wf(),
        ensures
            final(self).randomness == old(self).randomness,
            final(self).aocl_leaf_index == old(self).aocl_leaf_index,
            final(self).cached() == old(self).cached(),
            proof_path(final(self).auth_path_aocl) == proof_path(old(self).auth_path_aocl),
            r is Ok <==> mutator_set.batch_fits_set(seq![*removal_record], seq![*old(self)]),
            r is Err ==> final(self).target_chunks@ == old(self).target_chunks@,
            r matches Ok(changed) ==> {
                let out = flip_all(
                    (
                        mutator_set.swbf_active@,
                        merged_chunks(seq![*removal_record]),
                        Seq::<u128>::empty(),
                    ),
                    window_start(batch_index_of(mutator_set.aocl.leaf_count())),
                    all_bits(seq![*removal_record]),
                );
                let entries = old(self).target_chunks@;
                let mutated = spec_mmr_batch_mutate(
                    mutator_set.swbf_inactive.peaks_view(),
                    mutator_set.swbf_inactive.leaf_count(),
                    paths_of(entries),
                    keys_of(entries),
                    mutations_of(out.1),
                );
                &&& final(self).target_chunks@ == updated_entries(entries, out.1, mutated.1, 0)
                &&& changed == (final(self).target_chunks@ != old(self).target_chunks@)
            },
    {
        let mut proofs: Vec<MsMembershipProof> = Vec::new();
        proofs.push(self.copy());
        let ghost held = proofs@;
        proof {
            assert(held.len() == 1);
            assert(held.drop_last() =~= Seq::<MsMembershipProof>::empty());
            assert(flat_entries(held.drop_last()) =~= Seq::empty());
            assert(held.last().target_chunks@ == old(self).target_chunks@);
            assert(flat_entries(held) =~= old(self).target_chunks@);
            assert(held.take(0) =~= Seq::<MsMembershipProof>::empty());
            assert(mutator_set.batch_fits_set(seq![*removal_record], held)
                == mutator_set.batch_fits_set(seq![*removal_record], seq![*old(self)])) by {
                if mutator_set.batch_fits_set(seq![*removal_record], held) {
                    assert(mutator_set.chunks_fit(held[0].target_chunks@));
                    assert forall|i: int| 0 <= i < 1 implies mutator_set.chunks_fit(
                        (#[trigger] seq![*old(self)][i]).target_chunks@,
                    ) by {}
                }
                if mutator_set.batch_fits_set(seq![*removal_record], seq![*old(self)]) {
                    assert(mutator_set.chunks_fit(seq![*old(self)][0].target_chunks@));
                    assert forall|i: int| 0 <= i < held.len() implies mutator_set.chunks_fit(
                        (#[trigger] held[i]).target_chunks@,
                    ) by {}
                }
            }
        }
        let result = Self::batch_update_from_remove(&mut proofs, removal_record, mutator_set);
        match result {
            Ok(changed) => {
                let did_change = changed.len() > 0;
                proof {
                    if did_change {
                        assert(changed@[0] == 0);
                    } else if proofs@[0].target_chunks@ != old(self).target_chunks@ {
                        assert(changed@.contains(0usize));
                    }
                }
                match proofs.pop() {
                    Some(updated) => {
                        *self = updated;
                    },
                    None => {},
                }
                Ok(did_change)
            },
            Err(e) => Err(e),
        }
    }
}

/// Whether `after` is the removal record `before` once its chunks have
/// followed a slide of the window of the set.
pub open spec fn record_follows_slide(before: RemovalRecord, set: &SetCommitment, after: RemovalRecord) -> bool {
    &&& after.bit_indices@ == before.bit_indices@
    &&& after.target_chunks@ == chunks_after_slide(
        before.target_chunks@,
        before.bit_indices@,
        set,
    )
}

/// Whether two removal records hold the same.
pub open spec fn same_record(a: RemovalRecord, b: RemovalRecord) -> bool {
    a.bit_indices@ == b.bit_indices@ && a.target_chunks@ == b.target_chunks@
}

impl RemovalRecord {
    /// Update the removal records, which are not applied yet, so that their
    /// chunks hold of the mutator set once the next item is added to it.
    /// `mutator_set` is the set before the addition. Only an addition that
    /// makes the window slide touches the records. Where a record cannot
    /// follow, the records before it have followed and the others have not.
    pub fn batch_update_from_addition(removal_records: &mut Vec<RemovalRecord>, mutator_set: &SetCommitment) -> (r:
        Result<(), SetCommitmentError>)
        requires
            mutator_set.wf(),
        ensures
            final(removal_records)@.len() == old(removal_records)@.len(),
            r is Ok ==> forall|i: int|
                0 <= i < old(removal_records)@.len() ==> {
                    let before = #[trigger] old(removal_records)@[i];
                    let after = final(removal_records)@[i];
                    if slides_at(mutator_set.aocl.leaf_count()) {
                        slide_error(before.target_chunks@, before.bit_indices@, mutator_set)
                            is None && record_follows_slide(before, mutator_set, after)
                    } else {
                        same_record(after, before)
                    }
                },
            r matches Err(e) ==> slides_at(mutator_set.aocl.leaf_count()) && exists|k: int|
                {
                    &&& 0 <= k < old(removal_records)@.len()
                    &&& slide_error(
                        (#[trigger] old(removal_records)@[k]).target_chunks@,
                        old(removal_records)@[k].bit_indices@,
                        mutator_set,
                    ) == Some(e)
                    &&& forall|j: int|
                        0 <= j < k ==> slide_error(
                            (#[trigger] old(removal_records)@[j]).target_chunks@,
                            old(removal_records)@[j].bit_indices@,
                            mutator_set,
                        ) is None && record_follows_slide(
                            old(removal_records)@[j],
                            mutator_set,
                            final(removal_records)@[j],
                        )
                    &&& forall|j: int|
                        k <= j < old(removal_records)@.len() ==> same_record(
                            #[trigger] final(removal_records)@[j],
                            old(removal_records)@[j],
                        )
                },
    {
        if !SetCommitment::window_slides(mutator_set.aocl.num_leafs()) {
            return Ok(());
        }
        let mut followed: Vec<RemovalRecord> = Vec::new();
        let mut i: usize = 0;
        while i < removal_records.len()
            invariant
                0 <= i <= removal_records.len(),
                removal_records@ == old(removal_records)@,
                mutator_set.wf(),
                slides_at(mutator_set.aocl.leaf_count()),
                followed@.len() == i,
                forall|j: int|
                    0 <= j < i ==> slide_error(
                        (#[trigger] removal_records@[j]).target_chunks@,
                        removal_records@[j].bit_indices@,
                        mutator_set,
                    ) is None && record_follows_slide(
                        removal_records@[j],
                        mutator_set,
                        followed@[j],
                    ),
            decreases removal_records.len() - i,
        {
            let mut record = removal_records[i].copy();
            proof {
                assert(slide_error(record.target_chunks@, record.bit_indices@, mutator_set)
                    == slide_error(
                    removal_records@[i as int].target_chunks@,
                    removal_records@[i as int].bit_indices@,
                    mutator_set,
                ));
            }
            match update_chunks_from_slide(
                &mut record.target_chunks,
                &record.bit_indices,
                mutator_set,
            ) {
                Ok(_) => {},
                Err(e) => {
                    let mut k: usize = i;
                    while k < removal_records.len()
                        invariant
                            i <= k <= removal_records.len(),
                            followed@.len() == k,
                            removal_records@ == old(removal_records)@,
                            slides_at(mutator_set.aocl.leaf_count()),
                            slide_error(
                                removal_records@[i as int].target_chunks@,
                                removal_records@[i as int].bit_indices@,
                                mutator_set,
                            ) == Some(e),
                            forall|j: int|
                                0 <= j < i ==> slide_error(
                                    (#[trigger] removal_records@[j]).target_chunks@,
                                    removal_records@[j].bit_indices@,
                                    mutator_set,
                                ) is None && record_follows_slide(
                                    removal_records@[j],
                                    mutator_set,
                                    followed@[j],
                                ),
                            forall|j: int|
                                i <= j < k ==> same_record(
                                    #[trigger] followed@[j],
                                    removal_records@[j],
                                ),
                        decreases removal_records.len() - k,
                    {
                        followed.push(removal_records[k].copy());
                        k += 1;
                    }
                    *removal_records = followed;
                    return Err(e);
                },
            }
            followed.push(record);
            i += 1;
        }
        *removal_records = followed;
        Ok(())
    }
}

/// The entries of the chunk dictionaries of all the removal records, one
/// record after the other.
pub open spec fn record_entries(records: Seq<RemovalRecord>) -> Seq<(u64, Seq<Seq<u64>>, Seq<u32>)>
    decreases records.len(),
{
    if records.len() == 0 {
        Seq::empty()
    } else {
        record_entries(records.drop_last()) + records.last().target_chunks@
    }
}

/// Membership proofs that hold the chunks of removal records hold the
/// entries of these records.
proof fn lemma_entries_of_shells(shells: Seq<MsMembershipProof>, records: Seq<RemovalRecord>)
    requires
        shells.len() == records.len(),
        forall|i: int|
            0 <= i < records.len() ==> (#[trigger] shells[i]).target_chunks@
                == records[i].target_chunks@,
    ensures
        flat_entries(shells) == record_entries(records),
    decreases records.len(),
{
    if records.len() > 0 {
        let s = shells.drop_last();
        let r = records.drop_last();
        assert forall|i: int| 0 <= i < r.len() implies (#[trigger] s[i]).target_chunks@
            == r[i].target_chunks@ by {
            assert(s[i] == shells[i]);
            assert(r[i] == records[i]);
        }
        lemma_entries_of_shells(s, r);
        assert(shells[shells.len() - 1].target_chunks@ == records[records.len() - 1].target_chunks@);
    }
}

impl SetCommitment {
    /// Whether removal records that are not applied yet can follow the
    /// removal `applied`: the chunks of all of them fit the set, and each
    /// bit of `applied` lies in the active window or in one of its chunks.
    pub open spec fn records_follow(&self, applied: RemovalRecord, records: Seq<RemovalRecord>) -> bool {
        &&& self.swbf_inactive.leaf_count() <= MAX_LEAFS
        &&& self.chunks_fit(applied.target_chunks@)
        &&& forall|i: int|
            0 <= i < records.len() ==> self.chunks_fit((#[trigger] records[i]).target_chunks@)
        &&& bits_in_reach(
            merged_chunks(seq![applied]),
            window_start(batch_index_of(self.aocl.leaf_count())),
            all_bits(seq![applied]),
        )
    }
}

impl RemovalRecord {
    /// Update the removal records, which are not applied yet, so that their
    /// chunks hold of the mutator set once the removal `applied` is applied
    /// to it: the bits of `applied` are set in the chunks that the records
    /// hold, and the paths of these chunks follow the inactive part of the
    /// filter. `mutator_set` is the set before the removal. Where `applied`
    /// or a record does not fit the set, the records stay as they are.
    pub fn batch_update_from_remove(
        removal_records: &mut Vec<RemovalRecord>,
        applied: &RemovalRecord,
        mutator_set: &SetCommitment,
    ) -> (r: Result<(), SetCommitmentError>)
        requires
            mutator_set.wf(),
        ensures
            final(removal_records)@.len() == old(removal_records)@.len(),
            r is Ok <==> mutator_set.records_follow(*applied, old(removal_records)@),
            r is Err ==> *final(removal_records) == *old(removal_records),
            r is Ok ==> {
                let out = flip_all(
                    (mutator_set.swbf_active@, merged_chunks(seq![*applied]), Seq::<u128>::empty()),
                    window_start(batch_index_of(mutator_set.aocl.leaf_count())),
                    all_bits(seq![*applied]),
                );
                let entries = record_entries(old(removal_records)@);
                let mutated = spec_mmr_batch_mutate(
                    mutator_set.swbf_inactive.peaks_view(),
                    mutator_set.swbf_inactive.leaf_count(),
                    paths_of(entries),
                    keys_of(entries),
                    mutations_of(out.1),
                );
                forall|j: int|
                    0 <= j < old(removal_records)@.len() ==> {
                        let before = old(removal_records)@[j];
                        let after = #[trigger] final(removal_records)@[j];
                        &&& after.bit_indices@ == before.bit_indices@
                        &&& after.target_chunks@ == updated_entries(
                            before.target_chunks@,
                            out.1,
                            mutated.1,
                            record_entries(old(removal_records)@.take(j)).len() as int,
                        )
                    }
            },
    {
        let mut shells: Vec<MsMembershipProof> = Vec::new();
        let mut i: usize = 0;
        while i < removal_records.len()
            invariant
                0 <= i <= removal_records.len(),
                shells@.len() == i,
                forall|j: int|
                    0 <= j < i ==> (#[trigger] shells@[j]).target_chunks@
                        == removal_records@[j].target_chunks@,
            decreases removal_records.len() - i,
        {
            shells.push(
                MsMembershipProof {
                    randomness: Digest::default(),
                    auth_path_aocl: empty_proof(),
                    aocl_leaf_index: 0,
                    target_chunks: removal_records[i].target_chunks.copy(),
                    cached_bits: None,
                },
            );
            i += 1;
        }
        let ghost held = shells@;
        proof {
            lemma_entries_of_shells(held, removal_records@);
            assert forall|j: int| 0 <= j < removal_records@.len() implies flat_entries(
                held.take(j),
            ) == record_entries(#[trigger] removal_records@.take(j)) by {
                lemma_entries_of_shells(held.take(j), removal_records@.take(j));
            }
            assert(mutator_set.batch_fits_set(seq![*applied], held) == mutator_set.records_follow(
                *applied,
                removal_records@,
            )) by {
                assert(seq![*applied][0] == *applied);
                if mutator_set.batch_fits_set(seq![*applied], held) {
                    assert(mutator_set.chunks_fit(seq![*applied][0].target_chunks@));
                    assert forall|k: int| 0 <= k < removal_records@.len() implies mutator_set.chunks_fit(
                        (#[trigger] removal_records@[k]).target_chunks@,
                    ) by {
                        assert(mutator_set.chunks_fit(held[k].target_chunks@));
                    }
                }
                if mutator_set.records_follow(*applied, removal_records@) {
                    assert forall|k: int| 0 <= k < held.len() implies mutator_set.chunks_fit(
                        (#[trigger] held[k]).target_chunks@,
                    ) by {
                        assert(mutator_set.chunks_fit(removal_records@[k].target_chunks@));
                    }
                }
            }
        }
        match MsMembershipProof::batch_update_from_remove(&mut shells, applied, mutator_set) {
            Ok(_) => {},
            Err(e) => {
                return Err(e);
            },
        }
        let mut followed: Vec<RemovalRecord> = Vec::new();
        let mut j: usize = 0;
        while j < removal_records.len()
            invariant
                0 <= j <= removal_records.len(),
                shells@.len() == removal_records@.len(),
                followed@.len() == j,
                forall|k: int|
                    0 <= k < j ==> (#[trigger] followed@[k]).bit_indices@
                        == removal_records@[k].bit_indices@ && followed@[k].target_chunks@
                        == shells@[k].target_chunks@,
            decreases removal_records.len() - j,
        {
            followed.push(
                RemovalRecord {
                    bit_indices: copy_bit_indices(&removal_records[j].bit_indices),
                    target_chunks: shells[j].target_chunks.copy(),
                },
            );
            j += 1;
        }
        *removal_records = followed;
        Ok(())
    }
}

} // verus!
