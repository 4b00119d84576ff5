//! The mutator set as a commitment: the accumulator of the commitment list,
//! the accumulator of the inactive part of the Bloom filter, and the active
//! window.

use crate::digest::Digest;
use crate::mmr::{
    clone_proof, path_fits, proof_path, spec_mmr_append, spec_mmr_batch_mutate,
    spec_mmr_verify, LeafMutation, MmrAccumulator, MAX_LEAFS,
};
use crate::mutator_set::active_window::{below, slid, ActiveWindow};
use crate::mutator_set::chunk::{chunk_hash, Chunk};
use crate::mutator_set::addition_record::AdditionRecord;
use crate::mutator_set::chunk_dictionary::{
    distinct_keys, has_key, position_of, ChunkDictionary, ChunkEntry,
};
use crate::mutator_set::ms_membership_proof::MsMembershipProof;
use crate::mutator_set::removal_record::{copy_bit_indices, RemovalRecord};
use crate::mutator_set::shared::{BATCH_SIZE, CHUNK_SIZE, NUM_TRIALS, WINDOW_SIZE};
use crate::mutator_set::sorted::{
    ascending, insert_unique_u128, lemma_ascending_unique, lemma_strictly_ascending_unique_u128,
    strictly_ascending_u128,
};
use twenty_first::prelude::MmrMembershipProof;
use crate::tip5::{hash_pair, hash_varlen, spec_hash_pair, spec_hash_varlen};
use vstd::prelude::*;

verus! {

/// What can go wrong when a membership proof is restored or looked up.
#[derive(Debug, Clone, Copy, PartialEq, Eq)]
pub enum SetCommitmentError {
    RequestedAoclAuthPathOutOfBounds((u128, u128)),
    RequestedSwbfAuthPathOutOfBounds((u128, u128)),
    MutatorSetIsEmpty,
    RestoreMembershipProofDidNotFindChunkForChunkIndex,
}

impl SetCommitmentError {
    /// The name of the error.
    pub fn name(&self) -> (s: &'static str)
        ensures
            s@ == match self {
                SetCommitmentError::RequestedAoclAuthPathOutOfBounds(_) =>
                    "RequestedAoclAuthPathOutOfBounds"@,
                SetCommitmentError::RequestedSwbfAuthPathOutOfBounds(_) =>
                    "RequestedSwbfAuthPathOutOfBounds"@,
                SetCommitmentError::MutatorSetIsEmpty => "MutatorSetIsEmpty"@,
                SetCommitmentError::RestoreMembershipProofDidNotFindChunkForChunkIndex =>
                    "RestoreMembershipProofDidNotFindChunkForChunkIndex"@,
            },
    {
        match self {
            SetCommitmentError::RequestedAoclAuthPathOutOfBounds(_) =>
                "RequestedAoclAuthPathOutOfBounds",
            SetCommitmentError::RequestedSwbfAuthPathOutOfBounds(_) =>
                "RequestedSwbfAuthPathOutOfBounds",
            SetCommitmentError::MutatorSetIsEmpty => "MutatorSetIsEmpty",
            SetCommitmentError::RestoreMembershipProofDidNotFindChunkForChunkIndex =>
                "RestoreMembershipProofDidNotFindChunkForChunkIndex",
        }
    }
}

/// The two field elements that stand for a 64-bit number when it is hashed:
/// its low and its high 32 bits.
pub open spec fn u64_sequence(x: u64) -> Seq<u64> {
    seq![(x % 0x1_0000_0000) as u64, (x / 0x1_0000_0000) as u64]
}

/// What is hashed for the sample with number `counter`: the item, the index
/// of its commitment in the commitment list, the randomness and the counter.
pub open spec fn sample_input(item: Seq<u64>, randomness: Seq<u64>, aocl_leaf_index: u64, counter: u64) -> Seq<
    u64,
> {
    item + u64_sequence(aocl_leaf_index) + randomness + u64_sequence(counter)
}

/// The batch in which the commitment with index `aocl_leaf_index` falls.
pub open spec fn batch_of(aocl_leaf_index: u64) -> u64 {
    aocl_leaf_index / (BATCH_SIZE as u64)
}

/// The first bit of the window as it stands for batch `batch_index`.
pub open spec fn window_start(batch_index: u64) -> u128 {
    ((batch_index as u128) * (CHUNK_SIZE as u128)) as u128
}

/// The sample with number `counter`: a bit index within the window of the
/// batch of the item, derived from the first element of a hash.
pub open spec fn sample_at(item: Seq<u64>, randomness: Seq<u64>, aocl_leaf_index: u64, counter: u64) -> u128 {
    ((spec_hash_varlen(sample_input(item, randomness, aocl_leaf_index, counter))[0] % (
    WINDOW_SIZE as u64)) as u128 + window_start(batch_of(aocl_leaf_index))) as u128
}

/// The strictly ascending sequence that holds `x` and the members of `s`.
pub open spec fn with_index(s: Seq<u128>, x: u128) -> Seq<u128> {
    choose|t: Seq<u128>| strictly_ascending_u128(t) && t.to_set() == s.to_set().insert(x)
}

/// The bit indices found among the first `n` samples: they are sampled one
/// by one until there are `NUM_TRIALS` different ones.
pub open spec fn indices_upto(item: Seq<u64>, randomness: Seq<u64>, aocl_leaf_index: u64, n: nat) -> Seq<
    u128,
>
    decreases n,
{
    if n == 0 {
        Seq::empty()
    } else {
        let found = indices_upto(item, randomness, aocl_leaf_index, (n - 1) as nat);
        if found.len() >= NUM_TRIALS {
            found
        } else {
            with_index(found, sample_at(item, randomness, aocl_leaf_index, (n - 1) as u64))
        }
    }
}

/// The bit indices of an item: the first `NUM_TRIALS` different samples, in
/// ascending order. There are none where the samples with the counters that
/// a `u64` can hold are fewer than that.
pub open spec fn spec_swbf_indices(item: Seq<u64>, randomness: Seq<u64>, aocl_leaf_index: u64) -> Option<
    Seq<u128>,
> {
    let found = indices_upto(item, randomness, aocl_leaf_index, u64::MAX as nat);
    if found.len() == NUM_TRIALS {
        Some(found)
    } else {
        None
    }
}

/// Once `NUM_TRIALS` indices are found, further samples change nothing.
pub proof fn lemma_indices_saturate(item: Seq<u64>, randomness: Seq<u64>, aocl_leaf_index: u64, n: nat, m: nat)
    requires
        n <= m,
        indices_upto(item, randomness, aocl_leaf_index, n).len() >= NUM_TRIALS,
    ensures
        indices_upto(item, randomness, aocl_leaf_index, m) == indices_upto(
            item,
            randomness,
            aocl_leaf_index,
            n,
        ),
    decreases m,
{
    if n < m {
        lemma_indices_saturate(item, randomness, aocl_leaf_index, n, (m - 1) as nat);
    }
}

/// The indices found are in strictly ascending order, at most `NUM_TRIALS`,
/// and each lies in the window of the batch of the item.
pub proof fn lemma_indices_upto(item: Seq<u64>, randomness: Seq<u64>, aocl_leaf_index: u64, n: nat)
    ensures
        strictly_ascending_u128(indices_upto(item, randomness, aocl_leaf_index, n)),
        indices_upto(item, randomness, aocl_leaf_index, n).len() <= NUM_TRIALS,
        forall|i: int|
            0 <= i < indices_upto(item, randomness, aocl_leaf_index, n).len() ==> {
                let x = #[trigger] indices_upto(item, randomness, aocl_leaf_index, n)[i];
                window_start(batch_of(aocl_leaf_index)) <= x < window_start(
                    batch_of(aocl_leaf_index),
                ) + WINDOW_SIZE
            },
    decreases n,
{
    if n > 0 {
        lemma_indices_upto(item, randomness, aocl_leaf_index, (n - 1) as nat);
        let found = indices_upto(item, randomness, aocl_leaf_index, (n - 1) as nat);
        if found.len() < NUM_TRIALS {
            let x = sample_at(item, randomness, aocl_leaf_index, (n - 1) as u64);
            lemma_with_index(found, x);
            lemma_sample_in_window(item, randomness, aocl_leaf_index, (n - 1) as u64);
            let t = with_index(found, x);
            assert forall|i: int| 0 <= i < t.len() implies window_start(
                batch_of(aocl_leaf_index),
            ) <= #[trigger] t[i] < window_start(batch_of(aocl_leaf_index)) + WINDOW_SIZE by {
                assert(t.to_set().contains(t[i]));
                if t[i] != x {
                    assert(found.to_set().contains(t[i]));
                    let k = choose|k: int| 0 <= k < found.len() && found[k] == t[i];
                    assert(found[k] == t[i]);
                }
            }
        }
    }
}

/// A sample lies in the window of the batch of the item.
pub proof fn lemma_sample_in_window(item: Seq<u64>, randomness: Seq<u64>, aocl_leaf_index: u64, counter: u64)
    ensures
        window_start(batch_of(aocl_leaf_index)) <= sample_at(
            item,
            randomness,
            aocl_leaf_index,
            counter,
        ) < window_start(batch_of(aocl_leaf_index)) + WINDOW_SIZE,
        window_start(batch_of(aocl_leaf_index)) == batch_of(aocl_leaf_index) * CHUNK_SIZE,
{
    let b = batch_of(aocl_leaf_index);
    assert((b as u128) * (CHUNK_SIZE as u128) <= 0xffff_ffff_ffff_ffff * 4096) by (nonlinear_arith)
        requires
            b <= 0xffff_ffff_ffff_ffff,
    ;
}

/// A strictly ascending sequence with one more member exists, so `with_index`
/// is that sequence.
pub proof fn lemma_with_index(s: Seq<u128>, x: u128)
    requires
        strictly_ascending_u128(s),
    ensures
        strictly_ascending_u128(with_index(s, x)),
        with_index(s, x).to_set() == s.to_set().insert(x),
        s.contains(x) ==> with_index(s, x) == s,
        !s.contains(x) ==> with_index(s, x).len() == s.len() + 1,
{
    let t = inserted_at(s, x);
    lemma_inserted_at(s, x);
    lemma_rank(s, x);
    assert(strictly_ascending_u128(t) && t.to_set() == s.to_set().insert(x));
    lemma_strictly_ascending_unique_u128(with_index(s, x), t);
}

/// The number of members of `s` below `x`.
pub open spec fn rank_of(s: Seq<u128>, x: u128) -> int
    decreases s.len(),
{
    if s.len() == 0 {
        0
    } else if s.last() < x {
        rank_of(s.drop_last(), x) + 1
    } else {
        rank_of(s.drop_last(), x)
    }
}

/// The sequence `s` with `x` put where it belongs, unless it is there.
pub open spec fn inserted_at(s: Seq<u128>, x: u128) -> Seq<u128> {
    if s.contains(x) {
        s
    } else {
        s.insert(rank_of(s, x), x)
    }
}

proof fn lemma_rank(s: Seq<u128>, x: u128)
    requires
        strictly_ascending_u128(s),
    ensures
        0 <= rank_of(s, x) <= s.len(),
        forall|i: int| 0 <= i < rank_of(s, x) ==> s[i] < x,
        forall|i: int| rank_of(s, x) <= i < s.len() ==> s[i] >= x,
    decreases s.len(),
{
    if s.len() > 0 {
        let t = s.drop_last();
        assert(strictly_ascending_u128(t));
        lemma_rank(t, x);
        if s.last() < x {
            assert(rank_of(t, x) == t.len()) by {
                if rank_of(t, x) < t.len() {
                    assert(t[rank_of(t, x)] >= x);
                    assert(s[rank_of(t, x)] < s[s.len() - 1]);
                }
            }
        }
        assert forall|i: int| 0 <= i < rank_of(s, x) implies s[i] < x by {
            if i < t.len() {
                assert(t[i] == s[i]);
            }
        }
        assert forall|i: int| rank_of(s, x) <= i < s.len() implies s[i] >= x by {
            if i < t.len() {
                assert(t[i] == s[i]);
            }
        }
    }
}

proof fn lemma_inserted_at(s: Seq<u128>, x: u128)
    requires
        strictly_ascending_u128(s),
    ensures
        strictly_ascending_u128(inserted_at(s, x)),
        inserted_at(s, x).to_set() == s.to_set().insert(x),
{
    let t = inserted_at(s, x);
    lemma_rank(s, x);
    if s.contains(x) {
        assert(s.to_set().insert(x) =~= s.to_set());
    } else {
        let r = rank_of(s, x);
        assert forall|i: int, j: int| 0 <= i < j < t.len() implies t[i] < t[j] by {
            if j < r {
            } else if i > r {
                assert(s[i - 1] < s[j - 1]);
            } else if i == r {
                assert(s[j - 1] >= x);
                assert(s[j - 1] != x);
            } else if j == r {
            } else {
                assert(s[i] < s[j - 1]);
            }
        }
        assert forall|y: u128| t.to_set().contains(y) <==> s.to_set().insert(x).contains(y) by {
            if t.to_set().contains(y) {
                let i = choose|i: int| 0 <= i < t.len() && t[i] == y;
                if i < r {
                    assert(s[i] == y);
                } else if i > r {
                    assert(s[i - 1] == y);
                }
            }
            if s.to_set().contains(y) {
                let i = choose|i: int| 0 <= i < s.len() && s[i] == y;
                if i < r {
                    assert(t[i] == y);
                } else {
                    assert(t[i + 1] == y);
                }
            }
            if y == x {
                assert(t[r] == x);
            }
        }
        assert(t.to_set() =~= s.to_set().insert(x));
    }
}

/// The two field elements that stand for a 64-bit number.
fn u64_to_sequence(x: u64, out: &mut Vec<u64>)
    ensures
        final(out)@ == old(out)@ + u64_sequence(x),
{
    out.push(x % 0x1_0000_0000);
    out.push(x / 0x1_0000_0000);
    proof {
        assert(out@ =~= old(out)@ + u64_sequence(x));
    }
}

/// The field elements of a digest, appended to `out`.
fn digest_to_sequence(d: &Digest, out: &mut Vec<u64>)
    ensures
        final(out)@ == old(out)@ + d@,
{
    let values = d.values();
    let mut i: usize = 0;
    while i < 5
        invariant
            0 <= i <= 5,
            values@ == d@,
            d@.len() == 5,
            out@ == old(out)@ + d@.take(i as int),
        decreases 5 - i,
    {
        out.push(values[i]);
        proof {
            assert(out@ =~= old(out)@ + d@.take(i + 1));
        }
        i += 1;
    }
    proof {
        assert(d@.take(5) =~= d@);
    }
}

/// Computes the Bloom-filter bit indices of an item from the item, the
/// randomness it was committed with, and the index of its commitment in the
/// commitment list.
///
/// Samples are drawn in counter mode until `NUM_TRIALS` different ones are
/// found; they are returned in ascending order. Should the counters that a
/// `u64` can hold not suffice, there is no result.
pub fn get_swbf_indices(item: &Digest, randomness: &Digest, aocl_leaf_index: u64) -> (r: Option<
    Vec<u128>,
>)
    ensures
        match r {
            Some(v) => spec_swbf_indices(item@, randomness@, aocl_leaf_index) == Some(v@),
            None => spec_swbf_indices(item@, randomness@, aocl_leaf_index) is None,
        },
{
    let batch_index: u64 = aocl_leaf_index / (BATCH_SIZE as u64);
    proof {
        lemma_sample_in_window(item@, randomness@, aocl_leaf_index, 0);
    }
    let offset: u128 = (batch_index as u128) * (CHUNK_SIZE as u128);
    let mut indices: Vec<u128> = Vec::new();
    let mut counter: u64 = 0;
    while indices.len() < NUM_TRIALS as usize && counter < u64::MAX
        invariant
            indices@ == indices_upto(item@, randomness@, aocl_leaf_index, counter as nat),
            strictly_ascending_u128(indices@),
            indices@.len() <= NUM_TRIALS,
            offset == window_start(batch_of(aocl_leaf_index)),
            offset == batch_of(aocl_leaf_index) * CHUNK_SIZE,
        decreases u64::MAX - counter,
    {
        let mut input: Vec<u64> = Vec::new();
        digest_to_sequence(item, &mut input);
        u64_to_sequence(aocl_leaf_index, &mut input);
        digest_to_sequence(randomness, &mut input);
        u64_to_sequence(counter, &mut input);
        proof {
            assert(input@ =~= sample_input(item@, randomness@, aocl_leaf_index, counter));
        }
        let digest = hash_varlen(&input);
        let values = digest.values();
        proof {
            lemma_sample_in_window(item@, randomness@, aocl_leaf_index, counter);
        }
        assert(offset <= 0xffff_ffff_ffff_ffff * 4096) by (nonlinear_arith)
            requires
                offset == batch_of(aocl_leaf_index) * CHUNK_SIZE,
        ;
        let sample: u128 = ((values[0] % (WINDOW_SIZE as u64)) as u128) + offset;
        let ghost before = indices@;
        insert_unique_u128(&mut indices, sample);
        proof {
            lemma_with_index(before, sample);
            lemma_strictly_ascending_unique_u128(indices@, with_index(before, sample));
        }
        counter += 1;
    }
    if indices.len() == NUM_TRIALS as usize {
        proof {
            lemma_indices_saturate(
                item@,
                randomness@,
                aocl_leaf_index,
                counter as nat,
                u64::MAX as nat,
            );
        }
        Some(indices)
    } else {
        None
    }
}

/// The mutator set as a commitment.
#[derive(Debug)]
pub struct SetCommitment {
    pub aocl: MmrAccumulator,
    pub swbf_inactive: MmrAccumulator,
    pub swbf_active: ActiveWindow,
}

/// What the operations of a mutator set read of it: the number of leafs and
/// the peaks of the commitment list, those of the inactive part of the
/// Bloom filter, and the positions of the active window. Every holder of a
/// mutator set, whatever it keeps besides, stands for such values.
pub ghost struct SetValues {
    pub aocl_leaf_count: u64,
    pub aocl_peaks: Seq<Seq<u64>>,
    pub swbf_inactive_leaf_count: u64,
    pub swbf_inactive_peaks: Seq<Seq<u64>>,
    pub swbf_active: Seq<u32>,
}

/// The batch index of a set whose commitment list has `leaf_count` leafs.
pub open spec fn batch_index_of(leaf_count: u64) -> u64 {
    if leaf_count == 0 {
        0
    } else {
        ((leaf_count - 1) / (BATCH_SIZE as int)) as u64
    }
}

/// Whether the window slides when the commitment with index `added_index` is
/// added.
pub open spec fn slides_at(added_index: u64) -> bool {
    added_index != 0 && added_index % (BATCH_SIZE as u64) == 0
}

impl SetCommitment {
    /// What the operations read of the set.
    pub open spec fn values(&self) -> SetValues {
        SetValues {
            aocl_leaf_count: self.aocl.leaf_count(),
            aocl_peaks: self.aocl.peaks_view(),
            swbf_inactive_leaf_count: self.swbf_inactive.leaf_count(),
            swbf_inactive_peaks: self.swbf_inactive.peaks_view(),
            swbf_active: self.swbf_active@,
        }
    }

    /// The invariant of the set: the active window is well-formed, and the
    /// inactive part of the filter holds one chunk for each time the window
    /// slid.
    pub open spec fn wf(&self) -> bool {
        &&& self.swbf_active.wf()
        &&& self.swbf_inactive.leaf_count() == batch_index_of(self.aocl.leaf_count())
    }

    /// The empty set: a commitment list without a leaf, an inactive part of
    /// the filter without a chunk, neither of them with a peak, and a window
    /// without a bit.
    pub fn new() -> (s: Self)
        ensures
            s.wf(),
            s.aocl.leaf_count() == 0,
            s.aocl.peak_digests() == Seq::<Digest>::empty(),
            s.swbf_inactive.leaf_count() == 0,
            s.swbf_inactive.peak_digests() == Seq::<Digest>::empty(),
            s.swbf_active@ == Seq::<u32>::empty(),
    {
        SetCommitment {
            aocl: MmrAccumulator::new(),
            swbf_inactive: MmrAccumulator::new(),
            swbf_active: ActiveWindow::new(),
        }
    }

    /// Generates an addition record from an item and explicit randomness.
    /// The addition record is itself a commitment to the item.
    pub fn commit(&self, item: &Digest, randomness: &Digest) -> (r: AdditionRecord)
        ensures
            r.canonical_commitment@ == spec_hash_pair(item@, randomness@),
    {
        AdditionRecord::new(hash_pair(item, randomness))
    }

    /// Determine if the window slides before absorbing an item, given the
    /// index of the item that is to be added.
    pub fn window_slides(added_index: u64) -> (b: bool)
        ensures
            b == slides_at(added_index),
    {
        added_index != 0 && added_index % (BATCH_SIZE as u64) == 0
    }

    /// Determine if the window slides back when the item with the given index
    /// is taken from the commitment list again.
    pub fn window_slides_back(removed_index: u64) -> (b: bool)
        ensures
            b == slides_at(removed_index),
    {
        Self::window_slides(removed_index)
    }

    /// The batch index for the latest addition to the mutator set.
    pub fn get_batch_index(&self) -> (b: u64)
        ensures
            b == batch_index_of(self.aocl.leaf_count()),
    {
        let n = self.aocl.num_leafs();
        if n == 0 {
            0
        } else {
            (n - 1) / (BATCH_SIZE as u64)
        }
    }

    /// What `prove` hands out: the membership proof of the item as it will
    /// stand in the commitment list once it is added next, without a chunk,
    /// and with the bit indices of the item where they are asked for.
    pub open spec fn is_proof_for(
        &self,
        item: Seq<u64>,
        randomness: Seq<u64>,
        store_bits: bool,
        mp: MsMembershipProof,
    ) -> bool {
        is_proof_in(self.values(), item, randomness, store_bits, mp)
    }

    /// Generates a membership proof that will be valid when the item is added
    /// to the mutator set.
    pub fn prove(&self, item: &Digest, randomness: &Digest, store_bits: bool) -> (mp:
        MsMembershipProof)
        requires
            self.aocl.leaf_count() < u64::MAX,
        ensures
            mp.randomness == *randomness,
            self.is_proof_for(item@, randomness@, store_bits, mp),
    {
        let item_commitment = hash_pair(item, randomness);
        let mut simulated = self.aocl.copy();
        let auth_path_aocl = simulated.append(item_commitment);
        let cached_bits = if store_bits {
            get_swbf_indices(item, randomness, self.aocl.num_leafs())
        } else {
            None
        };
        MsMembershipProof {
            randomness: *randomness,
            auth_path_aocl,
            aocl_leaf_index: self.aocl.num_leafs(),
            target_chunks: ChunkDictionary::new(),
            cached_bits,
        }
    }

    /// Generates a removal record with which to update the set commitment.
    /// There is none where the bit indices of the item cannot be had.
    pub fn drop(&self, item: &Digest, membership_proof: &MsMembershipProof) -> (r: Option<
        RemovalRecord,
    >)
        ensures
            match r {
                Some(rr) => Some(rr.bit_indices@) == indices_of_proof(item@, *membership_proof)
                    && rr.target_chunks@ == membership_proof.target_chunks@,
                None => indices_of_proof(item@, *membership_proof) is None,
            },
    {
        let bit_indices = match &membership_proof.cached_bits {
            Some(bits) => Some(copy_bit_indices(bits)),
            None => get_swbf_indices(
                item,
                &membership_proof.randomness,
                membership_proof.aocl_leaf_index,
            ),
        };
        match bit_indices {
            Some(bit_indices) => Some(
                RemovalRecord { bit_indices, target_chunks: membership_proof.target_chunks.copy() },
            ),
            None => None,
        }
    }
}

impl SetCommitment {
    /// What an addition makes of the set `self`: the commitment joins the
    /// commitment list, and where the list enters a new batch the window
    /// slides by one chunk, which joins the inactive part of the filter.
    pub open spec fn is_added(&self, addition_record: AdditionRecord, after: SetCommitment) -> bool {
        &&& after.aocl.leaf_count() == self.aocl.leaf_count() + 1
        &&& after.aocl.peaks_view() == spec_mmr_append(
            self.aocl.leaf_count(),
            self.aocl.peaks_view(),
            addition_record.canonical_commitment@,
        ).0
        &&& if slides_at(self.aocl.leaf_count()) {
            &&& after.swbf_active@ == slid(self.swbf_active@, CHUNK_SIZE)
            &&& after.swbf_inactive.leaf_count() == self.swbf_inactive.leaf_count() + 1
            &&& after.swbf_inactive.peaks_view() == spec_mmr_append(
                self.swbf_inactive.leaf_count(),
                self.swbf_inactive.peaks_view(),
                chunk_hash(below(self.swbf_active@, CHUNK_SIZE)),
            ).0
        } else {
            &&& after.swbf_active@ == self.swbf_active@
            &&& after.swbf_inactive.leaf_count() == self.swbf_inactive.leaf_count()
            &&& after.swbf_inactive.peak_digests() == self.swbf_inactive.peak_digests()
        }
    }

    /// Add the item that `addition_record` commits to. Where the window
    /// slides, returns the chunk that left the window together with its index
    /// in the inactive part of the filter.
    pub fn add_helper(&mut self, addition_record: &AdditionRecord) -> (r: Option<(u64, Chunk)>)
        requires
            old(self).wf(),
            old(self).aocl.leaf_count() < u64::MAX,
        ensures
            final(self).wf(),
            old(self).is_added(*addition_record, *final(self)),
            final(self).aocl.leaf_count() == old(self).aocl.leaf_count() + 1,
            final(self).aocl.peaks_view() == spec_mmr_append(
                old(self).aocl.leaf_count(),
                old(self).aocl.peaks_view(),
                addition_record.canonical_commitment@,
            ).0,
            r is Some <==> slides_at(old(self).aocl.leaf_count()),
            r matches Some((index, chunk)) ==> {
                &&& index == old(self).swbf_inactive.leaf_count()
                &&& chunk@ == below(old(self).swbf_active@, CHUNK_SIZE)
                &&& final(self).swbf_active@ == slid(old(self).swbf_active@, CHUNK_SIZE)
                &&& final(self).swbf_inactive.leaf_count() == old(self).swbf_inactive.leaf_count()
                    + 1
                &&& final(self).swbf_inactive.peaks_view() == spec_mmr_append(
                    old(self).swbf_inactive.leaf_count(),
                    old(self).swbf_inactive.peaks_view(),
                    chunk_hash(chunk@),
                ).0
            },
            r is None ==> {
                &&& final(self).swbf_active@ == old(self).swbf_active@
                &&& final(self).swbf_inactive.leaf_count() == old(self).swbf_inactive.leaf_count()
                &&& final(self).swbf_inactive.peak_digests() == old(
                    self,
                ).swbf_inactive.peak_digests()
            },
    {
        let item_index = self.aocl.num_leafs();
        self.aocl.append(addition_record.canonical_commitment);
        if !Self::window_slides(item_index) {
            return None;
        }
        let chunk: Chunk = self.swbf_active.slid_chunk();
        let chunk_digest: Digest = chunk.hash();
        self.swbf_inactive.append(chunk_digest);
        self.swbf_active.slide_window();
        let chunk_index_for_inserted_chunk = self.swbf_inactive.num_leafs() - 1;
        Some((chunk_index_for_inserted_chunk, chunk))
    }

    /// Whether `membership_proof` shows that `item` is in the set: its
    /// commitment is in the commitment list, every inactive chunk that holds
    /// one of its bits is in the proof with a valid path, every other bit
    /// lies in the active window, and one of its bits is not set.
    pub fn verify(&self, item: &Digest, membership_proof: &MsMembershipProof) -> (b: bool)
        requires
            self.swbf_active.wf(),
        ensures
            b == self.verifies(item@, *membership_proof),
    {
        if self.aocl.num_leafs() <= membership_proof.aocl_leaf_index {
            return false;
        }
        let leaf = hash_pair(item, &membership_proof.randomness);
        let is_aocl_member = self.aocl.verify(
            &membership_proof.auth_path_aocl,
            membership_proof.aocl_leaf_index,
            &leaf,
        );
        if !is_aocl_member {
            return false;
        }
        let computed: Option<Vec<u128>> = match &membership_proof.cached_bits {
            Some(_) => None,
            None => get_swbf_indices(
                item,
                &membership_proof.randomness,
                membership_proof.aocl_leaf_index,
            ),
        };
        let all_bit_indices: &Vec<u128> = match &membership_proof.cached_bits {
            Some(bits) => bits,
            None => match &computed {
                Some(bits) => bits,
                None => {
                    return false;
                },
            },
        };
        assert(indices_of_proof(item@, *membership_proof) == Some(all_bit_indices@));
        let current_batch_index: u64 = self.get_batch_index();
        proof {
            lemma_window_start(current_batch_index);
        }
        let start: u128 = (current_batch_index as u128) * (CHUNK_SIZE as u128);
        let mut has_unset_bits = false;
        // the chunk whose path was checked last: bits of one chunk follow each other
        let mut checked: Option<u64> = None;
        let mut k: usize = 0;
        while k < all_bit_indices.len()
            invariant
                0 <= k <= all_bit_indices.len(),
                self.swbf_active.wf(),
                checked matches Some(c) ==> has_key(membership_proof.target_chunks@, c)
                    && spec_mmr_verify(
                    membership_proof.target_chunks@[position_of(
                        membership_proof.target_chunks@,
                        c,
                    )].1,
                    c,
                    chunk_hash(
                        membership_proof.target_chunks@[position_of(
                            membership_proof.target_chunks@,
                            c,
                        )].2,
                    ),
                    self.swbf_inactive.peaks_view(),
                    self.swbf_inactive.leaf_count(),
                ),
                start == window_start(current_batch_index),
                start == current_batch_index * CHUNK_SIZE,
                current_batch_index == batch_index_of(self.aocl.leaf_count()),
                membership_proof.aocl_leaf_index < self.aocl.leaf_count(),
                spec_mmr_verify(
                    proof_path(membership_proof.auth_path_aocl),
                    membership_proof.aocl_leaf_index,
                    spec_hash_pair(item@, membership_proof.randomness@),
                    self.aocl.peaks_view(),
                    self.aocl.leaf_count(),
                ),
                indices_of_proof(item@, *membership_proof) == Some(all_bit_indices@),
                forall|i: int|
                    0 <= i < k ==> self.bit_is_covered(
                        membership_proof.target_chunks@,
                        #[trigger] all_bit_indices@[i],
                    ),
                has_unset_bits == exists|i: int|
                    0 <= i < k && self.bit_is_unset(
                        membership_proof.target_chunks@,
                        #[trigger] all_bit_indices@[i],
                    ),
            decreases all_bit_indices.len() - k,
        {
            let bit_index = all_bit_indices[k];
            if bit_index < start {
                let chunk_index: u64 = (bit_index / (CHUNK_SIZE as u128)) as u64;
                match membership_proof.target_chunks.position(chunk_index) {
                    None => {
                        assert(!self.bit_is_covered(
                            membership_proof.target_chunks@,
                            all_bit_indices@[k as int],
                        ));
                        return false;
                    },
                    Some(p) => {
                        let entry = &membership_proof.target_chunks.dictionary[p];
                        let already_checked = match checked {
                            Some(c) => c == chunk_index,
                            None => false,
                        };
                        let valid_auth_path = already_checked || self.swbf_inactive.verify(
                            &entry.membership_proof,
                            chunk_index,
                            &entry.chunk.hash(),
                        );
                        assert(membership_proof.target_chunks@[p as int] == entry.plain());
                        if valid_auth_path {
                            checked = Some(chunk_index);
                        }
                        if !valid_auth_path {
                            assert(!self.bit_is_covered(
                                membership_proof.target_chunks@,
                                all_bit_indices@[k as int],
                            ));
                            return false;
                        }
                        let index_within_chunk: u32 = (bit_index % (CHUNK_SIZE as u128)) as u32;
                        if !entry.chunk.get_bit(index_within_chunk) {
                            has_unset_bits = true;
                        }
                    },
                }
            } else {
                let relative_index: u128 = bit_index - start;
                if relative_index >= WINDOW_SIZE as u128 {
                    assert(!self.bit_is_covered(
                        membership_proof.target_chunks@,
                        all_bit_indices@[k as int],
                    ));
                    return false;
                }
                if !self.swbf_active.contains(relative_index as u32) {
                    has_unset_bits = true;
                }
            }
            k += 1;
        }
        proof {
            let bits = all_bit_indices@;
            assert(k == bits.len());
            assert(indices_of_proof(item@, *membership_proof) == Some(bits));
            assert(forall|i: int|
                0 <= i < bits.len() ==> self.bit_is_covered(
                    membership_proof.target_chunks@,
                    #[trigger] bits[i],
                ));
            assert(has_unset_bits == exists|i: int|
                0 <= i < bits.len() && self.bit_is_unset(
                    membership_proof.target_chunks@,
                    #[trigger] bits[i],
                ));
        }
        has_unset_bits
    }

    /// Whether the bit with index `bit_index` can be looked up; see
    /// [`bit_is_covered_in`].
    pub open spec fn bit_is_covered(
        &self,
        chunks: Seq<(u64, Seq<Seq<u64>>, Seq<u32>)>,
        bit_index: u128,
    ) -> bool {
        bit_is_covered_in(self.values(), chunks, bit_index)
    }

    /// Whether the bit with index `bit_index` is not set; see
    /// [`bit_is_unset_in`].
    pub open spec fn bit_is_unset(
        &self,
        chunks: Seq<(u64, Seq<Seq<u64>>, Seq<u32>)>,
        bit_index: u128,
    ) -> bool {
        bit_is_unset_in(self.values(), chunks, bit_index)
    }

    /// What `verify` decides; see [`verifies_in`].
    pub open spec fn verifies(&self, item: Seq<u64>, mp: MsMembershipProof) -> bool {
        verifies_in(self.values(), item, mp)
    }

    /// Whether every one of the bits can be looked up, and one of them is not
    /// set.
    pub open spec fn bits_show_membership(
        &self,
        chunks: Seq<(u64, Seq<Seq<u64>>, Seq<u32>)>,
        bits: Seq<u128>,
    ) -> bool {
        bits_show_membership_in(self.values(), chunks, bits)
    }
}

/// What `prove` hands out for a set with the values `set`: the membership
/// proof of the item as it will stand in the commitment list once it is
/// added next, which holds of the list as it is then, without a chunk, and
/// with the bit indices of the item where they are asked for.
pub open spec fn is_proof_in(
    set: SetValues,
    item: Seq<u64>,
    randomness: Seq<u64>,
    store_bits: bool,
    mp: MsMembershipProof,
) -> bool {
    &&& mp.randomness@ == randomness
    &&& mp.aocl_leaf_index == set.aocl_leaf_count
    &&& proof_path(mp.auth_path_aocl) == spec_mmr_append(
        set.aocl_leaf_count,
        set.aocl_peaks,
        spec_hash_pair(item, randomness),
    ).1
    &&& spec_mmr_verify(
        proof_path(mp.auth_path_aocl),
        set.aocl_leaf_count,
        spec_hash_pair(item, randomness),
        spec_mmr_append(set.aocl_leaf_count, set.aocl_peaks, spec_hash_pair(item, randomness)).0,
        (set.aocl_leaf_count + 1) as u64,
    )
    &&& mp.target_chunks@.len() == 0
    &&& mp.cached() == if store_bits {
        spec_swbf_indices(item, randomness, set.aocl_leaf_count)
    } else {
        None
    }
}

/// Whether the bit with index `bit_index` can be looked up in a set with
/// the values `set`: it lies in the active window, or it lies in an
/// inactive chunk that is among `chunks` with a path that shows it to be a
/// leaf of the inactive part of the filter.
pub open spec fn bit_is_covered_in(
    set: SetValues,
    chunks: Seq<(u64, Seq<Seq<u64>>, Seq<u32>)>,
    bit_index: u128,
) -> bool {
    let start = window_start(batch_index_of(set.aocl_leaf_count));
    if bit_index < start {
        let chunk_index = (bit_index / (CHUNK_SIZE as u128)) as u64;
        let entry = chunks[position_of(chunks, chunk_index)];
        &&& has_key(chunks, chunk_index)
        &&& spec_mmr_verify(
            entry.1,
            chunk_index,
            chunk_hash(entry.2),
            set.swbf_inactive_peaks,
            set.swbf_inactive_leaf_count,
        )
    } else {
        bit_index - start < WINDOW_SIZE
    }
}

/// Whether the bit with index `bit_index` is not set in a set with the
/// values `set`: in the active window, or in the inactive chunk among
/// `chunks` in which it lies.
pub open spec fn bit_is_unset_in(
    set: SetValues,
    chunks: Seq<(u64, Seq<Seq<u64>>, Seq<u32>)>,
    bit_index: u128,
) -> bool {
    let start = window_start(batch_index_of(set.aocl_leaf_count));
    if bit_index < start {
        let chunk_index = (bit_index / (CHUNK_SIZE as u128)) as u64;
        let entry = chunks[position_of(chunks, chunk_index)];
        !entry.2.contains((bit_index % (CHUNK_SIZE as u128)) as u32)
    } else {
        !set.swbf_active.contains((bit_index - start) as u32)
    }
}

/// Whether every one of the bits can be looked up in a set with the values
/// `set`, and one of them is not set.
pub open spec fn bits_show_membership_in(
    set: SetValues,
    chunks: Seq<(u64, Seq<Seq<u64>>, Seq<u32>)>,
    bits: Seq<u128>,
) -> bool {
    &&& forall|i: int| 0 <= i < bits.len() ==> bit_is_covered_in(set, chunks, #[trigger] bits[i])
    &&& exists|i: int| 0 <= i < bits.len() && bit_is_unset_in(set, chunks, #[trigger] bits[i])
}

/// Whether a membership proof shows an item to be in a set with the values
/// `set`: the commitment to the item is a leaf of the commitment list at
/// the index that the proof names, the item has bit indices, every one of
/// them can be looked up, and one of them is not set, so that the item was
/// not removed.
pub open spec fn verifies_in(set: SetValues, item: Seq<u64>, mp: MsMembershipProof) -> bool {
    &&& mp.aocl_leaf_index < set.aocl_leaf_count
    &&& spec_mmr_verify(
        proof_path(mp.auth_path_aocl),
        mp.aocl_leaf_index,
        spec_hash_pair(item, mp.randomness@),
        set.aocl_peaks,
        set.aocl_leaf_count,
    )
    &&& indices_of_proof(item, mp) is Some
    &&& bits_show_membership_in(set, mp.target_chunks@, indices_of_proof(item, mp)->0)
}

/// The first bit of the window is a whole number of chunks from the first bit
/// of the filter.
pub proof fn lemma_window_start(batch_index: u64)
    ensures
        window_start(batch_index) == batch_index * CHUNK_SIZE,
        window_start(batch_index) <= 0xffff_ffff_ffff_ffff * 4096,
{
    assert((batch_index as u128) * (CHUNK_SIZE as u128) <= 0xffff_ffff_ffff_ffff * 4096)
        by (nonlinear_arith)
        requires
            batch_index <= 0xffff_ffff_ffff_ffff,
    ;
}

/// The ascending sequence with the members of `s` and `x` once more.
pub open spec fn with_bit(s: Seq<u32>, x: u32) -> Seq<u32> {
    choose|t: Seq<u32>| ascending(t) && t.to_multiset() == s.to_multiset().insert(x)
}

/// An ascending sequence with the members of `s` and `x` once more is
/// `with_bit(s, x)`.
pub proof fn lemma_with_bit(s: Seq<u32>, x: u32, t: Seq<u32>)
    requires
        ascending(t),
        t.to_multiset() == s.to_multiset().insert(x),
    ensures
        with_bit(s, x) == t,
{
    let c = with_bit(s, x);
    assert(ascending(c) && c.to_multiset() == s.to_multiset().insert(x));
    lemma_ascending_unique(c, t);
}

/// The number of members of `s` that are at most `x`.
pub open spec fn rank_upto(s: Seq<u32>, x: u32) -> int
    decreases s.len(),
{
    if s.len() == 0 {
        0
    } else if s.last() <= x {
        rank_upto(s.drop_last(), x) + 1
    } else {
        rank_upto(s.drop_last(), x)
    }
}

proof fn lemma_rank_upto(s: Seq<u32>, x: u32)
    requires
        ascending(s),
    ensures
        0 <= rank_upto(s, x) <= s.len(),
        forall|i: int| 0 <= i < rank_upto(s, x) ==> s[i] <= x,
        forall|i: int| rank_upto(s, x) <= i < s.len() ==> s[i] > x,
    decreases s.len(),
{
    if s.len() > 0 {
        let t = s.drop_last();
        assert(ascending(t));
        lemma_rank_upto(t, x);
        if s.last() <= x {
            assert(rank_upto(t, x) == t.len()) by {
                if rank_upto(t, x) < t.len() {
                    assert(t[rank_upto(t, x)] > x);
                    assert(s[rank_upto(t, x)] <= s[s.len() - 1]);
                }
            }
        }
        assert forall|i: int| 0 <= i < rank_upto(s, x) implies s[i] <= x by {
            if i < t.len() {
                assert(t[i] == s[i]);
            }
        }
        assert forall|i: int| rank_upto(s, x) <= i < s.len() implies s[i] > x by {
            if i < t.len() {
                assert(t[i] == s[i]);
            }
        }
    }
}

/// There is an ascending sequence with the members of an ascending sequence
/// and one more, so `with_bit` is that sequence.
pub proof fn lemma_with_bit_exists(s: Seq<u32>, x: u32)
    requires
        ascending(s),
    ensures
        ascending(with_bit(s, x)),
        with_bit(s, x).to_multiset() == s.to_multiset().insert(x),
        with_bit(s, x).contains(x),
        forall|y: u32| s.contains(y) ==> with_bit(s, x).contains(y),
        forall|y: u32| with_bit(s, x).contains(y) ==> y == x || s.contains(y),
{
    lemma_rank_upto(s, x);
    let r = rank_upto(s, x);
    let t = s.insert(r, x);
    vstd::seq_lib::to_multiset_insert(s, r, x);
    assert forall|i: int, j: int| 0 <= i <= j < t.len() implies t[i] <= t[j] by {
        if j < r {
        } else if i > r {
            assert(s[i - 1] <= s[j - 1]);
        } else if i == r {
            if j > r {
                assert(s[j - 1] > x);
            }
        } else if j == r {
        } else {
            assert(s[i] <= s[j - 1]);
        }
    }
    lemma_with_bit(s, x, t);
    crate::mutator_set::chunk::lemma_members_after_insert(s, t, x);
}

/// Whether the positions `s` are in ascending order and within a chunk.
pub open spec fn chunk_wf(s: Seq<u32>) -> bool {
    &&& ascending(s)
    &&& forall|i: int| 0 <= i < s.len() ==> s[i] < CHUNK_SIZE
}

/// To set one bit of the filter: the active window, the inactive chunks at
/// hand and the list of the bits flipped so far, after the bit with index
/// `bit_index` has been set. A bit that was set leaves all three as they
/// are.
pub open spec fn flip_step(
    state: (Seq<u32>, Seq<(u64, Seq<Seq<u64>>, Seq<u32>)>, Seq<u128>),
    start: u128,
    bit_index: u128,
) -> (Seq<u32>, Seq<(u64, Seq<Seq<u64>>, Seq<u32>)>, Seq<u128>) {
    let (active, chunks, flipped) = state;
    if bit_index >= start {
        let relative = (bit_index - start) as u32;
        if active.contains(relative) {
            state
        } else {
            (with_bit(active, relative), chunks, with_index(flipped, bit_index))
        }
    } else {
        let p = position_of(chunks, (bit_index / (CHUNK_SIZE as u128)) as u64);
        let bit = (bit_index % (CHUNK_SIZE as u128)) as u32;
        if chunks[p].2.contains(bit) {
            state
        } else {
            (
                active,
                chunks.update(p, (chunks[p].0, chunks[p].1, with_bit(chunks[p].2, bit))),
                with_index(flipped, bit_index),
            )
        }
    }
}

/// To set the bits `bits` one after the other.
pub open spec fn flip_all(
    state: (Seq<u32>, Seq<(u64, Seq<Seq<u64>>, Seq<u32>)>, Seq<u128>),
    start: u128,
    bits: Seq<u128>,
) -> (Seq<u32>, Seq<(u64, Seq<Seq<u64>>, Seq<u32>)>, Seq<u128>)
    decreases bits.len(),
{
    if bits.len() == 0 {
        state
    } else {
        flip_step(flip_all(state, start, bits.drop_last()), start, bits.last())
    }
}

/// Whether every one of the bits `bits` can be set: it lies in the active
/// window, or in an inactive chunk that is among `chunks`.
pub open spec fn bits_in_reach(chunks: Seq<(u64, Seq<Seq<u64>>, Seq<u32>)>, start: u128, bits: Seq<
    u128,
>) -> bool {
    forall|i: int|
        0 <= i < bits.len() ==> if (#[trigger] bits[i]) >= start {
            bits[i] - start < WINDOW_SIZE
        } else {
            has_key(chunks, (bits[i] / (CHUNK_SIZE as u128)) as u64)
        }
}

/// Whether every chunk among `chunks` is well-formed.
pub open spec fn chunks_wf(chunks: Seq<(u64, Seq<Seq<u64>>, Seq<u32>)>) -> bool {
    forall|i: int| 0 <= i < chunks.len() ==> chunk_wf((#[trigger] chunks[i]).2)
}

/// Whether the two lists hold the same chunk indices with the same paths, in
/// the same order.
pub open spec fn same_keys_and_paths(
    a: Seq<(u64, Seq<Seq<u64>>, Seq<u32>)>,
    b: Seq<(u64, Seq<Seq<u64>>, Seq<u32>)>,
) -> bool {
    &&& a.len() == b.len()
    &&& forall|i: int|
        0 <= i < a.len() ==> (#[trigger] a[i]).0 == b[i].0 && a[i].1 == (#[trigger] b[i]).1
}

/// Whether the two lists hold the same chunk indices, so that a chunk index
/// is looked up at the same place in both.
pub proof fn lemma_same_keys(
    a: Seq<(u64, Seq<Seq<u64>>, Seq<u32>)>,
    b: Seq<(u64, Seq<Seq<u64>>, Seq<u32>)>,
    key: u64,
)
    requires
        same_keys_and_paths(a, b),
    ensures
        has_key(a, key) == has_key(b, key),
        has_key(a, key) ==> position_of(a, key) == position_of(b, key),
        distinct_keys(a) == distinct_keys(b),
{
    if has_key(a, key) {
        let i = choose|i: int| 0 <= i < a.len() && (#[trigger] a[i]).0 == key;
        assert(b[i].0 == key);
    }
    if has_key(b, key) {
        let i = choose|i: int| 0 <= i < b.len() && (#[trigger] b[i]).0 == key;
        assert(a[i].0 == key);
        lemma_first_exists(b, key, i);
        let p = position_of(b, key);
        assert(crate::mutator_set::chunk_dictionary::is_first_with_key(b, key, p));
        assert(crate::mutator_set::chunk_dictionary::is_first_with_key(a, key, p)) by {
            assert(a[p].0 == b[p].0);
            assert forall|j: int| 0 <= j < p implies (#[trigger] a[j]).0 != key by {
                assert(b[j].0 != key);
            }
        }
        crate::mutator_set::chunk_dictionary::lemma_first_with_key(a, key, p);
    }
    if distinct_keys(a) {
        assert forall|i: int, j: int| 0 <= i < j < b.len() implies (#[trigger] b[i]).0 != (
        #[trigger] b[j]).0 by {
            assert(a[i].0 == b[i].0);
            assert(a[j].0 == b[j].0);
        }
    }
    if distinct_keys(b) {
        assert forall|i: int, j: int| 0 <= i < j < a.len() implies (#[trigger] a[i]).0 != (
        #[trigger] a[j]).0 by {
            assert(a[i].0 == b[i].0);
            assert(a[j].0 == b[j].0);
        }
    }
}

/// Where an entry has the chunk index `key`, there is a first one.
pub proof fn lemma_first_exists(s: Seq<(u64, Seq<Seq<u64>>, Seq<u32>)>, key: u64, i: int)
    requires
        0 <= i < s.len(),
        s[i].0 == key,
    ensures
        crate::mutator_set::chunk_dictionary::is_first_with_key(s, key, position_of(s, key)),
        0 <= position_of(s, key) <= i,
    decreases i,
{
    if exists|j: int| 0 <= j < i && (#[trigger] s[j]).0 == key {
        let j = choose|j: int| 0 <= j < i && (#[trigger] s[j]).0 == key;
        lemma_first_exists(s, key, j);
    } else {
        assert(crate::mutator_set::chunk_dictionary::is_first_with_key(s, key, i));
        crate::mutator_set::chunk_dictionary::lemma_first_with_key(s, key, i);
    }
}

/// Set the bits `bits` of the filter, in the active window `active` and in
/// the inactive chunks `chunks`. Returns the indices of the bits that were
/// not set before, in ascending order.
pub fn flip_bits(active: &mut ActiveWindow, chunks: &mut ChunkDictionary, start: u128, bits: &Vec<
    u128,
>) -> (flipped: Vec<u128>)
    requires
        old(active).wf(),
        chunks_wf(old(chunks)@),
        bits_in_reach(old(chunks)@, start, bits@),
    ensures
        (final(active)@, final(chunks)@, flipped@) == flip_all(
            (old(active)@, old(chunks)@, Seq::<u128>::empty()),
            start,
            bits@,
        ),
        final(active).wf(),
        chunks_wf(final(chunks)@),
        same_keys_and_paths(old(chunks)@, final(chunks)@),
        strictly_ascending_u128(flipped@),
{
    let mut flipped: Vec<u128> = Vec::new();
    let ghost initial = (active@, chunks@, Seq::<u128>::empty());
    let mut k: usize = 0;
    while k < bits.len()
        invariant
            0 <= k <= bits.len(),
            initial == (old(active)@, old(chunks)@, Seq::<u128>::empty()),
            (active@, chunks@, flipped@) == flip_all(initial, start, bits@.take(k as int)),
            active.wf(),
            chunks_wf(chunks@),
            same_keys_and_paths(old(chunks)@, chunks@),
            bits_in_reach(old(chunks)@, start, bits@),
            strictly_ascending_u128(flipped@),
        decreases bits.len() - k,
    {
        let bit_index = bits[k];
        let ghost before = (active@, chunks@, flipped@);
        proof {
            assert(bits@.take(k + 1).drop_last() =~= bits@.take(k as int));
            assert(bits@.take(k + 1).last() == bit_index);
            assert(bits@[k as int] == bit_index);
        }
        if bit_index >= start {
            let relative: u32 = (bit_index - start) as u32;
            if !active.contains(relative) {
                active.insert(relative);
                insert_unique_u128(&mut flipped, bit_index);
                proof {
                    lemma_with_bit(before.0, relative, active@);
                    lemma_with_index(before.2, bit_index);
                    lemma_strictly_ascending_unique_u128(
                        flipped@,
                        with_index(before.2, bit_index),
                    );
                }
            }
        } else {
            let chunk_index: u64 = (bit_index / (CHUNK_SIZE as u128)) as u64;
            let bit: u32 = (bit_index % (CHUNK_SIZE as u128)) as u32;
            proof {
                lemma_same_keys(old(chunks)@, chunks@, chunk_index);
            }
            match chunks.position(chunk_index) {
                None => {
                    assert(false);
                },
                Some(p) => {
                    assert(chunks@[p as int] == chunks.dictionary@[p as int].plain());
                    if !chunks.dictionary[p].chunk.get_bit(bit) {
                        let mut chunk = chunks.dictionary[p].chunk.clone();
                        chunk.set_bit(bit);
                        let entry = ChunkEntry {
                            chunk_index: chunks.dictionary[p].chunk_index,
                            membership_proof: clone_proof(&chunks.dictionary[p].membership_proof),
                            chunk,
                        };
                        chunks.dictionary[p] = entry;
                        insert_unique_u128(&mut flipped, bit_index);
                        proof {
                            lemma_with_bit(before.1[p as int].2, bit, entry.chunk@);
                            lemma_with_index(before.2, bit_index);
                            lemma_strictly_ascending_unique_u128(
                                flipped@,
                                with_index(before.2, bit_index),
                            );
                            assert(chunks@ =~= before.1.update(
                                p as int,
                                (before.1[p as int].0, before.1[p as int].1, entry.chunk@),
                            ));
                            assert forall|i: int| 0 <= i < chunks@.len() implies chunk_wf(
                                (#[trigger] chunks@[i]).2,
                            ) by {
                                if i != p {
                                    assert(chunks@[i] == before.1[i]);
                                }
                            }
                            assert forall|i: int| 0 <= i < chunks@.len() implies (#[trigger] old(
                                chunks,
                            )@[i]).0 == chunks@[i].0 && old(chunks)@[i].1 == (
                            #[trigger] chunks@[i]).1 by {
                                assert(before.1[i].0 == old(chunks)@[i].0);
                            }
                        }
                    }
                },
            }
        }
        k += 1;
    }
    proof {
        assert(bits@.take(k as int) =~= bits@);
    }
    flipped
}

/// What is handed to the inactive part of the filter for the chunks `chunks`
/// after bits were set in them: for each its index, its new hash and its
/// path.
pub open spec fn mutations_of(chunks: Seq<(u64, Seq<Seq<u64>>, Seq<u32>)>) -> Seq<
    (u64, Seq<u64>, Seq<Seq<u64>>),
> {
    Seq::new(chunks.len(), |i: int| (chunks[i].0, chunk_hash(chunks[i].2), chunks[i].1))
}

/// The chunks among `chunks`, each with its index.
pub open spec fn indexed_chunks(chunks: Seq<(u64, Seq<Seq<u64>>, Seq<u32>)>) -> Seq<
    (u64, Seq<u32>),
> {
    Seq::new(chunks.len(), |i: int| (chunks[i].0, chunks[i].2))
}

/// The chunks of `v` as plain values, each with its index.
pub open spec fn indexed_chunks_view(v: Seq<(u64, Chunk)>) -> Seq<(u64, Seq<u32>)> {
    Seq::new(v.len(), |i: int| (v[i].0, v[i].1@))
}

impl SetCommitment {
    /// Whether every chunk among `chunks` is well-formed and is shown by its
    /// path to be a leaf of the inactive part of the filter, and no chunk
    /// index occurs twice.
    pub open spec fn chunks_fit(&self, chunks: Seq<(u64, Seq<Seq<u64>>, Seq<u32>)>) -> bool {
        &&& distinct_keys(chunks)
        &&& chunks_wf(chunks)
        &&& forall|i: int|
            0 <= i < chunks.len() ==> spec_mmr_verify(
                (#[trigger] chunks[i]).1,
                chunks[i].0,
                chunk_hash(chunks[i].2),
                self.swbf_inactive.peaks_view(),
                self.swbf_inactive.leaf_count(),
            )
    }

    /// Whether the removal record can be applied to the set: its chunks fit,
    /// and each of its bits lies in the active window or in one of its
    /// chunks.
    pub open spec fn record_fits(&self, removal_record: RemovalRecord) -> bool {
        &&& self.swbf_inactive.leaf_count() <= MAX_LEAFS
        &&& self.chunks_fit(removal_record.target_chunks@)
        &&& bits_in_reach(
            removal_record.target_chunks@,
            window_start(batch_index_of(self.aocl.leaf_count())),
            removal_record.bit_indices@,
        )
    }

    /// Whether the chunks of the dictionary fit the set.
    pub fn validate_chunks(&self, chunks: &ChunkDictionary) -> (b: bool)
        ensures
            b == self.chunks_fit(chunks@),
    {
        let mut i: usize = 0;
        while i < chunks.dictionary.len()
            invariant
                0 <= i <= chunks.dictionary.len(),
                distinct_keys(chunks@.take(i as int)),
                chunks_wf(chunks@.take(i as int)),
                forall|j: int|
                    0 <= j < i ==> spec_mmr_verify(
                        (#[trigger] chunks@[j]).1,
                        chunks@[j].0,
                        chunk_hash(chunks@[j].2),
                        self.swbf_inactive.peaks_view(),
                        self.swbf_inactive.leaf_count(),
                    ),
            decreases chunks.dictionary.len() - i,
        {
            let entry = &chunks.dictionary[i];
            assert(chunks@[i as int] == entry.plain());
            let mut j: usize = 0;
            while j < i
                invariant
                    0 <= j <= i < chunks.dictionary.len(),
                    chunks@.len() == chunks.dictionary.len(),
                    entry.plain() == chunks@[i as int],
                    forall|m: int| 0 <= m < j ==> (#[trigger] chunks@[m]).0 != entry.chunk_index,
                decreases i - j,
            {
                assert(chunks@[j as int] == chunks.dictionary@[j as int].plain());
                if chunks.dictionary[j].chunk_index == entry.chunk_index {
                    assert(!distinct_keys(chunks@)) by {
                        assert(chunks@[j as int].0 == chunks@[i as int].0);
                    }
                    return false;
                }
                j += 1;
            }
            let mut m: usize = 0;
            while m < entry.chunk.relative_indices.len()
                invariant
                    0 <= m <= entry.chunk.relative_indices.len(),
                    0 <= i < chunks@.len(),
                    entry.plain() == chunks@[i as int],
                    forall|a: int| 0 <= a < m ==> entry.chunk@[a] < CHUNK_SIZE,
                    forall|a: int, b: int| 0 <= a <= b < m ==> entry.chunk@[a] <= entry.chunk@[b],
                decreases entry.chunk.relative_indices.len() - m,
            {
                let x = entry.chunk.relative_indices[m];
                if x >= CHUNK_SIZE || (m > 0 && entry.chunk.relative_indices[m - 1] > x) {
                    assert(!chunk_wf(chunks@[i as int].2)) by {
                        if x < CHUNK_SIZE {
                            assert(entry.chunk@[m - 1] > entry.chunk@[m as int]);
                        }
                    }
                    assert(!chunks_wf(chunks@)) by {
                        if chunks_wf(chunks@) {
                            assert(chunk_wf(chunks@[i as int].2));
                        }
                    }
                    return false;
                }
                proof {
                    assert forall|a: int, b: int| 0 <= a <= b < m + 1 implies entry.chunk@[a]
                        <= entry.chunk@[b] by {
                        if b == m && a < m {
                            assert(entry.chunk@[a] <= entry.chunk@[m - 1]);
                        }
                    }
                }
                m += 1;
            }
            let valid = self.swbf_inactive.verify(
                &entry.membership_proof,
                entry.chunk_index,
                &entry.chunk.hash(),
            );
            if !valid {
                return false;
            }
            proof {
                let t = chunks@.take(i + 1);
                assert forall|a: int, b: int| 0 <= a < b < t.len() implies (#[trigger] t[a]).0 != (
                #[trigger] t[b]).0 by {
                    if b < i {
                        assert(chunks@.take(i as int)[a].0 != chunks@.take(i as int)[b].0);
                    } else {
                        assert(chunks@[a].0 != entry.chunk_index);
                    }
                }
                assert forall|a: int| 0 <= a < t.len() implies chunk_wf((#[trigger] t[a]).2) by {
                    if a < i {
                        assert(chunk_wf(chunks@.take(i as int)[a].2));
                    }
                }
            }
            i += 1;
        }
        proof {
            assert(chunks@.take(i as int) =~= chunks@);
        }
        true
    }

    /// Whether every one of the bits lies in the active window or in one of
    /// the chunks.
    pub fn bits_reachable(&self, chunks: &ChunkDictionary, bits: &Vec<u128>) -> (b: bool)
        ensures
            b == bits_in_reach(
                chunks@,
                window_start(batch_index_of(self.aocl.leaf_count())),
                bits@,
            ),
    {
        let batch_index = self.get_batch_index();
        proof {
            lemma_window_start(batch_index);
        }
        let start: u128 = (batch_index as u128) * (CHUNK_SIZE as u128);
        let mut k: usize = 0;
        while k < bits.len()
            invariant
                0 <= k <= bits.len(),
                start == window_start(batch_index_of(self.aocl.leaf_count())),
                start <= 0xffff_ffff_ffff_ffff * 4096,
                bits_in_reach(chunks@, start, bits@.take(k as int)),
            decreases bits.len() - k,
        {
            let bit_index = bits[k];
            let reachable = if bit_index >= start {
                bit_index - start < WINDOW_SIZE as u128
            } else {
                chunks.contains_key((bit_index / (CHUNK_SIZE as u128)) as u64)
            };
            if !reachable {
                assert(bits@[k as int] == bit_index);
                return false;
            }
            proof {
                let t = bits@.take(k + 1);
                assert forall|i: int| 0 <= i < t.len() implies if (#[trigger] t[i]) >= start {
                    t[i] - start < WINDOW_SIZE
                } else {
                    has_key(chunks@, (t[i] / (CHUNK_SIZE as u128)) as u64)
                } by {
                    if i < k {
                        assert(bits@.take(k as int)[i] == t[i]);
                    }
                }
            }
            k += 1;
        }
        proof {
            assert(bits@.take(k as int) =~= bits@);
        }
        true
    }

    /// Whether the removal record can be applied to the set.
    pub fn can_remove(&self, removal_record: &RemovalRecord) -> (b: bool)
        ensures
            b == self.record_fits(*removal_record),
    {
        self.swbf_inactive.num_leafs() <= MAX_LEAFS && self.validate_chunks(
            &removal_record.target_chunks,
        ) && self.bits_reachable(&removal_record.target_chunks, &removal_record.bit_indices)
    }

    /// Remove a record and return the chunks that have been updated in this
    /// process, after applying the update. Also returns the indices at which
    /// bits were flipped from 0 to 1 in either the active or the inactive
    /// part of the filter, in ascending order. Does not mutate the removal
    /// record.
    pub fn remove_helper(&mut self, removal_record: &RemovalRecord) -> (r: (
        Vec<(u64, Chunk)>,
        Vec<u128>,
    ))
        requires
            old(self).wf(),
            old(self).record_fits(*removal_record),
        ensures
            final(self).wf(),
            final(self).aocl.leaf_count() == old(self).aocl.leaf_count(),
            final(self).aocl.peak_digests() == old(self).aocl.peak_digests(),
            final(self).swbf_inactive.leaf_count() == old(self).swbf_inactive.leaf_count(),
            ({
                let out = flip_all(
                    (
                        old(self).swbf_active@,
                        removal_record.target_chunks@,
                        Seq::<u128>::empty(),
                    ),
                    window_start(batch_index_of(old(self).aocl.leaf_count())),
                    removal_record.bit_indices@,
                );
                &&& final(self).swbf_active@ == out.0
                &&& indexed_chunks_view(r.0@) == indexed_chunks(out.1)
                &&& r.1@ == out.2
                &&& final(self).swbf_inactive.peaks_view() == spec_mmr_batch_mutate(
                    old(self).swbf_inactive.peaks_view(),
                    old(self).swbf_inactive.leaf_count(),
                    Seq::empty(),
                    Seq::empty(),
                    mutations_of(out.1),
                ).0
            }),
    {
        let batch_index = self.get_batch_index();
        proof {
            lemma_window_start(batch_index);
        }
        let active_window_start: u128 = (batch_index as u128) * (CHUNK_SIZE as u128);
        let mut new_target_chunks: ChunkDictionary = removal_record.target_chunks.copy();
        let diff_indices = flip_bits(
            &mut self.swbf_active,
            &mut new_target_chunks,
            active_window_start,
            &removal_record.bit_indices,
        );
        let (mutation_data, updated) = Self::mutation_data(&new_target_chunks);
        let mut no_proofs: Vec<MmrMembershipProof> = Vec::new();
        let no_indices: Vec<u64> = Vec::new();
        proof {
            let peaks = self.swbf_inactive.peaks_view();
            let count = self.swbf_inactive.leaf_count();
            let before = removal_record.target_chunks@;
            let after = new_target_chunks@;
            lemma_same_keys(before, after, 0);
            assert(crate::mmr::mutations_view(mutation_data@).len() == mutations_of(after).len());
            assert(mutation_data@.len() == after.len());
            assert(after.len() == before.len());
            assert forall|i: int| 0 <= i < mutation_data@.len() implies path_fits(
                proof_path((#[trigger] mutation_data@[i]).membership_proof),
                mutation_data@[i].leaf_index,
                peaks,
                count,
            ) by {
                assert(crate::mmr::mutations_view(mutation_data@)[i] == mutations_of(after)[i]);
                assert(mutation_data@[i]@ == mutations_of(after)[i]);
                assert(before[i].0 == after[i].0 && before[i].1 == after[i].1);
                assert(spec_mmr_verify(
                    before[i].1,
                    before[i].0,
                    chunk_hash(before[i].2),
                    peaks,
                    count,
                ));
            }
            assert forall|i: int, j: int| 0 <= i < j < mutation_data@.len() implies (
            #[trigger] mutation_data@[i]).leaf_index != (#[trigger] mutation_data@[j]).leaf_index by {
                assert(crate::mmr::mutations_view(mutation_data@)[i] == mutations_of(after)[i]);
                assert(crate::mmr::mutations_view(mutation_data@)[j] == mutations_of(after)[j]);
                assert(before[i].0 != before[j].0);
                assert(before[i].0 == after[i].0);
                assert(before[j].0 == after[j].0);
            }
            assert(crate::mmr::paths_view(no_proofs@) =~= Seq::<Seq<Seq<u64>>>::empty());
            assert(no_indices@ =~= Seq::<u64>::empty());
        }
        self.swbf_inactive.batch_mutate_leaf_and_update_mps(
            &mut no_proofs,
            &no_indices,
            &mutation_data,
        );
        (updated, diff_indices)
    }

    /// What is handed to the inactive part of the filter for the chunks of
    /// the dictionary, and the chunks themselves, each with its index.
    pub fn mutation_data(chunks: &ChunkDictionary) -> (r: (Vec<LeafMutation>, Vec<(u64, Chunk)>))
        ensures
            crate::mmr::mutations_view(r.0@) == mutations_of(chunks@),
            indexed_chunks_view(r.1@) == indexed_chunks(chunks@),
    {
        let mut mutations: Vec<LeafMutation> = Vec::new();
        let mut updated: Vec<(u64, Chunk)> = Vec::new();
        let mut i: usize = 0;
        while i < chunks.dictionary.len()
            invariant
                0 <= i <= chunks.dictionary.len(),
                mutations@.len() == i,
                updated@.len() == i,
                forall|j: int| 0 <= j < i ==> (#[trigger] mutations@[j])@ == mutations_of(chunks@)[j],
                forall|j: int|
                    0 <= j < i ==> ((#[trigger] updated@[j]).0, updated@[j].1@) == indexed_chunks(
                        chunks@,
                    )[j],
            decreases chunks.dictionary.len() - i,
        {
            let entry = &chunks.dictionary[i];
            assert(chunks@[i as int] == entry.plain());
            mutations.push(
                LeafMutation::new(
                    entry.chunk_index,
                    entry.chunk.hash(),
                    clone_proof(&entry.membership_proof),
                ),
            );
            updated.push((entry.chunk_index, entry.chunk.clone()));
            i += 1;
        }
        proof {
            assert(crate::mmr::mutations_view(mutations@) =~= mutations_of(chunks@));
            assert(indexed_chunks_view(updated@) =~= indexed_chunks(chunks@));
        }
        (mutations, updated)
    }
}

/// The bits of all the removal records, one record after the other.
pub open spec fn all_bits(records: Seq<RemovalRecord>) -> Seq<u128>
    decreases records.len(),
{
    if records.len() == 0 {
        Seq::empty()
    } else {
        all_bits(records.drop_last()) + records.last().bit_indices@
    }
}

/// The entries `merged` together with those of `more` whose chunk index is
/// not among them yet.
pub open spec fn merge_chunks(
    merged: Seq<(u64, Seq<Seq<u64>>, Seq<u32>)>,
    more: Seq<(u64, Seq<Seq<u64>>, Seq<u32>)>,
) -> Seq<(u64, Seq<Seq<u64>>, Seq<u32>)>
    decreases more.len(),
{
    if more.len() == 0 {
        merged
    } else {
        let m = merge_chunks(merged, more.drop_last());
        if has_key(m, more.last().0) {
            m
        } else {
            m.push(more.last())
        }
    }
}

/// The chunks of all the removal records. Where two records hold the same
/// chunk, the first one counts: records of one set agree on their chunks.
pub open spec fn merged_chunks(records: Seq<RemovalRecord>) -> Seq<(u64, Seq<Seq<u64>>, Seq<u32>)>
    decreases records.len(),
{
    if records.len() == 0 {
        Seq::empty()
    } else {
        merge_chunks(merged_chunks(records.drop_last()), records.last().target_chunks@)
    }
}

/// The entries of the chunk dictionaries of all the membership proofs, one
/// proof after the other.
pub open spec fn flat_entries(proofs: Seq<MsMembershipProof>) -> Seq<(u64, Seq<Seq<u64>>, Seq<u32>)>
    decreases proofs.len(),
{
    if proofs.len() == 0 {
        Seq::empty()
    } else {
        flat_entries(proofs.drop_last()) + proofs.last().target_chunks@
    }
}

/// The chunk indices of the entries.
pub open spec fn keys_of(entries: Seq<(u64, Seq<Seq<u64>>, Seq<u32>)>) -> Seq<u64> {
    Seq::new(entries.len(), |i: int| entries[i].0)
}

/// The paths of the entries.
pub open spec fn paths_of(entries: Seq<(u64, Seq<Seq<u64>>, Seq<u32>)>) -> Seq<Seq<Seq<u64>>> {
    Seq::new(entries.len(), |i: int| entries[i].1)
}

/// The entries of a membership proof after a batch removal: each keeps its
/// chunk index, gets the path that the inactive part of the filter handed
/// back for it, and, where the removal touched its chunk, the chunk as it is
/// now.
pub open spec fn updated_entries(
    entries: Seq<(u64, Seq<Seq<u64>>, Seq<u32>)>,
    chunks_after: Seq<(u64, Seq<Seq<u64>>, Seq<u32>)>,
    new_paths: Seq<Seq<Seq<u64>>>,
    offset: int,
) -> Seq<(u64, Seq<Seq<u64>>, Seq<u32>)> {
    Seq::new(
        entries.len(),
        |k: int|
            (
                entries[k].0,
                new_paths[offset + k],
                if has_key(chunks_after, entries[k].0) {
                    chunks_after[position_of(chunks_after, entries[k].0)].2
                } else {
                    entries[k].2
                },
            ),
    )
}

/// Merging keeps what fits the set fitting.
pub proof fn lemma_merge_fits(
    set: &SetCommitment,
    merged: Seq<(u64, Seq<Seq<u64>>, Seq<u32>)>,
    more: Seq<(u64, Seq<Seq<u64>>, Seq<u32>)>,
)
    requires
        set.chunks_fit(merged),
        set.chunks_fit(more),
    ensures
        set.chunks_fit(merge_chunks(merged, more)),
        forall|key: u64|
            has_key(merged, key) || has_key(more, key) ==> has_key(
                merge_chunks(merged, more),
                key,
            ),
    decreases more.len(),
{
    if more.len() > 0 {
        let rest = more.drop_last();
        assert(set.chunks_fit(rest)) by {
            assert forall|i: int, j: int| 0 <= i < j < rest.len() implies (#[trigger] rest[i]).0
                != (#[trigger] rest[j]).0 by {
                assert(more[i].0 != more[j].0);
            }
            assert forall|i: int| 0 <= i < rest.len() implies chunk_wf((#[trigger] rest[i]).2) by {
                assert(chunk_wf(more[i].2));
            }
            assert forall|i: int| 0 <= i < rest.len() implies spec_mmr_verify(
                (#[trigger] rest[i]).1,
                rest[i].0,
                chunk_hash(rest[i].2),
                set.swbf_inactive.peaks_view(),
                set.swbf_inactive.leaf_count(),
            ) by {
                assert(rest[i] == more[i]);
            }
        }
        lemma_merge_fits(set, merged, rest);
        let m = merge_chunks(merged, rest);
        let last = more.last();
        let out = merge_chunks(merged, more);
        assert(chunk_wf(more[more.len() - 1].2));
        if !has_key(m, last.0) {
            assert forall|i: int, j: int| 0 <= i < j < out.len() implies (#[trigger] out[i]).0 != (
            #[trigger] out[j]).0 by {
                if j == m.len() {
                    assert(m[i].0 != last.0);
                } else {
                    assert(m[i].0 != m[j].0);
                }
            }
            assert forall|i: int| 0 <= i < out.len() implies chunk_wf((#[trigger] out[i]).2) by {
                if i < m.len() {
                    assert(chunk_wf(m[i].2));
                }
            }
            assert forall|i: int| 0 <= i < out.len() implies spec_mmr_verify(
                (#[trigger] out[i]).1,
                out[i].0,
                chunk_hash(out[i].2),
                set.swbf_inactive.peaks_view(),
                set.swbf_inactive.leaf_count(),
            ) by {
                if i < m.len() {
                    assert(out[i] == m[i]);
                } else {
                    assert(out[i] == more[more.len() - 1]);
                }
            }
        }
        assert forall|key: u64| has_key(merged, key) || has_key(more, key) implies has_key(
            out,
            key,
        ) by {
            if has_key(more, key) && !has_key(rest, key) {
                let i = choose|i: int| 0 <= i < more.len() && (#[trigger] more[i]).0 == key;
                if i < rest.len() {
                    assert(rest[i].0 == key);
                }
                assert(key == last.0);
                if !has_key(m, last.0) {
                    assert(out[m.len() as int].0 == key);
                }
            } else {
                assert(has_key(m, key));
                let i = choose|i: int| 0 <= i < m.len() && (#[trigger] m[i]).0 == key;
                assert(out[i].0 == key);
            }
        }
    }
}

impl SetCommitment {
    /// Whether the removal records and the membership proofs to preserve can
    /// go through a batch removal: the chunks of each fit the set, and every
    /// bit of the records lies in the active window or in a chunk of a
    /// record.
    pub open spec fn batch_fits_set(
        &self,
        records: Seq<RemovalRecord>,
        preserved: Seq<MsMembershipProof>,
    ) -> bool {
        &&& self.swbf_inactive.leaf_count() <= MAX_LEAFS
        &&& forall|i: int|
            0 <= i < records.len() ==> self.chunks_fit((#[trigger] records[i]).target_chunks@)
        &&& forall|i: int|
            0 <= i < preserved.len() ==> self.chunks_fit((#[trigger] preserved[i]).target_chunks@)
        &&& bits_in_reach(
            merged_chunks(records),
            window_start(batch_index_of(self.aocl.leaf_count())),
            all_bits(records),
        )
    }

    /// Whether the removal records and the membership proofs to preserve can
    /// go through a batch removal.
    pub fn can_batch_remove(
        &self,
        removal_records: &Vec<RemovalRecord>,
        preserved_membership_proofs: &Vec<MsMembershipProof>,
    ) -> (b: bool)
        ensures
            b == self.batch_fits_set(removal_records@, preserved_membership_proofs@),
    {
        if self.swbf_inactive.num_leafs() > MAX_LEAFS {
            return false;
        }
        let mut i: usize = 0;
        while i < removal_records.len()
            invariant
                0 <= i <= removal_records.len(),
                forall|j: int|
                    0 <= j < i ==> self.chunks_fit((#[trigger] removal_records@[j]).target_chunks@),
            decreases removal_records.len() - i,
        {
            if !self.validate_chunks(&removal_records[i].target_chunks) {
                return false;
            }
            i += 1;
        }
        let mut i: usize = 0;
        while i < preserved_membership_proofs.len()
            invariant
                0 <= i <= preserved_membership_proofs.len(),
                forall|j: int|
                    0 <= j < i ==> self.chunks_fit(
                        (#[trigger] preserved_membership_proofs@[j]).target_chunks@,
                    ),
            decreases preserved_membership_proofs.len() - i,
        {
            if !self.validate_chunks(&preserved_membership_proofs[i].target_chunks) {
                return false;
            }
            i += 1;
        }
        let (bits, merged) = self.gather(removal_records);
        self.bits_reachable(&merged, &bits)
    }

    /// The bits and the chunks of all the removal records.
    pub fn gather(&self, removal_records: &Vec<RemovalRecord>) -> (r: (Vec<u128>, ChunkDictionary))
        requires
            forall|i: int|
                0 <= i < removal_records@.len() ==> self.chunks_fit(
                    (#[trigger] removal_records@[i]).target_chunks@,
                ),
        ensures
            r.0@ == all_bits(removal_records@),
            r.1@ == merged_chunks(removal_records@),
            self.chunks_fit(r.1@),
    {
        let mut bits: Vec<u128> = Vec::new();
        let mut merged = ChunkDictionary::new();
        let mut i: usize = 0;
        while i < removal_records.len()
            invariant
                0 <= i <= removal_records.len(),
                bits@ == all_bits(removal_records@.take(i as int)),
                merged@ == merged_chunks(removal_records@.take(i as int)),
                self.chunks_fit(merged@),
                forall|i: int|
                    0 <= i < removal_records@.len() ==> self.chunks_fit(
                        (#[trigger] removal_records@[i]).target_chunks@,
                    ),
            decreases removal_records.len() - i,
        {
            let record = &removal_records[i];
            proof {
                assert(removal_records@.take(i + 1).drop_last() =~= removal_records@.take(
                    i as int,
                ));
                assert(removal_records@.take(i + 1).last() == *record);
                assert(self.chunks_fit(removal_records@[i as int].target_chunks@));
            }
            let ghost bits_before = bits@;
            let mut k: usize = 0;
            while k < record.bit_indices.len()
                invariant
                    0 <= k <= record.bit_indices.len(),
                    bits@ == bits_before + record.bit_indices@.take(k as int),
                decreases record.bit_indices.len() - k,
            {
                bits.push(record.bit_indices[k]);
                proof {
                    assert(bits@ =~= bits_before + record.bit_indices@.take(k + 1));
                }
                k += 1;
            }
            proof {
                assert(record.bit_indices@.take(k as int) =~= record.bit_indices@);
            }
            let ghost merged_before = merged@;
            let mut m: usize = 0;
            while m < record.target_chunks.dictionary.len()
                invariant
                    0 <= m <= record.target_chunks.dictionary.len(),
                    merged@ == merge_chunks(merged_before, record.target_chunks@.take(m as int)),
                    self.chunks_fit(merged@),
                    self.chunks_fit(merged_before),
                    self.chunks_fit(record.target_chunks@),
                decreases record.target_chunks.dictionary.len() - m,
            {
                let entry = &record.target_chunks.dictionary[m];
                proof {
                    assert(record.target_chunks@.take(m + 1).drop_last()
                        =~= record.target_chunks@.take(m as int));
                    assert(record.target_chunks@.take(m + 1).last() == entry.plain());
                    assert(record.target_chunks@[m as int] == entry.plain());
                    lemma_take_fits(self, record.target_chunks@, m + 1);
                    lemma_merge_fits(self, merged_before, record.target_chunks@.take(m + 1));
                }
                if !merged.contains_key(entry.chunk_index) {
                    let ghost before = merged@;
                    merged.dictionary.push(entry.copy());
                    proof {
                        assert(merged@ =~= before.push(entry.plain()));
                    }
                }
                m += 1;
            }
            proof {
                assert(record.target_chunks@.take(m as int) =~= record.target_chunks@);
            }
            i += 1;
        }
        proof {
            assert(removal_records@.take(i as int) =~= removal_records@);
        }
        (bits, merged)
    }

    /// What a batch removal makes of the set and of the membership proofs to
    /// preserve, `after` being the set and `followed` the proofs after it,
    /// and `flipped` the bits that it flipped: the commitment list is as it
    /// was; the bits of all the records are set, in the window and in the
    /// chunks that the records bring along; the inactive part of the filter
    /// takes one mutation for each of these chunks; and each proof keeps
    /// what it holds but for its chunks, which take the bits that were set
    /// and the paths that the inactive part of the filter hands back.
    pub open spec fn batch_removed(
        &self,
        records: Seq<RemovalRecord>,
        preserved: Seq<MsMembershipProof>,
        after: SetCommitment,
        followed: Seq<MsMembershipProof>,
        flipped: Seq<u128>,
    ) -> bool {
        let out = flip_all(
            (self.swbf_active@, merged_chunks(records), Seq::<u128>::empty()),
            window_start(batch_index_of(self.aocl.leaf_count())),
            all_bits(records),
        );
        let entries = flat_entries(preserved);
        let mutated = spec_mmr_batch_mutate(
            self.swbf_inactive.peaks_view(),
            self.swbf_inactive.leaf_count(),
            paths_of(entries),
            keys_of(entries),
            mutations_of(out.1),
        );
        &&& after.aocl.leaf_count() == self.aocl.leaf_count()
        &&& after.aocl.peak_digests() == self.aocl.peak_digests()
        &&& after.swbf_inactive.leaf_count() == self.swbf_inactive.leaf_count()
        &&& after.swbf_inactive.peaks_view() == mutated.0
        &&& after.swbf_active@ == out.0
        &&& flipped == out.2
        &&& followed.len() == preserved.len()
        &&& forall|j: int|
            0 <= j < preserved.len() ==> {
                let before = preserved[j];
                let now = #[trigger] followed[j];
                &&& now.randomness == before.randomness
                &&& proof_path(now.auth_path_aocl) == proof_path(before.auth_path_aocl)
                &&& now.aocl_leaf_index == before.aocl_leaf_index
                &&& now.cached() == before.cached()
                &&& now.target_chunks@ == updated_entries(
                    before.target_chunks@,
                    out.1,
                    mutated.1,
                    flat_entries(preserved.take(j)).len() as int,
                )
            }
    }

    /// Remove all the records at once: set their bits, hand one mutation per
    /// touched chunk to the inactive part of the filter, and update the
    /// chunks and the paths in the membership proofs to preserve, so that
    /// these stay valid. Returns the chunks of the records as they are now,
    /// and the indices of the bits that were flipped, in ascending order.
    pub fn batch_remove(
        &mut self,
        removal_records: &Vec<RemovalRecord>,
        preserved_membership_proofs: &mut Vec<MsMembershipProof>,
    ) -> (r: (Vec<(u64, Chunk)>, Vec<u128>))
        requires
            old(self).wf(),
            old(self).batch_fits_set(removal_records@, old(preserved_membership_proofs)@),
        ensures
            final(self).wf(),
            old(self).batch_removed(
                removal_records@,
                old(preserved_membership_proofs)@,
                *final(self),
                final(preserved_membership_proofs)@,
                r.1@,
            ),
            indexed_chunks_view(r.0@) == indexed_chunks(
                flip_all(
                    (
                        old(self).swbf_active@,
                        merged_chunks(removal_records@),
                        Seq::<u128>::empty(),
                    ),
                    window_start(batch_index_of(old(self).aocl.leaf_count())),
                    all_bits(removal_records@),
                ).1,
            ),
    {
        let batch_index = self.get_batch_index();
        proof {
            lemma_window_start(batch_index);
        }
        let active_window_start: u128 = (batch_index as u128) * (CHUNK_SIZE as u128);
        let (bits, mut merged) = self.gather(removal_records);
        let ghost merged_before = merged@;
        let changed_indices = flip_bits(
            &mut self.swbf_active,
            &mut merged,
            active_window_start,
            &bits,
        );
        let (mutation_data, updated) = Self::mutation_data(&merged);
        // the paths of the membership proofs to preserve, one list for all
        let mut paths: Vec<MmrMembershipProof> = Vec::new();
        let mut leaf_indices: Vec<u64> = Vec::new();
        let mut j: usize = 0;
        while j < preserved_membership_proofs.len()
            invariant
                0 <= j <= preserved_membership_proofs.len(),
                preserved_membership_proofs@ == old(preserved_membership_proofs)@,
                crate::mmr::paths_view(paths@) == paths_of(
                    flat_entries(preserved_membership_proofs@.take(j as int)),
                ),
                leaf_indices@ == keys_of(
                    flat_entries(preserved_membership_proofs@.take(j as int)),
                ),
            decreases preserved_membership_proofs.len() - j,
        {
            let mp = &preserved_membership_proofs[j];
            proof {
                assert(preserved_membership_proofs@.take(j + 1).drop_last()
                    =~= preserved_membership_proofs@.take(j as int));
                assert(preserved_membership_proofs@.take(j + 1).last() == *mp);
            }
            let ghost flat_before = flat_entries(preserved_membership_proofs@.take(j as int));
            let mut k: usize = 0;
            while k < mp.target_chunks.dictionary.len()
                invariant
                    0 <= k <= mp.target_chunks.dictionary.len(),
                    crate::mmr::paths_view(paths@) == paths_of(
                        flat_before + mp.target_chunks@.take(k as int),
                    ),
                    leaf_indices@ == keys_of(flat_before + mp.target_chunks@.take(k as int)),
                decreases mp.target_chunks.dictionary.len() - k,
            {
                let entry = &mp.target_chunks.dictionary[k];
                let ghost paths_before = paths@;
                paths.push(clone_proof(&entry.membership_proof));
                leaf_indices.push(entry.chunk_index);
                proof {
                    assert(mp.target_chunks@[k as int] == entry.plain());
                    let a = flat_before + mp.target_chunks@.take(k as int);
                    let b = flat_before + mp.target_chunks@.take(k + 1);
                    assert(b =~= a.push(entry.plain()));
                    assert(crate::mmr::paths_view(paths_before).len() == paths_of(a).len());
                    assert(paths_before.len() == a.len());
                    assert(paths@.len() == b.len());
                    assert(crate::mmr::paths_view(paths@) =~= paths_of(b)) by {
                        assert forall|i: int| 0 <= i < paths@.len() implies crate::mmr::paths_view(
                            paths@,
                        )[i] == paths_of(b)[i] by {
                            if i < paths_before.len() {
                                assert(crate::mmr::paths_view(paths_before)[i] == paths_of(a)[i]);
                            }
                        }
                    }
                    assert(leaf_indices@ =~= keys_of(b));
                }
                k += 1;
            }
            proof {
                assert(mp.target_chunks@.take(k as int) =~= mp.target_chunks@);
            }
            j += 1;
        }
        proof {
            assert(preserved_membership_proofs@.take(j as int) =~= preserved_membership_proofs@);
            let peaks = self.swbf_inactive.peaks_view();
            let count = self.swbf_inactive.leaf_count();
            let after = merged@;
            let entries = flat_entries(preserved_membership_proofs@);
            lemma_same_keys(merged_before, after, 0);
            assert(crate::mmr::mutations_view(mutation_data@).len() == mutations_of(after).len());
            assert(crate::mmr::paths_view(paths@).len() == paths_of(entries).len());
            lemma_flat_fits(old(self), preserved_membership_proofs@);
            assert forall|i: int| 0 <= i < paths@.len() implies path_fits(
                proof_path(#[trigger] paths@[i]),
                leaf_indices@[i],
                peaks,
                count,
            ) by {
                assert(crate::mmr::paths_view(paths@)[i] == paths_of(entries)[i]);
                assert(leaf_indices@[i] == keys_of(entries)[i]);
                assert(spec_mmr_verify(
                    entries[i].1,
                    entries[i].0,
                    chunk_hash(entries[i].2),
                    peaks,
                    count,
                ));
            }
            assert forall|i: int| 0 <= i < mutation_data@.len() implies path_fits(
                proof_path((#[trigger] mutation_data@[i]).membership_proof),
                mutation_data@[i].leaf_index,
                peaks,
                count,
            ) by {
                assert(crate::mmr::mutations_view(mutation_data@)[i] == mutations_of(after)[i]);
                assert(merged_before[i].0 == after[i].0 && merged_before[i].1 == after[i].1);
                assert(spec_mmr_verify(
                    merged_before[i].1,
                    merged_before[i].0,
                    chunk_hash(merged_before[i].2),
                    peaks,
                    count,
                ));
            }
            assert forall|a: int, b: int| 0 <= a < b < mutation_data@.len() implies (
            #[trigger] mutation_data@[a]).leaf_index != (#[trigger] mutation_data@[b]).leaf_index by {
                assert(crate::mmr::mutations_view(mutation_data@)[a] == mutations_of(after)[a]);
                assert(crate::mmr::mutations_view(mutation_data@)[b] == mutations_of(after)[b]);
                assert(merged_before[a].0 != merged_before[b].0);
                assert(merged_before[a].0 == after[a].0);
                assert(merged_before[b].0 == after[b].0);
            }
        }
        self.swbf_inactive.batch_mutate_leaf_and_update_mps(
            &mut paths,
            &leaf_indices,
            &mutation_data,
        );
        // hand the paths and the chunks back to the membership proofs
        let mut rebuilt: Vec<MsMembershipProof> = Vec::new();
        let mut offset: usize = 0;
        let total: usize = paths.len();
        let mut j: usize = 0;
        while j < preserved_membership_proofs.len()
            invariant
                0 <= j <= preserved_membership_proofs.len(),
                total == paths@.len(),
                preserved_membership_proofs@ == old(preserved_membership_proofs)@,
                offset == flat_entries(preserved_membership_proofs@.take(j as int)).len(),
                paths@.len() == flat_entries(preserved_membership_proofs@).len(),
                rebuilt@.len() == j,
                forall|i: int|
                    0 <= i < j ==> {
                        let before = preserved_membership_proofs@[i];
                        let after = #[trigger] rebuilt@[i];
                        &&& after.randomness == before.randomness
                        &&& proof_path(after.auth_path_aocl) == proof_path(before.auth_path_aocl)
                        &&& after.aocl_leaf_index == before.aocl_leaf_index
                        &&& after.cached() == before.cached()
                        &&& after.target_chunks@ == updated_entries(
                            before.target_chunks@,
                            merged@,
                            crate::mmr::paths_view(paths@),
                            flat_entries(preserved_membership_proofs@.take(i)).len() as int,
                        )
                    },
            decreases preserved_membership_proofs.len() - j,
        {
            let mp = &preserved_membership_proofs[j];
            proof {
                assert(preserved_membership_proofs@.take(j + 1).drop_last()
                    =~= preserved_membership_proofs@.take(j as int));
                assert(preserved_membership_proofs@.take(j + 1).last() == *mp);
                lemma_flat_len(preserved_membership_proofs@, j + 1);
                assert(flat_entries(preserved_membership_proofs@.take(j + 1)) == flat_entries(
                    preserved_membership_proofs@.take(j as int),
                ) + mp.target_chunks@);
                assert(offset + mp.target_chunks@.len() <= paths@.len());
            }
            let mut entries: Vec<ChunkEntry> = Vec::new();
            let mut k: usize = 0;
            while k < mp.target_chunks.dictionary.len()
                invariant
                    0 <= k <= mp.target_chunks.dictionary.len(),
                    mp.target_chunks@.len() == mp.target_chunks.dictionary@.len(),
                    offset + mp.target_chunks@.len() <= paths@.len(),
                    total == paths@.len(),
                    entries@.len() == k,
                    forall|i: int|
                        0 <= i < k ==> (#[trigger] entries@[i]).plain() == updated_entries(
                            mp.target_chunks@,
                            merged@,
                            crate::mmr::paths_view(paths@),
                            offset as int,
                        )[i],
                decreases mp.target_chunks.dictionary.len() - k,
            {
                let entry = &mp.target_chunks.dictionary[k];
                assert(mp.target_chunks@[k as int] == entry.plain());
                let chunk = match merged.position(entry.chunk_index) {
                    Some(p) => {
                        assert(merged@[p as int] == merged.dictionary@[p as int].plain());
                        merged.dictionary[p].chunk.clone()
                    },
                    None => entry.chunk.clone(),
                };
                entries.push(
                    ChunkEntry {
                        chunk_index: entry.chunk_index,
                        membership_proof: clone_proof(&paths[offset + k]),
                        chunk,
                    },
                );
                k += 1;
            }
            let target_chunks = ChunkDictionary { dictionary: entries };
            proof {
                assert(target_chunks@ =~= updated_entries(
                    mp.target_chunks@,
                    merged@,
                    crate::mmr::paths_view(paths@),
                    offset as int,
                ));
            }
            rebuilt.push(
                MsMembershipProof {
                    randomness: mp.randomness,
                    auth_path_aocl: clone_proof(&mp.auth_path_aocl),
                    aocl_leaf_index: mp.aocl_leaf_index,
                    target_chunks,
                    cached_bits: match &mp.cached_bits {
                        Some(v) => Some(copy_bit_indices(v)),
                        None => None,
                    },
                },
            );
            offset = offset + mp.target_chunks.dictionary.len();
            j += 1;
        }
        *preserved_membership_proofs = rebuilt;
        (updated, changed_indices)
    }
}

/// The first members of what fits the set fit the set.
pub proof fn lemma_take_fits(set: &SetCommitment, chunks: Seq<(u64, Seq<Seq<u64>>, Seq<u32>)>, n: int)
    requires
        set.chunks_fit(chunks),
        0 <= n <= chunks.len(),
    ensures
        set.chunks_fit(chunks.take(n)),
{
    let t = chunks.take(n);
    assert forall|i: int, j: int| 0 <= i < j < t.len() implies (#[trigger] t[i]).0 != (
    #[trigger] t[j]).0 by {
        assert(chunks[i].0 != chunks[j].0);
    }
    assert forall|i: int| 0 <= i < t.len() implies chunk_wf((#[trigger] t[i]).2) by {
        assert(chunk_wf(chunks[i].2));
    }
    assert forall|i: int| 0 <= i < t.len() implies spec_mmr_verify(
        (#[trigger] t[i]).1,
        t[i].0,
        chunk_hash(t[i].2),
        set.swbf_inactive.peaks_view(),
        set.swbf_inactive.leaf_count(),
    ) by {
        assert(t[i] == chunks[i]);
    }
}

/// Every entry of proofs whose chunks fit the set is shown by its path to be
/// a leaf of the inactive part of the filter.
pub proof fn lemma_flat_fits(set: &SetCommitment, proofs: Seq<MsMembershipProof>)
    requires
        forall|i: int| 0 <= i < proofs.len() ==> set.chunks_fit((#[trigger] proofs[i]).target_chunks@),
    ensures
        forall|i: int|
            0 <= i < flat_entries(proofs).len() ==> spec_mmr_verify(
                (#[trigger] flat_entries(proofs)[i]).1,
                flat_entries(proofs)[i].0,
                chunk_hash(flat_entries(proofs)[i].2),
                set.swbf_inactive.peaks_view(),
                set.swbf_inactive.leaf_count(),
            ),
    decreases proofs.len(),
{
    if proofs.len() > 0 {
        let rest = proofs.drop_last();
        assert forall|i: int| 0 <= i < rest.len() implies set.chunks_fit(
            (#[trigger] rest[i]).target_chunks@,
        ) by {
            assert(rest[i] == proofs[i]);
        }
        lemma_flat_fits(set, rest);
        let last = proofs.last().target_chunks@;
        assert(set.chunks_fit(proofs[proofs.len() - 1].target_chunks@));
        let flat = flat_entries(proofs);
        assert forall|i: int| 0 <= i < flat.len() implies spec_mmr_verify(
            (#[trigger] flat[i]).1,
            flat[i].0,
            chunk_hash(flat[i].2),
            set.swbf_inactive.peaks_view(),
            set.swbf_inactive.leaf_count(),
        ) by {
            let n = flat_entries(rest).len();
            if i < n {
                assert(flat[i] == flat_entries(rest)[i]);
            } else {
                assert(flat[i] == last[i - n]);
            }
        }
    }
}

/// The entries of the first `n` proofs are the first entries of all.
pub proof fn lemma_flat_len(proofs: Seq<MsMembershipProof>, n: int)
    requires
        0 <= n <= proofs.len(),
    ensures
        flat_entries(proofs.take(n)).len() <= flat_entries(proofs).len(),
    decreases proofs.len() - n,
{
    if n < proofs.len() {
        lemma_flat_len(proofs, n + 1);
        assert(proofs.take(n + 1).drop_last() =~= proofs.take(n));
    } else {
        assert(proofs.take(n) =~= proofs);
    }
}

/// After the bits `bits` were set, each of them that lies in the active
/// window is set there.
pub proof fn lemma_flipped_bits_are_set(
    state: (Seq<u32>, Seq<(u64, Seq<Seq<u64>>, Seq<u32>)>, Seq<u128>),
    start: u128,
    bits: Seq<u128>,
)
    requires
        ascending(state.0),
    ensures
        ascending(flip_all(state, start, bits).0),
        forall|x: u32| state.0.contains(x) ==> flip_all(state, start, bits).0.contains(x),
        forall|i: int|
            0 <= i < bits.len() && bits[i] >= start ==> flip_all(state, start, bits).0.contains(
                ((#[trigger] bits[i]) - start) as u32,
            ),
    decreases bits.len(),
{
    if bits.len() > 0 {
        let rest = bits.drop_last();
        lemma_flipped_bits_are_set(state, start, rest);
        let mid = flip_all(state, start, rest);
        let b = bits.last();
        let out = flip_all(state, start, bits);
        if b >= start {
            let relative = (b - start) as u32;
            if !mid.0.contains(relative) {
                lemma_with_bit_exists(mid.0, relative);
            }
        }
        assert forall|i: int| 0 <= i < bits.len() && bits[i] >= start implies out.0.contains(
            ((#[trigger] bits[i]) - start) as u32,
        ) by {
            if i < rest.len() {
                assert(rest[i] == bits[i]);
                assert(mid.0.contains((rest[i] - start) as u32));
            }
        }
    }
}

/// An item that is proved, then added, is verified, as long as the item has
/// bit indices and one of them is not set: an item all of whose bits are
/// set counts as removed.
pub proof fn law_proved_then_added_verifies(
    before: SetCommitment,
    after: SetCommitment,
    item: Seq<u64>,
    randomness: Seq<u64>,
    store_bits: bool,
    mp: MsMembershipProof,
    addition_record: AdditionRecord,
)
    requires
        before.aocl.leaf_count() < u64::MAX,
        before.is_proof_for(item, randomness, store_bits, mp),
        addition_record.canonical_commitment@ == spec_hash_pair(item, randomness),
        before.is_added(addition_record, after),
        spec_swbf_indices(item, randomness, before.aocl.leaf_count()) matches Some(bits)
            && exists|i: int|
            0 <= i < bits.len() && !after.swbf_active@.contains(
                ((#[trigger] bits[i]) - window_start(batch_of(before.aocl.leaf_count()))) as u32,
            ),
    ensures
        after.verifies(item, mp),
{
    let n = before.aocl.leaf_count();
    let bits = spec_swbf_indices(item, randomness, n)->0;
    lemma_indices_upto(item, randomness, n, u64::MAX as nat);
    assert(batch_index_of((n + 1) as u64) == batch_of(n));
    assert(indices_of_proof(item, mp) == Some(bits));
    let start = window_start(batch_of(n));
    assert forall|i: int| 0 <= i < bits.len() implies after.bit_is_covered(
        mp.target_chunks@,
        #[trigger] bits[i],
    ) by {
        assert(start <= bits[i] < start + WINDOW_SIZE);
    }
    let w = choose|i: int|
        0 <= i < bits.len() && !after.swbf_active@.contains(((#[trigger] bits[i]) - start) as u32);
    assert(start <= bits[w] < start + WINDOW_SIZE);
    assert(after.bit_is_unset(mp.target_chunks@, bits[w]));
}

/// An item whose bits all lie in the active window is no longer verified once
/// its removal record was applied.
pub proof fn law_removed_item_does_not_verify(
    before: SetCommitment,
    after: SetCommitment,
    item: Seq<u64>,
    mp: MsMembershipProof,
    removal_record: RemovalRecord,
)
    requires
        before.swbf_active.wf(),
        Some(removal_record.bit_indices@) == indices_of_proof(item, mp),
        forall|i: int|
            0 <= i < removal_record.bit_indices@.len() ==> (
            #[trigger] removal_record.bit_indices@[i]) >= window_start(
                batch_index_of(before.aocl.leaf_count()),
            ),
        after.aocl.leaf_count() == before.aocl.leaf_count(),
        after.swbf_active@ == flip_all(
            (before.swbf_active@, removal_record.target_chunks@, Seq::<u128>::empty()),
            window_start(batch_index_of(before.aocl.leaf_count())),
            removal_record.bit_indices@,
        ).0,
    ensures
        !after.verifies(item, mp),
{
    let start = window_start(batch_index_of(before.aocl.leaf_count()));
    let bits = removal_record.bit_indices@;
    lemma_flipped_bits_are_set(
        (before.swbf_active@, removal_record.target_chunks@, Seq::<u128>::empty()),
        start,
        bits,
    );
    assert forall|i: int| 0 <= i < bits.len() implies !after.bit_is_unset(
        mp.target_chunks@,
        #[trigger] bits[i],
    ) by {
        assert(bits[i] >= start);
        assert(after.swbf_active@.contains((bits[i] - start) as u32));
    }
}

/// The bit indices that a membership proof stands for: those it keeps along,
/// or else those of the item.
pub open spec fn indices_of_proof(item: Seq<u64>, mp: MsMembershipProof) -> Option<Seq<u128>> {
    match mp.cached() {
        Some(bits) => Some(bits),
        None => spec_swbf_indices(item, mp.randomness@, mp.aocl_leaf_index),
    }
}

} // verus!
