//! Blocks: header, body, and the proof-of-work check.

use crate::bignum::{digest_bound, digest_value, law_digest_order_is_numeric};
use crate::block_height::BlockHeight;
use crate::difficulty::{Difficulty, ProofOfWork};
use crate::digest::{Digest, Hashable};
use crate::error::NodeError;
use crate::mmr::copy_digests;
use crate::mutator_set::addition_record::AdditionRecord;
use crate::mutator_set::mutator_set_accumulator::MutatorSetAccumulator;
use crate::mutator_set::removal_record::{records_view, RemovalRecord};
use crate::timestamp::Timestamp;
use crate::tip5::{hash_varlen, spec_hash_varlen};
use vstd::prelude::*;

verus! {

/// The header of a block.
#[derive(Debug)]
pub struct BlockHeader {
    pub version: u64,
    pub height: BlockHeight,
    pub mutator_set_hash: Digest,
    pub prev_block_digest: Digest,
    pub timestamp: Timestamp,
    pub nonce: [u64; 3],
    pub max_block_size: u32,
    /// The work of the chain that ends in this block.
    pub proof_of_work_line: ProofOfWork,
    /// The work of the chain that ends in this block, uncles included: what
    /// decides between forks.
    pub proof_of_work_family: ProofOfWork,
    /// The difficulty of finding the block that follows this one.
    pub difficulty: Difficulty,
    pub block_body_merkle_root: Digest,
    pub uncles: Vec<Digest>,
}

/// A header as plain values.
pub struct BlockHeaderView {
    pub version: u64,
    pub height: BlockHeight,
    pub mutator_set_hash: Digest,
    pub prev_block_digest: Digest,
    pub timestamp: Timestamp,
    pub nonce: [u64; 3],
    pub max_block_size: u32,
    pub proof_of_work_line: ProofOfWork,
    pub proof_of_work_family: ProofOfWork,
    pub difficulty: Difficulty,
    pub block_body_merkle_root: Digest,
    pub uncles: Seq<Digest>,
}

impl View for BlockHeader {
    type V = BlockHeaderView;

    open spec fn view(&self) -> BlockHeaderView {
        BlockHeaderView {
            version: self.version,
            height: self.height,
            mutator_set_hash: self.mutator_set_hash,
            prev_block_digest: self.prev_block_digest,
            timestamp: self.timestamp,
            nonce: self.nonce,
            max_block_size: self.max_block_size,
            proof_of_work_line: self.proof_of_work_line,
            proof_of_work_family: self.proof_of_work_family,
            difficulty: self.difficulty,
            block_body_merkle_root: self.block_body_merkle_root,
            uncles: self.uncles@,
        }
    }
}

/// The field elements that stand for 32-bit limbs.
pub open spec fn limbs_sequence(l: Seq<u32>) -> Seq<u64> {
    Seq::new(l.len(), |i: int| l[i] as u64)
}

/// The field elements of a list of digests, one digest after the other.
pub open spec fn digests_sequence(d: Seq<Digest>) -> Seq<u64>
    decreases d.len(),
{
    if d.len() == 0 {
        Seq::empty()
    } else {
        digests_sequence(d.drop_last()) + d.last()@
    }
}

/// The field elements that stand for a header when it is hashed.
pub open spec fn header_sequence(h: BlockHeaderView) -> Seq<u64> {
    seq![h.version, h.height.0] + h.mutator_set_hash@ + h.prev_block_digest@ + seq![h.timestamp.0]
        + h.nonce@ + seq![h.max_block_size as u64] + limbs_sequence(h.proof_of_work_line.limbs@)
        + limbs_sequence(h.proof_of_work_family.limbs@) + limbs_sequence(h.difficulty.limbs@)
        + h.block_body_merkle_root@ + seq![h.uncles.len() as u64] + digests_sequence(h.uncles)
}

/// The hash of a header.
pub open spec fn header_hash(h: BlockHeaderView) -> Seq<u64> {
    spec_hash_varlen(header_sequence(h))
}

fn push_limbs(out: &mut Vec<u64>, limbs: &[u32])
    ensures
        final(out)@ == old(out)@ + limbs_sequence(limbs@),
{
    let mut i: usize = 0;
    while i < limbs.len()
        invariant
            0 <= i <= limbs.len(),
            out@ == old(out)@ + limbs_sequence(limbs@.take(i as int)),
        decreases limbs.len() - i,
    {
        out.push(limbs[i] as u64);
        proof {
            assert(out@ =~= old(out)@ + limbs_sequence(limbs@.take(i + 1)));
        }
        i += 1;
    }
    proof {
        assert(limbs@.take(i as int) =~= limbs@);
    }
}

fn push_digest(out: &mut Vec<u64>, d: &Digest)
    ensures
        final(out)@ == old(out)@ + d@,
{
    let values = d.values();
    let mut i: usize = 0;
    while i < 5
        invariant
            0 <= i <= 5,
            values@ == d@,
            d@.len() == 5,
            out@ == old(out)@ + d@.take(i as int),
        decreases 5 - i,
    {
        out.push(values[i]);
        proof {
            assert(out@ =~= old(out)@ + d@.take(i + 1));
        }
        i += 1;
    }
    proof {
        assert(d@.take(5) =~= d@);
    }
}

impl BlockHeader {
    /// The field elements that stand for the header when it is hashed.
    pub fn to_sequence(&self) -> (v: Vec<u64>)
        ensures
            v@ == header_sequence(self@),
    {
        let mut v: Vec<u64> = Vec::new();
        v.push(self.version);
        v.push(self.height.0);
        push_digest(&mut v, &self.mutator_set_hash);
        push_digest(&mut v, &self.prev_block_digest);
        v.push(self.timestamp.0);
        v.push(self.nonce[0]);
        v.push(self.nonce[1]);
        v.push(self.nonce[2]);
        v.push(self.max_block_size as u64);
        push_limbs(&mut v, self.proof_of_work_line.limbs.as_slice());
        push_limbs(&mut v, self.proof_of_work_family.limbs.as_slice());
        push_limbs(&mut v, self.difficulty.limbs.as_slice());
        push_digest(&mut v, &self.block_body_merkle_root);
        v.push(self.uncles.len() as u64);
        let ghost fixed = v@;
        proof {
            assert(fixed =~= seq![self.version, self.height.0] + self.mutator_set_hash@
                + self.prev_block_digest@ + seq![self.timestamp.0] + self.nonce@ + seq![
                self.max_block_size as u64,
            ] + limbs_sequence(self.proof_of_work_line.limbs@) + limbs_sequence(
                self.proof_of_work_family.limbs@,
            ) + limbs_sequence(self.difficulty.limbs@) + self.block_body_merkle_root@ + seq![
                self.uncles@.len() as u64,
            ]);
        }
        let mut i: usize = 0;
        while i < self.uncles.len()
            invariant
                0 <= i <= self.uncles.len(),
                v@ == fixed + digests_sequence(self.uncles@.take(i as int)),
            decreases self.uncles.len() - i,
        {
            proof {
                assert(self.uncles@.take(i + 1).drop_last() =~= self.uncles@.take(i as int));
            }
            push_digest(&mut v, &self.uncles[i]);
            proof {
                assert(v@ =~= fixed + digests_sequence(self.uncles@.take(i + 1)));
            }
            i += 1;
        }
        proof {
            assert(self.uncles@.take(i as int) =~= self.uncles@);
        }
        v
    }

    /// The hash of the header, which is the hash of the block.
    pub fn hash(&self) -> (d: Digest)
        ensures
            d@ == header_hash(self@),
    {
        hash_varlen(&self.to_sequence())
    }

    /// A copy of the header.
    pub fn copy(&self) -> (h: Self)
        ensures
            h@ == self@,
    {
        BlockHeader {
            version: self.version,
            height: self.height,
            mutator_set_hash: self.mutator_set_hash,
            prev_block_digest: self.prev_block_digest,
            timestamp: self.timestamp,
            nonce: self.nonce,
            max_block_size: self.max_block_size,
            proof_of_work_line: self.proof_of_work_line,
            proof_of_work_family: self.proof_of_work_family,
            difficulty: self.difficulty,
            block_body_merkle_root: self.block_body_merkle_root,
            uncles: copy_digests(&self.uncles),
        }
    }
}

impl Hashable for BlockHeader {
    open spec fn hashed(&self) -> Seq<u64> {
        header_hash(self@)
    }

    fn hash(&self) -> (d: Digest) {
        BlockHeader::hash(self)
    }
}

/// What a block does to the mutator set: the items it removes and the items
/// it adds.
#[derive(Debug)]
pub struct MutatorSetUpdate {
    pub removals: Vec<RemovalRecord>,
    pub additions: Vec<AdditionRecord>,
}

/// The kernel of a transaction: its inputs, its outputs, the commitments to
/// its scripts, its fee and its timestamp.
#[derive(Debug)]
pub struct TransactionKernel {
    pub inputs: Vec<RemovalRecord>,
    pub outputs: Vec<AdditionRecord>,
    pub script_commitments: Vec<Digest>,
    pub fee: u64,
    pub timestamp: Timestamp,
}

/// The body of a block.
#[derive(Debug)]
pub struct BlockBody {
    pub transaction: TransactionKernel,
    pub mutator_set_update: MutatorSetUpdate,
    /// The mutator set as it is after this block.
    pub next_mutator_set_accumulator: MutatorSetAccumulator,
    /// The mutator set as it was before this block.
    pub previous_mutator_set_accumulator: MutatorSetAccumulator,
    pub stark_proof: Vec<u8>,
}

impl View for MutatorSetUpdate {
    type V = (Seq<(Seq<u128>, Seq<(u64, Seq<Seq<u64>>, Seq<u32>)>)>, Seq<AdditionRecord>);

    open spec fn view(&self) -> (
        Seq<(Seq<u128>, Seq<(u64, Seq<Seq<u64>>, Seq<u32>)>)>,
        Seq<AdditionRecord>,
    ) {
        (records_view(self.removals@), self.additions@)
    }
}

impl View for TransactionKernel {
    type V = (
        Seq<(Seq<u128>, Seq<(u64, Seq<Seq<u64>>, Seq<u32>)>)>,
        Seq<AdditionRecord>,
        Seq<Digest>,
        u64,
        Timestamp,
    );

    open spec fn view(&self) -> (
        Seq<(Seq<u128>, Seq<(u64, Seq<Seq<u64>>, Seq<u32>)>)>,
        Seq<AdditionRecord>,
        Seq<Digest>,
        u64,
        Timestamp,
    ) {
        (
            records_view(self.inputs@),
            self.outputs@,
            self.script_commitments@,
            self.fee,
            self.timestamp,
        )
    }
}

/// The body of a block as plain values.
pub struct BlockBodyView {
    pub transaction: (
        Seq<(Seq<u128>, Seq<(u64, Seq<Seq<u64>>, Seq<u32>)>)>,
        Seq<AdditionRecord>,
        Seq<Digest>,
        u64,
        Timestamp,
    ),
    pub mutator_set_update: (
        Seq<(Seq<u128>, Seq<(u64, Seq<Seq<u64>>, Seq<u32>)>)>,
        Seq<AdditionRecord>,
    ),
    pub next_mutator_set_accumulator: (u64, Seq<Digest>, u64, Seq<Digest>, Seq<u32>),
    pub previous_mutator_set_accumulator: (u64, Seq<Digest>, u64, Seq<Digest>, Seq<u32>),
    pub stark_proof: Seq<u8>,
}

impl View for BlockBody {
    type V = BlockBodyView;

    open spec fn view(&self) -> BlockBodyView {
        BlockBodyView {
            transaction: self.transaction@,
            mutator_set_update: self.mutator_set_update@,
            next_mutator_set_accumulator: self.next_mutator_set_accumulator@,
            previous_mutator_set_accumulator: self.previous_mutator_set_accumulator@,
            stark_proof: self.stark_proof@,
        }
    }
}

/// A copy of the removal records.
pub fn copy_removals(v: &Vec<RemovalRecord>) -> (w: Vec<RemovalRecord>)
    ensures
        records_view(w@) == records_view(v@),
{
    let mut w: Vec<RemovalRecord> = Vec::new();
    let mut i: usize = 0;
    while i < v.len()
        invariant
            0 <= i <= v.len(),
            w@.len() == i,
            forall|j: int| 0 <= j < i ==> w@[j]@ == v@[j]@,
        decreases v.len() - i,
    {
        w.push(v[i].copy());
        i += 1;
    }
    proof {
        assert(records_view(w@) =~= records_view(v@));
    }
    w
}

/// A copy of the addition records.
pub fn copy_additions(v: &Vec<AdditionRecord>) -> (w: Vec<AdditionRecord>)
    ensures
        w@ == v@,
{
    let mut w: Vec<AdditionRecord> = Vec::new();
    let mut i: usize = 0;
    while i < v.len()
        invariant
            0 <= i <= v.len(),
            w@ == v@.take(i as int),
        decreases v.len() - i,
    {
        w.push(v[i]);
        i += 1;
    }
    w
}

/// A copy of the bytes.
pub fn copy_bytes(v: &Vec<u8>) -> (w: Vec<u8>)
    ensures
        w@ == v@,
{
    let mut w: Vec<u8> = Vec::new();
    let mut i: usize = 0;
    while i < v.len()
        invariant
            0 <= i <= v.len(),
            w@ == v@.take(i as int),
        decreases v.len() - i,
    {
        w.push(v[i]);
        i += 1;
    }
    w
}

impl BlockBody {
    /// A copy of the body.
    pub fn copy(&self) -> (b: Self)
        ensures
            b@ == self@,
            b.mutator_set_update.additions@ == self.mutator_set_update.additions@,
            b.next_mutator_set_accumulator.set_commitment.commitment()
                == self.next_mutator_set_accumulator.set_commitment.commitment(),
    {
        BlockBody {
            transaction: TransactionKernel {
                inputs: copy_removals(&self.transaction.inputs),
                outputs: copy_additions(&self.transaction.outputs),
                script_commitments: copy_digests(&self.transaction.script_commitments),
                fee: self.transaction.fee,
                timestamp: self.transaction.timestamp,
            },
            mutator_set_update: MutatorSetUpdate {
                removals: copy_removals(&self.mutator_set_update.removals),
                additions: copy_additions(&self.mutator_set_update.additions),
            },
            next_mutator_set_accumulator: self.next_mutator_set_accumulator.copy(),
            previous_mutator_set_accumulator: self.previous_mutator_set_accumulator.copy(),
            stark_proof: copy_bytes(&self.stark_proof),
        }
    }
}

/// A block.
#[derive(Debug)]
pub struct Block {
    pub hash: Digest,
    pub header: BlockHeader,
    pub body: BlockBody,
}

/// The number that the target of a difficulty stands for, the difficulty
/// standing for the number `difficulty`: the greatest number that a digest
/// can stand for, divided by the difficulty.
pub open spec fn target_value(difficulty: nat) -> nat {
    ((digest_bound() - 1) as nat) / difficulty
}

/// Whether a block with the hash `hash` has proof-of-work under a
/// difficulty that stands for the number `difficulty`: the hash is below
/// the target of the difficulty.
pub open spec fn has_work(hash: Seq<u64>, difficulty: nat) -> bool {
    digest_value(hash) < target_value(difficulty)
}

/// Whether a block with the header `header` stands on a block with the
/// header `previous`: one above it, naming it as its predecessor.
pub open spec fn stands_on(header: BlockHeaderView, previous: BlockHeaderView) -> bool {
    header.height.0 == previous.height.0 + 1 && header.prev_block_digest@ == header_hash(previous)
}

impl Block {
    /// The block with the given header and body; its hash is the hash of the
    /// header.
    pub fn new(header: BlockHeader, body: BlockBody) -> (b: Self)
        ensures
            b.hash@ == header_hash(header@),
            b.header@ == header@,
    {
        let hash = header.hash();
        Block { hash, header, body }
    }

    /// A copy of the block.
    pub fn copy(&self) -> (b: Self)
        ensures
            b.hash == self.hash,
            b.header@ == self.header@,
            b.body@ == self.body@,
            b.body.mutator_set_update.additions@ == self.body.mutator_set_update.additions@,
    {
        Block { hash: self.hash, header: self.header.copy(), body: self.body.copy() }
    }

    /// Whether the block has proof-of-work: its hash is below the target of
    /// the difficulty that its predecessor set.
    pub fn has_proof_of_work(&self, previous_block_header: &BlockHeader) -> (b: bool)
        requires
            previous_block_header.difficulty.value() > 0,
        ensures
            b == has_work(self.hash@, previous_block_header.difficulty.value()),
    {
        let target = previous_block_header.difficulty.target();
        let below = self.hash.less_than(&target);
        proof {
            law_digest_order_is_numeric(self.hash@, target@);
        }
        below
    }

    /// Check a block that a peer sent against its predecessor: it has to
    /// stand one above it, name it as its predecessor, and have
    /// proof-of-work. A block that does not stand on the predecessor breaks
    /// the protocol; one that does and lacks proof-of-work is insufficient.
    pub fn validate(&self, previous_block_header: &BlockHeader) -> (r: Result<(), NodeError>)
        requires
            previous_block_header.difficulty.value() > 0,
        ensures
            r == if !stands_on(self.header@, previous_block_header@) {
                Err::<(), NodeError>(NodeError::ProtocolViolation)
            } else if !has_work(self.hash@, previous_block_header.difficulty.value()) {
                Err::<(), NodeError>(NodeError::ProofOfWorkInsufficient)
            } else {
                Ok::<(), NodeError>(())
            },
    {
        if previous_block_header.height.0 == u64::MAX || self.header.height.0
            != previous_block_header.height.0 + 1 {
            return Err(NodeError::ProtocolViolation);
        }
        let previous_hash = previous_block_header.hash();
        if self.header.prev_block_digest != previous_hash {
            proof {
                if self.header.prev_block_digest@ == previous_hash@ {
                    crate::digest::lemma_digest_ext(self.header.prev_block_digest, previous_hash);
                }
            }
            return Err(NodeError::ProtocolViolation);
        }
        if !self.has_proof_of_work(previous_block_header) {
            return Err(NodeError::ProofOfWorkInsufficient);
        }
        Ok(())
    }
}

} // verus!
