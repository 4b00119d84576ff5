//! The archival state of the node: the catalog of the block store, the
//! archival mutator set, and the record of the block that the mutator set
//! is synced to.
//!
//! Reading and writing the block files and the persistent tables is the
//! business of the caller. What is decided here is where a block goes, which
//! blocks descend from which, whether a block lies on the chain that ends in
//! the tip, and how the mutator set follows the chain, rollbacks included.

use crate::block::{header_hash, Block, BlockHeader, BlockHeaderView};
use crate::block_height::BlockHeight;
use crate::block_index::{BlockFileLocation, BlockIndex};
use crate::difficulty::ProofOfWork;
use crate::digest::{lemma_digest_ext, Digest};
use crate::error::NodeError;
use crate::mutator_set::addition_record::AdditionRecord;
use crate::mutator_set::archival_mutator_set::{
    block_applied, block_applies, block_reverted, blocks_applied, blocks_apply,
    commitment_of_state, diffs_of_blocks, law_rollback_undoes_block, law_rollback_undoes_blocks,
    state_wf, ArchivalMutatorSet,
};
use crate::mutator_set::removal_record::RemovalRecord;
use vstd::prelude::*;

verus! {

/// The record of how far the mutator set has followed the chain: the block
/// it is synced to, and for each block that it applied the indices of the
/// bits that the block flipped, so that the block can be rolled back.
#[derive(Debug)]
pub struct MsBlockSync {
    pub sync_digest: Option<Digest>,
    pub diffs: Vec<(Digest, Vec<u128>)>,
}

/// Where the bits that block `d` flipped were last recorded among `diffs`,
/// or -1 where they were not.
pub open spec fn diff_position(diffs: Seq<(Digest, Vec<u128>)>, d: Digest) -> int
    decreases diffs.len(),
{
    if diffs.len() == 0 {
        -1
    } else if diffs.last().0 == d {
        diffs.len() - 1
    } else {
        diff_position(diffs.drop_last(), d)
    }
}

impl MsBlockSync {
    /// The bits that block `d` flipped, if they are recorded.
    pub open spec fn diff_of(&self, d: Digest) -> Option<Seq<u128>> {
        if diff_position(self.diffs@, d) >= 0 {
            Some(self.diffs@[diff_position(self.diffs@, d)].1@)
        } else {
            None
        }
    }

    /// The empty record.
    pub fn new() -> (s: Self)
        ensures
            s.sync_digest is None,
            s.diffs@.len() == 0,
    {
        MsBlockSync { sync_digest: None, diffs: Vec::new() }
    }

    /// The bits that block `d` flipped, if they are recorded.
    pub fn get_diff(&self, d: &Digest) -> (r: Option<Vec<u128>>)
        ensures
            match r {
                Some(v) => self.diff_of(*d) == Some(v@),
                None => self.diff_of(*d) is None,
            },
    {
        let mut i: usize = self.diffs.len();
        proof {
            assert(self.diffs@.take(i as int) =~= self.diffs@);
        }
        while i > 0
            invariant
                0 <= i <= self.diffs.len(),
                diff_position(self.diffs@, *d) == diff_position(self.diffs@.take(i as int), *d),
            decreases i,
        {
            proof {
                assert(self.diffs@.take(i as int).drop_last() =~= self.diffs@.take(i - 1));
            }
            i -= 1;
            if self.diffs[i].0 == *d {
                return Some(crate::mutator_set::removal_record::copy_bit_indices(&self.diffs[i].1));
            }
        }
        None
    }

    /// Record in one step that the mutator set is synced to block `d`, which
    /// flipped the bits `diff`.
    pub fn record(&mut self, d: Digest, diff: Vec<u128>)
        ensures
            final(self).sync_digest == Some(d),
            final(self).diff_of(d) == Some(diff@),
            forall|other: Digest| other != d ==> final(self).diff_of(other) == old(self).diff_of(other),
    {
        proof {
            assert(self.diffs@.push((d, diff)).drop_last() =~= self.diffs@);
            assert forall|other: Digest| other != d implies diff_position(
                self.diffs@.push((d, diff)),
                other,
            ) == diff_position(self.diffs@, other) && diff_position(self.diffs@, other)
                < self.diffs@.len() by {
                lemma_diff_position(self.diffs@, other);
            }
        }
        self.diffs.push((d, diff));
        self.sync_digest = Some(d);
    }
}

/// A position that is found lies in the list.
pub proof fn lemma_diff_position(diffs: Seq<(Digest, Vec<u128>)>, d: Digest)
    ensures
        -1 <= diff_position(diffs, d) < diffs.len(),
    decreases diffs.len(),
{
    if diffs.len() > 0 {
        lemma_diff_position(diffs.drop_last(), d);
    }
}

/// The archival state.
#[derive(Debug)]
pub struct ArchivalState {
    pub block_index: BlockIndex,
    /// The genesis block. It lives in memory and is not in the catalog.
    pub genesis_block: Block,
    pub archival_mutator_set: ArchivalMutatorSet,
    pub ms_block_sync: MsBlockSync,
    /// The length at which a block file is full.
    pub max_block_file_size: u64,
}

/// Where a block is kept: in memory, as the genesis block is, or in a file
/// at the location that the catalog holds.
#[derive(Debug, Clone, Copy, PartialEq, Eq, Structural)]
pub enum BlockSource {
    Memory,
    File(BlockFileLocation),
}

/// The members of `digests` that name `parent` as their predecessor.
pub open spec fn children_among(index: &BlockIndex, digests: Seq<Digest>, parent: Digest) -> Seq<
    Digest,
>
    decreases digests.len(),
{
    if digests.len() == 0 {
        Seq::empty()
    } else if index.header_of(digests.last()).prev_block_digest == parent {
        children_among(index, digests.drop_last(), parent).push(digests.last())
    } else {
        children_among(index, digests.drop_last(), parent)
    }
}

impl ArchivalState {
    /// The header of the block with digest `d`: that of the catalog, or that
    /// of the genesis block where `d` is its digest.
    pub open spec fn header(&self, d: Digest) -> Option<BlockHeaderView> {
        if self.block_index.knows(d) {
            Some(self.block_index.header_of(d))
        } else if d == self.genesis_block.hash {
            Some(self.genesis_block.header@)
        } else {
            None
        }
    }

    /// Where the block with digest `d` is kept.
    pub open spec fn source_of(&self, d: Digest) -> Option<BlockSource> {
        if self.block_index.knows(d) {
            Some(BlockSource::File(self.block_index.location_of(d)))
        } else if d == self.genesis_block.hash {
            Some(BlockSource::Memory)
        } else {
            None
        }
    }

    /// The digest of the latest block: the tip of the catalog, or the
    /// genesis block where no block was written yet.
    pub open spec fn latest_block_digest(&self) -> Digest {
        match self.block_index.tip {
            Some(tip) => tip,
            None => self.genesis_block.hash,
        }
    }

    /// The invariant of the state: the catalog is well-formed; the genesis
    /// block has height zero, is known by the hash of its header, is not in
    /// the catalog and has no predecessor; and every block of the catalog
    /// stands one above its predecessor, which is in the catalog or is the
    /// genesis block.
    pub open spec fn wf(&self) -> bool {
        &&& self.block_index.wf()
        &&& self.genesis_block.header.height.0 == 0
        &&& self.genesis_block.hash@ == header_hash(self.genesis_block.header@)
        &&& !self.block_index.knows(self.genesis_block.hash)
        &&& self.header(self.genesis_block.header.prev_block_digest) is None
        &&& forall|d: Digest| #[trigger]
            self.block_index.knows(d) ==> self.links_to_predecessor(self.block_index.header_of(d))
    }

    /// Whether a block with the given header stands one above its
    /// predecessor, which is known.
    pub open spec fn links_to_predecessor(&self, header: BlockHeaderView) -> bool {
        &&& header.height.0 >= 1
        &&& self.header(header.prev_block_digest) matches Some(previous)
        &&& previous.height.0 + 1 == header.height.0
    }

    /// The digests of the blocks at height `h + 1` that name `d` as their
    /// predecessor.
    pub open spec fn children_of(&self, d: Digest, h: u64) -> Seq<Digest> {
        if h == u64::MAX {
            Seq::empty()
        } else {
            children_among(&self.block_index, self.block_index.digests_at((h + 1) as u64), d)
        }
    }

    /// The header of the block with digest `block_digest`, if it is known:
    /// from the catalog, or that of the genesis block.
    pub fn get_block_header(&self, block_digest: &Digest) -> (r: Option<BlockHeader>)
        ensures
            match r {
                Some(h) => self.header(*block_digest) == Some(h@),
                None => self.header(*block_digest) is None,
            },
    {
        match self.block_index.get_block_record(block_digest) {
            Some(record) => Some(record.block_header),
            None => {
                if *block_digest == self.genesis_block.hash {
                    Some(self.genesis_block.header.copy())
                } else {
                    None
                }
            },
        }
    }

    /// Where the block with digest `block_digest` lies on disk. The genesis
    /// block lies in memory, and an unknown block nowhere.
    pub fn get_block_location(&self, block_digest: &Digest) -> (r: Option<BlockFileLocation>)
        ensures
            r is Some <==> self.block_index.knows(*block_digest),
            r matches Some(location) ==> location == self.block_index.location_of(*block_digest),
    {
        match self.block_index.get_block_record(block_digest) {
            Some(record) => Some(record.file_location),
            None => None,
        }
    }

    /// Where the block with digest `block_digest` is kept, for the caller to
    /// read it from there: in a file, where the catalog holds it; in memory,
    /// where it is the genesis block; nowhere, where it is not known.
    pub fn get_block(&self, block_digest: &Digest) -> (r: Option<BlockSource>)
        ensures
            r == self.source_of(*block_digest),
    {
        match self.block_index.get_block_record(block_digest) {
            Some(record) => Some(BlockSource::File(record.file_location)),
            None => {
                if *block_digest == self.genesis_block.hash {
                    Some(BlockSource::Memory)
                } else {
                    None
                }
            },
        }
    }

    /// Where the latest block is kept: the tip, which is in a file, or the
    /// genesis block where no block was written yet.
    pub fn get_latest_block(&self) -> (r: BlockSource)
        requires
            self.wf(),
        ensures
            r == match self.block_index.tip {
                Some(tip) => BlockSource::File(self.block_index.location_of(tip)),
                None => BlockSource::Memory,
            },
            Some(r) == self.source_of(self.latest_block_digest()),
    {
        match self.block_index.tip {
            Some(tip) => match self.block_index.get_block_record(&tip) {
                Some(record) => BlockSource::File(record.file_location),
                None => BlockSource::Memory,
            },
            None => BlockSource::Memory,
        }
    }

    /// The digest of the latest block: the tip of the catalog, or the
    /// genesis block where no block was written yet.
    pub fn get_latest_block_digest(&self) -> (d: Digest)
        ensures
            d == match self.block_index.tip {
                Some(tip) => tip,
                None => self.genesis_block.hash,
            },
    {
        match self.block_index.tip {
            Some(tip) => tip,
            None => self.genesis_block.hash,
        }
    }

    /// The headers of the blocks that are known at height `block_height`.
    pub fn block_height_to_block_headers(&self, block_height: BlockHeight) -> (r: Vec<BlockHeader>)
        requires
            self.block_index.wf(),
        ensures
            r@.len() == self.block_index.digests_at(block_height.0).len(),
            forall|i: int|
                0 <= i < r@.len() ==> (#[trigger] r@[i])@ == self.block_index.header_of(
                    self.block_index.digests_at(block_height.0)[i],
                ),
    {
        let block_digests = self.block_index.block_height_to_block_digests(block_height);
        let mut block_headers: Vec<BlockHeader> = Vec::new();
        let mut i: usize = 0;
        while i < block_digests.len()
            invariant
                0 <= i <= block_digests.len(),
                self.block_index.wf(),
                block_digests@ == self.block_index.digests_at(block_height.0),
                block_headers@.len() == i,
                forall|j: int|
                    0 <= j < i ==> (#[trigger] block_headers@[j])@ == self.block_index.header_of(
                        block_digests@[j],
                    ),
            decreases block_digests.len() - i,
        {
            proof {
                assert(self.block_index.knows(self.block_index.digests_at(block_height.0)[i as int]));
            }
            match self.block_index.get_block_record(&block_digests[i]) {
                Some(record) => {
                    block_headers.push(record.block_header);
                },
                None => {
                    assert(false);
                },
            }
            i += 1;
        }
        block_headers
    }

    /// The digests of the children of the block with digest `d` and height
    /// `h`.
    pub fn get_children_digests(&self, d: &Digest, h: BlockHeight) -> (r: Vec<Digest>)
        requires
            self.block_index.wf(),
        ensures
            r@ == self.children_of(*d, h.0),
    {
        if h.0 == u64::MAX {
            return Vec::new();
        }
        let candidates = self.block_index.block_height_to_block_digests(h.next());
        let mut children: Vec<Digest> = Vec::new();
        let mut i: usize = 0;
        while i < candidates.len()
            invariant
                0 <= i <= candidates.len(),
                self.block_index.wf(),
                h.0 < u64::MAX,
                candidates@ == self.block_index.digests_at((h.0 + 1) as u64),
                children@ == children_among(&self.block_index, candidates@.take(i as int), *d),
            decreases candidates.len() - i,
        {
            proof {
                assert(candidates@.take(i + 1).drop_last() =~= candidates@.take(i as int));
                assert(self.block_index.knows(
                    self.block_index.digests_at((h.0 + 1) as u64)[i as int],
                ));
            }
            match self.block_index.get_block_record(&candidates[i]) {
                Some(record) => {
                    if record.block_header.prev_block_digest == *d {
                        children.push(candidates[i]);
                    }
                },
                None => {
                    assert(false);
                },
            }
            i += 1;
        }
        proof {
            assert(candidates@.take(i as int) =~= candidates@);
        }
        children
    }

    /// The headers of the blocks that name the block with the given header
    /// as their predecessor.
    pub fn get_children_blocks(&self, block_header: &BlockHeader) -> (r: Vec<BlockHeader>)
        requires
            self.block_index.wf(),
        ensures
            forall|d: Digest|
                d@ == header_hash(block_header@) ==> {
                    &&& r@.len() == self.children_of(d, block_header.height.0).len()
                    &&& forall|i: int|
                        0 <= i < r@.len() ==> (#[trigger] r@[i])@ == self.block_index.header_of(
                            self.children_of(d, block_header.height.0)[i],
                        )
                },
    {
        let hash = block_header.hash();
        proof {
            assert forall|d: Digest| #[trigger] d@ == header_hash(block_header@) implies d == hash by {
                lemma_digest_ext(d, hash);
            }
        }
        let digests = self.get_children_digests(&hash, block_header.height);
        proof {
            if block_header.height.0 < u64::MAX {
                let all = self.block_index.digests_at((block_header.height.0 + 1) as u64);
                assert forall|i: int| 0 <= i < all.len() implies self.block_index.knows(
                    #[trigger] all[i],
                ) by {
                    assert(self.block_index.knows(
                        self.block_index.digests_at((block_header.height.0 + 1) as u64)[i],
                    ));
                }
                lemma_children_are_known(&self.block_index, all, hash);
            }
        }
        let mut headers: Vec<BlockHeader> = Vec::new();
        let mut i: usize = 0;
        while i < digests.len()
            invariant
                0 <= i <= digests.len(),
                headers@.len() == i,
                forall|k: int| 0 <= k < digests@.len() ==> self.block_index.knows(#[trigger] digests@[k]),
                forall|j: int|
                    0 <= j < i ==> (#[trigger] headers@[j])@ == self.block_index.header_of(
                        digests@[j],
                    ),
            decreases digests.len() - i,
        {
            match self.block_index.get_block_record(&digests[i]) {
                Some(record) => {
                    headers.push(record.block_header);
                },
                None => {
                    assert(self.block_index.knows(digests@[i as int]));
                    assert(false);
                },
            }
            i += 1;
        }
        headers
    }
}

impl ArchivalState {
    /// The state with an empty catalog, an empty mutator set and nothing
    /// synced, around the given genesis block. There is none where the
    /// genesis block is not one: where its height is not zero, its hash is
    /// not the hash of its header, or it names itself as its predecessor.
    pub fn new(genesis_block: Block, max_block_file_size: u64) -> (r: Option<Self>)
        ensures
            r matches Some(state) ==> state.wf() && state.archival_mutator_set.wf()
                && state.genesis_block == genesis_block && state.max_block_file_size
                == max_block_file_size && state.block_index.is_empty()
                && state.ms_block_sync.sync_digest is None && (
            state.archival_mutator_set.state(),
            Seq::<u128>::empty(),
        ) == block_applied(
                (Seq::<Digest>::empty(), Seq::<Seq<u32>>::empty(), Seq::<u32>::empty()),
                genesis_block.body.mutator_set_update.additions@,
                Seq::<RemovalRecord>::empty(),
            ),
            r is Some <==> genesis_block.header.height.0 == 0 && genesis_block.hash@
                == header_hash(genesis_block.header@) && genesis_block.header.prev_block_digest
                != genesis_block.hash,
    {
        if genesis_block.header.height.0 != 0 {
            return None;
        }
        let hash = genesis_block.header.hash();
        if hash != genesis_block.hash {
            proof {
                if genesis_block.hash@ == header_hash(genesis_block.header@) {
                    lemma_digest_ext(genesis_block.hash, hash);
                }
            }
            return None;
        }
        if genesis_block.header.prev_block_digest == genesis_block.hash {
            return None;
        }
        // the mutator set starts with the outputs of the genesis block
        let mut archival_mutator_set = ArchivalMutatorSet::new();
        let no_removals: Vec<RemovalRecord> = Vec::new();
        let outputs: usize = genesis_block.body.mutator_set_update.additions.len();
        let applied = archival_mutator_set.apply_block(
            &genesis_block.body.mutator_set_update.additions,
            &no_removals,
        );
        proof {
            assert(no_removals@ =~= Seq::<RemovalRecord>::empty());
        }
        match applied {
            Ok(_) => {},
            Err(_) => {
                assert(false);
            },
        }
        Some(
            ArchivalState {
                block_index: BlockIndex::new(),
                genesis_block,
                archival_mutator_set,
                ms_block_sync: MsBlockSync::new(),
                max_block_file_size,
            },
        )
    }

    /// Record a block that is about to be written to disk, where it stands
    /// one above a known predecessor; see [`BlockIndex::write_block`].
    /// `last_file_size` is the length of the file that blocks are appended
    /// to. A block whose predecessor is not known is not recorded, nor one
    /// whose hash is not the hash of its header: the catalog knows a block
    /// by the hash of its header, and the mutator set is synced to a block
    /// by the hash that the block holds.
    pub fn write_block(
        &mut self,
        new_block: &Block,
        serialized_block_size: usize,
        last_file_size: u64,
        current_max_pow_family: Option<ProofOfWork>,
    ) -> (r: Result<BlockFileLocation, NodeError>)
        requires
            old(self).wf(),
        ensures
            final(self).wf(),
            r is Ok <==> new_block.hash@ == header_hash(new_block.header@) && old(
                self,
            ).links_to_predecessor(new_block.header@) && header_hash(new_block.header@) != old(
                self,
            ).genesis_block.hash@ && header_hash(new_block.header@) != old(
                self,
            ).genesis_block.header.prev_block_digest@ && old(self).block_index.can_write(
                new_block.header@,
                serialized_block_size,
                last_file_size,
                old(self).max_block_file_size,
            ),
            r is Err ==> *final(self) == *old(self),
            r matches Ok(location) ==> {
                &&& Some(location) == old(self).block_index.next_location(
                    serialized_block_size,
                    last_file_size,
                    old(self).max_block_file_size,
                )
                &&& old(self).block_index.written(
                    final(self).block_index,
                    new_block.header@,
                    location,
                    current_max_pow_family,
                )
                &&& final(self).genesis_block == old(self).genesis_block
                &&& final(self).archival_mutator_set == old(self).archival_mutator_set
                &&& final(self).ms_block_sync == old(self).ms_block_sync
                &&& final(self).max_block_file_size == old(self).max_block_file_size
                &&& forall|d: Digest|
                    d@ == header_hash(new_block.header@) ==> final(self).header(d) == Some(
                        new_block.header@,
                    ) && final(self).source_of(d) == Some(BlockSource::File(location))
                &&& forall|d: Digest|
                    d@ != header_hash(new_block.header@) ==> final(self).header(d) == old(
                        self,
                    ).header(d)
            },
    {
        if new_block.header.height.0 == 0 {
            return Err(NodeError::CatalogMiss);
        }
        match self.get_block_header(&new_block.header.prev_block_digest) {
            None => {
                return Err(NodeError::CatalogMiss);
            },
            Some(previous) => {
                if previous.height.0 != new_block.header.height.0 - 1 {
                    return Err(NodeError::CatalogMiss);
                }
            },
        }
        let hash = new_block.header.hash();
        proof {
            assert forall|d: Digest| #[trigger] d@ == header_hash(new_block.header@) implies d == hash by {
                lemma_digest_ext(d, hash);
            }
        }
        if hash != new_block.hash {
            proof {
                if new_block.hash@ == header_hash(new_block.header@) {
                    lemma_digest_ext(new_block.hash, hash);
                }
            }
            return Err(NodeError::ProtocolViolation);
        }
        if hash == self.genesis_block.hash || hash == self.genesis_block.header.prev_block_digest {
            return Err(NodeError::ProtocolViolation);
        }
        let ghost before = *self;
        let max = self.max_block_file_size;
        let r = self.block_index.write_block(
            &new_block.header,
            serialized_block_size,
            last_file_size,
            max,
            current_max_pow_family,
        );
        proof {
            if r is Ok {
                assert forall|d: Digest| d != hash implies self.header(d) == before.header(d) by {
                    assert(d@ != header_hash(new_block.header@)) by {
                        if d@ == header_hash(new_block.header@) {
                            lemma_digest_ext(d, hash);
                        }
                    }
                }
                assert forall|d: Digest| #[trigger]
                    self.block_index.knows(d) implies self.links_to_predecessor(
                    self.block_index.header_of(d),
                ) by {
                    if d == hash {
                        assert(before.links_to_predecessor(new_block.header@));
                        let p = new_block.header.prev_block_digest;
                        assert(before.header(p) is Some);
                        assert(p != hash) by {
                            if p == hash {
                                assert(before.block_index.knows(hash) || hash
                                    == before.genesis_block.hash);
                            }
                        }
                    } else {
                        assert(d@ != header_hash(new_block.header@)) by {
                            if d@ == header_hash(new_block.header@) {
                                lemma_digest_ext(d, hash);
                            }
                        }
                        assert(before.block_index.knows(d));
                        let h = before.block_index.header_of(d);
                        assert(before.links_to_predecessor(h));
                        let p = h.prev_block_digest;
                        if p == hash {
                            assert(before.header(p) is Some);
                        }
                    }
                }
                let gp = self.genesis_block.header.prev_block_digest;
                assert(self.header(gp) is None) by {
                    assert(gp != hash);
                    assert(gp@ != header_hash(new_block.header@)) by {
                        if gp@ == header_hash(new_block.header@) {
                            lemma_digest_ext(gp, hash);
                        }
                    }
                }
            }
        }
        r
    }

    /// The digests of the ancestors of the block with digest `d`, from its
    /// predecessor down, `count` of them at most: the walk ends where a
    /// block has no known predecessor.
    pub open spec fn ancestors(&self, d: Digest, count: nat) -> Seq<Digest>
        decreases count,
    {
        if count == 0 {
            Seq::empty()
        } else {
            match self.header(d) {
                None => Seq::empty(),
                Some(h) => if self.header(h.prev_block_digest) is Some {
                    seq![h.prev_block_digest] + self.ancestors(
                        h.prev_block_digest,
                        (count - 1) as nat,
                    )
                } else {
                    Seq::empty()
                },
            }
        }
    }

    /// Return a list of digests of the ancestors of the block with the given
    /// digest, which is not in the list. `count` is the greatest length of
    /// the list: where the block stands at height 2 and `count` is 5, the
    /// list holds the digests of block 1 and of the genesis block. For the
    /// genesis block the list is empty. The block has to be known: a digest
    /// that is neither in the catalog nor that of the genesis block is fatal.
    pub fn get_ancestor_block_digests(&self, block_digest: &Digest, count: usize) -> (r: Vec<Digest>)
        requires
            self.header(*block_digest) is Some,
        ensures
            r@ == self.ancestors(*block_digest, count as nat),
    {
        let input_block_header = match self.get_block_header(block_digest) {
            Some(h) => h,
            None => unreached(),
        };
        let mut parent_digest = input_block_header.prev_block_digest;
        let mut ret: Vec<Digest> = Vec::new();
        let mut remaining = count;
        let ghost mut current = *block_digest;
        while remaining > 0
            invariant
                self.header(*block_digest) is Some,
                self.header(current) matches Some(h) && h.prev_block_digest == parent_digest,
                ret@ + self.ancestors(current, remaining as nat) == self.ancestors(
                    *block_digest,
                    count as nat,
                ),
            decreases remaining,
        {
            match self.get_block_header(&parent_digest) {
                None => {
                    proof {
                        assert(self.ancestors(current, remaining as nat) =~= Seq::<
                            Digest,
                        >::empty());
                        assert(ret@ + Seq::<Digest>::empty() =~= ret@);
                    }
                    return ret;
                },
                Some(parent) => {
                    proof {
                        assert(ret@.push(parent_digest) + self.ancestors(
                            parent_digest,
                            (remaining - 1) as nat,
                        ) =~= ret@ + self.ancestors(current, remaining as nat));
                        current = parent_digest;
                    }
                    ret.push(parent_digest);
                    parent_digest = parent.prev_block_digest;
                    remaining -= 1;
                },
            }
        }
        proof {
            assert(ret@ + Seq::<Digest>::empty() =~= ret@);
        }
        ret
    }

    /// The height of the block with digest `d`, which is known.
    pub open spec fn height_of(&self, d: Digest) -> u64 {
        self.header(d)->0.height.0
    }
}

/// The ancestors of a known block are as many as were asked for, or as many
/// as the block has: its height. Each stands one below the one before it.
pub proof fn law_ancestors(state: &ArchivalState, d: Digest, count: nat)
    requires
        state.wf(),
        state.header(d) is Some,
    ensures
        state.ancestors(d, count).len() == if count <= state.height_of(d) {
            count
        } else {
            state.height_of(d) as nat
        },
        forall|i: int|
            0 <= i < state.ancestors(d, count).len() ==> state.header(
                #[trigger] state.ancestors(d, count)[i],
            ) is Some && state.height_of(state.ancestors(d, count)[i]) + 1 + i == state.height_of(d),
    decreases count,
{
    if count > 0 {
        let h = state.header(d)->0;
        let p = h.prev_block_digest;
        if state.block_index.knows(d) {
            assert(state.links_to_predecessor(state.block_index.header_of(d)));
            law_ancestors(state, p, (count - 1) as nat);
            let rest = state.ancestors(p, (count - 1) as nat);
            let all = state.ancestors(d, count);
            assert forall|i: int| 0 <= i < all.len() implies state.header(#[trigger] all[i]) is Some
                && state.height_of(all[i]) + 1 + i == state.height_of(d) by {
                if i > 0 {
                    assert(all[i] == rest[i - 1]);
                }
            }
        }
    }
}

/// The way down from a known block to one of its ancestors leads over the
/// ancestors in between: it is the block itself, followed by its ancestors
/// above the one that is aimed at, whatever number of steps at least as
/// great as their number is allowed.
pub proof fn law_path_down_to_ancestor(state: &ArchivalState, d: Digest, count: nat, steps: nat)
    requires
        state.wf(),
        state.header(d) is Some,
        1 <= count <= state.height_of(d),
        steps >= count,
    ensures
        state.ancestors(d, count).len() == count,
        state.path_down(d, state.ancestors(d, count).last(), steps) == Some(
            seq![d] + state.ancestors(d, count).drop_last(),
        ),
    decreases count,
{
    law_ancestors(state, d, count);
    let all = state.ancestors(d, count);
    let target = all.last();
    assert(state.height_of(target) + count == state.height_of(d));
    assert(state.block_index.knows(d));
    assert(state.links_to_predecessor(state.block_index.header_of(d)));
    let p = state.block_index.header_of(d).prev_block_digest;
    assert(d != target);
    assert(state.path_down(d, target, steps) == match state.path_down(
        p,
        target,
        (steps - 1) as nat,
    ) {
        Some(rest) => Some(seq![d] + rest),
        None => None,
    });
    let rest = state.ancestors(p, (count - 1) as nat);
    assert(all =~= seq![p] + rest);
    if count == 1 {
        assert(rest =~= Seq::<Digest>::empty());
        assert(target == p);
        assert(state.path_down(p, target, (steps - 1) as nat) == Some(Seq::<Digest>::empty()));
        assert(all.drop_last() =~= Seq::<Digest>::empty());
    } else {
        law_path_down_to_ancestor(state, p, (count - 1) as nat, (steps - 1) as nat);
        assert(all.last() == rest.last());
        assert(seq![p] + rest.drop_last() =~= all.drop_last());
    }
}

/// What rolling the mutator set back makes of it: as long as the block it
/// is synced to, `cursor`, is not `target`, the next of `blocks` has to be
/// that block, with the bits that it flipped on record, and is rolled back;
/// its predecessor is the next cursor. There is no result where a block or
/// a record is missing, or a block cannot be rolled back.
pub open spec fn rolled_back(
    state: (Seq<Digest>, Seq<Seq<u32>>, Seq<u32>),
    sync: &MsBlockSync,
    cursor: Digest,
    target: Digest,
    blocks: Seq<Block>,
) -> Option<(Seq<Digest>, Seq<Seq<u32>>, Seq<u32>)>
    decreases blocks.len(),
{
    if cursor == target {
        Some(state)
    } else if blocks.len() == 0 || blocks.first().hash != cursor {
        None
    } else {
        match sync.diff_of(cursor) {
            None => None,
            Some(diff) => match block_reverted(
                state,
                blocks.first().body.mutator_set_update.additions@,
                diff,
            ) {
                None => None,
                Some(reverted) => rolled_back(
                    reverted,
                    sync,
                    blocks.first().header.prev_block_digest,
                    target,
                    blocks.drop_first(),
                ),
            },
        }
    }
}

/// What each of the blocks does to the mutator set: its additions and its
/// removals.
pub open spec fn updates_of(chain: Seq<Block>) -> Seq<(Seq<AdditionRecord>, Seq<RemovalRecord>)> {
    Seq::new(
        chain.len(),
        |i: int|
            (
                chain[i].body.mutator_set_update.additions@,
                chain[i].body.mutator_set_update.removals@,
            ),
    )
}

/// Whether the blocks form a chain on the block with digest `base`, each
/// naming the one before it as its predecessor, and none of them is that
/// block.
pub open spec fn chain_on(base: Digest, chain: Seq<Block>) -> bool {
    forall|i: int|
        0 <= i < chain.len() ==> (#[trigger] chain[i]).hash != base
            && chain[i].header.prev_block_digest == if i == 0 {
            base
        } else {
            chain[i - 1].hash
        }
}

/// The block that a chain on the block with digest `base` ends in.
pub open spec fn end_of(base: Digest, chain: Seq<Block>) -> Digest {
    if chain.len() == 0 {
        base
    } else {
        chain.last().hash
    }
}

/// A fork rolls the chain back. Where the blocks of a chain on a block were
/// applied to the mutator set one after the other, each with the bits it
/// flipped on record, and each can be rolled back from the set as it left
/// it, the rollback from the end of the chain down to that block, over the
/// blocks of the chain from the last to the first, gives the set as it was
/// before the first of them: the leafs, the chunks and the window.
pub proof fn law_rollback_along_chain(
    state: (Seq<Digest>, Seq<Seq<u32>>, Seq<u32>),
    sync: &MsBlockSync,
    base: Digest,
    chain: Seq<Block>,
)
    requires
        state_wf(state),
        chain_on(base, chain),
        blocks_apply(state, updates_of(chain)),
        forall|i: int|
            0 <= i < chain.len() ==> sync.diff_of((#[trigger] chain[i]).hash) == Some(
                diffs_of_blocks(state, updates_of(chain))[i],
            ),
    ensures
        rolled_back(
            blocks_applied(state, updates_of(chain)),
            sync,
            end_of(base, chain),
            base,
            chain.reverse(),
        ) == Some(state),
    decreases chain.len(),
{
    if chain.len() > 0 {
        let earlier = chain.drop_last();
        let last = chain.last();
        let updates = updates_of(chain);
        assert(updates.drop_last() =~= updates_of(earlier));
        assert(updates.last() == (
            last.body.mutator_set_update.additions@,
            last.body.mutator_set_update.removals@,
        ));
        let before = blocks_applied(state, updates_of(earlier));
        law_rollback_undoes_blocks(state, updates_of(earlier));
        assert(chain_on(base, earlier)) by {
            assert forall|i: int| 0 <= i < earlier.len() implies (#[trigger] earlier[i]).hash
                != base && earlier[i].header.prev_block_digest == if i == 0 {
                base
            } else {
                earlier[i - 1].hash
            } by {
                assert(earlier[i] == chain[i]);
                if i > 0 {
                    assert(earlier[i - 1] == chain[i - 1]);
                }
            }
        }
        assert(diffs_of_blocks(state, updates).drop_last() =~= diffs_of_blocks(
            state,
            updates_of(earlier),
        ));
        assert forall|i: int| 0 <= i < earlier.len() implies sync.diff_of(
            (#[trigger] earlier[i]).hash,
        ) == Some(diffs_of_blocks(state, updates_of(earlier))[i]) by {
            assert(earlier[i] == chain[i]);
        }
        law_rollback_along_chain(state, sync, base, earlier);
        law_rollback_undoes_block(
            before,
            last.body.mutator_set_update.additions@,
            last.body.mutator_set_update.removals@,
        );
        let reversed = chain.reverse();
        assert(reversed.first() == last);
        assert(reversed.drop_first() =~= earlier.reverse());
        assert(chain[chain.len() - 1] == last);
        assert(last.header.prev_block_digest == end_of(base, earlier)) by {
            if earlier.len() > 0 {
                assert(earlier.last() == chain[chain.len() - 2]);
            }
        }
        assert(sync.diff_of(last.hash) == Some(
            diffs_of_blocks(state, updates)[chain.len() - 1],
        ));
    }
}

impl ArchivalState {
    /// The digests of the blocks of the catalog from `cursor` down to the
    /// one above `target`, each the predecessor of the one before it, in at
    /// most `steps` steps. There is none where the way down from `cursor`
    /// leaves the catalog, or takes more steps, before it comes to `target`.
    pub open spec fn path_down(&self, cursor: Digest, target: Digest, steps: nat) -> Option<
        Seq<Digest>,
    >
        decreases steps,
    {
        if cursor == target {
            Some(Seq::empty())
        } else if steps == 0 || !self.block_index.knows(cursor) {
            None
        } else {
            match self.path_down(
                self.block_index.header_of(cursor).prev_block_digest,
                target,
                (steps - 1) as nat,
            ) {
                Some(rest) => Some(seq![cursor] + rest),
                None => None,
            }
        }
    }

    /// The height of the block that the mutator set is synced to; zero
    /// where that block is not known.
    pub open spec fn synced_height(&self) -> u64 {
        match self.header(self.synced_to()) {
            Some(header) => header.height.0,
            None => 0,
        }
    }

    /// The digests of the blocks that have to be rolled back before
    /// `new_block` can be applied to the mutator set: from the block that
    /// the set is synced to down to the one above the predecessor of
    /// `new_block`. The caller reads these blocks and hands them to
    /// [`ArchivalState::update_mutator_set`]. There are none where the
    /// predecessor of `new_block` is no ancestor of the block that the set
    /// is synced to.
    pub fn get_rollback_digests(&self, new_block: &Block) -> (r: Option<Vec<Digest>>)
        ensures
            match r {
                Some(v) => Some(v@),
                None => None,
            } == self.path_down(
                self.synced_to(),
                new_block.header.prev_block_digest,
                self.synced_height() as nat,
            ),
    {
        let target = new_block.header.prev_block_digest;
        let mut cursor = match self.ms_block_sync.sync_digest {
            Some(d) => d,
            None => self.genesis_block.hash,
        };
        let mut steps: u64 = match self.get_block_header(&cursor) {
            Some(header) => header.height.0,
            None => 0,
        };
        let mut path: Vec<Digest> = Vec::new();
        let ghost whole = self.path_down(self.synced_to(), target, self.synced_height() as nat);
        loop
            invariant
                target == new_block.header.prev_block_digest,
                whole == self.path_down(self.synced_to(), target, self.synced_height() as nat),
                whole == match self.path_down(cursor, target, steps as nat) {
                    Some(rest) => Some(path@ + rest),
                    None => None,
                },
            decreases steps,
        {
            if cursor == target {
                proof {
                    assert(path@ + Seq::<Digest>::empty() =~= path@);
                }
                return Some(path);
            }
            if steps == 0 {
                return None;
            }
            match self.block_index.get_block_record(&cursor) {
                None => {
                    return None;
                },
                Some(record) => {
                    let ghost before = path@;
                    let ghost from = cursor;
                    path.push(cursor);
                    cursor = record.block_header.prev_block_digest;
                    steps = steps - 1;
                    proof {
                        match self.path_down(cursor, target, steps as nat) {
                            Some(rest) => {
                                assert(before + (seq![from] + rest) =~= path@ + rest);
                            },
                            None => {},
                        }
                    }
                },
            }
        }
    }

    /// The block that the mutator set is synced to: the one on record, or
    /// the genesis block.
    pub open spec fn synced_to(&self) -> Digest {
        match self.ms_block_sync.sync_digest {
            Some(d) => d,
            None => self.genesis_block.hash,
        }
    }

    /// What `update_mutator_set` makes of the mutator set, and the bits
    /// that the new block flips: the set is rolled back to the predecessor
    /// of the new block, the new block is applied, and the set has to be as
    /// the block says it is afterwards. There is no result where one of
    /// these steps fails.
    pub open spec fn updated(&self, new_block: Block, rollback_blocks: Seq<Block>) -> Option<
        ((Seq<Digest>, Seq<Seq<u32>>, Seq<u32>), Seq<u128>),
    > {
        match rolled_back(
            self.archival_mutator_set.state(),
            &self.ms_block_sync,
            self.synced_to(),
            new_block.header.prev_block_digest,
            rollback_blocks,
        ) {
            None => None,
            Some(state) => {
                let additions = new_block.body.mutator_set_update.additions@;
                let removals = new_block.body.mutator_set_update.removals@;
                let applied = block_applied(state, additions, removals);
                if block_applies(state, additions, removals) && commitment_of_state(applied.0)
                    == new_block.body.next_mutator_set_accumulator.set_commitment.commitment() {
                    Some(applied)
                } else {
                    None
                }
            },
        }
    }

    /// Update the mutator set with a block after this block has been stored.
    /// The block is taken to be the tip. Where the mutator set is synced to
    /// another block than the predecessor of the new one, it is rolled back
    /// first: `rollback_blocks` are the blocks to roll back, from the block
    /// that the set is synced to down to the one above the predecessor of
    /// the new block. Then the additions and the removals of the new block
    /// are applied, the commitment of the set is checked against the one
    /// that the block holds, and the block is recorded as the one that the
    /// set is synced to, together with the bits it flipped. Where a step
    /// fails, the state stays as it is.
    pub fn update_mutator_set(&mut self, new_block: &Block, rollback_blocks: &Vec<Block>) -> (r:
        Result<(), NodeError>)
        requires
            old(self).archival_mutator_set.wf(),
        ensures
            final(self).archival_mutator_set.wf(),
            final(self).block_index == old(self).block_index,
            final(self).genesis_block == old(self).genesis_block,
            final(self).max_block_file_size == old(self).max_block_file_size,
            match r {
                Ok(()) => {
                    &&& old(self).updated(*new_block, rollback_blocks@) matches Some(
                        (state, flipped),
                    )
                    &&& final(self).archival_mutator_set.state() == state
                    &&& final(self).archival_mutator_set.commitment()
                        == new_block.body.next_mutator_set_accumulator.set_commitment.commitment()
                    &&& final(self).ms_block_sync.sync_digest == Some(new_block.hash)
                    &&& final(self).ms_block_sync.diff_of(new_block.hash) == Some(flipped)
                    &&& forall|d: Digest|
                        d != new_block.hash ==> final(self).ms_block_sync.diff_of(d) == old(
                            self,
                        ).ms_block_sync.diff_of(d)
                },
                Err(_) => old(self).updated(*new_block, rollback_blocks@) is None && *final(self)
                    == *old(self),
            },
    {
        let mut work = self.archival_mutator_set.copy();
        let mut cursor = match self.ms_block_sync.sync_digest {
            Some(d) => d,
            None => self.genesis_block.hash,
        };
        let target = new_block.header.prev_block_digest;
        let mut i: usize = 0;
        proof {
            assert(rollback_blocks@.skip(0) =~= rollback_blocks@);
        }
        // as long as the mutator set is not synced with the predecessor, roll back
        while cursor != target
            invariant
                0 <= i <= rollback_blocks.len(),
                *self == *old(self),
                self.archival_mutator_set.wf(),
                work.wf(),
                target == new_block.header.prev_block_digest,
                rolled_back(
                    work.state(),
                    &self.ms_block_sync,
                    cursor,
                    target,
                    rollback_blocks@.skip(i as int),
                ) == rolled_back(
                    self.archival_mutator_set.state(),
                    &self.ms_block_sync,
                    self.synced_to(),
                    target,
                    rollback_blocks@,
                ),
            decreases rollback_blocks.len() - i,
        {
            if i >= rollback_blocks.len() {
                return Err(NodeError::CatalogMiss);
            }
            let roll_back_block = &rollback_blocks[i];
            proof {
                assert(rollback_blocks@.skip(i as int).first() == *roll_back_block);
                assert(rollback_blocks@.skip(i as int).drop_first() =~= rollback_blocks@.skip(
                    i + 1,
                ));
            }
            if roll_back_block.hash != cursor {
                return Err(NodeError::CorruptBlock);
            }
            let block_diff_indices = match self.ms_block_sync.get_diff(&cursor) {
                Some(diff) => diff,
                None => {
                    return Err(NodeError::CatalogMiss);
                },
            };
            match work.revert_block(
                &roll_back_block.body.mutator_set_update.additions,
                &block_diff_indices,
            ) {
                Ok(()) => {},
                Err(e) => {
                    return Err(e);
                },
            }
            cursor = roll_back_block.header.prev_block_digest;
            i += 1;
        }
        // add the outputs of the block to the mutator set, and remove its inputs
        let changed_indices = match work.apply_block(
            &new_block.body.mutator_set_update.additions,
            &new_block.body.mutator_set_update.removals,
        ) {
            Ok(flipped) => flipped,
            Err(e) => {
                return Err(e);
            },
        };
        // the mutator set has to be as the block says it is
        let expected = new_block.body.next_mutator_set_accumulator.set_commitment.get_commitment();
        let computed = work.get_commitment();
        if expected != computed {
            proof {
                if expected@ == computed@ {
                    lemma_digest_ext(expected, computed);
                }
            }
            return Err(NodeError::MutatorSetInvariantViolated);
        }
        self.archival_mutator_set = work;
        self.ms_block_sync.record(new_block.hash, changed_indices);
        Ok(())
    }
}

/// Whether the digests `v` hold `d`.
pub fn holds_digest(v: &Vec<Digest>, d: &Digest) -> (found: bool)
    ensures
        found == v@.contains(*d),
{
    let mut i: usize = 0;
    while i < v.len()
        invariant
            0 <= i <= v.len(),
            forall|j: int| 0 <= j < i ==> v@[j] != *d,
        decreases v.len() - i,
    {
        if v[i] == *d {
            return true;
        }
        i += 1;
    }
    false
}

impl ArchivalState {
    /// The digests of the children of all the blocks of a generation at
    /// height `h`, one block after the other.
    pub open spec fn children_of_all(&self, generation: Seq<Digest>, h: u64) -> Seq<Digest>
        decreases generation.len(),
    {
        if generation.len() == 0 {
            Seq::empty()
        } else {
            self.children_of_all(generation.drop_last(), h) + self.children_of(
                generation.last(),
                h,
            )
        }
    }

    /// The digest of the ancestor of the block with digest `d` that stands
    /// `steps` blocks below it, as far as predecessors are known.
    pub open spec fn ancestor(&self, d: Digest, steps: nat) -> Digest
        decreases steps,
    {
        if steps == 0 {
            d
        } else {
            match self.header(d) {
                Some(h) => self.ancestor(h.prev_block_digest, (steps - 1) as nat),
                None => d,
            }
        }
    }

    /// The walk down from a block towards the tip, one generation at a time:
    /// `offspring` are the descendants of the block at height `height`, and
    /// `previous` those one height below. As long as there are several
    /// descendants below the height of the tip, the walk goes on with their
    /// children. Then the block belongs to the chain of the tip where the
    /// tip is among the descendants; it does not where the height of the tip
    /// is reached without it, or where no descendant is left; and where one
    /// descendant is left, it does where that one is the only block at its
    /// height, or is the ancestor of the tip at that height.
    pub open spec fn descend(
        &self,
        previous: Seq<Digest>,
        offspring: Seq<Digest>,
        height: u64,
        tip: Digest,
        tip_height: u64,
    ) -> bool
        decreases tip_height - height,
    {
        if offspring.len() > 1 && height < tip_height {
            self.descend(
                offspring,
                self.children_of_all(offspring, height),
                (height + 1) as u64,
                tip,
                tip_height,
            )
        } else if previous.contains(tip) || offspring.contains(tip) {
            true
        } else if height >= tip_height || offspring.len() != 1 {
            false
        } else if self.block_index.digests_at(height).len() == 1 {
            true
        } else {
            self.ancestor(tip, (tip_height - height) as nat) == offspring[0]
        }
    }

    /// Whether the block with digest `block` and height `height` belongs to
    /// the chain that ends in the block with digest `tip` and height
    /// `tip_height`. It does where it is the only block known at its height
    /// and the tip is not below it; it does not where the tip is below it,
    /// or at its height and another block; else the walk down from the block
    /// decides.
    pub open spec fn canonical(&self, block: Digest, height: u64, tip: Digest, tip_height: u64) -> bool {
        if self.block_index.digests_at(height).len() == 1 && tip_height >= height {
            true
        } else if tip_height < height || (tip_height == height && tip != block) {
            false
        } else if height == u64::MAX {
            true
        } else {
            self.descend(
                seq![block],
                self.children_of(block, height),
                (height + 1) as u64,
                tip,
                tip_height,
            )
        }
    }

    /// Return a boolean indicating if the block with the header
    /// `block_header` belongs to the chain that ends in the tip with the
    /// header `tip_header`, which is known.
    pub fn block_belongs_to_canonical_chain(&self, block_header: &BlockHeader, tip_header: &BlockHeader) -> (b:
        bool)
        requires
            self.wf(),
            forall|t: Digest|
                #[trigger] t@ == header_hash(tip_header@) ==> self.header(t) == Some(tip_header@),
        ensures
            forall|c: Digest, t: Digest|
                #[trigger] c@ == header_hash(block_header@) && #[trigger] t@ == header_hash(
                    tip_header@,
                ) ==> b == self.canonical(c, block_header.height.0, t, tip_header.height.0),
    {
        let block = block_header.hash();
        let tip = tip_header.hash();
        proof {
            assert forall|c: Digest, t: Digest|
                #[trigger] c@ == header_hash(block_header@) && #[trigger] t@ == header_hash(
                    tip_header@,
                ) implies c == block && t == tip by {
                lemma_digest_ext(c, block);
                lemma_digest_ext(t, tip);
            }
            assert(tip@ == header_hash(tip_header@));
        }
        let block_height = block_header.height;
        let tip_height = tip_header.height.0;
        if self.block_index.block_height_to_block_count(block_height) == 1 && tip_height
            >= block_height.0 {
            return true;
        }
        if tip_height < block_height.0 || (tip_height == block_height.0 && tip != block) {
            return false;
        }
        if block_height.0 == u64::MAX {
            return true;
        }
        let mut previous_generation: Vec<Digest> = Vec::new();
        previous_generation.push(block);
        let mut offspring: Vec<Digest> = self.get_children_digests(&block, block_height);
        let mut height: u64 = block_height.0 + 1;
        proof {
            assert(previous_generation@ =~= seq![block]);
        }
        while offspring.len() > 1 && height < tip_height
            invariant
                self.wf(),
                height >= 1,
                self.header(tip) == Some(tip_header@),
                tip_height == tip_header.height.0,
                self.descend(previous_generation@, offspring@, height, tip, tip_height)
                    == self.canonical(block, block_header.height.0, tip, tip_height),
            decreases tip_height - height,
        {
            let mut next_generation: Vec<Digest> = Vec::new();
            let mut i: usize = 0;
            while i < offspring.len()
                invariant
                    0 <= i <= offspring.len(),
                    self.wf(),
                    next_generation@ == self.children_of_all(offspring@.take(i as int), height),
                decreases offspring.len() - i,
            {
                let mut children = self.get_children_digests(&offspring[i], BlockHeight(height));
                proof {
                    assert(offspring@.take(i + 1).drop_last() =~= offspring@.take(i as int));
                }
                next_generation.append(&mut children);
                i += 1;
            }
            proof {
                assert(offspring@.take(i as int) =~= offspring@);
            }
            previous_generation = offspring;
            offspring = next_generation;
            height = height + 1;
        }
        if holds_digest(&previous_generation, &tip) || holds_digest(&offspring, &tip) {
            return true;
        }
        if height >= tip_height || offspring.len() != 1 {
            return false;
        }
        if self.block_index.block_height_to_block_count(BlockHeight(height)) == 1 {
            return true;
        }
        // track backwards from the tip to the height of the one descendant
        let mut tip_ancestor = tip;
        let mut ancestor_height = tip_height;
        while ancestor_height > height
            invariant
                self.wf(),
                height >= 1,
                height <= ancestor_height <= tip_height,
                self.header(tip_ancestor) matches Some(h) && h.height.0 == ancestor_height,
                self.ancestor(tip_ancestor, (ancestor_height - height) as nat) == self.ancestor(
                    tip,
                    (tip_height - height) as nat,
                ),
            decreases ancestor_height,
        {
            proof {
                assert(self.block_index.knows(tip_ancestor));
                assert(self.links_to_predecessor(self.block_index.header_of(tip_ancestor)));
            }
            match self.get_block_header(&tip_ancestor) {
                Some(header) => {
                    tip_ancestor = header.prev_block_digest;
                },
                None => {
                    assert(false);
                },
            }
            ancestor_height = ancestor_height - 1;
        }
        tip_ancestor == offspring[0]
    }
}

/// The tip belongs to its own chain.
pub proof fn law_tip_is_canonical(state: &ArchivalState, tip: Digest, tip_height: u64)
    ensures
        state.canonical(tip, tip_height, tip, tip_height),
{
    if !(state.block_index.digests_at(tip_height).len() == 1) && tip_height < u64::MAX {
        assert(seq![tip].contains(tip)) by {
            assert(seq![tip][0] == tip);
        }
    }
}

/// The ancestor of a known block that stands `steps` below it, where the
/// block is that high, is known, and stands that much lower.
pub proof fn lemma_ancestor(state: &ArchivalState, d: Digest, steps: nat)
    requires
        state.wf(),
        state.header(d) is Some,
        steps <= state.height_of(d),
    ensures
        state.header(state.ancestor(d, steps)) is Some,
        state.height_of(state.ancestor(d, steps)) + steps == state.height_of(d),
        steps > 0 ==> state.ancestor(d, steps) == state.header(
            state.ancestor(d, (steps - 1) as nat),
        )->0.prev_block_digest,
    decreases steps,
{
    if steps > 0 {
        assert(state.block_index.knows(d));
        assert(state.links_to_predecessor(state.block_index.header_of(d)));
        let p = state.header(d)->0.prev_block_digest;
        lemma_ancestor(state, p, (steps - 1) as nat);
        if steps > 1 {
            lemma_ancestor(state, d, (steps - 1) as nat);
            lemma_ancestor_shift(state, d, (steps - 1) as nat);
        }
    }
}

/// To go one step down from the ancestor that stands `steps` below a block
/// is to go `steps` down from the predecessor of the block.
pub proof fn lemma_ancestor_shift(state: &ArchivalState, d: Digest, steps: nat)
    requires
        state.wf(),
        state.header(d) is Some,
        steps < state.height_of(d),
    ensures
        state.ancestor(d, steps + 1) == state.header(state.ancestor(d, steps))->0.prev_block_digest,
    decreases steps,
{
    assert(state.block_index.knows(d));
    assert(state.links_to_predecessor(state.block_index.header_of(d)));
    let p = state.header(d)->0.prev_block_digest;
    assert(state.ancestor(d, steps + 1) == state.ancestor(p, steps));
    if steps > 0 {
        assert(state.ancestor(d, steps) == state.ancestor(p, (steps - 1) as nat));
        lemma_ancestor_shift(state, p, (steps - 1) as nat);
    } else {
        assert(state.ancestor(p, 0) == p);
        assert(state.ancestor(d, 0) == d);
    }
}

/// A member of `digests` that names `parent` as its predecessor is among
/// the children.
pub proof fn lemma_child_is_among(index: &BlockIndex, digests: Seq<Digest>, parent: Digest, child: Digest)
    requires
        digests.contains(child),
        index.header_of(child).prev_block_digest == parent,
    ensures
        children_among(index, digests, parent).contains(child),
    decreases digests.len(),
{
    if digests.len() > 0 {
        let rest = digests.drop_last();
        let out = children_among(index, digests, parent);
        if digests.last() == child {
            assert(out[out.len() - 1] == child);
        } else {
            let k = choose|k: int| 0 <= k < digests.len() && digests[k] == child;
            assert(rest[k] == child);
            lemma_child_is_among(index, rest, parent, child);
            let inner = children_among(index, rest, parent);
            let m = choose|m: int| 0 <= m < inner.len() && inner[m] == child;
            assert(out[m] == child);
        }
    }
}

/// The children of a generation hold the children of each of its members,
/// and each of them is a known block one height up.
pub proof fn lemma_children_of_all(state: &ArchivalState, generation: Seq<Digest>, h: u64, parent: Digest, child: Digest)
    requires
        state.wf(),
        h < u64::MAX,
        generation.contains(parent),
        state.children_of(parent, h).contains(child),
    ensures
        state.children_of_all(generation, h).contains(child),
    decreases generation.len(),
{
    if generation.len() > 0 {
        let rest = generation.drop_last();
        let out = state.children_of_all(generation, h);
        let inner = state.children_of_all(rest, h);
        let tail = state.children_of(generation.last(), h);
        if generation.last() == parent {
            let m = choose|m: int| 0 <= m < tail.len() && tail[m] == child;
            assert(out[inner.len() + m] == child);
        } else {
            let k = choose|k: int| 0 <= k < generation.len() && generation[k] == parent;
            assert(rest[k] == parent);
            lemma_children_of_all(state, rest, h, parent, child);
            let m = choose|m: int| 0 <= m < inner.len() && inner[m] == child;
            assert(out[m] == child);
        }
    }
}

/// Every child of a generation is a known block one height up.
pub proof fn lemma_children_of_all_known(state: &ArchivalState, generation: Seq<Digest>, h: u64)
    requires
        state.wf(),
        h < u64::MAX,
    ensures
        forall|i: int|
            0 <= i < state.children_of_all(generation, h).len() ==> {
                let c = #[trigger] state.children_of_all(generation, h)[i];
                state.block_index.knows(c) && state.block_index.header_of(c).height.0 == h + 1
            },
    decreases generation.len(),
{
    if generation.len() > 0 {
        let rest = generation.drop_last();
        lemma_children_of_all_known(state, rest, h);
        let all = state.block_index.digests_at((h + 1) as u64);
        assert forall|i: int| 0 <= i < all.len() implies state.block_index.knows(
            #[trigger] all[i],
        ) by {
            assert(state.block_index.knows(state.block_index.digests_at((h + 1) as u64)[i]));
        }
        lemma_children_are_known(&state.block_index, all, generation.last());
        let out = state.children_of_all(generation, h);
        let inner = state.children_of_all(rest, h);
        let tail = state.children_of(generation.last(), h);
        assert forall|i: int| 0 <= i < out.len() implies {
            let c = #[trigger] out[i];
            state.block_index.knows(c) && state.block_index.header_of(c).height.0 == h + 1
        } by {
            if i >= inner.len() {
                let c = tail[i - inner.len()];
                assert(all.contains(c));
                let k = choose|k: int| 0 <= k < all.len() && all[k] == c;
                assert(state.block_index.header_of(
                    state.block_index.digests_at((h + 1) as u64)[k],
                ).height.0 == h + 1);
            }
        }
    }
}

/// The walk down from a block finds the tip where the ancestor of the tip
/// at each height is among the descendants.
pub proof fn lemma_descend_finds_tip(
    state: &ArchivalState,
    previous: Seq<Digest>,
    offspring: Seq<Digest>,
    height: u64,
    tip: Digest,
    tip_height: u64,
)
    requires
        state.wf(),
        1 <= height <= tip_height,
        state.header(tip) is Some,
        state.height_of(tip) == tip_height,
        offspring.contains(state.ancestor(tip, (tip_height - height) as nat)),
    ensures
        state.descend(previous, offspring, height, tip, tip_height),
    decreases tip_height - height,
{
    let a = state.ancestor(tip, (tip_height - height) as nat);
    lemma_ancestor(state, tip, (tip_height - height) as nat);
    if offspring.len() > 1 && height < tip_height {
        let steps = (tip_height - height - 1) as nat;
        let child = state.ancestor(tip, steps);
        lemma_ancestor(state, tip, steps);
        lemma_ancestor_shift(state, tip, steps);
        assert(state.block_index.knows(child));
        assert(state.block_index.header_of(child).prev_block_digest == a);
        assert(state.block_index.digests_at(state.block_index.header_of(child).height.0).contains(
            child,
        ));
        lemma_child_is_among(
            &state.block_index,
            state.block_index.digests_at((height + 1) as u64),
            a,
            child,
        );
        lemma_children_of_all(state, offspring, height, a, child);
        lemma_descend_finds_tip(
            state,
            offspring,
            state.children_of_all(offspring, height),
            (height + 1) as u64,
            tip,
            tip_height,
        );
    } else if previous.contains(tip) || offspring.contains(tip) {
    } else {
        if height == tip_height {
            assert(a == tip);
        } else {
            assert(offspring.len() == 1) by {
                let k = choose|k: int| 0 <= k < offspring.len() && offspring[k] == a;
            }
            let k = choose|k: int| 0 <= k < offspring.len() && offspring[k] == a;
            assert(offspring[0] == a);
        }
    }
}

/// The genesis block belongs to the chain of every known tip.
pub proof fn law_genesis_is_canonical(state: &ArchivalState, tip: Digest)
    requires
        state.wf(),
        state.header(tip) is Some,
    ensures
        state.canonical(state.genesis_block.hash, 0, tip, state.height_of(tip)),
{
    let g = state.genesis_block.hash;
    let th = state.height_of(tip);
    if state.block_index.digests_at(0).len() == 1 {
    } else if th == 0 {
        if state.block_index.knows(tip) {
            assert(state.links_to_predecessor(state.block_index.header_of(tip)));
        }
        assert(tip == g);
        assert(seq![g].contains(tip)) by {
            assert(seq![g][0] == tip);
        }
    } else {
        let steps = (th - 1) as nat;
        let first = state.ancestor(tip, steps);
        lemma_ancestor(state, tip, steps);
        assert(state.block_index.knows(first)) by {
            if !state.block_index.knows(first) {
                assert(first == g);
            }
        }
        assert(state.links_to_predecessor(state.block_index.header_of(first)));
        let p = state.block_index.header_of(first).prev_block_digest;
        assert(p == g) by {
            if state.block_index.knows(p) {
                assert(state.links_to_predecessor(state.block_index.header_of(p)));
            }
        }
        assert(state.block_index.digests_at(state.block_index.header_of(first).height.0).contains(
            first,
        ));
        lemma_child_is_among(&state.block_index, state.block_index.digests_at(1), g, first);
        lemma_descend_finds_tip(state, seq![g], state.children_of(g, 0), 1, tip, th);
    }
}

/// The children among known blocks are known blocks.
pub proof fn lemma_children_are_known(index: &BlockIndex, digests: Seq<Digest>, parent: Digest)
    requires
        forall|i: int| 0 <= i < digests.len() ==> index.knows(#[trigger] digests[i]),
    ensures
        forall|i: int|
            0 <= i < children_among(index, digests, parent).len() ==> {
                let c = #[trigger] children_among(index, digests, parent)[i];
                index.knows(c) && index.header_of(c).prev_block_digest == parent
                    && digests.contains(c)
            },
    decreases digests.len(),
{
    if digests.len() > 0 {
        let rest = digests.drop_last();
        assert forall|i: int| 0 <= i < rest.len() implies index.knows(#[trigger] rest[i]) by {
            assert(rest[i] == digests[i]);
        }
        lemma_children_are_known(index, rest, parent);
        let out = children_among(index, digests, parent);
        assert forall|i: int| 0 <= i < out.len() implies {
            let c = #[trigger] out[i];
            index.knows(c) && index.header_of(c).prev_block_digest == parent && digests.contains(c)
        } by {
            let inner = children_among(index, rest, parent);
            if i < inner.len() {
                let c = inner[i];
                assert(rest.contains(c));
                let k = choose|k: int| 0 <= k < rest.len() && rest[k] == c;
                assert(digests[k] == c);
            } else {
                assert(out[i] == digests[digests.len() - 1]);
            }
        }
    }
}

/// A fork is applied to the mutator set as it was before the chain that it
/// leaves behind. Where the mutator set is synced to the end of a chain on
/// a block, after the blocks of the chain were applied one after the other
/// and recorded, a block that names that block as its predecessor takes the
/// set back to what it was before the chain, and is applied to that.
pub proof fn law_fork_is_applied_before_the_chain(
    archival_state: &ArchivalState,
    before: (Seq<Digest>, Seq<Seq<u32>>, Seq<u32>),
    chain: Seq<Block>,
    fork: Block,
)
    requires
        state_wf(before),
        chain_on(fork.header.prev_block_digest, chain),
        blocks_apply(before, updates_of(chain)),
        archival_state.archival_mutator_set.state() == blocks_applied(before, updates_of(chain)),
        archival_state.synced_to() == end_of(fork.header.prev_block_digest, chain),
        forall|i: int|
            0 <= i < chain.len() ==> archival_state.ms_block_sync.diff_of(
                (#[trigger] chain[i]).hash,
            ) == Some(diffs_of_blocks(before, updates_of(chain))[i]),
    ensures
        archival_state.updated(fork, chain.reverse()) == if block_applies(
            before,
            fork.body.mutator_set_update.additions@,
            fork.body.mutator_set_update.removals@,
        ) && commitment_of_state(
            block_applied(
                before,
                fork.body.mutator_set_update.additions@,
                fork.body.mutator_set_update.removals@,
            ).0,
        ) == fork.body.next_mutator_set_accumulator.set_commitment.commitment() {
            Some(
                block_applied(
                    before,
                    fork.body.mutator_set_update.additions@,
                    fork.body.mutator_set_update.removals@,
                ),
            )
        } else {
            None
        },
{
    law_rollback_along_chain(
        before,
        &archival_state.ms_block_sync,
        fork.header.prev_block_digest,
        chain,
    );
}

} // verus!
