//! The catalog of the archival block store: where each block lies on disk,
//! which blocks are known at each height, and which block is the tip.
//!
//! The library holds the catalog in memory and decides what goes where; the
//! files and the persistent table are the business of the caller, who learns
//! from the results of these functions what to write.

use crate::block::{header_hash, BlockHeader, BlockHeaderView};
use crate::block_height::BlockHeight;
use crate::difficulty::ProofOfWork;
use crate::digest::{lemma_digest_ext, Digest};
use crate::error::NodeError;
use crate::mmr::copy_digests;
use vstd::prelude::*;

verus! {

/// Where a block lies on disk: the file, the offset in it, and the length.
#[derive(Debug, Clone, Copy, PartialEq, Eq, Structural)]
pub struct BlockFileLocation {
    pub file_index: u32,
    pub offset: u64,
    pub block_length: usize,
}

/// What the catalog holds of a block: its header and where it lies on disk.
#[derive(Debug)]
pub struct BlockRecord {
    pub block_header: BlockHeader,
    pub file_location: BlockFileLocation,
}

impl BlockRecord {
    /// A copy of the record.
    pub fn copy(&self) -> (r: Self)
        ensures
            r.block_header@ == self.block_header@,
            r.file_location == self.file_location,
    {
        BlockRecord { block_header: self.block_header.copy(), file_location: self.file_location }
    }
}

/// What the catalog holds of a block file: how many blocks it holds, how
/// long it is, and between which heights its blocks lie.
#[derive(Debug, Clone, Copy, PartialEq, Eq, Structural)]
pub struct FileRecord {
    pub blocks_in_file_count: u32,
    pub file_size: u64,
    pub min_block_height: BlockHeight,
    pub max_block_height: BlockHeight,
}

impl FileRecord {
    /// The record of a file that holds one block.
    pub fn new(block_size: u64, block_header: &BlockHeader) -> (r: Self)
        ensures
            r == (FileRecord {
                blocks_in_file_count: 1,
                file_size: block_size,
                min_block_height: block_header.height,
                max_block_height: block_header.height,
            }),
    {
        FileRecord {
            blocks_in_file_count: 1,
            file_size: block_size,
            min_block_height: block_header.height,
            max_block_height: block_header.height,
        }
    }

    /// The record of the file after one more block was appended to it, or
    /// nothing where a count would not fit.
    pub fn add(&self, block_size: u64, block_header: &BlockHeader) -> (r: Option<Self>)
        ensures
            r is Some <==> self.blocks_in_file_count < u32::MAX && self.file_size + block_size
                <= u64::MAX,
            r matches Some(record) ==> record == self.with_block(block_size, block_header.height),
    {
        if self.blocks_in_file_count == u32::MAX {
            return None;
        }
        match self.file_size.checked_add(block_size) {
            None => None,
            Some(file_size) => Some(
                FileRecord {
                    blocks_in_file_count: self.blocks_in_file_count + 1,
                    file_size,
                    min_block_height: if block_header.height.0 < self.min_block_height.0 {
                        block_header.height
                    } else {
                        self.min_block_height
                    },
                    max_block_height: if block_header.height.0 > self.max_block_height.0 {
                        block_header.height
                    } else {
                        self.max_block_height
                    },
                },
            ),
        }
    }

    /// The record of the file with one more block of the given size and
    /// height.
    pub open spec fn with_block(self, block_size: u64, height: BlockHeight) -> FileRecord {
        FileRecord {
            blocks_in_file_count: (self.blocks_in_file_count + 1) as u32,
            file_size: (self.file_size + block_size) as u64,
            min_block_height: if height.0 < self.min_block_height.0 {
                height
            } else {
                self.min_block_height
            },
            max_block_height: if height.0 > self.max_block_height.0 {
                height
            } else {
                self.max_block_height
            },
        }
    }
}

/// The file that blocks are appended to.
#[derive(Debug, Clone, Copy, PartialEq, Eq, Structural)]
pub struct LastFileRecord {
    pub last_file: u32,
}

impl Default for LastFileRecord {
    fn default() -> (r: Self)
        ensures
            r.last_file == 0,
    {
        LastFileRecord { last_file: 0 }
    }
}

/// Whether a block file of length `file_size` is too full to take a block
/// of length `block_size` when files are capped at `max_file_size`.
pub fn new_block_file_is_needed(file_size: u64, block_size: u64, max_file_size: u64) -> (b: bool)
    ensures
        b == (file_size + block_size > max_file_size),
{
    match file_size.checked_add(block_size) {
        None => true,
        Some(total) => total > max_file_size,
    }
}

/// Where the block with digest `d` was last recorded among `blocks`, or -1
/// where it was not.
pub open spec fn block_position(blocks: Seq<(Digest, BlockRecord)>, d: Digest) -> int
    decreases blocks.len(),
{
    if blocks.len() == 0 {
        -1
    } else if blocks.last().0 == d {
        blocks.len() - 1
    } else {
        block_position(blocks.drop_last(), d)
    }
}

/// Where the digests at height `h` were last recorded among `heights`, or -1
/// where they were not.
pub open spec fn height_position(heights: Seq<(BlockHeight, Vec<Digest>)>, h: u64) -> int
    decreases heights.len(),
{
    if heights.len() == 0 {
        -1
    } else if heights.last().0.0 == h {
        heights.len() - 1
    } else {
        height_position(heights.drop_last(), h)
    }
}

/// Where file `n` was last recorded among `files`, or -1 where it was not.
pub open spec fn file_position(files: Seq<(u32, FileRecord)>, n: u32) -> int
    decreases files.len(),
{
    if files.len() == 0 {
        -1
    } else if files.last().0 == n {
        files.len() - 1
    } else {
        file_position(files.drop_last(), n)
    }
}

/// A position that is found holds what was looked for.
pub proof fn lemma_block_position(blocks: Seq<(Digest, BlockRecord)>, d: Digest)
    ensures
        -1 <= block_position(blocks, d) < blocks.len(),
        block_position(blocks, d) >= 0 ==> blocks[block_position(blocks, d)].0 == d,
        block_position(blocks, d) == -1 ==> forall|i: int|
            0 <= i < blocks.len() ==> (#[trigger] blocks[i]).0 != d,
    decreases blocks.len(),
{
    if blocks.len() > 0 {
        lemma_block_position(blocks.drop_last(), d);
        if blocks.last().0 != d && block_position(blocks, d) == -1 {
            assert forall|i: int| 0 <= i < blocks.len() implies (#[trigger] blocks[i]).0 != d by {
                if i < blocks.len() - 1 {
                    assert(blocks.drop_last()[i].0 != d);
                }
            }
        }
    }
}

/// A position that is found holds what was looked for.
pub proof fn lemma_height_position(heights: Seq<(BlockHeight, Vec<Digest>)>, h: u64)
    ensures
        -1 <= height_position(heights, h) < heights.len(),
        height_position(heights, h) >= 0 ==> heights[height_position(heights, h)].0.0 == h,
    decreases heights.len(),
{
    if heights.len() > 0 {
        lemma_height_position(heights.drop_last(), h);
    }
}

/// A position that is found holds what was looked for.
pub proof fn lemma_file_position(files: Seq<(u32, FileRecord)>, n: u32)
    ensures
        -1 <= file_position(files, n) < files.len(),
        file_position(files, n) >= 0 ==> files[file_position(files, n)].0 == n,
    decreases files.len(),
{
    if files.len() > 0 {
        lemma_file_position(files.drop_last(), n);
    }
}

/// What is recorded at a height after the record at position `i`, which is
/// the one that is found for its height, was replaced by one for the same
/// height.
pub proof fn lemma_height_update(
    heights: Seq<(BlockHeight, Vec<Digest>)>,
    i: int,
    entry: (BlockHeight, Vec<Digest>),
    h: u64,
)
    requires
        0 <= i < heights.len(),
        heights[i].0.0 == entry.0.0,
        height_position(heights, entry.0.0) == i,
    ensures
        height_position(heights.update(i, entry), h) == height_position(heights, h),
    decreases heights.len(),
{
    let updated = heights.update(i, entry);
    if i == heights.len() - 1 {
        assert(updated.drop_last() =~= heights.drop_last());
    } else {
        assert(updated.drop_last() =~= heights.drop_last().update(i, entry));
        assert(heights.last().0.0 != entry.0.0);
        lemma_height_update(heights.drop_last(), i, entry, h);
    }
}

/// What is recorded for a file after the record at position `i`, which is
/// the one that is found for its file, was replaced by one for the same
/// file.
pub proof fn lemma_file_update(files: Seq<(u32, FileRecord)>, i: int, entry: (u32, FileRecord), n: u32)
    requires
        0 <= i < files.len(),
        files[i].0 == entry.0,
        file_position(files, entry.0) == i,
    ensures
        file_position(files.update(i, entry), n) == file_position(files, n),
    decreases files.len(),
{
    let updated = files.update(i, entry);
    if i == files.len() - 1 {
        assert(updated.drop_last() =~= files.drop_last());
    } else {
        assert(updated.drop_last() =~= files.drop_last().update(i, entry));
        assert(files.last().0 != entry.0);
        lemma_file_update(files.drop_last(), i, entry, n);
    }
}

/// The catalog of the block store.
#[derive(Debug)]
pub struct BlockIndex {
    /// The record of each block, under its digest.
    pub blocks: Vec<(Digest, BlockRecord)>,
    /// The record of each block file, under its number.
    pub files: Vec<(u32, FileRecord)>,
    /// The digests of the blocks that are known at each height.
    pub heights: Vec<(BlockHeight, Vec<Digest>)>,
    /// The file that blocks are appended to.
    pub last_file: Option<LastFileRecord>,
    /// The digest of the tip: the block with the most proof-of-work.
    pub tip: Option<Digest>,
}

impl BlockIndex {
    /// Whether the catalog holds a block with digest `d`.
    pub open spec fn knows(&self, d: Digest) -> bool {
        block_position(self.blocks@, d) >= 0
    }

    /// The header of the block with digest `d`.
    pub open spec fn header_of(&self, d: Digest) -> BlockHeaderView {
        self.blocks@[block_position(self.blocks@, d)].1.block_header@
    }

    /// Where the block with digest `d` lies on disk.
    pub open spec fn location_of(&self, d: Digest) -> BlockFileLocation {
        self.blocks@[block_position(self.blocks@, d)].1.file_location
    }

    /// The digests of the blocks that are known at height `h`, in the order
    /// in which they were written.
    pub open spec fn digests_at(&self, h: u64) -> Seq<Digest> {
        if height_position(self.heights@, h) >= 0 {
            self.heights@[height_position(self.heights@, h)].1@
        } else {
            Seq::empty()
        }
    }

    /// The record of file `n`, if there is one.
    pub open spec fn file_record(&self, n: u32) -> Option<FileRecord> {
        if file_position(self.files@, n) >= 0 {
            Some(self.files@[file_position(self.files@, n)].1)
        } else {
            None
        }
    }

    /// The invariant of the catalog: a block is recorded under the hash of
    /// its header, the digests recorded at a height are those of the blocks
    /// with that height, each once, and the tip is a block of the catalog.
    pub open spec fn wf(&self) -> bool {
        &&& forall|i: int|
            0 <= i < self.blocks@.len() ==> (#[trigger] self.blocks@[i]).0@ == header_hash(
                self.blocks@[i].1.block_header@,
            )
        &&& forall|d: Digest|
            self.knows(d) ==> self.digests_at(#[trigger] self.header_of(d).height.0).contains(d)
        &&& forall|h: u64, k: int|
            0 <= k < self.digests_at(h).len() ==> self.knows(#[trigger] self.digests_at(h)[k])
                && self.header_of(self.digests_at(h)[k]).height.0 == h
        &&& forall|h: u64, k: int, m: int|
            0 <= k < m < self.digests_at(h).len() ==> #[trigger] self.digests_at(h)[k]
                != #[trigger] self.digests_at(h)[m]
        &&& self.tip matches Some(tip) ==> self.knows(tip)
    }

    /// Whether the catalog holds nothing: no block, no file, no tip.
    pub open spec fn is_empty(&self) -> bool {
        &&& self.tip is None
        &&& self.last_file is None
        &&& forall|h: u64| self.digests_at(h).len() == 0
        &&& forall|d: Digest| !self.knows(d)
        &&& forall|n: u32| self.file_record(n) is None
    }

    /// The empty catalog: no record of a block, of a file, or of a height,
    /// no file that blocks are appended to, and no tip.
    pub fn new() -> (index: Self)
        ensures
            index.wf(),
            index.is_empty(),
            index.blocks@.len() == 0,
            index.files@.len() == 0,
            index.heights@.len() == 0,
    {
        BlockIndex {
            blocks: Vec::new(),
            files: Vec::new(),
            heights: Vec::new(),
            last_file: None,
            tip: None,
        }
    }

    /// Where the block with digest `d` stands in the list of blocks.
    pub fn find_block(&self, d: &Digest) -> (p: Option<usize>)
        ensures
            p is Some <==> self.knows(*d),
            p matches Some(i) ==> i == block_position(self.blocks@, *d) && i < self.blocks@.len(),
    {
        let mut i: usize = self.blocks.len();
        proof {
            assert(self.blocks@.take(i as int) =~= self.blocks@);
        }
        while i > 0
            invariant
                0 <= i <= self.blocks.len(),
                block_position(self.blocks@, *d) == block_position(self.blocks@.take(i as int), *d),
            decreases i,
        {
            proof {
                assert(self.blocks@.take(i as int).drop_last() =~= self.blocks@.take(i - 1));
            }
            i -= 1;
            if self.blocks[i].0 == *d {
                return Some(i);
            }
        }
        None
    }

    /// Where the digests at height `h` stand in the list of heights.
    pub fn find_height(&self, h: u64) -> (p: Option<usize>)
        ensures
            p is Some <==> height_position(self.heights@, h) >= 0,
            p matches Some(i) ==> i == height_position(self.heights@, h) && i
                < self.heights@.len(),
    {
        let mut i: usize = self.heights.len();
        proof {
            assert(self.heights@.take(i as int) =~= self.heights@);
        }
        while i > 0
            invariant
                0 <= i <= self.heights.len(),
                height_position(self.heights@, h) == height_position(
                    self.heights@.take(i as int),
                    h,
                ),
            decreases i,
        {
            proof {
                assert(self.heights@.take(i as int).drop_last() =~= self.heights@.take(i - 1));
            }
            i -= 1;
            if self.heights[i].0.0 == h {
                return Some(i);
            }
        }
        None
    }

    /// Where the record of file `n` stands in the list of files.
    pub fn find_file(&self, n: u32) -> (p: Option<usize>)
        ensures
            p is Some <==> file_position(self.files@, n) >= 0,
            p matches Some(i) ==> i == file_position(self.files@, n) && i < self.files@.len(),
    {
        let mut i: usize = self.files.len();
        proof {
            assert(self.files@.take(i as int) =~= self.files@);
        }
        while i > 0
            invariant
                0 <= i <= self.files.len(),
                file_position(self.files@, n) == file_position(self.files@.take(i as int), n),
            decreases i,
        {
            proof {
                assert(self.files@.take(i as int).drop_last() =~= self.files@.take(i - 1));
            }
            i -= 1;
            if self.files[i].0 == n {
                return Some(i);
            }
        }
        None
    }

    /// The record of the block with digest `d`, if the catalog holds it.
    pub fn get_block_record(&self, d: &Digest) -> (r: Option<BlockRecord>)
        ensures
            r is Some <==> self.knows(*d),
            r matches Some(record) ==> record.block_header@ == self.header_of(*d)
                && record.file_location == self.location_of(*d),
    {
        match self.find_block(d) {
            Some(i) => Some(self.blocks[i].1.copy()),
            None => None,
        }
    }

    /// The number of blocks that are known at height `height`.
    pub fn block_height_to_block_count(&self, height: BlockHeight) -> (n: usize)
        ensures
            n == self.digests_at(height.0).len(),
    {
        match self.find_height(height.0) {
            Some(i) => self.heights[i].1.len(),
            None => 0,
        }
    }

    /// The digests of the blocks that are known at height `height`.
    pub fn block_height_to_block_digests(&self, height: BlockHeight) -> (v: Vec<Digest>)
        ensures
            v@ == self.digests_at(height.0),
    {
        match self.find_height(height.0) {
            Some(i) => copy_digests(&self.heights[i].1),
            None => Vec::new(),
        }
    }

    /// The file that takes the next block of length `block_size`, and the
    /// offset in it, where the file that blocks are appended to is
    /// `last_file_size` long and files are capped at `max_file_size`: the
    /// same file at its end, or the next file at its start. There is none
    /// where the files cannot be counted further.
    pub open spec fn next_location(
        &self,
        block_size: usize,
        last_file_size: u64,
        max_file_size: u64,
    ) -> Option<BlockFileLocation> {
        let last = match self.last_file {
            Some(rec) => rec.last_file,
            None => 0,
        };
        if last_file_size + block_size > max_file_size {
            if last < u32::MAX {
                Some(
                    BlockFileLocation {
                        file_index: (last + 1) as u32,
                        offset: 0,
                        block_length: block_size,
                    },
                )
            } else {
                None
            }
        } else {
            Some(
                BlockFileLocation {
                    file_index: last,
                    offset: last_file_size,
                    block_length: block_size,
                },
            )
        }
    }

    /// The record of the file at `location` once the block is in it. There
    /// is none where a count would not fit, or where the block goes to the
    /// end of a file that has a length and no record.
    pub open spec fn next_file_record(&self, location: BlockFileLocation, height: BlockHeight) -> Option<
        FileRecord,
    > {
        match self.file_record(location.file_index) {
            Some(record) => if record.blocks_in_file_count < u32::MAX && record.file_size
                + location.block_length <= u64::MAX {
                Some(record.with_block(location.block_length as u64, height))
            } else {
                None
            },
            None => if location.offset == 0 {
                Some(
                    FileRecord {
                        blocks_in_file_count: 1,
                        file_size: location.block_length as u64,
                        min_block_height: height,
                        max_block_height: height,
                    },
                )
            } else {
                None
            },
        }
    }

    /// Whether a block with the given header can be written: it is not in
    /// the catalog yet, there is a place for it, and its file can be
    /// recorded.
    pub open spec fn can_write(
        &self,
        header: BlockHeaderView,
        block_size: usize,
        last_file_size: u64,
        max_file_size: u64,
    ) -> bool {
        &&& forall|d: Digest| d@ == header_hash(header) ==> !self.knows(d)
        &&& self.next_location(block_size, last_file_size, max_file_size) matches Some(location)
        &&& self.next_file_record(location, header.height) is Some
    }

    /// What writing a block with the given header at `location` makes of
    /// the catalog, `after` being the catalog after it: the file of the
    /// block is the one that blocks are appended to and counts the block;
    /// the block is recorded under its digest with its header and its
    /// location, and is the last of the blocks at its height; it is the tip
    /// unless `current_max_pow_family` is at least its proof-of-work family;
    /// and all else is as it was.
    pub open spec fn written(
        &self,
        after: BlockIndex,
        header: BlockHeaderView,
        location: BlockFileLocation,
        current_max_pow_family: Option<ProofOfWork>,
    ) -> bool {
        &&& after.last_file == Some(LastFileRecord { last_file: location.file_index })
        &&& after.file_record(location.file_index) == self.next_file_record(
            location,
            header.height,
        )
        &&& forall|n: u32|
            n != location.file_index ==> after.file_record(n) == self.file_record(n)
        &&& forall|d: Digest|
            d@ == header_hash(header) ==> {
                &&& after.knows(d)
                &&& after.header_of(d) == header
                &&& after.location_of(d) == location
                &&& after.digests_at(header.height.0) == self.digests_at(header.height.0).push(d)
                &&& after.tip == if current_max_pow_family matches Some(most) && most.value()
                    >= header.proof_of_work_family.value() {
                    self.tip
                } else {
                    Some(d)
                }
            }
        &&& forall|d: Digest|
            d@ != header_hash(header) ==> after.knows(d) == self.knows(d) && (self.knows(d)
                ==> after.header_of(d) == self.header_of(d) && after.location_of(d)
                == self.location_of(d))
        &&& forall|h: u64| h != header.height.0 ==> after.digests_at(h) == self.digests_at(h)
    }

    /// Record a block that is about to be written to disk. The block goes
    /// to the end of the file that blocks are appended to, or, where that
    /// file is too full, to the start of the next one. The catalog takes the
    /// record of the block under its digest, counts the block in the record
    /// of its file, lists its digest among the blocks of its height, and
    /// makes it the tip where its proof-of-work family is above
    /// `current_max_pow_family`, or where there is none to compare with.
    /// Returns where the block has to be written.
    pub fn write_block(
        &mut self,
        block_header: &BlockHeader,
        serialized_block_size: usize,
        last_file_size: u64,
        max_file_size: u64,
        current_max_pow_family: Option<ProofOfWork>,
    ) -> (r: Result<BlockFileLocation, NodeError>)
        requires
            old(self).wf(),
        ensures
            final(self).wf(),
            r is Ok <==> old(self).can_write(
                block_header@,
                serialized_block_size,
                last_file_size,
                max_file_size,
            ),
            r is Err ==> *final(self) == *old(self),
            r matches Ok(location) ==> {
                &&& Some(location) == old(self).next_location(
                    serialized_block_size,
                    last_file_size,
                    max_file_size,
                )
                &&& old(self).written(*final(self), block_header@, location, current_max_pow_family)
            },
    {
        let hash = block_header.hash();
        proof {
            assert forall|d: Digest| d@ == header_hash(block_header@) implies d == hash by {
                lemma_digest_ext(d, hash);
            }
        }
        if self.find_block(&hash).is_some() {
            return Err(NodeError::ProtocolViolation);
        }
        let mut last_rec = self.get_last_file();
        let mut offset = last_file_size;
        if new_block_file_is_needed(last_file_size, serialized_block_size as u64, max_file_size) {
            if last_rec.last_file == u32::MAX {
                return Err(NodeError::CapacityExceeded);
            }
            last_rec = LastFileRecord { last_file: last_rec.last_file + 1 };
            offset = 0;
        }
        let location = BlockFileLocation {
            file_index: last_rec.last_file,
            offset,
            block_length: serialized_block_size,
        };
        let found_file = self.find_file(last_rec.last_file);
        let file_record_value: FileRecord = match found_file {
            Some(i) => match self.files[i].1.add(serialized_block_size as u64, block_header) {
                Some(record) => record,
                None => {
                    return Err(NodeError::CapacityExceeded);
                },
            },
            None => {
                if offset != 0 {
                    return Err(NodeError::CatalogMiss);
                }
                FileRecord::new(serialized_block_size as u64, block_header)
            },
        };
        let ghost before = *self;
        // the record of the file
        match found_file {
            Some(i) => {
                proof {
                    lemma_file_position(self.files@, last_rec.last_file);
                    assert forall|n: u32| file_position(
                        self.files@.update(i as int, (last_rec.last_file, file_record_value)),
                        n,
                    ) == file_position(self.files@, n) by {
                        lemma_file_update(
                            self.files@,
                            i as int,
                            (last_rec.last_file, file_record_value),
                            n,
                        );
                    }
                }
                self.files[i] = (last_rec.last_file, file_record_value);
            },
            None => {
                proof {
                    assert(self.files@.push((last_rec.last_file, file_record_value)).drop_last()
                        =~= self.files@);
                }
                self.files.push((last_rec.last_file, file_record_value));
            },
        }
        // the record of the block
        let block_record = BlockRecord {
            block_header: block_header.copy(),
            file_location: location,
        };
        proof {
            assert(self.blocks@.push((hash, block_record)).drop_last() =~= self.blocks@);
        }
        self.blocks.push((hash, block_record));
        // the blocks at the same height
        match self.find_height(block_header.height.0) {
            Some(i) => {
                let mut blocks_at_same_height = copy_digests(&self.heights[i].1);
                blocks_at_same_height.push(hash);
                proof {
                    lemma_height_position(self.heights@, block_header.height.0);
                    assert forall|h: u64| height_position(
                        self.heights@.update(
                            i as int,
                            (block_header.height, blocks_at_same_height),
                        ),
                        h,
                    ) == height_position(self.heights@, h) by {
                        lemma_height_update(
                            self.heights@,
                            i as int,
                            (block_header.height, blocks_at_same_height),
                            h,
                        );
                    }
                }
                self.heights[i] = (block_header.height, blocks_at_same_height);
            },
            None => {
                let mut blocks_at_same_height: Vec<Digest> = Vec::new();
                blocks_at_same_height.push(hash);
                proof {
                    assert(self.heights@.push(
                        (block_header.height, blocks_at_same_height),
                    ).drop_last() =~= self.heights@);
                    assert(blocks_at_same_height@ =~= Seq::<Digest>::empty().push(hash));
                }
                self.heights.push((block_header.height, blocks_at_same_height));
            },
        }
        self.last_file = Some(last_rec);
        // the tip
        let makes_tip = match current_max_pow_family {
            None => true,
            Some(most) => most < block_header.proof_of_work_family,
        };
        if makes_tip {
            self.tip = Some(hash);
        }
        proof {
            lemma_block_position(before.blocks@, hash);
            assert forall|d: Digest| d != hash implies block_position(self.blocks@, d)
                == block_position(before.blocks@, d) by {
                lemma_block_position(before.blocks@, d);
            }
            assert forall|d: Digest| d != hash && before.knows(d) implies self.header_of(d)
                == before.header_of(d) && self.location_of(d) == before.location_of(d) by {
                lemma_block_position(before.blocks@, d);
            }
            let height = block_header.height.0;
            assert(self.digests_at(height) =~= before.digests_at(height).push(hash)) by {
                lemma_height_position(before.heights@, height);
            }
            assert forall|h: u64| h != height implies self.digests_at(h) == before.digests_at(
                h,
            ) by {
                lemma_height_position(before.heights@, h);
            }
            assert forall|i: int| 0 <= i < self.blocks@.len() implies (
            #[trigger] self.blocks@[i]).0@ == header_hash(self.blocks@[i].1.block_header@) by {
                if i < before.blocks@.len() {
                    assert(self.blocks@[i] == before.blocks@[i]);
                }
            }
            assert forall|d: Digest| self.knows(d) implies self.digests_at(
                #[trigger] self.header_of(d).height.0,
            ).contains(d) by {
                if d == hash {
                    assert(self.digests_at(height)[before.digests_at(height).len() as int] == d);
                } else {
                    let h = before.header_of(d).height.0;
                    assert(before.digests_at(h).contains(d));
                    let k = choose|k: int|
                        0 <= k < before.digests_at(h).len() && before.digests_at(h)[k] == d;
                    assert(self.digests_at(h)[k] == d);
                }
            }
            assert forall|h: u64, k: int| 0 <= k < self.digests_at(h).len() implies self.knows(
                #[trigger] self.digests_at(h)[k],
            ) && self.header_of(self.digests_at(h)[k]).height.0 == h by {
                if h == height && k == before.digests_at(height).len() {
                } else {
                    let d = before.digests_at(h)[k];
                    assert(before.knows(d) && before.header_of(d).height.0 == h);
                    assert(d != hash);
                }
            }
            assert forall|h: u64, k: int, m: int|
                0 <= k < m < self.digests_at(h).len() implies #[trigger] self.digests_at(h)[k]
                != #[trigger] self.digests_at(h)[m] by {
                if h == height && m == before.digests_at(height).len() {
                    let d = before.digests_at(h)[k];
                    assert(before.knows(d));
                } else {
                    assert(before.digests_at(h)[k] != before.digests_at(h)[m]);
                }
            }
            lemma_file_position(before.files@, last_rec.last_file);
            assert forall|n: u32| n != location.file_index implies self.file_record(n)
                == before.file_record(n) by {
                lemma_file_position(before.files@, n);
            }
        }
        Ok(location)
    }

    /// The file that blocks are appended to; the first file where none was
    /// recorded yet.
    pub fn get_last_file(&self) -> (r: LastFileRecord)
        ensures
            r.last_file == match self.last_file {
                Some(rec) => rec.last_file,
                None => 0,
            },
    {
        match self.last_file {
            Some(rec) => rec,
            None => LastFileRecord::default(),
        }
    }

    /// The record of file `n`, if there is one.
    pub fn get_file_record(&self, n: u32) -> (r: Option<FileRecord>)
        ensures
            r == self.file_record(n),
    {
        match self.find_file(n) {
            Some(i) => Some(self.files[i].1),
            None => None,
        }
    }
}

} // verus!
