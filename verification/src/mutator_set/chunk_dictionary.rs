//! Chunk dictionaries: the inactive chunks that a proof or a record speaks
//! of, each with the proof that it is a leaf of the inactive part of the
//! Bloom filter.

use crate::mmr::{clone_proof, proof_path, same_proof};
use crate::mutator_set::chunk::Chunk;
use twenty_first::prelude::MmrMembershipProof;
use vstd::prelude::*;

verus! {

/// One entry of a chunk dictionary.
#[derive(Debug)]
pub struct ChunkEntry {
    pub chunk_index: u64,
    pub membership_proof: MmrMembershipProof,
    pub chunk: Chunk,
}

impl ChunkEntry {
    /// The entry as plain values: the index, the path of the proof, and the
    /// positions of the chunk.
    pub open spec fn plain(&self) -> (u64, Seq<Seq<u64>>, Seq<u32>) {
        (self.chunk_index, proof_path(self.membership_proof), self.chunk@)
    }

    /// A copy of the entry.
    pub fn copy(&self) -> (e: Self)
        ensures
            e.plain() == self.plain(),
    {
        ChunkEntry {
            chunk_index: self.chunk_index,
            membership_proof: clone_proof(&self.membership_proof),
            chunk: self.chunk.clone(),
        }
    }
}

/// A mapping from chunk indices to chunks and their membership proofs, held
/// as a list in which no chunk index occurs twice.
#[derive(Debug)]
pub struct ChunkDictionary {
    pub dictionary: Vec<ChunkEntry>,
}

/// The entries as plain values.
pub open spec fn entries_plain(s: Seq<ChunkEntry>) -> Seq<(u64, Seq<Seq<u64>>, Seq<u32>)> {
    Seq::new(s.len(), |i: int| s[i].plain())
}

impl View for ChunkDictionary {
    type V = Seq<(u64, Seq<Seq<u64>>, Seq<u32>)>;

    open spec fn view(&self) -> Seq<(u64, Seq<Seq<u64>>, Seq<u32>)> {
        entries_plain(self.dictionary@)
    }
}

/// Whether no chunk index occurs twice among the entries.
pub open spec fn distinct_keys(s: Seq<(u64, Seq<Seq<u64>>, Seq<u32>)>) -> bool {
    forall|i: int, j: int| 0 <= i < j < s.len() ==> (#[trigger] s[i]).0 != (#[trigger] s[j]).0
}

/// Whether the entries hold the chunk index `key`.
pub open spec fn has_key(s: Seq<(u64, Seq<Seq<u64>>, Seq<u32>)>, key: u64) -> bool {
    exists|i: int| 0 <= i < s.len() && (#[trigger] s[i]).0 == key
}

/// The position of the first entry with chunk index `key`.
pub open spec fn position_of(s: Seq<(u64, Seq<Seq<u64>>, Seq<u32>)>, key: u64) -> int {
    choose|i: int| is_first_with_key(s, key, i)
}

/// Whether position `i` holds the first entry with chunk index `key`.
pub open spec fn is_first_with_key(s: Seq<(u64, Seq<Seq<u64>>, Seq<u32>)>, key: u64, i: int) -> bool {
    &&& 0 <= i < s.len()
    &&& s[i].0 == key
    &&& forall|j: int| 0 <= j < i ==> (#[trigger] s[j]).0 != key
}

/// There is one first entry with a given chunk index at most.
pub proof fn lemma_first_with_key(s: Seq<(u64, Seq<Seq<u64>>, Seq<u32>)>, key: u64, i: int)
    requires
        is_first_with_key(s, key, i),
    ensures
        position_of(s, key) == i,
        has_key(s, key),
{
    let p = position_of(s, key);
    assert(is_first_with_key(s, key, p));
    if p < i {
        assert(s[p].0 != key);
    }
    if i < p {
        assert(s[i].0 != key);
    }
}

impl ChunkDictionary {
    /// The invariant of a dictionary: no chunk index occurs twice.
    pub open spec fn wf(&self) -> bool {
        distinct_keys(self@)
    }

    /// The dictionary without an entry.
    pub fn new() -> (d: Self)
        ensures
            d@ == Seq::<(u64, Seq<Seq<u64>>, Seq<u32>)>::empty(),
            d.wf(),
    {
        let d = ChunkDictionary { dictionary: Vec::new() };
        assert(d@ =~= Seq::<(u64, Seq<Seq<u64>>, Seq<u32>)>::empty());
        d
    }

    /// The number of entries.
    pub fn len(&self) -> (n: usize)
        ensures
            n == self@.len(),
    {
        self.dictionary.len()
    }

    /// Where the entry with chunk index `chunk_index` stands, if there is
    /// one.
    pub fn position(&self, chunk_index: u64) -> (p: Option<usize>)
        ensures
            p is Some <==> has_key(self@, chunk_index),
            p matches Some(i) ==> i < self@.len() && self@[i as int].0 == chunk_index && i
                == position_of(self@, chunk_index),
    {
        let mut i: usize = 0;
        while i < self.dictionary.len()
            invariant
                0 <= i <= self.dictionary.len(),
                forall|j: int| 0 <= j < i ==> (#[trigger] self@[j]).0 != chunk_index,
            decreases self.dictionary.len() - i,
        {
            if self.dictionary[i].chunk_index == chunk_index {
                proof {
                    assert(self@[i as int].0 == chunk_index);
                    lemma_first_with_key(self@, chunk_index, i as int);
                }
                return Some(i);
            }
            i += 1;
        }
        None
    }

    /// Whether there is an entry with chunk index `chunk_index`.
    pub fn contains_key(&self, chunk_index: u64) -> (b: bool)
        ensures
            b == has_key(self@, chunk_index),
    {
        self.position(chunk_index).is_some()
    }

    /// Put the entry into the dictionary, in place of the entry with the same
    /// chunk index if there is one.
    pub fn insert(&mut self, entry: ChunkEntry)
        requires
            old(self).wf(),
        ensures
            final(self).wf(),
            has_key(old(self)@, entry.chunk_index) ==> final(self)@ == old(self)@.update(
                position_of(old(self)@, entry.chunk_index),
                entry.plain(),
            ),
            !has_key(old(self)@, entry.chunk_index) ==> final(self)@ == old(self)@.push(
                entry.plain(),
            ),
    {
        match self.position(entry.chunk_index) {
            Some(i) => {
                let ghost before = self@;
                self.dictionary[i] = entry;
                assert(self@ =~= before.update(i as int, entry.plain()));
            },
            None => {
                let ghost before = self@;
                self.dictionary.push(entry);
                assert(self@ =~= before.push(entry.plain()));
            },
        }
    }

    /// A copy of the dictionary.
    pub fn copy(&self) -> (d: Self)
        ensures
            d@ == self@,
    {
        let mut entries: Vec<ChunkEntry> = Vec::new();
        let mut i: usize = 0;
        while i < self.dictionary.len()
            invariant
                0 <= i <= self.dictionary.len(),
                entries@.len() == i,
                forall|j: int| 0 <= j < i ==> entries@[j].plain() == self.dictionary@[j].plain(),
            decreases self.dictionary.len() - i,
        {
            entries.push(self.dictionary[i].copy());
            i += 1;
        }
        let d = ChunkDictionary { dictionary: entries };
        assert(d@ =~= self@);
        d
    }

    /// Whether the two dictionaries hold the same entries in the same order.
    pub fn same_as(&self, other: &Self) -> (b: bool)
        ensures
            b == (self@ == other@),
    {
        if self.dictionary.len() != other.dictionary.len() {
            assert(self@.len() != other@.len());
            return false;
        }
        let mut i: usize = 0;
        while i < self.dictionary.len()
            invariant
                0 <= i <= self.dictionary.len(),
                self.dictionary.len() == other.dictionary.len(),
                forall|j: int| 0 <= j < i ==> self@[j] == other@[j],
            decreases self.dictionary.len() - i,
        {
            let a = &self.dictionary[i];
            let b = &other.dictionary[i];
            if a.chunk_index != b.chunk_index || !same_proof(
                &a.membership_proof,
                &b.membership_proof,
            ) || a.chunk != b.chunk {
                assert(self@[i as int] != other@[i as int]);
                return false;
            }
            i += 1;
        }
        assert(self@ =~= other@);
        true
    }
}

} // verus!
