//! Chunks of the sliding-window Bloom filter.

use crate::digest::{Digest, Hashable};
use crate::mutator_set::shared::CHUNK_SIZE;
use crate::mutator_set::sorted::{
    ascending, holds, insert_ascending, insert_unique, strictly_ascending,
};
use crate::tip5::{hash_varlen, spec_hash_varlen};
use vstd::prelude::*;

verus! {

/// One chunk of the Bloom filter, held as the list of the positions, relative
/// to the start of the chunk, at which a bit is set.
#[derive(Debug)]
pub struct Chunk {
    pub relative_indices: Vec<u32>,
}

impl View for Chunk {
    type V = Seq<u32>;

    open spec fn view(&self) -> Seq<u32> {
        self.relative_indices@
    }
}

impl Clone for Chunk {
    fn clone(&self) -> (c: Self)
        ensures
            c@ == self@,
    {
        Chunk { relative_indices: copy_indices(&self.relative_indices) }
    }
}

impl PartialEq for Chunk {
    fn eq(&self, other: &Self) -> (b: bool) {
        let b = self.relative_indices == other.relative_indices;
        proof {
            if b {
                assert(self.relative_indices@ =~= other.relative_indices@);
            }
        }
        b
    }
}

impl Eq for Chunk {

}

impl vstd::std_specs::cmp::PartialEqSpecImpl for Chunk {
    open spec fn obeys_eq_spec() -> bool {
        true
    }

    open spec fn eq_spec(&self, other: &Self) -> bool {
        self@ == other@
    }
}

/// A copy of the vector `v`.
pub fn copy_indices(v: &Vec<u32>) -> (w: Vec<u32>)
    ensures
        w@ == v@,
{
    let mut w: Vec<u32> = Vec::new();
    let mut i: usize = 0;
    while i < v.len()
        invariant
            0 <= i <= v.len(),
            w@ == v@.take(i as int),
        decreases v.len() - i,
    {
        w.push(v[i]);
        i += 1;
    }
    w
}

impl Chunk {
    /// The positions at which a bit is set.
    pub open spec fn bits(&self) -> Set<u32> {
        self@.to_set()
    }

    /// Whether the positions are in ascending order and within the chunk.
    pub open spec fn wf(&self) -> bool {
        &&& ascending(self@)
        &&& forall|i: int| 0 <= i < self@.len() ==> self@[i] < CHUNK_SIZE
    }

    /// Whether each position occurs once, in ascending order, within the
    /// chunk: the form of a chunk that stands for a bit vector.
    pub open spec fn is_bit_vector(&self) -> bool {
        &&& strictly_ascending(self@)
        &&& forall|i: int| 0 <= i < self@.len() ==> self@[i] < CHUNK_SIZE
    }

    /// The chunk in which no bit is set.
    pub fn empty_chunk() -> (c: Self)
        ensures
            c@ == Seq::<u32>::empty(),
            c.is_bit_vector(),
    {
        Chunk { relative_indices: Vec::new() }
    }

    /// Whether no bit is set.
    pub fn is_empty(&self) -> (b: bool)
        ensures
            b == (self@.len() == 0),
    {
        self.relative_indices.len() == 0
    }

    /// The chunk with the positions `relative_indices`, as they are given.
    pub fn from_indices(relative_indices: &[u32]) -> (c: Self)
        ensures
            c@ == relative_indices@,
    {
        let mut w: Vec<u32> = Vec::new();
        let mut i: usize = 0;
        while i < relative_indices.len()
            invariant
                0 <= i <= relative_indices.len(),
                w@ == relative_indices@.take(i as int),
            decreases relative_indices.len() - i,
        {
            w.push(relative_indices[i]);
            i += 1;
        }
        Chunk { relative_indices: w }
    }

    /// The positions at which a bit is set.
    pub fn to_indices(&self) -> (v: Vec<u32>)
        ensures
            v@ == self@,
    {
        copy_indices(&self.relative_indices)
    }

    /// Whether the bit at `index` is set.
    pub fn get_bit(&self, index: u32) -> (b: bool)
        ensures
            b == self@.contains(index),
    {
        holds(&self.relative_indices, index)
    }

    /// Set the bit at `index`. A chunk in which it is set stays as it is.
    pub fn set_bit(&mut self, index: u32)
        requires
            old(self).wf(),
            index < CHUNK_SIZE,
        ensures
            final(self).wf(),
            old(self)@.contains(index) ==> final(self)@ == old(self)@,
            !old(self)@.contains(index) ==> final(self)@.to_multiset() == old(
                self,
            )@.to_multiset().insert(index),
            forall|i: u32| final(self)@.contains(i) <==> (i == index || old(self)@.contains(i)),
    {
        if !holds(&self.relative_indices, index) {
            let ghost before = self@;
            insert_ascending(&mut self.relative_indices, index);
            proof {
                lemma_members_after_insert(before, self@, index);
                assert forall|i: int| 0 <= i < self@.len() implies self@[i] < CHUNK_SIZE by {
                    assert(self@.contains(self@[i]));
                    if self@[i] != index {
                        let k = choose|k: int| 0 <= k < before.len() && before[k] == self@[i];
                    }
                }
            }
        }
    }

    /// Clear the bit at `index`: every occurrence of the position leaves.
    pub fn unset_bit(&mut self, index: u32)
        ensures
            final(self)@ == without(old(self)@, index),
    {
        let mut kept: Vec<u32> = Vec::new();
        let mut i: usize = 0;
        while i < self.relative_indices.len()
            invariant
                0 <= i <= self.relative_indices.len(),
                self@ == old(self)@,
                kept@ == without(self@.take(i as int), index),
            decreases self.relative_indices.len() - i,
        {
            proof {
                assert(self@.take(i + 1).drop_last() =~= self@.take(i as int));
            }
            if self.relative_indices[i] != index {
                kept.push(self.relative_indices[i]);
            }
            i += 1;
        }
        proof {
            assert(self@.take(i as int) =~= self@);
        }
        self.relative_indices = kept;
    }

    /// The chunk in which a bit is set where it is set in `self` or in
    /// `other`, as a bit vector.
    pub fn or(&self, other: &Chunk) -> (c: Chunk)
        requires
            forall|i: int| 0 <= i < self@.len() ==> self@[i] < CHUNK_SIZE,
            forall|i: int| 0 <= i < other@.len() ==> other@[i] < CHUNK_SIZE,
        ensures
            c.is_bit_vector(),
            c.bits() == self.bits().union(other.bits()),
    {
        let mut merged: Vec<u32> = Vec::new();
        let mut i: usize = 0;
        while i < self.relative_indices.len()
            invariant
                0 <= i <= self.relative_indices.len(),
                strictly_ascending(merged@),
                merged@.to_set() == self@.take(i as int).to_set(),
            decreases self.relative_indices.len() - i,
        {
            proof {
                lemma_take_set(self@, i as int);
            }
            insert_unique(&mut merged, self.relative_indices[i]);
            i += 1;
        }
        proof {
            assert(self@.take(i as int) =~= self@);
        }
        let mut j: usize = 0;
        while j < other.relative_indices.len()
            invariant
                0 <= j <= other.relative_indices.len(),
                strictly_ascending(merged@),
                merged@.to_set() == self@.to_set().union(other@.take(j as int).to_set()),
            decreases other.relative_indices.len() - j,
        {
            proof {
                lemma_take_set(other@, j as int);
                assert(self@.to_set().union(other@.take(j as int).to_set()).insert(other@[j as int])
                    =~= self@.to_set().union(other@.take(j + 1).to_set()));
            }
            insert_unique(&mut merged, other.relative_indices[j]);
            j += 1;
        }
        proof {
            assert(other@.take(j as int) =~= other@);
            assert forall|k: int| 0 <= k < merged@.len() implies merged@[k] < CHUNK_SIZE by {
                assert(merged@.to_set().contains(merged@[k]));
                if self@.to_set().contains(merged@[k]) {
                    let m = choose|m: int| 0 <= m < self@.len() && self@[m] == merged@[k];
                } else {
                    let m = choose|m: int| 0 <= m < other@.len() && other@[m] == merged@[k];
                }
            }
        }
        Chunk { relative_indices: merged }
    }

    /// Keep in `self` the bits that are set in exactly one of `self` and
    /// `other`, as a bit vector.
    pub fn xor_assign(&mut self, other: &Chunk)
        requires
            forall|i: int| 0 <= i < old(self)@.len() ==> old(self)@[i] < CHUNK_SIZE,
            forall|i: int| 0 <= i < other@.len() ==> other@[i] < CHUNK_SIZE,
        ensures
            final(self).is_bit_vector(),
            final(self).bits() == old(self).bits().difference(other.bits()).union(
                other.bits().difference(old(self).bits()),
            ),
    {
        let mut merged: Vec<u32> = Vec::new();
        let mut i: usize = 0;
        while i < self.relative_indices.len()
            invariant
                0 <= i <= self.relative_indices.len(),
                self@ == old(self)@,
                strictly_ascending(merged@),
                merged@.to_set() == self@.take(i as int).to_set().difference(other@.to_set()),
            decreases self.relative_indices.len() - i,
        {
            proof {
                lemma_take_set(self@, i as int);
            }
            let x = self.relative_indices[i];
            if !holds(&other.relative_indices, x) {
                insert_unique(&mut merged, x);
                proof {
                    assert(self@.take(i as int).to_set().difference(other@.to_set()).insert(x)
                        =~= self@.take(i + 1).to_set().difference(other@.to_set()));
                }
            } else {
                proof {
                    assert(self@.take(i as int).to_set().difference(other@.to_set()) =~= self@.take(
                        i + 1,
                    ).to_set().difference(other@.to_set()));
                }
            }
            i += 1;
        }
        proof {
            assert(self@.take(i as int) =~= self@);
        }
        let ghost left = self@.to_set().difference(other@.to_set());
        let mut j: usize = 0;
        while j < other.relative_indices.len()
            invariant
                0 <= j <= other.relative_indices.len(),
                self@ == old(self)@,
                strictly_ascending(merged@),
                left == self@.to_set().difference(other@.to_set()),
                merged@.to_set() == left.union(
                    other@.take(j as int).to_set().difference(self@.to_set()),
                ),
            decreases other.relative_indices.len() - j,
        {
            proof {
                lemma_take_set(other@, j as int);
            }
            let x = other.relative_indices[j];
            if !holds(&self.relative_indices, x) {
                insert_unique(&mut merged, x);
                proof {
                    assert(left.union(
                        other@.take(j as int).to_set().difference(self@.to_set()),
                    ).insert(x) =~= left.union(
                        other@.take(j + 1).to_set().difference(self@.to_set()),
                    ));
                }
            } else {
                proof {
                    assert(left.union(other@.take(j as int).to_set().difference(self@.to_set()))
                        =~= left.union(other@.take(j + 1).to_set().difference(self@.to_set())));
                }
            }
            j += 1;
        }
        proof {
            assert(other@.take(j as int) =~= other@);
            assert forall|k: int| 0 <= k < merged@.len() implies merged@[k] < CHUNK_SIZE by {
                assert(merged@.to_set().contains(merged@[k]));
                if self@.to_set().contains(merged@[k]) {
                    let m = choose|m: int| 0 <= m < self@.len() && self@[m] == merged@[k];
                } else {
                    let m = choose|m: int| 0 <= m < other@.len() && other@[m] == merged@[k];
                }
            }
        }
        self.relative_indices = merged;
    }

    /// The hash of the chunk: the leaf that stands for it in the inactive
    /// part of the Bloom filter.
    pub fn hash(&self) -> (d: Digest)
        ensures
            d@ == chunk_hash(self@),
    {
        hash_varlen(&self.to_sequence())
    }

    /// The field elements that stand for the chunk when it is hashed: its
    /// positions in their order.
    pub fn to_sequence(&self) -> (v: Vec<u64>)
        ensures
            v@ == chunk_sequence(self@),
    {
        let mut v: Vec<u64> = Vec::new();
        let mut i: usize = 0;
        while i < self.relative_indices.len()
            invariant
                0 <= i <= self.relative_indices.len(),
                v@ == chunk_sequence(self@.take(i as int)),
            decreases self.relative_indices.len() - i,
        {
            v.push(self.relative_indices[i] as u64);
            proof {
                assert(v@ =~= chunk_sequence(self@.take(i + 1)));
            }
            i += 1;
        }
        proof {
            assert(self@.take(i as int) =~= self@);
        }
        v
    }
}

/// The hash of the chunk with the positions `s`.
pub open spec fn chunk_hash(s: Seq<u32>) -> Seq<u64> {
    spec_hash_varlen(chunk_sequence(s))
}

/// The field elements that stand for the positions `s`.
pub open spec fn chunk_sequence(s: Seq<u32>) -> Seq<u64> {
    Seq::new(s.len(), |i: int| s[i] as u64)
}

/// The sequence `s` without the occurrences of `x`.
pub open spec fn without(s: Seq<u32>, x: u32) -> Seq<u32>
    decreases s.len(),
{
    if s.len() == 0 {
        Seq::empty()
    } else if s.last() == x {
        without(s.drop_last(), x)
    } else {
        without(s.drop_last(), x).push(s.last())
    }
}

/// The elements of the first `i + 1` members are those of the first `i`
/// together with member `i`.
pub proof fn lemma_take_set(s: Seq<u32>, i: int)
    requires
        0 <= i < s.len(),
    ensures
        s.take(i + 1).to_set() == s.take(i).to_set().insert(s[i]),
{
    let a = s.take(i + 1);
    let b = s.take(i);
    assert forall|x: u32| a.to_set().contains(x) <==> b.to_set().insert(s[i]).contains(x) by {
        if a.to_set().contains(x) {
            let k = choose|k: int| 0 <= k < a.len() && a[k] == x;
            if k < i {
                assert(b[k] == x);
            }
        }
        if b.to_set().contains(x) {
            let k = choose|k: int| 0 <= k < b.len() && b[k] == x;
            assert(a[k] == x);
        }
        if x == s[i] {
            assert(a[i] == x);
        }
    }
    assert(a.to_set() =~= b.to_set().insert(s[i]));
}

/// What a sequence holds after an element joined its multiset: the new
/// element and the old ones.
pub proof fn lemma_members_after_insert(before: Seq<u32>, after: Seq<u32>, x: u32)
    requires
        after.to_multiset() == before.to_multiset().insert(x),
    ensures
        forall|y: u32| after.contains(y) <==> (y == x || before.contains(y)),
{
    assert forall|y: u32| after.contains(y) <==> (y == x || before.contains(y)) by {
        after.to_multiset_ensures();
        before.to_multiset_ensures();
        assert(after.contains(y) <==> after.to_multiset().count(y) > 0);
        assert(before.contains(y) <==> before.to_multiset().count(y) > 0);
    }
}

impl Hashable for Chunk {
    open spec fn hashed(&self) -> Seq<u64> {
        chunk_hash(self@)
    }

    fn hash(&self) -> (d: Digest) {
        Chunk::hash(self)
    }
}

} // verus!
