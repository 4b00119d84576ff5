//! The active part of the sliding-window Bloom filter.

use crate::mutator_set::chunk::{copy_indices, Chunk};
use crate::mutator_set::shared::{CHUNK_SIZE, WINDOW_SIZE};
use crate::mutator_set::sorted::{ascending, holds_ascending, insert_ascending, remove_one};
use vstd::prelude::*;
use vstd::seq_lib::*;

verus! {

/// The members of `s` below `bound`, in their order.
pub open spec fn below(s: Seq<u32>, bound: u32) -> Seq<u32>
    decreases s.len(),
{
    if s.len() == 0 {
        Seq::empty()
    } else if s.last() < bound {
        below(s.drop_last(), bound).push(s.last())
    } else {
        below(s.drop_last(), bound)
    }
}

/// The members of `s` from `lower` up to, not including, `upper`, each less
/// `lower`, in their order.
pub open spec fn slice_of(s: Seq<u32>, lower: u32, upper: u32) -> Seq<u32>
    decreases s.len(),
{
    if s.len() == 0 {
        Seq::empty()
    } else if lower <= s.last() < upper {
        slice_of(s.drop_last(), lower, upper).push((s.last() - lower) as u32)
    } else {
        slice_of(s.drop_last(), lower, upper)
    }
}

/// The members of `s` outside the range from `lower` up to, not including,
/// `upper`, in their order.
pub open spec fn outside(s: Seq<u32>, lower: u32, upper: u32) -> Seq<u32>
    decreases s.len(),
{
    if s.len() == 0 {
        Seq::empty()
    } else if lower <= s.last() < upper {
        outside(s.drop_last(), lower, upper)
    } else {
        outside(s.drop_last(), lower, upper).push(s.last())
    }
}

/// The members of `s` that are at least `by`, each less `by`, in their order.
pub open spec fn slid(s: Seq<u32>, by: u32) -> Seq<u32>
    decreases s.len(),
{
    if s.len() == 0 {
        Seq::empty()
    } else if s.last() >= by {
        slid(s.drop_last(), by).push((s.last() - by) as u32)
    } else {
        slid(s.drop_last(), by)
    }
}

/// Each member of `s` plus `by`.
pub open spec fn raised(s: Seq<u32>, by: u32) -> Seq<u32> {
    Seq::new(s.len(), |i: int| (s[i] + by) as u32)
}

/// Whether a member of `s` lies in the range from `lower` up to, not
/// including, `upper`.
pub open spec fn some_in_range(s: Seq<u32>, lower: u32, upper: u32) -> bool {
    exists|i: int| 0 <= i < s.len() && lower <= #[trigger] s[i] && s[i] < upper
}

/// The active window of the Bloom filter: the positions, relative to the
/// start of the window, at which a bit is set. A position that was set twice
/// occurs twice, so that the filter can be reversed.
#[derive(Debug)]
pub struct ActiveWindow {
    pub sbf: Vec<u32>,
}

impl View for ActiveWindow {
    type V = Seq<u32>;

    open spec fn view(&self) -> Seq<u32> {
        self.sbf@
    }
}

impl Clone for ActiveWindow {
    fn clone(&self) -> (w: Self)
        ensures
            w@ == self@,
    {
        ActiveWindow { sbf: copy_indices(&self.sbf) }
    }
}

impl PartialEq for ActiveWindow {
    fn eq(&self, other: &Self) -> (b: bool) {
        let b = self.sbf == other.sbf;
        proof {
            if b {
                assert(self.sbf@ =~= other.sbf@);
            }
        }
        b
    }
}

impl Eq for ActiveWindow {

}

impl vstd::std_specs::cmp::PartialEqSpecImpl for ActiveWindow {
    open spec fn obeys_eq_spec() -> bool {
        true
    }

    open spec fn eq_spec(&self, other: &Self) -> bool {
        self@ == other@
    }
}

impl Default for ActiveWindow {
    fn default() -> (w: Self)
        ensures
            w@ == Seq::<u32>::empty(),
    {
        ActiveWindow { sbf: Vec::new() }
    }
}

impl ActiveWindow {
    /// The invariant of the window: the positions are in ascending order and
    /// all lie within the window.
    pub open spec fn wf(&self) -> bool {
        &&& ascending(self@)
        &&& forall|i: int| 0 <= i < self@.len() ==> self@[i] < WINDOW_SIZE
    }

    /// The window in which no bit is set.
    pub fn new() -> (w: Self)
        ensures
            w@ == Seq::<u32>::empty(),
            w.wf(),
    {
        ActiveWindow { sbf: Vec::new() }
    }

    /// Grab a slice of the filter: the positions in the range from `lower` up
    /// to, not including, `upper`, relative to `lower`.
    pub fn slice(&self, lower: u32, upper: u32) -> (indices: Vec<u32>)
        ensures
            indices@ == slice_of(self@, lower, upper),
    {
        let mut indices: Vec<u32> = Vec::new();
        let mut i: usize = 0;
        while i < self.sbf.len()
            invariant
                0 <= i <= self.sbf.len(),
                indices@ == slice_of(self@.take(i as int), lower, upper),
            decreases self.sbf.len() - i,
        {
            proof {
                assert(self@.take(i + 1).drop_last() =~= self@.take(i as int));
            }
            let l = self.sbf[i];
            if lower <= l && l < upper {
                indices.push(l - lower);
            }
            i += 1;
        }
        proof {
            assert(self@.take(i as int) =~= self@);
        }
        indices
    }

    /// The chunk of the active window that becomes inactive when the window
    /// slides.
    pub fn slid_chunk(&self) -> (chunk: Chunk)
        ensures
            chunk@ == below(self@, CHUNK_SIZE),
            self.wf() ==> chunk.wf(),
    {
        let indices = self.slice(0, CHUNK_SIZE);
        proof {
            lemma_slice_from_zero(self@, CHUNK_SIZE);
            lemma_below_ascending(self@, CHUNK_SIZE);
        }
        Chunk::from_indices(indices.as_slice())
    }

    /// Clear the bits in the range from `lower` up to, not including,
    /// `upper`.
    pub fn zerofy(&mut self, lower: u32, upper: u32)
        ensures
            final(self)@ == outside(old(self)@, lower, upper),
    {
        let mut kept: Vec<u32> = Vec::new();
        let mut i: usize = 0;
        while i < self.sbf.len()
            invariant
                0 <= i <= self.sbf.len(),
                self@ == old(self)@,
                kept@ == outside(self@.take(i as int), lower, upper),
            decreases self.sbf.len() - i,
        {
            proof {
                assert(self@.take(i + 1).drop_last() =~= self@.take(i as int));
            }
            let l = self.sbf[i];
            if !(lower <= l && l < upper) {
                kept.push(l);
            }
            i += 1;
        }
        proof {
            assert(self@.take(i as int) =~= self@);
        }
        self.sbf = kept;
    }

    /// Slide the window: drop the positions within the first chunk, and
    /// subtract the size of a chunk from all others.
    pub fn slide_window(&mut self)
        ensures
            final(self)@ == slid(old(self)@, CHUNK_SIZE),
            old(self).wf() ==> final(self).wf(),
            old(self).wf() ==> !some_in_range(
                final(self)@,
                (WINDOW_SIZE - CHUNK_SIZE) as u32,
                WINDOW_SIZE,
            ),
    {
        let mut kept: Vec<u32> = Vec::new();
        let mut i: usize = 0;
        while i < self.sbf.len()
            invariant
                0 <= i <= self.sbf.len(),
                self@ == old(self)@,
                kept@ == slid(self@.take(i as int), CHUNK_SIZE),
            decreases self.sbf.len() - i,
        {
            proof {
                assert(self@.take(i + 1).drop_last() =~= self@.take(i as int));
            }
            let l = self.sbf[i];
            if l >= CHUNK_SIZE {
                kept.push(l - CHUNK_SIZE);
            }
            i += 1;
        }
        proof {
            assert(self@.take(i as int) =~= self@);
            lemma_slid_ascending(self@, CHUNK_SIZE);
            if old(self).wf() {
                assert forall|k: int| 0 <= k < kept@.len() implies kept@[k] < WINDOW_SIZE
                    - CHUNK_SIZE by {
                    assert(slid(self@, CHUNK_SIZE)[k] + CHUNK_SIZE < WINDOW_SIZE);
                }
            }
        }
        self.sbf = kept;
    }

    /// Whether a bit is set in the range from `lower` up to, not including,
    /// `upper`.
    pub fn hasset(&self, lower: u32, upper: u32) -> (b: bool)
        ensures
            b == some_in_range(self@, lower, upper),
    {
        let mut i: usize = 0;
        while i < self.sbf.len()
            invariant
                0 <= i <= self.sbf.len(),
                forall|j: int| 0 <= j < i ==> !(lower <= #[trigger] self@[j] && self@[j] < upper),
            decreases self.sbf.len() - i,
        {
            let l = self.sbf[i];
            if lower <= l && l < upper {
                return true;
            }
            i += 1;
        }
        false
    }

    /// Undo a window slide: add the size of a chunk to every position, and
    /// put the positions of `chunk` back in front.
    pub fn slide_window_back(&mut self, chunk: &Chunk)
        requires
            old(self).wf(),
            chunk.wf(),
            !some_in_range(old(self)@, (WINDOW_SIZE - CHUNK_SIZE) as u32, WINDOW_SIZE),
        ensures
            final(self).wf(),
            final(self)@ == chunk@ + raised(old(self)@, CHUNK_SIZE),
    {
        let mut restored: Vec<u32> = copy_indices(&chunk.relative_indices);
        let mut i: usize = 0;
        while i < self.sbf.len()
            invariant
                0 <= i <= self.sbf.len(),
                self@ == old(self)@,
                old(self).wf(),
                !some_in_range(old(self)@, (WINDOW_SIZE - CHUNK_SIZE) as u32, WINDOW_SIZE),
                restored@ == chunk@ + raised(self@.take(i as int), CHUNK_SIZE),
            decreases self.sbf.len() - i,
        {
            let l = self.sbf[i];
            assert(l < WINDOW_SIZE - CHUNK_SIZE) by {
                if l >= WINDOW_SIZE - CHUNK_SIZE {
                    assert(some_in_range(
                        old(self)@,
                        (WINDOW_SIZE - CHUNK_SIZE) as u32,
                        WINDOW_SIZE,
                    ));
                }
            }
            restored.push(l + CHUNK_SIZE);
            proof {
                assert(restored@ =~= chunk@ + raised(self@.take(i + 1), CHUNK_SIZE));
            }
            i += 1;
        }
        proof {
            assert(self@.take(i as int) =~= self@);
            let r = restored@;
            assert forall|a: int, b: int| 0 <= a <= b < r.len() implies r[a] <= r[b] by {
                if b < chunk@.len() {
                } else if a >= chunk@.len() {
                    assert(self@[a - chunk@.len()] <= self@[b - chunk@.len()]);
                } else {
                    assert(r[a] < CHUNK_SIZE);
                }
            }
            assert forall|a: int| 0 <= a < r.len() implies r[a] < WINDOW_SIZE by {
                if a >= chunk@.len() {
                    let l = self@[a - chunk@.len()];
                    if l >= WINDOW_SIZE - CHUNK_SIZE {
                        assert(some_in_range(
                            old(self)@,
                            (WINDOW_SIZE - CHUNK_SIZE) as u32,
                            WINDOW_SIZE,
                        ));
                    }
                }
            }
        }
        self.sbf = restored;
    }

    /// Set the bit at `index` once more.
    pub fn insert(&mut self, index: u32)
        requires
            old(self).wf(),
            index < WINDOW_SIZE,
        ensures
            final(self).wf(),
            final(self)@.to_multiset() == old(self)@.to_multiset().insert(index),
            final(self)@.len() == old(self)@.len() + 1,
            forall|i: u32| final(self)@.contains(i) <==> (i == index || old(self)@.contains(i)),
    {
        let ghost before = self@;
        insert_ascending(&mut self.sbf, index);
        proof {
            crate::mutator_set::chunk::lemma_members_after_insert(before, self@, index);
            assert forall|i: int| 0 <= i < self@.len() implies self@[i] < WINDOW_SIZE by {
                assert(self@.contains(self@[i]));
                if self@[i] != index {
                    let k = choose|k: int| 0 <= k < before.len() && before[k] == self@[i];
                }
            }
        }
    }

    /// Take back one setting of the bit at `index`.
    pub fn remove(&mut self, index: u32)
        requires
            index < WINDOW_SIZE,
            old(self)@.contains(index),
        ensures
            final(self)@.to_multiset() == old(self)@.to_multiset().remove(index),
            final(self)@.len() == old(self)@.len() - 1,
            old(self).wf() ==> final(self).wf(),
    {
        let ghost before = self@;
        remove_one(&mut self.sbf, index);
        proof {
            if old(self).wf() {
                assert forall|i: int| 0 <= i < self@.len() implies self@[i] < WINDOW_SIZE by {
                    assert(before.contains(self@[i]));
                    let k = choose|k: int| 0 <= k < before.len() && before[k] == self@[i];
                    assert(before[k] < WINDOW_SIZE);
                }
            }
        }
    }

    /// Whether the bit at `index` is set.
    pub fn contains(&self, index: u32) -> (b: bool)
        requires
            self.wf(),
            index < WINDOW_SIZE,
        ensures
            b == self@.contains(index),
    {
        holds_ascending(&self.sbf, index)
    }

    /// The positions at which a bit is set.
    pub fn to_vec_u32(&self) -> (v: Vec<u32>)
        ensures
            v@ == self@,
    {
        copy_indices(&self.sbf)
    }

    /// The window with the positions `vector`, as they are given.
    pub fn from_vec_u32(vector: &[u32]) -> (w: Self)
        ensures
            w@ == vector@,
    {
        let c = Chunk::from_indices(vector);
        ActiveWindow { sbf: c.relative_indices }
    }

    /// The hash of the window.
    pub fn hash(&self) -> (d: crate::digest::Digest)
        ensures
            d@ == crate::mutator_set::chunk::chunk_hash(self@),
    {
        crate::tip5::hash_varlen(&self.to_sequence())
    }

    /// The field elements that stand for the window when it is hashed: its
    /// positions in their order.
    pub fn to_sequence(&self) -> (v: Vec<u64>)
        ensures
            v@ == crate::mutator_set::chunk::chunk_sequence(self@),
    {
        let c = Chunk { relative_indices: copy_indices(&self.sbf) };
        c.to_sequence()
    }
}

/// A slice that starts at zero holds the members below its upper bound.
pub proof fn lemma_slice_from_zero(s: Seq<u32>, upper: u32)
    ensures
        slice_of(s, 0, upper) == below(s, upper),
    decreases s.len(),
{
    if s.len() > 0 {
        lemma_slice_from_zero(s.drop_last(), upper);
    }
}

/// The members below a bound are below it, and every member of the sequence
/// below the bound is among them.
pub proof fn lemma_below_members(s: Seq<u32>, bound: u32)
    ensures
        forall|i: int| 0 <= i < below(s, bound).len() ==> below(s, bound)[i] < bound && s.contains(
            #[trigger] below(s, bound)[i],
        ),
        below(s, bound).len() <= s.len(),
    decreases s.len(),
{
    if s.len() > 0 {
        lemma_below_members(s.drop_last(), bound);
        let r = below(s, bound);
        assert forall|i: int| 0 <= i < r.len() implies r[i] < bound && s.contains(
            #[trigger] r[i],
        ) by {
            let rest = below(s.drop_last(), bound);
            if i < rest.len() {
                assert(s.drop_last().contains(rest[i]));
                let k = choose|k: int| 0 <= k < s.drop_last().len() && s.drop_last()[k] == rest[i];
                assert(s[k] == rest[i]);
            } else {
                assert(s[s.len() - 1] == r[i]);
            }
        }
    }
}

/// In an ascending sequence the members below a bound are its first members.
pub proof fn lemma_below_is_prefix(s: Seq<u32>, bound: u32)
    requires
        ascending(s),
    ensures
        below(s, bound) == s.take(below(s, bound).len() as int),
        forall|i: int| below(s, bound).len() <= i < s.len() ==> s[i] >= bound,
    decreases s.len(),
{
    lemma_below_members(s, bound);
    if s.len() > 0 {
        let t = s.drop_last();
        assert(ascending(t));
        lemma_below_is_prefix(t, bound);
        lemma_below_members(t, bound);
        let n = below(t, bound).len() as int;
        if s.last() < bound {
            assert(n == t.len()) by {
                if n < t.len() {
                    assert(t[n] >= bound);
                    assert(s[n] <= s[s.len() - 1]);
                }
            }
            assert(below(s, bound) =~= s.take(s.len() as int));
        } else {
            assert(below(s, bound) =~= s.take(n));
        }
    }
}

/// The members below a bound of an ascending sequence are ascending.
pub proof fn lemma_below_ascending(s: Seq<u32>, bound: u32)
    ensures
        ascending(s) ==> ascending(below(s, bound)),
        forall|i: int| 0 <= i < below(s, bound).len() ==> below(s, bound)[i] < bound,
{
    lemma_below_members(s, bound);
    if ascending(s) {
        lemma_below_is_prefix(s, bound);
    }
}

/// In an ascending sequence the slid members are the members behind those
/// below the bound, each less the bound.
pub proof fn lemma_slid_is_suffix(s: Seq<u32>, by: u32)
    requires
        ascending(s),
    ensures
        slid(s, by).len() == s.len() - below(s, by).len(),
        forall|i: int|
            0 <= i < slid(s, by).len() ==> #[trigger] slid(s, by)[i] == s[below(s, by).len() + i]
                - by,
    decreases s.len(),
{
    lemma_below_is_prefix(s, by);
    lemma_below_members(s, by);
    if s.len() > 0 {
        let t = s.drop_last();
        assert(ascending(t));
        lemma_slid_is_suffix(t, by);
        lemma_below_is_prefix(t, by);
        lemma_below_members(t, by);
        let n = below(t, by).len() as int;
        if s.last() < by {
            assert(n == t.len()) by {
                if n < t.len() {
                    assert(t[n] >= by);
                    assert(s[n] <= s[s.len() - 1]);
                }
            }
        }
    }
}

/// Sliding keeps an ascending window ascending, and leaves the last chunk of
/// the window empty.
pub proof fn lemma_slid_ascending(s: Seq<u32>, by: u32)
    ensures
        ascending(s) ==> ascending(slid(s, by)),
        (forall|i: int| 0 <= i < s.len() ==> s[i] < WINDOW_SIZE) ==> (forall|i: int|
            0 <= i < slid(s, by).len() ==> #[trigger] slid(s, by)[i] + by < WINDOW_SIZE),
{
    lemma_slid_members(s, by);
    if forall|i: int| 0 <= i < s.len() ==> s[i] < WINDOW_SIZE {
        assert forall|i: int| 0 <= i < slid(s, by).len() implies #[trigger] slid(s, by)[i] + by
            < WINDOW_SIZE by {
            assert(comes_from(s, by, slid(s, by)[i]));
        }
    }
    if ascending(s) {
        lemma_slid_is_suffix(s, by);
        let r = slid(s, by);
        let n = below(s, by).len() as int;
        assert forall|a: int, b: int| 0 <= a <= b < r.len() implies r[a] <= r[b] by {
            assert(s[n + a] <= s[n + b]);
        }
    }
}

/// Whether `v` plus `by` is a member of `s`.
pub open spec fn comes_from(s: Seq<u32>, by: u32, v: u32) -> bool {
    exists|k: int| 0 <= k < s.len() && #[trigger] s[k] == v + by
}

/// Each slid member comes from a member of the sequence.
pub proof fn lemma_slid_members(s: Seq<u32>, by: u32)
    ensures
        forall|i: int| 0 <= i < slid(s, by).len() ==> comes_from(s, by, #[trigger] slid(s, by)[i]),
    decreases s.len(),
{
    if s.len() > 0 {
        let t = s.drop_last();
        lemma_slid_members(t, by);
        let r = slid(s, by);
        assert forall|i: int| 0 <= i < r.len() implies comes_from(s, by, #[trigger] r[i]) by {
            let rest = slid(t, by);
            if i < rest.len() {
                assert(comes_from(t, by, rest[i]));
                let k = choose|k: int| 0 <= k < t.len() && #[trigger] t[k] == rest[i] + by;
                assert(s[k] == t[k]);
            } else {
                assert(s[s.len() - 1] == r[i] + by);
            }
        }
    }
}

/// To slide the window and then to slide it back with the chunk that left it
/// gives the window as it was.
pub proof fn law_slide_and_back_is_identity(s: Seq<u32>)
    requires
        ascending(s),
        forall|i: int| 0 <= i < s.len() ==> s[i] < WINDOW_SIZE,
    ensures
        below(s, CHUNK_SIZE) + raised(slid(s, CHUNK_SIZE), CHUNK_SIZE) == s,
{
    lemma_below_is_prefix(s, CHUNK_SIZE);
    lemma_slid_is_suffix(s, CHUNK_SIZE);
    let c = below(s, CHUNK_SIZE);
    let r = raised(slid(s, CHUNK_SIZE), CHUNK_SIZE);
    assert((c + r).len() == s.len());
    assert forall|i: int| 0 <= i < s.len() implies (c + r)[i] == s[i] by {
        if i >= c.len() {
            assert(slid(s, CHUNK_SIZE)[i - c.len()] == s[i] - CHUNK_SIZE);
        }
    }
    assert(c + r =~= s);
}

impl crate::digest::Hashable for ActiveWindow {
    open spec fn hashed(&self) -> Seq<u64> {
        crate::mutator_set::chunk::chunk_hash(self@)
    }

    fn hash(&self) -> (d: crate::digest::Digest) {
        ActiveWindow::hash(self)
    }
}

} // verus!
