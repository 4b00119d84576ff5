//! Merkle mountain ranges, as accumulators: the peaks and the number of
//! leafs.
//!
//! The hashing along the mountains is the work of the `twenty-first` crate.
//! The library holds the accumulator and the membership proofs as plain
//! values, hands them to that crate through the trusted functions at the end
//! of this file, and states its own results over the names of theirs.

use crate::digest::Digest;
use twenty_first::prelude::{BFieldElement, Mmr, MmrMembershipProof};
use vstd::prelude::*;

verus! {

/// The number of ones in the binary representation of `n`.
pub open spec fn popcount(n: nat) -> nat
    decreases n,
{
    if n == 0 {
        0
    } else {
        (n % 2) + popcount(n / 2)
    }
}

/// The field elements of each digest of `v`.
pub open spec fn digests_view(v: Seq<Digest>) -> Seq<Seq<u64>> {
    Seq::new(v.len(), |i: int| v[i]@)
}

/// The greatest number of leafs of a mountain range whose nodes can be
/// numbered.
pub const MAX_LEAFS: u64 = 0x8000_0000_0000_0000;

/// What `calculate_new_peaks_from_append` of `twenty-first` makes of the
/// number of leafs, the peaks and a new leaf: the new peaks and the
/// authentication path of the new leaf.
pub uninterp spec fn spec_mmr_append(leaf_count: u64, peaks: Seq<Seq<u64>>, new_leaf: Seq<u64>) -> (
    Seq<Seq<u64>>,
    Seq<Seq<u64>>,
);

/// What `MmrMembershipProof::verify` of `twenty-first` makes of an
/// authentication path, the index of a leaf, the leaf, the peaks and the
/// number of leafs.
pub uninterp spec fn spec_mmr_verify(
    authentication_path: Seq<Seq<u64>>,
    leaf_index: u64,
    leaf: Seq<u64>,
    peaks: Seq<Seq<u64>>,
    leaf_count: u64,
) -> bool;

/// What `Mmr::bag_peaks` of `twenty-first` makes of the peaks and the number
/// of leafs: one digest that commits to the whole range.
pub uninterp spec fn spec_mmr_bag_peaks(peaks: Seq<Seq<u64>>, leaf_count: u64) -> Seq<u64>;

/// What `MmrAccumulator::new_from_leafs` of `twenty-first` makes of a list of
/// leafs: the peaks of the range that holds them.
pub uninterp spec fn spec_mmr_peaks_from_leafs(leafs: Seq<Seq<u64>>) -> Seq<Seq<u64>>;

/// What `Mmr::batch_mutate_leaf_and_update_mps` of `twenty-first` makes of
/// the peaks, the number of leafs, the authentication paths to update with
/// the indices of their leafs, and the mutations, each an index, a new leaf
/// and an authentication path: the new peaks, the updated paths, and the
/// indices of the paths that changed.
pub uninterp spec fn spec_mmr_batch_mutate(
    peaks: Seq<Seq<u64>>,
    leaf_count: u64,
    paths: Seq<Seq<Seq<u64>>>,
    path_leaf_indices: Seq<u64>,
    mutations: Seq<(u64, Seq<u64>, Seq<Seq<u64>>)>,
) -> (Seq<Seq<u64>>, Seq<Seq<Seq<u64>>>, Seq<usize>);

/// A copy of the digests `v`.
pub fn copy_digests(v: &Vec<Digest>) -> (w: Vec<Digest>)
    ensures
        w@ == v@,
{
    let mut w: Vec<Digest> = Vec::new();
    let mut i: usize = 0;
    while i < v.len()
        invariant
            0 <= i <= v.len(),
            w@ == v@.take(i as int),
        decreases v.len() - i,
    {
        w.push(v[i]);
        i += 1;
    }
    w
}

/// The number of ones in the binary representation of `n`.
pub fn count_ones(n: u64) -> (c: u32)
    ensures
        c == popcount(n as nat),
        c <= 64,
{
    let mut c: u32 = 0;
    let mut m: u64 = n;
    let mut bits: u32 = 0;
    proof {
        assert(pow2_of(0) == 1);
        assert((m as nat) * 1 == m as nat);
    }
    while m > 0
        invariant
            c + popcount(m as nat) == popcount(n as nat),
            c <= bits <= 64,
            (m as nat) * pow2_of(bits as nat) <= u64::MAX,
        decreases m,
    {
        proof {
            lemma_pow2_step(m as nat, bits as nat);
        }
        c = c + (m % 2) as u32;
        m = m / 2;
        bits = bits + 1;
    }
    c
}

/// Two to the power `k`.
pub open spec fn pow2_of(k: nat) -> nat
    decreases k,
{
    if k == 0 {
        1
    } else {
        2 * pow2_of((k - 1) as nat)
    }
}

proof fn lemma_pow2_step(m: nat, bits: nat)
    requires
        m > 0,
        m * pow2_of(bits) <= u64::MAX,
    ensures
        bits < 64,
        (m / 2) * pow2_of(bits + 1) <= u64::MAX,
{
    let p = pow2_of(bits);
    assert(pow2_of(bits + 1) == 2 * p);
    assert((m / 2) * (2 * p) <= m * p) by (nonlinear_arith)
        requires
            p >= 0,
    ;
    if bits >= 64 {
        lemma_pow2_grows(64, bits);
        lemma_pow2_64();
        assert(m * p >= p) by (nonlinear_arith)
            requires
                m >= 1,
                p >= 0,
        ;
    }
}

proof fn lemma_pow2_grows(a: nat, b: nat)
    requires
        a <= b,
    ensures
        pow2_of(a) <= pow2_of(b),
    decreases b,
{
    if a < b {
        lemma_pow2_grows(a, (b - 1) as nat);
    }
}

proof fn lemma_pow2_64()
    ensures
        pow2_of(64) == 0x1_0000_0000_0000_0000,
{
    reveal_with_fuel(pow2_of, 65);
}

/// A proof that a leaf is in a mountain range, as `twenty-first` holds it:
/// the siblings along the path from the leaf to its peak.
#[verifier::external_type_specification]
#[verifier::external_body]
pub struct ExMmrMembershipProof(MmrMembershipProof);

/// The field elements of the digests of the authentication path that a
/// membership proof holds, from the leaf upwards.
pub uninterp spec fn proof_path(p: MmrMembershipProof) -> Seq<Seq<u64>>;

/// What `MmrMembershipProof::update_from_append` of `twenty-first` makes of
/// an authentication path, the index of its leaf, the number of leafs and
/// the peaks before a leaf is appended, and the new leaf: the path as it
/// holds of the longer range, and whether it changed.
pub uninterp spec fn spec_mmr_update_from_append(
    path: Seq<Seq<u64>>,
    leaf_index: u64,
    old_leaf_count: u64,
    new_leaf: Seq<u64>,
    old_peaks: Seq<Seq<u64>>,
) -> (Seq<Seq<u64>>, bool);

/// What it takes to change one leaf of a mountain range of which only the
/// accumulator is known: the index of the leaf, its new value, and its
/// membership proof, which is the same before and after.
#[derive(Debug)]
pub struct LeafMutation {
    pub leaf_index: u64,
    pub new_leaf: Digest,
    pub membership_proof: MmrMembershipProof,
}

impl View for LeafMutation {
    type V = (u64, Seq<u64>, Seq<Seq<u64>>);

    open spec fn view(&self) -> (u64, Seq<u64>, Seq<Seq<u64>>) {
        (self.leaf_index, self.new_leaf@, proof_path(self.membership_proof))
    }
}

impl LeafMutation {
    pub fn new(leaf_index: u64, new_leaf: Digest, membership_proof: MmrMembershipProof) -> (m: Self)
        ensures
            m.leaf_index == leaf_index,
            m.new_leaf == new_leaf,
            m.membership_proof == membership_proof,
    {
        LeafMutation { leaf_index, new_leaf, membership_proof }
    }
}

/// A mountain range reduced to its peaks and the number of its leafs.
#[derive(Debug)]
pub struct MmrAccumulator {
    leaf_count: u64,
    peaks: Vec<Digest>,
}

impl MmrAccumulator {
    #[verifier::type_invariant]
    spec fn consistent(self) -> bool {
        self.peaks@.len() == popcount(self.leaf_count as nat)
    }

    /// The number of leafs.
    pub closed spec fn leaf_count(&self) -> u64 {
        self.leaf_count
    }

    /// The peaks, from the highest mountain to the lowest.
    pub closed spec fn peak_digests(&self) -> Seq<Digest> {
        self.peaks@
    }

    /// The field elements of the peaks.
    pub open spec fn peaks_view(&self) -> Seq<Seq<u64>> {
        digests_view(self.peak_digests())
    }

    /// The range without a leaf.
    pub fn new() -> (m: Self)
        ensures
            m.leaf_count() == 0,
            m.peak_digests() == Seq::<Digest>::empty(),
    {
        MmrAccumulator { leaf_count: 0, peaks: Vec::new() }
    }

    /// The accumulator with the given peaks and number of leafs, where there
    /// is one peak for each one in the binary representation of the number.
    pub fn init(peaks: Vec<Digest>, leaf_count: u64) -> (m: Option<Self>)
        ensures
            peaks@.len() == popcount(leaf_count as nat) <==> m is Some,
            m matches Some(acc) ==> acc.leaf_count() == leaf_count && acc.peak_digests() == peaks@,
    {
        if peaks.len() == count_ones(leaf_count) as usize {
            Some(MmrAccumulator { leaf_count, peaks })
        } else {
            None
        }
    }

    /// The accumulator of the range that holds the leafs `leafs`.
    pub fn new_from_leafs(leafs: &Vec<Digest>) -> (m: Self)
        ensures
            m.leaf_count() == leafs@.len(),
            m.peaks_view() == spec_mmr_peaks_from_leafs(digests_view(leafs@)),
    {
        let leaf_count = leafs.len() as u64;
        let peaks = mmr_peaks_from_leafs(leafs);
        MmrAccumulator { leaf_count, peaks }
    }

    /// The number of leafs.
    pub fn num_leafs(&self) -> (n: u64)
        ensures
            n == self.leaf_count(),
    {
        self.leaf_count
    }

    /// Whether the range has no leaf.
    pub fn is_empty(&self) -> (b: bool)
        ensures
            b == (self.leaf_count() == 0),
    {
        self.leaf_count == 0
    }

    /// The peaks.
    pub fn peaks(&self) -> (p: Vec<Digest>)
        ensures
            p@ == self.peak_digests(),
            p@.len() == popcount(self.leaf_count() as nat),
    {
        proof {
            use_type_invariant(self);
        }
        copy_digests(&self.peaks)
    }

    /// One digest that commits to the whole range.
    pub fn bag_peaks(&self) -> (d: Digest)
        ensures
            d@ == spec_mmr_bag_peaks(self.peaks_view(), self.leaf_count()),
    {
        mmr_bag_peaks(&self.peaks, self.leaf_count)
    }

    /// Append a leaf. Returns the membership proof of the new leaf, which
    /// holds of the range as it is now.
    pub fn append(&mut self, new_leaf: Digest) -> (proof_of_leaf: MmrMembershipProof)
        requires
            old(self).leaf_count() < u64::MAX,
        ensures
            final(self).leaf_count() == old(self).leaf_count() + 1,
            spec_mmr_verify(
                proof_path(proof_of_leaf),
                old(self).leaf_count(),
                new_leaf@,
                final(self).peaks_view(),
                final(self).leaf_count(),
            ),
            final(self).peaks_view() == spec_mmr_append(
                old(self).leaf_count(),
                old(self).peaks_view(),
                new_leaf@,
            ).0,
            proof_path(proof_of_leaf) == spec_mmr_append(
                old(self).leaf_count(),
                old(self).peaks_view(),
                new_leaf@,
            ).1,
    {
        proof {
            use_type_invariant(&*self);
        }
        let (peaks, path) = mmr_append(self.leaf_count, &self.peaks, &new_leaf);
        let leaf_count = self.leaf_count + 1;
        *self = MmrAccumulator { leaf_count, peaks };
        path
    }

    /// Whether `membership_proof` shows that `leaf` is the leaf with index
    /// `leaf_index` of this range.
    pub fn verify(&self, membership_proof: &MmrMembershipProof, leaf_index: u64, leaf: &Digest) -> (b:
        bool)
        ensures
            b == spec_mmr_verify(
                proof_path(*membership_proof),
                leaf_index,
                leaf@,
                self.peaks_view(),
                self.leaf_count(),
            ),
    {
        proof {
            use_type_invariant(self);
            lemma_popcount_bound(self.leaf_count as nat);
        }
        mmr_verify(membership_proof, leaf_index, leaf, &self.peaks, self.leaf_count)
    }

    /// Change the leafs that `mutation_data` names, and update the paths
    /// `membership_proofs`, which belong to the leafs with the indices
    /// `membership_proof_leaf_indices`, so that they hold of the new range.
    /// Returns the indices of the paths that changed.
    pub fn batch_mutate_leaf_and_update_mps(
        &mut self,
        membership_proofs: &mut Vec<MmrMembershipProof>,
        membership_proof_leaf_indices: &Vec<u64>,
        mutation_data: &Vec<LeafMutation>,
    ) -> (changed: Vec<usize>)
        requires
            batch_fits(
                old(self).peaks_view(),
                old(self).leaf_count(),
                old(membership_proofs)@,
                membership_proof_leaf_indices@,
                mutation_data@,
            ),
        ensures
            final(self).leaf_count() == old(self).leaf_count(),
            (final(self).peaks_view(), paths_view(final(membership_proofs)@), changed@)
                == spec_mmr_batch_mutate(
                old(self).peaks_view(),
                old(self).leaf_count(),
                paths_view(old(membership_proofs)@),
                membership_proof_leaf_indices@,
                mutations_view(mutation_data@),
            ),
            final(membership_proofs)@.len() == old(membership_proofs)@.len(),
    {
        proof {
            use_type_invariant(&*self);
        }
        let (peaks, changed) = mmr_batch_mutate(
            &self.peaks,
            self.leaf_count,
            membership_proofs,
            membership_proof_leaf_indices,
            mutation_data,
        );
        let leaf_count = self.leaf_count;
        *self = MmrAccumulator { leaf_count, peaks };
        changed
    }

    /// Update a membership proof of the leaf with index `leaf_index` of this
    /// range, so that it holds of the range once `new_leaf` is appended to
    /// it. Returns whether the proof changed. The range itself stays as it
    /// is.
    pub fn update_from_append(
        &self,
        membership_proof: &mut MmrMembershipProof,
        leaf_index: u64,
        new_leaf: &Digest,
    ) -> (changed: bool)
        requires
            self.leaf_count() + 1 < MAX_LEAFS,
            path_fits(
                proof_path(*old(membership_proof)),
                leaf_index,
                self.peaks_view(),
                self.leaf_count(),
            ),
        ensures
            (proof_path(*final(membership_proof)), changed) == spec_mmr_update_from_append(
                proof_path(*old(membership_proof)),
                leaf_index,
                self.leaf_count(),
                new_leaf@,
                self.peaks_view(),
            ),
    {
        proof {
            use_type_invariant(self);
        }
        mmr_update_from_append(membership_proof, leaf_index, self.leaf_count, new_leaf, &self.peaks)
    }

    /// A copy of the accumulator.
    pub fn copy(&self) -> (m: Self)
        ensures
            m.leaf_count() == self.leaf_count(),
            m.peak_digests() == self.peak_digests(),
    {
        proof {
            use_type_invariant(self);
        }
        MmrAccumulator { leaf_count: self.leaf_count, peaks: copy_digests(&self.peaks) }
    }
}

/// A number below `2^64` has at most 64 ones.
pub proof fn lemma_popcount_bound(n: nat)
    ensures
        popcount(n) <= n,
        n <= u64::MAX ==> popcount(n) <= 64,
    decreases n,
{
    if n > 0 {
        lemma_popcount_bound(n / 2);
        if n <= u64::MAX {
            lemma_pow2_64();
            lemma_popcount_bits(n, 64);
        }
    }
}

proof fn lemma_popcount_bits(n: nat, bits: nat)
    requires
        n < pow2_of(bits),
    ensures
        popcount(n) <= bits,
    decreases n,
{
    if n > 0 {
        if bits == 0 {
        } else {
            lemma_popcount_bits(n / 2, (bits - 1) as nat);
        }
    } else {
    }
    lemma_pow2_64();
}

/// Whether some leaf makes `spec_mmr_verify` accept the path for the leaf
/// index: then the index is below the number of leafs and the path is as long
/// as the mountain of the leaf is high.
pub open spec fn path_fits(path: Seq<Seq<u64>>, leaf_index: u64, peaks: Seq<Seq<u64>>, leaf_count: u64) -> bool {
    exists|leaf: Seq<u64>| #[trigger] spec_mmr_verify(path, leaf_index, leaf, peaks, leaf_count)
}

/// The field elements of each mutation: the index of the leaf, the new leaf
/// and the authentication path.
pub open spec fn mutations_view(m: Seq<LeafMutation>) -> Seq<(u64, Seq<u64>, Seq<Seq<u64>>)> {
    Seq::new(m.len(), |i: int| m[i]@)
}

/// The field elements of each path.
pub open spec fn paths_view(p: Seq<MmrMembershipProof>) -> Seq<Seq<Seq<u64>>> {
    Seq::new(p.len(), |i: int| proof_path(p[i]))
}

/// Whether each of the paths fits its leaf index, the mutations fit theirs,
/// and no two mutations name one leaf: what a batch mutation asks of its
/// arguments.
pub open spec fn batch_fits(
    peaks: Seq<Seq<u64>>,
    leaf_count: u64,
    paths: Seq<MmrMembershipProof>,
    path_leaf_indices: Seq<u64>,
    mutations: Seq<LeafMutation>,
) -> bool {
    &&& leaf_count <= MAX_LEAFS
    &&& paths.len() == path_leaf_indices.len()
    &&& forall|i: int|
        0 <= i < paths.len() ==> path_fits(
            proof_path(#[trigger] paths[i]),
            path_leaf_indices[i],
            peaks,
            leaf_count,
        )
    &&& forall|i: int|
        0 <= i < mutations.len() ==> path_fits(
            proof_path((#[trigger] mutations[i]).membership_proof),
            mutations[i].leaf_index,
            peaks,
            leaf_count,
        )
    &&& forall|i: int, j: int|
        0 <= i < j < mutations.len() ==> (#[trigger] mutations[i]).leaf_index != (
        #[trigger] mutations[j]).leaf_index
}

/// Calls `calculate_new_peaks_from_append` of `twenty-first`. The call
/// panics unless there is one peak for each one in the binary representation
/// of the number of leafs, which the contract demands. It names the result
/// after the arguments, and claims, as the source shows, that the new peaks
/// are again one for each one in the number of leafs plus one. It also
/// claims what the documentation of the function says of the path it hands
/// back, that it is the membership proof of the added leaf:
/// `MmrMembershipProof::verify` accepts it for the new leaf, at the index
/// that the number of leafs was, under the new peaks. The source shows why:
/// the path holds the peaks that the new leaf was merged with, one for
/// each trailing one of the old number of leafs, and `verify` hashes the
/// leaf with them in the same order and compares with the last new peak.
#[verifier::external_body]
fn mmr_append(leaf_count: u64, peaks: &Vec<Digest>, new_leaf: &Digest) -> (r: (
    Vec<Digest>,
    MmrMembershipProof,
))
    requires
        peaks@.len() == popcount(leaf_count as nat),
        leaf_count < u64::MAX,
    ensures
        (digests_view(r.0@), proof_path(r.1)) == spec_mmr_append(
            leaf_count,
            digests_view(peaks@),
            new_leaf@,
        ),
        r.0@.len() == popcount((leaf_count + 1) as nat),
        spec_mmr_verify(
            proof_path(r.1),
            leaf_count,
            new_leaf@,
            digests_view(r.0@),
            (leaf_count + 1) as u64,
        ),
{
    let out = |d: &Digest| twenty_first::prelude::Digest(d.values().map(BFieldElement::new));
    let (new_peaks, path) =
        twenty_first::util_types::mmr::shared_basic::calculate_new_peaks_from_append(
        leaf_count,
        peaks.iter().map(out).collect(),
        out(new_leaf),
    );
    (new_peaks.iter().map(|d| Digest::new(d.values().map(|e| e.value()))).collect(), path)
}

/// Calls `MmrMembershipProof::verify` of `twenty-first`. The call panics
/// where the peaks are more than a `u32` can count, which the contract rules
/// out. It names the result after the arguments.
#[verifier::external_body]
fn mmr_verify(
    membership_proof: &MmrMembershipProof,
    leaf_index: u64,
    leaf: &Digest,
    peaks: &Vec<Digest>,
    leaf_count: u64,
) -> (b: bool)
    requires
        peaks@.len() <= u32::MAX,
    ensures
        b == spec_mmr_verify(
            proof_path(*membership_proof),
            leaf_index,
            leaf@,
            digests_view(peaks@),
            leaf_count,
        ),
{
    let out = |d: &Digest| twenty_first::prelude::Digest(d.values().map(BFieldElement::new));
    let ps: Vec<twenty_first::prelude::Digest> = peaks.iter().map(out).collect();
    membership_proof.verify(leaf_index, out(leaf), &ps, leaf_count)
}

/// Calls `Mmr::bag_peaks` of `twenty-first` on the accumulator with the
/// given peaks and number of leafs. It names the result after the arguments.
#[verifier::external_body]
fn mmr_bag_peaks(peaks: &Vec<Digest>, leaf_count: u64) -> (d: Digest)
    ensures
        d@ == spec_mmr_bag_peaks(digests_view(peaks@), leaf_count),
{
    let out = |d: &Digest| twenty_first::prelude::Digest(d.values().map(BFieldElement::new));
    let acc = twenty_first::util_types::mmr::mmr_accumulator::MmrAccumulator::init(
        peaks.iter().map(out).collect(),
        leaf_count,
    );
    Digest::new(acc.bag_peaks().values().map(|e| e.value()))
}

/// Calls `MmrAccumulator::new_from_leafs` of `twenty-first` and hands back
/// the peaks. It names them after the leafs, and claims, as the source shows,
/// that there is one peak for each one in the number of leafs.
#[verifier::external_body]
fn mmr_peaks_from_leafs(leafs: &Vec<Digest>) -> (peaks: Vec<Digest>)
    ensures
        digests_view(peaks@) == spec_mmr_peaks_from_leafs(digests_view(leafs@)),
        peaks@.len() == popcount(leafs@.len()),
{
    let out = |d: &Digest| twenty_first::prelude::Digest(d.values().map(BFieldElement::new));
    let acc = twenty_first::util_types::mmr::mmr_accumulator::MmrAccumulator::new_from_leafs(
        leafs.iter().map(out).collect(),
    );
    acc.peaks().iter().map(|d| Digest::new(d.values().map(|e| e.value()))).collect()
}

/// Calls `Mmr::batch_mutate_leaf_and_update_mps` of `twenty-first` on the
/// accumulator with the given peaks and number of leafs. The call panics
/// where the two lists of paths and leaf indices differ in length, where an
/// index is not below the number of leafs, where two mutations name one
/// leaf, and it leaves the numbering of the nodes where a path is longer than
/// the mountain of its leaf is high or the leafs are more than `2^63`: the
/// contract rules all of that out. It names the result after the arguments,
/// and claims, as the source shows, that the peaks and the paths are as many
/// as before.
#[verifier::external_body]
fn mmr_batch_mutate(
    peaks: &Vec<Digest>,
    leaf_count: u64,
    paths: &mut Vec<MmrMembershipProof>,
    path_leaf_indices: &Vec<u64>,
    mutations: &Vec<LeafMutation>,
) -> (r: (Vec<Digest>, Vec<usize>))
    requires
        peaks@.len() == popcount(leaf_count as nat),
        batch_fits(digests_view(peaks@), leaf_count, old(paths)@, path_leaf_indices@, mutations@),
    ensures
        (digests_view(r.0@), paths_view(final(paths)@), r.1@) == spec_mmr_batch_mutate(
            digests_view(peaks@),
            leaf_count,
            paths_view(old(paths)@),
            path_leaf_indices@,
            mutations_view(mutations@),
        ),
        r.0@.len() == peaks@.len(),
        final(paths)@.len() == old(paths)@.len(),
{
    let out = |d: &Digest| twenty_first::prelude::Digest(d.values().map(BFieldElement::new));
    let mut acc = twenty_first::util_types::mmr::mmr_accumulator::MmrAccumulator::init(
        peaks.iter().map(out).collect(),
        leaf_count,
    );
    let ms = mutations.iter().map(
        |m| twenty_first::util_types::mmr::mmr_trait::LeafMutation::new(m.leaf_index, out(&m.new_leaf), m.membership_proof.clone()),
    ).collect();
    let changed = acc.batch_mutate_leaf_and_update_mps(&mut paths.iter_mut().collect::<Vec<_>>(), path_leaf_indices, ms);
    (acc.peaks().iter().map(|d| Digest::new(d.values().map(|e| e.value()))).collect(), changed)
}

/// Calls `MmrMembershipProof::update_from_append` of `twenty-first`. The
/// call leaves the numbering of the nodes, or misses a digest it looks up,
/// where the path does not belong to a leaf of a range with the given
/// peaks, and it doubles the number of leafs after the append to number
/// the nodes, which a `u64` holds only where that number is below `2^63`:
/// the contract rules both out. It names the result after the arguments.
#[verifier::external_body]
fn mmr_update_from_append(
    membership_proof: &mut MmrMembershipProof,
    leaf_index: u64,
    old_leaf_count: u64,
    new_leaf: &Digest,
    old_peaks: &Vec<Digest>,
) -> (changed: bool)
    requires
        old_peaks@.len() == popcount(old_leaf_count as nat),
        old_leaf_count + 1 < MAX_LEAFS,
        path_fits(
            proof_path(*old(membership_proof)),
            leaf_index,
            digests_view(old_peaks@),
            old_leaf_count,
        ),
    ensures
        (proof_path(*final(membership_proof)), changed) == spec_mmr_update_from_append(
            proof_path(*old(membership_proof)),
            leaf_index,
            old_leaf_count,
            new_leaf@,
            digests_view(old_peaks@),
        ),
{
    let out = |d: &Digest| twenty_first::prelude::Digest(d.values().map(BFieldElement::new));
    let ps: Vec<twenty_first::prelude::Digest> = old_peaks.iter().map(out).collect();
    membership_proof.update_from_append(leaf_index, old_leaf_count, out(new_leaf), &ps)
}

/// Calls `MmrMembershipProof::new` of `twenty-first` on an empty list of
/// digests: the proof with the empty path.
#[verifier::external_body]
pub(crate) fn empty_proof() -> (p: MmrMembershipProof)
    ensures
        proof_path(p) == Seq::<Seq<u64>>::empty(),
{
    MmrMembershipProof::new(Vec::new())
}

/// Calls `clone` on a membership proof of `twenty-first`, which copies the
/// path.
#[verifier::external_body]
pub(crate) fn clone_proof(p: &MmrMembershipProof) -> (c: MmrMembershipProof)
    ensures
        proof_path(c) == proof_path(*p),
{
    p.clone()
}

/// Compares two membership proofs of `twenty-first` with `==`, which
/// compares their paths.
#[verifier::external_body]
pub(crate) fn same_proof(a: &MmrMembershipProof, b: &MmrMembershipProof) -> (same: bool)
    ensures
        same == (proof_path(*a) == proof_path(*b)),
{
    a == b
}

} // verus!
