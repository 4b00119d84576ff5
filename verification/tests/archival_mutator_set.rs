use neptune_core::block_height::BlockHeight;
use neptune_core::block_index::BlockIndex;
use neptune_core::digest::Digest;
use neptune_core::error::NodeError;
use neptune_core::mutator_set::addition_record::AdditionRecord;
use neptune_core::mutator_set::archival_mutator_set::ArchivalMutatorSet;
use neptune_core::mutator_set::active_window::ActiveWindow;
use neptune_core::mutator_set::chunk::Chunk;
use neptune_core::mutator_set::chunk_dictionary::ChunkDictionary;
use neptune_core::mutator_set::ms_membership_proof::MsMembershipProof;
use neptune_core::mutator_set::mutator_set_accumulator::MutatorSetAccumulator;
use neptune_core::mutator_set::mutator_set_trait::MutatorSet;
use neptune_core::mutator_set::removal_record::RemovalRecord;
use neptune_core::mutator_set::shared::{BATCH_SIZE, CHUNK_SIZE, WINDOW_SIZE};
use rand::{thread_rng, RngCore};

fn fresh_digest() -> Digest {
    let mut rng = thread_rng();
    Digest::new([
        rng.next_u64(),
        rng.next_u64(),
        rng.next_u64(),
        rng.next_u64(),
        rng.next_u64(),
    ])
}

/// What the test compares of a set: its leafs, its chunks, its window and its commitment.
fn snapshot(set: &ArchivalMutatorSet) -> (u64, Vec<Vec<u32>>, Vec<u32>, Digest) {
    (
        set.count_leaves(),
        set.chunks.iter().map(|c| c.to_indices()).collect(),
        set.swbf_active.to_vec_u32(),
        set.get_commitment(),
    )
}

/// A block for the two sets: `outputs` new items, and the removal of the given items. The
/// accumulator is brought forward, and the proofs that are kept follow it.
fn make_block(
    accumulator: &mut MutatorSetAccumulator,
    kept: &mut Vec<(Digest, MsMembershipProof)>,
    outputs: usize,
    spend: &[usize],
) -> (Vec<AdditionRecord>, Vec<RemovalRecord>) {
    let removals: Vec<RemovalRecord> = spend
        .iter()
        .map(|i| accumulator.drop(&kept[*i].0, &kept[*i].1).unwrap())
        .collect();
    let mut additions = vec![];
    let mut pending: Vec<RemovalRecord> = removals.iter().map(|r| r.copy()).collect();
    for _ in 0..outputs {
        let (item, randomness) = (fresh_digest(), fresh_digest());
        let addition_record = accumulator.commit(&item, &randomness);
        let membership_proof = accumulator.prove(&item, &randomness, true);
        let items: Vec<Digest> = kept.iter().map(|(i, _)| *i).collect();
        let mut proofs: Vec<MsMembershipProof> = kept.iter().map(|(_, p)| p.copy()).collect();
        MsMembershipProof::batch_update_from_addition(
            &mut proofs,
            &items,
            &accumulator.set_commitment,
            &addition_record,
        )
        .unwrap();
        RemovalRecord::batch_update_from_addition(&mut pending, &accumulator.set_commitment)
            .unwrap();
        accumulator.add(&addition_record);
        *kept = items.into_iter().zip(proofs).collect();
        kept.push((item, membership_proof));
        additions.push(addition_record);
    }
    pending.reverse();
    while let Some(record) = pending.pop() {
        let mut proofs: Vec<MsMembershipProof> = kept.iter().map(|(_, p)| p.copy()).collect();
        MsMembershipProof::batch_update_from_remove(
            &mut proofs,
            &record,
            &accumulator.set_commitment,
        )
        .unwrap();
        RemovalRecord::batch_update_from_remove(&mut pending, &record, &accumulator.set_commitment)
            .unwrap();
        assert!(accumulator.remove(&record));
        for (entry, proof) in kept.iter_mut().zip(proofs) {
            entry.1 = proof;
        }
    }
    (additions, removals)
}

#[test]
fn the_empty_archival_set_commits_as_the_empty_accumulator() {
    let archival = ArchivalMutatorSet::new();
    let accumulator: MutatorSetAccumulator = MutatorSet::default();
    assert_eq!(archival.count_leaves(), 0);
    assert_eq!(archival.get_commitment(), accumulator.get_commitment());
}

#[test]
fn additions_are_taken_back_in_reverse() {
    let mut archival = ArchivalMutatorSet::new();
    let mut accumulator: MutatorSetAccumulator = MutatorSet::default();
    let mut records = vec![];
    let mut snapshots = vec![snapshot(&archival)];
    // twenty additions: the window slides at the ninth and at the seventeenth
    for i in 0..20u64 {
        let record = accumulator.commit(&fresh_digest(), &fresh_digest());
        accumulator.add(&record);
        archival.add(&record);
        assert_eq!(archival.count_leaves(), i + 1);
        assert_eq!(archival.chunks.len() as u64, i / BATCH_SIZE as u64);
        assert_eq!(archival.get_commitment(), accumulator.get_commitment());
        records.push(record);
        snapshots.push(snapshot(&archival));
    }
    assert_eq!(archival.chunks.len(), 2);
    while let Some(record) = records.pop() {
        snapshots.pop();
        assert_eq!(archival.revert_add(&record), Ok(()));
        assert_eq!(&snapshot(&archival), snapshots.last().unwrap());
    }
    assert_eq!(archival.count_leaves(), 0);
    assert_eq!(
        archival.get_commitment(),
        ArchivalMutatorSet::new().get_commitment()
    );
}

#[test]
fn an_addition_is_taken_back_only_where_it_is_the_last() {
    let mut archival = ArchivalMutatorSet::new();
    let first = AdditionRecord::new(fresh_digest());
    let second = AdditionRecord::new(fresh_digest());
    // nothing to take back
    assert_eq!(
        archival.revert_add(&first),
        Err(NodeError::MutatorSetInvariantViolated)
    );
    archival.add(&first);
    archival.add(&second);
    let before = snapshot(&archival);
    // not the last addition
    assert_eq!(
        archival.revert_add(&first),
        Err(NodeError::MutatorSetInvariantViolated)
    );
    assert_eq!(snapshot(&archival), before);
    assert_eq!(archival.revert_add(&second), Ok(()));
    assert_eq!(archival.revert_add(&first), Ok(()));
}

#[test]
fn a_block_is_rolled_back_by_its_diff() {
    let mut archival = ArchivalMutatorSet::new();
    let mut accumulator: MutatorSetAccumulator = MutatorSet::default();
    let mut kept = vec![];
    let (additions, removals) = make_block(&mut accumulator, &mut kept, 3, &[]);
    assert!(removals.is_empty());
    assert_eq!(archival.apply_block(&additions, &removals), Ok(vec![]));
    assert_eq!(archival.get_commitment(), accumulator.get_commitment());
    let before = snapshot(&archival);

    // a block that spends two items and adds two
    let (additions, removals) = make_block(&mut accumulator, &mut kept, 2, &[0, 2]);
    let diff = archival.apply_block(&additions, &removals).unwrap();
    assert_eq!(archival.get_commitment(), accumulator.get_commitment());
    assert_eq!(archival.count_leaves(), 5);
    // the diff holds the bits of both records, each once, in ascending order
    let mut expected: Vec<u128> = removals
        .iter()
        .flat_map(|r| r.bit_indices.iter().copied())
        .collect();
    expected.sort_unstable();
    expected.dedup();
    assert_eq!(diff, expected);
    assert!(diff.iter().all(|bit| archival.bit_is_set(*bit)));

    assert_eq!(archival.revert_block(&additions, &diff), Ok(()));
    assert_eq!(snapshot(&archival), before);
    assert!(diff.iter().all(|bit| !archival.bit_is_set(*bit)));
}

#[test]
fn blocks_are_rolled_back_in_reverse() {
    let mut archival = ArchivalMutatorSet::new();
    let mut accumulator: MutatorSetAccumulator = MutatorSet::default();
    let mut kept = vec![];
    let mut applied = vec![];
    let mut snapshots = vec![snapshot(&archival)];
    // five blocks of five outputs each, the later ones spending an item of an earlier batch:
    // the window slides three times, and bits are set in chunks that left the window
    for block in 0..5usize {
        let spend: Vec<usize> = if block == 0 { vec![] } else { vec![block - 1, 5 * block - 1] };
        let (additions, removals) = make_block(&mut accumulator, &mut kept, 5, &spend);
        let diff = archival.apply_block(&additions, &removals).unwrap();
        assert_eq!(archival.get_commitment(), accumulator.get_commitment());
        // the diff holds the bits of the records that were not set before, each once
        assert!(diff.len() <= removals.len() * 45);
        assert!(diff.windows(2).all(|pair| pair[0] < pair[1]));
        assert!(diff
            .iter()
            .all(|bit| removals.iter().any(|r| r.bit_indices.contains(bit))));
        applied.push((additions, diff));
        snapshots.push(snapshot(&archival));
    }
    assert_eq!(archival.count_leaves(), 25);
    assert_eq!(archival.chunks.len(), 3);
    while let Some((additions, diff)) = applied.pop() {
        snapshots.pop();
        assert_eq!(archival.revert_block(&additions, &diff), Ok(()));
        assert_eq!(&snapshot(&archival), snapshots.last().unwrap());
    }
    assert_eq!(archival.count_leaves(), 0);
    assert!(archival.swbf_active.sbf.is_empty());
    assert!(archival.chunks.is_empty());
}

#[test]
fn a_bit_that_is_not_set_is_not_cleared() {
    let mut archival = ArchivalMutatorSet::new();
    archival.add(&AdditionRecord::new(fresh_digest()));
    let record = RemovalRecord {
        bit_indices: vec![3, 700, 70_000],
        target_chunks: ChunkDictionary::new(),
    };
    let diff = archival.apply_block(&vec![], &vec![record]).unwrap();
    assert_eq!(diff, vec![3, 700, 70_000]);
    assert!(archival.bit_is_set(700));
    let before = snapshot(&archival);
    assert_eq!(
        archival.revert_remove(&vec![3, 701]),
        Err(NodeError::MutatorSetInvariantViolated)
    );
    assert_eq!(snapshot(&archival), before);
    assert_eq!(archival.revert_remove(&diff), Ok(()));
    assert!(!archival.bit_is_set(700));
    assert!(archival.swbf_active.sbf.is_empty());
}

#[test]
fn a_bit_beyond_the_filter_is_not_set() {
    let mut archival = ArchivalMutatorSet::new();
    archival.add(&AdditionRecord::new(fresh_digest()));
    let before = snapshot(&archival);
    let record = RemovalRecord {
        bit_indices: vec![3, WINDOW_SIZE as u128],
        target_chunks: ChunkDictionary::new(),
    };
    assert_eq!(
        archival.apply_block(&vec![], &vec![record]),
        Err(NodeError::MutatorSetInvariantViolated)
    );
    assert_eq!(snapshot(&archival), before);
}

#[test]
fn the_window_does_not_slide_back_over_a_set_bit() {
    let mut archival = ArchivalMutatorSet::new();
    let mut records = vec![];
    for _ in 0..BATCH_SIZE + 1 {
        let record = AdditionRecord::new(fresh_digest());
        archival.add(&record);
        records.push(record);
    }
    assert_eq!(archival.chunks.len(), 1);
    // a bit in the last chunk of the window, which came into the window with the slide
    let last_bit = CHUNK_SIZE as u128 + WINDOW_SIZE as u128 - 1;
    let record = RemovalRecord {
        bit_indices: vec![last_bit],
        target_chunks: ChunkDictionary::new(),
    };
    let diff = archival.apply_block(&vec![], &vec![record]).unwrap();
    assert_eq!(diff, vec![last_bit]);
    let before = snapshot(&archival);
    assert_eq!(
        archival.revert_add(records.last().unwrap()),
        Err(NodeError::MutatorSetInvariantViolated)
    );
    assert_eq!(snapshot(&archival), before);
    // once the bit is cleared the addition can be taken back
    assert_eq!(archival.revert_remove(&diff), Ok(()));
    assert_eq!(archival.revert_add(records.last().unwrap()), Ok(()));
    assert!(archival.chunks.is_empty());
}

#[test]
fn the_archival_set_proves_and_verifies_as_its_accumulator_does() {
    let mut archival: ArchivalMutatorSet = MutatorSet::default();
    let mut accumulator: MutatorSetAccumulator = MutatorSet::default();
    assert_eq!(archival.count_leaves(), 0);
    assert!(archival.aocl_leaves.is_empty() && archival.chunks.is_empty());
    assert!(accumulator.set_commitment.aocl.peaks().is_empty());
    assert!(accumulator.set_commitment.swbf_inactive.peaks().is_empty());

    let mut coins: Vec<(Digest, MsMembershipProof)> = vec![];
    // ten additions: the window slides once
    for i in 0..10u64 {
        let (item, randomness) = (fresh_digest(), fresh_digest());
        let record = archival.commit(&item, &randomness);
        assert_eq!(
            record.canonical_commitment,
            accumulator.commit(&item, &randomness).canonical_commitment
        );
        let proof = archival.prove(&item, &randomness, i % 2 == 0);
        let same = accumulator.prove(&item, &randomness, i % 2 == 0);
        assert_eq!(proof.randomness, randomness);
        assert_eq!(proof.aocl_leaf_index, i);
        assert_eq!(proof.auth_path_aocl, same.auth_path_aocl);
        assert_eq!(proof.target_chunks.len(), 0);
        assert_eq!(proof.cached_bits.is_some(), i % 2 == 0);
        assert_eq!(proof.cached_bits, same.cached_bits);
        // not yet added: not verified
        assert!(!archival.verify(&item, &proof));

        let items: Vec<Digest> = coins.iter().map(|(item, _)| *item).collect();
        let mut proofs: Vec<MsMembershipProof> = coins.iter().map(|(_, p)| p.copy()).collect();
        MsMembershipProof::batch_update_from_addition(
            &mut proofs,
            &items,
            &accumulator.set_commitment,
            &record,
        )
        .unwrap();
        coins = items.into_iter().zip(proofs).collect();
        archival.add(&record);
        accumulator.add(&record);
        coins.push((item, proof));
        for (item, proof) in coins.iter() {
            assert!(archival.verify(item, proof));
            assert!(accumulator.verify(item, proof));
        }
        // a proof of another item, or of another place in the list, is not verified
        assert!(!archival.verify(&fresh_digest(), &coins[0].1));
    }
    assert_eq!(archival.chunks.len(), 1);

    // once an item is removed, neither verifies it
    let (item, proof) = (coins[3].0, coins[3].1.copy());
    let removal = archival.drop(&item, &proof).unwrap();
    assert_eq!(
        removal.bit_indices,
        accumulator.drop(&item, &proof).unwrap().bit_indices
    );
    assert!(accumulator.remove(&removal));
    assert!(archival.remove(&removal));
    assert_eq!(archival.get_commitment(), accumulator.get_commitment());
    assert!(!archival.verify(&item, &proof));
    assert!(!accumulator.verify(&item, &proof));
}

#[test]
fn an_empty_catalog_holds_nothing() {
    let index = BlockIndex::new();
    assert!(index.blocks.is_empty() && index.files.is_empty() && index.heights.is_empty());
    assert!(index.tip.is_none() && index.last_file.is_none());
    assert_eq!(index.get_last_file().last_file, 0);
    assert!(index.get_file_record(0).is_none());
    assert!(index.get_block_record(&fresh_digest()).is_none());
    assert!(index
        .block_height_to_block_digests(BlockHeight::genesis())
        .is_empty());
    let dictionary = ChunkDictionary::new();
    assert_eq!(dictionary.len(), 0);
    assert!(!dictionary.contains_key(0));
}

#[test]
fn a_stored_set_is_restored_where_it_is_one() {
    let mut archival = ArchivalMutatorSet::new();
    for _ in 0..12 {
        archival.add(&AdditionRecord::new(fresh_digest()));
    }
    let record = RemovalRecord {
        bit_indices: vec![3, 4097, 70_000],
        target_chunks: ChunkDictionary::new(),
    };
    archival.apply_block(&vec![], &vec![record]).unwrap();
    let leafs = archival.aocl_leaves.clone();
    let chunks = || archival.chunks.iter().map(|c| c.clone()).collect::<Vec<Chunk>>();
    let window = || archival.swbf_active.clone();

    let restored = ArchivalMutatorSet::restore(leafs.clone(), chunks(), window()).unwrap();
    assert_eq!(snapshot(&restored), snapshot(&archival));
    assert!(restored.bit_is_set(3) && restored.bit_is_set(4097) && restored.bit_is_set(70_000));

    // the empty set
    let empty = ArchivalMutatorSet::restore(vec![], vec![], ActiveWindow::new()).unwrap();
    assert_eq!(snapshot(&empty), snapshot(&ArchivalMutatorSet::new()));

    // twelve leafs make one chunk, not none and not two
    assert!(ArchivalMutatorSet::restore(leafs.clone(), vec![], window()).is_none());
    let mut two = chunks();
    two.push(Chunk::empty_chunk());
    assert!(ArchivalMutatorSet::restore(leafs.clone(), two, window()).is_none());
    assert!(ArchivalMutatorSet::restore(leafs[..8].to_vec(), chunks(), window()).is_none());
    assert!(ArchivalMutatorSet::restore(leafs[..9].to_vec(), chunks(), window()).is_some());
    // a window out of order, or beyond its bounds
    for positions in [vec![5, 4], vec![0, WINDOW_SIZE]] {
        let bad = ActiveWindow::from_vec_u32(&positions);
        assert!(ArchivalMutatorSet::restore(leafs.clone(), chunks(), bad).is_none());
    }
    // a chunk out of order, or beyond its bounds
    for positions in [vec![9, 2], vec![CHUNK_SIZE]] {
        let bad = vec![Chunk::from_indices(&positions)];
        assert!(ArchivalMutatorSet::restore(leafs.clone(), bad, window()).is_none());
    }
    // equal neighbours are in order
    let twice = ActiveWindow::from_vec_u32(&[7, 7, 9]);
    assert!(ArchivalMutatorSet::restore(leafs.clone(), chunks(), twice).is_some());
}
