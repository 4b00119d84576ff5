use neptune_core::digest::Digest;
use neptune_core::mutator_set::addition_record::AdditionRecord;
use neptune_core::mutator_set::archival_mutator_set::ArchivalMutatorSet;
use neptune_core::mutator_set::ms_membership_proof::MsMembershipProof;
use neptune_core::mutator_set::mutator_set_accumulator::MutatorSetAccumulator;
use neptune_core::mutator_set::mutator_set_trait::MutatorSet;
use neptune_core::mutator_set::removal_record::RemovalRecord;
use neptune_core::mutator_set::set_commitment::{get_swbf_indices, SetCommitment, SetCommitmentError};
use neptune_core::mutator_set::shared::{BATCH_SIZE, CHUNK_SIZE, NUM_TRIALS, WINDOW_SIZE};
use rand::{thread_rng, RngCore};
use twenty_first::prelude::{BFieldElement, Tip5};

fn random_digest() -> Digest {
    let mut rng = thread_rng();
    Digest::new([
        rng.next_u64(),
        rng.next_u64(),
        rng.next_u64(),
        rng.next_u64(),
        rng.next_u64(),
    ])
}

fn make_item_and_randomness() -> (Digest, Digest) {
    (random_digest(), random_digest())
}

/// An item and randomness whose bits, for the leaf with the given index, touch the first
/// chunk of the filter, or keep off it.
fn make_item_by_first_chunk(leaf_index: u64, touching: bool) -> (Digest, Digest) {
    loop {
        let (item, randomness) = make_item_and_randomness();
        let bits = get_swbf_indices(&item, &randomness, leaf_index).unwrap();
        if bits.iter().any(|b| *b < CHUNK_SIZE as u128) == touching {
            return (item, randomness);
        }
    }
}

fn has_unique_elements(v: &[u128]) -> bool {
    let mut sorted = v.to_vec();
    sorted.sort_unstable();
    sorted.dedup();
    sorted.len() == v.len()
}

fn outside(d: &Digest) -> twenty_first::prelude::Digest {
    twenty_first::prelude::Digest::new(d.values().map(BFieldElement::new))
}

#[test]
fn get_batch_index_test() {
    // Verify that the method to get batch index returns sane results
    let mut mutator_set: MutatorSetAccumulator = MutatorSet::default();
    assert_eq!(
        0,
        mutator_set.set_commitment.get_batch_index(),
        "Batch index for empty MS must be zero"
    );

    for i in 0..BATCH_SIZE {
        let (item, randomness) = make_item_and_randomness();
        let addition_record = mutator_set.commit(&item, &randomness);
        mutator_set.add(&addition_record);
        assert_eq!(
            0,
            mutator_set.set_commitment.get_batch_index(),
            "Batch index must be 0 after adding {} elements",
            i
        );
    }

    let (item, randomness) = make_item_and_randomness();
    let addition_record = mutator_set.commit(&item, &randomness);
    mutator_set.add(&addition_record);
    assert_eq!(
        1,
        mutator_set.set_commitment.get_batch_index(),
        "Batch index must be one after adding BATCH_SIZE+1 elements"
    );
}

#[test]
fn mutator_set_commitment_test() {
    let empty_set: MutatorSetAccumulator = MutatorSet::default();
    let commitment_to_empty = empty_set.get_commitment();

    // Add one element to append-only commitment list
    let mut set_with_aocl_append: MutatorSetAccumulator = MutatorSet::default();

    let (item0, _randomness) = make_item_and_randomness();

    set_with_aocl_append.set_commitment.aocl.append(item0);
    let commitment_to_aocl_append = set_with_aocl_append.get_commitment();

    assert_ne!(
        commitment_to_empty, commitment_to_aocl_append,
        "Appending to AOCL must change MutatorSet commitment"
    );

    // Manipulate inactive SWBF
    let mut set_with_swbf_inactive_append: MutatorSetAccumulator = MutatorSet::default();
    set_with_swbf_inactive_append
        .set_commitment
        .swbf_inactive
        .append(item0);
    let commitment_to_one_in_inactive = set_with_swbf_inactive_append.get_commitment();
    assert_ne!(
        commitment_to_empty, commitment_to_one_in_inactive,
        "Changing inactive must change MS commitment"
    );
    assert_ne!(
        commitment_to_aocl_append, commitment_to_one_in_inactive,
        "One in AOCL and one in inactive must hash to different digests"
    );

    // Manipulate active window
    let mut active_window_changed = empty_set;
    active_window_changed.set_commitment.swbf_active.insert(42);
    assert_ne!(
        commitment_to_empty,
        active_window_changed.get_commitment(),
        "Changing active window must change commitment"
    );

    // Sanity check bc reasons
    active_window_changed.set_commitment.swbf_active.remove(42);
    assert_eq!(
        commitment_to_empty,
        active_window_changed.get_commitment(),
        "Commitment to empty MS must be consistent"
    );
}

#[test]
fn ms_get_indices_test() {
    // Test that `get_indices` behaves as expected. I.e. that it does not return any
    // duplicates, and always returns something of length `NUM_TRIALS`.
    let (item, randomness) = make_item_and_randomness();
    let ret: Vec<u128> = get_swbf_indices(&item, &randomness, 0).unwrap();
    assert_eq!(NUM_TRIALS as usize, ret.len());
    assert!(has_unique_elements(&ret));
    assert!(ret.iter().all(|&x| x < WINDOW_SIZE as u128));
}

#[test]
fn ms_get_indices_test_big() {
    // Test that `get_indices` behaves as expected. I.e. that it does not return any
    // duplicates, and always returns something of length `NUM_TRIALS`.
    for _ in 0..1000 {
        let (item, randomness) = make_item_and_randomness();
        let ret: Vec<u128> = get_swbf_indices(&item, &randomness, 0).unwrap();
        assert_eq!(NUM_TRIALS as usize, ret.len());
        assert!(has_unique_elements(&ret));
        assert!(ret.iter().all(|&x| x < WINDOW_SIZE as u128));
    }
}

#[test]
fn init_test() {
    let accumulator: MutatorSetAccumulator = MutatorSet::default();
    let archival: ArchivalMutatorSet = ArchivalMutatorSet::new();

    // Verify that function to get batch index does not overflow for the empty MS
    assert_eq!(
        0,
        accumulator.set_commitment.get_batch_index(),
        "Batch index must be zero for empty MS accumulator"
    );
    assert_eq!(
        0,
        archival.accumulator().get_batch_index(),
        "Batch index must be zero for empty archival MS"
    );
}

#[test]
fn verify_future_bits_test() {
    // Ensure that `verify` does not crash when given a membership proof
    // that represents a future addition to the AOCL.
    let mut mutator_set = SetCommitment::new();
    let empty_mutator_set = SetCommitment::new();

    for _ in 0..2 * BATCH_SIZE + 2 {
        let (item, randomness) = make_item_and_randomness();

        let addition_record: AdditionRecord = mutator_set.commit(&item, &randomness);
        let membership_proof: MsMembershipProof = mutator_set.prove(&item, &randomness, false);
        mutator_set.add_helper(&addition_record);
        assert!(mutator_set.verify(&item, &membership_proof));

        // Verify that a future membership proof returns false and does not crash
        assert!(!empty_mutator_set.verify(&item, &membership_proof));
    }
}

#[test]
fn test_add_and_prove() {
    let mut mutator_set: MutatorSetAccumulator = MutatorSet::default();
    let (item0, randomness0) = make_item_and_randomness();

    let addition_record = mutator_set.commit(&item0, &randomness0);
    let membership_proof = mutator_set.prove(&item0, &randomness0, false);

    assert!(!mutator_set.verify(&item0, &membership_proof));

    mutator_set.set_commitment.add_helper(&addition_record);

    assert!(mutator_set.verify(&item0, &membership_proof));

    // Insert a new item and verify that this still works
    let (item1, randomness1) = make_item_and_randomness();
    let addition_record = mutator_set.commit(&item1, &randomness1);
    let membership_proof = mutator_set.prove(&item1, &randomness1, false);
    assert!(!mutator_set.verify(&item1, &membership_proof));

    mutator_set.set_commitment.add_helper(&addition_record);
    assert!(mutator_set.verify(&item1, &membership_proof));

    // Insert ~2*BATCH_SIZE  more elements and
    // verify that it works throughout. The reason we insert this many
    // is that we want to make sure that the window slides into a new
    // position.
    for _ in 0..2 * BATCH_SIZE + 4 {
        let (item, randomness) = make_item_and_randomness();
        let addition_record = mutator_set.commit(&item, &randomness);
        let membership_proof = mutator_set.prove(&item, &randomness, false);
        assert!(!mutator_set.verify(&item, &membership_proof));

        mutator_set.set_commitment.add_helper(&addition_record);
        assert!(mutator_set.verify(&item, &membership_proof));
    }
}

#[test]
fn commit_is_the_hash_of_item_and_randomness() {
    let (item, randomness) = make_item_and_randomness();
    let set = SetCommitment::new();
    let record = set.commit(&item, &randomness);
    let expected = Tip5::hash_pair(outside(&item), outside(&randomness));
    assert_eq!(
        record.canonical_commitment.values(),
        expected.values().map(|e| e.value())
    );
    assert_ne!(record.canonical_commitment, item);
}

#[test]
fn indices_are_ascending_and_lie_in_the_window_of_their_batch() {
    let (item, randomness) = make_item_and_randomness();
    let leaf_index = 5 * BATCH_SIZE as u64 + 3;
    let indices = get_swbf_indices(&item, &randomness, leaf_index).unwrap();
    let start = 5 * CHUNK_SIZE as u128;
    assert_eq!(indices.len(), NUM_TRIALS as usize);
    assert!(indices.windows(2).all(|w| w[0] < w[1]));
    assert!(indices
        .iter()
        .all(|&x| start <= x && x < start + WINDOW_SIZE as u128));
    // the indices are a function of their arguments
    assert_eq!(
        indices,
        get_swbf_indices(&item, &randomness, leaf_index).unwrap()
    );
    assert_ne!(
        indices,
        get_swbf_indices(&item, &randomness, leaf_index + 1).unwrap()
    );
}

#[test]
fn the_first_index_is_the_first_element_of_the_hash_of_the_first_sample() {
    let item = Digest::new([1, 2, 3, 4, 5]);
    let randomness = Digest::new([6, 7, 8, 9, 10]);
    let leaf_index: u64 = (1 << 33) + 17;
    let counter: u64 = 0;
    let mut input: Vec<u64> = vec![];
    input.extend(item.values());
    input.extend([leaf_index % (1 << 32), leaf_index >> 32]);
    input.extend(randomness.values());
    input.extend([counter % (1 << 32), counter >> 32]);
    let elements: Vec<BFieldElement> = input.iter().map(|v| BFieldElement::new(*v)).collect();
    let digest = Tip5::hash_varlen(&elements);
    let sample = (digest.values()[0].value() % WINDOW_SIZE as u64) as u128
        + (leaf_index / BATCH_SIZE as u64) as u128 * CHUNK_SIZE as u128;
    let indices = get_swbf_indices(&item, &randomness, leaf_index).unwrap();
    assert!(indices.contains(&sample));
}

#[test]
fn window_slides_at_the_start_of_each_batch_but_the_first() {
    assert!(!SetCommitment::window_slides(0));
    assert!(!SetCommitment::window_slides(1));
    assert!(SetCommitment::window_slides(BATCH_SIZE as u64));
    assert!(!SetCommitment::window_slides(BATCH_SIZE as u64 + 1));
    assert!(SetCommitment::window_slides(7 * BATCH_SIZE as u64));
    assert!(SetCommitment::window_slides_back(2 * BATCH_SIZE as u64));
}

#[test]
fn adding_returns_the_chunk_that_slid_out() {
    let mut set = SetCommitment::new();
    set.swbf_active.insert(3);
    set.swbf_active.insert(CHUNK_SIZE + 5);
    for i in 0..BATCH_SIZE as u64 {
        let (item, randomness) = make_item_and_randomness();
        let record = set.commit(&item, &randomness);
        assert!(set.add_helper(&record).is_none(), "no slide at {}", i);
    }
    let (item, randomness) = make_item_and_randomness();
    let record = set.commit(&item, &randomness);
    let (chunk_index, chunk) = set.add_helper(&record).unwrap();
    assert_eq!(chunk_index, 0);
    assert_eq!(chunk.relative_indices, vec![3]);
    assert_eq!(set.swbf_active.sbf, vec![5]);
    assert_eq!(set.swbf_inactive.num_leafs(), 1);
    assert_eq!(set.aocl.num_leafs(), BATCH_SIZE as u64 + 1);
}

#[test]
fn a_removed_item_no_longer_verifies() {
    let mut mutator_set: MutatorSetAccumulator = MutatorSet::default();
    let (item, randomness) = make_item_and_randomness();
    let addition_record = mutator_set.commit(&item, &randomness);
    let membership_proof = mutator_set.prove(&item, &randomness, true);
    mutator_set.add(&addition_record);
    assert!(mutator_set.verify(&item, &membership_proof));

    let removal_record: RemovalRecord = mutator_set.drop(&item, &membership_proof).unwrap();
    assert!(removal_record.validate(&mutator_set.set_commitment));
    assert_eq!(removal_record.bit_indices.len(), NUM_TRIALS as usize);
    let (chunks, flipped) = mutator_set.set_commitment.remove_helper(&removal_record);
    assert!(chunks.is_empty());
    assert_eq!(flipped, removal_record.bit_indices);
    assert!(!mutator_set.verify(&item, &membership_proof));

    // removing once more flips nothing
    let (_, flipped_again) = mutator_set.set_commitment.remove_helper(&removal_record);
    assert!(flipped_again.is_empty());
}

#[test]
fn a_record_with_a_bit_beyond_the_window_is_not_applied() {
    let mut mutator_set: MutatorSetAccumulator = MutatorSet::default();
    let (item, randomness) = make_item_and_randomness();
    let membership_proof = mutator_set.prove(&item, &randomness, true);
    let mut removal_record = mutator_set.drop(&item, &membership_proof).unwrap();
    removal_record.bit_indices.push(WINDOW_SIZE as u128);
    assert!(!removal_record.validate(&mutator_set.set_commitment));
    let before = mutator_set.get_commitment();
    assert!(!mutator_set.remove(&removal_record));
    assert_eq!(before, mutator_set.get_commitment());
}

#[test]
fn batch_remove_flips_the_bits_of_all_records() {
    let mut mutator_set: MutatorSetAccumulator = MutatorSet::default();
    let mut items = vec![];
    for _ in 0..3 {
        let (item, randomness) = make_item_and_randomness();
        let addition_record = mutator_set.commit(&item, &randomness);
        let membership_proof = mutator_set.prove(&item, &randomness, true);
        mutator_set.add(&addition_record);
        items.push((item, membership_proof));
    }
    let records: Vec<RemovalRecord> = items[..2]
        .iter()
        .map(|(item, mp)| mutator_set.drop(item, mp).unwrap())
        .collect();
    let mut preserved = vec![items[2].1.copy()];
    let flipped = mutator_set
        .batch_remove(&records, &mut preserved)
        .unwrap();
    let mut expected: Vec<u128> = records
        .iter()
        .flat_map(|r| r.bit_indices.clone())
        .collect();
    expected.sort_unstable();
    expected.dedup();
    assert_eq!(flipped, expected);
    assert!(!mutator_set.verify(&items[0].0, &items[0].1));
    assert!(!mutator_set.verify(&items[1].0, &items[1].1));
    assert!(mutator_set.verify(&items[2].0, &preserved[0]));
}

#[test]
fn the_errors_have_names() {
    assert_eq!(
        SetCommitmentError::MutatorSetIsEmpty.name(),
        "MutatorSetIsEmpty"
    );
    assert_eq!(
        SetCommitmentError::RequestedAoclAuthPathOutOfBounds((1, 2)).name(),
        "RequestedAoclAuthPathOutOfBounds"
    );
    assert_eq!(
        SetCommitmentError::RequestedSwbfAuthPathOutOfBounds((1, 2)).name(),
        "RequestedSwbfAuthPathOutOfBounds"
    );
    assert_eq!(
        SetCommitmentError::RestoreMembershipProofDidNotFindChunkForChunkIndex.name(),
        "RestoreMembershipProofDidNotFindChunkForChunkIndex"
    );
}

fn same_proof(a: &MsMembershipProof, b: &MsMembershipProof) -> bool {
    a.auth_path_aocl == b.auth_path_aocl && a.target_chunks.same_as(&b.target_chunks)
}

#[test]
fn test_membership_proof_update_from_add() {
    let mut mutator_set: MutatorSetAccumulator = MutatorSet::default();
    let (own_item, randomness) = make_item_and_randomness();

    let addition_record = mutator_set.commit(&own_item, &randomness);
    let mut membership_proof = mutator_set.prove(&own_item, &randomness, false);
    mutator_set.set_commitment.add_helper(&addition_record);

    // Update membership proof with add operation. Verify that it has changed, and that it now fails to verify.
    let (new_item, new_randomness) = make_item_and_randomness();
    let new_addition_record = mutator_set.commit(&new_item, &new_randomness);
    let initial_membership_proof = membership_proof.copy();
    let changed_mp = match membership_proof.update_from_addition(
        &own_item,
        &mutator_set.set_commitment,
        &new_addition_record,
    ) {
        Ok(changed) => changed,
        Err(err) => panic!("{}", err.name()),
    };
    assert!(
        changed_mp,
        "Update must indicate that membership proof has changed"
    );
    assert_ne!(
        initial_membership_proof.auth_path_aocl,
        membership_proof.auth_path_aocl
    );
    assert!(
        mutator_set.verify(&own_item, &initial_membership_proof),
        "Initial membership proof must verify prior to addition"
    );
    assert!(
        !mutator_set.verify(&own_item, &membership_proof),
        "New membership proof must fail to verify prior to addition"
    );

    // Insert the new element into the mutator set, then verify that the membership proof works and
    // that the initial membership proof is invalid.
    mutator_set.set_commitment.add_helper(&new_addition_record);
    assert!(
        !mutator_set.verify(&own_item, &initial_membership_proof),
        "Initial membership proof must fail to verify after addition"
    );
    assert!(
        mutator_set.verify(&own_item, &membership_proof),
        "New membership proof must verify after addition"
    );
}

#[test]
fn membership_proof_updating_from_add_pbt() {
    let mut mutator_set: MutatorSetAccumulator = MutatorSet::default();

    let num_additions = (thread_rng().next_u32() % 101) as i32;
    println!(
        "running multiple additions test for {} additions",
        num_additions
    );

    let mut membership_proofs_and_items: Vec<(MsMembershipProof, Digest)> = vec![];
    for i in 0..num_additions {
        println!("loop iteration {}", i);

        let (item, randomness) = make_item_and_randomness();

        let addition_record = mutator_set.commit(&item, &randomness);
        let membership_proof = mutator_set.prove(&item, &randomness, true);

        // Update all membership proofs
        for (mp, item) in membership_proofs_and_items.iter_mut() {
            let initial_mp = mp.copy();
            let changed_res =
                mp.update_from_addition(item, &mutator_set.set_commitment, &addition_record);
            assert!(changed_res.is_ok());

            // verify that the boolean returned value from the updater method is set correctly
            assert_eq!(changed_res.unwrap(), !same_proof(&initial_mp, mp));
        }

        // Add the element
        assert!(!mutator_set.verify(&item, &membership_proof));
        mutator_set.set_commitment.add_helper(&addition_record);
        assert!(mutator_set.verify(&item, &membership_proof));
        membership_proofs_and_items.push((membership_proof, item));

        // Verify that all membership proofs work
        assert!(membership_proofs_and_items
            .iter()
            .all(|(mp, item)| mutator_set.verify(item, mp)));
    }
}

#[test]
fn batch_update_from_addition_and_removal_test() {
    let mut mutator_set: MutatorSetAccumulator = MutatorSet::default();

    // It's important to test number of additions around the shifting of the window,
    // i.e. around batch size.
    let batch_size = BATCH_SIZE as usize;
    let num_additions_list = vec![
        1,
        2,
        batch_size - 1,
        batch_size,
        batch_size + 1,
        6 * batch_size - 1,
        6 * batch_size,
        6 * batch_size + 1,
    ];

    let mut membership_proofs: Vec<MsMembershipProof> = vec![];
    let mut items = vec![];

    for num_additions in num_additions_list {
        for _ in 0..num_additions {
            let (new_item, randomness) = make_item_and_randomness();

            let addition_record = mutator_set.commit(&new_item, &randomness);
            let membership_proof = mutator_set.prove(&new_item, &randomness, true);

            // Update *all* membership proofs with newly added item
            let batch_update_res = MsMembershipProof::batch_update_from_addition(
                &mut membership_proofs,
                &items,
                &mutator_set.set_commitment,
                &addition_record,
            );
            assert!(batch_update_res.is_ok());

            mutator_set.set_commitment.add_helper(&addition_record);
            assert!(mutator_set.verify(&new_item, &membership_proof));

            for (mp, item) in membership_proofs.iter().zip(items.iter()) {
                assert!(mutator_set.verify(item, mp));
            }

            membership_proofs.push(membership_proof);
            items.push(new_item);
        }

        // Remove items from MS, and verify correct updating of membership proofs
        for _ in 0..num_additions {
            let item = items.pop().unwrap();
            let mp = membership_proofs.pop().unwrap();
            assert!(mutator_set.verify(&item, &mp));

            // generate removal record
            let removal_record: RemovalRecord = mutator_set.drop(&item, &mp).unwrap();
            assert!(removal_record.validate(&mutator_set.set_commitment));

            // update membership proofs
            let res = MsMembershipProof::batch_update_from_remove(
                &mut membership_proofs,
                &removal_record,
                &mutator_set.set_commitment,
            );
            assert!(res.is_ok());

            // remove item from set
            mutator_set.set_commitment.remove_helper(&removal_record);
            assert!(!mutator_set.verify(&item, &mp));

            for (item, mp) in items.iter().zip(membership_proofs.iter()) {
                assert!(mutator_set.verify(item, mp));
            }
        }
    }
}

#[test]
fn test_multiple_adds() {
    let mut mutator_set: MutatorSetAccumulator = MutatorSet::default();

    let num_additions = 65;

    let mut items_and_membership_proofs: Vec<(Digest, MsMembershipProof)> = vec![];

    for _ in 0..num_additions {
        let (new_item, randomness) = make_item_and_randomness();

        let addition_record = mutator_set.commit(&new_item, &randomness);
        let membership_proof = mutator_set.prove(&new_item, &randomness, true);

        // Update *all* membership proofs with newly added item
        for (updatee_item, mp) in items_and_membership_proofs.iter_mut() {
            let initial_mp = mp.copy();
            assert!(mutator_set.verify(updatee_item, mp));
            let changed_res = mp.update_from_addition(
                updatee_item,
                &mutator_set.set_commitment,
                &addition_record,
            );
            assert!(changed_res.is_ok());

            // verify that the boolean returned value from the updater method is set correctly
            assert_eq!(changed_res.unwrap(), !same_proof(&initial_mp, mp));
        }

        mutator_set.set_commitment.add_helper(&addition_record);
        assert!(mutator_set.verify(&new_item, &membership_proof));

        (0..items_and_membership_proofs.len()).for_each(|j| {
            let (old_item, mp) = &items_and_membership_proofs[j];
            assert!(mutator_set.verify(old_item, mp))
        });

        items_and_membership_proofs.push((new_item, membership_proof));
    }

    // Verify all membership proofs
    (0..items_and_membership_proofs.len()).for_each(|k| {
        assert!(mutator_set.verify(
            &items_and_membership_proofs[k].0,
            &items_and_membership_proofs[k].1,
        ));
    });

    // Remove items from MS, and verify correct updating of membership proof
    (0..num_additions).for_each(|i| {
        (i..items_and_membership_proofs.len()).for_each(|k| {
            assert!(mutator_set.verify(
                &items_and_membership_proofs[k].0,
                &items_and_membership_proofs[k].1,
            ));
        });
        let (item, mp) = (
            items_and_membership_proofs[i].0,
            items_and_membership_proofs[i].1.copy(),
        );

        assert!(mutator_set.verify(&item, &mp));

        // generate removal record
        let removal_record: RemovalRecord = mutator_set.drop(&item, &mp).unwrap();
        assert!(removal_record.validate(&mutator_set.set_commitment));
        (i..items_and_membership_proofs.len()).for_each(|k| {
            assert!(mutator_set.verify(
                &items_and_membership_proofs[k].0,
                &items_and_membership_proofs[k].1,
            ));
        });

        // update membership proofs
        ((i + 1)..num_additions).for_each(|j| {
            assert!(mutator_set.verify(
                &items_and_membership_proofs[j].0,
                &items_and_membership_proofs[j].1
            ));
            assert!(removal_record.validate(&mutator_set.set_commitment));
            let update_res = items_and_membership_proofs[j]
                .1
                .update_from_remove(&removal_record.copy(), &mutator_set.set_commitment);
            assert!(update_res.is_ok());
            assert!(removal_record.validate(&mutator_set.set_commitment));
        });

        // remove item from set
        mutator_set.set_commitment.remove_helper(&removal_record);
        assert!(!mutator_set.verify(&item, &mp));

        ((i + 1)..items_and_membership_proofs.len()).for_each(|k| {
            assert!(mutator_set.verify(
                &items_and_membership_proofs[k].0,
                &items_and_membership_proofs[k].1,
            ));
        });
    });
}

#[test]
fn a_proof_that_does_not_fit_the_set_cannot_follow_an_addition() {
    let mut mutator_set: MutatorSetAccumulator = MutatorSet::default();
    let (item, randomness) = make_item_and_randomness();
    let addition_record = mutator_set.commit(&item, &randomness);
    let mut membership_proof = mutator_set.prove(&item, &randomness, true);
    // the set is empty
    assert_eq!(
        membership_proof.update_from_addition(&item, &mutator_set.set_commitment, &addition_record),
        Err(SetCommitmentError::MutatorSetIsEmpty)
    );
    // the proof is of an item that is not in the set
    let (other, other_randomness) = make_item_and_randomness();
    let other_record = mutator_set.commit(&other, &other_randomness);
    mutator_set.add(&other_record);
    assert_eq!(
        membership_proof.update_from_addition(&item, &mutator_set.set_commitment, &addition_record),
        Err(SetCommitmentError::RequestedAoclAuthPathOutOfBounds((0, 1)))
    );
}

#[test]
fn removal_records_follow_a_slide_of_the_window() {
    let mut mutator_set: MutatorSetAccumulator = MutatorSet::default();
    let mut coins = vec![];
    for i in 0..BATCH_SIZE {
        let (item, randomness) = make_item_by_first_chunk(i as u64, i % 2 == 0);
        let addition_record = mutator_set.commit(&item, &randomness);
        let membership_proof = mutator_set.prove(&item, &randomness, true);
        let items: Vec<Digest> = coins.iter().map(|(i, _): &(Digest, MsMembershipProof)| *i).collect();
        let mut proofs: Vec<MsMembershipProof> = coins.iter().map(|(_, p)| p.copy()).collect();
        MsMembershipProof::batch_update_from_addition(
            &mut proofs,
            &items,
            &mutator_set.set_commitment,
            &addition_record,
        )
        .unwrap();
        coins = items.into_iter().zip(proofs).collect();
        mutator_set.add(&addition_record);
        coins.push((item, membership_proof));
    }
    let mut records: Vec<RemovalRecord> = coins
        .iter()
        .map(|(item, mp)| mutator_set.drop(item, mp).unwrap())
        .collect();
    assert!(records
        .iter()
        .all(|r| r.validate(&mutator_set.set_commitment) && r.target_chunks.len() == 0));

    // the next addition makes the window slide
    let (item, randomness) = make_item_and_randomness();
    let addition_record = mutator_set.commit(&item, &randomness);
    RemovalRecord::batch_update_from_addition(&mut records, &mutator_set.set_commitment).unwrap();
    mutator_set.add(&addition_record);
    assert!(records.iter().all(|r| r.validate(&mutator_set.set_commitment)));
    // a record holds the chunk that slid out if and only if one of its bits lies in it
    for (i, record) in records.iter().enumerate() {
        let touches = record.bit_indices.iter().any(|b| *b < CHUNK_SIZE as u128);
        assert_eq!(touches, i % 2 == 0);
        assert_eq!(record.target_chunks.len(), if touches { 1 } else { 0 });
    }
    // a record with a chunk can be applied; after that, the records that hold a copy of
    // that chunk are out of date, and are not applied
    let first = records
        .iter()
        .position(|r| r.target_chunks.len() == 1)
        .expect("every other record touches the first chunk");
    assert!(mutator_set.remove(&records[first]));
    for (i, record) in records.iter().enumerate() {
        if i != first && record.target_chunks.len() == 1 {
            assert!(!record.validate(&mutator_set.set_commitment));
            assert!(!mutator_set.remove(record));
        }
    }
}

#[test]
fn removal_records_follow_a_removal() {
    let mut mutator_set: MutatorSetAccumulator = MutatorSet::default();
    let mut coins = vec![];
    for i in 0..BATCH_SIZE {
        let (item, randomness) = make_item_by_first_chunk(i as u64, i % 2 == 0);
        let addition_record = mutator_set.commit(&item, &randomness);
        let membership_proof = mutator_set.prove(&item, &randomness, true);
        let items: Vec<Digest> = coins.iter().map(|(i, _): &(Digest, MsMembershipProof)| *i).collect();
        let mut proofs: Vec<MsMembershipProof> = coins.iter().map(|(_, p)| p.copy()).collect();
        MsMembershipProof::batch_update_from_addition(
            &mut proofs,
            &items,
            &mutator_set.set_commitment,
            &addition_record,
        )
        .unwrap();
        coins = items.into_iter().zip(proofs).collect();
        mutator_set.add(&addition_record);
        coins.push((item, membership_proof));
    }
    let mut records: Vec<RemovalRecord> = coins
        .iter()
        .map(|(item, mp)| mutator_set.drop(item, mp).unwrap())
        .collect();

    // the next addition makes the window slide, so that the records get chunks
    let (item, randomness) = make_item_and_randomness();
    let addition_record = mutator_set.commit(&item, &randomness);
    RemovalRecord::batch_update_from_addition(&mut records, &mutator_set.set_commitment).unwrap();
    mutator_set.add(&addition_record);
    let with_chunks = records.iter().filter(|r| r.target_chunks.len() == 1).count();
    assert_eq!(with_chunks, BATCH_SIZE as usize / 2);

    // apply the records one after the other; those that wait follow each removal
    records.reverse();
    let mut applied = 0;
    while let Some(record) = records.pop() {
        let stale: Vec<RemovalRecord> = records.iter().map(|r| r.copy()).collect();
        RemovalRecord::batch_update_from_remove(&mut records, &record, &mutator_set.set_commitment)
            .unwrap();
        let inactive_before = mutator_set.set_commitment.swbf_inactive.bag_peaks();
        assert!(mutator_set.remove(&record));
        applied += 1;
        let chunk_changed = inactive_before != mutator_set.set_commitment.swbf_inactive.bag_peaks();
        assert!(records.iter().all(|r| r.validate(&mutator_set.set_commitment)));
        for (old, new) in stale.iter().zip(records.iter()) {
            assert_eq!(old.bit_indices, new.bit_indices);
            assert_eq!(old.target_chunks.len(), new.target_chunks.len());
            // a record that holds the chunk that changed went out of date
            if chunk_changed && old.target_chunks.len() == 1 {
                assert!(!old.validate(&mutator_set.set_commitment));
            }
        }
    }
    assert_eq!(applied, BATCH_SIZE as usize);
    for (item, mp) in coins.iter() {
        assert!(!mutator_set.verify(item, mp));
    }

    // a record that does not fit the set makes the update fail, and nothing changes
    let mut waiting = vec![];
    let mut other: MutatorSetAccumulator = MutatorSet::default();
    let (item, randomness) = make_item_and_randomness();
    let proof = other.prove(&item, &randomness, true);
    other.add(&other.commit(&item, &randomness));
    let mut far = other.drop(&item, &proof).unwrap();
    far.bit_indices[0] = (WINDOW_SIZE as u128) * 4;
    assert!(
        RemovalRecord::batch_update_from_remove(&mut waiting, &far, &other.set_commitment).is_err()
    );
}
