use neptune_core::archival_state::{ArchivalState, BlockSource};
use neptune_core::block::{Block, BlockBody, BlockHeader, MutatorSetUpdate, TransactionKernel};
use neptune_core::block_height::BlockHeight;
use neptune_core::block_index::{
    new_block_file_is_needed, BlockFileLocation, BlockIndex, FileRecord, LastFileRecord,
};
use neptune_core::difficulty::{Difficulty, ProofOfWork};
use neptune_core::digest::Digest;
use neptune_core::error::NodeError;
use neptune_core::mutator_set::ms_membership_proof::MsMembershipProof;
use neptune_core::mutator_set::mutator_set_accumulator::MutatorSetAccumulator;
use neptune_core::mutator_set::mutator_set_trait::MutatorSet;
use neptune_core::mutator_set::removal_record::RemovalRecord;
use neptune_core::timestamp::Timestamp;
use rand::{thread_rng, RngCore};

const BLOCK_SIZE: usize = 1000;
const MAX_FILE_SIZE: u64 = 10_000;

fn random_digest() -> Digest {
    let mut rng = thread_rng();
    Digest::new([
        rng.next_u64(),
        rng.next_u64(),
        rng.next_u64(),
        rng.next_u64(),
        rng.next_u64(),
    ])
}

/// An item of a block that may be spent later: the item and its membership proof.
struct Coin {
    item: Digest,
    membership_proof: MsMembershipProof,
}

fn genesis_block() -> Block {
    let mut ms: MutatorSetAccumulator = MutatorSet::default();
    let empty = ms.copy();
    let premine = ms.commit(&Digest::new([1, 2, 3, 4, 5]), &Digest::new([6, 7, 8, 9, 10]));
    ms.add(&premine);
    let header = BlockHeader {
        version: 0,
        height: BlockHeight::genesis(),
        mutator_set_hash: ms.get_commitment(),
        prev_block_digest: Digest::default(),
        timestamp: Timestamp::millis(1_655_916_990_000),
        nonce: [0, 0, 0],
        max_block_size: 10_000,
        proof_of_work_line: ProofOfWork::zero(),
        proof_of_work_family: ProofOfWork::zero(),
        difficulty: Difficulty::minimum(),
        block_body_merkle_root: Digest::default(),
        uncles: vec![],
    };
    let body = BlockBody {
        transaction: TransactionKernel {
            inputs: vec![],
            outputs: vec![premine],
            script_commitments: vec![],
            fee: 0,
            timestamp: Timestamp::millis(1_655_916_990_000),
        },
        mutator_set_update: MutatorSetUpdate {
            removals: vec![],
            additions: vec![premine],
        },
        next_mutator_set_accumulator: ms,
        previous_mutator_set_accumulator: empty,
        stark_proof: vec![],
    };
    Block::new(header, body)
}

/// A block on top of `previous` with a coinbase output, further outputs, and the given inputs.
fn make_block(
    previous: &Block,
    difficulty: Option<Difficulty>,
    inputs: Vec<RemovalRecord>,
    extra_outputs: usize,
) -> (Block, Vec<Coin>) {
    let mut ms = previous.body.next_mutator_set_accumulator.copy();
    let previous_ms = ms.copy();
    let mut additions = vec![];
    let mut items: Vec<Digest> = vec![];
    let mut proofs: Vec<MsMembershipProof> = vec![];
    // the inputs hold of the set before the block; copies of them follow the set
    let mut pending: Vec<RemovalRecord> = inputs.iter().map(|r| r.copy()).collect();
    for _ in 0..1 + extra_outputs {
        let (item, randomness) = (random_digest(), random_digest());
        let addition_record = ms.commit(&item, &randomness);
        let membership_proof = ms.prove(&item, &randomness, true);
        MsMembershipProof::batch_update_from_addition(
            &mut proofs,
            &items,
            &ms.set_commitment,
            &addition_record,
        )
        .unwrap();
        RemovalRecord::batch_update_from_addition(&mut pending, &ms.set_commitment).unwrap();
        ms.add(&addition_record);
        additions.push(addition_record);
        items.push(item);
        proofs.push(membership_proof);
    }
    pending.reverse();
    while let Some(input) = pending.pop() {
        MsMembershipProof::batch_update_from_remove(&mut proofs, &input, &ms.set_commitment)
            .unwrap();
        RemovalRecord::batch_update_from_remove(&mut pending, &input, &ms.set_commitment).unwrap();
        assert!(ms.remove(&input));
    }
    let coins: Vec<Coin> = items
        .into_iter()
        .zip(proofs)
        .map(|(item, membership_proof)| Coin {
            item,
            membership_proof,
        })
        .collect();
    for coin in coins.iter() {
        assert!(ms.verify(&coin.item, &coin.membership_proof));
    }
    let pow_line = previous
        .header
        .proof_of_work_line
        .add(previous.header.difficulty);
    let timestamp = Timestamp::millis(previous.header.timestamp.to_millis() + 600_000);
    let header = BlockHeader {
        version: 0,
        height: previous.header.height.next(),
        mutator_set_hash: ms.get_commitment(),
        prev_block_digest: previous.hash,
        timestamp,
        nonce: [thread_rng().next_u64(), 0, 0],
        max_block_size: 1_000_000,
        proof_of_work_line: pow_line,
        proof_of_work_family: pow_line,
        difficulty: difficulty.unwrap_or(Difficulty::new([1, 0, 0, 0, 0])),
        block_body_merkle_root: Digest::default(),
        uncles: vec![],
    };
    let body = BlockBody {
        transaction: TransactionKernel {
            inputs: inputs.iter().map(|r| r.copy()).collect(),
            outputs: additions.clone(),
            script_commitments: vec![],
            fee: 0,
            timestamp,
        },
        mutator_set_update: MutatorSetUpdate {
            removals: inputs,
            additions,
        },
        next_mutator_set_accumulator: ms,
        previous_mutator_set_accumulator: previous_ms,
        stark_proof: vec![],
    };
    (Block::new(header, body), coins)
}

fn make_mock_block(previous: &Block, difficulty: Option<Difficulty>) -> Block {
    make_block(previous, difficulty, vec![], 0).0
}

fn new_state() -> ArchivalState {
    ArchivalState::new(genesis_block(), MAX_FILE_SIZE).unwrap()
}

fn last_file_size(state: &ArchivalState) -> u64 {
    let last = state.block_index.get_last_file().last_file;
    state
        .block_index
        .get_file_record(last)
        .map(|r| r.file_size)
        .unwrap_or(0)
}

/// The work of the tip, as the caller of `write_block` hands it over.
fn tip_pow(state: &ArchivalState) -> Option<ProofOfWork> {
    let tip = state.get_latest_block_digest();
    state
        .get_block_header(&tip)
        .map(|h| h.proof_of_work_family)
}

fn write(state: &mut ArchivalState, block: &Block) -> Result<(), NodeError> {
    let size = last_file_size(state);
    let pow = tip_pow(state);
    state.write_block(block, BLOCK_SIZE, size, pow).map(|_| ())
}

/// The blocks to roll back when `block` is applied: from the block the mutator set is synced to
/// down to the one above the predecessor of `block`.
fn rollback_path(state: &ArchivalState, known: &[&Block], block: &Block) -> Vec<Block> {
    state
        .get_rollback_digests(block)
        .expect("the predecessor is an ancestor of the block that the set is synced to")
        .iter()
        .map(|digest| known.iter().find(|b| b.hash == *digest).unwrap().copy())
        .collect()
}

fn add_block_to_archival_state(state: &mut ArchivalState, known: &[&Block], block: &Block) {
    write(state, block).unwrap();
    let path = rollback_path(state, known, block);
    state.update_mutator_set(block, &path).unwrap();
}

#[test]
fn initialize_archival_state_test() {
    let state = new_state();
    let genesis = genesis_block();
    assert_eq!(state.genesis_block.hash, genesis.hash);
    assert_eq!(state.archival_mutator_set.count_leaves(), 1);
    assert_eq!(
        state.archival_mutator_set.get_commitment(),
        genesis.body.next_mutator_set_accumulator.get_commitment()
    );
    assert_eq!(
        genesis.header.mutator_set_hash,
        state.archival_mutator_set.get_commitment()
    );
}

#[test]
fn a_block_that_is_no_genesis_block_makes_no_state() {
    let genesis = genesis_block();
    let block_1 = make_mock_block(&genesis, None);
    assert!(ArchivalState::new(block_1, MAX_FILE_SIZE).is_none());
    let mut forged = genesis_block();
    forged.hash = random_digest();
    assert!(ArchivalState::new(forged, MAX_FILE_SIZE).is_none());
}

#[test]
fn get_latest_block_test() {
    let mut state = new_state();
    let genesis = genesis_block();
    assert!(
        state.block_index.tip.is_none(),
        "Must return None when no block is stored in DB"
    );
    assert_eq!(state.get_latest_block_digest(), genesis.hash);
    assert_eq!(state.get_latest_block(), BlockSource::Memory);

    let mock_block_1 = make_mock_block(&genesis, None);
    add_block_to_archival_state(&mut state, &[], &mock_block_1);
    assert!(
        state.block_index.tip.is_some(),
        "Must return a block when one is stored to DB"
    );
    assert_eq!(
        state.get_latest_block_digest(),
        mock_block_1.hash,
        "Returned block must match the one inserted"
    );

    assert_eq!(
        state.get_latest_block(),
        BlockSource::File(state.get_block_location(&mock_block_1.hash).unwrap())
    );

    let mock_block_2 = make_mock_block(&mock_block_1, None);
    add_block_to_archival_state(&mut state, &[&mock_block_1], &mock_block_2);
    assert_eq!(state.get_latest_block_digest(), mock_block_2.hash);
    assert_eq!(
        state.get_latest_block(),
        BlockSource::File(BlockFileLocation {
            file_index: 0,
            offset: BLOCK_SIZE as u64,
            block_length: BLOCK_SIZE,
        })
    );
}

#[test]
fn get_block_test() {
    let mut state = new_state();
    let genesis = genesis_block();
    let mock_block_1 = make_mock_block(&genesis, None);
    add_block_to_archival_state(&mut state, &[], &mock_block_1);
    let header = state.get_block_header(&mock_block_1.hash).unwrap();
    assert_eq!(header.hash(), mock_block_1.hash);
    assert_eq!(header.height, BlockHeight(1));
    let location = state.get_block_location(&mock_block_1.hash).unwrap();
    assert_eq!(location.file_index, 0);
    assert_eq!(location.offset, 0);
    assert_eq!(location.block_length, BLOCK_SIZE);
    assert_eq!(
        state.get_block(&mock_block_1.hash),
        Some(BlockSource::File(location))
    );

    // the genesis block is known, and lies nowhere on disk
    assert_eq!(
        state.get_block_header(&genesis.hash).unwrap().hash(),
        genesis.hash
    );
    assert!(state.get_block_location(&genesis.hash).is_none());
    assert_eq!(state.get_block(&genesis.hash), Some(BlockSource::Memory));

    // an unknown block
    let unknown = random_digest();
    assert!(state.get_block_header(&unknown).is_none());
    assert!(state.get_block_location(&unknown).is_none());
    assert_eq!(state.get_block(&unknown), None);

    // inserting more blocks does not change what is known of the first
    let mut previous = mock_block_1.copy();
    let mut known = vec![mock_block_1.copy()];
    for _ in 0..20 {
        let next = make_mock_block(&previous, None);
        let refs: Vec<&Block> = known.iter().collect();
        add_block_to_archival_state(&mut state, &refs, &next);
        known.push(next.copy());
        previous = next;
    }
    assert_eq!(
        state.get_block_location(&mock_block_1.hash).unwrap(),
        location
    );
    assert_eq!(state.get_latest_block_digest(), previous.hash);
}

#[test]
fn block_belongs_to_canonical_chain_test() {
    let mut state = new_state();
    let genesis = genesis_block();
    assert!(
        state.block_belongs_to_canonical_chain(&genesis.header, &genesis.header),
        "Genesis block is always part of the canonical chain, tip"
    );

    // Insert a block that is descendant from genesis block and verify that it is canonical
    let mock_block_1 = make_mock_block(&genesis, None);
    write(&mut state, &mock_block_1).unwrap();
    assert!(
        state.block_belongs_to_canonical_chain(&genesis.header, &mock_block_1.header),
        "Genesis block is always part of the canonical chain, tip parent"
    );
    assert!(
        state.block_belongs_to_canonical_chain(&mock_block_1.header, &mock_block_1.header),
        "Tip block is always part of the canonical chain"
    );

    // Insert three more blocks and verify that all are part of the canonical chain
    let mock_block_2_a = make_mock_block(&mock_block_1, None);
    write(&mut state, &mock_block_2_a).unwrap();
    let mock_block_3_a = make_mock_block(&mock_block_2_a, None);
    write(&mut state, &mock_block_3_a).unwrap();
    let mock_block_4_a = make_mock_block(&mock_block_3_a, Some(Difficulty::new([5000, 0, 0, 0, 0])));
    write(&mut state, &mock_block_4_a).unwrap();
    for (i, block) in [
        &genesis,
        &mock_block_1,
        &mock_block_2_a,
        &mock_block_3_a,
        &mock_block_4_a,
    ]
    .iter()
    .enumerate()
    {
        assert!(
            state.block_belongs_to_canonical_chain(&block.header, &mock_block_4_a.header),
            "only chain {} is canonical",
            i
        );
    }

    // Make a tree and verify that the correct parts of the tree are identified as
    // belonging to the canonical chain
    let mock_block_2_b = make_mock_block(&mock_block_1, None);
    write(&mut state, &mock_block_2_b).unwrap();
    let mock_block_3_b = make_mock_block(&mock_block_2_b, None);
    write(&mut state, &mock_block_3_b).unwrap();
    let mock_block_4_b = make_mock_block(&mock_block_3_b, None);
    write(&mut state, &mock_block_4_b).unwrap();
    let mock_block_5_b = make_mock_block(&mock_block_4_b, Some(Difficulty::new([200000, 0, 0, 0, 0])));
    write(&mut state, &mock_block_5_b).unwrap();
    for (i, block) in [
        &genesis,
        &mock_block_1,
        &mock_block_2_a,
        &mock_block_3_a,
        &mock_block_4_a,
    ]
    .iter()
    .enumerate()
    {
        assert!(
            state.block_belongs_to_canonical_chain(&block.header, &mock_block_4_a.header),
            "canonical chain {} is canonical",
            i
        );
    }

    // These blocks do not belong to the chain of block 4_a
    for (i, block) in [
        &mock_block_2_b,
        &mock_block_3_b,
        &mock_block_4_b,
        &mock_block_5_b,
    ]
    .iter()
    .enumerate()
    {
        assert!(
            !state.block_belongs_to_canonical_chain(&block.header, &mock_block_4_a.header),
            "Stale chain {} is not canonical",
            i
        );
    }

    // Make a complicated tree and verify that the function identifies the correct blocks as part
    // of the PoW family. In the below tree 6d is the tip as it has the highest accumulated PoW family value
    //                     /-3c<----4c<----5c<-----6c<---7c<---8c
    //                    /
    //                   /---3a<----4a<----5a
    //                  /
    //   gen<----1<----2a<---3d<----4d<----5d<-----6d
    //            \            \
    //             \            \---4e<----5e
    //              \
    //               \
    //                \2b<---3b<----4b<----5b ((<--6b)) (added in test later)
    //
    // Note that in the later test, 6b becomes the tip.
    let mock_block_3_c = make_mock_block(&mock_block_2_a, None);
    write(&mut state, &mock_block_3_c).unwrap();
    let mock_block_4_c = make_mock_block(&mock_block_3_c, None);
    write(&mut state, &mock_block_4_c).unwrap();
    let mock_block_5_c = make_mock_block(&mock_block_4_c, None);
    write(&mut state, &mock_block_5_c).unwrap();
    let mock_block_6_c = make_mock_block(&mock_block_5_c, None);
    write(&mut state, &mock_block_6_c).unwrap();
    let mock_block_7_c = make_mock_block(&mock_block_6_c, None);
    write(&mut state, &mock_block_7_c).unwrap();
    let mock_block_8_c = make_mock_block(&mock_block_7_c, None);
    write(&mut state, &mock_block_8_c).unwrap();
    let mock_block_5_a = make_mock_block(&mock_block_4_a, None);
    write(&mut state, &mock_block_5_a).unwrap();
    let mock_block_3_d = make_mock_block(&mock_block_2_a, Some(Difficulty::new([1000, 0, 0, 0, 0])));
    write(&mut state, &mock_block_3_d).unwrap();
    let mock_block_4_d = make_mock_block(&mock_block_3_d, Some(Difficulty::new([2000, 0, 0, 0, 0])));
    write(&mut state, &mock_block_4_d).unwrap();
    let mock_block_5_d = make_mock_block(&mock_block_4_d, Some(Difficulty::new([20000, 0, 0, 0, 0])));
    write(&mut state, &mock_block_5_d).unwrap();

    // This is the most canonical block in the known set
    let mock_block_6_d = make_mock_block(&mock_block_5_d, Some(Difficulty::new([2000, 0, 0, 0, 0])));
    write(&mut state, &mock_block_6_d).unwrap();

    let mock_block_4_e = make_mock_block(&mock_block_3_d, Some(Difficulty::new([2006, 0, 0, 0, 0])));
    write(&mut state, &mock_block_4_e).unwrap();
    let mock_block_5_e = make_mock_block(&mock_block_3_d, Some(Difficulty::new([2002, 0, 0, 0, 0])));
    write(&mut state, &mock_block_5_e).unwrap();

    for (i, block) in [
        &genesis,
        &mock_block_1,
        &mock_block_2_a,
        &mock_block_3_d,
        &mock_block_4_d,
        &mock_block_5_d,
        &mock_block_6_d,
    ]
    .iter()
    .enumerate()
    {
        assert!(
            state.block_belongs_to_canonical_chain(&block.header, &mock_block_6_d.header),
            "canonical chain {} is canonical, complicated",
            i
        );
    }

    for (i, block) in [
        &mock_block_2_b,
        &mock_block_3_b,
        &mock_block_4_b,
        &mock_block_5_b,
        &mock_block_3_c,
        &mock_block_4_c,
        &mock_block_5_c,
        &mock_block_6_c,
        &mock_block_7_c,
        &mock_block_8_c,
        &mock_block_3_a,
        &mock_block_4_a,
        &mock_block_5_a,
        &mock_block_4_e,
        &mock_block_5_e,
    ]
    .iter()
    .enumerate()
    {
        assert!(
            !state.block_belongs_to_canonical_chain(&block.header, &mock_block_6_d.header),
            "Stale chain {} is not canonical",
            i
        );
    }

    // Make a new block, 6b, canonical and verify that all checks work
    let mock_block_6_b = make_mock_block(
        &mock_block_5_b,
        Some(Difficulty::new([200000002, 2, 0, 0, 0])),
    );
    write(&mut state, &mock_block_6_b).unwrap();
    for (i, block) in [
        &mock_block_3_c,
        &mock_block_4_c,
        &mock_block_5_c,
        &mock_block_6_c,
        &mock_block_7_c,
        &mock_block_8_c,
        &mock_block_2_a,
        &mock_block_3_a,
        &mock_block_4_a,
        &mock_block_5_a,
        &mock_block_4_e,
        &mock_block_5_e,
        &mock_block_3_d,
        &mock_block_4_d,
        &mock_block_5_d,
        &mock_block_6_d,
    ]
    .iter()
    .enumerate()
    {
        assert!(
            !state.block_belongs_to_canonical_chain(&block.header, &mock_block_6_b.header),
            "Stale chain {} is not canonical",
            i
        );
    }

    for (i, block) in [
        &genesis,
        &mock_block_1,
        &mock_block_2_b,
        &mock_block_3_b,
        &mock_block_4_b,
        &mock_block_5_b,
        &mock_block_6_b,
    ]
    .iter()
    .enumerate()
    {
        assert!(
            state.block_belongs_to_canonical_chain(&block.header, &mock_block_6_b.header),
            "canonical chain {} is canonical, complicated",
            i
        );
    }
}

#[test]
fn a_block_above_the_tip_does_not_belong_to_its_chain() {
    let mut state = new_state();
    let genesis = genesis_block();
    let block_1 = make_mock_block(&genesis, None);
    write(&mut state, &block_1).unwrap();
    let block_2 = make_mock_block(&block_1, None);
    write(&mut state, &block_2).unwrap();
    let fork_2 = make_mock_block(&block_1, None);
    write(&mut state, &fork_2).unwrap();
    assert!(!state.block_belongs_to_canonical_chain(&block_2.header, &block_1.header));
    assert!(!state.block_belongs_to_canonical_chain(&fork_2.header, &block_2.header));
    assert!(state.block_belongs_to_canonical_chain(&block_1.header, &fork_2.header));
}

#[test]
fn a_block_with_another_hash_than_that_of_its_header_is_not_written() {
    let mut state = new_state();
    let genesis = genesis_block();
    let mut block_1 = make_mock_block(&genesis, None);
    let true_hash = block_1.hash;
    block_1.hash = random_digest();
    assert_eq!(write(&mut state, &block_1), Err(NodeError::ProtocolViolation));
    assert!(state.block_index.tip.is_none());
    assert!(state.get_block_header(&true_hash).is_none());
    assert!(state.get_block_header(&block_1.hash).is_none());
    block_1.hash = true_hash;
    assert_eq!(write(&mut state, &block_1), Ok(()));
    assert_eq!(state.get_latest_block_digest(), true_hash);
}

#[test]
#[should_panic]
fn digest_of_ancestors_panic_test() {
    let state = new_state();
    let genesis = genesis_block();
    state.get_ancestor_block_digests(&genesis.header.prev_block_digest, 10);
}

#[test]
fn digest_of_ancestors_test() {
    let mut state = new_state();
    let genesis = genesis_block();

    assert!(state
        .get_ancestor_block_digests(&genesis.hash, 10)
        .is_empty());
    assert!(state
        .get_ancestor_block_digests(&genesis.hash, 1)
        .is_empty());

    // Insert blocks and verify that the same result is returned
    let mock_block_1 = make_mock_block(&genesis, None);
    write(&mut state, &mock_block_1).unwrap();
    let mock_block_2 = make_mock_block(&mock_block_1, None);
    write(&mut state, &mock_block_2).unwrap();
    let mock_block_3 = make_mock_block(&mock_block_2, None);
    write(&mut state, &mock_block_3).unwrap();
    let mock_block_4 = make_mock_block(&mock_block_3, None);
    write(&mut state, &mock_block_4).unwrap();

    assert!(state
        .get_ancestor_block_digests(&genesis.hash, 10)
        .is_empty());
    assert!(state
        .get_ancestor_block_digests(&genesis.hash, 1)
        .is_empty());

    // Check that ancestors of block 1 and 2 return the right values
    let ancestors_of_1 = state
        .get_ancestor_block_digests(&mock_block_1.hash, 10);
    assert_eq!(1, ancestors_of_1.len());
    assert_eq!(genesis.hash, ancestors_of_1[0]);

    let ancestors_of_2 = state
        .get_ancestor_block_digests(&mock_block_2.hash, 10);
    assert_eq!(2, ancestors_of_2.len());
    assert_eq!(mock_block_1.hash, ancestors_of_2[0]);
    assert_eq!(genesis.hash, ancestors_of_2[1]);

    // Verify that max length is respected
    let ancestors_of_4_long = state
        .get_ancestor_block_digests(&mock_block_4.hash, 10);
    assert_eq!(4, ancestors_of_4_long.len());
    assert_eq!(mock_block_3.hash, ancestors_of_4_long[0]);
    assert_eq!(mock_block_2.hash, ancestors_of_4_long[1]);
    assert_eq!(mock_block_1.hash, ancestors_of_4_long[2]);
    assert_eq!(genesis.hash, ancestors_of_4_long[3]);
    let ancestors_of_4_short = state
        .get_ancestor_block_digests(&mock_block_4.hash, 2);
    assert_eq!(2, ancestors_of_4_short.len());
    assert_eq!(mock_block_3.hash, ancestors_of_4_short[0]);
    assert_eq!(mock_block_2.hash, ancestors_of_4_short[1]);

    // none are asked for, none are returned
    assert!(state
        .get_ancestor_block_digests(&mock_block_4.hash, 0)
        .is_empty());
}

#[test]
fn write_block_db_test() {
    let mut state = new_state();
    let genesis = genesis_block();
    let mock_block_1 = make_mock_block(&genesis, None);
    let expected_block_len_1 = 1234usize;
    let location_1 = state
        .write_block(
            &mock_block_1,
            expected_block_len_1,
            0,
            Some(genesis.header.proof_of_work_family),
        )
        .unwrap();

    // Verify that `LastFile` value is stored correctly
    let read_last_file: LastFileRecord = state.block_index.get_last_file();
    assert_eq!(0, read_last_file.last_file);

    // Verify that `Height` value is stored correctly
    {
        let blocks_with_height_1 = state
            .block_index
            .block_height_to_block_digests(BlockHeight(1));
        assert_eq!(1, blocks_with_height_1.len());
        assert_eq!(mock_block_1.hash, blocks_with_height_1[0]);
    }

    // Verify that `File` value is stored correctly
    let expected_file: u32 = read_last_file.last_file;
    let last_file_record_1: FileRecord = state.block_index.get_file_record(expected_file).unwrap();

    assert_eq!(1, last_file_record_1.blocks_in_file_count);
    assert_eq!(expected_block_len_1, last_file_record_1.file_size as usize);
    assert_eq!(
        mock_block_1.header.height,
        last_file_record_1.min_block_height
    );
    assert_eq!(
        mock_block_1.header.height,
        last_file_record_1.max_block_height
    );

    // Verify that the tip is stored correctly
    assert_eq!(Some(mock_block_1.hash), state.block_index.tip);

    // Verify that `Block` is stored correctly
    let actual_block = state.block_index.get_block_record(&mock_block_1.hash).unwrap();
    assert_eq!(mock_block_1.hash, actual_block.block_header.hash());
    assert_eq!(
        expected_block_len_1,
        actual_block.file_location.block_length
    );
    assert_eq!(
        0, actual_block.file_location.offset,
        "First block written to file"
    );
    assert_eq!(
        read_last_file.last_file,
        actual_block.file_location.file_index
    );
    assert_eq!(location_1, actual_block.file_location);

    // Store another block and verify that this block is appended to disk
    let mock_block_2 = make_mock_block(&mock_block_1, None);
    let expected_block_len_2 = 777usize;
    state
        .write_block(
            &mock_block_2,
            expected_block_len_2,
            expected_block_len_1 as u64,
            Some(mock_block_1.header.proof_of_work_family),
        )
        .unwrap();

    // Verify that `LastFile` value is updated correctly, unchanged
    let read_last_file_2: LastFileRecord = state.block_index.get_last_file();
    assert_eq!(0, read_last_file.last_file);

    // Verify that `Height` value is updated correctly
    {
        let blocks_with_height_1 = state
            .block_index
            .block_height_to_block_digests(BlockHeight(1));
        assert_eq!(1, blocks_with_height_1.len());
        assert_eq!(mock_block_1.hash, blocks_with_height_1[0]);
    }

    {
        let blocks_with_height_2 = state
            .block_index
            .block_height_to_block_digests(BlockHeight(2));
        assert_eq!(1, blocks_with_height_2.len());
        assert_eq!(mock_block_2.hash, blocks_with_height_2[0]);
    }
    // Verify that `File` value is updated correctly
    let expected_file_2: u32 = read_last_file.last_file;
    let last_file_record_2: FileRecord = state.block_index.get_file_record(expected_file_2).unwrap();
    assert_eq!(2, last_file_record_2.blocks_in_file_count);
    assert_eq!(
        expected_block_len_1 + expected_block_len_2,
        last_file_record_2.file_size as usize
    );
    assert_eq!(
        mock_block_1.header.height,
        last_file_record_2.min_block_height
    );
    assert_eq!(
        mock_block_2.header.height,
        last_file_record_2.max_block_height
    );

    // Verify that the tip is updated correctly
    assert_eq!(Some(mock_block_2.hash), state.block_index.tip);

    // Verify that `Block` is stored correctly
    let actual_block_record_2 = state.block_index.get_block_record(&mock_block_2.hash).unwrap();

    assert_eq!(mock_block_2.hash, actual_block_record_2.block_header.hash());
    assert_eq!(
        expected_block_len_2,
        actual_block_record_2.file_location.block_length
    );
    assert_eq!(
        expected_block_len_1 as u64, actual_block_record_2.file_location.offset,
        "Second block written to file must be offset by block 1's length"
    );
    assert_eq!(
        read_last_file_2.last_file,
        actual_block_record_2.file_location.file_index
    );

    // Test the latest block
    assert_eq!(mock_block_2.hash, state.get_latest_block_digest());

    // Test `get_block_header`
    let block_header_2 = state.get_block_header(&mock_block_2.hash).unwrap();
    assert_eq!(mock_block_2.hash, block_header_2.hash());

    // Test `block_height_to_block_headers`
    let block_headers_of_height_2 = state.block_height_to_block_headers(BlockHeight(2));
    assert_eq!(1, block_headers_of_height_2.len());
    assert_eq!(mock_block_2.hash, block_headers_of_height_2[0].hash());

    // Test `get_children_blocks`
    let children_of_mock_block_1 = state.get_children_blocks(&mock_block_1.header);
    assert_eq!(1, children_of_mock_block_1.len());
    assert_eq!(mock_block_2.hash, children_of_mock_block_1[0].hash());

    // Test `get_ancestor_block_digests`
    let ancestor_digests = state
        .get_ancestor_block_digests(&mock_block_2.hash, 10);
    assert_eq!(2, ancestor_digests.len());
    assert_eq!(mock_block_1.header.hash(), ancestor_digests[0]);
    assert_eq!(genesis.header.hash(), ancestor_digests[1]);
}

#[test]
fn a_full_file_makes_the_next_block_start_a_new_file() {
    assert!(!new_block_file_is_needed(9_000, 1_000, 10_000));
    assert!(new_block_file_is_needed(9_001, 1_000, 10_000));
    assert!(new_block_file_is_needed(u64::MAX, 1, u64::MAX));

    let mut state = new_state();
    let genesis = genesis_block();
    let block_1 = make_mock_block(&genesis, None);
    let block_2 = make_mock_block(&block_1, None);
    let first = state.write_block(&block_1, 6_000, 0, None).unwrap();
    assert_eq!((first.file_index, first.offset), (0, 0));
    let second = state.write_block(&block_2, 6_000, 6_000, None).unwrap();
    assert_eq!((second.file_index, second.offset), (1, 0));
    assert_eq!(state.block_index.get_last_file().last_file, 1);
    assert_eq!(
        state.block_index.get_file_record(0).unwrap().file_size,
        6_000
    );
    let record = state.block_index.get_file_record(1).unwrap();
    assert_eq!(record.blocks_in_file_count, 1);
    assert_eq!(record.min_block_height, BlockHeight(2));
}

#[test]
fn a_block_is_not_written_twice_nor_without_its_predecessor() {
    let mut state = new_state();
    let genesis = genesis_block();
    let block_1 = make_mock_block(&genesis, None);
    let block_2 = make_mock_block(&block_1, None);
    assert_eq!(
        state.write_block(&block_2, 10, 0, None),
        Err(NodeError::CatalogMiss)
    );
    assert!(state.write_block(&block_1, 10, 0, None).is_ok());
    assert_eq!(
        state.write_block(&block_1, 10, 10, None),
        Err(NodeError::ProtocolViolation)
    );
    // a file that has a length and no record
    let mut fresh = new_state();
    assert_eq!(
        fresh.write_block(&block_1, 10, 5, None),
        Err(NodeError::CatalogMiss)
    );
}

#[test]
fn the_tip_changes_only_for_more_proof_of_work() {
    let mut state = new_state();
    let genesis = genesis_block();
    let heavy = make_mock_block(&genesis, None);
    let light = make_mock_block(&genesis, None);
    state.write_block(&heavy, 10, 0, None).unwrap();
    // the same work as the tip
    state
        .write_block(&light, 10, 10, Some(heavy.header.proof_of_work_family))
        .unwrap();
    assert_eq!(state.block_index.tip, Some(heavy.hash));
    assert_eq!(
        state.block_index.block_height_to_block_count(BlockHeight(1)),
        2
    );
    assert_eq!(BlockIndex::new().block_height_to_block_count(BlockHeight(1)), 0);
}

#[test]
fn update_mutator_set_db_write_test() {
    let mut state = new_state();
    let genesis = genesis_block();
    let mock_block_1 = make_mock_block(&genesis, None);
    assert!(state.ms_block_sync.sync_digest.is_none());
    write(&mut state, &mock_block_1).unwrap();
    state.update_mutator_set(&mock_block_1, &vec![]).unwrap();
    assert_eq!(state.ms_block_sync.sync_digest, Some(mock_block_1.hash));
    assert_eq!(
        state.ms_block_sync.get_diff(&mock_block_1.hash),
        Some(vec![])
    );
    assert_eq!(
        state.archival_mutator_set.get_commitment(),
        mock_block_1.body.next_mutator_set_accumulator.get_commitment()
    );
    assert_eq!(state.archival_mutator_set.count_leaves(), 2);
}

#[test]
fn update_mutator_set_rollback_ms_block_sync_test() {
    let mut state = new_state();
    let genesis = genesis_block();

    // 1. Apply block 1a
    let mock_block_1a = make_mock_block(&genesis, None);
    add_block_to_archival_state(&mut state, &[], &mock_block_1a);
    assert_eq!(state.ms_block_sync.sync_digest, Some(mock_block_1a.hash));

    // 2. Apply block 1b, which forks from genesis: 1a is rolled back
    let mock_block_1b = make_mock_block(&genesis, Some(Difficulty::new([2, 0, 0, 0, 0])));
    add_block_to_archival_state(&mut state, &[&mock_block_1a], &mock_block_1b);
    assert_eq!(state.ms_block_sync.sync_digest, Some(mock_block_1b.hash));
    assert_eq!(
        state.archival_mutator_set.get_commitment(),
        mock_block_1b.body.next_mutator_set_accumulator.get_commitment()
    );
    // both blocks remain resolvable
    assert!(state.get_block_header(&mock_block_1a.hash).is_some());
    assert!(state.get_block_header(&mock_block_1b.hash).is_some());
    assert!(!state.block_belongs_to_canonical_chain(&mock_block_1a.header, &mock_block_1b.header));
    assert!(state.block_belongs_to_canonical_chain(&mock_block_1b.header, &mock_block_1b.header));
}

#[test]
fn update_mutator_set_rollback_ms_block_sync_multiple_inputs_outputs_in_block_test() {
    let mut state = new_state();
    let genesis = genesis_block();

    // a block that spends the output of the block before it and has three outputs
    let (block_1a, coins_1a) = make_block(&genesis, None, vec![], 0);
    add_block_to_archival_state(&mut state, &[], &block_1a);
    let input = block_1a
        .body
        .next_mutator_set_accumulator
        .drop(&coins_1a[0].item, &coins_1a[0].membership_proof)
        .unwrap();
    let (block_2a, _) = make_block(&block_1a, None, vec![input], 2);
    add_block_to_archival_state(&mut state, &[&block_1a], &block_2a);
    assert_eq!(state.archival_mutator_set.count_leaves(), 5);
    assert!(!state.archival_mutator_set.swbf_active.sbf.is_empty());
    assert!(!state
        .ms_block_sync
        .get_diff(&block_2a.hash)
        .unwrap()
        .is_empty());

    // a fork from genesis: both blocks are rolled back
    let (block_1b, _) = make_block(&genesis, Some(Difficulty::new([9, 0, 0, 0, 0])), vec![], 0);
    add_block_to_archival_state(&mut state, &[&block_1a, &block_2a], &block_1b);
    assert!(
        state.archival_mutator_set.swbf_active.sbf.is_empty(),
        "All bits in active window must be unset when no UTXOs have been spent"
    );
    assert_eq!(
        2,
        state.archival_mutator_set.count_leaves(),
        "AOCL leaf count must be 2 after two blocks containing only coinbase transactions"
    );
    assert_eq!(
        state.archival_mutator_set.get_commitment(),
        block_1b.body.next_mutator_set_accumulator.get_commitment()
    );
}

#[test]
fn update_mutator_set_rollback_many_blocks_multiple_inputs_outputs_test() {
    let mut state = new_state();
    let genesis = genesis_block();

    // ten blocks, each of which spends the coinbase of the one before and has two more outputs
    let mut chain: Vec<Block> = vec![];
    let mut previous = genesis.copy();
    let empty: MutatorSetAccumulator = MutatorSet::default();
    let mut spendable = Coin {
        item: Digest::new([1, 2, 3, 4, 5]),
        membership_proof: empty.prove(
            &Digest::new([1, 2, 3, 4, 5]),
            &Digest::new([6, 7, 8, 9, 10]),
            true,
        ),
    };
    for _ in 0..10 {
        let input = previous
            .body
            .next_mutator_set_accumulator
            .drop(&spendable.item, &spendable.membership_proof)
            .unwrap();
        let (block, mut coins) = make_block(&previous, None, vec![input], 2);
        let refs: Vec<&Block> = chain.iter().collect();
        add_block_to_archival_state(&mut state, &refs, &block);
        assert!(!block
            .body
            .next_mutator_set_accumulator
            .verify(&spendable.item, &spendable.membership_proof));
        spendable = coins.swap_remove(0);
        chain.push(block.copy());
        previous = block;
    }
    assert!(!state.archival_mutator_set.swbf_active.sbf.is_empty()
        || !state.archival_mutator_set.chunks.iter().all(|c| c.is_empty()));
    assert_eq!(state.archival_mutator_set.count_leaves(), 31);

    // a fork from genesis with more work
    let (block_1b, _) = make_block(&genesis, Some(Difficulty::new([9, 0, 0, 0, 0])), vec![], 0);
    let refs: Vec<&Block> = chain.iter().collect();
    add_block_to_archival_state(&mut state, &refs, &block_1b);
    assert!(
        state.archival_mutator_set.swbf_active.sbf.is_empty(),
        "All bits in active window must be unset when no UTXOs have been spent"
    );
    assert_eq!(
        2,
        state.archival_mutator_set.count_leaves(),
        "AOCL leaf count must be 2 after two blocks containing only coinbase transactions"
    );
    assert!(state.archival_mutator_set.chunks.is_empty());
    assert_eq!(
        state.archival_mutator_set.get_commitment(),
        block_1b.body.next_mutator_set_accumulator.get_commitment()
    );
}

#[test]
fn allow_consumption_of_genesis_output_test() {
    let mut state = new_state();
    let genesis = genesis_block();
    // the proof of the premine: made on the empty set
    let empty: MutatorSetAccumulator = MutatorSet::default();
    let item = Digest::new([1, 2, 3, 4, 5]);
    let randomness = Digest::new([6, 7, 8, 9, 10]);
    let membership_proof = empty.prove(&item, &randomness, true);
    assert!(genesis
        .body
        .next_mutator_set_accumulator
        .verify(&item, &membership_proof));
    let input = genesis
        .body
        .next_mutator_set_accumulator
        .drop(&item, &membership_proof)
        .unwrap();
    let (block_1, _) = make_block(&genesis, None, vec![input], 1);
    add_block_to_archival_state(&mut state, &[], &block_1);
    assert_eq!(state.archival_mutator_set.count_leaves(), 3);
    assert_eq!(
        state.ms_block_sync.get_diff(&block_1.hash).unwrap().len(),
        45
    );
    assert!(!block_1
        .body
        .next_mutator_set_accumulator
        .verify(&item, &membership_proof));
}

#[test]
fn allow_mutliple_inputs_and_outputs_in_block() {
    let mut state = new_state();
    let genesis = genesis_block();
    let (block_1, coins) = make_block(&genesis, None, vec![], 3);
    add_block_to_archival_state(&mut state, &[], &block_1);
    // two of the outputs are spent in the next block
    let set = &block_1.body.next_mutator_set_accumulator;
    let inputs: Vec<RemovalRecord> = [&coins[0], &coins[3]]
        .iter()
        .map(|coin| {
            assert!(set.verify(&coin.item, &coin.membership_proof));
            set.drop(&coin.item, &coin.membership_proof).unwrap()
        })
        .collect();
    let (block_2, _) = make_block(&block_1, None, inputs, 4);
    add_block_to_archival_state(&mut state, &[&block_1], &block_2);
    assert_eq!(state.archival_mutator_set.count_leaves(), 1 + 4 + 5);
    let mut flipped: Vec<u128> = block_2
        .body
        .mutator_set_update
        .removals
        .iter()
        .flat_map(|r| r.bit_indices.iter().copied())
        .collect();
    flipped.sort_unstable();
    flipped.dedup();
    assert_eq!(state.ms_block_sync.get_diff(&block_2.hash).unwrap(), flipped);
    for coin in [&coins[0], &coins[3]] {
        assert!(!block_2
            .body
            .next_mutator_set_accumulator
            .verify(&coin.item, &coin.membership_proof));
    }
    assert_eq!(
        state.archival_mutator_set.get_commitment(),
        block_2.body.next_mutator_set_accumulator.get_commitment()
    );
}

#[test]
fn a_block_that_lies_about_the_mutator_set_is_not_applied() {
    let mut state = new_state();
    let genesis = genesis_block();
    let honest = make_mock_block(&genesis, None);
    let (mut lying, _) = make_block(&genesis, None, vec![], 0);
    lying.body.next_mutator_set_accumulator = honest.body.next_mutator_set_accumulator.copy();
    write(&mut state, &lying).unwrap();
    let before = state.archival_mutator_set.get_commitment();
    assert_eq!(
        state.update_mutator_set(&lying, &vec![]),
        Err(NodeError::MutatorSetInvariantViolated)
    );
    assert_eq!(before, state.archival_mutator_set.get_commitment());
    assert!(state.ms_block_sync.sync_digest.is_none());
}

#[test]
fn a_rollback_needs_its_blocks() {
    let mut state = new_state();
    let genesis = genesis_block();
    let block_1a = make_mock_block(&genesis, None);
    add_block_to_archival_state(&mut state, &[], &block_1a);
    let block_1b = make_mock_block(&genesis, None);
    write(&mut state, &block_1b).unwrap();
    assert_eq!(
        state.update_mutator_set(&block_1b, &vec![]),
        Err(NodeError::CatalogMiss)
    );
    assert_eq!(
        state.update_mutator_set(&block_1b, &vec![block_1b.copy()]),
        Err(NodeError::CorruptBlock)
    );
    assert_eq!(state.ms_block_sync.sync_digest, Some(block_1a.hash));
    assert!(state
        .update_mutator_set(&block_1b, &vec![block_1a.copy()])
        .is_ok());
}

#[test]
fn a_block_is_checked_against_its_predecessor() {
    let genesis = genesis_block();
    let block_1 = make_mock_block(&genesis, None);
    // the difficulty of the genesis block is the least one, so that about one hash in a
    // thousand is below the target
    let valid = block_1.validate(&genesis.header);
    assert!(valid == Ok(()) || valid == Err(NodeError::ProofOfWorkInsufficient));
    assert_eq!(
        block_1.has_proof_of_work(&genesis.header),
        block_1.hash < genesis.header.difficulty.target()
    );
    let block_2 = make_mock_block(&block_1, None);
    assert_eq!(
        block_2.validate(&genesis.header),
        Err(NodeError::ProtocolViolation)
    );
    // at difficulty one every block whose hash is not the greatest digest has proof-of-work
    assert!(block_2.has_proof_of_work(&block_1.header));
    assert_eq!(block_2.validate(&block_1.header), Ok(()));
    // at the greatest difficulty the hash would have to be below 2^161
    let mut hard = genesis_block();
    hard.header.difficulty = Difficulty::maximum();
    hard.hash = hard.header.hash();
    let heavy = make_mock_block(&hard, None);
    assert!(!heavy.has_proof_of_work(&hard.header));
    assert_eq!(
        heavy.validate(&hard.header),
        Err(NodeError::ProofOfWorkInsufficient)
    );
    // a block that stands on another block breaks the protocol, whatever its work
    assert_eq!(
        heavy.validate(&block_1.header),
        Err(NodeError::ProtocolViolation)
    );
}

#[test]
fn the_way_back_leads_over_the_blocks_above_the_fork() {
    let mut state = new_state();
    let genesis = genesis_block();
    let block_1 = make_mock_block(&genesis, None);
    let block_2 = make_mock_block(&block_1, None);
    let block_3 = make_mock_block(&block_2, None);
    add_block_to_archival_state(&mut state, &[], &block_1);
    add_block_to_archival_state(&mut state, &[&block_1], &block_2);
    add_block_to_archival_state(&mut state, &[&block_1, &block_2], &block_3);

    // the next block of the chain: nothing to roll back
    let block_4 = make_mock_block(&block_3, None);
    assert_eq!(state.get_rollback_digests(&block_4), Some(vec![]));
    // a fork above the first block: the third and the second block go
    let fork_2 = make_mock_block(&block_1, None);
    assert_eq!(
        state.get_rollback_digests(&fork_2),
        Some(vec![block_3.hash, block_2.hash])
    );
    // a fork above the genesis block: all three go
    let fork_1 = make_mock_block(&genesis, None);
    assert_eq!(
        state.get_rollback_digests(&fork_1),
        Some(vec![block_3.hash, block_2.hash, block_1.hash])
    );
    // a block whose predecessor is not below the block that the set is synced to
    assert_eq!(state.get_rollback_digests(&make_mock_block(&block_4, None)), None);
    let stranger = make_mock_block(&fork_2, None);
    assert_eq!(state.get_rollback_digests(&stranger), None);

    // rolling back along the way leaves the set as the fork says
    write(&mut state, &fork_2).unwrap();
    let path = rollback_path(&state, &[&block_1, &block_2, &block_3], &fork_2);
    assert_eq!(path.len(), 2);
    assert_eq!(state.update_mutator_set(&fork_2, &path), Ok(()));
    assert_eq!(state.ms_block_sync.sync_digest, Some(fork_2.hash));
    assert_eq!(
        state.archival_mutator_set.get_commitment(),
        fork_2.body.next_mutator_set_accumulator.get_commitment()
    );
    assert_eq!(state.get_rollback_digests(&stranger), Some(vec![]));
}
