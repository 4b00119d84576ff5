use neptune_core::mutator_set::chunk::Chunk;
use neptune_core::mutator_set::shared::{BATCH_SIZE, CHUNK_SIZE, NUM_TRIALS, WINDOW_SIZE};

#[test]
fn the_parameters_fit_together() {
    assert_eq!(WINDOW_SIZE % CHUNK_SIZE, 0);
    assert_eq!(WINDOW_SIZE, 1 << 20);
    assert_eq!(CHUNK_SIZE, 1 << 12);
    assert_eq!(BATCH_SIZE, 8);
    assert_eq!(NUM_TRIALS, 45);
}

#[test]
fn setting_a_bit_twice_sets_it_once() {
    let mut chunk = Chunk::empty_chunk();
    assert!(chunk.is_empty());
    chunk.set_bit(9);
    chunk.set_bit(3);
    chunk.set_bit(9);
    assert_eq!(chunk.to_indices(), vec![3, 9]);
    assert!(chunk.get_bit(3));
    assert!(!chunk.get_bit(4));
    chunk.unset_bit(3);
    assert_eq!(chunk, Chunk::from_indices(&[9]));
}

#[test]
fn or_is_the_union_of_the_bits() {
    let a = Chunk::from_indices(&[1, 5, 9]);
    let b = Chunk::from_indices(&[0, 5, 10]);
    assert_eq!(a.or(&b).relative_indices, vec![0, 1, 5, 9, 10]);
}

#[test]
fn xor_keeps_the_bits_that_differ() {
    let mut a = Chunk::from_indices(&[1, 5, 9]);
    let b = Chunk::from_indices(&[0, 5, 10]);
    a.xor_assign(&b);
    assert_eq!(a.relative_indices, vec![0, 1, 9, 10]);
}

#[test]
fn xor_after_or_shows_the_flipped_bits() {
    let before = Chunk::from_indices(&[2, 4]);
    let mutation = Chunk::from_indices(&[4, 6]);
    let after = before.or(&mutation);
    let mut flipped = before.clone();
    flipped.xor_assign(&after);
    assert_eq!(flipped.relative_indices, vec![6]);
}

#[test]
fn chunks_with_different_bits_hash_differently() {
    let a = Chunk::from_indices(&[1, 2]);
    let b = Chunk::from_indices(&[1, 3]);
    assert_ne!(a.hash(), b.hash());
    assert_eq!(a.hash(), Chunk::from_indices(&[1, 2]).hash());
    assert_eq!(a.to_sequence(), vec![1u64, 2]);
}
