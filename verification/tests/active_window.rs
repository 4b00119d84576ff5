use neptune_core::mutator_set::active_window::ActiveWindow;
use neptune_core::mutator_set::shared::{CHUNK_SIZE, WINDOW_SIZE};
use rand::{thread_rng, RngCore};

#[test]
fn aw_is_reversible_bloom_filter() {
    let sbf = Vec::<u32>::new();
    let mut aw = ActiveWindow::from_vec_u32(&sbf);

    // Insert an index twice, remove it once and the verify that
    // it is still there
    let index = 7;
    assert!(!aw.contains(index));
    aw.insert(index);
    assert!(aw.contains(index));
    aw.insert(index);
    assert!(aw.contains(index));
    aw.remove(index);
    assert!(aw.contains(index));
    aw.remove(index);
    assert!(!aw.contains(index));
}

#[test]
fn insert_remove_probe_indices_pbt() {
    let sbf = Vec::<u32>::new();
    let mut aw = ActiveWindow::from_vec_u32(&sbf);
    for i in 0..100 {
        assert!(!aw.contains(i as u32));
    }

    let mut prng = thread_rng();
    for _ in 0..100 {
        let index = prng.next_u32() % WINDOW_SIZE;
        aw.insert(index);

        assert!(aw.contains(index));
    }

    // Set all indices, then check that they are set
    for i in 0..100 {
        aw.insert(i);
    }

    for i in 0..100 {
        assert!(aw.contains(i as u32));
    }
}

#[test]
fn test_slide_window() {
    let mut aw = ActiveWindow::new();

    let num_insertions = 100;
    let mut rng = thread_rng();
    for _ in 0..num_insertions {
        aw.insert(rng.next_u32() % WINDOW_SIZE);
    }

    aw.slide_window();

    // Verify that last N elements are zero after window slide
    assert!(!aw.hasset(WINDOW_SIZE - CHUNK_SIZE, CHUNK_SIZE));
}

#[test]
fn test_slide_window_back() {
    let mut active_window = ActiveWindow::new();
    let num_insertions = 1000;
    let mut rng = thread_rng();
    for _ in 0..num_insertions {
        active_window.insert((rng.next_u32()) % WINDOW_SIZE);
    }
    let dummy_chunk = active_window.slid_chunk();
    active_window.slide_window();
    assert!(!active_window.hasset(WINDOW_SIZE - CHUNK_SIZE, WINDOW_SIZE));

    active_window.slide_window_back(&dummy_chunk);
    for index in dummy_chunk.relative_indices {
        assert!(active_window.contains(index));
    }
}

#[test]
fn test_slide_window_and_back() {
    let mut active_window = ActiveWindow::new();
    let num_insertions = 1000;
    let mut rng = thread_rng();
    for _ in 0..num_insertions {
        active_window.insert((rng.next_u32()) % WINDOW_SIZE);
    }
    let aw_before = active_window.clone();

    let chunk = active_window.slid_chunk();

    active_window.slide_window();

    active_window.slide_window_back(&chunk);
    let aw_after = active_window.clone();

    assert_eq!(
        aw_before, aw_after,
        "Sliding forward and then back must be the identity operation."
    );
}

#[test]
fn test_hash_unequal_nocrash() {
    // This is just a test to ensure that the hashing of the active part of the SWBF
    // works in the runtime. It also tests that different indices being inserted
    // results in different digests.
    ActiveWindow::new().hash();

    let mut aw_1 = ActiveWindow::new();
    aw_1.insert(1u32);
    let aw_2 = ActiveWindow::new();

    assert_ne!(aw_1.hash(), aw_2.hash());
}

#[test]
fn test_active_window_serialization() {
    let aw0 = ActiveWindow::new();
    let json_aw0 = serde_json::to_string(&aw0.to_vec_u32()).unwrap();
    let aw0_back = ActiveWindow::from_vec_u32(&serde_json::from_str::<Vec<u32>>(&json_aw0).unwrap());
    assert_eq!(aw0.sbf, aw0_back.sbf);
}

#[test]
fn insertion_keeps_the_window_in_ascending_order() {
    let mut aw = ActiveWindow::new();
    for index in [9u32, 3, 7, 3, 0, WINDOW_SIZE - 1] {
        aw.insert(index);
    }
    assert_eq!(aw.to_vec_u32(), vec![0, 3, 3, 7, 9, WINDOW_SIZE - 1]);
}

#[test]
fn sliding_drops_the_first_chunk_and_shifts_the_rest() {
    let mut aw = ActiveWindow::from_vec_u32(&[0, 5, CHUNK_SIZE - 1, CHUNK_SIZE, CHUNK_SIZE + 7]);
    let chunk = aw.slid_chunk();
    assert_eq!(chunk.relative_indices, vec![0, 5, CHUNK_SIZE - 1]);
    aw.slide_window();
    assert_eq!(aw.sbf, vec![0, 7]);
    aw.slide_window_back(&chunk);
    assert_eq!(aw.sbf, vec![0, 5, CHUNK_SIZE - 1, CHUNK_SIZE, CHUNK_SIZE + 7]);
}

#[test]
fn a_slice_is_relative_to_its_lower_bound() {
    let aw = ActiveWindow::from_vec_u32(&[1, 10, 11, 20]);
    assert_eq!(aw.slice(10, 20), vec![0, 1]);
    assert!(aw.hasset(10, 12));
    assert!(!aw.hasset(12, 20));
}

#[test]
fn zerofy_clears_a_range() {
    let mut aw = ActiveWindow::from_vec_u32(&[1, 10, 11, 20]);
    aw.zerofy(10, 20);
    assert_eq!(aw.sbf, vec![1, 20]);
}
