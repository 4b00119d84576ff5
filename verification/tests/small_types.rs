use neptune_core::digest::{Digest, Hashable};
use neptune_core::mutator_set::active_window::ActiveWindow;
use neptune_core::mutator_set::chunk::Chunk;
use neptune_core::block_height::BlockHeight;
use neptune_core::error::NodeError;
use neptune_core::job::{JobCompletion, JobResult};
use neptune_core::mock::{Action, Mock, MockError};
use neptune_core::timestamp::Timestamp;
use neptune_core::validity::{ClaimSupport, InputsToLockScripts, SupportedClaim};

#[test]
fn a_mock_follows_its_script() {
    let mut mock = Mock::new(vec![Action::Read(1u8), Action::Write(2), Action::Read(3)]);
    assert_eq!(mock.poll_next(), Ok(1));
    assert_eq!(mock.start_send(2), Ok(()));
    assert_eq!(mock.poll_next(), Ok(3));
    assert_eq!(mock.poll_next(), Err(MockError::UnexpectedRead));
    assert_eq!(mock.start_send(9), Err(MockError::UnexpectedSend));
}

#[test]
fn a_mock_rejects_what_is_not_in_its_script() {
    let mut mock = Mock::new(vec![Action::Write(2u8), Action::Write(4), Action::Read(5)]);
    assert_eq!(mock.start_send(3), Err(MockError::WrongSend));
    // the step was taken all the same
    assert_eq!(mock.poll_next(), Err(MockError::UnexpectedRead));
    assert_eq!(mock.start_send(5), Err(MockError::UnexpectedSend));
    assert!(mock.actions.is_empty());
}

#[test]
fn a_new_mock_holds_the_script_in_reverse() {
    let mock = Mock::new(vec![Action::Read(1u8), Action::Write(2)]);
    assert!(matches!(mock.actions[0], Action::Write(2)));
    assert!(matches!(mock.actions[1], Action::Read(1)));
}

#[test]
fn mock_errors_have_names() {
    assert_eq!(MockError::WrongSend.name(), "WrongSend");
    assert_eq!(MockError::UnexpectedSend.name(), "UnexpectedSend");
    assert_eq!(MockError::UnexpectedRead.name(), "UnexpectedRead");
}

#[test]
fn a_cancelled_job_hands_over_no_result() {
    assert!(JobCompletion::resolve(true, Some(5u8)).is_cancelled());
    assert!(JobCompletion::<u8>::resolve(false, None).is_cancelled());
    assert_eq!(JobCompletion::resolve(false, Some(5u8)).into_result(), Some(5));
    assert_eq!(JobCompletion::resolve(true, Some(5u8)).into_result(), None);
    assert_eq!(true.finished().into_result(), Some(true));
}

#[test]
fn the_dummy_claim_has_no_support() {
    let dummy = InputsToLockScripts::dummy();
    assert_eq!(dummy.supported_claim.support, ClaimSupport::DummySupport);
    assert!(!dummy.is_supported());
    assert!(dummy.supported_claim.claim.input.is_empty());
    assert!(dummy.supported_claim.claim.output.is_empty());
    assert_eq!(dummy.supported_claim.claim.program_digest.values(), [0; 5]);
    let claim = SupportedClaim::dummy_supported_claim();
    assert_eq!(claim.support, ClaimSupport::DummySupport);
}

#[test]
fn errors_that_show_corrupt_state_are_fatal() {
    assert!(NodeError::CatalogMiss.is_fatal());
    assert!(NodeError::CorruptBlock.is_fatal());
    assert!(NodeError::MutatorSetInvariantViolated.is_fatal());
    assert!(!NodeError::ProofOfWorkInsufficient.is_fatal());
    assert!(!NodeError::ProtocolViolation.is_fatal());
    assert!(!NodeError::CapacityExceeded.is_fatal());
    assert!(!NodeError::Cancelled.is_fatal());
    assert_eq!(NodeError::CorruptBlock.name(), "CorruptBlock");
    assert_eq!(NodeError::Cancelled.name(), "Cancelled");
}

#[test]
fn heights_and_timestamps() {
    assert!(BlockHeight::genesis().is_genesis());
    assert_eq!(BlockHeight(4).next(), BlockHeight(5));
    assert_eq!(BlockHeight(4).previous(), Some(BlockHeight(3)));
    assert_eq!(BlockHeight(0).previous(), None);
    assert_eq!(Timestamp::seconds(3), Some(Timestamp::millis(3000)));
    assert_eq!(Timestamp::seconds(u64::MAX), None);
    assert_eq!(Timestamp::millis(17).to_millis(), 17);
}

fn hash_of<T: Hashable>(value: &T) -> Digest {
    value.hash()
}

#[test]
fn what_is_hashable_hashes_to_its_own_hash() {
    let mut chunk = Chunk::empty_chunk();
    chunk.set_bit(7);
    assert_eq!(hash_of(&chunk), Chunk::hash(&chunk));
    assert_ne!(hash_of(&chunk), hash_of(&Chunk::empty_chunk()));
    let mut window = ActiveWindow::new();
    window.insert(7);
    assert_eq!(hash_of(&window), ActiveWindow::hash(&window));
    // a window and a chunk with the same positions stand for the same elements
    assert_eq!(hash_of(&window), hash_of(&chunk));
}
