//! The mutator set: an append-only commitment list together with a
//! sliding-window Bloom filter.

pub mod active_window;
pub mod archival_mutator_set;
pub mod addition_record;
pub mod chunk;
pub mod chunk_dictionary;
pub mod membership_updates;
pub mod ms_membership_proof;
pub mod mutator_set_accumulator;
pub mod mutator_set_trait;
pub mod removal_record;
pub mod set_commitment;
pub mod shared;
pub mod sorted;
