//! Core of a proof-of-work blockchain node: difficulty control, the mutator
//! set, and the catalog of the archival block store.

pub mod archival_state;
pub mod bignum;
pub mod block;
pub mod block_height;
pub mod block_index;
pub mod difficulty;
pub mod digest;
pub mod digest_text;
pub mod error;
pub mod job;
pub mod mmr;
pub mod mock;
pub mod mutator_set;
pub mod timestamp;
pub mod tip5;
pub mod validity;
