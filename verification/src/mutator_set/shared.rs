//! Parameters of the mutator set.

use vstd::prelude::*;

verus! {

/// Number of bits of the sliding-window Bloom filter that are active.
pub const WINDOW_SIZE: u32 = 0x10_0000;

/// Number of bits of one chunk: the step by which the window slides.
pub const CHUNK_SIZE: u32 = 0x1000;

/// Number of additions after which the window slides by one chunk.
pub const BATCH_SIZE: u32 = 8;

/// Number of Bloom-filter bits that one item sets when it is removed.
pub const NUM_TRIALS: u32 = 45;

} // verus!
