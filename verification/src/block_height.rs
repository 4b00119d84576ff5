//! The height of a block: its distance from the genesis block.

use vstd::prelude::*;

verus! {

/// Height of a block in the chain; the genesis block has height zero.
#[derive(Clone, Copy, Debug, PartialEq, Eq, Structural, Hash)]
pub struct BlockHeight(pub u64);

impl BlockHeight {
    /// The height of the genesis block.
    pub fn genesis() -> (h: Self)
        ensures
            h.0 == 0,
    {
        BlockHeight(0)
    }

    /// Whether this is the height of the genesis block.
    pub fn is_genesis(&self) -> (b: bool)
        ensures
            b == (self.0 == 0),
    {
        self.0 == 0
    }

    /// The height one above this one.
    pub fn next(&self) -> (h: Self)
        requires
            self.0 < u64::MAX,
        ensures
            h.0 == self.0 + 1,
    {
        BlockHeight(self.0 + 1)
    }

    /// The height one below this one; the genesis height has none.
    pub fn previous(&self) -> (h: Option<Self>)
        ensures
            self.0 == 0 ==> h is None,
            self.0 > 0 ==> h == Some(BlockHeight((self.0 - 1) as u64)),
    {
        if self.0 == 0 {
            None
        } else {
            Some(BlockHeight(self.0 - 1))
        }
    }
}

} // verus!
