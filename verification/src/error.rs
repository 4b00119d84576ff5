//! The kinds of failure of the node's core.

use vstd::prelude::*;

verus! {

/// What can go wrong in the core of the node.
#[derive(Debug, Clone, Copy, PartialEq, Eq, Structural)]
pub enum NodeError {
    /// A key that was expected in a catalog is absent.
    CatalogMiss,
    /// A block could not be read back, or the catalog points to data that is
    /// not there.
    CorruptBlock,
    /// The mutator set is not as a block says it is, a bit that is to be
    /// cleared is not set, or the window cannot slide back because its last
    /// chunk is not empty.
    MutatorSetInvariantViolated,
    /// The hash of a block is above the target of its predecessor's
    /// difficulty.
    ProofOfWorkInsufficient,
    /// A peer broke the protocol.
    ProtocolViolation,
    /// The peer map or a queue is full.
    CapacityExceeded,
    /// A job was cancelled.
    Cancelled,
}

impl NodeError {
    /// Whether the error shows the local state to be corrupt, so that the
    /// process has to end and restart.
    pub fn is_fatal(&self) -> (b: bool)
        ensures
            b == (*self == NodeError::CatalogMiss || *self == NodeError::CorruptBlock || *self
                == NodeError::MutatorSetInvariantViolated),
    {
        match self {
            NodeError::CatalogMiss => true,
            NodeError::CorruptBlock => true,
            NodeError::MutatorSetInvariantViolated => true,
            _ => false,
        }
    }

    /// The name of the error.
    pub fn name(&self) -> (s: &'static str)
        ensures
            s@ == match self {
                NodeError::CatalogMiss => "CatalogMiss"@,
                NodeError::CorruptBlock => "CorruptBlock"@,
                NodeError::MutatorSetInvariantViolated => "MutatorSetInvariantViolated"@,
                NodeError::ProofOfWorkInsufficient => "ProofOfWorkInsufficient"@,
                NodeError::ProtocolViolation => "ProtocolViolation"@,
                NodeError::CapacityExceeded => "CapacityExceeded"@,
                NodeError::Cancelled => "Cancelled"@,
            },
    {
        match self {
            NodeError::CatalogMiss => "CatalogMiss",
            NodeError::CorruptBlock => "CorruptBlock",
            NodeError::MutatorSetInvariantViolated => "MutatorSetInvariantViolated",
            NodeError::ProofOfWorkInsufficient => "ProofOfWorkInsufficient",
            NodeError::ProtocolViolation => "ProtocolViolation",
            NodeError::CapacityExceeded => "CapacityExceeded",
            NodeError::Cancelled => "Cancelled",
        }
    }
}

} // verus!
