//! The claims by which a transaction is shown to be valid.
//!
//! Whether a transaction is valid is decided outside this library, by a
//! proof system that the library treats as an oracle. What is held here is
//! the claim and the kind of support that comes with it.

use crate::digest::Digest;
use vstd::prelude::*;

verus! {

/// What a program is claimed to compute: the digest of the program, its
/// input and its output.
#[derive(Debug)]
pub struct Claim {
    pub program_digest: Digest,
    pub input: Vec<u64>,
    pub output: Vec<u64>,
}

/// What supports a claim.
#[derive(Debug, Clone, Copy, PartialEq, Eq, Structural)]
pub enum ClaimSupport {
    /// A proof is attached to the claim.
    Proof,
    /// Nothing supports the claim: it stands in for one that is yet to be
    /// made.
    DummySupport,
}

/// A claim together with its support.
#[derive(Debug)]
pub struct SupportedClaim {
    pub claim: Claim,
    pub support: ClaimSupport,
}

impl SupportedClaim {
    /// The claim that stands in for one that is yet to be made: the all-zero
    /// program digest, no input, no output, and no support.
    pub fn dummy_supported_claim() -> (c: Self)
        ensures
            c.claim.program_digest@ == seq![0u64, 0u64, 0u64, 0u64, 0u64],
            c.claim.input@.len() == 0,
            c.claim.output@.len() == 0,
            c.support == ClaimSupport::DummySupport,
    {
        SupportedClaim {
            claim: Claim { program_digest: Digest::default(), input: Vec::new(), output: Vec::new() },
            support: ClaimSupport::DummySupport,
        }
    }
}

/// The claim that every input of a transaction is unlocked by its lock
/// script.
#[derive(Debug)]
pub struct InputsToLockScripts {
    pub supported_claim: SupportedClaim,
}

impl InputsToLockScripts {
    /// The claim that stands in for one that is yet to be made.
    pub fn dummy() -> (c: Self)
        ensures
            c.supported_claim.support == ClaimSupport::DummySupport,
            c.supported_claim.claim.program_digest@ == seq![0u64, 0u64, 0u64, 0u64, 0u64],
            c.supported_claim.claim.input@.len() == 0,
            c.supported_claim.claim.output@.len() == 0,
    {
        InputsToLockScripts { supported_claim: SupportedClaim::dummy_supported_claim() }
    }

    /// Whether the claim is supported by a proof: a dummy never is.
    pub fn is_supported(&self) -> (b: bool)
        ensures
            b == (self.supported_claim.support == ClaimSupport::Proof),
    {
        self.supported_claim.support == ClaimSupport::Proof
    }
}

} // verus!
