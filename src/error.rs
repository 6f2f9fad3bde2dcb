//! The library's error kinds.

use vstd::prelude::*;

verus! {

/// Why an operation failed.
#[derive(Clone, Debug)]
pub enum Error {
    /// A signature does not verify.
    InvalidSignature,
    /// A signature share does not verify, or shares cannot be combined.
    InvalidSignatureShare,
    /// A payload or key encoding cannot be used.
    InvalidPayload,
    /// A DKG participant sent two different ephemeral keys.
    DoubleKeyAttackDetected {
        owner: Vec<u8>,
        new_key: Vec<u8>,
        new_sig: Vec<u8>,
        old_key: Vec<u8>,
        old_sig: Vec<u8>,
    },
    /// A chain of section keys cannot be trusted or merged.
    UntrustedProofChain,
    /// A SAP is not signed by the key it should be.
    UntrustedSectionAuthProvider,
    /// The named node is not a participant of the DKG session.
    NodeNotInDkgSession(Vec<u8>),
    /// No ephemeral keys are held for the DKG session.
    NoDkgKeysForSession,
    /// No DKG state is held for the session.
    NoDkgStateForSession,
    /// An internal state that should hold does not.
    InvalidState,
    /// A name that does not decode as a public key.
    InvalidXorname(Vec<u8>),
    /// Joining the network took too long.
    JoinTimeout,
    /// A message could not be sent to the named peer.
    FailedSend(Vec<u8>),
    /// Not enough signature shares yet.
    NotEnoughShares,
    /// Storage is full.
    NotEnoughSpace,
    /// The configuration is unusable.
    Configuration(String),
    /// A message for ourselves that is not meant to be aggregated.
    SendOrHandlingNormalMsg,
}

} // verus!
