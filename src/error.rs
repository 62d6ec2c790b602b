use vstd::prelude::*;

verus! {

/// Failures of the identity registry's operations.
#[derive(Copy, Clone, Debug, PartialEq, Eq, Structural)]
pub enum OnChainIdError {
    KeyNotRegistered,
    KeyAlreadyHasPurpose,
    KeyDoesntHavePurpose,
    NoClaimFound,
    NoClaimTopicFound,
    IssuerKeyNotAuthorized,
    /// The claim's signature does not verify against the issuer's key: the
    /// validation call fails rather than answering no.
    ClaimSignatureRejected,
}

} // verus!
