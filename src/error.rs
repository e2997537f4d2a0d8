use vstd::prelude::*;

verus! {

/// Failures surfaced by the client's operations.
#[derive(Debug, Clone, Copy, PartialEq, Eq, Structural)]
pub enum ClientError {
    /// The bootstrap address does not end in a `/p2p/<peer id>` segment
    /// preceded by a routable address.
    AddressParse,
    /// A peer identity is not valid base58.
    IdentityDecode,
    /// Circuit establishment failed.
    Dial,
    /// The proxy refused or did not answer the registration.
    Registration,
}

} // verus!
