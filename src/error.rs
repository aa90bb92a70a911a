use vstd::prelude::*;

verus! {

/// The ways an operation of the protocol can fail.
#[derive(Debug, Clone, Copy, PartialEq, Eq, Structural)]
pub enum ProtocolError {
    /// The secret is not in the list of candidate secrets.
    SecretNotFound,
    /// The response names a different challenge than the one given.
    IdentifierMismatch,
    /// Factoring the semiprime produced no nontrivial factor.
    FactorizationFailed,
    /// The sealed blob could not be opened under the key, or did not hold UTF-8.
    DecryptionFailed,
    /// An input does not have the expected shape.
    MalformedInput,
    /// A random search gave up after its attempt limit.
    RetriesExhausted,
}

} // verus!
