//! A proof-of-knowledge game over a public list of secrets: a challenger
//! publishes one semiprime per secret, a responder who knows the secret
//! factors the semiprime assigned to it and seals the secret under a key
//! derived from the smaller factor, and a verifier repeats the work to check.

pub mod arith;
pub mod error;
pub mod prime;
pub mod factor;
pub mod cipher;
pub mod protocol;
pub mod wire;

pub use error::ProtocolError;
pub use protocol::{Challenge, Response};
