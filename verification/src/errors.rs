use vstd::prelude::*;

verus! {

/// Failure taxonomy of the credential subsystem.
///
/// Crypto and persistence errors are typed and surfaced unchanged to the
/// caller; nothing is retried automatically.
#[derive(Debug, Clone)]
pub enum ConfigError {
    /// Neither a local nor a global config file exists.
    ConfigNotFound,
    /// The file at `path` does not hold a well-formed config document.
    MalformedConfig { path: String, cause: String },
    /// Tag verification failed while decrypting the stored password:
    /// corruption, tampering, or a key mismatch from a rebuilt binary.
    AuthenticationFailure,
    /// This platform has no defined global config location.
    UnsupportedPlatform,
    /// A relay port lies outside the inclusive range 1..=65535.
    PortOutOfRange,
    /// Writing or reading a config file failed at the I/O level.
    IoFailure { path: String, cause: String },
}

} // verus!
