use vstd::prelude::*;

verus! {

/// Every way a run of the cryptographic engine can fail.
#[derive(Debug, Clone, Copy, PartialEq, Eq, Structural)]
pub enum CryptoError {
    /// The input holds fewer bytes than a header frame.
    TruncatedHeader,
    /// The header frame does not hold a valid record.
    MalformedHeader,
    /// A header field is not valid hexadecimal text.
    InvalidHex,
    /// The record does not fit in a header frame.
    HeaderTooLarge,
    /// The password hash rejected its parameters.
    KeyDerivationFailure,
    /// The key or the nonce does not have the length the cipher needs.
    CipherInitFailure,
    /// A ciphertext chunk did not authenticate.
    AuthenticationFailed,
    /// The cipher refused to encrypt.
    EncryptionFailure,
    /// A piece of cryptographic material is not present yet.
    MissingMaterial,
}

} // verus!
