use vstd::prelude::*;
use crate::error::CryptoError;

verus! {

#[verifier::external_type_specification]
#[verifier::external_body]
pub struct ExArgon2Error(argon2::Error);

/// The 32-byte Argon2 hash, with the default cost parameters, of a password under a salt.
pub uninterp spec fn argon2_default_hash(password: Seq<u8>, salt: Seq<u8>) -> Seq<u8>;

/// Length of a derived key: an AES-256 key.
pub const KEY_SIZE: usize = 32;

/// Relies on argon2::hash_raw with argon2::Config::default(): with the default
/// configuration it fails exactly when the salt is shorter than 8 bytes or a
/// length does not fit in 32 bits, and otherwise returns a hash of the default
/// length, 32 bytes.
#[verifier::external_body]
fn hash_password(password: &[u8], salt: &[u8]) -> (r: Result<Vec<u8>, argon2::Error>)
    ensures
        r is Ok <==> (8 <= salt@.len() <= 0xffff_ffff && password@.len() <= 0xffff_ffff),
        r matches Ok(k) ==> k@ == argon2_default_hash(password@, salt@) && k@.len() == 32,
{
    argon2::hash_raw(password, salt, &argon2::Config::default())
}

/// Whether a password and a salt are within what the password hash accepts.
pub open spec fn derivable(password: Seq<u8>, salt: Seq<u8>) -> bool {
    8 <= salt.len() <= 0xffff_ffff && password.len() <= 0xffff_ffff
}

/// Derives the symmetric key for a password and a salt.
pub fn derive_key(password: &[u8], salt: &[u8]) -> (r: Result<Vec<u8>, CryptoError>)
    ensures
        r is Ok <==> derivable(password@, salt@),
        r matches Ok(k) ==> k@ == argon2_default_hash(password@, salt@) && k@.len() == KEY_SIZE,
        r matches Err(e) ==> e == CryptoError::KeyDerivationFailure,
{
    match hash_password(password, salt) {
        Ok(k) => Ok(k),
        Err(_) => Err(CryptoError::KeyDerivationFailure),
    }
}

/// Key derivation is a function of the password and the salt: two derivations
/// from the same password and salt give the same key.
pub proof fn lemma_derivation_deterministic(
    password: Seq<u8>,
    salt: Seq<u8>,
    first: Seq<u8>,
    second: Seq<u8>,
)
    requires
        first == argon2_default_hash(password, salt),
        second == argon2_default_hash(password, salt),
    ensures
        first == second,
{
}

} // verus!
