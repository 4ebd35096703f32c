use vstd::prelude::*;
use aes_gcm::aead::{Aead, KeyInit, Payload};
use aes_gcm::{Aes256Gcm, Nonce};

verus! {

#[verifier::external_type_specification]
#[verifier::external_body]
pub struct ExAeadError(aes_gcm::Error);

/// AES-256-GCM ciphertext, tag appended, of `msg` under a key, a nonce and associated data.
pub uninterp spec fn aes256_gcm_seal(key: Seq<u8>, nonce: Seq<u8>, aad: Seq<u8>, msg: Seq<u8>) -> Seq<u8>;

/// AES-256-GCM decryption of a ciphertext with its tag: `None` when the tag does not verify.
pub uninterp spec fn aes256_gcm_open(key: Seq<u8>, nonce: Seq<u8>, aad: Seq<u8>, ct: Seq<u8>) -> Option<Seq<u8>>;

/// Decryption gives back `p` whenever `ct` is the encryption of `p` under the same parameters.
pub open spec fn opens_to(
    r: Result<Vec<u8>, aes_gcm::Error>,
    key: Seq<u8>,
    nonce: Seq<u8>,
    aad: Seq<u8>,
    ct: Seq<u8>,
    p: Seq<u8>,
) -> bool {
    p.len() <= AEAD_MAX_LEN && aad.len() <= AEAD_MAX_LEN && aes256_gcm_seal(key, nonce, aad, p) == ct
        ==> (r matches Ok(v) && v@ == p)
}

/// Largest plaintext, and largest associated data, that AES-GCM accepts.
pub const AEAD_MAX_LEN: u64 = 0x10_0000_0000;

/// Length of the authentication tag appended to each ciphertext.
pub const TAG_SIZE: usize = 16;

/// Length of an AES-256 key.
pub const CIPHER_KEY_SIZE: usize = 32;

/// Length of a GCM nonce.
pub const NONCE_SIZE: usize = 12;

/// Relies on aes_gcm's Aes256Gcm::new_from_slice and Aead::encrypt: with a
/// 32-byte key and a 12-byte nonce it fails only when the message or the
/// associated data is longer than 2^36 bytes, and the ciphertext is the message's
/// length plus the 16-byte tag.
#[verifier::external_body]
pub(crate) fn seal(key: &[u8], nonce: &[u8], aad: &[u8], msg: &[u8]) -> (r: Result<Vec<u8>, aes_gcm::Error>)
    requires
        key@.len() == CIPHER_KEY_SIZE,
        nonce@.len() == NONCE_SIZE,
    ensures
        r is Ok <==> (msg@.len() <= AEAD_MAX_LEN && aad@.len() <= AEAD_MAX_LEN),
        r matches Ok(c) ==> c@ == aes256_gcm_seal(key@, nonce@, aad@, msg@) && c@.len() == msg@.len() + TAG_SIZE,
{
    let cipher = Aes256Gcm::new_from_slice(key).map_err(|_| aes_gcm::Error)?;
    cipher.encrypt(Nonce::from_slice(nonce), Payload { msg, aad })
}

/// Relies on aes_gcm's Aes256Gcm::new_from_slice and Aead::decrypt: with a
/// 32-byte key and a 12-byte nonce, decryption is deterministic, and it gives
/// back the message of any ciphertext that encryption produced under the same
/// key, nonce and associated data.
#[verifier::external_body]
pub(crate) fn open(key: &[u8], nonce: &[u8], aad: &[u8], ct: &[u8]) -> (r: Result<Vec<u8>, aes_gcm::Error>)
    requires
        key@.len() == CIPHER_KEY_SIZE,
        nonce@.len() == NONCE_SIZE,
    ensures
        r matches Ok(p) ==> aes256_gcm_open(key@, nonce@, aad@, ct@) == Some(p@),
        r is Err ==> aes256_gcm_open(key@, nonce@, aad@, ct@) is None,
        forall|p: Seq<u8>|
            #![trigger aes256_gcm_seal(key@, nonce@, aad@, p)]
            opens_to(r, key@, nonce@, aad@, ct@, p),
{
    let cipher = Aes256Gcm::new_from_slice(key).map_err(|_| aes_gcm::Error)?;
    cipher.decrypt(Nonce::from_slice(nonce), Payload { msg: ct, aad })
}

} // verus!
