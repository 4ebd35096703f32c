use vstd::prelude::*;
use rand::rngs::StdRng;
use rand::{RngCore, SeedableRng};
use crate::aead::{aes256_gcm_open, aes256_gcm_seal, open, seal, AEAD_MAX_LEN, CIPHER_KEY_SIZE, NONCE_SIZE};
use crate::error::CryptoError;
use crate::header::{
    frame_of, is_plain, is_plain_text, record_of, strip_zeros, without_zeros, Header, HEADER_SIZE,
};
use crate::hexcode::{bytes_of_hex, decode_hex, encode_hex, hex_of, is_hex_text};
use crate::kdf::{argon2_default_hash, derivable, derive_key};

verus! {

/// Length of a fresh salt.
pub const SALT_SIZE: usize = 32;

/// Length of a fresh nonce.
pub const IV_SIZE: usize = 12;

/// Length of fresh associated data.
pub const AAD_SIZE: usize = 16;

/// Relies on rand's StdRng::from_entropy and RngCore::fill_bytes: `len` bytes
/// from a generator seeded by the operating system (from_entropy panics only
/// when the operating system has no entropy to give).
#[verifier::external_body]
fn random_bytes(len: usize) -> (r: Vec<u8>)
    ensures
        r@.len() == len,
{
    let mut buffer = vec![0u8; len];
    StdRng::from_entropy().fill_bytes(&mut buffer);
    buffer
}

/// The format version written in every header: `0.3.0`.
pub open spec fn format_version() -> Seq<u8> {
    seq![48u8, 46, 51, 46, 48]
}

fn format_version_bytes() -> (r: Vec<u8>)
    ensures
        r@ == format_version(),
{
    let r = vec![48u8, 46, 51, 46, 48];
    assert(r@ == format_version());
    r
}

/// The header record for the given salt, nonce and associated data.
pub open spec fn header_record(salt: Seq<u8>, iv: Seq<u8>, aad: Seq<u8>) -> Seq<u8> {
    record_of(format_version(), hex_of(salt), hex_of(iv), hex_of(aad))
}

/// Hexadecimal text is plain header text.
pub proof fn lemma_hex_is_plain(b: Seq<u8>)
    ensures
        is_plain_text(hex_of(b)),
{
    assert forall|i: int| 0 <= i < hex_of(b).len() implies #[trigger] is_plain(hex_of(b)[i]) by {
        let x = b[i / 2];
        assert(x / 16 < 16);
        assert(x % 16 < 16);
    }
}

/// The header record's length: the fixed text and two digits per byte.
pub proof fn lemma_header_record_len(salt: Seq<u8>, iv: Seq<u8>, aad: Seq<u8>)
    ensures
        header_record(salt, iv, aad).len() == 46 + 2 * (salt.len() + iv.len() + aad.len()),
{
}

/// Which piece of cryptographic material to look up.
#[derive(Debug, Clone, Copy, PartialEq, Eq, Structural)]
pub enum Role {
    Salt,
    Iv,
    Aad,
    Key,
}

/// The cryptographic material of one run: salt, nonce and associated data from
/// the start, and the key once it has been derived.
pub struct Crypto {
    pub salt: Vec<u8>,
    pub iv: Vec<u8>,
    pub aad: Vec<u8>,
    pub key: Option<Vec<u8>>,
}

impl Crypto {
    /// Salt, nonce and associated data have their standard lengths.
    pub open spec fn standard(&self) -> bool {
        self.salt@.len() == SALT_SIZE && self.iv@.len() == IV_SIZE && self.aad@.len() == AAD_SIZE
    }

    /// The key is present and key and nonce have the lengths the cipher needs.
    pub open spec fn cipher_ready(&self) -> bool {
        self.key matches Some(k) && k@.len() == CIPHER_KEY_SIZE && self.iv@.len() == NONCE_SIZE
    }

    pub open spec fn key_view(&self) -> Option<Seq<u8>> {
        match self.key {
            Some(k) => Some(k@),
            None => None,
        }
    }

    /// Fresh material: random salt, nonce and associated data, no key yet.
    pub fn new() -> (r: Crypto)
        ensures
            r.standard(),
            r.key is None,
    {
        let salt = random_bytes(SALT_SIZE);
        let iv = random_bytes(IV_SIZE);
        let aad = random_bytes(AAD_SIZE);
        Crypto { salt, iv, aad, key: None }
    }

    /// Derives the key from a password and the current salt.
    pub fn create_key(&mut self, password: &[u8]) -> (r: Result<(), CryptoError>)
        ensures
            final(self).salt@ == old(self).salt@,
            final(self).iv@ == old(self).iv@,
            final(self).aad@ == old(self).aad@,
            r is Ok <==> derivable(password@, old(self).salt@),
            r is Ok ==> final(self).key_view() == Some(argon2_default_hash(password@, old(self).salt@))
                && argon2_default_hash(password@, old(self).salt@).len() == CIPHER_KEY_SIZE,
            r is Err ==> r == Err::<(), CryptoError>(CryptoError::KeyDerivationFailure)
                && final(self).key_view() == old(self).key_view(),
    {
        match derive_key(password, self.salt.as_slice()) {
            Ok(k) => {
                self.key = Some(k);
                Ok(())
            },
            Err(e) => Err(e),
        }
    }

    /// The piece of material for a role; the key is missing until it is derived.
    pub fn get(&self, role: Role) -> (r: Result<&Vec<u8>, CryptoError>)
        ensures
            role == Role::Salt ==> (r matches Ok(v) && v@ == self.salt@),
            role == Role::Iv ==> (r matches Ok(v) && v@ == self.iv@),
            role == Role::Aad ==> (r matches Ok(v) && v@ == self.aad@),
            role == Role::Key ==> match self.key {
                Some(k) => (r matches Ok(v) && v@ == k@),
                None => r == Err::<&Vec<u8>, CryptoError>(CryptoError::MissingMaterial),
            },
    {
        match role {
            Role::Salt => Ok(&self.salt),
            Role::Iv => Ok(&self.iv),
            Role::Aad => Ok(&self.aad),
            Role::Key => match &self.key {
                Some(k) => Ok(k),
                None => Err(CryptoError::MissingMaterial),
            },
        }
    }

    /// The header fields for the current material, binary fields as hexadecimal text.
    pub fn hex_header(&self) -> (r: Header)
        ensures
            r.binlock@ == format_version(),
            r.salt@ == hex_of(self.salt@),
            r.iv@ == hex_of(self.iv@),
            r.aad@ == hex_of(self.aad@),
            r.wf(),
    {
        let r = Header {
            binlock: format_version_bytes(),
            salt: encode_hex(self.salt.as_slice()),
            iv: encode_hex(self.iv.as_slice()),
            aad: encode_hex(self.aad.as_slice()),
        };
        proof {
            lemma_hex_is_plain(self.salt@);
            lemma_hex_is_plain(self.iv@);
            lemma_hex_is_plain(self.aad@);
            assert(is_plain_text(format_version()));
        }
        r
    }

    /// The header frame for the current material.
    pub fn create_header(&self) -> (r: Result<Vec<u8>, CryptoError>)
        ensures
            r is Ok <==> header_record(self.salt@, self.iv@, self.aad@).len() <= HEADER_SIZE,
            r matches Ok(v) ==> v@ == frame_of(header_record(self.salt@, self.iv@, self.aad@))
                && v@.len() == HEADER_SIZE,
            r is Err ==> r == Err::<Vec<u8>, CryptoError>(CryptoError::HeaderTooLarge),
            self.standard() ==> r is Ok,
    {
        proof {
            lemma_header_record_len(self.salt@, self.iv@, self.aad@);
        }
        self.hex_header().encode()
    }

    /// Reads the header from the start of `input`: its first frame, with the
    /// zero bytes taken out, must be a record of plain fields.
    pub fn read_header(&self, input: &[u8]) -> (r: Result<Header, CryptoError>)
        ensures
            input@.len() < HEADER_SIZE ==> r == Err::<Header, CryptoError>(CryptoError::TruncatedHeader),
            r matches Ok(h) ==> input@.len() >= HEADER_SIZE && h.wf()
                && h.record() == without_zeros(input@.subrange(0, HEADER_SIZE as int)),
            input@.len() >= HEADER_SIZE && r is Err ==> r == Err::<Header, CryptoError>(CryptoError::MalformedHeader),
            input@.len() >= HEADER_SIZE ==> forall|version: Seq<u8>, salt: Seq<u8>, iv: Seq<u8>, aad: Seq<u8>|
                is_plain_text(version) && is_plain_text(salt) && is_plain_text(iv) && is_plain_text(aad)
                    && #[trigger] record_of(version, salt, iv, aad) == without_zeros(input@.subrange(0, HEADER_SIZE as int))
                    ==> (r matches Ok(h) && h.binlock@ == version && h.salt@ == salt && h.iv@ == iv
                        && h.aad@ == aad),
    {
        if input.len() < HEADER_SIZE {
            return Err(CryptoError::TruncatedHeader);
        }
        let record = strip_zeros(vstd::slice::slice_subrange(input, 0, HEADER_SIZE));
        match Header::parse(record.as_slice()) {
            Some(h) => Ok(h),
            None => Err(CryptoError::MalformedHeader),
        }
    }

    /// Replaces salt, nonce and associated data with those a header spells.
    /// On an error the material is left as it was.
    pub fn load_header(&mut self, header: &Header) -> (r: Result<(), CryptoError>)
        ensures
            r is Ok <==> is_hex_text(header.salt@) && is_hex_text(header.iv@) && is_hex_text(header.aad@),
            r is Ok ==> final(self).salt@ == bytes_of_hex(header.salt@)
                && final(self).iv@ == bytes_of_hex(header.iv@)
                && final(self).aad@ == bytes_of_hex(header.aad@),
            r is Err ==> r == Err::<(), CryptoError>(CryptoError::InvalidHex)
                && final(self).salt@ == old(self).salt@
                && final(self).iv@ == old(self).iv@
                && final(self).aad@ == old(self).aad@,
            final(self).key_view() == old(self).key_view(),
    {
        let salt = match decode_hex(header.salt.as_slice()) {
            Ok(v) => v,
            Err(_) => return Err(CryptoError::InvalidHex),
        };
        let iv = match decode_hex(header.iv.as_slice()) {
            Ok(v) => v,
            Err(_) => return Err(CryptoError::InvalidHex),
        };
        let aad = match decode_hex(header.aad.as_slice()) {
            Ok(v) => v,
            Err(_) => return Err(CryptoError::InvalidHex),
        };
        self.salt = salt;
        self.iv = iv;
        self.aad = aad;
        Ok(())
    }

    /// Encrypts and authenticates one chunk with the key, nonce and associated data.
    pub fn encrypt(&self, buffer: &[u8]) -> (r: Result<Vec<u8>, CryptoError>)
        ensures
            self.key is None ==> r == Err::<Vec<u8>, CryptoError>(CryptoError::MissingMaterial),
            self.key is Some && !self.cipher_ready() ==> r == Err::<Vec<u8>, CryptoError>(
                CryptoError::CipherInitFailure,
            ),
            self.cipher_ready() ==> (r is Ok <==> (buffer@.len() <= AEAD_MAX_LEN && self.aad@.len() <= AEAD_MAX_LEN)),
            self.cipher_ready() && r is Err ==> r == Err::<Vec<u8>, CryptoError>(CryptoError::EncryptionFailure),
            r matches Ok(c) ==> self.cipher_ready()
                && c@ == aes256_gcm_seal(self.key->0@, self.iv@, self.aad@, buffer@)
                && c@.len() == buffer@.len() + 16,
    {
        let key = match &self.key {
            Some(k) => k,
            None => return Err(CryptoError::MissingMaterial),
        };
        if key.len() != CIPHER_KEY_SIZE || self.iv.len() != NONCE_SIZE {
            return Err(CryptoError::CipherInitFailure);
        }
        match seal(key.as_slice(), self.iv.as_slice(), self.aad.as_slice(), buffer) {
            Ok(c) => Ok(c),
            Err(_) => Err(CryptoError::EncryptionFailure),
        }
    }

    /// Authenticates and decrypts one chunk with the key, nonce and associated data.
    pub fn decrypt(&self, buffer: &[u8]) -> (r: Result<Vec<u8>, CryptoError>)
        ensures
            self.key is None ==> r == Err::<Vec<u8>, CryptoError>(CryptoError::MissingMaterial),
            self.key is Some && !self.cipher_ready() ==> r == Err::<Vec<u8>, CryptoError>(
                CryptoError::CipherInitFailure,
            ),
            self.cipher_ready() ==> match aes256_gcm_open(self.key->0@, self.iv@, self.aad@, buffer@) {
                Some(p) => (r matches Ok(v) && v@ == p),
                None => r == Err::<Vec<u8>, CryptoError>(CryptoError::AuthenticationFailed),
            },
            self.cipher_ready() ==> forall|p: Seq<u8>|
                p.len() <= AEAD_MAX_LEN && self.aad@.len() <= AEAD_MAX_LEN
                    && #[trigger] aes256_gcm_seal(self.key->0@, self.iv@, self.aad@, p) == buffer@
                    ==> (r matches Ok(v) && v@ == p),
    {
        let key = match &self.key {
            Some(k) => k,
            None => return Err(CryptoError::MissingMaterial),
        };
        if key.len() != CIPHER_KEY_SIZE || self.iv.len() != NONCE_SIZE {
            return Err(CryptoError::CipherInitFailure);
        }
        let r = open(key.as_slice(), self.iv.as_slice(), self.aad.as_slice(), buffer);
        match r {
            Ok(p) => Ok(p),
            Err(_) => Err(CryptoError::AuthenticationFailed),
        }
    }
}

} // verus!
