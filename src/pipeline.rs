use vstd::prelude::*;
use vstd::slice::slice_subrange;
use crate::aead::{aes256_gcm_open, aes256_gcm_seal, AEAD_MAX_LEN, TAG_SIZE};
use crate::crypto::{header_record, lemma_hex_is_plain, format_version, Crypto};
use crate::error::CryptoError;
use crate::header::{
    append_bytes, frame_of, is_plain_text, lemma_frame_round_trip, lemma_record_has_no_zero,
    lemma_record_injective, record_of, without_zeros, HEADER_SIZE,
};
use crate::hexcode::{bytes_of_hex, hex_of, is_hex_text, lemma_hex_round_trip};
use crate::kdf::{argon2_default_hash, derivable};

verus! {

/// Plaintext bytes per chunk on encryption.
pub const ENCRYPT_CHUNK_SIZE: usize = 61424;

/// Ciphertext bytes per chunk on decryption: a plaintext chunk and its tag.
pub const DECRYPT_CHUNK_SIZE: usize = 61440;

/// The ciphertext of a whole stream: each plaintext chunk sealed on its own.
pub open spec fn sealed_stream(key: Seq<u8>, iv: Seq<u8>, aad: Seq<u8>, b: Seq<u8>) -> Seq<u8>
    decreases b.len(),
{
    if b.len() == 0 {
        b
    } else if b.len() <= ENCRYPT_CHUNK_SIZE {
        aes256_gcm_seal(key, iv, aad, b)
    } else {
        aes256_gcm_seal(key, iv, aad, b.take(ENCRYPT_CHUNK_SIZE as int))
            + sealed_stream(key, iv, aad, b.skip(ENCRYPT_CHUNK_SIZE as int))
    }
}

/// Every chunk of the stream seals to the chunk's length plus a tag.
pub open spec fn stream_tagged(key: Seq<u8>, iv: Seq<u8>, aad: Seq<u8>, b: Seq<u8>) -> bool
    decreases b.len(),
{
    if b.len() == 0 {
        true
    } else if b.len() <= ENCRYPT_CHUNK_SIZE {
        aes256_gcm_seal(key, iv, aad, b).len() == b.len() + TAG_SIZE
    } else {
        aes256_gcm_seal(key, iv, aad, b.take(ENCRYPT_CHUNK_SIZE as int)).len() == DECRYPT_CHUNK_SIZE
            && stream_tagged(key, iv, aad, b.skip(ENCRYPT_CHUNK_SIZE as int))
    }
}

/// The plaintext of a whole stream: each ciphertext chunk opened on its own,
/// `None` as soon as one does not authenticate.
pub open spec fn opened_stream(key: Seq<u8>, iv: Seq<u8>, aad: Seq<u8>, c: Seq<u8>) -> Option<Seq<u8>>
    decreases c.len(),
{
    if c.len() == 0 {
        Some(c)
    } else if c.len() <= DECRYPT_CHUNK_SIZE {
        aes256_gcm_open(key, iv, aad, c)
    } else {
        match aes256_gcm_open(key, iv, aad, c.take(DECRYPT_CHUNK_SIZE as int)) {
            Some(p) => match opened_stream(key, iv, aad, c.skip(DECRYPT_CHUNK_SIZE as int)) {
                Some(q) => Some(p + q),
                None => None,
            },
            None => None,
        }
    }
}

/// The error a chunk operation gives when the material is not ready for the cipher.
pub open spec fn unready_error(crypto: Crypto) -> CryptoError {
    if crypto.key is None {
        CryptoError::MissingMaterial
    } else {
        CryptoError::CipherInitFailure
    }
}

/// A tagged stream of some bytes is empty only when the bytes are.
proof fn lemma_sealed_nonempty(key: Seq<u8>, iv: Seq<u8>, aad: Seq<u8>, b: Seq<u8>)
    requires
        stream_tagged(key, iv, aad, b),
        b.len() > 0,
    ensures
        sealed_stream(key, iv, aad, b).len() > 0,
{
}

/// Encrypts a whole stream chunk by chunk.
pub fn encrypt_chunks(crypto: &Crypto, data: &[u8]) -> (r: Result<Vec<u8>, CryptoError>)
    ensures
        data@.len() == 0 ==> (r matches Ok(c) && c@.len() == 0),
        data@.len() > 0 && !crypto.cipher_ready() ==> r == Err::<Vec<u8>, CryptoError>(unready_error(*crypto)),
        crypto.cipher_ready() && crypto.aad@.len() <= AEAD_MAX_LEN ==> (r matches Ok(c)
            && c@ == sealed_stream(crypto.key->0@, crypto.iv@, crypto.aad@, data@)
            && stream_tagged(crypto.key->0@, crypto.iv@, crypto.aad@, data@)),
        data@.len() > 0 && crypto.cipher_ready() && crypto.aad@.len() > AEAD_MAX_LEN
            ==> r == Err::<Vec<u8>, CryptoError>(CryptoError::EncryptionFailure),
{
    let mut out: Vec<u8> = Vec::new();
    let mut pos: usize = 0;
    let ghost ok = crypto.cipher_ready() && crypto.aad@.len() <= AEAD_MAX_LEN;
    proof {
        assert(data@.skip(0) =~= data@);
        assert(out@ + sealed_stream(crypto.key->0@, crypto.iv@, crypto.aad@, data@) =~= sealed_stream(
            crypto.key->0@,
            crypto.iv@,
            crypto.aad@,
            data@,
        ));
    }
    while pos < data.len()
        invariant
            pos <= data@.len(),
            ok == (crypto.cipher_ready() && crypto.aad@.len() <= AEAD_MAX_LEN),
            pos > 0 ==> ok,
            pos == 0 ==> out@.len() == 0,
            ok ==> sealed_stream(crypto.key->0@, crypto.iv@, crypto.aad@, data@)
                == out@ + sealed_stream(crypto.key->0@, crypto.iv@, crypto.aad@, data@.skip(pos as int)),
            ok ==> (stream_tagged(crypto.key->0@, crypto.iv@, crypto.aad@, data@)
                == stream_tagged(crypto.key->0@, crypto.iv@, crypto.aad@, data@.skip(pos as int))),
        decreases data@.len() - pos,
    {
        let end = if data.len() - pos > ENCRYPT_CHUNK_SIZE {
            pos + ENCRYPT_CHUNK_SIZE
        } else {
            data.len()
        };
        let chunk = slice_subrange(data, pos, end);
        let c = match crypto.encrypt(chunk) {
            Ok(c) => c,
            Err(e) => return Err(e),
        };
        let ghost before = out@;
        append_bytes(&mut out, c.as_slice());
        proof {
            let k = crypto.key->0@;
            let rest = data@.skip(pos as int);
            if end == data.len() {
                assert(rest =~= chunk@);
                assert(data@.skip(end as int) =~= Seq::<u8>::empty());
            } else {
                assert(rest.take(ENCRYPT_CHUNK_SIZE as int) =~= chunk@);
                assert(rest.skip(ENCRYPT_CHUNK_SIZE as int) =~= data@.skip(end as int));
            }
            if ok {
                assert(out@ + sealed_stream(k, crypto.iv@, crypto.aad@, data@.skip(end as int))
                    =~= before + (c@ + sealed_stream(k, crypto.iv@, crypto.aad@, data@.skip(end as int))));
            }
        }
        pos = end;
    }
    proof {
        assert(data@.skip(pos as int) =~= Seq::<u8>::empty());
        assert(out@ + Seq::<u8>::empty() =~= out@);
    }
    Ok(out)
}

/// Bytes in front of an optional stream.
pub open spec fn prepend(out: Seq<u8>, o: Option<Seq<u8>>) -> Option<Seq<u8>> {
    match o {
        Some(q) => Some(out + q),
        None => None,
    }
}

/// The first plaintext chunk of a stream.
pub open spec fn first_chunk(b: Seq<u8>) -> Seq<u8> {
    if b.len() <= ENCRYPT_CHUNK_SIZE {
        b
    } else {
        b.take(ENCRYPT_CHUNK_SIZE as int)
    }
}

/// Where the first ciphertext chunk of a tagged stream ends, and what follows it.
proof fn lemma_chunk_of_stream(key: Seq<u8>, iv: Seq<u8>, aad: Seq<u8>, rest: Seq<u8>, b: Seq<u8>)
    requires
        stream_tagged(key, iv, aad, b),
        sealed_stream(key, iv, aad, b) == rest,
        rest.len() > 0,
    ensures
        b.len() > 0,
        b.len() <= ENCRYPT_CHUNK_SIZE ==> rest.len() <= DECRYPT_CHUNK_SIZE
            && rest == aes256_gcm_seal(key, iv, aad, first_chunk(b)),
        b.len() > ENCRYPT_CHUNK_SIZE ==> rest.len() > DECRYPT_CHUNK_SIZE
            && rest.take(DECRYPT_CHUNK_SIZE as int) == aes256_gcm_seal(key, iv, aad, first_chunk(b))
            && rest.skip(DECRYPT_CHUNK_SIZE as int) == sealed_stream(key, iv, aad, b.skip(ENCRYPT_CHUNK_SIZE as int))
            && stream_tagged(key, iv, aad, b.skip(ENCRYPT_CHUNK_SIZE as int)),
{
    if b.len() > ENCRYPT_CHUNK_SIZE {
        let tail = b.skip(ENCRYPT_CHUNK_SIZE as int);
        lemma_sealed_nonempty(key, iv, aad, tail);
        let head = aes256_gcm_seal(key, iv, aad, b.take(ENCRYPT_CHUNK_SIZE as int));
        assert(rest.take(DECRYPT_CHUNK_SIZE as int) =~= head);
        assert(rest.skip(DECRYPT_CHUNK_SIZE as int) =~= sealed_stream(key, iv, aad, tail));
    }
}

/// Decrypts a whole stream chunk by chunk.
#[verifier::rlimit(60)]
pub fn decrypt_chunks(crypto: &Crypto, data: &[u8]) -> (r: Result<Vec<u8>, CryptoError>)
    ensures
        data@.len() == 0 ==> (r matches Ok(p) && p@.len() == 0),
        data@.len() > 0 && !crypto.cipher_ready() ==> r == Err::<Vec<u8>, CryptoError>(unready_error(*crypto)),
        crypto.cipher_ready() ==> match opened_stream(crypto.key->0@, crypto.iv@, crypto.aad@, data@) {
            Some(p) => (r matches Ok(v) && v@ == p),
            None => r == Err::<Vec<u8>, CryptoError>(CryptoError::AuthenticationFailed),
        },
        crypto.cipher_ready() && crypto.aad@.len() <= AEAD_MAX_LEN ==> forall|b: Seq<u8>|
            stream_tagged(crypto.key->0@, crypto.iv@, crypto.aad@, b)
                && #[trigger] sealed_stream(crypto.key->0@, crypto.iv@, crypto.aad@, b) == data@
                ==> (r matches Ok(v) && v@ == b),
{
    let mut out: Vec<u8> = Vec::new();
    let mut pos: usize = 0;
    let ghost ready = crypto.cipher_ready();
    let ghost ok = crypto.cipher_ready() && crypto.aad@.len() <= AEAD_MAX_LEN;
    let ghost key = crypto.key->0@;
    let ghost iv = crypto.iv@;
    let ghost aad = crypto.aad@;
    proof {
        assert(data@.skip(0) =~= data@);
        assert forall|b: Seq<u8>|
            ok && stream_tagged(key, iv, aad, b) && #[trigger] sealed_stream(key, iv, aad, b) == data@
            implies b.skip(0) == b && b.take(0) == out@ by {
            assert(b.skip(0) =~= b);
            assert(b.take(0) =~= out@);
        }
        if ready {
            match opened_stream(key, iv, aad, data@) {
                Some(q) => { assert(out@ + q =~= q); },
                None => {},
            }
        }
    }
    while pos < data.len()
        invariant
            pos <= data@.len(),
            ready == crypto.cipher_ready(),
            ok == (crypto.cipher_ready() && crypto.aad@.len() <= AEAD_MAX_LEN),
            ready ==> key == crypto.key->0@,
            iv == crypto.iv@,
            aad == crypto.aad@,
            pos > 0 ==> ready,
            pos == 0 ==> out@.len() == 0,
            ready ==> opened_stream(key, iv, aad, data@) == prepend(out@, opened_stream(key, iv, aad, data@.skip(pos as int))),
            forall|b: Seq<u8>|
                ok && stream_tagged(key, iv, aad, b) && #[trigger] sealed_stream(key, iv, aad, b) == data@
                ==> out@.len() <= b.len() && b.take(out@.len() as int) == out@
                    && stream_tagged(key, iv, aad, b.skip(out@.len() as int))
                    && sealed_stream(key, iv, aad, b.skip(out@.len() as int)) == data@.skip(pos as int),
        decreases data@.len() - pos,
    {
        let end = if data.len() - pos > DECRYPT_CHUNK_SIZE {
            pos + DECRYPT_CHUNK_SIZE
        } else {
            data.len()
        };
        let chunk = slice_subrange(data, pos, end);
        let ghost rest = data@.skip(pos as int);
        proof {
            if end == data.len() {
                assert(rest =~= chunk@);
                assert(data@.skip(end as int) =~= Seq::<u8>::empty());
            } else {
                assert(rest.take(DECRYPT_CHUNK_SIZE as int) =~= chunk@);
                assert(rest.skip(DECRYPT_CHUNK_SIZE as int) =~= data@.skip(end as int));
            }
            assert forall|b: Seq<u8>|
                ok && stream_tagged(key, iv, aad, b) && #[trigger] sealed_stream(key, iv, aad, b) == data@
                implies chunk@ == aes256_gcm_seal(key, iv, aad, first_chunk(b.skip(out@.len() as int)))
                    && first_chunk(b.skip(out@.len() as int)).len() <= AEAD_MAX_LEN by {
                lemma_chunk_of_stream(key, iv, aad, rest, b.skip(out@.len() as int));
            }
        }
        let p = match crypto.decrypt(chunk) {
            Ok(p) => p,
            Err(e) => return Err(e),
        };
        let ghost before = out@;
        append_bytes(&mut out, p.as_slice());
        proof {
            assert forall|b: Seq<u8>|
                ok && stream_tagged(key, iv, aad, b) && #[trigger] sealed_stream(key, iv, aad, b) == data@
                implies out@.len() <= b.len() && b.take(out@.len() as int) == out@
                    && stream_tagged(key, iv, aad, b.skip(out@.len() as int))
                    && sealed_stream(key, iv, aad, b.skip(out@.len() as int)) == data@.skip(end as int) by {
                let tail = b.skip(before.len() as int);
                lemma_chunk_of_stream(key, iv, aad, rest, tail);
                assert(p@ == first_chunk(tail));
                assert(b.take(out@.len() as int) =~= before + first_chunk(tail));
                assert(b.skip(out@.len() as int) =~= tail.skip(first_chunk(tail).len() as int));
                if tail.len() <= ENCRYPT_CHUNK_SIZE {
                    assert(tail.skip(first_chunk(tail).len() as int) =~= Seq::<u8>::empty());
                }
            }
            if ready {
                match opened_stream(key, iv, aad, data@.skip(end as int)) {
                    Some(q) => { assert(before + (p@ + q) =~= out@ + q); },
                    None => {},
                }
            }
        }
        pos = end;
    }
    proof {
        assert(data@.skip(pos as int) =~= Seq::<u8>::empty());
        assert(out@ + Seq::<u8>::empty() =~= out@);
        assert forall|b: Seq<u8>|
            ok && stream_tagged(key, iv, aad, b) && #[trigger] sealed_stream(key, iv, aad, b) == data@
            implies out@ == b by {
            let tail = b.skip(out@.len() as int);
            if tail.len() > 0 {
                lemma_sealed_nonempty(key, iv, aad, tail);
            }
            assert(b =~= b.take(out@.len() as int) + tail);
        }
    }
    Ok(out)
}

/// A whole container: the header frame for the material, then the sealed stream
/// under the key derived from the password and the salt.
pub open spec fn container_of(salt: Seq<u8>, iv: Seq<u8>, aad: Seq<u8>, password: Seq<u8>, b: Seq<u8>) -> Seq<u8> {
    frame_of(header_record(salt, iv, aad)) + sealed_stream(argon2_default_hash(password, salt), iv, aad, b)
}

/// Salt, nonce and associated data of the standard lengths, and a password the hash accepts.
pub open spec fn standard_params(salt: Seq<u8>, iv: Seq<u8>, aad: Seq<u8>, password: Seq<u8>) -> bool {
    salt.len() == 32 && iv.len() == 12 && aad.len() == 16 && password.len() <= 0xffff_ffff
}

/// What a container made with standard parameters holds, part by part.
proof fn lemma_container_parts(salt: Seq<u8>, iv: Seq<u8>, aad: Seq<u8>, password: Seq<u8>, b: Seq<u8>)
    requires
        standard_params(salt, iv, aad, password),
    ensures
        ({
            let c = container_of(salt, iv, aad, password, b);
            &&& c.len() >= HEADER_SIZE
            &&& without_zeros(c.subrange(0, HEADER_SIZE as int)) == header_record(salt, iv, aad)
            &&& c.subrange(HEADER_SIZE as int, c.len() as int) == sealed_stream(argon2_default_hash(password, salt), iv, aad, b)
        }),
        is_plain_text(format_version()),
        is_plain_text(hex_of(salt)),
        is_plain_text(hex_of(iv)),
        is_plain_text(hex_of(aad)),
        is_hex_text(hex_of(salt)),
        is_hex_text(hex_of(iv)),
        is_hex_text(hex_of(aad)),
        bytes_of_hex(hex_of(salt)) == salt,
        bytes_of_hex(hex_of(iv)) == iv,
        bytes_of_hex(hex_of(aad)) == aad,
{
    let c = container_of(salt, iv, aad, password, b);
    let record = header_record(salt, iv, aad);
    lemma_hex_is_plain(salt);
    lemma_hex_is_plain(iv);
    lemma_hex_is_plain(aad);
    lemma_hex_round_trip(salt);
    lemma_hex_round_trip(iv);
    lemma_hex_round_trip(aad);
    assert(is_plain_text(format_version()));
    lemma_record_has_no_zero(format_version(), hex_of(salt), hex_of(iv), hex_of(aad));
    lemma_frame_round_trip(record);
    assert(c.subrange(0, HEADER_SIZE as int) =~= frame_of(record));
    assert(c.subrange(HEADER_SIZE as int, c.len() as int) =~= sealed_stream(argon2_default_hash(password, salt), iv, aad, b));
}

/// Four header fields, each plain text.
pub open spec fn plain_fields(f: (Seq<u8>, Seq<u8>, Seq<u8>, Seq<u8>)) -> bool {
    is_plain_text(f.0) && is_plain_text(f.1) && is_plain_text(f.2) && is_plain_text(f.3)
}

/// The fields of the record that a frame holds once its zero bytes are taken out.
pub open spec fn frame_fields(frame: Seq<u8>) -> Option<(Seq<u8>, Seq<u8>, Seq<u8>, Seq<u8>)> {
    if exists|f: (Seq<u8>, Seq<u8>, Seq<u8>, Seq<u8>)|
        plain_fields(f) && #[trigger] record_of(f.0, f.1, f.2, f.3) == without_zeros(frame) {
        Some(
            choose|f: (Seq<u8>, Seq<u8>, Seq<u8>, Seq<u8>)|
                plain_fields(f) && #[trigger] record_of(f.0, f.1, f.2, f.3) == without_zeros(frame),
        )
    } else {
        None
    }
}

proof fn lemma_frame_fields(frame: Seq<u8>, f: (Seq<u8>, Seq<u8>, Seq<u8>, Seq<u8>))
    requires
        plain_fields(f),
        record_of(f.0, f.1, f.2, f.3) == without_zeros(frame),
    ensures
        frame_fields(frame) == Some(f),
{
    assert(plain_fields(f) && record_of(f.0, f.1, f.2, f.3) == without_zeros(frame));
    let g = choose|g: (Seq<u8>, Seq<u8>, Seq<u8>, Seq<u8>)|
        plain_fields(g) && #[trigger] record_of(g.0, g.1, g.2, g.3) == without_zeros(frame);
    lemma_record_injective(g, f);
}

/// What the whole run of encryption gives for some material, password and input.
pub open spec fn encrypt_result(
    salt: Seq<u8>,
    iv: Seq<u8>,
    aad: Seq<u8>,
    password: Seq<u8>,
    input: Seq<u8>,
) -> Result<Seq<u8>, CryptoError> {
    if !derivable(password, salt) {
        Err(CryptoError::KeyDerivationFailure)
    } else if header_record(salt, iv, aad).len() > HEADER_SIZE {
        Err(CryptoError::HeaderTooLarge)
    } else if input.len() > 0 && iv.len() != 12 {
        Err(CryptoError::CipherInitFailure)
    } else if input.len() > 0 && aad.len() > AEAD_MAX_LEN {
        Err(CryptoError::EncryptionFailure)
    } else {
        Ok(container_of(salt, iv, aad, password, input))
    }
}

/// What the whole run of decryption gives for a password and a container.
pub open spec fn decrypt_result(password: Seq<u8>, container: Seq<u8>) -> Result<Seq<u8>, CryptoError> {
    if container.len() < HEADER_SIZE {
        Err(CryptoError::TruncatedHeader)
    } else {
        match frame_fields(container.subrange(0, HEADER_SIZE as int)) {
            None => Err(CryptoError::MalformedHeader),
            Some(f) => if !(is_hex_text(f.1) && is_hex_text(f.2) && is_hex_text(f.3)) {
                Err(CryptoError::InvalidHex)
            } else {
                let salt = bytes_of_hex(f.1);
                let iv = bytes_of_hex(f.2);
                let aad = bytes_of_hex(f.3);
                let body = container.subrange(HEADER_SIZE as int, container.len() as int);
                if !derivable(password, salt) {
                    Err(CryptoError::KeyDerivationFailure)
                } else if body.len() == 0 {
                    Ok(body)
                } else if iv.len() != 12 {
                    Err(CryptoError::CipherInitFailure)
                } else {
                    match opened_stream(argon2_default_hash(password, salt), iv, aad, body) {
                        Some(p) => Ok(p),
                        None => Err(CryptoError::AuthenticationFailed),
                    }
                }
            },
        }
    }
}

/// A vector result and a sequence result that agree.
pub open spec fn same_result(r: Result<Vec<u8>, CryptoError>, s: Result<Seq<u8>, CryptoError>) -> bool {
    match s {
        Ok(p) => r matches Ok(v) && v@ == p,
        Err(e) => r == Err::<Vec<u8>, CryptoError>(e),
    }
}

/// Derives the key for the password, then writes the header frame followed by
/// the input's chunks, each encrypted and authenticated.
pub fn encryptor(crypto: &mut Crypto, password: &[u8], input: &[u8]) -> (r: Result<Vec<u8>, CryptoError>)
    ensures
        same_result(r, encrypt_result(old(crypto).salt@, old(crypto).iv@, old(crypto).aad@, password@, input@)),
        standard_params(old(crypto).salt@, old(crypto).iv@, old(crypto).aad@, password@) ==> r is Ok,
        r matches Ok(c) ==> c@ == container_of(old(crypto).salt@, old(crypto).iv@, old(crypto).aad@, password@, input@)
            && stream_tagged(
                argon2_default_hash(password@, old(crypto).salt@),
                old(crypto).iv@,
                old(crypto).aad@,
                input@,
            ),
        final(crypto).salt@ == old(crypto).salt@,
        final(crypto).iv@ == old(crypto).iv@,
        final(crypto).aad@ == old(crypto).aad@,
{
    match crypto.create_key(password) {
        Ok(()) => {},
        Err(e) => return Err(e),
    }
    let mut out = match crypto.create_header() {
        Ok(h) => h,
        Err(e) => return Err(e),
    };
    proof {
        if standard_params(crypto.salt@, crypto.iv@, crypto.aad@, password@) {
            assert(crypto.standard());
        }
    }
    let body = match encrypt_chunks(crypto, input) {
        Ok(b) => b,
        Err(e) => return Err(e),
    };
    proof {
        if input@.len() == 0 {
            assert(input@ =~= Seq::<u8>::empty());
        }
    }
    append_bytes(&mut out, body.as_slice());
    Ok(out)
}

/// Reads the header at the start of a container, loads its parameters, derives
/// the key for the password, then decrypts the chunks that follow the header.
/// Whatever container `encryptor` made from some input with standard parameters
/// and the same password decrypts to that input.
#[verifier::rlimit(60)]
pub fn decryptor(password: &[u8], container: &[u8]) -> (r: Result<Vec<u8>, CryptoError>)
    ensures
        same_result(r, decrypt_result(password@, container@)),
        forall|salt: Seq<u8>, iv: Seq<u8>, aad: Seq<u8>, b: Seq<u8>|
            standard_params(salt, iv, aad, password@)
                && stream_tagged(argon2_default_hash(password@, salt), iv, aad, b)
                && #[trigger] container_of(salt, iv, aad, password@, b) == container@
                ==> (r matches Ok(v) && v@ == b),
{
    let ghost w = choose|t: (Seq<u8>, Seq<u8>, Seq<u8>, Seq<u8>)|
        standard_params(t.0, t.1, t.2, password@)
            && stream_tagged(argon2_default_hash(password@, t.0), t.1, t.2, t.3)
            && #[trigger] container_of(t.0, t.1, t.2, password@, t.3) == container@;
    let ghost complete = standard_params(w.0, w.1, w.2, password@)
        && stream_tagged(argon2_default_hash(password@, w.0), w.1, w.2, w.3)
        && container_of(w.0, w.1, w.2, password@, w.3) == container@;
    proof {
        assert forall|salt: Seq<u8>, iv: Seq<u8>, aad: Seq<u8>, b: Seq<u8>|
            standard_params(salt, iv, aad, password@)
                && stream_tagged(argon2_default_hash(password@, salt), iv, aad, b)
                && #[trigger] container_of(salt, iv, aad, password@, b) == container@
            implies complete && salt.len() == 32 by {
            let t = (salt, iv, aad, b);
            assert(standard_params(t.0, t.1, t.2, password@)
                && stream_tagged(argon2_default_hash(password@, t.0), t.1, t.2, t.3)
                && container_of(t.0, t.1, t.2, password@, t.3) == container@);
        }
        if complete {
            lemma_container_parts(w.0, w.1, w.2, password@, w.3);
        }
    }
    let mut crypto = Crypto::new();
    let header = match crypto.read_header(container) {
        Ok(h) => h,
        Err(e) => return Err(e),
    };
    proof {
        lemma_frame_fields(
            container@.subrange(0, HEADER_SIZE as int),
            (header.binlock@, header.salt@, header.iv@, header.aad@),
        );
    }
    match crypto.load_header(&header) {
        Ok(()) => {},
        Err(e) => return Err(e),
    }
    proof {
        assert forall|salt: Seq<u8>, iv: Seq<u8>, aad: Seq<u8>, b: Seq<u8>|
            standard_params(salt, iv, aad, password@)
                && stream_tagged(argon2_default_hash(password@, salt), iv, aad, b)
                && #[trigger] container_of(salt, iv, aad, password@, b) == container@
            implies crypto.salt@ == salt && crypto.iv@ == iv && crypto.aad@ == aad by {
            lemma_container_parts(salt, iv, aad, password@, b);
        }
    }
    match crypto.create_key(password) {
        Ok(()) => {},
        Err(e) => return Err(e),
    }
    let body = slice_subrange(container, HEADER_SIZE, container.len());
    let r = decrypt_chunks(&crypto, body);
    proof {
        assert forall|salt: Seq<u8>, iv: Seq<u8>, aad: Seq<u8>, b: Seq<u8>|
            standard_params(salt, iv, aad, password@)
                && stream_tagged(argon2_default_hash(password@, salt), iv, aad, b)
                && #[trigger] container_of(salt, iv, aad, password@, b) == container@
            implies (r matches Ok(v) && v@ == b) by {
            lemma_container_parts(salt, iv, aad, password@, b);
            assert(sealed_stream(crypto.key->0@, crypto.iv@, crypto.aad@, b) == body@);
        }
        if body@.len() == 0 {
            assert(r->Ok_0@ =~= body@);
        }
    }
    r
}

} // verus!
