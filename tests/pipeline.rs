use binlock::crypto::Crypto;
use binlock::error::CryptoError;
use binlock::header::HEADER_SIZE;
use binlock::pipeline::{decrypt_chunks, decryptor, encrypt_chunks, encryptor, DECRYPT_CHUNK_SIZE, ENCRYPT_CHUNK_SIZE};

fn round_trip(input: &[u8], password: &[u8]) -> Vec<u8> {
    let mut crypto = Crypto::new();
    let container = encryptor(&mut crypto, password, input).expect("encryption succeeds");
    let plain = decryptor(password, &container).expect("decryption succeeds");
    assert_eq!(plain, input.to_vec());
    container
}

#[test]
fn hello_world_scenario() {
    let mut crypto = Crypto::new();
    let container = encryptor(&mut crypto, b"pw1", b"hello world").unwrap();
    assert_eq!(container.len(), 512 + 27);
    assert_eq!(decryptor(b"pw1", &container), Ok(b"hello world".to_vec()));
    assert_eq!(decryptor(b"pw2", &container), Err(CryptoError::AuthenticationFailed));
}

#[test]
fn empty_input_round_trips() {
    let container = round_trip(b"", b"secret");
    assert_eq!(container.len(), HEADER_SIZE);
}

#[test]
fn one_byte_input_round_trips() {
    let container = round_trip(&[7u8], b"secret");
    assert_eq!(container.len(), HEADER_SIZE + 17);
}

#[test]
fn exactly_one_chunk_round_trips() {
    let input: Vec<u8> = (0..ENCRYPT_CHUNK_SIZE).map(|i| (i % 251) as u8).collect();
    let container = round_trip(&input, b"secret");
    assert_eq!(container.len(), HEADER_SIZE + DECRYPT_CHUNK_SIZE);
}

#[test]
fn several_chunks_round_trip() {
    let input: Vec<u8> = (0..2 * ENCRYPT_CHUNK_SIZE + 5).map(|i| (i % 253) as u8).collect();
    let container = round_trip(&input, b"secret");
    assert_eq!(container.len(), HEADER_SIZE + 2 * DECRYPT_CHUNK_SIZE + 21);
}

#[test]
fn flipped_bit_fails_authentication() {
    let input: Vec<u8> = (0..ENCRYPT_CHUNK_SIZE + 10).map(|i| (i % 7) as u8).collect();
    let mut crypto = Crypto::new();
    let container = encryptor(&mut crypto, b"pw", &input).unwrap();
    for at in [HEADER_SIZE, HEADER_SIZE + 100, HEADER_SIZE + DECRYPT_CHUNK_SIZE + 3, container.len() - 1] {
        let mut tampered = container.clone();
        tampered[at] ^= 0x01;
        assert_eq!(decryptor(b"pw", &tampered), Err(CryptoError::AuthenticationFailed));
    }
}

#[test]
fn wrong_password_fails_authentication() {
    let mut crypto = Crypto::new();
    let container = encryptor(&mut crypto, b"right", b"some data").unwrap();
    assert_eq!(decryptor(b"wrong", &container), Err(CryptoError::AuthenticationFailed));
}

#[test]
fn short_container_is_truncated() {
    assert_eq!(decryptor(b"pw", &[1u8; 100]), Err(CryptoError::TruncatedHeader));
    assert_eq!(decryptor(b"pw", &[]), Err(CryptoError::TruncatedHeader));
}

#[test]
fn garbage_header_is_malformed() {
    assert_eq!(decryptor(b"pw", &[b'x'; 600]), Err(CryptoError::MalformedHeader));
    assert_eq!(decryptor(b"pw", &[0u8; 512]), Err(CryptoError::MalformedHeader));
}

#[test]
fn header_with_bad_hex_is_rejected() {
    let record = br#"{"binlock":"0.3.0","salt":"zz","iv":"00","aad":"00"}"#;
    let mut container = record.to_vec();
    container.resize(HEADER_SIZE, 0);
    assert_eq!(decryptor(b"pw", &container), Err(CryptoError::InvalidHex));
}

#[test]
fn short_salt_fails_derivation() {
    let record = br#"{"binlock":"0.3.0","salt":"0011","iv":"000000000000000000000000","aad":"00"}"#;
    let mut container = record.to_vec();
    container.resize(HEADER_SIZE, 0);
    assert_eq!(decryptor(b"pw", &container), Err(CryptoError::KeyDerivationFailure));
}

#[test]
fn chunk_loops_need_a_key() {
    let crypto = Crypto::new();
    assert_eq!(encrypt_chunks(&crypto, b"abc"), Err(CryptoError::MissingMaterial));
    assert_eq!(decrypt_chunks(&crypto, b"abc"), Err(CryptoError::MissingMaterial));
    assert_eq!(encrypt_chunks(&crypto, b""), Ok(vec![]));
    assert_eq!(decrypt_chunks(&crypto, b""), Ok(vec![]));
}

#[test]
fn chunk_loops_invert_each_other() {
    let mut crypto = Crypto::new();
    crypto.create_key(b"pw").unwrap();
    let input: Vec<u8> = (0..ENCRYPT_CHUNK_SIZE * 3).map(|i| (i % 13) as u8).collect();
    let sealed = encrypt_chunks(&crypto, &input).unwrap();
    assert_eq!(sealed.len(), 3 * DECRYPT_CHUNK_SIZE);
    assert_ne!(&sealed[..ENCRYPT_CHUNK_SIZE], &input[..ENCRYPT_CHUNK_SIZE]);
    assert_eq!(decrypt_chunks(&crypto, &sealed), Ok(input));
}

#[test]
fn truncated_final_chunk_fails() {
    let mut crypto = Crypto::new();
    let container = encryptor(&mut crypto, b"pw", b"hello world").unwrap();
    assert_eq!(decryptor(b"pw", &container[..container.len() - 1]), Err(CryptoError::AuthenticationFailed));
}
