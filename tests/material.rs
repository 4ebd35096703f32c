use binlock::crypto::{Crypto, Role};
use binlock::error::CryptoError;
use binlock::header::{strip_zeros, Header, HEADER_SIZE};
use binlock::kdf::derive_key;
use binlock::cli::{Commands, Config};

fn known_crypto() -> Crypto {
    Crypto {
        salt: (0u8..32).collect(),
        iv: vec![0xab; 12],
        aad: vec![0xf0; 16],
        key: None,
    }
}

#[test]
fn fresh_material_has_standard_lengths() {
    let crypto = Crypto::new();
    assert_eq!(crypto.get(Role::Salt).unwrap().len(), 32);
    assert_eq!(crypto.get(Role::Iv).unwrap().len(), 12);
    assert_eq!(crypto.get(Role::Aad).unwrap().len(), 16);
    assert_eq!(crypto.get(Role::Key), Err(CryptoError::MissingMaterial));
}

#[test]
fn key_is_present_after_derivation() {
    let mut crypto = known_crypto();
    crypto.create_key(b"pw").unwrap();
    let key = crypto.get(Role::Key).unwrap().clone();
    assert_eq!(key.len(), 32);
    assert_eq!(Ok(key), derive_key(b"pw", &crypto.salt));
}

#[test]
fn derivation_is_deterministic_and_salted() {
    let salt_a = [1u8; 32];
    let salt_b = [2u8; 32];
    let first = derive_key(b"password", &salt_a).unwrap();
    let second = derive_key(b"password", &salt_a).unwrap();
    let other = derive_key(b"password", &salt_b).unwrap();
    assert_eq!(first, second);
    assert_ne!(first, other);
    assert_eq!(first.len(), 32);
}

#[test]
fn short_salt_is_rejected() {
    assert_eq!(derive_key(b"password", &[1u8; 7]), Err(CryptoError::KeyDerivationFailure));
}

#[test]
fn header_fields_are_lowercase_hex() {
    let header = known_crypto().hex_header();
    assert_eq!(header.binlock, b"0.3.0".to_vec());
    assert_eq!(header.salt, b"000102030405060708090a0b0c0d0e0f101112131415161718191a1b1c1d1e1f".to_vec());
    assert_eq!(header.iv, b"abababababababababababab".to_vec());
    assert_eq!(header.aad, b"f0f0f0f0f0f0f0f0f0f0f0f0f0f0f0f0".to_vec());
}

#[test]
fn header_frame_is_record_then_zeros() {
    let frame = known_crypto().create_header().unwrap();
    assert_eq!(frame.len(), HEADER_SIZE);
    let expected: &[u8] = br#"{"binlock":"0.3.0","salt":"000102030405060708090a0b0c0d0e0f101112131415161718191a1b1c1d1e1f","iv":"abababababababababababab","aad":"f0f0f0f0f0f0f0f0f0f0f0f0f0f0f0f0"}"#;
    assert_eq!(&frame[..expected.len()], expected);
    assert!(frame[expected.len()..].iter().all(|b| *b == 0));
}

#[test]
fn header_frame_size_is_fixed() {
    for _ in 0..3 {
        assert_eq!(Crypto::new().create_header().unwrap().len(), HEADER_SIZE);
    }
}

#[test]
fn oversized_header_is_refused() {
    let mut crypto = known_crypto();
    crypto.aad = vec![0u8; 300];
    assert_eq!(crypto.create_header(), Err(CryptoError::HeaderTooLarge));
}

#[test]
fn header_is_read_back_and_loaded() {
    let source = known_crypto();
    let mut input = source.create_header().unwrap();
    input.extend_from_slice(b"trailing ciphertext");
    let mut target = Crypto::new();
    let header = target.read_header(&input).unwrap();
    assert_eq!(header.salt, source.hex_header().salt);
    target.load_header(&header).unwrap();
    assert_eq!(target.salt, source.salt);
    assert_eq!(target.iv, source.iv);
    assert_eq!(target.aad, source.aad);
}

#[test]
fn load_accepts_uppercase_hex() {
    let header = Header { binlock: b"0.3.0".to_vec(), salt: b"ABcd".to_vec(), iv: b"00ff".to_vec(), aad: b"".to_vec() };
    let mut crypto = Crypto::new();
    crypto.load_header(&header).unwrap();
    assert_eq!(crypto.salt, vec![0xab, 0xcd]);
    assert_eq!(crypto.iv, vec![0x00, 0xff]);
    assert_eq!(crypto.aad, Vec::<u8>::new());
}

#[test]
fn load_rejects_odd_hex_and_keeps_material() {
    let header = Header { binlock: b"0.3.0".to_vec(), salt: b"abc".to_vec(), iv: b"00".to_vec(), aad: b"00".to_vec() };
    let mut crypto = known_crypto();
    assert_eq!(crypto.load_header(&header), Err(CryptoError::InvalidHex));
    assert_eq!(crypto.salt, known_crypto().salt);
}

#[test]
fn record_parse_is_exact() {
    let good = br#"{"binlock":"v","salt":"s","iv":"i","aad":"a"}"#;
    let h = Header::parse(good).unwrap();
    assert_eq!((h.binlock, h.salt, h.iv, h.aad), (b"v".to_vec(), b"s".to_vec(), b"i".to_vec(), b"a".to_vec()));
    assert!(Header::parse(br#"{"binlock":"v","salt":"s","iv":"i","aad":"a"} "#).is_none());
    assert!(Header::parse(br#"{"salt":"s","binlock":"v","iv":"i","aad":"a"}"#).is_none());
    assert!(Header::parse(b"").is_none());
}

#[test]
fn record_round_trips_through_parse() {
    let header = known_crypto().hex_header();
    let parsed = Header::parse(&header.to_record()).unwrap();
    assert_eq!(parsed.salt, header.salt);
    assert_eq!(parsed.iv, header.iv);
    assert_eq!(parsed.aad, header.aad);
    assert_eq!(parsed.binlock, header.binlock);
}

#[test]
fn zero_bytes_are_stripped() {
    assert_eq!(strip_zeros(&[0, 1, 0, 2, 3, 0, 0]), vec![1, 2, 3]);
    assert_eq!(strip_zeros(&[]), Vec::<u8>::new());
}

#[test]
fn chunk_encrypt_appends_tag() {
    let mut crypto = known_crypto();
    assert_eq!(crypto.encrypt(b"abc"), Err(CryptoError::MissingMaterial));
    crypto.create_key(b"pw").unwrap();
    let sealed = crypto.encrypt(b"abc").unwrap();
    assert_eq!(sealed.len(), 19);
    assert_eq!(crypto.decrypt(&sealed), Ok(b"abc".to_vec()));
    assert_eq!(crypto.decrypt(&sealed[..10]), Err(CryptoError::AuthenticationFailed));
    crypto.iv = vec![0u8; 11];
    assert_eq!(crypto.encrypt(b"abc"), Err(CryptoError::CipherInitFailure));
    assert_eq!(crypto.decrypt(&sealed), Err(CryptoError::CipherInitFailure));
}

#[test]
fn config_flags_are_reported() {
    let config = Config { input: None, output: None, verbose: true, debug: false };
    assert!(config.verbose());
    assert!(!config.debug());
    assert!(Commands::Decrypt(config).is_decrypt());
}
