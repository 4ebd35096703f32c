//! Password-protected, authenticated file containers: key derivation,
//! a fixed-size self-describing header, and a chunked AES-256-GCM pipeline.

pub mod error;
pub mod hexcode;
pub mod kdf;
pub mod aead;
pub mod header;
pub mod crypto;
pub mod pipeline;
pub mod cli;
