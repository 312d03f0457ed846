//! The sealing layer: the two AEAD ciphers an entry may be sealed with,
//! their dispatch by [`CryptoId`](crate::ids::CryptoId), and the key
//! material helpers.

pub mod aead;
pub mod aes;
pub mod cipher;
pub mod dispatch;
pub mod keygen;

pub use cipher::{Aead, Aes256Gcm, ChaCha20Poly1305};
