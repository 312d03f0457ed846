use crate::crypt::aead::{chacha_accepts, chacha_open, chacha_seal};
use crate::crypt::aes::{gcm_accepts, gcm_open, gcm_seal};
use crate::error::Error;
use crate::ids::{crypto_number, CryptoId};
use vstd::prelude::*;

verus! {

/// Whether `crypto` names a cipher that can seal a plaintext this long
/// (with no associated data).
pub open spec fn can_seal(crypto: CryptoId, plain_len: nat) -> bool {
    match crypto {
        CryptoId::Plain => false,
        CryptoId::ChaCha20Poly1305 => chacha_accepts(plain_len),
        CryptoId::Aes256Gcm => gcm_accepts(0, plain_len),
    }
}

/// The ciphertext and tag the cipher `crypto` produces, with no associated
/// data.
pub open spec fn sealed_by(crypto: CryptoId, key: Seq<u8>, nonce: Seq<u8>, plain: Seq<u8>) -> (
    Seq<u8>,
    Seq<u8>,
) {
    match crypto {
        CryptoId::Aes256Gcm => gcm_seal(key, nonce, Seq::empty(), plain),
        _ => chacha_seal(key, nonce, Seq::empty(), plain),
    }
}

/// What the cipher `crypto` opens, with no associated data; `None` for
/// `Plain`, which names no cipher.
pub open spec fn opened_by(crypto: CryptoId, key: Seq<u8>, nonce: Seq<u8>, ct: Seq<u8>, tag: Seq<
    u8,
>) -> Option<Seq<u8>> {
    match crypto {
        CryptoId::Plain => None,
        CryptoId::ChaCha20Poly1305 => chacha_open(key, nonce, Seq::empty(), ct, tag),
        CryptoId::Aes256Gcm => gcm_open(key, nonce, Seq::empty(), ct, tag),
    }
}

/// Seals `plain` under the cipher named by `crypto`. Sealing needs a real
/// cipher: `Plain` is not one, so callers resolve the cipher first.
pub fn seal(crypto: CryptoId, key: &[u8; 32], nonce: &[u8; 12], plain: &[u8]) -> (r: (
    Vec<u8>,
    [u8; 16],
))
    requires
        can_seal(crypto, plain@.len()),
    ensures
        (r.0@, r.1@) == sealed_by(crypto, key@, nonce@, plain@),
        r.0@.len() == plain@.len(),
        opened_by(crypto, key@, nonce@, r.0@, r.1@) == Some(plain@),
{
    let aad: Vec<u8> = Vec::new();
    match crypto {
        CryptoId::Aes256Gcm => crate::crypt::aes::seal_with_aad(key, nonce, aad.as_slice(), plain),
        _ => crate::crypt::aead::seal(key, nonce, aad.as_slice(), plain),
    }
}

/// Opens `ct` with its detached tag under the cipher named by `crypto`.
/// This is reached with an on-binary id from untrusted entry data, so an id
/// that names no cipher is an error, never a panic.
pub fn open(crypto: CryptoId, key: &[u8; 32], nonce: &[u8; 12], ct: &[u8], tag: &[u8; 16]) -> (r:
    Result<Vec<u8>, Error>)
    ensures
        crypto == CryptoId::Plain ==> r == Err::<Vec<u8>, Error>(
            Error::UnknownCrypto(crypto_number(crypto)),
        ),
        crypto != CryptoId::Plain ==> match opened_by(crypto, key@, nonce@, ct@, tag@) {
            Some(p) => r is Ok && r->Ok_0@ == p,
            None => r == Err::<Vec<u8>, Error>(Error::Auth),
        },
{
    let aad: Vec<u8> = Vec::new();
    match crypto {
        CryptoId::ChaCha20Poly1305 => crate::crypt::aead::open(key, nonce, aad.as_slice(), ct, tag),
        CryptoId::Aes256Gcm => crate::crypt::aes::open_with_aad(key, nonce, aad.as_slice(), ct, tag),
        CryptoId::Plain => Err(Error::UnknownCrypto(crypto.as_u8())),
    }
}

} // verus!
