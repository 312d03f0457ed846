use crate::error::Error;
use chacha20poly1305::aead::{AeadInPlace, KeyInit};
use vstd::prelude::*;

verus! {

/// The ciphertext and detached tag that `chacha20poly1305` produces for
/// `plain` under `key` and `nonce`, binding `aad` into the tag.
pub uninterp spec fn chacha_seal(key: Seq<u8>, nonce: Seq<u8>, aad: Seq<u8>, plain: Seq<u8>) -> (
    Seq<u8>,
    Seq<u8>,
);

/// What `chacha20poly1305` decrypts from `ct` under `key`, `nonce`, `aad`
/// and the detached `tag`: the plaintext, or `None` where the tag does not
/// authenticate.
pub uninterp spec fn chacha_open(
    key: Seq<u8>,
    nonce: Seq<u8>,
    aad: Seq<u8>,
    ct: Seq<u8>,
    tag: Seq<u8>,
) -> Option<Seq<u8>>;

/// The longest plaintext ChaCha20-Poly1305 seals under one key and nonce:
/// fewer than `u32::MAX` blocks of 64 bytes.
pub open spec fn chacha_accepts(plain_len: nat) -> bool {
    plain_len / 64 < u32::MAX
}

/// Calls `ChaCha20Poly1305::encrypt_in_place_detached` on `buf`, its
/// unit error taken as `None`. Trusted:
/// below the block limit the source always succeeds; the buffer becomes
/// the ciphertext (as long as the plaintext) and the tag is the one named
/// by `chacha_seal`; and opening them again with the same key, nonce and
/// associated data gives the plaintext back.
#[verifier::external_body]
fn chacha_encrypt(key: &[u8; 32], nonce: &[u8; 12], aad: &[u8], buf: &mut Vec<u8>) -> (r: Option<
    [u8; 16],
>)
    requires
        chacha_accepts(old(buf)@.len()),
    ensures
        r is Some,
        (final(buf)@, r->Some_0@) == chacha_seal(key@, nonce@, aad@, old(buf)@),
        final(buf)@.len() == old(buf)@.len(),
        chacha_open(key@, nonce@, aad@, final(buf)@, r->Some_0@) == Some(old(buf)@),
{
    let cipher = chacha20poly1305::ChaCha20Poly1305::new(&chacha20poly1305::Key::from(*key));
    cipher.encrypt_in_place_detached(&chacha20poly1305::Nonce::from(*nonce), aad, buf.as_mut_slice()).ok().map(|t| t.into())
}

/// Calls `ChaCha20Poly1305::decrypt_in_place_detached` on `buf`, its
/// unit error taken as `false`. Trusted:
/// success and the plaintext left in the buffer are those named by
/// `chacha_open`.
#[verifier::external_body]
fn chacha_decrypt(key: &[u8; 32], nonce: &[u8; 12], aad: &[u8], buf: &mut Vec<u8>, tag: &[u8; 16]) -> (r: bool)
    ensures
        r ==> chacha_open(key@, nonce@, aad@, old(buf)@, tag@) == Some(final(buf)@),
        !r ==> chacha_open(key@, nonce@, aad@, old(buf)@, tag@) is None,
{
    let cipher = chacha20poly1305::ChaCha20Poly1305::new(&chacha20poly1305::Key::from(*key));
    cipher.decrypt_in_place_detached(&chacha20poly1305::Nonce::from(*nonce), aad, buf.as_mut_slice(), &chacha20poly1305::Tag::from(*tag)).is_ok()
}

/// Seals `plain` under ChaCha20-Poly1305, binding `aad` into the tag, and
/// returns the ciphertext and the detached tag. Opening them with the same
/// key, nonce and associated data gives `plain` back.
pub fn seal(key: &[u8; 32], nonce: &[u8; 12], aad: &[u8], plain: &[u8]) -> (r: (Vec<u8>, [u8; 16]))
    requires
        chacha_accepts(plain@.len()),
    ensures
        (r.0@, r.1@) == chacha_seal(key@, nonce@, aad@, plain@),
        r.0@.len() == plain@.len(),
        chacha_open(key@, nonce@, aad@, r.0@, r.1@) == Some(plain@),
{
    let mut buf = crate::store::bytes_to_vec(plain);
    let tag = match chacha_encrypt(key, nonce, aad, &mut buf) {
        Some(t) => t,
        None => [0u8; 16],
    };
    (buf, tag)
}

/// Opens a ChaCha20-Poly1305 ciphertext with its detached tag; a tag that
/// does not authenticate `ct` and `aad` under this key and nonce is
/// `Error::Auth`.
pub fn open(key: &[u8; 32], nonce: &[u8; 12], aad: &[u8], ct: &[u8], tag: &[u8; 16]) -> (r: Result<Vec<u8>, Error>)
    ensures
        match chacha_open(key@, nonce@, aad@, ct@, tag@) {
            Some(p) => r is Ok && r->Ok_0@ == p,
            None => r == Err::<Vec<u8>, Error>(Error::Auth),
        },
{
    let mut buf = crate::store::bytes_to_vec(ct);
    if chacha_decrypt(key, nonce, aad, &mut buf, tag) {
        Ok(buf)
    } else {
        Err(Error::Auth)
    }
}

} // verus!
