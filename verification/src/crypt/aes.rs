use crate::error::Error;
use aes_gcm::aead::{AeadInPlace, KeyInit};
use vstd::prelude::*;

verus! {

/// The ciphertext and detached tag that `aes-gcm` produces for `plain`
/// under `key` and `nonce` with AES-256-GCM, binding `aad` into the tag.
pub uninterp spec fn gcm_seal(key: Seq<u8>, nonce: Seq<u8>, aad: Seq<u8>, plain: Seq<u8>) -> (
    Seq<u8>,
    Seq<u8>,
);

/// What `aes-gcm` decrypts from `ct` under `key`, `nonce`, `aad` and the
/// detached `tag`: the plaintext, or `None` where the tag does not
/// authenticate (or a length is past the cipher's limits).
pub uninterp spec fn gcm_open(
    key: Seq<u8>,
    nonce: Seq<u8>,
    aad: Seq<u8>,
    ct: Seq<u8>,
    tag: Seq<u8>,
) -> Option<Seq<u8>>;

/// The lengths AES-256-GCM seals under one key and nonce: at most 2^36
/// bytes of plaintext and of associated data.
pub open spec fn gcm_accepts(aad_len: nat, plain_len: nat) -> bool {
    plain_len <= 0x10_0000_0000 && aad_len <= 0x10_0000_0000
}

/// Calls `Aes256Gcm::encrypt_in_place_detached` on `buf`, its unit error
/// taken as `None`. Trusted: within the length limits the source always
/// succeeds; the buffer becomes the ciphertext (as long as the plaintext)
/// and the tag is the one named by `gcm_seal`; and opening them again with
/// the same key, nonce and associated data gives the plaintext back.
#[verifier::external_body]
fn gcm_encrypt(key: &[u8; 32], nonce: &[u8; 12], aad: &[u8], buf: &mut Vec<u8>) -> (r: Option<
    [u8; 16],
>)
    requires
        gcm_accepts(aad@.len(), old(buf)@.len()),
    ensures
        r is Some,
        (final(buf)@, r->Some_0@) == gcm_seal(key@, nonce@, aad@, old(buf)@),
        final(buf)@.len() == old(buf)@.len(),
        gcm_open(key@, nonce@, aad@, final(buf)@, r->Some_0@) == Some(old(buf)@),
{
    let cipher = aes_gcm::Aes256Gcm::new(aes_gcm::Key::<aes_gcm::Aes256Gcm>::from_slice(key));
    cipher.encrypt_in_place_detached(aes_gcm::Nonce::from_slice(nonce), aad, buf.as_mut_slice()).ok().map(|t| t.into())
}

/// Calls `Aes256Gcm::decrypt_in_place_detached` on `buf`, its unit error
/// taken as `false`. Trusted: success and the plaintext left in the buffer
/// are those named by `gcm_open`.
#[verifier::external_body]
fn gcm_decrypt(key: &[u8; 32], nonce: &[u8; 12], aad: &[u8], buf: &mut Vec<u8>, tag: &[u8; 16]) -> (r: bool)
    ensures
        r ==> gcm_open(key@, nonce@, aad@, old(buf)@, tag@) == Some(final(buf)@),
        !r ==> gcm_open(key@, nonce@, aad@, old(buf)@, tag@) is None,
{
    let cipher = aes_gcm::Aes256Gcm::new(aes_gcm::Key::<aes_gcm::Aes256Gcm>::from_slice(key));
    cipher.decrypt_in_place_detached(aes_gcm::Nonce::from_slice(nonce), aad, buf.as_mut_slice(), aes_gcm::Tag::from_slice(tag)).is_ok()
}

/// Seals `plain` under AES-256-GCM, binding `aad` into the tag.
pub fn seal_with_aad(key: &[u8; 32], nonce: &[u8; 12], aad: &[u8], plain: &[u8]) -> (r: (
    Vec<u8>,
    [u8; 16],
))
    requires
        gcm_accepts(aad@.len(), plain@.len()),
    ensures
        (r.0@, r.1@) == gcm_seal(key@, nonce@, aad@, plain@),
        r.0@.len() == plain@.len(),
        gcm_open(key@, nonce@, aad@, r.0@, r.1@) == Some(plain@),
{
    let mut buf = crate::store::bytes_to_vec(plain);
    let tag = match gcm_encrypt(key, nonce, aad, &mut buf) {
        Some(t) => t,
        None => [0u8; 16],
    };
    (buf, tag)
}

/// Opens an AES-256-GCM ciphertext with its detached tag, checking `aad`
/// too; a tag that does not authenticate is `Error::Auth`.
pub fn open_with_aad(key: &[u8; 32], nonce: &[u8; 12], aad: &[u8], ct: &[u8], tag: &[u8; 16]) -> (r: Result<Vec<u8>, Error>)
    ensures
        match gcm_open(key@, nonce@, aad@, ct@, tag@) {
            Some(p) => r is Ok && r->Ok_0@ == p,
            None => r == Err::<Vec<u8>, Error>(Error::Auth),
        },
{
    let mut buf = crate::store::bytes_to_vec(ct);
    if gcm_decrypt(key, nonce, aad, &mut buf, tag) {
        Ok(buf)
    } else {
        Err(Error::Auth)
    }
}

/// Seals `plain` under AES-256-GCM with no associated data.
pub fn seal(key: &[u8; 32], nonce: &[u8; 12], plain: &[u8]) -> (r: (Vec<u8>, [u8; 16]))
    requires
        gcm_accepts(0, plain@.len()),
    ensures
        (r.0@, r.1@) == gcm_seal(key@, nonce@, Seq::empty(), plain@),
        r.0@.len() == plain@.len(),
        gcm_open(key@, nonce@, Seq::empty(), r.0@, r.1@) == Some(plain@),
{
    let aad: Vec<u8> = Vec::new();
    seal_with_aad(key, nonce, aad.as_slice(), plain)
}

/// Opens an AES-256-GCM ciphertext sealed with no associated data.
pub fn open(key: &[u8; 32], nonce: &[u8; 12], ct: &[u8], tag: &[u8; 16]) -> (r: Result<Vec<u8>, Error>)
    ensures
        match gcm_open(key@, nonce@, Seq::empty(), ct@, tag@) {
            Some(p) => r is Ok && r->Ok_0@ == p,
            None => r == Err::<Vec<u8>, Error>(Error::Auth),
        },
{
    let aad: Vec<u8> = Vec::new();
    open_with_aad(key, nonce, aad.as_slice(), ct, tag)
}

} // verus!
