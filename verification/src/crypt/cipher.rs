use crate::crypt::aead::{chacha_accepts, chacha_open, chacha_seal};
use crate::crypt::aes::{gcm_accepts, gcm_open, gcm_seal};
use crate::error::Error;
use crate::sealed::Sealed;
use vstd::prelude::*;

verus! {

/// An AEAD cipher an entry can be sealed with. The associated data is the
/// entry header, so that neither codec, cipher nor length can be rewritten
/// under a tag that still verifies. Sealed: the set of cipher ids an entry
/// header can name is closed, so a cipher from outside this crate would
/// have no id to be written or opened under.
pub trait Aead: Sealed {
    /// Whether the cipher seals a message with this much associated data
    /// and plaintext under one key and nonce.
    spec fn accepts(&self, aad_len: nat, plain_len: nat) -> bool;

    /// The ciphertext and detached tag this cipher produces.
    spec fn sealed(&self, key: Seq<u8>, nonce: Seq<u8>, aad: Seq<u8>, plain: Seq<u8>) -> (
        Seq<u8>,
        Seq<u8>,
    );

    /// What this cipher decrypts, or `None` where the tag does not
    /// authenticate.
    spec fn opened(&self, key: Seq<u8>, nonce: Seq<u8>, aad: Seq<u8>, ct: Seq<u8>, tag: Seq<u8>) -> Option<Seq<u8>>;

    /// Encrypts `plain`, binding `aad` into the tag, and returns the
    /// ciphertext and the detached tag.
    fn seal(&self, key: &[u8; 32], nonce: &[u8; 12], aad: &[u8], plain: &[u8]) -> (r: (
        Vec<u8>,
        [u8; 16],
    ))
        requires
            self.accepts(aad@.len(), plain@.len()),
        ensures
            (r.0@, r.1@) == self.sealed(key@, nonce@, aad@, plain@),
            r.0@.len() == plain@.len(),
            self.opened(key@, nonce@, aad@, r.0@, r.1@) == Some(plain@),
    ;

    /// Decrypts `ct`, checking it and `aad` against the detached `tag`; one
    /// that does not authenticate is `Error::Auth`.
    fn open(&self, key: &[u8; 32], nonce: &[u8; 12], aad: &[u8], ct: &[u8], tag: &[u8; 16]) -> (r:
        Result<Vec<u8>, Error>)
        ensures
            match self.opened(key@, nonce@, aad@, ct@, tag@) {
                Some(p) => r is Ok && r->Ok_0@ == p,
                None => r == Err::<Vec<u8>, Error>(Error::Auth),
            },
    ;
}

/// The ChaCha20-Poly1305 cipher.
#[derive(Debug)]
pub struct ChaCha20Poly1305;

impl Sealed for ChaCha20Poly1305 {}

impl Aead for ChaCha20Poly1305 {
    open spec fn accepts(&self, aad_len: nat, plain_len: nat) -> bool {
        chacha_accepts(plain_len)
    }

    open spec fn sealed(&self, key: Seq<u8>, nonce: Seq<u8>, aad: Seq<u8>, plain: Seq<u8>) -> (
        Seq<u8>,
        Seq<u8>,
    ) {
        chacha_seal(key, nonce, aad, plain)
    }

    open spec fn opened(&self, key: Seq<u8>, nonce: Seq<u8>, aad: Seq<u8>, ct: Seq<u8>, tag: Seq<u8>) -> Option<Seq<u8>> {
        chacha_open(key, nonce, aad, ct, tag)
    }

    fn seal(&self, key: &[u8; 32], nonce: &[u8; 12], aad: &[u8], plain: &[u8]) -> (r: (
        Vec<u8>,
        [u8; 16],
    )) {
        crate::crypt::aead::seal(key, nonce, aad, plain)
    }

    fn open(&self, key: &[u8; 32], nonce: &[u8; 12], aad: &[u8], ct: &[u8], tag: &[u8; 16]) -> (r:
        Result<Vec<u8>, Error>) {
        crate::crypt::aead::open(key, nonce, aad, ct, tag)
    }
}

/// The AES-256-GCM cipher; same key, nonce and tag shape as
/// [`ChaCha20Poly1305`].
#[derive(Debug)]
pub struct Aes256Gcm;

impl Sealed for Aes256Gcm {}

impl Aead for Aes256Gcm {
    open spec fn accepts(&self, aad_len: nat, plain_len: nat) -> bool {
        gcm_accepts(aad_len, plain_len)
    }

    open spec fn sealed(&self, key: Seq<u8>, nonce: Seq<u8>, aad: Seq<u8>, plain: Seq<u8>) -> (
        Seq<u8>,
        Seq<u8>,
    ) {
        gcm_seal(key, nonce, aad, plain)
    }

    open spec fn opened(&self, key: Seq<u8>, nonce: Seq<u8>, aad: Seq<u8>, ct: Seq<u8>, tag: Seq<u8>) -> Option<Seq<u8>> {
        gcm_open(key, nonce, aad, ct, tag)
    }

    fn seal(&self, key: &[u8; 32], nonce: &[u8; 12], aad: &[u8], plain: &[u8]) -> (r: (
        Vec<u8>,
        [u8; 16],
    )) {
        crate::crypt::aes::seal_with_aad(key, nonce, aad, plain)
    }

    fn open(&self, key: &[u8; 32], nonce: &[u8; 12], aad: &[u8], ct: &[u8], tag: &[u8; 16]) -> (r:
        Result<Vec<u8>, Error>) {
        crate::crypt::aes::open_with_aad(key, nonce, aad, ct, tag)
    }
}

} // verus!
