use embark::crypt::keygen::{gen_key_nonce, xor32};
use embark::crypt::{Aead, Aes256Gcm, ChaCha20Poly1305};
use embark::{CryptoId, Error};

fn hex(b: &[u8]) -> String {
    b.iter().map(|x| format!("{x:02x}")).collect::<String>()
}

#[test]
fn matches_the_bytes_this_crate_has_always_produced() {
    let (ct, tag) = embark::crypt::aead::seal(&[0x42u8; 32], &[0x24u8; 12], b"", b"embark encrypted payload");
    assert_eq!(hex(&ct), "816ae76f99b578cdeb08faf2946378fcdfb928c8ca4c3553", "ChaCha20-Poly1305 ciphertext moved");
    let (ct_aad, tag_aad) =
        embark::crypt::aead::seal(&[0x42u8; 32], &[0x24u8; 12], b"hdr", b"embark encrypted payload");
    assert_eq!(ct_aad, ct);
    assert_ne!(tag_aad, tag);
    assert_eq!(hex(&tag), "4ef9e4a2427db48368c59a9b67a2907d", "ChaCha20-Poly1305 tag moved");
}

#[test]
fn aead_roundtrip() {
    let key = [0x42u8; 32];
    let nonce = [0x24u8; 12];
    let plain = b"embark encrypted payload";
    let (ct, tag) = embark::crypt::aead::seal(&key, &nonce, b"", plain);
    assert_ne!(&ct[..], &plain[..]);
    let got = embark::crypt::aead::open(&key, &nonce, b"", &ct, &tag).unwrap();
    assert_eq!(got, plain);
}

#[test]
fn aead_wrong_key_is_auth_error() {
    let (ct, tag) = embark::crypt::aead::seal(&[1u8; 32], &[2u8; 12], b"", b"secret");
    assert_eq!(embark::crypt::aead::open(&[9u8; 32], &[2u8; 12], b"", &ct, &tag), Err(Error::Auth));
}

#[test]
fn aead_tampered_ciphertext_is_auth_error() {
    let (mut ct, tag) = embark::crypt::aead::seal(&[1u8; 32], &[2u8; 12], b"", b"secret");
    ct[0] ^= 0xff;
    assert_eq!(embark::crypt::aead::open(&[1u8; 32], &[2u8; 12], b"", &ct, &tag), Err(Error::Auth));
}

#[test]
fn aes_roundtrip() {
    let key = [0x42u8; 32];
    let nonce = [0x24u8; 12];
    let plain = b"embark encrypted payload";
    let (ct, tag) = embark::crypt::aes::seal(&key, &nonce, plain);
    assert_ne!(&ct[..], &plain[..]);
    let got = embark::crypt::aes::open(&key, &nonce, &ct, &tag).unwrap();
    assert_eq!(got, plain);
}

#[test]
fn aes_wrong_key_is_auth_error() {
    let (ct, tag) = embark::crypt::aes::seal(&[1u8; 32], &[2u8; 12], b"secret");
    assert_eq!(embark::crypt::aes::open(&[9u8; 32], &[2u8; 12], &ct, &tag), Err(Error::Auth));
}

#[test]
fn aes_tampered_ciphertext_is_auth_error() {
    let (mut ct, tag) = embark::crypt::aes::seal(&[1u8; 32], &[2u8; 12], b"secret");
    ct[0] ^= 0xff;
    assert_eq!(embark::crypt::aes::open(&[1u8; 32], &[2u8; 12], &ct, &tag), Err(Error::Auth));
}

#[test]
fn roundtrips_via_trait() {
    let key = [0x11u8; 32];
    let nonce = [0x22u8; 12];
    let plain = b"trait roundtrip via ChaCha20Poly1305";
    let (ct, tag) = ChaCha20Poly1305.seal(&key, &nonce, b"hdr", plain);
    assert_ne!(&ct[..], &plain[..]);
    let got = ChaCha20Poly1305.open(&key, &nonce, b"hdr", &ct, &tag).unwrap();
    assert_eq!(got, plain);
    assert_eq!(ChaCha20Poly1305.open(&key, &nonce, b"HDR", &ct, &tag), Err(Error::Auth));
}

#[test]
fn roundtrips_via_trait_aes() {
    let key = [0x11u8; 32];
    let nonce = [0x22u8; 12];
    let plain = b"trait roundtrip via Aes256Gcm";
    let (ct, tag) = Aes256Gcm.seal(&key, &nonce, b"hdr", plain);
    assert_ne!(&ct[..], &plain[..]);
    let got = Aes256Gcm.open(&key, &nonce, b"hdr", &ct, &tag).unwrap();
    assert_eq!(got, plain);
    assert_eq!(Aes256Gcm.open(&key, &nonce, b"HDR", &ct, &tag), Err(Error::Auth));
}

#[test]
fn chacha_dispatch_roundtrip() {
    let key = [7u8; 32];
    let nonce = [8u8; 12];
    let (ct, tag) = embark::crypt::dispatch::seal(CryptoId::ChaCha20Poly1305, &key, &nonce, b"dispatch");
    let got = embark::crypt::dispatch::open(CryptoId::ChaCha20Poly1305, &key, &nonce, &ct, &tag).unwrap();
    assert_eq!(got, b"dispatch");
}

#[test]
fn aes_dispatch_roundtrip() {
    let key = [7u8; 32];
    let nonce = [8u8; 12];
    let (ct, tag) = embark::crypt::dispatch::seal(CryptoId::Aes256Gcm, &key, &nonce, b"dispatch-aes");
    let got = embark::crypt::dispatch::open(CryptoId::Aes256Gcm, &key, &nonce, &ct, &tag).unwrap();
    assert_eq!(got, b"dispatch-aes");
}

#[test]
fn open_unknown_crypto_errors() {
    let key = [1u8; 32];
    let nonce = [2u8; 12];
    let (ct, tag) = embark::crypt::dispatch::seal(CryptoId::ChaCha20Poly1305, &key, &nonce, b"x");
    assert_eq!(
        embark::crypt::dispatch::open(CryptoId::Plain, &key, &nonce, &ct, &tag),
        Err(Error::UnknownCrypto(0))
    );
}

const GOLDEN_GAMMA: u64 = 0x9E37_79B9_7F4A_7C15;
const MIX_A: u64 = 0xBF58_476D_1CE4_E5B9;
const MIX_B: u64 = 0x94D0_49BB_1331_11EB;

struct SplitMix64 {
    state: u64,
}

impl SplitMix64 {
    fn fill(&mut self, out: &mut [u8]) {
        for chunk in out.chunks_mut(8) {
            self.state = self.state.wrapping_add(GOLDEN_GAMMA);
            let bytes = finalize(self.state).to_le_bytes();
            chunk.copy_from_slice(&bytes[..chunk.len()]);
        }
    }
}

fn finalize(state: u64) -> u64 {
    let mut z = state;
    z = (z ^ (z >> 30)).wrapping_mul(MIX_A);
    z = (z ^ (z >> 27)).wrapping_mul(MIX_B);
    z ^ (z >> 31)
}

fn modular_inverse(a: u64) -> u64 {
    let mut inv = a;
    for _ in 0..5 {
        inv = inv.wrapping_mul(2u64.wrapping_sub(a.wrapping_mul(inv)));
    }
    inv
}

fn undo_xor_shift_right(x: u64, shift: u32) -> u64 {
    let mut y = x;
    let mut known = shift;
    while known < 64 {
        y = x ^ (y >> shift);
        known += shift;
    }
    y
}

fn invert_finalize(output: u64) -> u64 {
    let mut z = undo_xor_shift_right(output, 31);
    z = z.wrapping_mul(modular_inverse(MIX_B));
    z = undo_xor_shift_right(z, 27);
    z = z.wrapping_mul(modular_inverse(MIX_A));
    undo_xor_shift_right(z, 30)
}

fn key_from_nonce(nonce: &[u8; 12]) -> [u8; 32] {
    let mut leading = [0u8; 8];
    leading.copy_from_slice(&nonce[..8]);
    let nonce_state = invert_finalize(u64::from_le_bytes(leading));
    let mut key = [0u8; 32];
    for (index, word) in key.chunks_mut(8).enumerate() {
        let steps_back = 4 - index as u64;
        let state = nonce_state.wrapping_sub(GOLDEN_GAMMA.wrapping_mul(steps_back));
        word.copy_from_slice(&finalize(state).to_le_bytes());
    }
    key
}

#[test]
fn finalizer_inverse_is_exact() {
    for state in [0u64, 1, u64::MAX, 0x0123_4567_89AB_CDEF, GOLDEN_GAMMA] {
        assert_eq!(invert_finalize(finalize(state)), state);
    }
    assert_eq!(MIX_A.wrapping_mul(modular_inverse(MIX_A)), 1);
    assert_eq!(MIX_B.wrapping_mul(modular_inverse(MIX_B)), 1);
}

#[test]
fn attack_recovers_the_key_from_a_shared_splitmix64_stream() {
    for seed in 0..256u64 {
        let mut prng = SplitMix64 { state: seed.wrapping_mul(GOLDEN_GAMMA) ^ 0xDEAD_BEEF_CAFE_F00D };
        let mut key = [0u8; 32];
        let mut nonce = [0u8; 12];
        prng.fill(&mut key);
        prng.fill(&mut nonce);
        assert_eq!(key_from_nonce(&nonce), key, "the attack must work against the old construction");
    }
}

#[test]
fn nonce_never_reveals_the_key() {
    for _ in 0..1000 {
        let (key, nonce) = gen_key_nonce().unwrap();
        assert_ne!(key_from_nonce(&nonce), key, "the key must not be derivable from the cleartext nonce");
    }
}

#[test]
fn key_and_nonce_are_not_trivially_related() {
    for _ in 0..1000 {
        let (key, nonce) = gen_key_nonce().unwrap();
        assert_ne!(key, [0u8; 32]);
        assert_ne!(nonce, [0u8; 12]);
        assert_ne!(&key[..12], &nonce[..]);
        assert!(!key.windows(12).any(|window| window == nonce), "the nonce must not appear anywhere inside the key");
    }
}

#[test]
fn keys_differ_between_calls() {
    let (k1, n1) = gen_key_nonce().unwrap();
    let (k2, n2) = gen_key_nonce().unwrap();
    assert_ne!(k1, k2);
    assert_ne!(n1, n2);
}

#[test]
fn xor_is_involutive() {
    let key = [0x11u8; 32];
    let mask = [0xA5u8; 32];
    let masked = xor32(&key, &mask);
    assert_ne!(masked, key);
    assert_eq!(xor32(&masked, &mask), key);
}
