use vstd::prelude::*;

verus! {

/// The bytewise exclusive or of two 32-byte arrays.
pub open spec fn xor_seq(a: Seq<u8>, b: Seq<u8>) -> Seq<u8> {
    Seq::new(32, |i: int| a[i] ^ b[i])
}

/// XORs two 32-byte keys byte by byte.
pub fn xor32(a: &[u8; 32], b: &[u8; 32]) -> (r: [u8; 32])
    ensures
        r@ == xor_seq(a@, b@),
{
    let mut out = [0u8; 32];
    let mut i: usize = 0;
    while i < 32
        invariant
            i <= 32,
            out@.len() == 32,
            forall|j: int| 0 <= j < i ==> out@[j] == a@[j] ^ b@[j],
        decreases 32 - i,
    {
        out[i] = a[i] ^ b[i];
        i = i + 1;
    }
    assert(out@ =~= xor_seq(a@, b@));
    out
}

/// Masking with the same 32 bytes twice gives the key back: `xor32` with a
/// fixed mask is its own inverse.
pub proof fn law_xor_involutive(key: Seq<u8>, mask: Seq<u8>)
    requires
        key.len() == 32,
        mask.len() == 32,
    ensures
        xor_seq(xor_seq(key, mask), mask) == key,
{
    assert forall|i: int| 0 <= i < 32 implies #[trigger] xor_seq(xor_seq(key, mask), mask)[i]
        == key[i] by {
        let k = key[i];
        let m = mask[i];
        assert((k ^ m) ^ m == k) by {
            crate::bits::lemma_xor_bits(k, m, 0);
        }
    }
    assert(xor_seq(xor_seq(key, mask), mask) =~= key);
}

/// Calls `getrandom::fill` on `out`, its error taken as `false`. Nothing is
/// promised of the bytes: they come from the operating system generator.
#[verifier::external_body]
fn os_fill(out: &mut [u8]) -> (r: bool)
    ensures
        final(out)@.len() == old(out)@.len(),
{
    getrandom::fill(out).is_ok()
}

/// Draws a fresh key and nonce for one entry from the operating system
/// generator, in two independent draws: the nonce is stored in cleartext,
/// so it must carry no information about the key. `None` where the
/// generator is unavailable; there is no weaker fallback.
pub fn gen_key_nonce() -> (r: Option<([u8; 32], [u8; 12])>) {
    let mut key = [0u8; 32];
    let mut nonce = [0u8; 12];
    if !os_fill(&mut key) {
        return None;
    }
    if !os_fill(&mut nonce) {
        return None;
    }
    Some((key, nonce))
}

} // verus!
