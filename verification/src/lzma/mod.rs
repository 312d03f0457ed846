//! LZMA1 in the `.lzma` alone container: a 13-byte header (the properties
//! byte `(pb * 5 + lp) * 9 + lc`, the little-endian dictionary size and the
//! little-endian uncompressed size) followed by the range-coded stream. The
//! encoder uses `lc = 3, lp = 0, pb = 2` (properties byte `0x5D`); the
//! decoder honours whatever a valid header declares.

pub mod decoder;
pub mod encoder;
pub mod interval;
pub mod model;
pub mod rangecoder;
pub mod stream;
pub mod unique;

use crate::error::Error;
use decoder::codes_some;
use stream::lzma_body_of;
use crate::le::{push_le, read_le};
use crate::snappy::le_int;
use vstd::prelude::*;

verus! {

/// Length of the `.lzma` header.
pub const HEADER_LEN: usize = 13;

/// The header's uncompressed-size field.
pub open spec fn size_field(s: Seq<u8>) -> nat {
    le_int(s.subrange(5, 13))
}

/// The range-coded body after the header.
pub open spec fn body(s: Seq<u8>) -> Seq<u8> {
    s.subrange(HEADER_LEN as int, s.len() as int)
}

/// Compresses `input` into a complete `.lzma` alone stream: header, then
/// the range-coded body, which codes `input`.
pub fn compress(input: &[u8]) -> (r: Vec<u8>)
    ensures
        r@.len() >= HEADER_LEN,
        r@[0] == 0x5D,
        le_int(r@.subrange(1, 5)) == encoder::dict_size_of(input@.len() as usize),
        size_field(r@) == input@.len(),
        lzma_body_of(body(r@), input@),
        encoder::lzma_body_within(body(r@), input@, encoder::dict_size_of(input@.len() as usize)),
        input@.len() == 0 ==> r@ == seq![
            0x5Du8, 0x00u8, 0x10u8, 0x00u8, 0x00u8,
            0u8, 0u8, 0u8, 0u8, 0u8, 0u8, 0u8, 0u8,
            0u8, 0u8, 0u8, 0u8, 0u8,
        ],
{
    let dict = encoder::dict_size(input.len());
    let mut out: Vec<u8> = Vec::new();
    out.push(0x5D);
    let ghost o0 = out@;
    proof {
        assert(crate::snappy::pow256(4) == 0x1_0000_0000 && crate::snappy::pow256(8)
            == 0x1_0000_0000_0000_0000) by {
            reveal_with_fuel(crate::snappy::pow256, 9);
        }
    }
    push_le(&mut out, dict as u64, 4);
    let ghost o1 = out@;
    push_le(&mut out, input.len() as u64, 8);
    let ghost o2 = out@;
    let coded = encoder::encode(input, dict);
    crate::entry::extend_bytes(&mut out, coded.as_slice());
    proof {
        assert(o1.subrange(0, 1) == o0);
        assert(o0[0] == 0x5D);
        assert(o1.subrange(0, 1)[0] == o1[0]);
        assert(o1[0] == 0x5D);
        assert(o2[0] == o1[0]);
        assert(out@.subrange(0, 13) == o2);
        assert(out@[0] == o2[0]);
        assert(out@.subrange(1, 5) == o1.subrange(1, 5));
        assert(o2.subrange(0, 5) == o1);
        assert(out@.subrange(5, 13) == o2.subrange(5, 13));
        assert(body(out@) =~= coded@);
        if input@.len() == 0 {
            vstd::arithmetic::power2::lemma2_to64();
            let k = choose|k: nat| k <= 31 && dict == vstd::arithmetic::power2::pow2(k);
            if k < 12 {
                vstd::arithmetic::power2::lemma_pow2_strictly_increases(k, 12);
            } else if k > 12 {
                vstd::arithmetic::power2::lemma_pow2_strictly_increases(13, k);
            }
            assert(dict == 0x1000);
            reveal_with_fuel(crate::le::le_bytes, 9);
            assert(crate::le::le_bytes(0x1000, 4) == seq![0x00u8, 0x10u8, 0x00u8, 0x00u8]);
            assert(crate::le::le_bytes(0, 8) == seq![0u8, 0u8, 0u8, 0u8, 0u8, 0u8, 0u8, 0u8]);
            assert(out@ =~= seq![
                0x5Du8, 0x00u8, 0x10u8, 0x00u8, 0x00u8,
                0u8, 0u8, 0u8, 0u8, 0u8, 0u8, 0u8, 0u8,
                0u8, 0u8, 0u8, 0u8, 0u8,
            ]);
        }
    }
    out
}

/// Decompresses a `.lzma` alone stream, which must expand to exactly
/// `orig_len` bytes. A header shorter than 13 bytes is `Truncated`; a
/// properties byte of 225 or more, or a recorded size that is neither
/// "unknown" (all ones) nor `orig_len`, is `Corrupt`. A stream with the
/// encoder's properties whose body codes `orig_len` bytes decodes to
/// exactly those bytes.
pub fn decompress(input: &[u8], orig_len: usize) -> (r: Result<Vec<u8>, Error>)
    ensures
        input@.len() < HEADER_LEN ==> r == Err::<Vec<u8>, Error>(Error::Truncated),
        input@.len() >= HEADER_LEN && input@[0] >= 225 ==> r == Err::<Vec<u8>, Error>(
            Error::Corrupt,
        ),
        input@.len() >= HEADER_LEN && input@[0] < 225 && size_field(input@)
            != 0xFFFF_FFFF_FFFF_FFFF && size_field(input@) != orig_len ==> r == Err::<
            Vec<u8>,
            Error,
        >(Error::Corrupt),
        r matches Ok(v) ==> v@.len() == orig_len,
        input@.len() >= HEADER_LEN && input@[0] == 0x5D && (size_field(input@) == 0xFFFF_FFFF_FFFF_FFFF
            || size_field(input@) == orig_len) && codes_some(body(input@), orig_len as nat) ==> (r matches Ok(
            v) && lzma_body_of(body(input@), v@)),
        input@.len() >= HEADER_LEN && input@[0] == 0x5D && (size_field(input@) == 0xFFFF_FFFF_FFFF_FFFF
            || size_field(input@) == orig_len) ==> forall|y: Seq<u8>|
            #[trigger] lzma_body_of(body(input@), y) && y.len() == orig_len ==> (r matches Ok(v) && v@
                == y),
{
    if input.len() < HEADER_LEN {
        return Err(Error::Truncated);
    }
    let props = input[0];
    if props >= 9 * 5 * 5 {
        return Err(Error::Corrupt);
    }
    let lc = (props % 9) as u32;
    let rem = props / 9;
    let lp = (rem % 5) as u32;
    let pb = (rem / 5) as u32;
    // The dictionary size (bytes 1..5) is not needed: the window is the
    // output itself, and a copy from before its start is refused.
    let size = read_le(input, 5, 8);
    if size != u64::MAX && size != orig_len as u64 {
        return Err(Error::Corrupt);
    }
    let stream = crate::entry::slice_from(input, HEADER_LEN);
    decoder::decode(lc, lp, pb, stream, orig_len)
}

} // verus!
