use crate::deflate::{deflate_encoding, inflate_limited};
use crate::error::Error;
use crate::ids::CodecId;
use crate::lz4::{lz4_block_decode, lz4_ceiling, lz4_encoding};
use crate::lzma::decoder::codes_some;
use crate::lzma::stream::lzma_body_of;
use crate::lzma::{body, size_field, HEADER_LEN};
use crate::snappy::{le_int, snappy_decode};
use crate::zstd::{zstd_encoding, zstd_frame};
use vstd::prelude::*;

verus! {

/// A decoder's result, with the bytes taken by their view.
pub open spec fn seq_result(r: Result<Vec<u8>, Error>) -> Result<Seq<u8>, Error> {
    match r {
        Ok(v) => Ok(v@),
        Err(e) => Err(e),
    }
}

/// `out` is what the codec `id` writes for `input`.
pub open spec fn encodes(id: CodecId, input: Seq<u8>, out: Seq<u8>) -> bool {
    match id {
        CodecId::Store => out == input,
        CodecId::Deflate => {
            &&& out == deflate_encoding(input, crate::deflate::LEVEL)
            &&& inflate_limited(out, input.len() as usize) == Some(input)
            &&& forall|limit: usize|
                #[trigger] inflate_limited(out, limit) == if limit >= input.len() {
                    Some(input)
                } else {
                    None
                }
        },
        CodecId::Lz4 => {
            &&& out == lz4_encoding(input)
            &&& lz4_block_decode(out, input.len() as usize) == Some(input)
            &&& forall|cap: usize|
                #[trigger] lz4_block_decode(out, cap) == if cap >= input.len() {
                    Some(input)
                } else {
                    None
                }
        },
        CodecId::Snappy => {
            &&& out.len() >= 1
            &&& input.len() <= u32::MAX ==> snappy_decode(out, input.len()) == Ok::<
                Seq<u8>,
                Error,
            >(input)
        },
        CodecId::Zstd => {
            &&& out == zstd_encoding(input)
            &&& zstd_frame(out) == Some((input, true))
        },
        CodecId::Lzma => {
            &&& out.len() >= HEADER_LEN
            &&& out[0] == 0x5D
            &&& le_int(out.subrange(1, 5)) == crate::lzma::encoder::dict_size_of(
                input.len() as usize,
            )
            &&& size_field(out) == input.len()
            &&& lzma_body_of(body(out), input)
        },
    }
}

/// What decoding `input` with the codec `id`, claiming `orig_len` bytes,
/// may give.
pub open spec fn decode_outcome(
    id: CodecId,
    input: Seq<u8>,
    orig_len: usize,
    r: Result<Seq<u8>, Error>,
) -> bool {
    match id {
        CodecId::Store => if input.len() == orig_len {
            r == Ok::<Seq<u8>, Error>(input)
        } else {
            r == Err::<Seq<u8>, Error>(Error::Corrupt)
        },
        CodecId::Deflate => match inflate_limited(input, orig_len) {
            Some(s) => if s.len() == orig_len {
                r == Ok::<Seq<u8>, Error>(s)
            } else {
                r == Err::<Seq<u8>, Error>(Error::Corrupt)
            },
            None => r == Err::<Seq<u8>, Error>(Error::Corrupt),
        },
        CodecId::Lz4 => {
            &&& orig_len > lz4_ceiling(input.len()) ==> r == Err::<Seq<u8>, Error>(
                Error::Corrupt,
            )
            &&& match r {
                Ok(v) => v.len() == orig_len && lz4_block_decode(input, orig_len) == Some(v),
                Err(e) => e == Error::Corrupt,
            }
        },
        CodecId::Snappy => r == snappy_decode(input, orig_len as nat),
        CodecId::Zstd => match r {
            Ok(v) => v.len() == orig_len && zstd_frame(input) == Some((v, true)),
            Err(e) => e == Error::Corrupt,
        },
        CodecId::Lzma => {
            &&& input.len() < HEADER_LEN ==> r == Err::<Seq<u8>, Error>(Error::Truncated)
            &&& input.len() >= HEADER_LEN && input[0] >= 225 ==> r == Err::<Seq<u8>, Error>(
                Error::Corrupt,
            )
            &&& input.len() >= HEADER_LEN && input[0] < 225 && size_field(input)
                != 0xFFFF_FFFF_FFFF_FFFF && size_field(input) != orig_len ==> r == Err::<
                Seq<u8>,
                Error,
            >(Error::Corrupt)
            &&& r matches Ok(v) ==> v.len() == orig_len
            &&& input.len() >= HEADER_LEN && input[0] == 0x5D && (size_field(input)
                == 0xFFFF_FFFF_FFFF_FFFF || size_field(input) == orig_len) && codes_some(
                body(input),
                orig_len as nat,
            ) ==> (r matches Ok(v) && lzma_body_of(body(input), v))
        },
    }
}

/// Compresses `input` with the codec `id`. Every codec is compiled in, so
/// encoding never fails.
pub fn compress(id: CodecId, input: &[u8]) -> (r: Vec<u8>)
    ensures
        encodes(id, input@, r@),
{
    match id {
        CodecId::Store => crate::store::compress(input),
        CodecId::Deflate => crate::deflate::compress(input),
        CodecId::Lz4 => crate::lz4::compress(input),
        CodecId::Snappy => crate::snappy::compress(input),
        CodecId::Zstd => crate::zstd::compress(input),
        CodecId::Lzma => crate::lzma::compress(input),
    }
}

/// Decompresses `input` with the codec `id`; it must expand to exactly
/// `orig_len` bytes.
pub fn decompress(id: CodecId, input: &[u8], orig_len: usize) -> (r: Result<Vec<u8>, Error>)
    ensures
        decode_outcome(id, input@, orig_len, seq_result(r)),
{
    match id {
        CodecId::Store => crate::store::decompress(input, orig_len),
        CodecId::Deflate => crate::deflate::decompress(input, orig_len),
        CodecId::Lz4 => crate::lz4::decompress(input, orig_len),
        CodecId::Snappy => crate::snappy::decompress(input, orig_len),
        CodecId::Zstd => crate::zstd::decompress(input, orig_len),
        CodecId::Lzma => crate::lzma::decompress(input, orig_len),
    }
}

/// What a codec writes, its decoder takes back. For Store, DEFLATE, Snappy
/// (whose length preamble holds up to `u32::MAX` bytes) and LZMA the
/// decoder returns the input; for LZ4 and Zstandard, whose decoders
/// reserve their output fallibly, a decode that succeeds returns the
/// input, and any failure is `Corrupt`.
pub proof fn law_codec_roundtrip(id: CodecId, input: Seq<u8>, out: Seq<u8>, r: Result<Seq<u8>, Error>)
    requires
        input.len() <= usize::MAX,
        id == CodecId::Snappy ==> input.len() <= u32::MAX,
        encodes(id, input, out),
        decode_outcome(id, out, input.len() as usize, r),
    ensures
        r matches Ok(v) ==> v == input,
        id == CodecId::Store || id == CodecId::Deflate || id == CodecId::Snappy || id
            == CodecId::Lzma ==> r == Ok::<Seq<u8>, Error>(input),
        r matches Err(e) ==> e == Error::Corrupt,
{
    if input.len() == 0 {
        assert(input =~= Seq::<u8>::empty());
    }
    if id == CodecId::Lzma {
        assert(codes_some(body(out), input.len()));
        let v = r->Ok_0;
        crate::lzma::unique::lemma_lzma_unique(body(out), v, input);
    }
}

/// A payload read back under a length other than the one it was written
/// for is refused: no codec returns a short or padded output for it.
/// (Snappy's preamble names up to `u32::MAX` bytes; an LZMA header's size
/// field of all ones means "unknown", so that one length is left out.)
pub proof fn law_wrong_claim_fails(id: CodecId, input: Seq<u8>, out: Seq<u8>, orig_len: usize, r: Result<
    Seq<u8>,
    Error,
>)
    requires
        input.len() <= usize::MAX,
        id == CodecId::Snappy ==> input.len() <= u32::MAX,
        id == CodecId::Lzma ==> input.len() < 0xFFFF_FFFF_FFFF_FFFF,
        encodes(id, input, out),
        orig_len != input.len(),
        decode_outcome(id, out, orig_len, r),
    ensures
        r is Err,
{
    if id == CodecId::Deflate {
        assert(inflate_limited(out, orig_len) == if orig_len >= input.len() {
            Some(input)
        } else {
            None
        });
    }
    if id == CodecId::Lz4 {
        assert(lz4_block_decode(out, orig_len) == if orig_len >= input.len() {
            Some(input)
        } else {
            None
        });
    }
}

} // verus!
