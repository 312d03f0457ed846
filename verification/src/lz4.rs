use crate::error::Error;
use vstd::prelude::*;

verus! {

#[verifier::external_type_specification]
#[verifier::external_body]
pub struct ExLz4DecompressError(lz4_flex::block::DecompressError);

/// The LZ4 block that `lz4_flex` writes for `input`.
pub uninterp spec fn lz4_encoding(input: Seq<u8>) -> Seq<u8>;

/// What `lz4_flex` decodes from the block `input` into a sink `cap` bytes
/// wide: the bytes written from the start of the sink, or `None` where it
/// reports an error (a malformed block, or one that needs a wider sink).
pub uninterp spec fn lz4_block_decode(input: Seq<u8>, cap: usize) -> Option<Seq<u8>>;

/// Calls `lz4_flex::block::compress`. Trusted: the result is the encoder's
/// block for `input`; decoding it into a sink at least as wide as the
/// input writes the input back (LZ4 is lossless), and decoding it into a
/// narrower sink fails, the decoder refusing to write past the sink's end.
#[verifier::external_body]
fn lz4_compress_block(input: &[u8]) -> (r: Vec<u8>)
    ensures
        r@ == lz4_encoding(input@),
        forall|cap: usize| cap >= input@.len() ==> #[trigger] lz4_block_decode(r@, cap) == Some(input@),
        forall|cap: usize| cap < input@.len() ==> #[trigger] lz4_block_decode(r@, cap) is None,
{
    lz4_flex::block::compress(input)
}

/// Calls `lz4_flex::block::decompress_into` on the whole of `out`. Trusted:
/// the sink keeps its width, the count is the one named by
/// `lz4_block_decode`, and the bytes it names are those at the front of
/// the sink. The decoder only reads back bytes it has itself written, so
/// what the sink held before does not enter.
#[verifier::external_body]
fn lz4_decompress_into(input: &[u8], out: &mut Vec<u8>) -> (r: Result<usize, lz4_flex::block::DecompressError>)
    ensures
        final(out)@.len() == old(out)@.len(),
        match r {
            Ok(n) => n <= old(out)@.len() && lz4_block_decode(input@, old(out)@.len() as usize)
                == Some(final(out)@.subrange(0, n as int)),
            Err(_) => lz4_block_decode(input@, old(out)@.len() as usize) is None,
        },
{
    lz4_flex::block::decompress_into(input, out.as_mut_slice())
}

/// The most an LZ4 block of `n` bytes can expand to, by the format's own
/// arithmetic: a match costs a token and a two-byte offset for its first 19
/// bytes and one more byte per further 255, so nothing decodes to more than
/// 255 bytes per input byte (plus slack), saturating at `usize::MAX`.
pub open spec fn lz4_ceiling(n: nat) -> nat {
    if n * 255 + 64 > usize::MAX {
        usize::MAX as nat
    } else {
        n * 255 + 64
    }
}

/// Computes [`lz4_ceiling`] with saturating arithmetic.
pub fn expansion_ceiling(n: usize) -> (r: usize)
    ensures
        r == lz4_ceiling(n as nat),
{
    if n > (usize::MAX - 64) / 255 {
        usize::MAX
    } else {
        n * 255 + 64
    }
}

/// Compresses `input` into an LZ4 block.
pub fn compress(input: &[u8]) -> (r: Vec<u8>)
    ensures
        r@ == lz4_encoding(input@),
        lz4_block_decode(r@, input.len()) == Some(input@),
        forall|cap: usize|
            #[trigger] lz4_block_decode(r@, cap) == if cap >= input@.len() {
                Some(input@)
            } else {
                None
            },
{
    let r = lz4_compress_block(input);
    proof {
        let l: usize = input.len();
        assert(lz4_block_decode(r@, l) == Some(input@));
    }
    r
}

/// Decides an LZ4 payload from whether its sink could be reserved, the
/// sink it was decoded into and the count the decoder reported (`None`
/// where it failed or never ran): a reserved sink exactly `orig_len` wide
/// that the decoder filled is the result; anything else is `Corrupt`.
pub fn finish_decode(reserved: bool, sink: Vec<u8>, written: Option<usize>, orig_len: usize) -> (r: Result<
    Vec<u8>,
    Error,
>)
    ensures
        !reserved ==> r == Err::<Vec<u8>, Error>(Error::Corrupt),
        reserved ==> match written {
            Some(n) => if n == orig_len && sink@.len() == orig_len {
                r is Ok && r->Ok_0@ == sink@
            } else {
                r == Err::<Vec<u8>, Error>(Error::Corrupt)
            },
            None => r == Err::<Vec<u8>, Error>(Error::Corrupt),
        },
{
    if !reserved {
        return Err(Error::Corrupt);
    }
    match written {
        Some(n) => {
            if n == orig_len && sink.len() == orig_len {
                Ok(sink)
            } else {
                Err(Error::Corrupt)
            }
        },
        None => Err(Error::Corrupt),
    }
}

/// Decompresses an LZ4 block that must expand to exactly `orig_len` bytes.
/// A claim past what `input` could possibly expand to is `Corrupt` before
/// anything is allocated; the output buffer is reserved fallibly, and a
/// reservation the allocator refuses is `Corrupt` too. Otherwise the block
/// is decoded into a sink exactly `orig_len` wide, and must fill it.
pub fn decompress(input: &[u8], orig_len: usize) -> (r: Result<Vec<u8>, Error>)
    ensures
        orig_len > lz4_ceiling(input@.len()) ==> r == Err::<Vec<u8>, Error>(Error::Corrupt),
        match r {
            Ok(v) => v@.len() == orig_len && lz4_block_decode(input@, orig_len) == Some(v@),
            Err(e) => e == Error::Corrupt,
        },
{
    let ceiling = expansion_ceiling(input.len());
    if orig_len > ceiling {
        return Err(Error::Corrupt);
    }
    let mut out: Vec<u8> = Vec::new();
    let reserved = match out.try_reserve(orig_len) {
        Ok(()) => true,
        Err(_) => false,
    };
    let mut written: Option<usize> = None;
    if reserved {
        out.resize(orig_len, 0u8);
        written = match lz4_decompress_into(input, &mut out) {
            Ok(n) => Some(n),
            Err(_) => None,
        };
        proof {
            if written == Some(orig_len) {
                assert(out@.subrange(0, orig_len as int) == out@);
            }
        }
    }
    finish_decode(reserved, out, written, orig_len)
}

} // verus!
