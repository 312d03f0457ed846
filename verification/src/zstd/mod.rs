//! Zstandard: frames written by `ruzstd`, read back through its streaming
//! decoder, and the pieces of a frame encoder of this crate's own (bit
//! writer, block and frame headers, Huffman and FSE table descriptions,
//! sequence codes, a greedy match finder, and a block parser that takes
//! the cheapest path under a price model refitted from its own parses).
pub mod bitstream;
pub mod block;
pub mod distribution;
pub mod frame;
pub mod huffman;
pub mod matcher;
pub mod optimal;
pub mod reprice;
pub mod sequences;
pub mod weights;

use crate::error::Error;
use ruzstd::decoding::{FrameDecoder, StreamingDecoder};
use ruzstd::io::Read;
use vstd::prelude::*;

verus! {

#[verifier::external_type_specification]
#[verifier::external_body]
pub struct ExFrameDecoder(ruzstd::decoding::FrameDecoder);

#[verifier::external_type_specification]
#[verifier::external_body]
pub struct ExFrameDecoderError(ruzstd::decoding::errors::FrameDecoderError);

#[verifier::external_type_specification]
#[verifier::external_body]
pub struct ExIoError(std::io::Error);

/// An open `ruzstd` streaming decoder over a borrowed frame.
#[verifier::external_body]
pub struct ZstdStream<'a> {
    inner: StreamingDecoder<&'a [u8], FrameDecoder>,
}

/// The Zstandard frame that `ruzstd` writes for `input` at its `Fastest`
/// level.
pub uninterp spec fn zstd_encoding(input: Seq<u8>) -> Seq<u8>;

/// What `ruzstd`'s streaming decoder makes of `input`: `None` where opening
/// it fails on the frame header, else the bytes its reads will yield and
/// whether they end in a clean end of stream (`true`) or an error.
pub uninterp spec fn zstd_frame(input: Seq<u8>) -> Option<(Seq<u8>, bool)>;

/// The bytes an open streaming decoder has still to yield.
pub uninterp spec fn stream_pending(d: ZstdStream<'_>) -> Seq<u8>;

/// Whether an open streaming decoder ends, after its pending bytes, in a
/// clean end of stream rather than an error.
pub uninterp spec fn stream_ends_clean(d: ZstdStream<'_>) -> bool;

/// Calls `ruzstd::encoding::compress_to_vec` at `CompressionLevel::Fastest`
/// (the only level `ruzstd` implements). Trusted: the result is the frame
/// named by `zstd_encoding`, it opens with the frame magic number (the
/// frame header's serializer writes it first), and decoding that frame
/// yields exactly the input and then a clean end of stream (Zstandard is
/// lossless).
#[verifier::external_body]
fn ruzstd_compress(input: &[u8]) -> (r: Vec<u8>)
    ensures
        r@ == zstd_encoding(input@),
        r@.len() >= 4 && r@.subrange(0, 4) == frame::magic_bytes(),
        zstd_frame(r@) == Some((input@, true)),
{
    ruzstd::encoding::compress_to_vec(input, ruzstd::encoding::CompressionLevel::Fastest)
}

/// Calls `ruzstd::decoding::StreamingDecoder::new`, which reads the frame
/// header. Trusted: success and what the decoder will yield are those named
/// by `zstd_frame`.
#[verifier::external_body]
fn ruzstd_open<'a>(input: &'a [u8]) -> (r: Result<ZstdStream<'a>, ruzstd::decoding::errors::FrameDecoderError>)
    ensures
        match r {
            Ok(d) => zstd_frame(input@) == Some((stream_pending(d), stream_ends_clean(d))),
            Err(_) => zstd_frame(input@) is None,
        },
{
    StreamingDecoder::new(input).map(|inner| ZstdStream { inner })
}

/// Calls `Read::read` on a streaming decoder with the whole of `buf`.
/// Trusted, for a non-empty `buf`: a read hands out a prefix of the pending
/// bytes at the front of `buf`, at most `buf`'s length and at least one
/// byte while any are pending (the source returns `0` only once the frame
/// is finished and drained); an error comes only once nothing is pending
/// and the stream does not end clean.
#[verifier::external_body]
fn ruzstd_read(d: &mut ZstdStream<'_>, buf: &mut Vec<u8>) -> (r: Result<usize, std::io::Error>)
    requires
        old(buf)@.len() > 0,
    ensures
        final(buf)@.len() == old(buf)@.len(),
        match r {
            Ok(n) => {
                &&& n <= old(buf)@.len()
                &&& n <= stream_pending(*old(d)).len()
                &&& (n == 0 ==> stream_pending(*old(d)).len() == 0 && stream_ends_clean(*old(d)))
                &&& (stream_pending(*old(d)).len() > 0 ==> n > 0)
                &&& final(buf)@.subrange(0, n as int) == stream_pending(*old(d)).subrange(0, n as int)
                &&& stream_pending(*final(d)) == stream_pending(*old(d)).subrange(n as int, stream_pending(*old(d)).len() as int)
                &&& stream_ends_clean(*final(d)) == stream_ends_clean(*old(d))
            },
            Err(_) => stream_pending(*old(d)).len() == 0 && !stream_ends_clean(*old(d)),
        },
{
    d.inner.read(buf.as_mut_slice())
}

/// Compresses `input` into one Zstandard frame.
pub fn compress(input: &[u8]) -> (r: Vec<u8>)
    ensures
        r@ == zstd_encoding(input@),
        r@.len() >= 4 && r@.subrange(0, 4) == frame::magic_bytes(),
        zstd_frame(r@) == Some((input@, true)),
{
    ruzstd_compress(input)
}

/// The size of the chunks the decoder is drained in.
pub const CHUNK: usize = 8192;

/// One drain step: takes what a read of the decoder reported (`None` for
/// an error) into `out`, which may hold at most `orig_len` bytes. A failed
/// read is `Corrupt`; a read of nothing means the frame is drained
/// (`Ok(true)`); a read that would overrun `orig_len` is `Corrupt`; else
/// room for the bytes is reserved fallibly, a refused reservation being
/// `Corrupt`, and the first `n` bytes of `chunk` are appended
/// (`Ok(false)`). `out` changes only in that last case.
pub fn drain_step(out: &mut Vec<u8>, chunk: &Vec<u8>, read: Option<usize>, orig_len: usize) -> (r: Result<
    bool,
    Error,
>)
    requires
        old(out)@.len() <= orig_len,
        read matches Some(n) ==> n <= chunk@.len(),
    ensures
        r is Err ==> r == Err::<bool, Error>(Error::Corrupt) && final(out)@ == old(out)@,
        r == Ok::<bool, Error>(true) ==> final(out)@ == old(out)@,
        match read {
            None => r is Err,
            Some(n) => if n == 0 {
                r == Ok::<bool, Error>(true)
            } else if n > orig_len - old(out)@.len() {
                r is Err
            } else {
                r is Err || (r == Ok::<bool, Error>(false) && final(out)@ == old(out)@
                    + chunk@.subrange(0, n as int))
            },
        },
{
    let n = match read {
        Some(n) => n,
        None => return Err(Error::Corrupt),
    };
    if n == 0 {
        return Ok(true);
    }
    if n > orig_len - out.len() {
        return Err(Error::Corrupt);
    }
    match out.try_reserve(n) {
        Ok(()) => {},
        Err(_) => return Err(Error::Corrupt),
    }
    let ghost before = out@;
    crate::snappy::push_range(out, chunk.as_slice(), 0, n);
    proof {
        assert(out@ == before + chunk@.subrange(0, n as int));
    }
    Ok(false)
}

/// Decompresses one Zstandard frame that must expand to exactly `orig_len`
/// bytes. Nothing is sized from `orig_len`: the output grows by what the
/// frame actually yields, a frame that would yield more than `orig_len`
/// is refused as soon as it does, and each growth is reserved fallibly
/// (a refused reservation is `Corrupt`). Every failure is `Corrupt`, and
/// an input that is not a frame yielding exactly `orig_len` bytes and a
/// clean end, an empty one included, always fails. A frame that yields
/// nothing, claimed empty, needs no reservation and always succeeds.
pub fn decompress(input: &[u8], orig_len: usize) -> (r: Result<Vec<u8>, Error>)
    ensures
        match r {
            Ok(v) => v@.len() == orig_len && zstd_frame(input@) == Some((v@, true)),
            Err(e) => e == Error::Corrupt,
        },
        orig_len == 0 && zstd_frame(input@) == Some((Seq::<u8>::empty(), true)) ==> r is Ok,
{
    let mut decoder = match ruzstd_open(input) {
        Ok(d) => d,
        Err(_) => return Err(Error::Corrupt),
    };
    let ghost all = stream_pending(decoder);
    let ghost clean = stream_ends_clean(decoder);
    let mut out: Vec<u8> = Vec::new();
    let mut chunk: Vec<u8> = vec![0u8; CHUNK];
    loop
        invariant
            zstd_frame(input@) == Some((all, clean)),
            out@.len() <= orig_len,
            out@ + stream_pending(decoder) == all,
            stream_ends_clean(decoder) == clean,
            chunk@.len() == CHUNK,
        ensures
            out@ == all,
            clean,
            out@.len() <= orig_len,
        decreases orig_len - out@.len(),
    {
        let ghost before = out@;
        let ghost pend = stream_pending(decoder);
        let read = match ruzstd_read(&mut decoder, &mut chunk) {
            Ok(n) => Some(n),
            Err(_) => None,
        };
        let step = drain_step(&mut out, &chunk, read, orig_len);
        match step {
            Ok(true) => {
                proof {
                    assert(stream_pending(decoder).len() == 0);
                    assert(out@ + stream_pending(decoder) == out@);
                }
                break;
            },
            Ok(false) => {},
            Err(e) => {
                return Err(e);
            },
        }
        proof {
            let n = read->Some_0;
            assert(out@ == before + pend.subrange(0, n as int));
            assert(pend == pend.subrange(0, n as int) + pend.subrange(n as int, pend.len() as int));
            assert(out@ + stream_pending(decoder) == before + pend);
        }
    }
    if out.len() != orig_len {
        return Err(Error::Corrupt);
    }
    Ok(out)
}

} // verus!
