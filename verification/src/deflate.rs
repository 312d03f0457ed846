use crate::error::Error;
use vstd::prelude::*;

verus! {

#[verifier::external_type_specification]
#[verifier::external_body]
pub struct ExInflateError(miniz_oxide::inflate::DecompressError);

/// The raw DEFLATE stream that `miniz_oxide` writes for `input` at the
/// given level.
pub uninterp spec fn deflate_encoding(input: Seq<u8>, level: u8) -> Seq<u8>;

/// What `miniz_oxide` inflates from `input` when the output may grow to at
/// most `limit` bytes: the decoded bytes, or `None` where it reports an
/// error (a malformed stream, or one that wants more than `limit` bytes).
pub uninterp spec fn inflate_limited(input: Seq<u8>, limit: usize) -> Option<Seq<u8>>;

/// The level used for every payload: maximum ratio.
pub const LEVEL: u8 = 9;

/// Calls `miniz_oxide::deflate::compress_to_vec`. Trusted: the result is
/// the encoder's stream for these arguments; inflating it with room for at
/// least the input's length gives the input back (DEFLATE is lossless),
/// and with less room fails, the inflater reporting that the stream has
/// more output than the limit.
#[verifier::external_body]
fn miniz_compress(input: &[u8], level: u8) -> (r: Vec<u8>)
    requires
        level <= 10,
    ensures
        r@ == deflate_encoding(input@, level),
        forall|limit: usize|
            limit >= input@.len() ==> #[trigger] inflate_limited(r@, limit) == Some(input@),
        forall|limit: usize| limit < input@.len() ==> #[trigger] inflate_limited(r@, limit) is None,
{
    miniz_oxide::deflate::compress_to_vec(input, level)
}

/// Calls `miniz_oxide::inflate::decompress_to_vec_with_limit`. Trusted: the
/// result is the one named by `inflate_limited`, and its source never grows
/// the output past `limit`.
#[verifier::external_body]
fn miniz_inflate(input: &[u8], limit: usize) -> (r: Result<Vec<u8>, miniz_oxide::inflate::DecompressError>)
    ensures
        match r {
            Ok(v) => inflate_limited(input@, limit) == Some(v@) && v@.len() <= limit,
            Err(_) => inflate_limited(input@, limit) is None,
        },
{
    miniz_oxide::inflate::decompress_to_vec_with_limit(input, limit)
}

/// Compresses `input` into a raw DEFLATE stream (no zlib header: the entry
/// header is the only framing).
pub fn compress(input: &[u8]) -> (r: Vec<u8>)
    ensures
        r@ == deflate_encoding(input@, LEVEL),
        inflate_limited(r@, input.len()) == Some(input@),
        forall|limit: usize|
            #[trigger] inflate_limited(r@, limit) == if limit >= input@.len() {
                Some(input@)
            } else {
                None
            },
{
    let r = miniz_compress(input, LEVEL);
    proof {
        let l: usize = input.len();
        assert(inflate_limited(r@, l) == Some(input@));
    }
    r
}

/// Decides a raw DEFLATE payload from what the inflater returned under a
/// limit of `orig_len`: anything but exactly `orig_len` bytes is `Corrupt`.
pub fn finish_inflate(inflated: Option<Vec<u8>>, orig_len: usize) -> (r: Result<Vec<u8>, Error>)
    ensures
        match inflated {
            Some(v) => if v@.len() == orig_len {
                r is Ok && r->Ok_0@ == v@
            } else {
                r == Err::<Vec<u8>, Error>(Error::Corrupt)
            },
            None => r == Err::<Vec<u8>, Error>(Error::Corrupt),
        },
{
    match inflated {
        Some(v) => {
            if v.len() != orig_len {
                Err(Error::Corrupt)
            } else {
                Ok(v)
            }
        },
        None => Err(Error::Corrupt),
    }
}

/// Decompresses a raw DEFLATE payload that must expand to exactly
/// `orig_len` bytes; the inflater is never allowed to grow past that. A
/// payload that is not a valid stream of that length, an empty one
/// included, is `Corrupt`.
pub fn decompress(input: &[u8], orig_len: usize) -> (r: Result<Vec<u8>, Error>)
    ensures
        match inflate_limited(input@, orig_len) {
            Some(s) => if s.len() == orig_len {
                r is Ok && r->Ok_0@ == s
            } else {
                r == Err::<Vec<u8>, Error>(Error::Corrupt)
            },
            None => r == Err::<Vec<u8>, Error>(Error::Corrupt),
        },
{
    let inflated = match miniz_inflate(input, orig_len) {
        Ok(v) => Some(v),
        Err(_) => None,
    };
    finish_inflate(inflated, orig_len)
}

} // verus!
