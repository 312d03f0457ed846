use crate::error::Error;
use vstd::prelude::*;

verus! {

/// Copies a byte slice into a new vector.
pub fn bytes_to_vec(input: &[u8]) -> (r: Vec<u8>)
    ensures
        r@ == input@,
{
    let mut out: Vec<u8> = Vec::new();
    crate::entry::extend_bytes(&mut out, input);
    out
}

/// The identity codec: the payload is the input.
pub fn compress(input: &[u8]) -> (r: Vec<u8>)
    ensures
        r@ == input@,
{
    bytes_to_vec(input)
}

/// Undoes [`compress`]: the payload must be exactly `orig_len` bytes.
pub fn decompress(input: &[u8], orig_len: usize) -> (r: Result<Vec<u8>, Error>)
    ensures
        input@.len() != orig_len ==> r == Err::<Vec<u8>, Error>(Error::Corrupt),
        input@.len() == orig_len ==> r is Ok && r->Ok_0@ == input@,
{
    if input.len() != orig_len {
        return Err(Error::Corrupt);
    }
    Ok(bytes_to_vec(input))
}

} // verus!
