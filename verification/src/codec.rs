use crate::dispatch::{decode_outcome, encodes, seq_result};
use crate::error::Error;
use crate::ids::CodecId;
use crate::sealed::Sealed;
use vstd::prelude::*;

verus! {

/// Associates a built-in codec type with its on-binary [`CodecId`]. Sealed:
/// the codec id is a four-bit field with every accepted value assigned, so
/// there is no id a codec from outside this crate could occupy.
pub trait Codec: Sealed {
    /// The on-binary id of this codec.
    const ID: CodecId;
}

/// The identity codec: stores bytes unchanged.
#[derive(Debug)]
pub struct Store;

impl Sealed for Store {}

impl Codec for Store {
    const ID: CodecId = CodecId::Store;
}

impl Store {
    /// Compresses `input`.
    pub fn compress(&self, input: &[u8]) -> (r: Vec<u8>)
        ensures
            encodes(CodecId::Store, input@, r@),
    {
        crate::dispatch::compress(CodecId::Store, input)
    }

    /// Decompresses `input`, which must be exactly `orig_len` bytes.
    pub fn decompress(&self, input: &[u8], orig_len: usize) -> (r: Result<Vec<u8>, Error>)
        ensures
            decode_outcome(CodecId::Store, input@, orig_len, seq_result(r)),
    {
        crate::dispatch::decompress(CodecId::Store, input, orig_len)
    }
}

/// The DEFLATE codec (through `miniz_oxide`).
#[derive(Debug)]
pub struct Deflate;

impl Sealed for Deflate {}

impl Codec for Deflate {
    const ID: CodecId = CodecId::Deflate;
}

impl Deflate {
    /// Compresses `input`.
    pub fn compress(&self, input: &[u8]) -> (r: Vec<u8>)
        ensures
            encodes(CodecId::Deflate, input@, r@),
    {
        crate::dispatch::compress(CodecId::Deflate, input)
    }

    /// Decompresses `input`, which must expand to exactly `orig_len` bytes.
    pub fn decompress(&self, input: &[u8], orig_len: usize) -> (r: Result<Vec<u8>, Error>)
        ensures
            decode_outcome(CodecId::Deflate, input@, orig_len, seq_result(r)),
    {
        crate::dispatch::decompress(CodecId::Deflate, input, orig_len)
    }
}

/// The LZ4 block codec (through `lz4_flex`).
#[derive(Debug)]
pub struct Lz4;

impl Sealed for Lz4 {}

impl Codec for Lz4 {
    const ID: CodecId = CodecId::Lz4;
}

impl Lz4 {
    /// Compresses `input`.
    pub fn compress(&self, input: &[u8]) -> (r: Vec<u8>)
        ensures
            encodes(CodecId::Lz4, input@, r@),
    {
        crate::dispatch::compress(CodecId::Lz4, input)
    }

    /// Decompresses `input`, which must expand to exactly `orig_len` bytes.
    pub fn decompress(&self, input: &[u8], orig_len: usize) -> (r: Result<Vec<u8>, Error>)
        ensures
            decode_outcome(CodecId::Lz4, input@, orig_len, seq_result(r)),
    {
        crate::dispatch::decompress(CodecId::Lz4, input, orig_len)
    }
}

/// The Snappy block codec.
#[derive(Debug)]
pub struct Snappy;

impl Sealed for Snappy {}

impl Codec for Snappy {
    const ID: CodecId = CodecId::Snappy;
}

impl Snappy {
    /// Compresses `input`.
    pub fn compress(&self, input: &[u8]) -> (r: Vec<u8>)
        ensures
            encodes(CodecId::Snappy, input@, r@),
    {
        crate::dispatch::compress(CodecId::Snappy, input)
    }

    /// Decompresses `input`, which must expand to exactly `orig_len` bytes.
    pub fn decompress(&self, input: &[u8], orig_len: usize) -> (r: Result<Vec<u8>, Error>)
        ensures
            decode_outcome(CodecId::Snappy, input@, orig_len, seq_result(r)),
    {
        crate::dispatch::decompress(CodecId::Snappy, input, orig_len)
    }
}

/// The Zstandard codec (through `ruzstd`).
#[derive(Debug)]
pub struct Zstd;

impl Sealed for Zstd {}

impl Codec for Zstd {
    const ID: CodecId = CodecId::Zstd;
}

impl Zstd {
    /// Compresses `input`.
    pub fn compress(&self, input: &[u8]) -> (r: Vec<u8>)
        ensures
            encodes(CodecId::Zstd, input@, r@),
    {
        crate::dispatch::compress(CodecId::Zstd, input)
    }

    /// Decompresses `input`, which must expand to exactly `orig_len` bytes.
    pub fn decompress(&self, input: &[u8], orig_len: usize) -> (r: Result<Vec<u8>, Error>)
        ensures
            decode_outcome(CodecId::Zstd, input@, orig_len, seq_result(r)),
    {
        crate::dispatch::decompress(CodecId::Zstd, input, orig_len)
    }
}

/// The LZMA1 codec, in the `.lzma` alone container.
#[derive(Debug)]
pub struct Lzma;

impl Sealed for Lzma {}

impl Codec for Lzma {
    const ID: CodecId = CodecId::Lzma;
}

impl Lzma {
    /// Compresses `input`.
    pub fn compress(&self, input: &[u8]) -> (r: Vec<u8>)
        ensures
            encodes(CodecId::Lzma, input@, r@),
    {
        crate::dispatch::compress(CodecId::Lzma, input)
    }

    /// Decompresses `input`, which must expand to exactly `orig_len` bytes.
    pub fn decompress(&self, input: &[u8], orig_len: usize) -> (r: Result<Vec<u8>, Error>)
        ensures
            decode_outcome(CodecId::Lzma, input@, orig_len, seq_result(r)),
    {
        crate::dispatch::decompress(CodecId::Lzma, input, orig_len)
    }
}

} // verus!
