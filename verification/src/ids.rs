use crate::error::Error;
use vstd::prelude::*;

verus! {

/// Names the compression applied to an entry's payload. Stored in the low
/// nibble of an entry's first byte.
#[derive(Debug, Clone, Copy, PartialEq, Eq, Structural)]
pub enum CodecId {
    /// No compression: the payload is the original bytes verbatim.
    Store,
    /// Raw DEFLATE (RFC 1951).
    Deflate,
    /// LZ4 block format.
    Lz4,
    /// Snappy block format, with its length preamble.
    Snappy,
    /// Zstandard, one complete frame.
    Zstd,
    /// LZMA1 in the `.lzma` alone container.
    Lzma,
}

/// The on-binary number of each codec.
pub open spec fn codec_number(id: CodecId) -> u8 {
    match id {
        CodecId::Store => 0,
        CodecId::Deflate => 1,
        CodecId::Lz4 => 2,
        CodecId::Snappy => 3,
        CodecId::Zstd => 4,
        CodecId::Lzma => 5,
    }
}

/// The codec an on-binary number names, if any.
pub open spec fn codec_of_number(v: u8) -> Option<CodecId> {
    if v == 0 {
        Some(CodecId::Store)
    } else if v == 1 {
        Some(CodecId::Deflate)
    } else if v == 2 {
        Some(CodecId::Lz4)
    } else if v == 3 {
        Some(CodecId::Snappy)
    } else if v == 4 {
        Some(CodecId::Zstd)
    } else if v == 5 {
        Some(CodecId::Lzma)
    } else {
        None
    }
}

impl CodecId {
    /// The byte written to the low nibble of an entry's tag byte.
    pub fn as_u8(self) -> (r: u8)
        ensures
            r == codec_number(self),
            r < 16,
    {
        match self {
            CodecId::Store => 0,
            CodecId::Deflate => 1,
            CodecId::Lz4 => 2,
            CodecId::Snappy => 3,
            CodecId::Zstd => 4,
            CodecId::Lzma => 5,
        }
    }

    /// Reads a codec id back out of an entry's tag byte; an unassigned
    /// number is `Error::UnknownCodec`.
    pub fn from_u8(v: u8) -> (r: Result<CodecId, Error>)
        ensures
            match codec_of_number(v) {
                Some(id) => r == Ok::<CodecId, Error>(id),
                None => r == Err::<CodecId, Error>(Error::UnknownCodec(v)),
            },
    {
        match v {
            0 => Ok(CodecId::Store),
            1 => Ok(CodecId::Deflate),
            2 => Ok(CodecId::Lz4),
            3 => Ok(CodecId::Snappy),
            4 => Ok(CodecId::Zstd),
            5 => Ok(CodecId::Lzma),
            other => Err(Error::UnknownCodec(other)),
        }
    }
}

/// Names the AEAD cipher an entry's payload was sealed with, if any.
/// Stored in the high nibble of an entry's first byte.
#[derive(Debug, Clone, Copy, PartialEq, Eq, Structural)]
pub enum CryptoId {
    /// Not encrypted; the header carries no nonce or tag.
    Plain,
    /// ChaCha20-Poly1305 (RFC 8439).
    ChaCha20Poly1305,
    /// AES-256-GCM.
    Aes256Gcm,
}

/// The on-binary number of each cipher.
pub open spec fn crypto_number(id: CryptoId) -> u8 {
    match id {
        CryptoId::Plain => 0,
        CryptoId::ChaCha20Poly1305 => 1,
        CryptoId::Aes256Gcm => 2,
    }
}

/// The cipher an on-binary number names, if any.
pub open spec fn crypto_of_number(v: u8) -> Option<CryptoId> {
    if v == 0 {
        Some(CryptoId::Plain)
    } else if v == 1 {
        Some(CryptoId::ChaCha20Poly1305)
    } else if v == 2 {
        Some(CryptoId::Aes256Gcm)
    } else {
        None
    }
}

impl CryptoId {
    /// The byte written to the high nibble of an entry's tag byte.
    pub fn as_u8(self) -> (r: u8)
        ensures
            r == crypto_number(self),
            r < 16,
    {
        match self {
            CryptoId::Plain => 0,
            CryptoId::ChaCha20Poly1305 => 1,
            CryptoId::Aes256Gcm => 2,
        }
    }

    /// Reads a crypto id back out of an entry's tag byte; an unassigned
    /// number is `Error::UnknownCrypto`.
    pub fn from_u8(v: u8) -> (r: Result<CryptoId, Error>)
        ensures
            match crypto_of_number(v) {
                Some(id) => r == Ok::<CryptoId, Error>(id),
                None => r == Err::<CryptoId, Error>(Error::UnknownCrypto(v)),
            },
    {
        match v {
            0 => Ok(CryptoId::Plain),
            1 => Ok(CryptoId::ChaCha20Poly1305),
            2 => Ok(CryptoId::Aes256Gcm),
            other => Err(Error::UnknownCrypto(other)),
        }
    }
}

/// Reading back the number of a codec gives the codec again.
pub proof fn lemma_codec_number_roundtrip(id: CodecId)
    ensures
        codec_of_number(codec_number(id)) == Some(id),
{
}

/// Reading back the number of a cipher gives the cipher again.
pub proof fn lemma_crypto_number_roundtrip(id: CryptoId)
    ensures
        crypto_of_number(crypto_number(id)) == Some(id),
{
}

} // verus!
