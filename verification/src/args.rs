//! The argument vocabulary the embedding macros share: codec names, cipher
//! names, and the options of the encrypting form.

use crate::best::AutoTier;
use crate::glob::chars_of;
use crate::ids::{CodecId, CryptoId};
use vstd::prelude::*;

verus! {

/// The `codec = ...` argument: one named codec, or an `auto` policy naming
/// a tier of candidates to pick the smallest output from.
#[derive(Debug, Clone, Copy, PartialEq, Eq, Structural)]
pub enum CodecArg {
    /// Always this codec.
    Fixed(CodecId),
    /// The smallest output among a tier's candidates.
    Auto(AutoTier),
}

/// Whether two strings hold the same characters.
pub fn str_eq(a: &str, b: &str) -> (r: bool)
    ensures
        r == (a@ == b@),
{
    let x = chars_of(a);
    let y = chars_of(b);
    if x.len() != y.len() {
        return false;
    }
    let mut i: usize = 0;
    while i < x.len()
        invariant
            i <= x@.len(),
            x@.len() == y@.len(),
            x@ == a@,
            y@ == b@,
            forall|j: int| 0 <= j < i ==> x@[j] == y@[j],
        decreases x@.len() - i,
    {
        if x[i] != y[i] {
            return false;
        }
        i = i + 1;
    }
    assert(x@ =~= y@);
    true
}

/// The codec argument a name spells, if any.
pub open spec fn codec_named(name: Seq<char>) -> Option<CodecArg> {
    if name == "store"@ {
        Some(CodecArg::Fixed(CodecId::Store))
    } else if name == "deflate"@ {
        Some(CodecArg::Fixed(CodecId::Deflate))
    } else if name == "lz4"@ {
        Some(CodecArg::Fixed(CodecId::Lz4))
    } else if name == "snappy"@ {
        Some(CodecArg::Fixed(CodecId::Snappy))
    } else if name == "zstd"@ {
        Some(CodecArg::Fixed(CodecId::Zstd))
    } else if name == "lzma"@ {
        Some(CodecArg::Fixed(CodecId::Lzma))
    } else if name == "auto_fast"@ {
        Some(CodecArg::Auto(AutoTier::Fast))
    } else if name == "auto"@ {
        Some(CodecArg::Auto(AutoTier::Balanced))
    } else if name == "auto_small"@ {
        Some(CodecArg::Auto(AutoTier::Small))
    } else {
        None
    }
}

/// Parses the value of a `codec = ...` argument, or `None` where it names
/// no codec. Every macro shares this vocabulary.
pub fn parse_codec(name: &str) -> (r: Option<CodecArg>)
    ensures
        r == codec_named(name@),
{
    if str_eq(name, "store") {
        Some(CodecArg::Fixed(CodecId::Store))
    } else if str_eq(name, "deflate") {
        Some(CodecArg::Fixed(CodecId::Deflate))
    } else if str_eq(name, "lz4") {
        Some(CodecArg::Fixed(CodecId::Lz4))
    } else if str_eq(name, "snappy") {
        Some(CodecArg::Fixed(CodecId::Snappy))
    } else if str_eq(name, "zstd") {
        Some(CodecArg::Fixed(CodecId::Zstd))
    } else if str_eq(name, "lzma") {
        Some(CodecArg::Fixed(CodecId::Lzma))
    } else if str_eq(name, "auto_fast") {
        Some(CodecArg::Auto(AutoTier::Fast))
    } else if str_eq(name, "auto") {
        Some(CodecArg::Auto(AutoTier::Balanced))
    } else if str_eq(name, "auto_small") {
        Some(CodecArg::Auto(AutoTier::Small))
    } else {
        None
    }
}

/// The `cipher = ...` argument: which AEAD cipher to seal with.
#[derive(Debug, Clone, Copy, PartialEq, Eq, Structural)]
pub enum CipherArg {
    /// ChaCha20-Poly1305.
    ChaCha,
    /// AES-256-GCM.
    Aes,
}

/// The arguments of the encrypting macro: a path, then optionally a codec,
/// a cipher, and `key = runtime`, in any order.
pub struct CryptArgs {
    /// The path literal's value.
    pub path: String,
    /// The codec argument, if given.
    pub codec: Option<CodecArg>,
    /// The cipher argument, if given.
    pub cipher: Option<CipherArg>,
    /// Whether the key comes from the build environment at build time
    /// rather than being embedded.
    pub runtime_key: bool,
}

/// What an option of the encrypting macro can be refused for.
#[derive(Debug, Clone, Copy, PartialEq, Eq, Structural)]
pub enum OptionError {
    /// `codec = ...` names no codec.
    UnknownCodec,
    /// `cipher = ...` names no cipher.
    UnknownCipher,
    /// `key = ...` is anything but `runtime`.
    ExpectedRuntime,
    /// The option is none of `codec`, `cipher` and `key`.
    UnknownOption,
}

/// The codec an encrypted entry is compressed with: `Deflate` unless a
/// codec is named, and `Deflate` for an `auto` policy too (the entry is
/// sealed either way, so the size difference between codecs matters less).
pub open spec fn crypt_codec(codec: Option<CodecArg>) -> CodecId {
    match codec {
        Some(CodecArg::Fixed(id)) => id,
        _ => CodecId::Deflate,
    }
}

/// The cipher an entry is sealed with: ChaCha20-Poly1305 unless AES is
/// named.
pub open spec fn crypt_cipher(cipher: Option<CipherArg>) -> CryptoId {
    match cipher {
        Some(CipherArg::Aes) => CryptoId::Aes256Gcm,
        _ => CryptoId::ChaCha20Poly1305,
    }
}

impl CryptArgs {
    /// Arguments naming only a path.
    pub fn new(path: String) -> (r: CryptArgs)
        ensures
            r.path == path,
            r.codec is None,
            r.cipher is None,
            !r.runtime_key,
    {
        CryptArgs { path, codec: None, cipher: None, runtime_key: false }
    }

    /// The codec to compress with before sealing.
    pub fn codec_id(&self) -> (r: CodecId)
        ensures
            r == crypt_codec(self.codec),
    {
        match self.codec {
            Some(CodecArg::Fixed(id)) => id,
            _ => CodecId::Deflate,
        }
    }

    /// The codec argument to compress with before sealing: the one given,
    /// else `Deflate`. Unlike [`CryptArgs::codec_id`], this keeps an `auto`
    /// policy, whose selection pass then runs on the plaintext.
    pub fn codec(&self) -> (r: CodecArg)
        ensures
            r == match self.codec {
                Some(c) => c,
                None => CodecArg::Fixed(CodecId::Deflate),
            },
    {
        match self.codec {
            Some(c) => c,
            None => CodecArg::Fixed(CodecId::Deflate),
        }
    }

    /// The AEAD cipher to seal with.
    pub fn crypto_id(&self) -> (r: CryptoId)
        ensures
            r == crypt_cipher(self.cipher),
    {
        match self.cipher {
            Some(CipherArg::Aes) => CryptoId::Aes256Gcm,
            _ => CryptoId::ChaCha20Poly1305,
        }
    }

    /// Takes one `key = value` option into the arguments; a later option
    /// of the same key replaces an earlier one.
    pub fn apply_option(&mut self, key: &str, val: &str) -> (r: Result<(), OptionError>)
        ensures
            final(self).path == old(self).path,
            key@ == "codec"@ ==> match codec_named(val@) {
                Some(c) => r is Ok && final(self).codec == Some(c) && final(self).cipher == old(
                    self,
                ).cipher && final(self).runtime_key == old(self).runtime_key,
                None => r == Err::<(), OptionError>(OptionError::UnknownCodec),
            },
            key@ == "cipher"@ ==> if val@ == "chacha"@ {
                r is Ok && final(self).cipher == Some(CipherArg::ChaCha) && final(self).codec == old(
                    self,
                ).codec && final(self).runtime_key == old(self).runtime_key
            } else if val@ == "aes"@ {
                r is Ok && final(self).cipher == Some(CipherArg::Aes) && final(self).codec == old(
                    self,
                ).codec && final(self).runtime_key == old(self).runtime_key
            } else {
                r == Err::<(), OptionError>(OptionError::UnknownCipher)
            },
            key@ == "key"@ ==> if val@ == "runtime"@ {
                r is Ok && final(self).runtime_key && final(self).codec == old(self).codec
                    && final(self).cipher == old(self).cipher
            } else {
                r == Err::<(), OptionError>(OptionError::ExpectedRuntime)
            },
            key@ != "codec"@ && key@ != "cipher"@ && key@ != "key"@ ==> r == Err::<
                (),
                OptionError,
            >(OptionError::UnknownOption),
    {
        proof {
            reveal_strlit("codec");
            reveal_strlit("cipher");
            reveal_strlit("key");
            reveal_strlit("chacha");
            reveal_strlit("aes");
            reveal_strlit("runtime");
            assert("codec"@.len() == 5);
            assert("cipher"@.len() == 6);
            assert("key"@.len() == 3);
            assert("codec"@ != "cipher"@);
            assert("codec"@ != "key"@);
            assert("cipher"@ != "key"@);
            assert("chacha"@.len() == 6);
            assert("aes"@.len() == 3);
        }
        if str_eq(key, "codec") {
            match parse_codec(val) {
                Some(c) => {
                    self.codec = Some(c);
                    Ok(())
                },
                None => Err(OptionError::UnknownCodec),
            }
        } else if str_eq(key, "cipher") {
            if str_eq(val, "chacha") {
                self.cipher = Some(CipherArg::ChaCha);
                Ok(())
            } else if str_eq(val, "aes") {
                self.cipher = Some(CipherArg::Aes);
                Ok(())
            } else {
                Err(OptionError::UnknownCipher)
            }
        } else if str_eq(key, "key") {
            if str_eq(val, "runtime") {
                self.runtime_key = true;
                Ok(())
            } else {
                Err(OptionError::ExpectedRuntime)
            }
        } else {
            Err(OptionError::UnknownOption)
        }
    }
}

} // verus!
