//! Packing files into entries at build time: compress, never grow, check
//! that this crate's decoder reads the payload back, then frame it (and,
//! for the encrypting form, seal it first).

use crate::args::CodecArg;
use crate::best::{in_tier, AutoTier};
use crate::crypt::dispatch::{can_seal, opened_by, sealed_by};
use crate::dispatch::{decode_outcome, encodes, seq_result};
use crate::entry::entry_bytes;
use crate::error::Error;
use crate::ids::{CodecId, CryptoId};
use vstd::prelude::*;
use vstd::string::StringExecFns;

verus! {

/// How the `codec = ...` argument spells each codec.
pub open spec fn codec_word(codec: CodecId) -> Seq<char> {
    match codec {
        CodecId::Store => "store"@,
        CodecId::Deflate => "deflate"@,
        CodecId::Lz4 => "lz4"@,
        CodecId::Snappy => "snappy"@,
        CodecId::Zstd => "zstd"@,
        CodecId::Lzma => "lzma"@,
    }
}

/// The codec's name as the macros' arguments spell it, so that a
/// diagnostic names what the user would edit.
pub fn codec_name(codec: CodecId) -> (r: String)
    ensures
        r@ == codec_word(codec),
{
    match codec {
        CodecId::Store => String::from_str("store"),
        CodecId::Deflate => String::from_str("deflate"),
        CodecId::Lz4 => String::from_str("lz4"),
        CodecId::Snappy => String::from_str("snappy"),
        CodecId::Zstd => String::from_str("zstd"),
        CodecId::Lzma => String::from_str("lzma"),
    }
}

/// Why a payload failed the read-back check.
#[derive(Debug, Clone, Copy, PartialEq, Eq, Structural)]
pub enum DecodeMismatch {
    /// The decoder refused the payload.
    Rejected(Error),
    /// The decoder produced `got` bytes where `expected` were written.
    WrongLength { got: usize, expected: usize },
    /// The decoded bytes first differ from the input at `at`, where the
    /// input holds `want` and the decoder gave `found`.
    Differs { at: usize, want: u8, found: u8 },
}

/// The first position before the end of both at which `a` and `b` differ.
pub open spec fn first_diff(a: Seq<u8>, b: Seq<u8>, at: int) -> bool {
    &&& 0 <= at < a.len()
    &&& at < b.len()
    &&& a[at] != b[at]
    &&& forall|i: int| 0 <= i < at ==> a[i] == b[i]
}

/// Finds the first position at which two equally long byte strings differ.
pub fn first_difference(a: &[u8], b: &[u8]) -> (r: Option<usize>)
    requires
        a@.len() == b@.len(),
    ensures
        match r {
            Some(at) => first_diff(a@, b@, at as int),
            None => a@ == b@,
        },
{
    let mut i: usize = 0;
    while i < a.len()
        invariant
            i <= a@.len(),
            a@.len() == b@.len(),
            forall|j: int| 0 <= j < i ==> a@[j] == b@[j],
        decreases a@.len() - i,
    {
        if a[i] != b[i] {
            return Some(i);
        }
        i = i + 1;
    }
    assert(a@ =~= b@);
    None
}

/// What the read-back check concludes from a decode of the payload meant
/// to hold `data`.
pub open spec fn mismatch_of(data: Seq<u8>, decoded: Result<Seq<u8>, Error>, r: Result<
    (),
    DecodeMismatch,
>) -> bool {
    match decoded {
        Err(e) => r == Err::<(), DecodeMismatch>(DecodeMismatch::Rejected(e)),
        Ok(v) => if v.len() != data.len() {
            r == Err::<(), DecodeMismatch>(
                DecodeMismatch::WrongLength { got: v.len() as usize, expected: data.len() as usize },
            )
        } else if v == data {
            r is Ok
        } else {
            exists|at: int|
                first_diff(data, v, at) && r == Err::<(), DecodeMismatch>(
                    DecodeMismatch::Differs { at: at as usize, want: data[at], found: v[at] },
                )
        },
    }
}

/// Checks that this crate's decoder reads `payload` back as `data`: the
/// encoders run on the build machine and the decoder in the consumer's
/// binary, and nothing else checks that the two agree.
pub fn check_decode(codec: CodecId, data: &[u8], payload: &[u8]) -> (r: Result<(), DecodeMismatch>)
    ensures
        exists|d: Result<Seq<u8>, Error>|
            decode_outcome(codec, payload@, data@.len() as usize, d) && mismatch_of(data@, d, r),
        r is Ok ==> decode_outcome(codec, payload@, data@.len() as usize, Ok::<Seq<u8>, Error>(data@)),
{
    let decoded = crate::dispatch::decompress(codec, payload, data.len());
    let ghost d = seq_result(decoded);
    match decoded {
        Err(e) => {
            let r = Err(DecodeMismatch::Rejected(e));
            assert(mismatch_of(data@, d, r));
            r
        },
        Ok(v) => {
            if v.len() != data.len() {
                let r = Err(DecodeMismatch::WrongLength { got: v.len(), expected: data.len() });
                assert(mismatch_of(data@, d, r));
                return r;
            }
            match first_difference(data, v.as_slice()) {
                Some(at) => {
                    let r = Err(DecodeMismatch::Differs { at, want: data[at], found: v[at] });
                    assert(first_diff(data@, v@, at as int));
                    assert(mismatch_of(data@, d, r));
                    r
                },
                None => {
                    let r = Ok(());
                    assert(mismatch_of(data@, d, r));
                    r
                },
            }
        },
    }
}

/// Compresses `data` with `codec`, keeps the result only if it is strictly
/// shorter (else stores the data), and checks that the payload reads back.
/// A check failure is reported, never routed into the `Store` fallback:
/// that fallback is a size decision, and an encoder bug must not look like
/// an incompressible file. Store, DEFLATE and LZMA payloads, and Snappy
/// ones of up to `u32::MAX` bytes, always pass.
pub fn compress_checked(codec: CodecId, data: &[u8]) -> (r: Result<(CodecId, Vec<u8>), DecodeMismatch>)
    ensures
        match r {
            Ok((c, p)) => {
                &&& c == codec || c == CodecId::Store
                &&& p@.len() <= data@.len()
                &&& (c == codec && codec != CodecId::Store ==> p@.len() < data@.len())
                &&& encodes(c, data@, p@)
                &&& decode_outcome(c, p@, data@.len() as usize, Ok::<Seq<u8>, Error>(data@))
            },
            Err(_) => true,
        },
        codec == CodecId::Store || codec == CodecId::Deflate || codec == CodecId::Lzma || (codec
            == CodecId::Snappy && data@.len() <= u32::MAX) ==> r is Ok,
{
    let payload = crate::dispatch::compress(codec, data);
    let (c, p) = if payload.len() < data.len() {
        (codec, payload)
    } else {
        (CodecId::Store, crate::store::compress(data))
    };
    let checked = check_decode(c, data, p.as_slice());
    proof {
        if c == CodecId::Store || c == CodecId::Deflate || c == CodecId::Lzma || (c == CodecId::Snappy
            && data@.len() <= u32::MAX) {
            let d = choose|d: Result<Seq<u8>, Error>|
                decode_outcome(c, p@, data@.len() as usize, d) && mismatch_of(data@, d, checked);
            crate::dispatch::law_codec_roundtrip(c, data@, p@, d);
            assert(d == Ok::<Seq<u8>, Error>(data@));
        }
    }
    match checked {
        Ok(()) => Ok((c, p)),
        Err(m) => Err(m),
    }
}

/// The codec a codec argument may end up writing: the named one, or any
/// candidate of the policy's tier; and `Store` in every case.
pub open spec fn allowed_by(arg: CodecArg, c: CodecId) -> bool {
    c == CodecId::Store || match arg {
        CodecArg::Fixed(id) => c == id,
        CodecArg::Auto(tier) => in_tier(tier, c),
    }
}

/// Compresses `data` as a codec argument asks -- with the named codec
/// (falling back to `Store` where it does not help), or with the smallest
/// output among a policy's candidates -- and checks that the payload reads
/// back.
pub fn compress_arg(arg: CodecArg, data: &[u8]) -> (r: Result<(CodecId, Vec<u8>), DecodeMismatch>)
    ensures
        match r {
            Ok((c, p)) => {
                &&& allowed_by(arg, c)
                &&& p@.len() <= data@.len()
                &&& encodes(c, data@, p@)
                &&& decode_outcome(c, p@, data@.len() as usize, Ok::<Seq<u8>, Error>(data@))
            },
            Err(_) => true,
        },
        arg == CodecArg::Fixed(CodecId::Store) || arg == CodecArg::Fixed(CodecId::Deflate) || arg
            == CodecArg::Fixed(CodecId::Lzma) || (arg == CodecArg::Fixed(CodecId::Snappy) && data@.len()
            <= u32::MAX) ==> r is Ok,
{
    match arg {
        CodecArg::Fixed(id) => compress_checked(id, data),
        CodecArg::Auto(tier) => {
            let (c, p) = crate::best::compress_best_in(tier, data);
            match check_decode(c, data, p.as_slice()) {
                Ok(()) => Ok((c, p)),
                Err(m) => Err(m),
            }
        },
    }
}

/// A plain (unsealed) entry for `data`, compressed as the codec argument
/// asks and checked to read back.
pub fn build_entry(arg: CodecArg, data: &[u8]) -> (r: Result<Vec<u8>, DecodeMismatch>)
    ensures
        match r {
            Ok(e) => exists|c: CodecId, p: Seq<u8>|
                {
                    &&& allowed_by(arg, c)
                    &&& p.len() <= data@.len()
                    &&& encodes(c, data@, p)
                    &&& decode_outcome(c, p, data@.len() as usize, Ok::<Seq<u8>, Error>(data@))
                    &&& e@ == entry_bytes(c, CryptoId::Plain, data@.len() as u64, None, p)
                },
            Err(_) => true,
        },
        arg == CodecArg::Fixed(CodecId::Store) || arg == CodecArg::Fixed(CodecId::Deflate) || arg
            == CodecArg::Fixed(CodecId::Lzma) || (arg == CodecArg::Fixed(CodecId::Snappy) && data@.len()
            <= u32::MAX) ==> r is Ok,
{
    match compress_arg(arg, data) {
        Ok((c, p)) => {
            let mut entry: Vec<u8> = Vec::new();
            crate::entry::write_entry(&mut entry, c, CryptoId::Plain, data.len() as u64, None, p.as_slice());
            proof {
                assert(Seq::<u8>::empty() + entry_bytes(c, CryptoId::Plain, data@.len() as u64, None, p@)
                    =~= entry_bytes(c, CryptoId::Plain, data@.len() as u64, None, p@));
            }
            Ok(entry)
        },
        Err(m) => Err(m),
    }
}

/// `outs` holds what each candidate of the smallest-output policy makes of
/// `data`.
pub open spec fn small_outputs(data: Seq<u8>, outs: Seq<Seq<u8>>) -> bool {
    &&& outs.len() == crate::best::TABLE_LEN
    &&& forall|i: int|
        0 <= i < crate::best::TABLE_LEN && #[trigger] in_tier(AutoTier::Small, crate::best::codec_at(i))
            ==> encodes(crate::best::codec_at(i), data, outs[i])
}

/// A payload `p` of codec `c` that fails the read-back check with `m`:
/// only LZ4 and Zstandard ones, rejected as corrupt, and Snappy ones of
/// more than `u32::MAX` bytes.
pub open spec fn best_mismatch(data: Seq<u8>, c: CodecId, p: Seq<u8>, m: DecodeMismatch) -> bool {
    &&& (c == CodecId::Lz4 || c == CodecId::Zstd || (c == CodecId::Snappy && u32::MAX < data.len()))
    &&& exists|d: Result<Seq<u8>, Error>|
        decode_outcome(c, p, data.len() as usize, d) && #[trigger] mismatch_of(data, d, Err(m))
    &&& (c == CodecId::Lz4 || c == CodecId::Zstd) ==> m == DecodeMismatch::Rejected(Error::Corrupt)
}

/// What `build_entry_best` gives for `data` when the smallest candidate is
/// `pick`: the plain entry of that payload where it reads back, which it
/// always does for the Store, DEFLATE and LZMA codecs and for Snappy on at
/// most `u32::MAX` bytes; otherwise the mismatch the check found.
pub open spec fn best_entry(data: Seq<u8>, pick: (CodecId, Seq<u8>), r: Result<Vec<u8>, DecodeMismatch>) -> bool {
    match r {
        Ok(e) => {
            &&& pick.1.len() <= data.len()
            &&& encodes(pick.0, data, pick.1)
            &&& decode_outcome(pick.0, pick.1, data.len() as usize, Ok(data))
            &&& e@ == entry_bytes(pick.0, CryptoId::Plain, data.len() as u64, None, pick.1)
        },
        Err(m) => best_mismatch(data, pick.0, pick.1, m),
    }
}

/// A plain entry for `data` with the codec that compresses it best, the
/// winner checked to read back (the other candidates never reach the
/// binary, so they are not decoded).
pub fn build_entry_best(data: &[u8]) -> (r: Result<Vec<u8>, DecodeMismatch>)
    ensures
        exists|outs: Seq<Seq<u8>>|
            small_outputs(data@, outs) && #[trigger] best_entry(
                data@,
                crate::best::tier_pick(AutoTier::Small, outs, data@),
                r,
            ),
{
    let (c, p) = crate::best::compress_best(data);
    let checked = check_decode(c, data, p.as_slice());
    let ghost outs = choose|outs: Seq<Seq<u8>>|
        {
            &&& outs.len() == crate::best::TABLE_LEN
            &&& forall|i: int|
                0 <= i < crate::best::TABLE_LEN && #[trigger] in_tier(
                    AutoTier::Small,
                    crate::best::codec_at(i),
                ) ==> encodes(crate::best::codec_at(i), data@, outs[i])
            &&& (c, p@) == crate::best::tier_pick(AutoTier::Small, outs, data@)
        };
    proof {
        assert(small_outputs(data@, outs));
        let d = choose|d: Result<Seq<u8>, Error>|
            decode_outcome(c, p@, data@.len() as usize, d) && mismatch_of(data@, d, checked);
        assert(data@.len() == data.len());
        if c != CodecId::Snappy || data@.len() <= u32::MAX {
            crate::dispatch::law_codec_roundtrip(c, data@, p@, d);
        }
    }
    match checked {
        Ok(()) => {
            let mut entry: Vec<u8> = Vec::new();
            crate::entry::write_entry(&mut entry, c, CryptoId::Plain, data.len() as u64, None, p.as_slice());
            proof {
                assert(Seq::<u8>::empty() + entry_bytes(c, CryptoId::Plain, data@.len() as u64, None, p@)
                    =~= entry_bytes(c, CryptoId::Plain, data@.len() as u64, None, p@));
                assert(best_entry(data@, crate::best::tier_pick(AutoTier::Small, outs, data@), Ok(entry)));
            }
            Ok(entry)
        },
        Err(m) => {
            proof {
                assert(best_entry(data@, crate::best::tier_pick(AutoTier::Small, outs, data@), Err(m)));
            }
            Err(m)
        },
    }
}

/// A sealed entry for `data`: compressed as the codec argument asks,
/// checked to read back, then sealed under `crypto` with `key` and `nonce`
/// (the compression is checked, not the cipher). Opening the ciphertext
/// with the same key and nonce gives the checked payload back.
pub fn seal_entry(
    arg: CodecArg,
    crypto: CryptoId,
    data: &[u8],
    key: &[u8; 32],
    nonce: &[u8; 12],
) -> (r: Result<Vec<u8>, DecodeMismatch>)
    requires
        can_seal(crypto, data@.len()),
    ensures
        match r {
            Ok(e) => exists|c: CodecId, p: Seq<u8>, ct: Seq<u8>, tag: [u8; 16]|
                {
                    &&& allowed_by(arg, c)
                    &&& p.len() <= data@.len()
                    &&& encodes(c, data@, p)
                    &&& decode_outcome(c, p, data@.len() as usize, Ok::<Seq<u8>, Error>(data@))
                    &&& (ct, tag@) == sealed_by(crypto, key@, nonce@, p)
                    &&& opened_by(crypto, key@, nonce@, ct, tag@) == Some(p)
                    &&& e@ == entry_bytes(
                        c,
                        crypto,
                        data@.len() as u64,
                        Some((*nonce, tag)),
                        ct,
                    )
                },
            Err(_) => true,
        },
        arg == CodecArg::Fixed(CodecId::Store) || arg == CodecArg::Fixed(CodecId::Deflate) || arg
            == CodecArg::Fixed(CodecId::Lzma) || (arg == CodecArg::Fixed(CodecId::Snappy) && data@.len()
            <= u32::MAX) ==> r is Ok,
{
    match compress_arg(arg, data) {
        Ok((c, p)) => {
            let (ct, tag) = crate::crypt::dispatch::seal(crypto, key, nonce, p.as_slice());
            let mut entry: Vec<u8> = Vec::new();
            crate::entry::write_entry(
                &mut entry,
                c,
                crypto,
                data.len() as u64,
                Some((*nonce, tag)),
                ct.as_slice(),
            );
            proof {
                let full = entry_bytes(c, crypto, data@.len() as u64, Some((*nonce, tag)), ct@);
                assert(Seq::<u8>::empty() + full =~= full);
            }
            Ok(entry)
        },
        Err(m) => Err(m),
    }
}

/// The value of an ASCII hexadecimal digit.
pub open spec fn hex_value(c: char) -> Option<u8> {
    if '0' <= c && c <= '9' {
        Some((c as u32 - '0' as u32) as u8)
    } else if 'a' <= c && c <= 'f' {
        Some((c as u32 - 'a' as u32 + 10) as u8)
    } else if 'A' <= c && c <= 'F' {
        Some((c as u32 - 'A' as u32 + 10) as u8)
    } else {
        None
    }
}

/// `s` is exactly 64 hexadecimal digits.
pub open spec fn is_hex_key(s: Seq<char>) -> bool {
    s.len() == 64 && forall|i: int| 0 <= i < 64 ==> (#[trigger] hex_value(s[i])) is Some
}

/// The 32 bytes that 64 hexadecimal digits spell, high digit first.
pub open spec fn hex_key_bytes(s: Seq<char>) -> Seq<u8> {
    Seq::new(
        32,
        |i: int| (hex_value(s[2 * i])->Some_0 * 16 + hex_value(s[2 * i + 1])->Some_0) as u8,
    )
}

/// The sixteen hexadecimal digits in lower case, in order of value.
pub open spec fn lower_hex_digits() -> Seq<char> {
    seq!['0', '1', '2', '3', '4', '5', '6', '7', '8', '9', 'a', 'b', 'c', 'd', 'e', 'f']
}

/// The sixteen hexadecimal digits in upper case, in order of value.
pub open spec fn upper_hex_digits() -> Seq<char> {
    seq!['0', '1', '2', '3', '4', '5', '6', '7', '8', '9', 'A', 'B', 'C', 'D', 'E', 'F']
}

/// `c` is the digit of value `d` in either case.
pub open spec fn is_hex_digit_of(c: char, d: int) -> bool {
    0 <= d < 16 && (c == lower_hex_digits()[d] || c == upper_hex_digits()[d])
}

/// A character is a hexadecimal digit exactly when it is one of `0`-`9`,
/// `a`-`f` or `A`-`F`, and it then reads as its value in base 16.
pub proof fn law_hex_digit(c: char)
    ensures
        forall|d: int| #[trigger] is_hex_digit_of(c, d) ==> hex_value(c) == Some(d as u8),
        hex_value(c) matches Some(d) ==> is_hex_digit_of(c, d as int),
        hex_value(c) is None ==> forall|d: int| !#[trigger] is_hex_digit_of(c, d),
{
    let lo = lower_hex_digits();
    let up = upper_hex_digits();
    assert(lo.len() == 16 && up.len() == 16);
    assert(lo[0] == '0' && lo[1] == '1' && lo[2] == '2' && lo[3] == '3' && lo[4] == '4' && lo[5]
        == '5' && lo[6] == '6' && lo[7] == '7' && lo[8] == '8' && lo[9] == '9' && lo[10] == 'a'
        && lo[11] == 'b' && lo[12] == 'c' && lo[13] == 'd' && lo[14] == 'e' && lo[15] == 'f');
    assert(up[0] == '0' && up[1] == '1' && up[2] == '2' && up[3] == '3' && up[4] == '4' && up[5]
        == '5' && up[6] == '6' && up[7] == '7' && up[8] == '8' && up[9] == '9' && up[10] == 'A'
        && up[11] == 'B' && up[12] == 'C' && up[13] == 'D' && up[14] == 'E' && up[15] == 'F');
    if let Some(d) = hex_value(c) {
        assert(is_hex_digit_of(c, d as int));
    }
}

/// Reads one hexadecimal digit.
pub fn hex_digit(c: char) -> (r: Option<u8>)
    ensures
        r == hex_value(c),
        forall|d: int| #[trigger] is_hex_digit_of(c, d) ==> r == Some(d as u8),
        r matches Some(d) ==> is_hex_digit_of(c, d as int),
{
    proof {
        law_hex_digit(c);
    }
    if '0' <= c && c <= '9' {
        Some((c as u32 - '0' as u32) as u8)
    } else if 'a' <= c && c <= 'f' {
        Some((c as u32 - 'a' as u32 + 10) as u8)
    } else if 'A' <= c && c <= 'F' {
        Some((c as u32 - 'A' as u32 + 10) as u8)
    } else {
        None
    }
}

/// Why a build-time key was refused.
#[derive(Debug, Clone, Copy, PartialEq, Eq, Structural)]
pub enum KeyError {
    /// The value is not exactly 64 hexadecimal digits; it had `chars`
    /// characters.
    Malformed { chars: usize },
}

/// Reads a 32-byte key written as exactly 64 hexadecimal digits.
pub fn parse_hex_key(hex: &str) -> (r: Result<[u8; 32], KeyError>)
    ensures
        is_hex_key(hex@) ==> r is Ok && r->Ok_0@ == hex_key_bytes(hex@),
        !is_hex_key(hex@) ==> r == Err::<[u8; 32], KeyError>(
            KeyError::Malformed { chars: hex@.len() as usize },
        ),
{
    let cs = crate::glob::chars_of(hex);
    let n = cs.len();
    if n != 64 {
        return Err(KeyError::Malformed { chars: n });
    }
    let mut i: usize = 0;
    while i < 64
        invariant
            i <= 64,
            cs@ == hex@,
            n == 64,
            cs@.len() == 64,
            forall|j: int| 0 <= j < i ==> (#[trigger] hex_value(cs@[j])) is Some,
        decreases 64 - i,
    {
        if hex_digit(cs[i]).is_none() {
            return Err(KeyError::Malformed { chars: n });
        }
        i = i + 1;
    }
    let mut key = [0u8; 32];
    let mut k: usize = 0;
    while k < 32
        invariant
            k <= 32,
            cs@ == hex@,
            is_hex_key(cs@),
            key@.len() == 32,
            forall|j: int| 0 <= j < k ==> #[trigger] key@[j] == hex_key_bytes(cs@)[j],
        decreases 32 - k,
    {
        let hi = match hex_digit(cs[2 * k]) {
            Some(v) => v,
            None => 0,
        };
        let lo = match hex_digit(cs[2 * k + 1]) {
            Some(v) => v,
            None => 0,
        };
        proof {
            assert(hex_value(cs@[2 * k as int]) is Some);
            assert(hex_value(cs@[2 * k + 1]) is Some);
        }
        key[k] = hi * 16 + lo;
        k = k + 1;
    }
    assert(key@ =~= hex_key_bytes(hex@));
    Ok(key)
}

/// The decimal digit `d` as a character.
pub open spec fn digit_char(d: nat) -> char {
    if d == 0 {
        '0'
    } else if d == 1 {
        '1'
    } else if d == 2 {
        '2'
    } else if d == 3 {
        '3'
    } else if d == 4 {
        '4'
    } else if d == 5 {
        '5'
    } else if d == 6 {
        '6'
    } else if d == 7 {
        '7'
    } else if d == 8 {
        '8'
    } else {
        '9'
    }
}

/// The decimal numeral of `n`, without leading zeros.
pub open spec fn decimal_chars(n: nat) -> Seq<char>
    decreases n,
{
    if n < 10 {
        seq![digit_char(n)]
    } else {
        decimal_chars(n / 10).push(digit_char(n % 10))
    }
}

/// The one-character string of a decimal digit.
pub fn digit_str(d: usize) -> (r: &'static str)
    requires
        d < 10,
    ensures
        r@ == seq![digit_char(d as nat)],
{
    proof {
        reveal_strlit("0");
        reveal_strlit("1");
        reveal_strlit("2");
        reveal_strlit("3");
        reveal_strlit("4");
        reveal_strlit("5");
        reveal_strlit("6");
        reveal_strlit("7");
        reveal_strlit("8");
        reveal_strlit("9");
    }
    if d == 0 {
        "0"
    } else if d == 1 {
        "1"
    } else if d == 2 {
        "2"
    } else if d == 3 {
        "3"
    } else if d == 4 {
        "4"
    } else if d == 5 {
        "5"
    } else if d == 6 {
        "6"
    } else if d == 7 {
        "7"
    } else if d == 8 {
        "8"
    } else {
        "9"
    }
}

/// Writes `n` in decimal.
pub fn decimal(n: usize) -> (r: String)
    ensures
        r@ == decimal_chars(n as nat),
    decreases n,
{
    if n < 10 {
        String::from_str(digit_str(n))
    } else {
        let mut s = decimal(n / 10);
        s.append(digit_str(n % 10));
        s
    }
}

/// A sealed entry, with the build-time key for the embedded-key mode (from
/// which the caller emits a reconstruction function), or `None` where the
/// key is supplied at run time.
pub struct SealedFile {
    /// The entry's bytes.
    pub entry: Vec<u8>,
    /// The embedded key, if any.
    pub key: Option<[u8; 32]>,
}

/// How a sealed file describes itself: the entry's length and whether a
/// key is held, never the key.
pub open spec fn sealed_text(entry_len: nat, has_key: bool) -> Seq<char> {
    "SealedFile { entry_len: "@ + decimal_chars(entry_len) + ", key: "@ + (if has_key {
        "Some(\"[redacted]\")"@
    } else {
        "None"@
    }) + " }"@
}

impl SealedFile {
    /// A debugging description that leaves the key material out: it
    /// depends only on the entry's length and on whether a key is held.
    pub fn describe(&self) -> (r: String)
        ensures
            r@ == sealed_text(self.entry@.len(), self.key is Some),
    {
        let mut s = String::from_str("SealedFile { entry_len: ");
        let n = decimal(self.entry.len());
        s.append(n.as_str());
        s.append(", key: ");
        match self.key {
            Some(_) => s.append("Some(\"[redacted]\")"),
            None => s.append("None"),
        }
        s.append(" }");
        s
    }
}

} // verus!
