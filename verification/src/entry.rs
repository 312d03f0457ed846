use crate::error::Error;
use crate::ids::{
    codec_number, codec_of_number, crypto_number, crypto_of_number, CodecId, CryptoId,
};
use crate::varint::{read_varint, varint_bytes, varint_read, write_varint};
use vstd::prelude::*;

verus! {

/// The decoded header of one on-binary entry, as returned by [`read_header`].
#[derive(Debug, Clone, Copy, PartialEq, Eq)]
pub struct Header {
    /// The compression applied to the payload.
    pub codec: CodecId,
    /// The AEAD cipher the payload was sealed with, if any.
    pub crypto: CryptoId,
    /// Length of the file before compression and encryption, as claimed by
    /// the (untrusted) entry.
    pub orig_len: u64,
    /// The AEAD nonce, present exactly when `crypto` is not `Plain`.
    pub nonce: Option<[u8; 12]>,
    /// The detached AEAD tag, present under the same condition as `nonce`.
    pub tag: Option<[u8; 16]>,
    /// Offset into the entry at which the payload begins.
    pub payload_offset: usize,
    /// Length of the leading bytes (tag byte and length varint) that a
    /// sealed entry's tag covers as associated data.
    pub aad_len: usize,
}

/// The first byte of an entry: the codec in the low nibble, the cipher in
/// the high one.
pub open spec fn tag_byte(codec: CodecId, crypto: CryptoId) -> u8 {
    (codec_number(codec) + 16 * crypto_number(crypto)) as u8
}

/// The bytes every entry starts with: the tag byte and the length varint.
pub open spec fn header_bytes(codec: CodecId, crypto: CryptoId, orig_len: u64) -> Seq<u8> {
    seq![tag_byte(codec, crypto)] + varint_bytes(orig_len as nat)
}

/// The bytes of one complete entry.
pub open spec fn entry_bytes(
    codec: CodecId,
    crypto: CryptoId,
    orig_len: u64,
    nonce_tag: Option<([u8; 12], [u8; 16])>,
    payload: Seq<u8>,
) -> Seq<u8> {
    header_bytes(codec, crypto, orig_len) + match nonce_tag {
        Some((n, t)) => n@ + t@,
        None => Seq::<u8>::empty(),
    } + payload
}

/// Appends `src` to `out`.
pub fn extend_bytes(out: &mut Vec<u8>, src: &[u8])
    ensures
        final(out)@ == old(out)@ + src@,
{
    let mut i: usize = 0;
    while i < src.len()
        invariant
            i <= src.len(),
            out@ == old(out)@ + src@.subrange(0, i as int),
        decreases src.len() - i,
    {
        out.push(src[i]);
        assert(src@.subrange(0, i + 1) == src@.subrange(0, i as int).push(src@[i as int]));
        i = i + 1;
    }
    assert(src@.subrange(0, src.len() as int) == src@);
}

/// Appends the part of the header every entry has -- the tag byte and the
/// length varint -- to `out`.
pub fn write_header(out: &mut Vec<u8>, codec: CodecId, crypto: CryptoId, orig_len: u64)
    ensures
        final(out)@ == old(out)@ + header_bytes(codec, crypto, orig_len),
{
    let c = codec.as_u8();
    let k = crypto.as_u8();
    let tag = c | (k << 4);
    assert(tag == c + 16 * k) by (bit_vector)
        requires
            c < 16,
            k < 16,
            tag == c | (k << 4),
    ;
    out.push(tag);
    let ghost mid = out@;
    write_varint(out, orig_len);
    assert(out@ == old(out)@ + header_bytes(codec, crypto, orig_len));
}

/// Appends one complete entry -- header, the nonce and tag when sealed, then
/// `payload` -- to `out`.
pub fn write_entry(
    out: &mut Vec<u8>,
    codec: CodecId,
    crypto: CryptoId,
    orig_len: u64,
    nonce_tag: Option<([u8; 12], [u8; 16])>,
    payload: &[u8],
)
    ensures
        final(out)@ == old(out)@ + entry_bytes(codec, crypto, orig_len, nonce_tag, payload@),
{
    write_header(out, codec, crypto, orig_len);
    if let Some((nonce, tag)) = nonce_tag {
        extend_bytes(out, nonce.as_slice());
        extend_bytes(out, tag.as_slice());
    }
    extend_bytes(out, payload);
}

/// What parsing the header at the front of `s` must produce.
pub open spec fn header_read_as(s: Seq<u8>, r: Result<Header, Error>) -> bool {
    if s.len() == 0 {
        r == Err::<Header, Error>(Error::Truncated)
    } else if codec_of_number(s[0] & 0x0f) is None {
        r == Err::<Header, Error>(Error::UnknownCodec(s[0] & 0x0f))
    } else if crypto_of_number(s[0] >> 4) is None {
        r == Err::<Header, Error>(Error::UnknownCrypto(s[0] >> 4))
    } else {
        match varint_read(s.drop_first()) {
            Err(e) => r == Err::<Header, Error>(e),
            Ok((v, used)) => {
                let crypto = crypto_of_number(s[0] >> 4)->0;
                let offset = 1 + used;
                if crypto != CryptoId::Plain && s.len() < offset + 28 {
                    r == Err::<Header, Error>(Error::Truncated)
                } else {
                    &&& r is Ok
                    &&& r->Ok_0.codec == codec_of_number(s[0] & 0x0f)->0
                    &&& r->Ok_0.crypto == crypto
                    &&& r->Ok_0.orig_len == v
                    &&& r->Ok_0.aad_len == offset
                    &&& if crypto == CryptoId::Plain {
                        &&& r->Ok_0.nonce is None
                        &&& r->Ok_0.tag is None
                        &&& r->Ok_0.payload_offset == offset
                    } else {
                        &&& r->Ok_0.nonce is Some
                        &&& r->Ok_0.tag is Some
                        &&& r->Ok_0.nonce->0@ == s.subrange(offset, offset + 12)
                        &&& r->Ok_0.tag->0@ == s.subrange(offset + 12, offset + 28)
                        &&& r->Ok_0.payload_offset == offset + 28
                    }
                }
            },
        }
    }
}

/// Parses the header at the front of `entry`. Only the header is examined;
/// the payload starts at `payload_offset`.
pub fn read_header(entry: &[u8]) -> (r: Result<Header, Error>)
    ensures
        header_read_as(entry@, r),
{
    if entry.len() == 0 {
        return Err(Error::Truncated);
    }
    let tag_byte = entry[0];
    let codec = match CodecId::from_u8(tag_byte & 0x0f) {
        Ok(c) => c,
        Err(e) => return Err(e),
    };
    let crypto = match CryptoId::from_u8(tag_byte >> 4) {
        Ok(c) => c,
        Err(e) => return Err(e),
    };
    let rest = slice_from(entry, 1);
    assert(rest@ == entry@.drop_first());
    let (orig_len, used) = match read_varint(rest) {
        Ok(p) => p,
        Err(e) => return Err(e),
    };
    proof {
        crate::varint::lemma_varint_read_len(rest@);
    }
    let offset = 1 + used;
    let (nonce, tag, payload_offset) = match crypto {
        CryptoId::Plain => (None, None, offset),
        _ => {
            if entry.len() < 28 || entry.len() - 28 < offset {
                return Err(Error::Truncated);
            }
            let mut nonce = [0u8; 12];
            let mut k: usize = 0;
            while k < 12
                invariant
                    k <= 12,
                    offset + 28 <= entry.len(),
                    forall|j: int| 0 <= j < k ==> nonce@[j] == entry@[offset + j],
                decreases 12 - k,
            {
                nonce[k] = entry[offset + k];
                k = k + 1;
            }
            let mut tag = [0u8; 16];
            let mut k: usize = 0;
            while k < 16
                invariant
                    k <= 16,
                    offset + 28 <= entry.len(),
                    forall|j: int| 0 <= j < k ==> tag@[j] == entry@[offset + 12 + j],
                decreases 16 - k,
            {
                tag[k] = entry[offset + 12 + k];
                k = k + 1;
            }
            assert(nonce@ == entry@.subrange(offset as int, offset + 12));
            assert(tag@ == entry@.subrange(offset + 12, offset + 28));
            (Some(nonce), Some(tag), offset + 28)
        },
    };
    Ok(
        Header {
            codec,
            crypto,
            orig_len,
            nonce,
            tag,
            payload_offset,
            aad_len: offset,
        },
    )
}

/// `s[from..]`.
pub fn slice_from(s: &[u8], from: usize) -> (r: &[u8])
    requires
        from <= s.len(),
    ensures
        r@ == s@.subrange(from as int, s@.len() as int),
{
    let (_, tail) = s.split_at(from);
    tail
}

/// Reading the header of an entry that `write_entry` produced gives back
/// the codec, the cipher, the length and the nonce and tag it was written
/// with, and the payload is exactly what follows `payload_offset`; the
/// associated data the tag covers is the tag byte and the length varint.
pub proof fn law_entry_roundtrip(
    codec: CodecId,
    crypto: CryptoId,
    orig_len: u64,
    nonce_tag: Option<([u8; 12], [u8; 16])>,
    payload: Seq<u8>,
)
    requires
        (crypto == CryptoId::Plain) == (nonce_tag is None),
    ensures
        forall|r: Result<Header, Error>|
            #![trigger header_read_as(entry_bytes(codec, crypto, orig_len, nonce_tag, payload), r)]
            header_read_as(entry_bytes(codec, crypto, orig_len, nonce_tag, payload), r) ==> {
                let s = entry_bytes(codec, crypto, orig_len, nonce_tag, payload);
                &&& r is Ok
                &&& r->Ok_0.codec == codec
                &&& r->Ok_0.crypto == crypto
                &&& r->Ok_0.orig_len == orig_len
                &&& r->Ok_0.aad_len == header_bytes(codec, crypto, orig_len).len()
                &&& s.subrange(0, r->Ok_0.aad_len as int) == header_bytes(codec, crypto, orig_len)
                &&& match nonce_tag {
                    Some((n, t)) => r->Ok_0.nonce == Some(n) && r->Ok_0.tag == Some(t),
                    None => r->Ok_0.nonce is None && r->Ok_0.tag is None,
                }
                &&& r->Ok_0.payload_offset <= s.len()
                &&& s.subrange(r->Ok_0.payload_offset as int, s.len() as int) == payload
            },
{
    let s = entry_bytes(codec, crypto, orig_len, nonce_tag, payload);
    let c = codec_number(codec);
    let k = crypto_number(crypto);
    let t = tag_byte(codec, crypto);
    assert(t == c + 16 * k);
    assert((t & 0x0f) == c && (t >> 4) == k) by (bit_vector)
        requires
            c < 16,
            k < 16,
            t == c + 16 * k,
    ;
    crate::ids::lemma_codec_number_roundtrip(codec);
    crate::ids::lemma_crypto_number_roundtrip(crypto);
    let v = varint_bytes(orig_len as nat);
    let extra = match nonce_tag {
        Some((n, tg)) => n@ + tg@,
        None => Seq::<u8>::empty(),
    };
    let rest = extra + payload;
    assert(s == seq![t] + (v + rest));
    assert(s.drop_first() == v + rest);
    crate::varint::law_varint_roundtrip(orig_len, rest);
    let offset: int = 1 + v.len() as int;
    assert(s.subrange(0, offset) == seq![t] + v);
    assert forall|r: Result<Header, Error>|
        #![trigger header_read_as(entry_bytes(codec, crypto, orig_len, nonce_tag, payload), r)]
        header_read_as(s, r) implies {
            &&& r is Ok
            &&& r->Ok_0.codec == codec
            &&& r->Ok_0.crypto == crypto
            &&& r->Ok_0.orig_len == orig_len
            &&& r->Ok_0.aad_len == header_bytes(codec, crypto, orig_len).len()
            &&& s.subrange(0, r->Ok_0.aad_len as int) == header_bytes(codec, crypto, orig_len)
            &&& match nonce_tag {
                Some((n, tg)) => r->Ok_0.nonce == Some(n) && r->Ok_0.tag == Some(tg),
                None => r->Ok_0.nonce is None && r->Ok_0.tag is None,
            }
            &&& r->Ok_0.payload_offset <= s.len()
            &&& s.subrange(r->Ok_0.payload_offset as int, s.len() as int) == payload
        } by {
        match nonce_tag {
            Some((n, tg)) => {
                assert(s == (seq![t] + v) + (n@ + tg@ + payload));
                assert(s.subrange(offset, offset + 12) == n@);
                assert(s.subrange(offset + 12, offset + 28) == tg@);
                assert(s.subrange(offset + 28, s.len() as int) == payload);
                let h = r->Ok_0;
                assert(h.nonce->0@ == n@);
                assert(h.tag->0@ == tg@);
                assert(h.nonce->0 == n);
                assert(h.tag->0 == tg);
            },
            None => {
                assert(s == (seq![t] + v) + payload);
                assert(s.subrange(offset, s.len() as int) == payload);
            },
        }
    }
}

} // verus!
